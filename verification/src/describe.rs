//! Writing a description back.
//!
//! Every description that the reader accepts can be written out again in one plain form:
//! the program's name and the choice of equals signs, the shell where one is named, and then
//! each option in its turn, with a line for each of its truth values and for each spelling,
//! description and list of fixed values that it has. This module defines that form, writes
//! it, and proves that reading it gives the same description back.

use crate::config::{option_views, Config, ConfigView, ProgramOption, ProgramOptionView};
use crate::error::ConfigErrorView;
use crate::parser::{
    apply_line, bool_value, fixed_values_of, is_item, is_plain, is_read, is_read_option,
    lemma_parsed_is_read, line_fields, option_field, parse, read_lines, top_level_field,
    with_option,
};
use crate::text::{
    chars_of, escape_quotes, free_of, is_trimmed, join, join_strings, lemma_first_index_is,
    lemma_join_keeps_free, lemma_split_of_join, lemma_trim_of_trimmed, split, string_of, texts,
    trim, trim_start, unescape_quotes, unescaped,
};
use vstd::prelude::*;
use vstd::string::*;

verus! {

// ---------------------------------------------------------------------------------------
// The plain form
// ---------------------------------------------------------------------------------------

/// The line that gives the field `name` the value `value`.
pub open spec fn field_line(name: Seq<char>, value: Seq<char>) -> Seq<char> {
    name + ":"@ + " "@ + value
}

/// The line for a field that is written only where it has a value.
pub open spec fn optional_line(name: Seq<char>, value: Seq<char>) -> Seq<Seq<char>> {
    if value.len() > 0 {
        seq![field_line(name, value)]
    } else {
        Seq::empty()
    }
}

/// How a truth value is spelled.
pub open spec fn bool_text(b: bool) -> Seq<char> {
    if b {
        "true"@
    } else {
        "false"@
    }
}

/// How a list of fixed values is spelled: between brackets, commas between its items, the
/// items without the backslashes that escape their quotes.
pub open spec fn fixed_values_text(values: Seq<Seq<char>>) -> Seq<char> {
    "["@ + join(values.map_values(|item: Seq<char>| unescape_quotes(item)), ","@) + "]"@
}

/// The lines that spell out one option.
pub open spec fn option_lines(option: ProgramOptionView) -> Seq<Seq<char>> {
    seq!["option"@ + ":"@] + optional_line("short"@, option.short) + optional_line(
        "long"@,
        option.long,
    ) + optional_line("description"@, unescape_quotes(option.description)) + seq![
        field_line("accepts_files"@, bool_text(option.accepts_files)),
    ] + seq![field_line("accepts_multiple"@, bool_text(option.accepts_multiple))] + seq![
        field_line("accepts_value"@, bool_text(option.accepts_value)),
    ] + (if option.fixed_values.len() > 0 {
        seq![field_line("fixed_values"@, fixed_values_text(option.fixed_values))]
    } else {
        Seq::empty()
    })
}

/// The lines that spell out the options, in the options' order.
pub open spec fn all_option_lines(options: Seq<ProgramOptionView>) -> Seq<Seq<char>>
    decreases options.len(),
{
    if options.len() == 0 {
        Seq::empty()
    } else {
        all_option_lines(options.drop_last()) + option_lines(options.last())
    }
}

/// The lines that spell out what the description says of itself.
pub open spec fn header_lines(cfg: ConfigView) -> Seq<Seq<char>> {
    optional_line("shell"@, cfg.shell) + seq![field_line("program_name"@, cfg.program_name)]
        + seq![field_line("use_equals_sign"@, bool_text(cfg.use_equals_sign))]
}

/// The lines that spell out a description.
pub open spec fn description_lines(cfg: ConfigView) -> Seq<Seq<char>> {
    header_lines(cfg) + all_option_lines(cfg.program_options)
}

/// The text that spells out a description: its lines, a line break between each two.
pub open spec fn description_of(cfg: ConfigView) -> Seq<char> {
    join(description_lines(cfg), "\n"@)
}

// ---------------------------------------------------------------------------------------
// Writing it
// ---------------------------------------------------------------------------------------

/// The line that gives the field `name` the value `value`.
fn format_field_line(name: &str, value: &str) -> (line: String)
    ensures
        line@ == field_line(name@, value@),
{
    let mut line = String::from_str(name);
    line.append(":");
    line.append(" ");
    line.append(value);
    line
}

/// Adds the line for a field that is written only where it has a value.
fn push_optional_line(lines: &mut Vec<String>, name: &str, value: &str)
    ensures
        texts(final(lines)@) == texts(old(lines)@) + optional_line(name@, value@),
{
    if !value.is_empty() {
        let line = format_field_line(name, value);
        lines.push(line);
        assert(texts(lines@) =~= texts(old(lines)@) + seq![field_line(name@, value@)]);
    } else {
        assert(texts(lines@) =~= texts(old(lines)@) + Seq::<Seq<char>>::empty());
    }
}

/// Adds the line for a field that is either true or false.
fn push_bool_line(lines: &mut Vec<String>, name: &str, value: bool)
    ensures
        texts(final(lines)@) == texts(old(lines)@) + seq![field_line(name@, bool_text(value))],
{
    let line = format_field_line(
        name,
        if value {
            "true"
        } else {
            "false"
        },
    );
    lines.push(line);
    assert(texts(lines@) =~= texts(old(lines)@) + seq![field_line(name@, bool_text(value))]);
}

/// `text` without the backslashes that escape its quotes.
fn format_unescaped(text: &str) -> (plain: String)
    ensures
        plain@ == unescape_quotes(text@),
{
    let chars = chars_of(text);
    let plain = unescaped(&chars);
    string_of(&plain)
}

/// How the list of fixed values is spelled.
fn format_fixed_values(values: &Vec<String>) -> (text: String)
    ensures
        text@ == fixed_values_text(texts(values@)),
{
    let mut items: Vec<String> = Vec::new();
    let mut i: usize = 0;
    while i < values.len()
        invariant
            i <= values.len(),
            items.len() == i,
            forall|k: int| 0 <= k < i ==> items@[k]@ == unescape_quotes(values@[k]@),
        decreases values.len() - i,
    {
        let item = format_unescaped(values[i].as_str());
        items.push(item);
        i += 1;
    }
    assert(texts(items@) =~= texts(values@).map_values(
        |item: Seq<char>| unescape_quotes(item),
    ));
    let inner = join_strings(&items, ",");
    let mut text = String::from_str("[");
    text.append(inner.as_str());
    text.append("]");
    text
}

/// Adds the lines that spell out one option.
fn push_option_lines(lines: &mut Vec<String>, option: &ProgramOption)
    ensures
        texts(final(lines)@) == texts(old(lines)@) + option_lines(option@),
{
    let ghost before = texts(lines@);
    let description = format_unescaped(option.description.as_str());
    lines.push(String::from_str("option").concat(":"));
    let ghost done = seq!["option"@ + ":"@];
    assert(texts(lines@) =~= before + done);

    push_optional_line(lines, "short", option.short.as_str());
    let ghost done_short = done + optional_line("short"@, option@.short);
    assert(texts(lines@) =~= before + done_short);

    push_optional_line(lines, "long", option.long.as_str());
    let ghost done_long = done_short + optional_line("long"@, option@.long);
    assert(texts(lines@) =~= before + done_long);

    push_optional_line(lines, "description", description.as_str());
    let ghost done_description = done_long + optional_line("description"@, description@);
    assert(texts(lines@) =~= before + done_description);

    push_bool_line(lines, "accepts_files", option.accepts_files);
    let ghost done_files = done_description + seq![
        field_line("accepts_files"@, bool_text(option.accepts_files)),
    ];
    assert(texts(lines@) =~= before + done_files);

    push_bool_line(lines, "accepts_multiple", option.accepts_multiple);
    let ghost done_multiple = done_files + seq![
        field_line("accepts_multiple"@, bool_text(option.accepts_multiple)),
    ];
    assert(texts(lines@) =~= before + done_multiple);

    push_bool_line(lines, "accepts_value", option.accepts_value);
    let ghost done_value = done_multiple + seq![
        field_line("accepts_value"@, bool_text(option.accepts_value)),
    ];
    assert(texts(lines@) =~= before + done_value);

    if option.fixed_values.len() > 0 {
        let values = format_fixed_values(&option.fixed_values);
        let line = format_field_line("fixed_values", values.as_str());
        let ghost upto_value = texts(lines@);
        lines.push(line);
        assert(texts(lines@) =~= upto_value + seq![
            field_line("fixed_values"@, fixed_values_text(option@.fixed_values)),
        ]);
        assert(texts(lines@) =~= before + (done_value + seq![
            field_line("fixed_values"@, fixed_values_text(option@.fixed_values)),
        ]));
    } else {
        assert(texts(lines@) =~= before + (done_value + Seq::<Seq<char>>::empty()));
    }
}

impl Config {
    /// The description written out in its plain form. Where the description is as
    /// [`Config::from_string`] leaves descriptions, reading the text gives it back.
    pub fn description(&self) -> (text: String)
        ensures
            text@ == description_of(self@),
            is_read(self@) && self@.is_complete() ==> parse(text@) == Ok::<
                ConfigView,
                ConfigErrorView,
            >(self@),
    {
        let mut lines: Vec<String> = Vec::new();
        assert(texts(lines@) =~= Seq::<Seq<char>>::empty());
        push_optional_line(&mut lines, "shell", self.shell.as_str());
        let name = format_field_line("program_name", self.program_name.as_str());
        lines.push(name);
        push_bool_line(&mut lines, "use_equals_sign", self.use_equals_sign);
        assert(texts(lines@) =~= header_lines(self@));
        let ghost options = option_views(self.program_options@);
        let mut i: usize = 0;
        assert(options.take(0) =~= Seq::<ProgramOptionView>::empty());
        assert(texts(lines@) =~= header_lines(self@) + all_option_lines(options.take(0)));
        while i < self.program_options.len()
            invariant
                i <= self.program_options.len(),
                options == option_views(self.program_options@),
                texts(lines@) == header_lines(self@) + all_option_lines(options.take(i as int)),
            decreases self.program_options.len() - i,
        {
            proof {
                assert(options.take(i + 1).drop_last() =~= options.take(i as int));
            }
            push_option_lines(&mut lines, &self.program_options[i]);
            assert(texts(lines@) =~= header_lines(self@) + all_option_lines(options.take(i + 1)));
            i += 1;
        }
        assert(options.take(self.program_options.len() as int) =~= options);
        proof {
            if is_read(self@) && self@.is_complete() {
                lemma_description_reads_back(self@);
            }
        }
        join_strings(&lines, "\n")
    }
}

// ---------------------------------------------------------------------------------------
// The names of the fields
// ---------------------------------------------------------------------------------------

/// Whether `name` can stand before a line's colon and be read back as it is.
pub open spec fn is_name(name: Seq<char>) -> bool {
    name.len() > 0 && free_of(name, ':') && free_of(name, '\n') && is_trimmed(name)
}

/// Whether every character of `name` is a small letter or an underscore.
spec fn is_small_word(name: Seq<char>) -> bool {
    forall|i: int| 0 <= i < name.len() ==> ('a' <= #[trigger] name[i] <= 'z' || name[i] == '_')
}

/// A word of at least one character is a name.
proof fn lemma_word_is_name(name: Seq<char>)
    requires
        is_small_word(name),
        name.len() > 0,
    ensures
        is_name(name),
{
    assert(name[0] == name[0]);
    assert(name.last() == name[name.len() - 1]);
}

/// The names of the fields are names.
proof fn lemma_field_names()
    ensures
        is_name("shell"@),
        is_name("program_name"@),
        is_name("use_equals_sign"@),
        is_name("option"@),
        is_name("short"@),
        is_name("long"@),
        is_name("description"@),
        is_name("accepts_files"@),
        is_name("accepts_multiple"@),
        is_name("accepts_value"@),
        is_name("fixed_values"@),
{
    reveal_strlit("shell");
    reveal_strlit("program_name");
    reveal_strlit("use_equals_sign");
    reveal_strlit("option");
    reveal_strlit("short");
    reveal_strlit("long");
    reveal_strlit("description");
    reveal_strlit("accepts_files");
    reveal_strlit("accepts_multiple");
    reveal_strlit("accepts_value");
    reveal_strlit("fixed_values");
    lemma_word_is_name("shell"@);
    lemma_word_is_name("program_name"@);
    lemma_word_is_name("use_equals_sign"@);
    lemma_word_is_name("option"@);
    lemma_word_is_name("short"@);
    lemma_word_is_name("long"@);
    lemma_word_is_name("description"@);
    lemma_word_is_name("accepts_files"@);
    lemma_word_is_name("accepts_multiple"@);
    lemma_word_is_name("accepts_value"@);
    lemma_word_is_name("fixed_values"@);
}

// ---------------------------------------------------------------------------------------
// Reading one written line
// ---------------------------------------------------------------------------------------

/// A line made of a name, a colon and the rest gives the name as its field and what `trim`
/// leaves of the rest as its value.
proof fn lemma_line_fields(name: Seq<char>, rest: Seq<char>)
    requires
        is_name(name),
    ensures
        line_fields(name + ":"@ + rest) == Some((name, trim(rest))),
{
    reveal_strlit(":");
    let line = name + ":"@ + rest;
    lemma_first_index_is(line, ':', name.len() as int);
    assert(line.take(name.len() as int) =~= name);
    assert(line.skip(name.len() as int + 1) =~= rest);
    lemma_trim_of_trimmed(name);
}

/// The line written for a field gives that field and that value.
proof fn lemma_field_line_fields(name: Seq<char>, value: Seq<char>)
    requires
        is_name(name),
        is_trimmed(value),
    ensures
        line_fields(field_line(name, value)) == Some((name, value)),
{
    reveal_strlit(" ");
    let rest = " "@ + value;
    lemma_line_fields(name, rest);
    assert(field_line(name, value) =~= name + ":"@ + rest);
    assert(rest.skip(1) =~= value);
    assert(trim_start(rest) == trim_start(value));
    lemma_trim_of_trimmed(value);
}

/// A truth value is read back from its spelling.
proof fn lemma_bool_text(b: bool)
    ensures
        bool_value(bool_text(b)) == Some(b),
        is_plain(bool_text(b)),
        bool_text(b).len() > 0,
{
    reveal_strlit("true");
    reveal_strlit("false");
    lemma_word_is_name(bool_text(b));
}

/// A list of fixed values is read back from its spelling, and the spelling is a plain
/// value.
proof fn lemma_fixed_values_text(values: Seq<Seq<char>>)
    requires
        values.len() > 0,
        forall|k: int| 0 <= k < values.len() ==> is_item(#[trigger] values[k]),
    ensures
        fixed_values_of(fixed_values_text(values)) == Some(values),
        is_plain(fixed_values_text(values)),
        fixed_values_text(values).len() > 0,
{
    reveal_strlit("[");
    reveal_strlit("]");
    reveal_strlit(",");
    let items = values.map_values(|item: Seq<char>| unescape_quotes(item));
    let inner = join(items, ","@);
    let text = fixed_values_text(values);
    assert(","@ =~= seq![',']);
    assert forall|k: int| 0 <= k < items.len() implies free_of(#[trigger] items[k], ']')
        && free_of(items[k], ',') && free_of(items[k], '\n') by {
        assert(is_item(values[k]));
    }
    lemma_join_keeps_free(items, ","@, ']');
    lemma_join_keeps_free(items, ","@, '\n');
    lemma_first_index_is(text, '[', 0);
    lemma_first_index_is(text, ']', text.len() - 1);
    assert(text.subrange(1, text.len() - 1) =~= inner);
    lemma_split_of_join(items, ',');
    let pieces = split(inner, ',');
    let read = pieces.map_values(|piece: Seq<char>| escape_quotes(trim(piece)));
    assert(read =~= values) by {
        assert forall|k: int| 0 <= k < values.len() implies read[k] == values[k] by {
            assert(is_item(values[k]));
            lemma_trim_of_trimmed(items[k]);
        }
    }
    assert(text[0] == '[');
    assert(text.last() == ']');
}

// ---------------------------------------------------------------------------------------
// Reading on from where other lines ended
// ---------------------------------------------------------------------------------------

/// What `more` lines say when they are read after `read` other lines that left `start`.
pub open spec fn read_more(
    start: Result<ConfigView, ConfigErrorView>,
    read: nat,
    more: Seq<Seq<char>>,
) -> Result<ConfigView, ConfigErrorView>
    decreases more.len(),
{
    if more.len() == 0 {
        start
    } else {
        match read_more(start, read, more.drop_last()) {
            Ok(cfg) => apply_line(cfg, more.last(), read + more.len()),
            Err(error) => Err(error),
        }
    }
}

/// Reading lines is reading them after no others.
proof fn lemma_read_lines_is_read_more(lines: Seq<Seq<char>>)
    ensures
        read_lines(lines) == read_more(Ok(ConfigView::new()), 0, lines),
    decreases lines.len(),
{
    if lines.len() > 0 {
        lemma_read_lines_is_read_more(lines.drop_last());
    }
}

/// Reading two runs of lines is reading the second after the first.
proof fn lemma_read_more_concat(
    start: Result<ConfigView, ConfigErrorView>,
    read: nat,
    first: Seq<Seq<char>>,
    second: Seq<Seq<char>>,
)
    ensures
        read_more(start, read, first + second) == read_more(
            read_more(start, read, first),
            read + first.len(),
            second,
        ),
    decreases second.len(),
{
    if second.len() == 0 {
        assert(first + second =~= first);
    } else {
        lemma_read_more_concat(start, read, first, second.drop_last());
        assert((first + second).drop_last() =~= first + second.drop_last());
    }
}

/// Reading on by at most one line: nothing changes without a line, and one line is applied
/// to what the lines before it left.
proof fn lemma_read_piece(
    start: Result<ConfigView, ConfigErrorView>,
    read: nat,
    done: Seq<Seq<char>>,
    piece: Seq<Seq<char>>,
)
    requires
        piece.len() <= 1,
    ensures
        read_more(start, read, done + piece) == if piece.len() == 0 {
            read_more(start, read, done)
        } else {
            match read_more(start, read, done) {
                Ok(cfg) => apply_line(cfg, piece[0], read + done.len() + 1),
                Err(error) => Err(error),
            }
        },
{
    if piece.len() == 0 {
        assert(done + piece =~= done);
    } else {
        assert((done + piece).drop_last() =~= done);
    }
}

// ---------------------------------------------------------------------------------------
// Reading the written form
// ---------------------------------------------------------------------------------------

/// Whether reading gave `cfg`.
pub open spec fn gives(result: Result<ConfigView, ConfigErrorView>, cfg: ConfigView) -> bool {
    result == Ok::<ConfigView, ConfigErrorView>(cfg)
}

/// The line written for a field of an option changes the option that was opened last.
proof fn lemma_apply_option_line(
    cfg: ConfigView,
    option: ProgramOptionView,
    name: Seq<char>,
    value: Seq<char>,
    number: nat,
)
    requires
        is_name(name),
        name != "option"@,
        is_trimmed(value),
        value.len() > 0,
    ensures
        apply_line(with_option(cfg, option), field_line(name, value), number)
            == match option_field(option, name, value, number) {
            Ok(changed) => Ok(with_option(cfg, changed)),
            Err(error) => Err(error),
        },
{
    lemma_field_line_fields(name, value);
    let before = with_option(cfg, option);
    assert(before.program_options.last() == option);
    match option_field(option, name, value, number) {
        Ok(changed) => {
            assert(before.program_options.drop_last().push(changed)
                =~= cfg.program_options.push(changed));
        },
        Err(error) => {},
    }
}

/// Reading the lines written for an option adds that option.
proof fn lemma_read_option_lines(cfg: ConfigView, read: nat, option: ProgramOptionView)
    requires
        is_read_option(option),
    ensures
        read_more(Ok(cfg), read, option_lines(option)) == Ok::<ConfigView, ConfigErrorView>(
            with_option(cfg, option),
        ),
{
    lemma_field_names();
    reveal_strlit("option");
    reveal_strlit("short");
    reveal_strlit("long");
    reveal_strlit("description");
    reveal_strlit("accepts_files");
    reveal_strlit("accepts_multiple");
    reveal_strlit("accepts_value");
    reveal_strlit("fixed_values");
    let start = Ok::<ConfigView, ConfigErrorView>(cfg);
    let none = Seq::<Seq<char>>::empty();

    let line_opening = seq!["option"@ + ":"@];
    let line_short = optional_line("short"@, option.short);
    let line_long = optional_line("long"@, option.long);
    let line_description = optional_line("description"@, unescape_quotes(option.description));
    let line_files = seq![field_line("accepts_files"@, bool_text(option.accepts_files))];
    let line_multiple = seq![
        field_line("accepts_multiple"@, bool_text(option.accepts_multiple)),
    ];
    let line_value = seq![field_line("accepts_value"@, bool_text(option.accepts_value))];
    let line_fixed = if option.fixed_values.len() > 0 {
        seq![field_line("fixed_values"@, fixed_values_text(option.fixed_values))]
    } else {
        Seq::empty()
    };

    let with_opening = ProgramOptionView::new();
    let with_short = ProgramOptionView { short: option.short, ..with_opening };
    let with_long = ProgramOptionView { long: option.long, ..with_short };
    let with_description = ProgramOptionView { description: option.description, ..with_long };
    let with_files = ProgramOptionView {
        accepts_files: option.accepts_files,
        ..with_description
    };
    let with_multiple = ProgramOptionView {
        accepts_multiple: option.accepts_multiple,
        ..with_files
    };
    let with_value = ProgramOptionView { accepts_value: option.accepts_value, ..with_multiple };
    let with_fixed = ProgramOptionView { fixed_values: option.fixed_values, ..with_value };

    let upto_opening = none + line_opening;
    let upto_short = upto_opening + line_short;
    let upto_long = upto_short + line_long;
    let upto_description = upto_long + line_description;
    let upto_files = upto_description + line_files;
    let upto_multiple = upto_files + line_multiple;
    let upto_value = upto_multiple + line_value;
    let upto_fixed = upto_value + line_fixed;
    assert(upto_opening =~= line_opening);
    assert(upto_fixed == option_lines(option));

    assert(gives(read_more(start, read, upto_opening), with_option(cfg, with_opening))) by {
        lemma_read_piece(start, read, none, line_opening);
        lemma_line_fields("option"@, Seq::empty());
        assert("option"@ + ":"@ + Seq::<char>::empty() =~= "option"@ + ":"@);
        lemma_trim_of_trimmed(Seq::<char>::empty());
    }
    assert(gives(read_more(start, read, upto_short), with_option(cfg, with_short))) by {
        lemma_read_piece(start, read, upto_opening, line_short);
        if option.short.len() > 0 {
            lemma_apply_option_line(
                cfg,
                with_opening,
                "short"@,
                option.short,
                read + upto_opening.len() + 1,
            );
        } else {
            assert(with_short.short =~= with_opening.short);
        }
    }
    assert(gives(read_more(start, read, upto_long), with_option(cfg, with_long))) by {
        lemma_read_piece(start, read, upto_short, line_long);
        if option.long.len() > 0 {
            lemma_apply_option_line(
                cfg,
                with_short,
                "long"@,
                option.long,
                read + upto_short.len() + 1,
            );
        } else {
            assert(with_long.long =~= with_short.long);
        }
    }
    assert(gives(read_more(start, read, upto_description), with_option(cfg, with_description))) by {
        lemma_read_piece(start, read, upto_long, line_description);
        let plain = unescape_quotes(option.description);
        if plain.len() > 0 {
            lemma_apply_option_line(
                cfg,
                with_long,
                "description"@,
                plain,
                read + upto_long.len() + 1,
            );
        } else {
            assert(escape_quotes(plain) =~= Seq::<char>::empty());
            assert(with_description.description =~= with_long.description);
        }
    }
    assert(gives(read_more(start, read, upto_files), with_option(cfg, with_files))) by {
        lemma_read_piece(start, read, upto_description, line_files);
        lemma_bool_text(option.accepts_files);
        lemma_apply_option_line(
            cfg,
            with_description,
            "accepts_files"@,
            bool_text(option.accepts_files),
            read + upto_description.len() + 1,
        );
    }
    assert(gives(read_more(start, read, upto_multiple), with_option(cfg, with_multiple))) by {
        lemma_read_piece(start, read, upto_files, line_multiple);
        lemma_bool_text(option.accepts_multiple);
        lemma_apply_option_line(
            cfg,
            with_files,
            "accepts_multiple"@,
            bool_text(option.accepts_multiple),
            read + upto_files.len() + 1,
        );
    }
    assert(gives(read_more(start, read, upto_value), with_option(cfg, with_value))) by {
        lemma_read_piece(start, read, upto_multiple, line_value);
        lemma_bool_text(option.accepts_value);
        lemma_apply_option_line(
            cfg,
            with_multiple,
            "accepts_value"@,
            bool_text(option.accepts_value),
            read + upto_multiple.len() + 1,
        );
    }
    assert(gives(read_more(start, read, upto_fixed), with_option(cfg, with_fixed))) by {
        lemma_read_piece(start, read, upto_value, line_fixed);
        if option.fixed_values.len() > 0 {
            lemma_fixed_values_text(option.fixed_values);
            lemma_apply_option_line(
                cfg,
                with_value,
                "fixed_values"@,
                fixed_values_text(option.fixed_values),
                read + upto_value.len() + 1,
            );
        } else {
            assert(with_fixed.fixed_values =~= with_value.fixed_values);
        }
    }
    assert(with_fixed == option);
}

/// Reading the lines written for options adds those options, in their order.
proof fn lemma_read_all_option_lines(cfg: ConfigView, read: nat, options: Seq<ProgramOptionView>)
    requires
        forall|i: int| 0 <= i < options.len() ==> is_read_option(#[trigger] options[i]),
    ensures
        read_more(Ok(cfg), read, all_option_lines(options)) == Ok::<ConfigView, ConfigErrorView>(
            ConfigView { program_options: cfg.program_options + options, ..cfg },
        ),
    decreases options.len(),
{
    if options.len() == 0 {
        assert(cfg.program_options + options =~= cfg.program_options);
    } else {
        let front = options.drop_last();
        let before = ConfigView { program_options: cfg.program_options + front, ..cfg };
        assert forall|i: int| 0 <= i < front.len() implies is_read_option(#[trigger] front[i]) by {
            assert(front[i] == options[i]);
        }
        lemma_read_all_option_lines(cfg, read, front);
        lemma_read_more_concat(
            Ok(cfg),
            read,
            all_option_lines(front),
            option_lines(options.last()),
        );
        assert(is_read_option(options.last()));
        lemma_read_option_lines(before, read + all_option_lines(front).len(), options.last());
        assert(before.program_options.push(options.last()) =~= cfg.program_options + options);
    }
}

/// The line written for a field of the description itself changes the description, as long
/// as no option is open.
proof fn lemma_apply_top_level_line(
    cfg: ConfigView,
    name: Seq<char>,
    value: Seq<char>,
    number: nat,
)
    requires
        is_name(name),
        name != "option"@,
        is_trimmed(value),
        value.len() > 0,
        cfg.program_options.len() == 0,
    ensures
        apply_line(cfg, field_line(name, value), number) == top_level_field(
            cfg,
            name,
            value,
            number,
        ),
{
    lemma_field_line_fields(name, value);
}

/// Reading the written form of a description that is as the reader leaves descriptions,
/// and that names its program, gives the description back.
pub proof fn lemma_read_description_lines(cfg: ConfigView)
    requires
        is_read(cfg),
        cfg.program_name.len() > 0,
    ensures
        read_lines(description_lines(cfg)) == Ok::<ConfigView, ConfigErrorView>(cfg),
{
    lemma_field_names();
    reveal_strlit("option");
    reveal_strlit("shell");
    reveal_strlit("program_name");
    reveal_strlit("use_equals_sign");
    let start = Ok::<ConfigView, ConfigErrorView>(ConfigView::new());
    let none = Seq::<Seq<char>>::empty();
    let fresh = ConfigView::new();
    let with_shell = ConfigView { shell: cfg.shell, ..fresh };
    let with_name = ConfigView { program_name: cfg.program_name, ..with_shell };
    let with_equals = ConfigView { use_equals_sign: cfg.use_equals_sign, ..with_name };
    let line_shell = optional_line("shell"@, cfg.shell);
    let line_name = seq![field_line("program_name"@, cfg.program_name)];
    let line_equals = seq![field_line("use_equals_sign"@, bool_text(cfg.use_equals_sign))];
    let upto_shell = none + line_shell;
    let upto_name = upto_shell + line_name;
    let upto_equals = upto_name + line_equals;
    assert(upto_shell =~= line_shell);
    assert(upto_equals == header_lines(cfg));

    assert(gives(read_more(start, 0, upto_shell), with_shell)) by {
        lemma_read_piece(start, 0, none, line_shell);
        if cfg.shell.len() > 0 {
            lemma_apply_top_level_line(fresh, "shell"@, cfg.shell, 1);
        } else {
            assert(with_shell.shell =~= fresh.shell);
        }
    }
    assert(gives(read_more(start, 0, upto_name), with_name)) by {
        lemma_read_piece(start, 0, upto_shell, line_name);
        lemma_apply_top_level_line(
            with_shell,
            "program_name"@,
            cfg.program_name,
            upto_shell.len() + 1,
        );
    }
    assert(gives(read_more(start, 0, upto_equals), with_equals)) by {
        lemma_read_piece(start, 0, upto_name, line_equals);
        lemma_bool_text(cfg.use_equals_sign);
        lemma_apply_top_level_line(
            with_name,
            "use_equals_sign"@,
            bool_text(cfg.use_equals_sign),
            upto_name.len() + 1,
        );
    }
    lemma_read_more_concat(start, 0, upto_equals, all_option_lines(cfg.program_options));
    lemma_read_all_option_lines(with_equals, upto_equals.len(), cfg.program_options);
    assert(with_equals.program_options + cfg.program_options =~= cfg.program_options);
    lemma_read_lines_is_read_more(description_lines(cfg));
}

// ---------------------------------------------------------------------------------------
// The written form holds no line break within a line
// ---------------------------------------------------------------------------------------

/// Whether none of the lines holds a line break.
pub open spec fn are_lines(lines: Seq<Seq<char>>) -> bool {
    forall|k: int| 0 <= k < lines.len() ==> free_of(#[trigger] lines[k], '\n')
}

/// Lines after lines are lines.
proof fn lemma_lines_after_lines(first: Seq<Seq<char>>, second: Seq<Seq<char>>)
    requires
        are_lines(first),
        are_lines(second),
    ensures
        are_lines(first + second),
{
    assert forall|k: int| 0 <= k < (first + second).len() implies free_of(
        #[trigger] (first + second)[k],
        '\n',
    ) by {
        if k < first.len() {
            assert((first + second)[k] == first[k]);
        } else {
            assert((first + second)[k] == second[k - first.len()]);
        }
    }
}

/// The line written for a field holds no line break where the value holds none.
proof fn lemma_field_line_is_one_line(name: Seq<char>, value: Seq<char>)
    requires
        is_name(name),
        free_of(value, '\n'),
    ensures
        free_of(field_line(name, value), '\n'),
        are_lines(seq![field_line(name, value)]),
        are_lines(optional_line(name, value)),
{
    reveal_strlit(":");
    reveal_strlit(" ");
}

/// The lines written for an option hold no line break.
proof fn lemma_option_lines_are_lines(option: ProgramOptionView)
    requires
        is_read_option(option),
    ensures
        are_lines(option_lines(option)),
{
    lemma_field_names();
    reveal_strlit(":");
    lemma_bool_text(option.accepts_files);
    lemma_bool_text(option.accepts_multiple);
    lemma_bool_text(option.accepts_value);
    let opening = seq!["option"@ + ":"@];
    let short = optional_line("short"@, option.short);
    let long = optional_line("long"@, option.long);
    let description = optional_line("description"@, unescape_quotes(option.description));
    let files = seq![field_line("accepts_files"@, bool_text(option.accepts_files))];
    let multiple = seq![field_line("accepts_multiple"@, bool_text(option.accepts_multiple))];
    let value = seq![field_line("accepts_value"@, bool_text(option.accepts_value))];
    let fixed = if option.fixed_values.len() > 0 {
        seq![field_line("fixed_values"@, fixed_values_text(option.fixed_values))]
    } else {
        Seq::empty()
    };
    assert(are_lines(opening)) by {
        assert(free_of("option"@ + ":"@, '\n'));
    }
    lemma_field_line_is_one_line("short"@, option.short);
    lemma_field_line_is_one_line("long"@, option.long);
    lemma_field_line_is_one_line("description"@, unescape_quotes(option.description));
    lemma_field_line_is_one_line("accepts_files"@, bool_text(option.accepts_files));
    lemma_field_line_is_one_line("accepts_multiple"@, bool_text(option.accepts_multiple));
    lemma_field_line_is_one_line("accepts_value"@, bool_text(option.accepts_value));
    if option.fixed_values.len() > 0 {
        lemma_fixed_values_text(option.fixed_values);
        lemma_field_line_is_one_line("fixed_values"@, fixed_values_text(option.fixed_values));
    }
    lemma_lines_after_lines(opening, short);
    lemma_lines_after_lines(opening + short, long);
    lemma_lines_after_lines(opening + short + long, description);
    lemma_lines_after_lines(opening + short + long + description, files);
    lemma_lines_after_lines(opening + short + long + description + files, multiple);
    lemma_lines_after_lines(opening + short + long + description + files + multiple, value);
    lemma_lines_after_lines(
        opening + short + long + description + files + multiple + value,
        fixed,
    );
}

/// The lines written for options hold no line break.
proof fn lemma_all_option_lines_are_lines(options: Seq<ProgramOptionView>)
    requires
        forall|i: int| 0 <= i < options.len() ==> is_read_option(#[trigger] options[i]),
    ensures
        are_lines(all_option_lines(options)),
    decreases options.len(),
{
    if options.len() > 0 {
        let front = options.drop_last();
        assert forall|i: int| 0 <= i < front.len() implies is_read_option(#[trigger] front[i]) by {
            assert(front[i] == options[i]);
        }
        lemma_all_option_lines_are_lines(front);
        assert(is_read_option(options.last()));
        lemma_option_lines_are_lines(options.last());
        lemma_lines_after_lines(all_option_lines(front), option_lines(options.last()));
    }
}

/// The written form of a description has at least two lines, and none holds a line break.
proof fn lemma_description_lines_are_lines(cfg: ConfigView)
    requires
        is_read(cfg),
    ensures
        description_lines(cfg).len() >= 2,
        are_lines(description_lines(cfg)),
{
    lemma_field_names();
    lemma_bool_text(cfg.use_equals_sign);
    lemma_field_line_is_one_line("shell"@, cfg.shell);
    lemma_field_line_is_one_line("program_name"@, cfg.program_name);
    lemma_field_line_is_one_line("use_equals_sign"@, bool_text(cfg.use_equals_sign));
    lemma_all_option_lines_are_lines(cfg.program_options);
    let shell = optional_line("shell"@, cfg.shell);
    let name = seq![field_line("program_name"@, cfg.program_name)];
    let equals = seq![field_line("use_equals_sign"@, bool_text(cfg.use_equals_sign))];
    lemma_lines_after_lines(shell, name);
    lemma_lines_after_lines(shell + name, equals);
    lemma_lines_after_lines(header_lines(cfg), all_option_lines(cfg.program_options));
}

// ---------------------------------------------------------------------------------------
// Reading back
// ---------------------------------------------------------------------------------------

/// The written form of a complete description that is as the reader leaves descriptions is
/// read as that description, field by field.
pub proof fn lemma_description_reads_back(cfg: ConfigView)
    requires
        is_read(cfg),
        cfg.is_complete(),
    ensures
        parse(description_of(cfg)) == Ok::<ConfigView, ConfigErrorView>(cfg),
{
    reveal_strlit("\n");
    let lines = description_lines(cfg);
    lemma_description_lines_are_lines(cfg);
    assert("\n"@ =~= seq!['\n']);
    lemma_split_of_join(lines, '\n');
    lemma_read_description_lines(cfg);
    let written = description_of(cfg);
    if written.len() == 0 {
        assert(split(written, '\n').len() == 1);
    }
}

/// Reading is faithful enough to be undone and redone: whatever description the reader
/// makes of a text, the written form of that description is read as the same description,
/// field by field.
pub proof fn lemma_written_form_reads_back(text: Seq<char>, cfg: ConfigView)
    requires
        parse(text) == Ok::<ConfigView, ConfigErrorView>(cfg),
    ensures
        parse(description_of(cfg)) == Ok::<ConfigView, ConfigErrorView>(cfg),
{
    lemma_parsed_is_read(text, cfg);
    lemma_description_reads_back(cfg);
}

} // verus!
