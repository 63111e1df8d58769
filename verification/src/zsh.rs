//! The zsh completion script.
//!
//! The script registers a function `_<program>` with `compdef`; the function makes one call
//! of `_arguments`, with one entry for each option. An option with a single spelling is a
//! plain entry, whatever else it says. Of the others, an option that may be repeated is a
//! pair of starred entries, one for each spelling, and an option that may not is a group of
//! its own, in which its two spellings exclude each other. The entries stand in that order:
//! plain ones, repeatable ones, groups; within each kind, in the options' order.
//!
//! An option without any spelling is not plain. If it may be repeated its entry is empty;
//! if not, its group holds no spelling.

use crate::config::{option_views, Config, ConfigView, ProgramOption, ProgramOptionView};
use crate::text::{
    append_decimal, decimal, join, join_strings, lemma_occurs_at_end, lemma_occurs_in_chain,
    lemma_occurs_in_middle, lemma_occurs_with_more, lemma_part_occurs_in_join, occurs_in, texts,
};
use vstd::prelude::*;
use vstd::string::*;

verus! {

// ---------------------------------------------------------------------------------------
// What the script holds
// ---------------------------------------------------------------------------------------

/// What an entry says of the option's argument: a path; one of the fixed values; any value;
/// or, for an option without an argument, nothing.
pub open spec fn action_suffix(option: ProgramOptionView) -> Seq<char> {
    if option.accepts_files {
        ":file:_files"@
    } else if option.accepts_value {
        if option.fixed_values.len() > 0 {
            ": :("@ + join(option.fixed_values, " "@) + ")"@
        } else {
            ": :"@
        }
    } else {
        Seq::empty()
    }
}

/// `=` for an option that is not the help option, where the description asks for equals
/// signs; else nothing.
pub open spec fn equals_suffix(cfg: ConfigView, option: ProgramOptionView) -> Seq<char> {
    if !option.is_help() && cfg.use_equals_sign {
        "="@
    } else {
        ""@
    }
}

/// What follows an option's spelling in its entry: the equals sign, the description in
/// square brackets, and the argument.
pub open spec fn option_attributes(cfg: ConfigView, option: ProgramOptionView) -> Seq<char> {
    equals_suffix(cfg, option) + "["@ + option.description + "]"@ + action_suffix(option)
}

/// The entry of an option with a single spelling.
pub open spec fn single_entry(cfg: ConfigView, option: ProgramOptionView) -> Seq<char> {
    "\t\t'"@ + option.first_spelling() + option_attributes(cfg, option) + "'"@
}

/// The starred entry for one spelling of a repeatable option; nothing for an empty
/// spelling.
pub open spec fn repeatable_token(
    cfg: ConfigView,
    option: ProgramOptionView,
    spelling: Seq<char>,
) -> Seq<char> {
    if spelling.len() > 0 {
        "\t\t'*"@ + spelling + option_attributes(cfg, option) + "'"@
    } else {
        Seq::empty()
    }
}

/// The entry of a repeatable option: a starred entry for each spelling, the line continued
/// between the two where the option has both.
pub open spec fn repeatable_entry(cfg: ConfigView, option: ProgramOptionView) -> Seq<char> {
    repeatable_token(cfg, option, option.short) + (if option.short.len() > 0 && option.long.len()
        > 0 {
        "\\\n"@
    } else {
        ""@
    }) + repeatable_token(cfg, option, option.long)
}

/// The entry of an option that forms group number `number`: the group's tag, and the two
/// spellings between braces as alternatives that share the attributes.
pub open spec fn group_entry(cfg: ConfigView, option: ProgramOptionView, number: nat) -> Seq<
    char,
> {
    "\t\t+ '(group_"@ + decimal(number) + ")' \\\n\t\t{"@ + option.short + (
    if option.has_one_representation() {
        ""@
    } else {
        ","@
    }) + option.long + "}'"@ + option_attributes(cfg, option) + "'"@
}

/// The rank of the kind of entry an option gets: 1 for a single spelling, 2 for a
/// repeatable option with both spellings or none, 3 for a group.
pub open spec fn option_priority(option: ProgramOptionView) -> int {
    if option.has_one_representation() {
        1
    } else if option.accepts_multiple {
        2
    } else {
        3
    }
}

/// The entries of the options with a single spelling, in the options' order.
pub open spec fn single_entries(cfg: ConfigView, options: Seq<ProgramOptionView>) -> Seq<
    Seq<char>,
>
    decreases options.len(),
{
    if options.len() == 0 {
        Seq::empty()
    } else if option_priority(options.last()) == 1 {
        single_entries(cfg, options.drop_last()).push(single_entry(cfg, options.last()))
    } else {
        single_entries(cfg, options.drop_last())
    }
}

/// The entries of the repeatable options, in the options' order.
pub open spec fn repeatable_entries(cfg: ConfigView, options: Seq<ProgramOptionView>) -> Seq<
    Seq<char>,
>
    decreases options.len(),
{
    if options.len() == 0 {
        Seq::empty()
    } else if option_priority(options.last()) == 2 {
        repeatable_entries(cfg, options.drop_last()).push(repeatable_entry(cfg, options.last()))
    } else {
        repeatable_entries(cfg, options.drop_last())
    }
}

/// The entries of the options that form groups, in the options' order. The groups are
/// numbered from 1 in that order: each takes the number after that of the group before it.
pub open spec fn group_entries(cfg: ConfigView, options: Seq<ProgramOptionView>) -> Seq<
    Seq<char>,
>
    decreases options.len(),
{
    if options.len() == 0 {
        Seq::empty()
    } else if option_priority(options.last()) == 3 {
        let before = group_entries(cfg, options.drop_last());
        before.push(group_entry(cfg, options.last(), before.len() + 1))
    } else {
        group_entries(cfg, options.drop_last())
    }
}

/// All entries of the call of `_arguments`: single spellings, then repeatable options, then
/// groups.
pub open spec fn argument_entries(cfg: ConfigView) -> Seq<Seq<char>> {
    single_entries(cfg, cfg.program_options) + repeatable_entries(cfg, cfg.program_options)
        + group_entries(cfg, cfg.program_options)
}

/// The whole zsh script for a description. Every entry but the last ends in a space and a
/// backslash, which continues the line.
pub open spec fn zsh_script(cfg: ConfigView) -> Seq<char> {
    "compdef _"@ + cfg.program_name + " "@ + cfg.program_name + "\n\nfunction _"@
        + cfg.program_name + "() {\n\t_arguments \\\n"@ + join(argument_entries(cfg), " \\\n"@)
        + "\n}"@
}

// ---------------------------------------------------------------------------------------
// Writing it
// ---------------------------------------------------------------------------------------

/// What an entry says of the option's argument.
fn file_options(option: &ProgramOption) -> (suffix: String)
    ensures
        suffix@ == action_suffix(option@),
{
    if option.accepts_files {
        String::from_str(":file:_files")
    } else if option.accepts_value {
        if option.fixed_values.len() > 0 {
            let values = join_strings(&option.fixed_values, " ");
            let mut suffix = String::from_str(": :(");
            suffix.append(values.as_str());
            suffix.append(")");
            suffix
        } else {
            String::from_str(": :")
        }
    } else {
        String::new()
    }
}

/// What follows the option's spelling in its entry.
fn get_option_attributes(cfg: &Config, option: &ProgramOption) -> (attributes: String)
    ensures
        attributes@ == option_attributes(cfg@, option@),
{
    let mut attributes = String::from_str(
        if !option.is_help() && cfg.use_equals_sign {
            "="
        } else {
            ""
        },
    );
    let action = file_options(option);
    attributes.append("[");
    attributes.append(option.description.as_str());
    attributes.append("]");
    attributes.append(action.as_str());
    attributes
}

/// The starred entry for one spelling of a repeatable option.
fn format_repeatable_token(spelling: &str, attributes: &str) -> (token: String)
    ensures
        token@ == if spelling@.len() > 0 {
            "\t\t'*"@ + spelling@ + attributes@ + "'"@
        } else {
            Seq::empty()
        },
{
    if !spelling.is_empty() {
        let mut token = String::from_str("\t\t'*");
        token.append(spelling);
        token.append(attributes);
        token.append("'");
        token
    } else {
        String::new()
    }
}

/// The entry of a repeatable option.
fn format_option_with_multiple_args(cfg: &Config, option: &ProgramOption) -> (entry: String)
    ensures
        entry@ == repeatable_entry(cfg@, option@),
{
    let attributes = get_option_attributes(cfg, option);
    let mut entry = format_repeatable_token(option.short.as_str(), attributes.as_str());
    let long = format_repeatable_token(option.long.as_str(), attributes.as_str());
    entry.append(
        if !option.short.as_str().is_empty() && !option.long.as_str().is_empty() {
            "\\\n"
        } else {
            ""
        },
    );
    entry.append(long.as_str());
    entry
}

/// The entry of an option that forms group number `group_num`.
fn format_option_group(cfg: &Config, option: &ProgramOption, group_num: usize) -> (entry: String)
    ensures
        entry@ == group_entry(cfg@, option@, group_num as nat),
{
    let attributes = get_option_attributes(cfg, option);
    let mut entry = String::from_str("\t\t+ '(group_");
    append_decimal(&mut entry, group_num);
    entry.append(")' \\\n\t\t{");
    entry.append(option.short.as_str());
    entry.append(
        if option.has_one_representation() {
            ""
        } else {
            ","
        },
    );
    entry.append(option.long.as_str());
    entry.append("}'");
    entry.append(attributes.as_str());
    entry.append("'");
    entry
}

/// The entry of an option with a single spelling.
fn format_option_with_one_representation(cfg: &Config, option: &ProgramOption) -> (entry:
    String)
    ensures
        entry@ == single_entry(cfg@, option@),
{
    let spelling = if option.short.as_str().is_empty() {
        &option.long
    } else {
        &option.short
    };
    let attributes = get_option_attributes(cfg, option);
    let mut entry = String::from_str("\t\t'");
    entry.append(spelling.as_str());
    entry.append(attributes.as_str());
    entry.append("'");
    entry
}

/// The rank of the kind of entry the option gets.
fn get_option_priority(option: &ProgramOption) -> (priority: u32)
    ensures
        priority == option_priority(option@),
{
    if option.has_one_representation() {
        1
    } else if option.accepts_multiple {
        2
    } else {
        3
    }
}

/// The zsh completion script for `cfg`.
pub fn generate_zsh(cfg: &Config) -> (script: String)
    ensures
        script@ == zsh_script(cfg@),
{
    let options = &cfg.program_options;
    let ghost views = option_views(options@);
    let mut entries: Vec<String> = Vec::new();

    let mut i: usize = 0;
    assert(texts(entries@) =~= single_entries(cfg@, views.take(0)));
    while i < options.len()
        invariant
            i <= options.len(),
            views == option_views(options@),
            options == &cfg.program_options,
            texts(entries@) == single_entries(cfg@, views.take(i as int)),
        decreases options.len() - i,
    {
        proof {
            assert(views.take(i + 1).drop_last() =~= views.take(i as int));
        }
        let ghost before = texts(entries@);
        if get_option_priority(&options[i]) == 1 {
            let entry = format_option_with_one_representation(cfg, &options[i]);
            entries.push(entry);
            assert(texts(entries@) =~= before.push(single_entry(cfg@, views[i as int])));
        }
        i += 1;
    }
    assert(views.take(options.len() as int) =~= views);

    let ghost singles = texts(entries@);
    i = 0;
    assert(texts(entries@) =~= singles + repeatable_entries(cfg@, views.take(0)));
    while i < options.len()
        invariant
            i <= options.len(),
            views == option_views(options@),
            options == &cfg.program_options,
            texts(entries@) == singles + repeatable_entries(cfg@, views.take(i as int)),
        decreases options.len() - i,
    {
        proof {
            assert(views.take(i + 1).drop_last() =~= views.take(i as int));
        }
        let ghost before = texts(entries@);
        if get_option_priority(&options[i]) == 2 {
            let entry = format_option_with_multiple_args(cfg, &options[i]);
            entries.push(entry);
            assert(texts(entries@) =~= before.push(repeatable_entry(cfg@, views[i as int])));
            assert(before.push(repeatable_entry(cfg@, views[i as int])) =~= singles
                + repeatable_entries(cfg@, views.take(i as int)).push(
                repeatable_entry(cfg@, views[i as int]),
            ));
        }
        i += 1;
    }
    assert(views.take(options.len() as int) =~= views);

    let ghost plain = texts(entries@);
    let mut groups: usize = 0;
    i = 0;
    assert(texts(entries@) =~= plain + group_entries(cfg@, views.take(0)));
    while i < options.len()
        invariant
            i <= options.len(),
            views == option_views(options@),
            options == &cfg.program_options,
            groups <= i,
            groups == group_entries(cfg@, views.take(i as int)).len(),
            texts(entries@) == plain + group_entries(cfg@, views.take(i as int)),
        decreases options.len() - i,
    {
        proof {
            assert(views.take(i + 1).drop_last() =~= views.take(i as int));
        }
        let ghost before = texts(entries@);
        if get_option_priority(&options[i]) == 3 {
            groups += 1;
            let entry = format_option_group(cfg, &options[i], groups);
            entries.push(entry);
            assert(texts(entries@) =~= before.push(
                group_entry(cfg@, views[i as int], groups as nat),
            ));
            assert(before.push(group_entry(cfg@, views[i as int], groups as nat)) =~= plain
                + group_entries(cfg@, views.take(i as int)).push(
                group_entry(cfg@, views[i as int], groups as nat),
            ));
        }
        i += 1;
    }
    assert(views.take(options.len() as int) =~= views);

    let arguments = join_strings(&entries, " \\\n");
    let name = cfg.program_name.as_str();
    let mut script = String::from_str("compdef _");
    script.append(name);
    script.append(" ");
    script.append(name);
    script.append("\n\nfunction _");
    script.append(name);
    script.append("() {\n\t_arguments \\\n");
    script.append(arguments.as_str());
    script.append("\n}");
    script
}

// ---------------------------------------------------------------------------------------
// One entry for each option
// ---------------------------------------------------------------------------------------

/// Every option is of exactly one kind, so the three lists of entries together hold as
/// many entries as there are options.
pub proof fn lemma_one_entry_for_each_option(cfg: ConfigView, options: Seq<ProgramOptionView>)
    ensures
        single_entries(cfg, options).len() + repeatable_entries(cfg, options).len()
            + group_entries(cfg, options).len() == options.len(),
    decreases options.len(),
{
    if options.len() > 0 {
        lemma_one_entry_for_each_option(cfg, options.drop_last());
    }
}

// ---------------------------------------------------------------------------------------
// How groups are numbered
// ---------------------------------------------------------------------------------------

/// How many of the options form groups.
pub open spec fn group_count(options: Seq<ProgramOptionView>) -> nat
    decreases options.len(),
{
    if options.len() == 0 {
        0
    } else if option_priority(options.last()) == 3 {
        group_count(options.drop_last()) + 1
    } else {
        group_count(options.drop_last())
    }
}

/// The number of the group that the option at index `i` forms: one more than the number of
/// options before it that form groups.
pub open spec fn group_number(options: Seq<ProgramOptionView>, i: int) -> nat {
    group_count(options.take(i)) + 1
}

/// Passing an option raises the count of groups by one if the option forms a group, and
/// leaves it as it is otherwise.
pub proof fn lemma_group_count_step(options: Seq<ProgramOptionView>, i: int)
    requires
        0 <= i < options.len(),
    ensures
        group_count(options.take(i + 1)) == group_count(options.take(i)) + (if option_priority(
            options[i],
        ) == 3 {
            1nat
        } else {
            0nat
        }),
{
    assert(options.take(i + 1).drop_last() =~= options.take(i));
}

/// The count of groups does not fall along the options.
pub proof fn lemma_group_count_grows(options: Seq<ProgramOptionView>, i: int, j: int)
    requires
        0 <= i <= j <= options.len(),
    ensures
        group_count(options.take(i)) <= group_count(options.take(j)),
    decreases j - i,
{
    if i < j {
        lemma_group_count_grows(options, i, j - 1);
        lemma_group_count_step(options, j - 1);
    }
}

/// Groups are numbered one by one in the options' order. The first option that forms a
/// group has number 1. Of two options that form groups, the later one has the greater
/// number, so no two share a group; and where no option between them forms a group, the
/// later one's number is the earlier one's plus one.
pub proof fn lemma_groups_numbered_in_order(options: Seq<ProgramOptionView>, i: int, j: int)
    requires
        0 <= i < j < options.len(),
        option_priority(options[i]) == 3,
        option_priority(options[j]) == 3,
    ensures
        (forall|k: int| 0 <= k < i ==> option_priority(options[k]) != 3) ==> group_number(
            options,
            i,
        ) == 1,
        group_number(options, i) < group_number(options, j),
        (forall|k: int| i < k < j ==> option_priority(options[k]) != 3) ==> group_number(
            options,
            j,
        ) == group_number(options, i) + 1,
{
    if forall|k: int| 0 <= k < i ==> option_priority(options[k]) != 3 {
        lemma_no_groups_counted(options, 0, i);
        assert(options.take(0) =~= Seq::empty());
    }
    lemma_group_count_step(options, i);
    lemma_group_count_grows(options, i + 1, j);
    if forall|k: int| i < k < j ==> option_priority(options[k]) != 3 {
        lemma_no_groups_counted(options, i + 1, j);
    }
}

/// Options that form no group leave the count of groups as it is.
proof fn lemma_no_groups_counted(options: Seq<ProgramOptionView>, from: int, to: int)
    requires
        0 <= from <= to <= options.len(),
        forall|k: int| from <= k < to ==> option_priority(options[k]) != 3,
    ensures
        group_count(options.take(to)) == group_count(options.take(from)),
    decreases to - from,
{
    if from < to {
        lemma_no_groups_counted(options, from, to - 1);
        lemma_group_count_step(options, to - 1);
    }
}

/// Each option that forms a group has exactly one entry among the group entries: there are
/// as many entries as such options, and the entry of the option at index `i` stands at the
/// place that its number gives and carries that number.
pub proof fn lemma_group_entry_of_option(
    cfg: ConfigView,
    options: Seq<ProgramOptionView>,
    i: int,
)
    requires
        0 <= i < options.len(),
        option_priority(options[i]) == 3,
    ensures
        group_entries(cfg, options).len() == group_count(options),
        group_number(options, i) <= group_count(options),
        group_entries(cfg, options)[group_number(options, i) - 1] == group_entry(
            cfg,
            options[i],
            group_number(options, i),
        ),
    decreases options.len(),
{
    lemma_group_entries_len(cfg, options);
    lemma_group_entries_len(cfg, options.drop_last());
    if i == options.len() - 1 {
        assert(options.take(i) =~= options.drop_last());
    } else {
        lemma_group_entry_of_option(cfg, options.drop_last(), i);
        assert(options.drop_last().take(i) =~= options.take(i));
    }
}

/// There are as many group entries as options that form groups.
pub proof fn lemma_group_entries_len(cfg: ConfigView, options: Seq<ProgramOptionView>)
    ensures
        group_entries(cfg, options).len() == group_count(options),
    decreases options.len(),
{
    if options.len() > 0 {
        lemma_group_entries_len(cfg, options.drop_last());
    }
}

// ---------------------------------------------------------------------------------------
// Fixed values in the script
// ---------------------------------------------------------------------------------------

/// The entry that the script holds for the option at index `i`.
pub open spec fn entry_of(cfg: ConfigView, options: Seq<ProgramOptionView>, i: int) -> Seq<char> {
    if option_priority(options[i]) == 1 {
        single_entry(cfg, options[i])
    } else if option_priority(options[i]) == 2 {
        repeatable_entry(cfg, options[i])
    } else {
        group_entry(cfg, options[i], group_number(options, i))
    }
}

/// The entry of an option with a single spelling is among the single entries.
proof fn lemma_single_entry_is_listed(
    cfg: ConfigView,
    options: Seq<ProgramOptionView>,
    i: int,
) -> (k: int)
    requires
        0 <= i < options.len(),
        option_priority(options[i]) == 1,
    ensures
        0 <= k < single_entries(cfg, options).len(),
        single_entries(cfg, options)[k] == single_entry(cfg, options[i]),
    decreases options.len(),
{
    if i == options.len() - 1 {
        single_entries(cfg, options.drop_last()).len() as int
    } else {
        lemma_single_entry_is_listed(cfg, options.drop_last(), i)
    }
}

/// The entry of a repeatable option is among the repeatable entries.
proof fn lemma_repeatable_entry_is_listed(
    cfg: ConfigView,
    options: Seq<ProgramOptionView>,
    i: int,
) -> (k: int)
    requires
        0 <= i < options.len(),
        option_priority(options[i]) == 2,
    ensures
        0 <= k < repeatable_entries(cfg, options).len(),
        repeatable_entries(cfg, options)[k] == repeatable_entry(cfg, options[i]),
    decreases options.len(),
{
    if i == options.len() - 1 {
        repeatable_entries(cfg, options.drop_last()).len() as int
    } else {
        lemma_repeatable_entry_is_listed(cfg, options.drop_last(), i)
    }
}

/// Every option's entry stands in the script.
pub proof fn lemma_entry_in_zsh_script(cfg: ConfigView, i: int)
    requires
        0 <= i < cfg.program_options.len(),
    ensures
        occurs_in(entry_of(cfg, cfg.program_options, i), zsh_script(cfg)),
{
    let options = cfg.program_options;
    let entries = argument_entries(cfg);
    let singles = single_entries(cfg, options);
    let repeatables = repeatable_entries(cfg, options);
    let k: int = if option_priority(options[i]) == 1 {
        lemma_single_entry_is_listed(cfg, options, i)
    } else if option_priority(options[i]) == 2 {
        singles.len() + lemma_repeatable_entry_is_listed(cfg, options, i)
    } else {
        lemma_group_entry_of_option(cfg, options, i);
        singles.len() + repeatables.len() + group_number(options, i) - 1
    };
    assert(0 <= k < entries.len());
    assert(entries[k] == entry_of(cfg, options, i));
    lemma_part_occurs_in_join(entries, " \\\n"@, k);
    let before = "compdef _"@ + cfg.program_name + " "@ + cfg.program_name + "\n\nfunction _"@
        + cfg.program_name + "() {\n\t_arguments \\\n"@;
    lemma_occurs_in_middle(before, join(entries, " \\\n"@), "\n}"@);
    lemma_occurs_in_chain(entry_of(cfg, options, i), join(entries, " \\\n"@), zsh_script(cfg));
}

/// An option's attributes stand in its entry, unless the option is repeatable and has no
/// spelling at all: such an option's entry is empty.
pub proof fn lemma_attributes_in_entry(cfg: ConfigView, options: Seq<ProgramOptionView>, i: int)
    requires
        0 <= i < options.len(),
        options[i].short.len() > 0 || options[i].long.len() > 0 || !options[i].accepts_multiple,
    ensures
        occurs_in(option_attributes(cfg, options[i]), entry_of(cfg, options, i)),
{
    let o = options[i];
    let attributes = option_attributes(cfg, o);
    let entry = entry_of(cfg, options, i);
    if option_priority(o) == 1 {
        lemma_occurs_in_middle("\t\t'"@ + o.first_spelling(), attributes, "'"@);
    } else if option_priority(o) == 2 {
        let between = if o.short.len() > 0 && o.long.len() > 0 {
            "\\\n"@
        } else {
            ""@
        };
        let long = repeatable_token(cfg, o, o.long);
        assert(entry =~= ("\t\t'*"@ + o.short) + attributes + ("'"@ + between + long));
        lemma_occurs_in_middle("\t\t'*"@ + o.short, attributes, "'"@ + between + long);
    } else {
        lemma_occurs_in_middle(
            "\t\t+ '(group_"@ + decimal(group_number(options, i)) + ")' \\\n\t\t{"@ + o.short + (
            if o.has_one_representation() {
                ""@
            } else {
                ","@
            }) + o.long + "}'"@,
            attributes,
            "'"@,
        );
    }
}

/// Every fixed value of an option whose argument is one of its fixed values stands in the
/// zsh script, character for character as the description holds it: in the parenthesised
/// list of the option's entry. The option's argument is one of its fixed values where it
/// takes an argument that is no path. Left out is the repeatable option without a spelling,
/// which has an empty entry.
pub proof fn lemma_fixed_value_in_zsh_script(cfg: ConfigView, option: int, value: int)
    requires
        0 <= option < cfg.program_options.len(),
        0 <= value < cfg.program_options[option].fixed_values.len(),
        cfg.program_options[option].accepts_value,
        !cfg.program_options[option].accepts_files,
        cfg.program_options[option].short.len() > 0 || cfg.program_options[option].long.len() > 0
            || !cfg.program_options[option].accepts_multiple,
    ensures
        occurs_in(
            cfg.program_options[option].fixed_values[value],
            action_suffix(cfg.program_options[option]),
        ),
        occurs_in(cfg.program_options[option].fixed_values[value], zsh_script(cfg)),
{
    let o = cfg.program_options[option];
    let text = o.fixed_values[value];
    let values = join(o.fixed_values, " "@);
    let entry = entry_of(cfg, cfg.program_options, option);
    lemma_part_occurs_in_join(o.fixed_values, " "@, value);
    lemma_occurs_in_middle(": :("@, values, ")"@);
    lemma_occurs_in_chain(text, values, action_suffix(o));
    let empty = Seq::<char>::empty();
    assert(option_attributes(cfg, o) =~= (equals_suffix(cfg, o) + "["@ + o.description + "]"@)
        + action_suffix(o) + empty);
    lemma_occurs_in_middle(
        equals_suffix(cfg, o) + "["@ + o.description + "]"@,
        action_suffix(o),
        empty,
    );
    lemma_occurs_in_chain(text, action_suffix(o), option_attributes(cfg, o));
    lemma_attributes_in_entry(cfg, cfg.program_options, option);
    lemma_occurs_in_chain(text, option_attributes(cfg, o), entry);
    lemma_entry_in_zsh_script(cfg, option);
    lemma_occurs_in_chain(text, entry, zsh_script(cfg));
}

// ---------------------------------------------------------------------------------------
// Spellings in the script
// ---------------------------------------------------------------------------------------

/// Every spelling of every option stands in the option's entry, and so in the script.
pub proof fn lemma_spelling_in_zsh_script(cfg: ConfigView, option: int, spelling: Seq<char>)
    requires
        0 <= option < cfg.program_options.len(),
        spelling.len() > 0,
        spelling == cfg.program_options[option].short || spelling
            == cfg.program_options[option].long,
    ensures
        occurs_in(spelling, entry_of(cfg, cfg.program_options, option)),
        occurs_in(spelling, zsh_script(cfg)),
{
    let options = cfg.program_options;
    let o = options[option];
    let attributes = option_attributes(cfg, o);
    let entry = entry_of(cfg, options, option);
    if option_priority(o) == 1 {
        lemma_occurs_in_middle("\t\t'"@, spelling, attributes);
        lemma_occurs_with_more(spelling, "\t\t'"@ + spelling + attributes, "'"@);
    } else if option_priority(o) == 2 {
        let short = repeatable_token(cfg, o, o.short);
        let long = repeatable_token(cfg, o, o.long);
        lemma_occurs_in_middle("\t\t'*"@, spelling, attributes);
        lemma_occurs_with_more(spelling, "\t\t'*"@ + spelling + attributes, "'"@);
        if spelling == o.short {
            lemma_occurs_with_more(spelling, short, "\\\n"@);
            lemma_occurs_with_more(spelling, short + "\\\n"@, long);
        } else {
            lemma_occurs_at_end(short + "\\\n"@, long);
            lemma_occurs_in_chain(spelling, long, entry);
        }
    } else {
        let opening = "\t\t+ '(group_"@ + decimal(group_number(options, option)) + ")' \\\n\t\t{"@;
        let both = opening + o.short + ","@ + o.long;
        if spelling == o.short {
            lemma_occurs_at_end(opening, spelling);
            lemma_occurs_with_more(spelling, opening + o.short, ","@);
            lemma_occurs_with_more(spelling, opening + o.short + ","@, o.long);
        } else {
            lemma_occurs_at_end(opening + o.short + ","@, spelling);
        }
        lemma_occurs_with_more(spelling, both, "}'"@);
        lemma_occurs_with_more(spelling, both + "}'"@, attributes);
        lemma_occurs_with_more(spelling, both + "}'"@ + attributes, "'"@);
    }
    lemma_entry_in_zsh_script(cfg, option);
    lemma_occurs_in_chain(spelling, entry, zsh_script(cfg));
}

} // verus!
