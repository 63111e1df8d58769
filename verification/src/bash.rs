//! The bash completion script.
//!
//! The script defines one function, `_<program>_completions`, and registers it for the
//! program with `complete`. The function offers every spelling of every option while the
//! word under the cursor starts with a dash or is the first argument; after an option whose
//! argument is a path or one of a fixed set of values, it offers paths or those values.

use crate::config::{option_views, Config, ConfigView, ProgramOption, ProgramOptionView};
use crate::error::ConfigErrorView;
use crate::parser::{lemma_parsed_is_read, lemma_read_option_is_trimmed, parse};
use crate::text::{
    append_padded, chars_of, is_trimmed, join, join_strings, lemma_occurs_at_end,
    lemma_occurs_in_chain, lemma_occurs_in_middle, lemma_occurs_with_more,
    lemma_part_occurs_in_join, lemma_trim_of_pair, occurs_in, pad_to, present, spaces,
    string_of, stripped_of_leading, strip_leading, texts, trim, trimmed,
};
use vstd::prelude::*;
use vstd::string::*;

verus! {

// ---------------------------------------------------------------------------------------
// What the script holds
// ---------------------------------------------------------------------------------------

/// The name of the shell variable that holds an option's fixed values: the option's first
/// spelling without its leading dashes, followed by `_fixed_values`.
pub open spec fn fixed_values_var_name(option: ProgramOptionView) -> Seq<char> {
    strip_leading(option.first_spelling(), '-') + "_fixed_values"@
}

/// The line that defines the variable of an option's fixed values: the values, separated by
/// spaces, between double quotes.
pub open spec fn fixed_values_definition(option: ProgramOptionView) -> Seq<char> {
    "local "@ + fixed_values_var_name(option) + "=\""@ + join(option.fixed_values, " "@) + "\""@
}

/// The definitions for the options that have fixed values, in the options' order.
pub open spec fn fixed_values_definitions(options: Seq<ProgramOptionView>) -> Seq<Seq<char>>
    decreases options.len(),
{
    if options.len() == 0 {
        Seq::empty()
    } else if options.last().fixed_values.len() > 0 {
        fixed_values_definitions(options.drop_last()).push(
            fixed_values_definition(options.last()),
        )
    } else {
        fixed_values_definitions(options.drop_last())
    }
}

/// What `compgen` is told to draw an option's argument from: paths, or the variable of the
/// option's fixed values; nothing where the option has neither.
pub open spec fn completion_source(option: ProgramOptionView) -> Seq<char> {
    if option.accepts_files {
        "-f"@
    } else if option.fixed_values.len() != 0 {
        "-W \"${"@ + fixed_values_var_name(option) + "}\" --"@
    } else {
        Seq::empty()
    }
}

/// The body of an option's `case` branches: complete from the option's source and return.
pub open spec fn case_body(option: ProgramOptionView) -> Seq<char> {
    "\n            COMPREPLY=( $(compgen "@ + completion_source(option)
        + " \"${current}\") )\n            return 0\n            ;;\n        "@
}

/// The `case` branch that matches one spelling of an option; nothing for an empty spelling.
pub open spec fn case_branch(spelling: Seq<char>, option: ProgramOptionView) -> Seq<char> {
    if spelling.len() > 0 {
        "\t"@ + spelling + ")\n"@ + case_body(option)
    } else {
        Seq::empty()
    }
}

/// The `case` branches of one option: one for its short spelling, one for its long one.
pub open spec fn option_cases(option: ProgramOptionView) -> Seq<char> {
    case_branch(option.short, option) + "\n\t"@ + case_branch(option.long, option)
}

/// Whether an option gets `case` branches: its argument is a path or has fixed values.
pub open spec fn has_cases(option: ProgramOptionView) -> bool {
    option.accepts_files || option.fixed_values.len() != 0
}

/// The `case` branches of all options that get any, in the options' order.
pub open spec fn all_cases(options: Seq<ProgramOptionView>) -> Seq<char>
    decreases options.len(),
{
    if options.len() == 0 {
        Seq::empty()
    } else if has_cases(options.last()) {
        all_cases(options.drop_last()) + option_cases(options.last())
    } else {
        all_cases(options.drop_last())
    }
}

/// One spelling with the option's description beside it: the spelling, padded to `width`,
/// then ` -- `, then the description. Nothing for an empty spelling.
pub open spec fn described_spelling(
    spelling: Seq<char>,
    option: ProgramOptionView,
    width: nat,
) -> Seq<char> {
    if spelling.len() > 0 {
        pad_to(spelling, width) + " -- "@ + option.description
    } else {
        Seq::empty()
    }
}

/// The completion candidates that one option contributes. With a description: one line for
/// each spelling, the description beside it. Without: the spellings, a space between them.
/// Either way white space at the two ends is dropped, which is what removes the separator
/// next to a spelling that the option does not have.
pub open spec fn option_candidates(width: nat, option: ProgramOptionView) -> Seq<char> {
    if option.description.len() > 0 {
        trim(
            described_spelling(option.short, option, width) + "\n"@ + described_spelling(
                option.long,
                option,
                width,
            ),
        )
    } else {
        trim(option.short + " "@ + option.long)
    }
}

/// Whether any option has a description.
pub open spec fn any_described(options: Seq<ProgramOptionView>) -> bool {
    exists|i: int| 0 <= i < options.len() && options[i].description.len() > 0
}

/// The length of the longest spelling among the options; 0 where there is none.
pub open spec fn longest_spelling(options: Seq<ProgramOptionView>) -> nat
    decreases options.len(),
{
    if options.len() == 0 {
        0
    } else {
        let rest = longest_spelling(options.drop_last());
        let short = options.last().short.len();
        let long = options.last().long.len();
        if rest >= short && rest >= long {
            rest
        } else if short >= long {
            short
        } else {
            long
        }
    }
}

/// The width to which spellings are padded: that of the longest spelling where descriptions
/// are shown, 0 where none is.
pub open spec fn candidate_width(options: Seq<ProgramOptionView>) -> nat {
    if any_described(options) {
        longest_spelling(options)
    } else {
        0
    }
}

/// The candidates of each option, in the options' order.
pub open spec fn candidate_parts(options: Seq<ProgramOptionView>, width: nat) -> Seq<Seq<char>> {
    Seq::new(options.len(), |i: int| option_candidates(width, options[i]))
}

/// The value of the script's `opts` variable: all candidates. Where any option has a
/// description they stand one to a line, after a first line break; else they stand in one
/// line with spaces between them.
pub open spec fn candidate_list(options: Seq<ProgramOptionView>) -> Seq<char> {
    if any_described(options) {
        "\n"@ + join(candidate_parts(options, candidate_width(options)), "\n"@)
    } else {
        join(candidate_parts(options, candidate_width(options)), " "@)
    }
}

/// The statements that complete the current word from `opts`, each line indented by
/// `indent`. Where descriptions are shown the field separator is a line break while the
/// candidates are generated, and a single remaining candidate loses its description.
pub open spec fn completion_step(described: bool, indent: Seq<char>) -> Seq<char> {
    indent + (if described {
        "\n        local OLDIFS=\"$IFS\"\n        local IFS=$'\\n'"@
    } else {
        ""@
    }) + "\n"@ + indent + "COMPREPLY=( $(compgen -W \"${opts}\" -- \"${current}\") )\n"@ + indent
        + (if described {
        "IFS=\"$OLDIFS\""@
    } else {
        ""@
    }) + "\n"@ + indent + (if described {
        "\n        if [[ ${#COMPREPLY[*]} -eq 1 ]]; then\n            COMPREPLY=(${COMPREPLY[0]%% -- *})\n        fi"@
    } else {
        ""@
    }) + "\n"@ + indent + "return 0\n"@
}

/// How the script starts: the function's header and its first statements, up to the quote
/// that opens the value of `opts`.
pub open spec fn script_head(name: Seq<char>) -> Seq<char> {
    "#!/usr/bin/bash\n_"@ + name
        + "_completions() {\n    COMPREPLY=()\n    local current=${COMP_WORDS[COMP_CWORD]}\n    local previous=${COMP_WORDS[COMP_CWORD-1]}\n    local opts=\""@
}

/// What closes the value of `opts` and leads to the definitions of the fixed values.
pub open spec fn after_candidates() -> Seq<char> {
    "\"\n    "@
}

/// The test for a word that starts with a dash or is the first argument.
pub open spec fn before_first_step() -> Seq<char> {
    "\n\n    if [[ ${current} == -* || ${COMP_CWORD} -eq 1 ]]; then\n"@
}

/// What ends that test and opens the `case` on the word before the cursor.
pub open spec fn before_cases() -> Seq<char> {
    "    fi\n\n    case \"${previous}\" in\n    "@
}

/// The branch for any other word, which offers nothing, and the end of the `case`.
pub open spec fn after_cases() -> Seq<char> {
    "\n\n        *)\n            COMPREPLY=()\n            ;;\n    esac\n\n"@
}

/// How the script ends: the function's closing brace, and the line that registers the
/// function for the program.
pub open spec fn script_tail(name: Seq<char>) -> Seq<char> {
    "}\n\ncomplete -F _"@ + name + "_completions -o bashdefault -o default "@ + name
}

/// The whole bash script for a description.
pub open spec fn bash_script(cfg: ConfigView) -> Seq<char> {
    script_head(cfg.program_name) + candidate_list(cfg.program_options) + after_candidates()
        + join(fixed_values_definitions(cfg.program_options), "\n\t"@) + before_first_step()
        + completion_step(any_described(cfg.program_options), "        "@) + before_cases()
        + all_cases(cfg.program_options) + after_cases() + completion_step(
        any_described(cfg.program_options),
        "    "@,
    ) + script_tail(cfg.program_name)
}

// ---------------------------------------------------------------------------------------
// Writing it
// ---------------------------------------------------------------------------------------

/// The name of the shell variable that holds the option's fixed values.
pub fn get_fixed_values_var_name_for_option(program_option: &ProgramOption) -> (name: String)
    ensures
        name@ == fixed_values_var_name(program_option@),
{
    let spelling = if program_option.short.as_str().is_empty() {
        &program_option.long
    } else {
        &program_option.short
    };
    let mut name = stripped_of_leading(spelling.as_str(), '-');
    name.append("_fixed_values");
    name
}

/// The line that defines the variable of the option's fixed values.
fn format_fixed_values_definition(option: &ProgramOption) -> (line: String)
    ensures
        line@ == fixed_values_definition(option@),
{
    let name = get_fixed_values_var_name_for_option(option);
    let values = join_strings(&option.fixed_values, " ");
    let mut line = String::from_str("local ");
    line.append(name.as_str());
    line.append("=\"");
    line.append(values.as_str());
    line.append("\"");
    line
}

/// The definitions for the options that have fixed values, one to a line.
fn format_fixed_values_definitions(options: &Vec<ProgramOption>) -> (lines: String)
    ensures
        lines@ == join(fixed_values_definitions(option_views(options@)), "\n\t"@),
{
    let mut lines: Vec<String> = Vec::new();
    let mut i: usize = 0;
    assert(texts(lines@) =~= fixed_values_definitions(option_views(options@).take(0)));
    while i < options.len()
        invariant
            i <= options.len(),
            texts(lines@) == fixed_values_definitions(option_views(options@).take(i as int)),
        decreases options.len() - i,
    {
        proof {
            assert(option_views(options@).take(i + 1).drop_last() =~= option_views(options@).take(
                i as int,
            ));
        }
        let ghost before = texts(lines@);
        if options[i].fixed_values.len() > 0 {
            let line = format_fixed_values_definition(&options[i]);
            lines.push(line);
            assert(texts(lines@) =~= before.push(fixed_values_definition(options[i as int]@)));
        }
        i += 1;
    }
    assert(option_views(options@).take(options.len() as int) =~= option_views(options@));
    join_strings(&lines, "\n\t")
}

/// What `compgen` is told to draw the option's argument from.
fn format_completion_source(option: &ProgramOption) -> (source: String)
    ensures
        source@ == completion_source(option@),
{
    if option.accepts_files {
        String::from_str("-f")
    } else if option.fixed_values.len() != 0 {
        let name = get_fixed_values_var_name_for_option(option);
        let mut source = String::from_str("-W \"${");
        source.append(name.as_str());
        source.append("}\" --");
        source
    } else {
        String::new()
    }
}

/// The `case` branch that matches one spelling; nothing for an empty spelling.
fn format_case_branch(spelling: &str, body: &str) -> (branch: String)
    ensures
        branch@ == if spelling@.len() > 0 {
            "\t"@ + spelling@ + ")\n"@ + body@
        } else {
            Seq::empty()
        },
{
    if !spelling.is_empty() {
        let mut branch = String::from_str("\t");
        branch.append(spelling);
        branch.append(")\n");
        branch.append(body);
        branch
    } else {
        String::new()
    }
}

/// The `case` branches of one option.
fn format_option_cases(program_option: &ProgramOption) -> (cases: String)
    ensures
        cases@ == option_cases(program_option@),
{
    let source = format_completion_source(program_option);
    let mut body = String::from_str("\n            COMPREPLY=( $(compgen ");
    body.append(source.as_str());
    body.append(" \"${current}\") )\n            return 0\n            ;;\n        ");
    let mut cases = format_case_branch(program_option.short.as_str(), body.as_str());
    let long_case = format_case_branch(program_option.long.as_str(), body.as_str());
    cases.append("\n\t");
    cases.append(long_case.as_str());
    cases
}

/// The `case` branches of all options that get any.
fn format_all_cases(options: &Vec<ProgramOption>) -> (cases: String)
    ensures
        cases@ == all_cases(option_views(options@)),
{
    let mut cases = String::new();
    let mut i: usize = 0;
    while i < options.len()
        invariant
            i <= options.len(),
            cases@ == all_cases(option_views(options@).take(i as int)),
        decreases options.len() - i,
    {
        proof {
            assert(option_views(options@).take(i + 1).drop_last() =~= option_views(options@).take(
                i as int,
            ));
        }
        if options[i].accepts_files || options[i].fixed_values.len() != 0 {
            let option_cases = format_option_cases(&options[i]);
            cases.append(option_cases.as_str());
        }
        i += 1;
    }
    assert(option_views(options@).take(options.len() as int) =~= option_views(options@));
    cases
}

/// One spelling with the option's description beside it; nothing for an empty spelling.
fn format_described_spelling(spelling: &str, option: &ProgramOption, width: usize) -> (line:
    String)
    ensures
        line@ == described_spelling(spelling@, option@, width as nat),
{
    let mut line = String::new();
    if !spelling.is_empty() {
        append_padded(&mut line, spelling, width);
        assert(line@ =~= pad_to(spelling@, width as nat));
        line.append(" -- ");
        line.append(option.description.as_str());
    }
    line
}

/// The completion candidates that one option contributes, spellings padded to
/// `max_opt_len` where the option has a description.
pub fn format_option(max_opt_len: usize, program_option: &ProgramOption) -> (candidates: String)
    ensures
        candidates@ == option_candidates(max_opt_len as nat, program_option@),
{
    let mut line: String;
    if !program_option.description.as_str().is_empty() {
        line = format_described_spelling(
            program_option.short.as_str(),
            program_option,
            max_opt_len,
        );
        let long = format_described_spelling(
            program_option.long.as_str(),
            program_option,
            max_opt_len,
        );
        line.append("\n");
        line.append(long.as_str());
    } else {
        line = program_option.short.clone();
        line.append(" ");
        line.append(program_option.long.as_str());
    }
    let chars = chars_of(line.as_str());
    let kept = trimmed(&chars, 0, chars.len());
    assert(chars@.subrange(0, chars.len() as int) =~= chars@);
    string_of(&kept)
}

/// Whether any option has a description.
fn any_with_description(options: &Vec<ProgramOption>) -> (b: bool)
    ensures
        b == any_described(option_views(options@)),
{
    let mut i: usize = 0;
    while i < options.len()
        invariant
            i <= options.len(),
            forall|j: int| 0 <= j < i ==> option_views(options@)[j].description.len() == 0,
        decreases options.len() - i,
    {
        if !options[i].description.as_str().is_empty() {
            assert(option_views(options@)[i as int].description.len() > 0);
            return true;
        }
        i += 1;
    }
    false
}

/// The length of the longest spelling among the options.
fn max_spelling_len(options: &Vec<ProgramOption>) -> (width: usize)
    ensures
        width == longest_spelling(option_views(options@)),
{
    let mut width: usize = 0;
    let mut i: usize = 0;
    while i < options.len()
        invariant
            i <= options.len(),
            width == longest_spelling(option_views(options@).take(i as int)),
        decreases options.len() - i,
    {
        proof {
            assert(option_views(options@).take(i + 1).drop_last() =~= option_views(options@).take(
                i as int,
            ));
        }
        let short = options[i].short.as_str().unicode_len();
        let long = options[i].long.as_str().unicode_len();
        if short > width {
            width = short;
        }
        if long > width {
            width = long;
        }
        i += 1;
    }
    assert(option_views(options@).take(options.len() as int) =~= option_views(options@));
    width
}

/// The value of the script's `opts` variable.
fn format_candidate_list(options: &Vec<ProgramOption>, described: bool) -> (list: String)
    requires
        described == any_described(option_views(options@)),
    ensures
        list@ == candidate_list(option_views(options@)),
{
    let width = if described {
        max_spelling_len(options)
    } else {
        0
    };
    let mut parts: Vec<String> = Vec::new();
    let mut i: usize = 0;
    while i < options.len()
        invariant
            i <= options.len(),
            parts.len() == i,
            forall|j: int|
                0 <= j < i ==> parts@[j]@ == option_candidates(
                    width as nat,
                    option_views(options@)[j],
                ),
        decreases options.len() - i,
    {
        let part = format_option(width, &options[i]);
        parts.push(part);
        i += 1;
    }
    assert(texts(parts@) =~= candidate_parts(option_views(options@), width as nat));
    if described {
        let joined = join_strings(&parts, "\n");
        let mut list = String::from_str("\n");
        list.append(joined.as_str());
        list
    } else {
        join_strings(&parts, " ")
    }
}

/// The statements that complete the current word from `opts`.
fn format_completion_step(described: bool, indent: &str) -> (step: String)
    ensures
        step@ == completion_step(described, indent@),
{
    let mut step = String::new();
    step.append(indent);
    assert(step@ =~= indent@);
    step.append(
        if described {
            "\n        local OLDIFS=\"$IFS\"\n        local IFS=$'\\n'"
        } else {
            ""
        },
    );
    step.append("\n");
    step.append(indent);
    step.append("COMPREPLY=( $(compgen -W \"${opts}\" -- \"${current}\") )\n");
    step.append(indent);
    step.append(
        if described {
            "IFS=\"$OLDIFS\""
        } else {
            ""
        },
    );
    step.append("\n");
    step.append(indent);
    step.append(
        if described {
            "\n        if [[ ${#COMPREPLY[*]} -eq 1 ]]; then\n            COMPREPLY=(${COMPREPLY[0]%% -- *})\n        fi"
        } else {
            ""
        },
    );
    step.append("\n");
    step.append(indent);
    step.append("return 0\n");
    step
}

/// The bash completion script for `cfg`.
pub fn generate_bash(cfg: &Config) -> (script: String)
    ensures
        script@ == bash_script(cfg@),
{
    let described = any_with_description(&cfg.program_options);
    let candidates = format_candidate_list(&cfg.program_options, described);
    let definitions = format_fixed_values_definitions(&cfg.program_options);
    let cases = format_all_cases(&cfg.program_options);
    let first_step = format_completion_step(described, "        ");
    let last_step = format_completion_step(described, "    ");
    let name = cfg.program_name.as_str();

    let mut tail = String::from_str("}\n\ncomplete -F _");
    tail.append(name);
    tail.append("_completions -o bashdefault -o default ");
    tail.append(name);

    let mut script = String::from_str("#!/usr/bin/bash\n_");
    script.append(name);
    script.append(
        "_completions() {\n    COMPREPLY=()\n    local current=${COMP_WORDS[COMP_CWORD]}\n    local previous=${COMP_WORDS[COMP_CWORD-1]}\n    local opts=\"",
    );
    script.append(candidates.as_str());
    script.append("\"\n    ");
    script.append(definitions.as_str());
    script.append("\n\n    if [[ ${current} == -* || ${COMP_CWORD} -eq 1 ]]; then\n");
    script.append(first_step.as_str());
    script.append("    fi\n\n    case \"${previous}\" in\n    ");
    script.append(cases.as_str());
    script.append("\n\n        *)\n            COMPREPLY=()\n            ;;\n    esac\n\n");
    script.append(last_step.as_str());
    script.append(tail.as_str());
    script
}

// ---------------------------------------------------------------------------------------
// Fixed values in the script
// ---------------------------------------------------------------------------------------

/// The definition for an option with fixed values is among the definitions of the options.
proof fn lemma_definition_is_listed(options: Seq<ProgramOptionView>, i: int) -> (k: int)
    requires
        0 <= i < options.len(),
        options[i].fixed_values.len() > 0,
    ensures
        0 <= k < fixed_values_definitions(options).len(),
        fixed_values_definitions(options)[k] == fixed_values_definition(options[i]),
    decreases options.len(),
{
    if i == options.len() - 1 {
        fixed_values_definitions(options.drop_last()).len() as int
    } else {
        lemma_definition_is_listed(options.drop_last(), i)
    }
}

/// Every fixed value of every option stands in the bash script, character for character as
/// the description holds it: in the value of the variable that the script defines for the
/// option.
pub proof fn lemma_fixed_value_in_bash_script(cfg: ConfigView, option: int, value: int)
    requires
        0 <= option < cfg.program_options.len(),
        0 <= value < cfg.program_options[option].fixed_values.len(),
    ensures
        occurs_in(
            cfg.program_options[option].fixed_values[value],
            fixed_values_definition(cfg.program_options[option]),
        ),
        occurs_in(fixed_values_definition(cfg.program_options[option]), bash_script(cfg)),
        occurs_in(cfg.program_options[option].fixed_values[value], bash_script(cfg)),
{
    let o = cfg.program_options[option];
    let text = o.fixed_values[value];
    let values = join(o.fixed_values, " "@);
    let definition = fixed_values_definition(o);
    lemma_part_occurs_in_join(o.fixed_values, " "@, value);
    lemma_occurs_in_middle("local "@ + fixed_values_var_name(o) + "=\""@, values, "\""@);
    lemma_occurs_in_chain(text, values, definition);

    let definitions = fixed_values_definitions(cfg.program_options);
    let k = lemma_definition_is_listed(cfg.program_options, option);
    lemma_part_occurs_in_join(definitions, "\n\t"@, k);
    let joined = join(definitions, "\n\t"@);
    let described = any_described(cfg.program_options);
    let s0 = script_head(cfg.program_name) + candidate_list(cfg.program_options)
        + after_candidates();
    let s1 = s0 + joined;
    let s2 = s1 + before_first_step();
    let s3 = s2 + completion_step(described, "        "@);
    let s4 = s3 + before_cases();
    let s5 = s4 + all_cases(cfg.program_options);
    let s6 = s5 + after_cases();
    let s7 = s6 + completion_step(described, "    "@);
    let s8 = s7 + script_tail(cfg.program_name);
    assert(bash_script(cfg) == s8);
    lemma_occurs_at_end(s0, joined);
    lemma_occurs_with_more(joined, s1, before_first_step());
    lemma_occurs_with_more(joined, s2, completion_step(described, "        "@));
    lemma_occurs_with_more(joined, s3, before_cases());
    lemma_occurs_with_more(joined, s4, all_cases(cfg.program_options));
    lemma_occurs_with_more(joined, s5, after_cases());
    lemma_occurs_with_more(joined, s6, completion_step(described, "    "@));
    lemma_occurs_with_more(joined, s7, script_tail(cfg.program_name));
    lemma_occurs_in_chain(definition, joined, bash_script(cfg));
    lemma_occurs_in_chain(text, definition, bash_script(cfg));
}

// ---------------------------------------------------------------------------------------
// The candidates of an option, spelling by spelling
// ---------------------------------------------------------------------------------------

/// An option whose spellings and description have no white space at their ends
/// contributes exactly its spellings as candidates. With a description, each spelling has a
/// line of its own, padded and with the description beside it; without, the spellings stand
/// in one line with a space between them. An option without a spelling contributes nothing.
pub proof fn lemma_candidates_are_the_spellings(width: nat, option: ProgramOptionView)
    requires
        is_trimmed(option.short),
        is_trimmed(option.long),
        is_trimmed(option.description),
    ensures
        option.description.len() > 0 ==> option_candidates(width, option) == join(
            present(
                described_spelling(option.short, option, width),
                described_spelling(option.long, option, width),
            ),
            "\n"@,
        ),
        option.description.len() == 0 ==> option_candidates(width, option) == join(
            present(option.short, option.long),
            " "@,
        ),
{
    reveal_strlit("\n");
    reveal_strlit(" ");
    reveal_strlit(" -- ");
    assert("\n"@ =~= seq!['\n']);
    assert(" "@ =~= seq![' ']);
    if option.description.len() > 0 {
        let first = described_spelling(option.short, option, width);
        let second = described_spelling(option.long, option, width);
        assert(is_trimmed(first)) by {
            if option.short.len() > 0 {
                assert(first[0] == option.short[0]);
                assert(first.last() == option.description.last());
            }
        }
        assert(is_trimmed(second)) by {
            if option.long.len() > 0 {
                assert(second[0] == option.long[0]);
                assert(second.last() == option.description.last());
            }
        }
        lemma_trim_of_pair(first, '\n', second);
    } else {
        lemma_trim_of_pair(option.short, ' ', option.long);
    }
}

// ---------------------------------------------------------------------------------------
// Spellings and case branches in the script
// ---------------------------------------------------------------------------------------

/// Where no option's argument is a path or has fixed values, the script has no `case`
/// branch for any option.
pub proof fn lemma_no_cases_without_arguments_to_complete(options: Seq<ProgramOptionView>)
    requires
        forall|i: int| 0 <= i < options.len() ==> !has_cases(#[trigger] options[i]),
    ensures
        all_cases(options) == Seq::<char>::empty(),
    decreases options.len(),
{
    if options.len() > 0 {
        let front = options.drop_last();
        assert forall|i: int| 0 <= i < front.len() implies !has_cases(#[trigger] front[i]) by {
            assert(front[i] == options[i]);
        }
        lemma_no_cases_without_arguments_to_complete(front);
        assert(!has_cases(options[options.len() - 1]));
    }
}

/// The `case` branches of an option whose argument is a path or has fixed values stand in
/// the script.
pub proof fn lemma_cases_in_bash_script(cfg: ConfigView, option: int)
    requires
        0 <= option < cfg.program_options.len(),
        has_cases(cfg.program_options[option]),
    ensures
        occurs_in(option_cases(cfg.program_options[option]), bash_script(cfg)),
{
    let cases = all_cases(cfg.program_options);
    lemma_cases_are_listed(cfg.program_options, option);
    let described = any_described(cfg.program_options);
    let head = script_head(cfg.program_name) + candidate_list(cfg.program_options)
        + after_candidates() + join(fixed_values_definitions(cfg.program_options), "\n\t"@)
        + before_first_step() + completion_step(described, "        "@) + before_cases();
    let s0 = head + cases;
    let s1 = s0 + after_cases();
    let s2 = s1 + completion_step(described, "    "@);
    let s3 = s2 + script_tail(cfg.program_name);
    assert(bash_script(cfg) == s3);
    lemma_occurs_at_end(head, cases);
    lemma_occurs_with_more(cases, s0, after_cases());
    lemma_occurs_with_more(cases, s1, completion_step(described, "    "@));
    lemma_occurs_with_more(cases, s2, script_tail(cfg.program_name));
    lemma_occurs_in_chain(option_cases(cfg.program_options[option]), cases, bash_script(cfg));
}

/// The `case` branches of an option that gets any stand among those of all options.
proof fn lemma_cases_are_listed(options: Seq<ProgramOptionView>, i: int)
    requires
        0 <= i < options.len(),
        has_cases(options[i]),
    ensures
        occurs_in(option_cases(options[i]), all_cases(options)),
    decreases options.len(),
{
    let front = all_cases(options.drop_last());
    if i == options.len() - 1 {
        lemma_occurs_at_end(front, option_cases(options[i]));
    } else {
        lemma_cases_are_listed(options.drop_last(), i);
        if has_cases(options.last()) {
            lemma_occurs_with_more(option_cases(options[i]), front, option_cases(options.last()));
        }
    }
}

/// Every spelling of every option is among the candidates that the script's `opts`
/// variable holds, where the option's spellings and description have no white space at
/// their ends.
pub proof fn lemma_spelling_in_bash_script(cfg: ConfigView, option: int, spelling: Seq<char>)
    requires
        0 <= option < cfg.program_options.len(),
        is_trimmed(cfg.program_options[option].short),
        is_trimmed(cfg.program_options[option].long),
        is_trimmed(cfg.program_options[option].description),
        spelling.len() > 0,
        spelling == cfg.program_options[option].short || spelling
            == cfg.program_options[option].long,
    ensures
        occurs_in(spelling, candidate_list(cfg.program_options)),
        occurs_in(spelling, bash_script(cfg)),
{
    let options = cfg.program_options;
    let o = options[option];
    let width = candidate_width(options);
    let candidates = option_candidates(width, o);
    let empty = Seq::<char>::empty();
    lemma_candidates_are_the_spellings(width, o);
    let (parts, between) = if o.description.len() > 0 {
        (
            present(
                described_spelling(o.short, o, width),
                described_spelling(o.long, o, width),
            ),
            "\n"@,
        )
    } else {
        (present(o.short, o.long), " "@)
    };
    let k: int = if spelling == o.short {
        0
    } else if o.short.len() > 0 {
        1
    } else {
        0
    };
    assert(0 <= k < parts.len());
    assert(occurs_in(spelling, parts[k])) by {
        if o.description.len() > 0 {
            assert(parts[k] == pad_to(spelling, width) + " -- "@ + o.description);
            assert(pad_to(spelling, width) =~= empty + spelling + (if spelling.len() >= width {
                empty
            } else {
                spaces((width - spelling.len()) as nat)
            }));
            lemma_occurs_in_middle(
                empty,
                spelling,
                if spelling.len() >= width {
                    empty
                } else {
                    spaces((width - spelling.len()) as nat)
                },
            );
            lemma_occurs_with_more(spelling, pad_to(spelling, width), " -- "@);
            lemma_occurs_with_more(spelling, pad_to(spelling, width) + " -- "@, o.description);
        } else {
            assert(parts[k] == spelling);
            assert(empty + spelling =~= spelling);
            lemma_occurs_at_end(empty, spelling);
        }
    }
    lemma_part_occurs_in_join(parts, between, k);
    lemma_occurs_in_chain(spelling, parts[k], candidates);

    let all = candidate_parts(options, width);
    assert(all[option] == candidates);
    let list = candidate_list(options);
    if any_described(options) {
        lemma_part_occurs_in_join(all, "\n"@, option);
        lemma_occurs_at_end("\n"@, join(all, "\n"@));
        lemma_occurs_in_chain(candidates, join(all, "\n"@), list);
    } else {
        lemma_part_occurs_in_join(all, " "@, option);
    }
    lemma_occurs_in_chain(spelling, candidates, list);

    let described = any_described(options);
    let head = script_head(cfg.program_name);
    let s0 = head + list;
    let s1 = s0 + after_candidates();
    let s2 = s1 + join(fixed_values_definitions(options), "\n\t"@);
    let s3 = s2 + before_first_step();
    let s4 = s3 + completion_step(described, "        "@);
    let s5 = s4 + before_cases();
    let s6 = s5 + all_cases(options);
    let s7 = s6 + after_cases();
    let s8 = s7 + completion_step(described, "    "@);
    let s9 = s8 + script_tail(cfg.program_name);
    assert(bash_script(cfg) == s9);
    lemma_occurs_at_end(head, list);
    lemma_occurs_with_more(list, s0, after_candidates());
    lemma_occurs_with_more(list, s1, join(fixed_values_definitions(options), "\n\t"@));
    lemma_occurs_with_more(list, s2, before_first_step());
    lemma_occurs_with_more(list, s3, completion_step(described, "        "@));
    lemma_occurs_with_more(list, s4, before_cases());
    lemma_occurs_with_more(list, s5, all_cases(options));
    lemma_occurs_with_more(list, s6, after_cases());
    lemma_occurs_with_more(list, s7, completion_step(described, "    "@));
    lemma_occurs_with_more(list, s8, script_tail(cfg.program_name));
    lemma_occurs_in_chain(spelling, list, bash_script(cfg));
}

/// Every spelling of every option of a description that was read from a text is among
/// the candidates of the script written for it.
pub proof fn lemma_read_spelling_in_bash_script(
    text: Seq<char>,
    cfg: ConfigView,
    option: int,
    spelling: Seq<char>,
)
    requires
        parse(text) == Ok::<ConfigView, ConfigErrorView>(cfg),
        0 <= option < cfg.program_options.len(),
        spelling.len() > 0,
        spelling == cfg.program_options[option].short || spelling
            == cfg.program_options[option].long,
    ensures
        occurs_in(spelling, candidate_list(cfg.program_options)),
        occurs_in(spelling, bash_script(cfg)),
{
    lemma_parsed_is_read(text, cfg);
    lemma_read_option_is_trimmed(cfg.program_options[option]);
    lemma_spelling_in_bash_script(cfg, option, spelling);
}

} // verus!
