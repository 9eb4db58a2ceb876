//! Reads the command line: which theme to apply, and which variables the
//! user sets for it.

use crate::scan::{alphanumeric, lemma_run_of_ends, run_of, CharClass};
use crate::text::{chars_of, string_of, text_of};
use crate::variable::{Variable, VariableView};
use vstd::prelude::*;
use vstd::slice::slice_subrange;

verus! {

/// What the command line asks for.
#[derive(Debug)]
pub enum ParsedAction {
    Help,
    ThemeHelp { name: String },
    Theme { name: String, variables: Vec<Variable> },
}

/// What a `ParsedAction` stands for.
pub enum ActionView {
    Help,
    ThemeHelp { name: Seq<char> },
    Theme { name: Seq<char>, variables: Seq<VariableView> },
}

impl View for ParsedAction {
    type V = ActionView;

    open spec fn view(&self) -> ActionView {
        match self {
            ParsedAction::Help => ActionView::Help,
            ParsedAction::ThemeHelp { name } => ActionView::ThemeHelp { name: name@ },
            ParsedAction::Theme { name, variables } => ActionView::Theme {
                name: name@,
                variables: variables.deep_view(),
            },
        }
    }
}

/// An option as the command line gives it: its name, and its value if it
/// has one.
pub type OptionView = (Seq<char>, Option<Seq<char>>);

/// Whether the name of an option may hold `c`.
pub fn is_valid_argument_char(c: char) -> (yes: bool)
    ensures
        yes == (alphanumeric(c) || c == '_'),
        yes == CharClass::Word.holds(c),
{
    c.is_alphanumeric() || c == '_'
}

/// The name of the option that the argument `arg` opens: what follows its
/// two leading dashes, as far as it is made of letters, numbers and
/// underscores. `None` where `arg` does not start with two dashes and one
/// such character.
pub open spec fn option_name(arg: Seq<char>) -> Option<Seq<char>> {
    if arg.len() >= 2 && arg[0] == '-' && arg[1] == '-' && run_of(arg.skip(2), CharClass::Word)
        >= 1 {
        Some(arg.skip(2).take(run_of(arg.skip(2), CharClass::Word)))
    } else {
        None
    }
}

/// The place of the first of `options` that is called `key`: their number
/// where none is.
pub open spec fn option_place(options: Seq<OptionView>, key: Seq<char>) -> int
    decreases options.len(),
{
    if options.len() == 0 || options[0].0 == key {
        0
    } else {
        1 + option_place(options.skip(1), key)
    }
}

/// `options` with `key` set to `value`: in the place where `key` stood, or
/// last where it did not.
pub open spec fn with_option(
    options: Seq<OptionView>,
    key: Seq<char>,
    value: Option<Seq<char>>,
) -> Seq<OptionView> {
    let at = option_place(options, key);
    if at < options.len() {
        options.update(at, (key, value))
    } else {
        options.push((key, value))
    }
}

/// The name of the option that was opened last in `args`; empty where none
/// was.
pub open spec fn open_option(args: Seq<Seq<char>>) -> Seq<char>
    decreases args.len(),
{
    if args.len() == 0 {
        Seq::empty()
    } else if let Some(name) = option_name(args.last()) {
        name
    } else {
        open_option(args.drop_last())
    }
}

/// The options that `args` set. An argument that opens an option sets it
/// without a value; any other argument is the value of the option that was
/// opened last.
pub open spec fn options_of(args: Seq<Seq<char>>) -> Seq<OptionView>
    decreases args.len(),
{
    if args.len() == 0 {
        Seq::empty()
    } else {
        let before = options_of(args.drop_last());
        match option_name(args.last()) {
            Some(name) => with_option(before, name, None),
            None => with_option(before, open_option(args.drop_last()), Some(args.last())),
        }
    }
}

/// The variable that an option sets: a switch where it has no value.
pub open spec fn variable_of(option: OptionView) -> VariableView {
    VariableView { name: option.0, value: option.1, is_boolean: option.1 is None, comment: None }
}

/// Whether the arguments ask for the general help: there is no first
/// argument, or it is `--help` or `-h`.
pub open spec fn asks_general_help(args: Seq<Seq<char>>) -> bool {
    args.len() < 2 || args[1] == "--help"@ || args[1] == "-h"@
}

/// What the arguments ask for. The first argument is the program's own
/// name. Without more, or with a call for help, the general help; else the
/// second is a theme: its help where an option `help` is set, else the theme
/// applied with the options as variables.
pub open spec fn action_of(args: Seq<Seq<char>>) -> ActionView {
    if asks_general_help(args) {
        ActionView::Help
    } else {
        let options = options_of(args.skip(2));
        if option_place(options, "help"@) < options.len() {
            ActionView::ThemeHelp { name: args[1] }
        } else {
            ActionView::Theme {
                name: args[1],
                variables: Seq::new(options.len(), |i: int| variable_of(options[i])),
            }
        }
    }
}

/// How many bytes the longest of the names takes.
pub open spec fn longest_name(variables: Seq<VariableView>) -> nat
    decreases variables.len(),
{
    if variables.len() == 0 {
        0
    } else {
        let before = longest_name(variables.drop_last());
        let last = vstd::utf8::encode_utf8(variables.last().name).len();
        if last > before {
            last
        } else {
            before
        }
    }
}

/// `count` spaces.
pub open spec fn spaces(count: int) -> Seq<char> {
    Seq::new(
        if count > 0 {
            count as nat
        } else {
            0
        },
        |i: int| ' ',
    )
}

/// The line of the help that describes `variable`: two spaces, two dashes
/// and the name, spaces to fill the name up to `width` characters, and the
/// comment.
pub open spec fn help_line(variable: VariableView, width: int) -> Seq<char> {
    "  --"@ + variable.name + spaces(width - variable.name.len()) + match variable.comment {
        Some(comment) => comment,
        None => Seq::empty(),
    }
}

/// The lines of the help that describe `variables`. The comments start in
/// one column: three places behind the end of the longest name, as far as
/// the names are made of characters of one byte.
pub open spec fn help_lines(variables: Seq<VariableView>) -> Seq<Seq<char>> {
    Seq::new(
        variables.len(),
        |i: int| help_line(variables[i], (longest_name(variables) + 3) as int),
    )
}

/// A place with no option of that name before it, which holds one or is the
/// end, is the `option_place` of the name.
pub proof fn lemma_option_place(options: Seq<OptionView>, key: Seq<char>, at: int)
    requires
        0 <= at <= options.len(),
        forall|k: int| 0 <= k < at ==> (#[trigger] options[k]).0 != key,
        at < options.len() ==> options[at].0 == key,
    ensures
        option_place(options, key) == at,
    decreases at,
{
    if at > 0 {
        let rest = options.skip(1);
        assert(options[0].0 != key);
        assert forall|k: int| 0 <= k < at - 1 implies (#[trigger] rest[k]).0 != key by {
            assert(rest[k] == options[k + 1]);
        }
        lemma_option_place(rest, key, at - 1);
    }
}

/// Reads the name of the option that `input` opens.
pub fn argument_parser(input: &str) -> (name: Option<String>)
    ensures
        text_of(name) == option_name(input@),
{
    let chars = chars_of(input);
    if chars.len() < 2 || chars[0] != '-' || chars[1] != '-' {
        return None;
    }
    let mut end: usize = 2;
    while end < chars.len() && is_valid_argument_char(chars[end])
        invariant
            2 <= end <= chars.len(),
            forall|k: int| 0 <= k < end - 2 ==> CharClass::Word.holds(#[trigger] chars@.skip(2)[k]),
        decreases chars.len() - end,
    {
        end += 1;
    }
    proof {
        lemma_run_of_ends(chars@.skip(2), CharClass::Word, end - 2);
    }
    if end == 2 {
        return None;
    }
    let name = string_of(&chars, 2, end);
    proof {
        assert(chars@.skip(2).take(end - 2) =~= chars@.subrange(2, end as int));
    }
    Some(name)
}

/// The place in `options` of the first that is called `key`, or their
/// number.
fn find_option(options: &Vec<(String, Option<String>)>, key: &String) -> (at: usize)
    ensures
        at == option_place(options.deep_view(), key@),
        at <= options.len(),
{
    let mut at: usize = 0;
    while at < options.len() && !(options[at].0 == *key)
        invariant
            at <= options.len(),
            forall|k: int| 0 <= k < at ==> (#[trigger] options.deep_view()[k]).0 != key@,
        decreases options.len() - at,
    {
        at += 1;
    }
    proof {
        lemma_option_place(options.deep_view(), key@, at as int);
    }
    at
}

/// Sets `key` to `value` in `options`.
fn insert_option(options: &mut Vec<(String, Option<String>)>, key: String, value: Option<String>)
    ensures
        final(options).deep_view() == with_option(
            old(options).deep_view(),
            key@,
            text_of(value),
        ),
{
    let ghost before = options.deep_view();
    let ghost entry = (key@, text_of(value));
    let at = find_option(options, &key);
    if at < options.len() {
        options.set(at, (key, value));
        assert(options.deep_view() =~= before.update(at as int, entry));
    } else {
        options.push((key, value));
        assert(options.deep_view() =~= before.push(entry));
    }
}

/// Reads the options off the arguments that follow the theme.
pub fn separate_args(input_args: &[String]) -> (options: Vec<(String, Option<String>)>)
    ensures
        options.deep_view() == options_of(input_args.deep_view()),
{
    let mut options: Vec<(String, Option<String>)> = Vec::new();
    let mut prev_key = String::new();
    let ghost args = input_args.deep_view();
    proof {
        assert(args.take(0) =~= Seq::empty());
        assert(options.deep_view() =~= Seq::empty());
    }
    let mut i: usize = 0;
    while i < input_args.len()
        invariant
            i <= input_args.len(),
            args == input_args.deep_view(),
            options.deep_view() == options_of(args.take(i as int)),
            prev_key@ == open_option(args.take(i as int)),
        decreases input_args.len() - i,
    {
        let arg = &input_args[i];
        proof {
            let next = args.take(i + 1);
            assert(next.drop_last() =~= args.take(i as int));
            assert(next.last() == arg@);
        }
        match argument_parser(arg.as_str()) {
            Some(arg_name) => {
                prev_key = arg_name;
                insert_option(&mut options, prev_key.clone(), None);
            },
            None => {
                insert_option(&mut options, prev_key.clone(), Some(arg.clone()));
            },
        }
        i += 1;
    }
    proof {
        assert(args.take(args.len() as int) =~= args);
    }
    options
}

/// Whether the arguments ask for the general help.
pub fn is_general_help(args: &Vec<String>) -> (yes: bool)
    ensures
        yes == asks_general_help(args.deep_view()),
{
    args.len() < 2 || args[1] == "--help".to_string() || args[1] == "-h".to_string()
}

/// The theme that the arguments name, and the options that they set for it.
pub fn theme_and_options(args: &Vec<String>) -> (found: (String, Vec<(String, Option<String>)>))
    requires
        args.len() >= 2,
    ensures
        found.0@ == args[1]@,
        found.1.deep_view() == options_of(args.deep_view().skip(2)),
{
    let theme = args[1].clone();
    let rest = slice_subrange(args.as_slice(), 2, args.len());
    proof {
        assert(rest.deep_view() =~= args.deep_view().skip(2));
    }
    let options = separate_args(rest);
    (theme, options)
}

/// The variables that the options set.
pub fn variables_from_options(options: Vec<(String, Option<String>)>) -> (variables: Vec<Variable>)
    ensures
        variables.len() == options.len(),
        forall|i: int|
            0 <= i < options.len() ==> (#[trigger] variables[i])@ == variable_of(
                options.deep_view()[i],
            ),
{
    let mut variables: Vec<Variable> = Vec::new();
    let ghost items = options@;
    let ghost all = options.deep_view();
    for option in it: options
        invariant
            it.seq() == items,
            all.len() == items.len(),
            forall|k: int| 0 <= k < items.len() ==> all[k] == (#[trigger] items[k]).deep_view(),
            variables.len() == it.index(),
            forall|k: int| 0 <= k < it.index() ==>
                (#[trigger] variables[k])@ == variable_of(all[k]),
    {
        let (key, value) = option;
        let is_boolean = value.is_none();
        variables.push(Variable { name: key, value, is_boolean, comment: None });
    }
    variables
}

/// Writes `count` spaces to `line`.
fn push_spaces(line: &mut String, count: usize)
    ensures
        final(line)@ == old(line)@ + spaces(count as int),
{
    let mut i: usize = 0;
    proof {
        assert(line@ =~= old(line)@ + spaces(0));
    }
    while i < count
        invariant
            i <= count,
            line@ == old(line)@ + spaces(i as int),
        decreases count - i,
    {
        line.push(' ');
        proof {
            assert(spaces(i + 1) =~= spaces(i as int).push(' '));
        }
        i += 1;
    }
}

/// The lines that describe `variables` in a help text.
pub fn variable_help(variables: &Vec<Variable>) -> (lines: Vec<String>)
    ensures
        lines.deep_view() == help_lines(variables.deep_view()),
{
    let ghost all = variables.deep_view();
    let mut max_name_length: usize = 0;
    let mut i: usize = 0;
    proof {
        assert(all.take(0) =~= Seq::empty());
    }
    while i < variables.len()
        invariant
            i <= variables.len(),
            all == variables.deep_view(),
            max_name_length == longest_name(all.take(i as int)),
        decreases variables.len() - i,
    {
        proof {
            let next = all.take(i + 1);
            assert(next.drop_last() =~= all.take(i as int));
            assert(next.last() == variables[i as int]@);
        }
        let length = variables[i].name.as_str().as_bytes().len();
        if length > max_name_length {
            max_name_length = length;
        }
        i += 1;
    }
    proof {
        assert(all.take(all.len() as int) =~= all);
    }
    let ghost width = max_name_length + 3;
    let mut lines: Vec<String> = Vec::new();
    let mut i: usize = 0;
    while i < variables.len()
        invariant
            i <= variables.len(),
            all == variables.deep_view(),
            width == longest_name(all) + 3,
            width == max_name_length + 3,
            lines.len() == i,
            forall|k: int| 0 <= k < i ==> (#[trigger] lines[k])@ == help_line(all[k], width),
        decreases variables.len() - i,
    {
        let variable = &variables[i];
        let count = variable.name.as_str().unicode_len();
        let mut line = "  --".to_string();
        line.append(variable.name.as_str());
        let ghost named = line@;
        if count <= max_name_length {
            push_spaces(&mut line, max_name_length - count);
            push_spaces(&mut line, 3);
            proof {
                assert(spaces(max_name_length - count) + spaces(3) =~= spaces(width - count));
            }
        } else if count - max_name_length < 3 {
            push_spaces(&mut line, 3 - (count - max_name_length));
        }
        proof {
            assert(line@ =~= named + spaces(width - count));
        }
        match &variable.comment {
            Some(comment) => {
                line.append(comment.as_str());
            },
            None => {
                assert(line@ =~= named + spaces(width - count) + Seq::<char>::empty());
            },
        }
        lines.push(line);
        i += 1;
    }
    proof {
        assert(lines.deep_view() =~= help_lines(all));
    }
    lines
}

/// Reads what the command line asks for. `input_args` are the arguments as
/// the program got them, its own name first.
pub fn parse(input_args: Vec<String>) -> (action: ParsedAction)
    ensures
        action@ == action_of(input_args.deep_view()),
{
    if is_general_help(&input_args) {
        return ParsedAction::Help;
    }
    let (name, options) = theme_and_options(&input_args);
    if find_option(&options, &"help".to_string()) < options.len() {
        return ParsedAction::ThemeHelp { name };
    }
    let ghost set = options.deep_view();
    let variables = variables_from_options(options);
    proof {
        assert(variables.deep_view() =~= Seq::new(set.len(), |i: int| variable_of(set[i])));
    }
    ParsedAction::Theme { name, variables }
}

} // verus!
