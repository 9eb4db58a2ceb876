//! Reads the lines of a theme's variables file: `\newcommand` declares a
//! variable with its value, `\newif` a switch, and a `%` behind either
//! starts the comment that describes it.

use crate::scan::{run_end, run_of, CharClass};
use crate::text::{chars_of, has_prefix, starts_with_at, string_of, text_of};
use crate::variable::{Variable, VariableView};
use vstd::prelude::*;

verus! {

/// What opens the declaration of a variable with a value.
pub open spec fn command_opening() -> Seq<char> {
    "\\newcommand{\\"@
}

/// What opens the declaration of a switch.
pub open spec fn switch_opening() -> Seq<char> {
    "\\newif\\if"@
}

/// The comment that `text` starts with: after any tabs and spaces a `%`,
/// and then the comment, which runs to the end of the line.
pub open spec fn comment_at(text: Seq<char>) -> Option<Seq<char>> {
    let lead = run_of(text, CharClass::Blank);
    if lead < text.len() && text[lead] == '%' {
        let body = text.skip(lead + 1);
        Some(body.take(run_of(body, CharClass::Line)))
    } else {
        None
    }
}

/// The variable with a value that `text` declares at its start, and how
/// many characters the declaration takes: after any tabs and spaces the
/// opening, a name, `}{`, a value and `}`. A comment may follow; it is read,
/// and not counted.
pub open spec fn variable_at(text: Seq<char>) -> Option<(VariableView, int)> {
    let lead = run_of(text, CharClass::Blank);
    let named = text.skip(lead + command_opening().len());
    let name = run_of(named, CharClass::Word);
    let valued = named.skip(name + 2);
    let value = run_of(valued, CharClass::Value);
    if has_prefix(text.skip(lead), command_opening()) && name + 2 <= named.len() && named[name]
        == '}' && named[name + 1] == '{' && value < valued.len() && valued[value] == '}' {
        Some(
            (
                VariableView {
                    name: named.take(name),
                    value: Some(valued.take(value)),
                    is_boolean: false,
                    comment: comment_at(valued.skip(value + 1)),
                },
                lead + command_opening().len() + name + 2 + value + 1,
            ),
        )
    } else {
        None
    }
}

/// The switch that `text` declares at its start, and how many characters
/// the declaration takes: after any tabs and spaces the opening and a name.
/// A comment may follow; it is read, and not counted.
pub open spec fn switch_at(text: Seq<char>) -> Option<(VariableView, int)> {
    let lead = run_of(text, CharClass::Blank);
    let named = text.skip(lead + switch_opening().len());
    let name = run_of(named, CharClass::Word);
    if has_prefix(text.skip(lead), switch_opening()) {
        Some(
            (
                VariableView {
                    name: named.take(name),
                    value: None,
                    is_boolean: true,
                    comment: comment_at(named.skip(name)),
                },
                lead + switch_opening().len() + name,
            ),
        )
    } else {
        None
    }
}

/// The variable or switch that `text` declares at its start.
pub open spec fn declaration_at(text: Seq<char>) -> Option<(VariableView, int)> {
    if variable_at(text) is Some {
        variable_at(text)
    } else {
        switch_at(text)
    }
}

/// Reads the comment at `input[at..]`, if there is one.
pub fn comment_parser(input: &Vec<char>, at: usize) -> (comment: Option<String>)
    requires
        at <= input.len(),
    ensures
        text_of(comment) == comment_at(input@.skip(at as int)),
{
    let percent = run_end(input, at, CharClass::Blank);
    if percent >= input.len() || input[percent] != '%' {
        return None;
    }
    let end = run_end(input, percent + 1, CharClass::Line);
    let comment = string_of(input, percent + 1, end);
    proof {
        let text = input@.skip(at as int);
        let body = text.skip(percent - at + 1);
        assert(body =~= input@.skip(percent + 1));
        assert(body.take(end - percent - 1) =~= input@.subrange(percent + 1, end as int));
    }
    Some(comment)
}

/// Reads the declaration of a variable with a value at `input[at..]`. Gives
/// the variable and the place behind the declaration.
pub fn variable_parser(input: &Vec<char>, at: usize) -> (found: Option<(usize, Variable)>)
    requires
        at <= input.len(),
    ensures
        match found {
            Some((next, variable)) => at <= next <= input.len() && variable_at(
                input@.skip(at as int),
            ) == Some((variable@, next - at)),
            None => variable_at(input@.skip(at as int)) is None,
        },
{
    let opening = chars_of("\\newcommand{\\");
    let ghost text = input@.skip(at as int);
    let start = run_end(input, at, CharClass::Blank);
    proof {
        assert(text.skip(start - at) =~= input@.skip(start as int));
    }
    if !starts_with_at(input, start, &opening) {
        return None;
    }
    let name_start = start + opening.len();
    let name_end = run_end(input, name_start, CharClass::Word);
    let ghost named = text.skip(name_start - at);
    proof {
        assert(named =~= input@.skip(name_start as int));
    }
    if input.len() - name_end < 2 || input[name_end] != '}' || input[name_end + 1] != '{' {
        return None;
    }
    let value_start = name_end + 2;
    let value_end = run_end(input, value_start, CharClass::Value);
    let ghost valued = named.skip(name_end - name_start + 2);
    proof {
        assert(valued =~= input@.skip(value_start as int));
    }
    if value_end >= input.len() || input[value_end] != '}' {
        return None;
    }
    let name = string_of(input, name_start, name_end);
    let value = string_of(input, value_start, value_end);
    let comment = comment_parser(input, value_end + 1);
    proof {
        assert(named.take(name_end - name_start) =~= input@.subrange(
            name_start as int,
            name_end as int,
        ));
        assert(valued.take(value_end - value_start) =~= input@.subrange(
            value_start as int,
            value_end as int,
        ));
        assert(valued.skip(value_end - value_start + 1) =~= input@.skip(value_end + 1));
    }
    Some((value_end + 1, Variable { name, value: Some(value), is_boolean: false, comment }))
}

/// Reads the declaration of a switch at `input[at..]`. Gives the switch and
/// the place behind the declaration.
pub fn boolean_parser(input: &Vec<char>, at: usize) -> (found: Option<(usize, Variable)>)
    requires
        at <= input.len(),
    ensures
        match found {
            Some((next, variable)) => at <= next <= input.len() && switch_at(
                input@.skip(at as int),
            ) == Some((variable@, next - at)),
            None => switch_at(input@.skip(at as int)) is None,
        },
{
    let opening = chars_of("\\newif\\if");
    let ghost text = input@.skip(at as int);
    let start = run_end(input, at, CharClass::Blank);
    proof {
        assert(text.skip(start - at) =~= input@.skip(start as int));
    }
    if !starts_with_at(input, start, &opening) {
        return None;
    }
    let name_start = start + opening.len();
    let name_end = run_end(input, name_start, CharClass::Word);
    let ghost named = text.skip(name_start - at);
    proof {
        assert(named =~= input@.skip(name_start as int));
    }
    let name = string_of(input, name_start, name_end);
    let comment = comment_parser(input, name_end);
    proof {
        assert(named.take(name_end - name_start) =~= input@.subrange(
            name_start as int,
            name_end as int,
        ));
        assert(named.skip(name_end - name_start) =~= input@.skip(name_end as int));
    }
    Some((name_end, Variable { name, value: None, is_boolean: true, comment }))
}

/// Reads the declaration of a variable or of a switch at the start of
/// `input`. Gives how many characters the declaration takes, and what it
/// declares.
pub fn latex_parser(input: &str) -> (found: Option<(usize, Variable)>)
    ensures
        match found {
            Some((used, variable)) => declaration_at(input@) == Some((variable@, used as int)),
            None => declaration_at(input@) is None,
        },
{
    let chars = chars_of(input);
    proof {
        assert(chars@.skip(0) =~= input@);
    }
    if let Some(found) = variable_parser(&chars, 0) {
        return Some(found);
    }
    boolean_parser(&chars, 0)
}

} // verus!
