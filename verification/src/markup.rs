//! Rewrites the light inline markup of a text file into typeset commands:
//! `*bold*`, `_italics_`, and block quotes that open with a blank line and a
//! tab.

use crate::text::{chars_of, string_of};
use vstd::prelude::*;

verus! {

/// A piece of markup recognised at some place in a text, with its content.
#[derive(Debug)]
pub enum ParsedElement {
    Bold(String),
    Italics(String),
    Quote(String),
}

/// What a `ParsedElement` stands for.
pub enum Span {
    Bold(Seq<char>),
    Italics(Seq<char>),
    Quote(Seq<char>),
}

impl View for ParsedElement {
    type V = Span;

    open spec fn view(&self) -> Span {
        match self {
            ParsedElement::Bold(content) => Span::Bold(content@),
            ParsedElement::Italics(content) => Span::Italics(content@),
            ParsedElement::Quote(content) => Span::Quote(content@),
        }
    }
}

/// How many characters stand before the first `c` in `text`: the length of
/// `text` where it holds no `c`.
pub open spec fn run_before(text: Seq<char>, c: char) -> int
    decreases text.len(),
{
    if text.len() == 0 || text[0] == c {
        0
    } else {
        1 + run_before(text.skip(1), c)
    }
}

/// How many characters stand before the first blank line (two line feeds in a
/// row) in `text`: the length of `text` where it holds none.
pub open spec fn run_before_break(text: Seq<char>) -> int
    decreases text.len(),
{
    if text.len() < 2 {
        text.len() as int
    } else if text[0] == '\n' && text[1] == '\n' {
        0
    } else {
        1 + run_before_break(text.skip(1))
    }
}

/// `text` without its tab characters.
pub open spec fn without_tabs(text: Seq<char>) -> Seq<char>
    decreases text.len(),
{
    if text.len() == 0 {
        Seq::empty()
    } else if text.last() == '\t' {
        without_tabs(text.drop_last())
    } else {
        without_tabs(text.drop_last()).push(text.last())
    }
}

/// A span between two `delim` characters at the very start of `text`: its
/// content, which is not empty and holds no `delim`, and how many characters
/// the span takes, both delimiters included. `None` where `text` does not
/// start with `delim`, where the next character is `delim` again, or where no
/// second `delim` follows.
pub open spec fn delimited_at(text: Seq<char>, delim: char) -> Option<(Seq<char>, int)> {
    if text.len() >= 1 && text[0] == delim {
        let content = run_before(text.skip(1), delim);
        if 1 <= content < text.len() - 1 {
            Some((text.subrange(1, 1 + content), content + 2))
        } else {
            None
        }
    } else {
        None
    }
}

/// A block quote at the very start of `text`: two line feeds and a tab, then
/// everything up to the next blank line, which must exist and is not part of
/// the quote. Gives the content with its tabs taken out, and how many
/// characters the quote takes.
pub open spec fn quote_at(text: Seq<char>) -> Option<(Seq<char>, int)> {
    if text.len() >= 3 && text[0] == '\n' && text[1] == '\n' && text[2] == '\t' {
        let body = text.skip(3);
        let content = run_before_break(body);
        if content < body.len() {
            Some((without_tabs(body.take(content)), content + 3))
        } else {
            None
        }
    } else {
        None
    }
}

/// The span that `text` starts with, if any, and how many characters it
/// takes. The three forms open with different characters, so at most one can
/// be there.
pub open spec fn element_at(text: Seq<char>) -> Option<(Span, int)> {
    if let Some((content, used)) = delimited_at(text, '*') {
        Some((Span::Bold(content), used))
    } else if let Some((content, used)) = delimited_at(text, '_') {
        Some((Span::Italics(content), used))
    } else if let Some((content, used)) = quote_at(text) {
        Some((Span::Quote(content), used))
    } else {
        None
    }
}

/// The typeset command for a span.
pub open spec fn rendered(span: Span) -> Seq<char> {
    match span {
        Span::Bold(content) => "\\textbf{"@ + content + "}"@,
        Span::Italics(content) => "\\emph{"@ + content + "}"@,
        Span::Quote(content) => "\\quote{"@ + content + "}"@,
    }
}

/// Neither run is longer than the text.
pub proof fn lemma_run_bounds(text: Seq<char>, c: char)
    ensures
        0 <= run_before(text, c) <= text.len(),
        0 <= run_before_break(text) <= text.len(),
    decreases text.len(),
{
    if text.len() > 0 {
        lemma_run_bounds(text.skip(1), c);
    }
}

/// A place with no `c` before it, which holds `c` or is the end of the text,
/// is where the run before the first `c` ends.
pub proof fn lemma_run_before_ends(text: Seq<char>, c: char, n: int)
    requires
        0 <= n <= text.len(),
        forall|k: int| 0 <= k < n ==> text[k] != c,
        n < text.len() ==> text[n] == c,
    ensures
        run_before(text, c) == n,
    decreases n,
{
    if n > 0 {
        let rest = text.skip(1);
        assert forall|k: int| 0 <= k < n - 1 implies rest[k] != c by {
            assert(rest[k] == text[k + 1]);
        }
        lemma_run_before_ends(rest, c, n - 1);
    }
}

/// A place with no blank line starting before it, at which one starts or
/// which is the end of the text, is where the run before the first blank
/// line ends.
pub proof fn lemma_run_before_break_ends(text: Seq<char>, n: int)
    requires
        0 <= n <= text.len(),
        forall|k: int|
            0 <= k < n && k + 1 < text.len() ==> !(#[trigger] text[k] == '\n' && text[k + 1]
                == '\n'),
        n < text.len() ==> n + 1 < text.len() && text[n] == '\n' && text[n + 1] == '\n',
    ensures
        run_before_break(text) == n,
    decreases n,
{
    if n > 0 {
        let rest = text.skip(1);
        assert forall|k: int| 0 <= k < n - 1 && k + 1 < rest.len() implies !(#[trigger] rest[k]
            == '\n' && rest[k + 1] == '\n') by {
            assert(rest[k] == text[k + 1]);
            assert(rest[k + 1] == text[k + 2]);
        }
        if n < text.len() {
            assert(rest[n - 1] == text[n]);
            assert(rest[n] == text[n + 1]);
        }
        if text.len() >= 2 {
            assert(!(text[0] == '\n' && text[1] == '\n'));
        }
        lemma_run_before_break_ends(rest, n - 1);
    }
}

/// A span takes at least one and at most all of the characters of the text
/// it starts.
pub proof fn lemma_element_at_bounds(text: Seq<char>)
    ensures
        element_at(text) matches Some((_, used)) ==> 0 < used <= text.len(),
{
    if text.len() >= 3 {
        lemma_run_bounds(text.skip(3), '\n');
    }
}

/// `text` with every span replaced by its command, read from left to right:
/// where a span starts, its command is written and reading goes on behind the
/// span; anywhere else one character is copied.
pub open spec fn transformed(text: Seq<char>) -> Seq<char>
    decreases text.len(),
{
    if text.len() == 0 {
        Seq::empty()
    } else {
        match element_at(text) {
            Some((span, used)) => {
                proof {
                    lemma_element_at_bounds(text);
                }
                rendered(span) + transformed(text.skip(used))
            },
            None => seq![text[0]] + transformed(text.skip(1)),
        }
    }
}

/// A run ends at what was looked for, unless it ends with the text.
pub proof fn lemma_run_stops(text: Seq<char>, c: char)
    ensures
        run_before(text, c) < text.len() ==> text[run_before(text, c)] == c,
        run_before_break(text) < text.len() ==> {
            &&& run_before_break(text) + 1 < text.len()
            &&& text[run_before_break(text)] == '\n'
            &&& text[run_before_break(text) + 1] == '\n'
        },
    decreases text.len(),
{
    if text.len() > 0 {
        let rest = text.skip(1);
        lemma_run_stops(rest, c);
        lemma_run_bounds(rest, c);
        if run_before(text, c) > 0 && run_before(text, c) < text.len() {
            assert(text[run_before(text, c)] == rest[run_before(rest, c)]);
        }
        if run_before_break(text) > 0 && run_before_break(text) < text.len() {
            let at = run_before_break(rest);
            assert(text[at + 1] == rest[at]);
            assert(text[at + 2] == rest[at + 1]);
        }
    }
}

/// The blank line that ends a quote is not part of the quote: it is what
/// the text goes on with behind the quote.
pub proof fn lemma_quote_leaves_blank_line(text: Seq<char>)
    requires
        quote_at(text) is Some,
    ensures
        quote_at(text) matches Some((_, used)) && 3 <= used && used + 1 < text.len() && text[used]
            == '\n' && text[used + 1] == '\n',
{
    let body = text.skip(3);
    lemma_run_bounds(body, '\n');
    lemma_run_stops(body, '\n');
    let content = run_before_break(body);
    assert(body[content] == text[content + 3]);
    assert(body[content + 1] == text[content + 4]);
}

/// A text that holds no `*`, no `_` and no line feed is left as it is.
pub proof fn lemma_plain_text_unchanged(text: Seq<char>)
    requires
        forall|i: int|
            0 <= i < text.len() ==> #[trigger] text[i] != '*' && text[i] != '_' && text[i] != '\n',
    ensures
        transformed(text) == text,
    decreases text.len(),
{
    if text.len() > 0 {
        let rest = text.skip(1);
        assert forall|i: int| 0 <= i < rest.len() implies
            #[trigger] rest[i] != '*' && rest[i] != '_'
            && rest[i] != '\n' by {
            assert(rest[i] == text[i + 1]);
        }
        lemma_plain_text_unchanged(rest);
        assert(text[0] != '*' && text[0] != '_' && text[0] != '\n');
        assert(element_at(text) is None);
        assert(seq![text[0]] + rest =~= text);
    }
}

/// Looks at `input[at..]` for a span between two `delim` characters. Gives
/// its content and the place behind the closing delimiter.
fn parse_delimited(input: &Vec<char>, at: usize, delim: char) -> (found: Option<(String, usize)>)
    requires
        at <= input.len(),
    ensures
        match found {
            Some((content, next)) => at < next <= input.len() && delimited_at(
                input@.skip(at as int),
                delim,
            ) == Some((content@, next - at)),
            None => delimited_at(input@.skip(at as int), delim) is None,
        },
{
    if at >= input.len() || input[at] != delim {
        return None;
    }
    let ghost body = input@.skip(at as int).skip(1);
    let mut close: usize = at + 1;
    while close < input.len() && input[close] != delim
        invariant
            at < close <= input.len(),
            body == input@.skip(at as int).skip(1),
            forall|k: int| 0 <= k < close - at - 1 ==> body[k] != delim,
        decreases input.len() - close,
    {
        close += 1;
    }
    proof {
        lemma_run_before_ends(body, delim, close - at - 1);
    }
    if close >= input.len() || close == at + 1 {
        return None;
    }
    let content = string_of(input, at + 1, close);
    proof {
        assert(input@.skip(at as int).subrange(1, close - at) =~= input@.subrange(
            at + 1,
            close as int,
        ));
    }
    Some((content, close + 1))
}

/// Looks at `input[at..]` for `*bold*`.
pub fn parse_bold(input: &Vec<char>, at: usize) -> (found: Option<(ParsedElement, usize)>)
    requires
        at <= input.len(),
    ensures
        match found {
            Some((element, next)) => at < next <= input.len() && element is Bold
                && delimited_at(input@.skip(at as int), '*') == Some((element->Bold_0@, next - at)),
            None => delimited_at(input@.skip(at as int), '*') is None,
        },
{
    match parse_delimited(input, at, '*') {
        Some((content, next)) => Some((ParsedElement::Bold(content), next)),
        None => None,
    }
}

/// Looks at `input[at..]` for `_italics_`.
pub fn parse_italics(input: &Vec<char>, at: usize) -> (found: Option<(ParsedElement, usize)>)
    requires
        at <= input.len(),
    ensures
        match found {
            Some((element, next)) => at < next <= input.len() && element is Italics
                && delimited_at(input@.skip(at as int), '_') == Some(
                (element->Italics_0@, next - at),
            ),
            None => delimited_at(input@.skip(at as int), '_') is None,
        },
{
    match parse_delimited(input, at, '_') {
        Some((content, next)) => Some((ParsedElement::Italics(content), next)),
        None => None,
    }
}

/// Looks at `input[at..]` for a block quote. The place it gives is that of
/// the blank line that ends the quote, which is left to be read again.
pub fn parse_quote(input: &Vec<char>, at: usize) -> (found: Option<(ParsedElement, usize)>)
    requires
        at <= input.len(),
    ensures
        match found {
            Some((element, next)) => at < next <= input.len() && element is Quote && quote_at(
                input@.skip(at as int),
            ) == Some((element->Quote_0@, next - at)),
            None => quote_at(input@.skip(at as int)) is None,
        },
{
    if input.len() - at < 3 || input[at] != '\n' || input[at + 1] != '\n' || input[at + 2]
        != '\t' {
        return None;
    }
    let start = at + 3;
    let ghost body = input@.skip(at as int).skip(3);
    let mut end: usize = start;
    let mut content = String::new();
    while end < input.len() && !(end + 1 < input.len() && input[end] == '\n' && input[end + 1]
        == '\n')
        invariant
            start <= end <= input.len(),
            start == at + 3,
            body == input@.skip(at as int).skip(3),
            forall|k: int|
                0 <= k < end - start && k + 1 < body.len() ==> !(#[trigger] body[k] == '\n'
                    && body[k + 1] == '\n'),
            content@ == without_tabs(body.take(end - start)),
        decreases input.len() - end,
    {
        proof {
            let longer = body.take(end - start + 1);
            assert(longer.drop_last() =~= body.take(end - start));
            assert(longer.last() == input@[end as int]);
        }
        if input[end] != '\t' {
            content.push(input[end]);
        }
        end += 1;
    }
    proof {
        lemma_run_before_break_ends(body, end - start);
    }
    if end >= input.len() {
        return None;
    }
    Some((ParsedElement::Quote(content), end))
}

/// Looks at `input[at..]` for any of the three spans.
pub fn parse_element(input: &Vec<char>, at: usize) -> (found: Option<(ParsedElement, usize)>)
    requires
        at <= input.len(),
    ensures
        match found {
            Some((element, next)) => at < next <= input.len() && element_at(
                input@.skip(at as int),
            ) == Some((element@, next - at)),
            None => element_at(input@.skip(at as int)) is None,
        },
{
    if let Some(found) = parse_bold(input, at) {
        return Some(found);
    }
    if let Some(found) = parse_italics(input, at) {
        return Some(found);
    }
    parse_quote(input, at)
}

/// Writes the typeset command for a span.
pub fn transform_element(element: ParsedElement) -> (command: String)
    ensures
        command@ == rendered(element@),
{
    let (mut command, content) = match element {
        ParsedElement::Bold(content) => ("\\textbf{".to_string(), content),
        ParsedElement::Italics(content) => ("\\emph{".to_string(), content),
        ParsedElement::Quote(content) => ("\\quote{".to_string(), content),
    };
    command.append(content.as_str());
    command.append("}");
    command
}

/// Rewrites every span of `input` into its typeset command and copies the
/// rest as it is.
pub fn parse_markdown(input: &str) -> (output: String)
    ensures
        output@ == transformed(input@),
{
    let chars = chars_of(input);
    let mut output = String::new();
    let mut at: usize = 0;
    proof {
        assert(chars@.skip(0) =~= input@);
        assert(output@ + transformed(input@) =~= transformed(input@));
    }
    while at < chars.len()
        invariant
            at <= chars.len(),
            chars@ == input@,
            output@ + transformed(chars@.skip(at as int)) == transformed(input@),
        decreases chars.len() - at,
    {
        let ghost rest = chars@.skip(at as int);
        let ghost before = output@;
        match parse_element(&chars, at) {
            Some((element, next)) => {
                proof {
                    assert(rest.skip(next - at) =~= chars@.skip(next as int));
                    assert(transformed(rest) == rendered(element@) + transformed(
                        chars@.skip(next as int),
                    ));
                }
                let command = transform_element(element);
                output.append(command.as_str());
                at = next;
                proof {
                    assert(output@ + transformed(chars@.skip(at as int)) =~= before + transformed(
                        rest,
                    ));
                }
            },
            None => {
                proof {
                    assert(rest.skip(1) =~= chars@.skip(at + 1));
                    assert(rest[0] == chars@[at as int]);
                }
                output.push(chars[at]);
                at += 1;
                proof {
                    assert(output@ + transformed(chars@.skip(at as int)) =~= before + transformed(
                        rest,
                    ));
                }
            },
        }
    }
    proof {
        assert(chars@.skip(at as int) =~= Seq::empty());
    }
    output
}

} // verus!
