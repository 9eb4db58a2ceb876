//! Reading runs of characters of one kind, as the parsers of arguments and of
//! variables files do.

use vstd::prelude::*;

verus! {

/// Whether `char::is_alphanumeric` holds of `c`.
pub uninterp spec fn alphanumeric(c: char) -> bool;

/// `char::is_alphanumeric` depends on the character alone: it tells whether
/// the character is a letter or a number as Unicode has it.
pub assume_specification[ char::is_alphanumeric ](c: char) -> (yes: bool)
    ensures
        yes == alphanumeric(c),
;

/// Whether a name may hold `c`: letters, numbers and the underscore.
pub fn is_acceptable_key(c: char) -> (yes: bool)
    ensures
        yes == (alphanumeric(c) || c == '_'),
{
    c.is_alphanumeric() || c == '_'
}

/// Whether a value may hold `c`: anything but `%` and `}`.
pub fn is_acceptable_value(c: char) -> (yes: bool)
    ensures
        yes == (c != '%' && c != '}'),
{
    c != '%' && c != '}'
}

/// The kinds of characters that the parsers read runs of.
#[derive(Clone, Copy, Debug, PartialEq, Eq, Structural)]
pub enum CharClass {
    /// Letters, numbers and the underscore: what names are made of.
    Word,
    /// Anything but `%` and `}`: what a value is made of.
    Value,
    /// Tabs and spaces.
    Blank,
    /// Anything but a line feed and a carriage return: what a line is made
    /// of.
    Line,
}

impl CharClass {
    /// Whether `c` is of this kind.
    pub open spec fn holds(self, c: char) -> bool {
        match self {
            CharClass::Word => alphanumeric(c) || c == '_',
            CharClass::Value => c != '%' && c != '}',
            CharClass::Blank => c == '\t' || c == ' ',
            CharClass::Line => c != '\n' && c != '\r',
        }
    }

    /// Whether `c` is of this kind.
    pub fn contains(self, c: char) -> (yes: bool)
        ensures
            yes == self.holds(c),
    {
        match self {
            CharClass::Word => is_acceptable_key(c),
            CharClass::Value => is_acceptable_value(c),
            CharClass::Blank => c == '\t' || c == ' ',
            CharClass::Line => c != '\n' && c != '\r',
        }
    }
}

/// How many characters of the kind `class` stand at the start of `text`
/// before the first of another kind.
pub open spec fn run_of(text: Seq<char>, class: CharClass) -> int
    decreases text.len(),
{
    if text.len() == 0 || !class.holds(text[0]) {
        0
    } else {
        1 + run_of(text.skip(1), class)
    }
}

/// A place with only characters of the kind before it, which holds one of
/// another kind or is the end of the text, is where the run ends.
pub proof fn lemma_run_of_ends(text: Seq<char>, class: CharClass, n: int)
    requires
        0 <= n <= text.len(),
        forall|k: int| 0 <= k < n ==> class.holds(#[trigger] text[k]),
        n < text.len() ==> !class.holds(text[n]),
    ensures
        run_of(text, class) == n,
    decreases n,
{
    if n > 0 {
        let rest = text.skip(1);
        assert(class.holds(text[0]));
        assert forall|k: int| 0 <= k < n - 1 implies class.holds(#[trigger] rest[k]) by {
            assert(rest[k] == text[k + 1]);
        }
        lemma_run_of_ends(rest, class, n - 1);
    }
}

/// The place behind the run of `class` that starts at `at`.
pub fn run_end(chars: &Vec<char>, at: usize, class: CharClass) -> (end: usize)
    requires
        at <= chars.len(),
    ensures
        at <= end <= chars.len(),
        end - at == run_of(chars@.skip(at as int), class),
{
    let mut end: usize = at;
    while end < chars.len() && class.contains(chars[end])
        invariant
            at <= end <= chars.len(),
            forall|k: int| 0 <= k < end - at ==> class.holds(#[trigger] chars@.skip(at as int)[k]),
        decreases chars.len() - end,
    {
        end += 1;
    }
    proof {
        lemma_run_of_ends(chars@.skip(at as int), class, end - at);
    }
    end
}

} // verus!
