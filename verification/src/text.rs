//! Character sequences: moving between strings and vectors of characters,
//! splitting on a separator and joining again.

use vstd::prelude::*;

verus! {

/// `String::push` appends the given character to the end of the string and
/// changes nothing else.
pub assume_specification[ String::push ](s: &mut String, c: char)
    ensures
        final(s)@ == old(s)@.push(c),
;

/// The characters of `text`, in order.
pub fn chars_of(text: &str) -> (chars: Vec<char>)
    ensures
        chars@ == text@,
{
    let mut chars: Vec<char> = Vec::new();
    for c in it: text.chars()
        invariant
            it.seq() == text@,
            chars@ == it.seq().take(it.index() as int),
    {
        chars.push(c);
    }
    chars
}

/// Appends `chars[from..to]` to `out`.
pub fn push_chars(out: &mut String, chars: &Vec<char>, from: usize, to: usize)
    requires
        from <= to <= chars.len(),
    ensures
        final(out)@ == old(out)@ + chars@.subrange(from as int, to as int),
{
    let mut i: usize = from;
    while i < to
        invariant
            from <= i <= to <= chars.len(),
            out@ == old(out)@ + chars@.subrange(from as int, i as int),
        decreases to - i,
    {
        out.push(chars[i]);
        i += 1;
    }
}

/// The string made of `chars[from..to]`.
pub fn string_of(chars: &Vec<char>, from: usize, to: usize) -> (s: String)
    requires
        from <= to <= chars.len(),
    ensures
        s@ == chars@.subrange(from as int, to as int),
{
    let mut s = String::new();
    push_chars(&mut s, chars, from, to);
    s
}

/// The text of an optional string.
pub open spec fn text_of(text: Option<String>) -> Option<Seq<char>> {
    match text {
        Some(text) => Some(text@),
        None => None,
    }
}

/// Whether `text` ends with `suffix`.
pub open spec fn has_suffix(text: Seq<char>, suffix: Seq<char>) -> bool {
    suffix.len() <= text.len() && text.skip(text.len() - suffix.len()) == suffix
}

/// Whether `text` starts with `prefix`.
pub open spec fn has_prefix(text: Seq<char>, prefix: Seq<char>) -> bool {
    prefix.len() <= text.len() && text.take(prefix.len() as int) == prefix
}

/// Whether `chars[from..]` starts with `prefix`.
pub fn starts_with_at(chars: &Vec<char>, from: usize, prefix: &Vec<char>) -> (found: bool)
    requires
        from <= chars.len(),
    ensures
        found == has_prefix(chars@.skip(from as int), prefix@),
{
    if prefix.len() > chars.len() - from {
        return false;
    }
    let mut i: usize = 0;
    while i < prefix.len()
        invariant
            from <= chars.len(),
            prefix.len() <= chars.len() - from,
            i <= prefix.len(),
            chars@.skip(from as int).take(i as int) == prefix@.take(i as int),
        decreases prefix.len() - i,
    {
        if chars[from + i] != prefix[i] {
            proof {
                let mine = chars@.skip(from as int).take(prefix.len() as int);
                assert(mine[i as int] != prefix@[i as int]);
            }
            return false;
        }
        proof {
            let next = i + 1;
            assert(chars@.skip(from as int).take(next as int) =~= chars@.skip(from as int).take(
                i as int,
            ).push(chars@[from + i]));
            assert(prefix@.take(next as int) =~= prefix@.take(i as int).push(prefix@[i as int]));
        }
        i += 1;
    }
    proof {
        assert(prefix@.take(prefix.len() as int) =~= prefix@);
    }
    true
}

/// Whether `chars` ends with `suffix`.
pub fn ends_with(chars: &Vec<char>, suffix: &Vec<char>) -> (found: bool)
    ensures
        found == has_suffix(chars@, suffix@),
{
    if suffix.len() > chars.len() {
        return false;
    }
    let from = chars.len() - suffix.len();
    let found = starts_with_at(chars, from, suffix);
    proof {
        assert(chars@.skip(from as int).take(suffix.len() as int) =~= chars@.skip(from as int));
    }
    found
}

/// The pieces of `text` between occurrences of `sep`. There is always at least
/// one piece; a separator at either end, or two in a row, give an empty piece.
pub open spec fn split(text: Seq<char>, sep: char) -> Seq<Seq<char>>
    decreases text.len(),
{
    if text.len() == 0 {
        seq![Seq::empty()]
    } else {
        let before = split(text.drop_last(), sep);
        if text.last() == sep {
            before.push(Seq::empty())
        } else {
            before.drop_last().push(before.last().push(text.last()))
        }
    }
}

/// Splits `chars[..end]` on `sep`.
pub fn split_chars(chars: &Vec<char>, end: usize, sep: char) -> (pieces: Vec<String>)
    requires
        end <= chars.len(),
    ensures
        pieces.deep_view() == split(chars@.take(end as int), sep),
{
    let mut pieces: Vec<String> = Vec::new();
    let mut piece = String::new();
    let mut i: usize = 0;
    while i < end
        invariant
            i <= end <= chars.len(),
            split(chars@.take(i as int), sep) == pieces.deep_view().push(piece@),
        decreases end - i,
    {
        let c = chars[i];
        proof {
            let next = chars@.take(i + 1);
            assert(next.drop_last() =~= chars@.take(i as int));
            assert(next.last() == c);
            assert(pieces.deep_view().push(piece@).drop_last() =~= pieces.deep_view());
        }
        if c == sep {
            let ghost before = pieces.deep_view();
            pieces.push(piece);
            piece = String::new();
            assert(pieces.deep_view() =~= before.push(pieces@.last()@));
        } else {
            piece.push(c);
        }
        i += 1;
    }
    let ghost before = pieces.deep_view();
    pieces.push(piece);
    assert(pieces.deep_view() =~= before.push(pieces@.last()@));
    pieces
}

/// Writes the pieces `pieces[from..to]` to `out` with `sep` between
/// neighbours.
pub fn push_joined(out: &mut String, pieces: &Vec<String>, from: usize, to: usize, sep: char)
    requires
        from <= to <= pieces.len(),
    ensures
        final(out)@ == old(out)@ + join(pieces.deep_view().subrange(from as int, to as int), sep),
{
    let mut i: usize = from;
    while i < to
        invariant
            from <= i <= to <= pieces.len(),
            out@ == old(out)@ + join(pieces.deep_view().subrange(from as int, i as int), sep),
        decreases to - i,
    {
        proof {
            let done = pieces.deep_view().subrange(from as int, i as int);
            let next = pieces.deep_view().subrange(from as int, i + 1);
            assert(next.drop_last() =~= done);
            assert(next.last() == pieces@[i as int]@);
        }
        if i > from {
            out.push(sep);
        }
        out.append(pieces[i].as_str());
        i += 1;
    }
}

/// The pieces written one after another with `sep` between neighbours.
pub open spec fn join(pieces: Seq<Seq<char>>, sep: char) -> Seq<char>
    decreases pieces.len(),
{
    if pieces.len() == 0 {
        Seq::empty()
    } else if pieces.len() == 1 {
        pieces[0]
    } else {
        join(pieces.drop_last(), sep).push(sep) + pieces.last()
    }
}

/// Whether no piece holds the separator.
pub open spec fn free_of(pieces: Seq<Seq<char>>, sep: char) -> bool {
    forall|i: int| 0 <= i < pieces.len() ==> !(#[trigger] pieces[i]).contains(sep)
}

/// Splitting always yields a piece, and no piece holds the separator.
pub proof fn lemma_split_pieces(text: Seq<char>, sep: char)
    ensures
        split(text, sep).len() >= 1,
        free_of(split(text, sep), sep),
    decreases text.len(),
{
    if text.len() == 0 {
        assert(!Seq::<char>::empty().contains(sep));
    } else {
        lemma_split_pieces(text.drop_last(), sep);
        let before = split(text.drop_last(), sep);
        if text.last() == sep {
            assert(!Seq::<char>::empty().contains(sep));
        } else {
            let grown = before.last().push(text.last());
            assert(!before[before.len() - 1].contains(sep));
            assert forall|k: int| 0 <= k < grown.len() implies grown[k] != sep by {
                if k < before.last().len() {
                    assert(before.last().contains(before.last()[k]));
                }
            }
        }
    }
}

/// Joining the pieces of a text gives the text back.
pub proof fn lemma_join_split(text: Seq<char>, sep: char)
    ensures
        join(split(text, sep), sep) == text,
    decreases text.len(),
{
    if text.len() == 0 {
    } else {
        let init = text.drop_last();
        lemma_join_split(init, sep);
        lemma_split_pieces(init, sep);
        let before = split(init, sep);
        if text.last() == sep {
            let after = before.push(Seq::empty());
            assert(after.drop_last() =~= before);
            assert(join(after, sep) =~= text);
        } else {
            let grown = before.last().push(text.last());
            let after = before.drop_last().push(grown);
            assert(after.drop_last() =~= before.drop_last());
            assert(text =~= init.push(text.last()));
            if before.len() > 1 {
                let stem = join(before.drop_last(), sep).push(sep);
                assert(init == stem + before.last());
                assert(join(after, sep) == stem + grown);
            }
            assert(join(after, sep) =~= text);
        }
    }
}

/// A text that ends in a separator followed by a piece without one splits
/// into the pieces before the separator and that last piece.
pub proof fn lemma_split_append(head: Seq<char>, sep: char, piece: Seq<char>)
    requires
        !piece.contains(sep),
    ensures
        split(head.push(sep) + piece, sep) == split(head, sep).push(piece),
    decreases piece.len(),
{
    let text = head.push(sep) + piece;
    if piece.len() == 0 {
        assert(text =~= head.push(sep));
        assert(text.drop_last() =~= head);
        assert(piece =~= Seq::empty());
    } else {
        let shorter = piece.drop_last();
        assert forall|k: int| 0 <= k < shorter.len() implies shorter[k] != sep by {
            assert(piece.contains(piece[k]));
        }
        lemma_split_append(head, sep, shorter);
        assert(text.drop_last() =~= head.push(sep) + shorter);
        assert(piece.contains(piece.last()));
        assert(text.last() == piece.last());
        let before = split(head, sep).push(shorter);
        assert(before.drop_last() =~= split(head, sep));
        assert(shorter.push(piece.last()) =~= piece);
    }
}

/// Splitting what was joined gives the pieces back, as long as there is at
/// least one piece and none holds the separator.
pub proof fn lemma_split_join(pieces: Seq<Seq<char>>, sep: char)
    requires
        pieces.len() >= 1,
        free_of(pieces, sep),
    ensures
        split(join(pieces, sep), sep) == pieces,
    decreases pieces.len(),
{
    if pieces.len() == 1 {
        lemma_split_single(pieces[0], sep);
        assert(pieces =~= seq![pieces[0]]);
    } else {
        let init = pieces.drop_last();
        assert(free_of(init, sep)) by {
            assert forall|i: int| 0 <= i < init.len() implies
                !(#[trigger] init[i]).contains(sep) by {
                assert(init[i] == pieces[i]);
            }
        }
        lemma_split_join(init, sep);
        assert(!pieces[pieces.len() - 1].contains(sep));
        lemma_split_append(join(init, sep), sep, pieces.last());
        assert(init.push(pieces.last()) =~= pieces);
    }
}

/// A text without the separator is its own single piece.
pub proof fn lemma_split_single(text: Seq<char>, sep: char)
    requires
        !text.contains(sep),
    ensures
        split(text, sep) == seq![text],
    decreases text.len(),
{
    if text.len() == 0 {
        assert(text =~= Seq::empty());
    } else {
        let init = text.drop_last();
        assert forall|k: int| 0 <= k < init.len() implies init[k] != sep by {
            assert(text.contains(text[k]));
        }
        lemma_split_single(init, sep);
        assert(text.contains(text.last()));
        assert(init.push(text.last()) =~= text);
        assert(seq![init].drop_last().push(text) =~= seq![text]);
    }
}

} // verus!
