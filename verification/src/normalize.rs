//! Rewrites a file's path so that it has a given number of segments.

use crate::text::{chars_of, free_of, has_suffix, join, push_joined, split, split_chars};
use crate::text::{lemma_join_split, lemma_split_join, lemma_split_pieces};
use vstd::prelude::*;

verus! {

/// The path without its extension.
pub open spec fn stem(path: Seq<char>, ext: Seq<char>) -> Seq<char> {
    path.take(path.len() - ext.len())
}

/// The segment `file_name`, `count` times.
pub open spec fn repeated(file_name: Seq<char>, count: nat) -> Seq<Seq<char>> {
    Seq::new(count, |i: int| file_name)
}

/// The segments cut down or filled up to `depth` of them. The last segment is
/// the file name and stays last. With more than `depth - 1` directories only
/// the first `depth - 1` are kept; with fewer, the file name itself is
/// repeated until there are `depth` segments.
pub open spec fn fit_to_depth(segments: Seq<Seq<char>>, depth: nat) -> Seq<Seq<char>>
    recommends
        segments.len() >= 1,
        depth >= 1,
{
    let dirs = segments.drop_last();
    let file_name = segments.last();
    if dirs.len() > depth - 1 {
        dirs.take(depth - 1).push(file_name)
    } else {
        dirs + repeated(file_name, (depth - dirs.len()) as nat)
    }
}

/// The path with its extension taken off and exactly `depth` segments.
pub open spec fn normalize(path: Seq<char>, depth: nat, ext: Seq<char>) -> Seq<char>
    recommends
        depth >= 1,
        has_suffix(path, ext),
{
    join(fit_to_depth(split(stem(path, ext), '/'), depth), '/')
}

/// Strips `ext` from `path` and brings the path to exactly `depth` segments,
/// the file name last.
pub fn adjust_path_depth(path: &str, depth: usize, ext: &str) -> (adjusted: String)
    requires
        depth >= 1,
        has_suffix(path@, ext@),
    ensures
        adjusted@ == normalize(path@, depth as nat, ext@),
{
    let chars = chars_of(path);
    let ext_chars = chars_of(ext);
    let end = chars.len() - ext_chars.len();
    let segments = split_chars(&chars, end, '/');
    proof {
        lemma_split_pieces(stem(path@, ext@), '/');
    }
    let dirs = segments.len() - 1;
    let ghost all = segments.deep_view();
    let ghost file_name = all.last();
    let mut adjusted = String::new();
    if dirs > depth - 1 {
        push_joined(&mut adjusted, &segments, 0, depth - 1, '/');
        if depth - 1 > 0 {
            adjusted.push('/');
        }
        adjusted.append(segments[dirs].as_str());
        proof {
            let kept = all.drop_last().take(depth - 1);
            assert(all.subrange(0, depth - 1) =~= kept);
            assert(kept.push(file_name).drop_last() =~= kept);
        }
    } else {
        push_joined(&mut adjusted, &segments, 0, dirs, '/');
        let mut count: usize = dirs;
        proof {
            assert(all.subrange(0, dirs as int) =~= all.drop_last() + repeated(file_name, 0));
        }
        while count < depth
            invariant
                dirs <= count <= depth,
                dirs + 1 == segments.len(),
                all == segments.deep_view(),
                file_name == all.last(),
                adjusted@ == join(
                    all.drop_last() + repeated(file_name, (count - dirs) as nat),
                    '/',
                ),
            decreases depth - count,
        {
            proof {
                let done = all.drop_last() + repeated(file_name, (count - dirs) as nat);
                let next = all.drop_last() + repeated(file_name, (count + 1 - dirs) as nat);
                assert(next.drop_last() =~= done);
                assert(next.last() == file_name);
                assert(done.len() == count);
            }
            if count > 0 {
                adjusted.push('/');
            }
            adjusted.append(segments[dirs].as_str());
            count += 1;
        }
    }
    adjusted
}

/// Fitting gives exactly `depth` segments and keeps the file name last; no
/// separator enters a segment.
pub proof fn lemma_fit_to_depth(segments: Seq<Seq<char>>, depth: nat)
    requires
        segments.len() >= 1,
        depth >= 1,
    ensures
        fit_to_depth(segments, depth).len() == depth,
        fit_to_depth(segments, depth).last() == segments.last(),
        free_of(segments, '/') ==> free_of(fit_to_depth(segments, depth), '/'),
        segments.len() == depth ==> fit_to_depth(segments, depth) == segments,
{
    let fitted = fit_to_depth(segments, depth);
    let dirs = segments.drop_last();
    if free_of(segments, '/') {
        assert forall|i: int| 0 <= i < fitted.len() implies
            !(#[trigger] fitted[i]).contains('/') by {
            if i < dirs.len() && i < depth - 1 {
                assert(fitted[i] == segments[i]);
            } else {
                assert(fitted[i] == segments[segments.len() - 1]);
            }
        }
    }
    if segments.len() == depth {
        assert(fitted =~= segments);
    }
}

/// A normalized path has exactly `depth` segments, and its last segment is
/// the file name of the path it was made from.
pub proof fn lemma_normalize_depth(path: Seq<char>, depth: nat, ext: Seq<char>)
    requires
        depth >= 1,
        has_suffix(path, ext),
    ensures
        split(normalize(path, depth, ext), '/') == fit_to_depth(
            split(stem(path, ext), '/'),
            depth,
        ),
        split(normalize(path, depth, ext), '/').len() == depth,
        split(normalize(path, depth, ext), '/').last() == split(stem(path, ext), '/').last(),
{
    let segments = split(stem(path, ext), '/');
    lemma_split_pieces(stem(path, ext), '/');
    lemma_fit_to_depth(segments, depth);
    lemma_split_join(fit_to_depth(segments, depth), '/');
}

/// A path that already has `depth` segments is left as it is, but for its
/// extension.
pub proof fn lemma_normalize_fitting_path(path: Seq<char>, depth: nat, ext: Seq<char>)
    requires
        depth >= 1,
        has_suffix(path, ext),
        split(stem(path, ext), '/').len() == depth,
    ensures
        normalize(path, depth, ext) == stem(path, ext),
{
    lemma_fit_to_depth(split(stem(path, ext), '/'), depth);
    lemma_join_split(stem(path, ext), '/');
}

/// Normalizing twice at one depth gives what normalizing once gives: a
/// normalized path normalizes to itself, be it taken as it is, without an
/// extension, or with the extension put back.
pub proof fn lemma_normalize_idempotent(path: Seq<char>, depth: nat, ext: Seq<char>)
    requires
        depth >= 1,
        has_suffix(path, ext),
    ensures
        normalize(normalize(path, depth, ext), depth, Seq::empty()) == normalize(path, depth, ext),
        has_suffix(normalize(path, depth, ext) + ext, ext),
        normalize(normalize(path, depth, ext) + ext, depth, ext) == normalize(path, depth, ext),
{
    let once = normalize(path, depth, ext);
    lemma_normalize_depth(path, depth, ext);
    assert((once + ext).skip((once + ext).len() - ext.len()) =~= ext);
    assert(stem(once + ext, ext) =~= once);
    lemma_normalize_fitting_path(once + ext, depth, ext);
    assert(once.skip(once.len() - 0) =~= Seq::<char>::empty());
    assert(stem(once, Seq::empty()) =~= once);
    lemma_normalize_fitting_path(once, depth, Seq::empty());
}

} // verus!
