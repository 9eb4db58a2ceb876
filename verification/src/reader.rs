//! Turns the list of content files into the content tree and the list of
//! where each file goes.

use crate::depth::{depth_of_token, Depth};
use crate::index::{create_tree, ContentIndex};
use crate::node::well_formed;
use crate::normalize::{adjust_path_depth, lemma_normalize_depth, normalize};
use crate::shape::{ends_in_beats, tree_of};
use crate::text::{chars_of, ends_with, has_suffix, split};
use vstd::prelude::*;

verus! {

/// A content file: where it was found, and where it goes once its path has
/// been brought to the depth of the tree. Both are relative to the content
/// directory; the destination has no extension.
#[derive(Debug)]
pub struct ContentFile {
    pub origin: String,
    pub destination: String,
}

/// Why a list of files gives no content tree.
#[derive(Clone, Copy, Debug, PartialEq, Eq, Structural)]
pub enum ContentError {
    /// The depth is none of `part`, `chapter`, `scene` and `beat`.
    UnknownDepth,
    /// The file at this place in the list does not end with the extension.
    MissingExtension(usize),
}

/// The extension as it ends a file name: with a dot before it.
pub open spec fn dotted(extension: Seq<char>) -> Seq<char> {
    seq!['.'] + extension
}

/// Where the files go: each path normalized to `depth` segments.
pub open spec fn destinations(
    files: Seq<Seq<char>>,
    depth: nat,
    ext: Seq<char>,
) -> Seq<Seq<char>> {
    Seq::new(files.len(), |i: int| normalize(files[i], depth, ext))
}

/// Whether a directory entry of this name is hidden: its name starts with a
/// dot.
pub fn is_hidden(file_name: &str) -> (hidden: bool)
    ensures
        hidden == (file_name@.len() > 0 && file_name@[0] == '.'),
{
    !file_name.is_empty() && file_name.get_char(0) == '.'
}

/// Normalizes the path of each of `files` to the depth that `depth_string`
/// names and builds the content tree of the normalized paths. `files` are
/// the paths of the content files relative to the content directory, each
/// ending with a dot and `extension`.
pub fn get_content(files: &Vec<String>, extension: &str, depth_string: &str) -> (result: Result<
    (ContentIndex, Vec<ContentFile>),
    ContentError,
>)
    ensures
        match result {
            Ok((tree, content)) => {
                let rank = depth_of_token(depth_string@);
                let ext = dotted(extension@);
                &&& rank != Depth::Beat
                &&& content.len() == files.len()
                &&& forall|i: int|
                    0 <= i < files.len() ==> {
                        &&& has_suffix(#[trigger] files[i]@, ext)
                        &&& content[i].origin@ == files[i]@
                        &&& content[i].destination@ == normalize(
                            files[i]@,
                            rank.levels_below(),
                            ext,
                        )
                    }
                &&& tree@ == tree_of(
                    destinations(files.deep_view(), rank.levels_below(), ext),
                    rank,
                )
                &&& well_formed(tree@)
                &&& ends_in_beats(tree@)
            },
            Err(ContentError::UnknownDepth) => depth_of_token(depth_string@) == Depth::Beat,
            Err(ContentError::MissingExtension(at)) => {
                &&& depth_of_token(depth_string@) != Depth::Beat
                &&& at < files.len()
                &&& !has_suffix(files[at as int]@, dotted(extension@))
                &&& forall|i: int| 0 <= i < at ==>
                    has_suffix(#[trigger] files[i]@, dotted(extension@))
            },
        },
{
    let depth = Depth::from_string(depth_string);
    if depth.to_usize() == 0 {
        return Err(ContentError::UnknownDepth);
    }
    let mut ext = ".".to_string();
    ext.append(extension);
    proof {
        reveal_strlit(".");
        assert(ext@ =~= dotted(extension@));
    }
    let ext_chars = chars_of(ext.as_str());
    let ghost wanted = destinations(files.deep_view(), depth.levels_below(), ext@);
    let mut content: Vec<ContentFile> = Vec::new();
    let mut paths: Vec<String> = Vec::new();
    let mut i: usize = 0;
    while i < files.len()
        invariant
            i <= files.len(),
            depth == depth_of_token(depth_string@),
            depth != Depth::Beat,
            ext@ == dotted(extension@),
            ext_chars@ == ext@,
            wanted == destinations(files.deep_view(), depth.levels_below(), ext@),
            content.len() == i,
            paths.len() == i,
            forall|k: int|
                0 <= k < i ==> {
                    &&& has_suffix(#[trigger] files[k]@, ext@)
                    &&& content[k].origin@ == files[k]@
                    &&& content[k].destination@ == wanted[k]
                    &&& paths[k]@ == wanted[k]
                },
        decreases files.len() - i,
    {
        let file = &files[i];
        let file_chars = chars_of(file.as_str());
        if !ends_with(&file_chars, &ext_chars) {
            return Err(ContentError::MissingExtension(i));
        }
        let corrected_path = adjust_path_depth(file.as_str(), depth.to_usize(), ext.as_str());
        paths.push(corrected_path.clone());
        content.push(ContentFile { origin: file.clone(), destination: corrected_path });
        i += 1;
    }
    proof {
        assert(paths.deep_view() =~= wanted);
        assert forall|k: int| 0 <= k < paths.len() implies
            split(#[trigger] paths[k]@, '/').len() == depth.levels_below() by {
            assert(has_suffix(files[k]@, ext@));
            lemma_normalize_depth(files[k]@, depth.levels_below(), ext@);
        }
    }
    let tree = create_tree(paths, depth);
    Ok((tree, content))
}

} // verus!
