use press::depth::Depth;
use press::index::{create_tree, ContentIndex};
use press::reader::{get_content, is_hidden, ContentError};

fn strings(items: &[&str]) -> Vec<String> {
    items.iter().map(|item| item.to_string()).collect()
}

fn names(children: &Vec<ContentIndex>) -> Vec<String> {
    children.iter().map(|child| child.name().to_string()).collect()
}

fn assert_well_formed(node: &ContentIndex) {
    let children = node.children();
    let mut context = node.context().clone();
    context.push(node.name().to_string());
    for (i, child) in children.iter().enumerate() {
        for other in &children[i + 1..] {
            assert_ne!(child.name(), other.name());
        }
        assert_eq!(child.depth(), node.depth().next_level());
        assert_ne!(child.depth(), node.depth());
        assert_eq!(child.context(), &context);
        assert_well_formed(child);
    }
}

#[test]
fn ranks_step_down_to_beat() {
    assert_eq!(Depth::Root.next_level(), Depth::Part);
    assert_eq!(Depth::Part.next_level(), Depth::Chapter);
    assert_eq!(Depth::Chapter.next_level(), Depth::Scene);
    assert_eq!(Depth::Scene.next_level(), Depth::Beat);
    assert_eq!(Depth::Beat.next_level(), Depth::Beat);
}

#[test]
fn depth_is_named_by_the_rank_of_the_top_directories() {
    assert_eq!(Depth::from_string("part"), Depth::Root);
    assert_eq!(Depth::from_string("chapter"), Depth::Part);
    assert_eq!(Depth::from_string("scene"), Depth::Chapter);
    assert_eq!(Depth::from_string("beat"), Depth::Scene);
    assert_eq!(Depth::from_string("Part"), Depth::Beat);
    assert_eq!(Depth::from_string(""), Depth::Beat);
}

#[test]
fn ranks_count_the_levels_below_them() {
    assert_eq!(Depth::Root.to_usize(), 4);
    assert_eq!(Depth::Part.to_usize(), 3);
    assert_eq!(Depth::Chapter.to_usize(), 2);
    assert_eq!(Depth::Scene.to_usize(), 1);
    assert_eq!(Depth::Beat.to_usize(), 0);
}

#[test]
fn beat_is_read_from_below_the_content_directory() {
    let tree = create_tree(strings(&["One/Intro/beat1"]), Depth::Part);
    assert_eq!(
        tree.write_latex(),
        "\\chapter{One}\n\\input{content/One/Intro/beat1}\n"
    );
    let beat = &tree.children()[0].children()[0].children()[0];
    assert_eq!(beat.depth(), Depth::Beat);
    assert_eq!(beat.name(), "beat1");
    assert_eq!(beat.context(), &strings(&["#ROOT#", "One", "Intro"]));
}

#[test]
fn root_is_named_and_has_nothing_above_it() {
    let tree = create_tree(Vec::new(), Depth::Root);
    assert_eq!(tree.name(), "#ROOT#");
    assert_eq!(tree.depth(), Depth::Root);
    assert!(tree.context().is_empty());
    assert!(tree.children().is_empty());
}

#[test]
fn empty_tree_gives_no_markup() {
    for depth in [Depth::Root, Depth::Part, Depth::Chapter, Depth::Scene] {
        assert_eq!(create_tree(Vec::new(), depth).write_latex(), "");
    }
}

#[test]
fn children_are_unique_and_one_rank_finer() {
    let paths = strings(&[
        "north/c1/s1/b1",
        "north/c1/s1/b2",
        "south/c1/s1/b1",
        "north/c2/s1/b1",
        "north/c1/s2/b1",
        "north/c1/s1/b1",
    ]);
    let tree = create_tree(paths, Depth::Root);
    assert_well_formed(&tree);
    assert_eq!(names(tree.children()), strings(&["north", "south"]));
    assert_eq!(names(tree.children()[0].children()), strings(&["c1", "c2"]));
    assert_eq!(
        names(tree.children()[0].children()[0].children()),
        strings(&["s1", "s2"])
    );
    assert_eq!(
        names(tree.children()[0].children()[0].children()[0].children()),
        strings(&["b1", "b2"])
    );
}

#[test]
fn siblings_stand_in_the_order_of_first_appearance() {
    let tree = create_tree(
        strings(&["zeta/one", "alpha/one", "zeta/two", "mid/one", "alpha/two"]),
        Depth::Chapter,
    );
    assert_eq!(names(tree.children()), strings(&["zeta", "alpha", "mid"]));
    assert_eq!(names(tree.children()[0].children()), strings(&["one", "two"]));
    assert_eq!(
        tree.write_latex(),
        "\\input{content/zeta/one}\n\\input{content/zeta/two}\n***\n\\input{content/alpha/one}\n\\input{content/alpha/two}\n***\n\\input{content/mid/one}\n"
    );
}

#[test]
fn scene_breaks_stand_between_scenes_only() {
    let tree = create_tree(
        strings(&["ch/s1/b", "ch/s2/b", "ch/s3/b", "solo/s1/b"]),
        Depth::Part,
    );
    assert_eq!(
        tree.write_latex(),
        "\\chapter{ch}\n\\input{content/ch/s1/b}\n***\n\\input{content/ch/s2/b}\n***\n\\input{content/ch/s3/b}\n\\chapter{solo}\n\\input{content/solo/s1/b}\n"
    );
}

#[test]
fn parts_and_chapters_have_headings() {
    let tree = create_tree(strings(&["I/1/a/x", "I/2/a/x", "II/1/a/x"]), Depth::Root);
    assert_eq!(
        tree.write_latex(),
        "\\part{I}\n\\chapter{1}\n\\input{content/I/1/a/x}\n\\chapter{2}\n\\input{content/I/2/a/x}\n\\part{II}\n\\chapter{1}\n\\input{content/II/1/a/x}\n"
    );
}

#[test]
fn directory_with_the_name_of_the_root_has_no_heading() {
    let tree = create_tree(strings(&["#ROOT#/1/a/x"]), Depth::Root);
    assert_eq!(tree.write_latex(), "\\chapter{1}\n\\input{content/#ROOT#/1/a/x}\n");
}

#[test]
fn beat_directly_below_the_root_has_a_bare_path() {
    let tree = create_tree(strings(&["one", "two"]), Depth::Scene);
    assert_eq!(tree.write_latex(), "\\input{content/one}\n\\input{content/two}\n");
}

#[test]
fn what_stands_below_a_beat_is_not_written() {
    let tree = create_tree(strings(&["a/b/c"]), Depth::Scene);
    assert_eq!(tree.write_latex(), "\\input{content/a}\n");
    assert_eq!(tree.children()[0].children()[0].depth(), Depth::Beat);
}

#[test]
fn files_are_normalized_and_indexed() {
    let files = strings(&["One/a.txt", "One/deep/b.txt", "c.txt"]);
    let (tree, content) = get_content(&files, "txt", "scene").unwrap();
    assert_eq!(content.len(), 3);
    assert_eq!(content[0].origin, "One/a.txt");
    assert_eq!(content[0].destination, "One/a");
    assert_eq!(content[1].origin, "One/deep/b.txt");
    assert_eq!(content[1].destination, "One/b");
    assert_eq!(content[2].origin, "c.txt");
    assert_eq!(content[2].destination, "c/c");
    assert_well_formed(&tree);
    assert_eq!(tree.depth(), Depth::Chapter);
    assert_eq!(
        tree.write_latex(),
        "\\input{content/One/a}\n\\input{content/One/b}\n***\n\\input{content/c/c}\n"
    );
}

#[test]
fn every_leaf_of_the_content_is_a_beat() {
    fn check(node: &ContentIndex) {
        assert_eq!(node.depth() == Depth::Beat, node.children().is_empty());
        for child in node.children() {
            check(child);
        }
    }
    let files = strings(&["a.md", "x/y/z/w/v/b.md", "x/c.md", "x/y/d.md"]);
    for token in ["part", "chapter", "scene", "beat"] {
        let (tree, _) = get_content(&files, "md", token).unwrap();
        check(&tree);
        assert_well_formed(&tree);
    }
}

#[test]
fn no_files_give_an_empty_tree() {
    let (tree, content) = get_content(&Vec::new(), "txt", "part").unwrap();
    assert!(content.is_empty());
    assert!(tree.children().is_empty());
    assert_eq!(tree.write_latex(), "");
}

#[test]
fn unknown_depth_is_refused() {
    let files = strings(&["a.txt"]);
    assert!(matches!(
        get_content(&files, "txt", "volume"),
        Err(ContentError::UnknownDepth)
    ));
    assert!(matches!(
        get_content(&Vec::new(), "txt", ""),
        Err(ContentError::UnknownDepth)
    ));
}

#[test]
fn file_without_the_extension_is_refused() {
    let files = strings(&["a.txt", "b.md", "c"]);
    assert!(matches!(
        get_content(&files, "txt", "part"),
        Err(ContentError::MissingExtension(1))
    ));
    assert!(matches!(
        get_content(&strings(&["atxt"]), "txt", "part"),
        Err(ContentError::MissingExtension(0))
    ));
}

#[test]
fn hidden_entries_start_with_a_dot() {
    assert!(is_hidden(".git"));
    assert!(is_hidden("."));
    assert!(!is_hidden("a.b"));
    assert!(!is_hidden(""));
}
