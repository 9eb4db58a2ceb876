use press::normalize::adjust_path_depth;

#[test]
fn deep_path_is_cut_to_its_first_directories() {
    assert_eq!(adjust_path_depth("a/b/c/leaf.txt", 2, ".txt"), "a/leaf");
    assert_eq!(adjust_path_depth("a/b/c/leaf.txt", 3, ".txt"), "a/b/leaf");
}

#[test]
fn shallow_path_is_filled_with_the_file_name() {
    assert_eq!(adjust_path_depth("leaf.txt", 3, ".txt"), "leaf/leaf/leaf");
    assert_eq!(adjust_path_depth("a/leaf.txt", 4, ".txt"), "a/leaf/leaf/leaf");
}

#[test]
fn path_of_the_right_depth_only_loses_its_extension() {
    assert_eq!(adjust_path_depth("a/b/c/leaf.txt", 4, ".txt"), "a/b/c/leaf");
    assert_eq!(adjust_path_depth("leaf.txt", 1, ".txt"), "leaf");
}

#[test]
fn depth_one_keeps_the_file_name_alone() {
    assert_eq!(adjust_path_depth("a/b/leaf.txt", 1, ".txt"), "leaf");
}

#[test]
fn normalized_path_has_as_many_segments_as_asked() {
    for depth in 1..6 {
        for path in ["leaf.md", "a/leaf.md", "a/b/c/d/e/f/leaf.md", "/leaf.md", "a//leaf.md"] {
            let adjusted = adjust_path_depth(path, depth, ".md");
            let segments: Vec<&str> = adjusted.split('/').collect();
            assert_eq!(segments.len(), depth);
            assert_eq!(segments[depth - 1], "leaf");
        }
    }
}

#[test]
fn normalizing_again_changes_nothing() {
    for depth in 1..6 {
        for path in ["leaf.md", "a/leaf.md", "a/b/c/d/e/f/leaf.md"] {
            let once = adjust_path_depth(path, depth, ".md");
            let again = adjust_path_depth(&format!("{}.md", once), depth, ".md");
            assert_eq!(again, once);
        }
    }
}

#[test]
fn empty_segments_are_segments() {
    assert_eq!(adjust_path_depth("a//c/leaf.txt", 3, ".txt"), "a//leaf");
    assert_eq!(adjust_path_depth("/leaf.txt", 3, ".txt"), "/leaf/leaf");
}

#[test]
fn extension_may_be_empty() {
    assert_eq!(adjust_path_depth("a/leaf", 3, ""), "a/leaf/leaf");
}
