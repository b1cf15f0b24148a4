use fs_analyzer::file_analyzer::Node;

#[test]
fn default_node_is_an_empty_file_record() {
    let n = Node::default();
    assert_eq!(n.name, "");
    assert_eq!(n.path, "");
    assert_eq!(n.size, 0);
    assert!(!n.is_dir);
    assert!(n.parent.is_none());
}

#[test]
fn from_entry_keeps_a_file_size() {
    let n = Node::from_entry(String::from("movie.mkv"), String::from("root/movie.mkv"), 4096, false);
    assert_eq!(n.name, "movie.mkv");
    assert_eq!(n.path, "root/movie.mkv");
    assert_eq!(n.size, 4096);
    assert!(!n.is_dir);
    assert!(n.parent.is_none());
}

#[test]
fn from_entry_zeroes_a_directory_size() {
    let n = Node::from_entry(String::from("photos"), String::from("root/photos"), 4096, true);
    assert_eq!(n.size, 0);
    assert!(n.is_dir);
}
