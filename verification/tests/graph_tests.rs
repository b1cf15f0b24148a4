use fs_analyzer::file_analyzer::Node;
use fs_analyzer::graph::Graph;

fn dir_node(name: &str) -> Node {
    Node {
        name: String::from(name),
        path: String::new(),
        size: 0,
        is_dir: true,
        parent: None,
    }
}

fn file_node(name: &str, size: u64) -> Node {
    Node {
        name: String::from(name),
        path: String::new(),
        size,
        is_dir: false,
        parent: None,
    }
}

#[test]
fn new_graph_is_empty() {
    let g = Graph::new();
    assert_eq!(g.elements_len(), 0);
    assert_eq!(g.relations_len(), 0);
}

#[test]
fn push_returns_sequential_indices() {
    let mut g = Graph::new();
    let r = g.push(dir_node("root"), None);
    let a = g.push(file_node("a", 1), Some(r));
    let b = g.push(file_node("b", 2), Some(r));
    assert_eq!(r, 0);
    assert_eq!(a, 1);
    assert_eq!(b, 2);
    assert_eq!(g.elements_len(), 3);
}

#[test]
fn relations_count_distinct_parents_once() {
    let mut g = Graph::new();
    let r = g.push(dir_node("root"), None);
    let d = g.push(dir_node("sub"), Some(r));
    g.push(file_node("a", 1), Some(r));
    g.push(file_node("b", 2), Some(d));
    g.push(file_node("c", 3), Some(d));
    // two distinct parents have children: the root and `sub`
    assert_eq!(g.relations_len(), 2);
    assert_eq!(g.elements_len(), 5);
}

#[test]
fn get_parents_excludes_root() {
    let mut g = Graph::new();
    let r = g.push(dir_node("root"), None);
    let a = g.push(dir_node("a"), Some(r));
    let b = g.push(dir_node("b"), Some(a));
    let f = g.push(file_node("f", 7), Some(b));
    // nearest parent first, the root left out
    assert_eq!(g.get_parents(f), vec![b, a]);
    assert_eq!(g.get_parents(b), vec![a]);
    assert_eq!(g.get_parents(a), Vec::<usize>::new());
    assert_eq!(g.get_parents(r), Vec::<usize>::new());
}

#[test]
fn get_parents_of_unknown_index_is_empty() {
    let g = Graph::new();
    assert_eq!(g.get_parents(3), Vec::<usize>::new());
}

#[test]
fn scenario_single_file_under_root() {
    let mut g = Graph::new();
    let r = g.push(dir_node("root"), None);
    g.push(file_node("a.txt", 100), Some(r));
    let res = g.largest_file(5);
    assert_eq!(res, vec![(String::from(""), String::from("a.txt"), 100)]);
    assert_eq!(g.elements_len(), 2);
}

#[test]
fn scenario_nested_dir_wins() {
    let mut g = Graph::new();
    let r = g.push(dir_node("root"), None);
    let d1 = g.push(dir_node("dir1"), Some(r));
    g.push(file_node("big.bin", 1000), Some(d1));
    g.push(file_node("small.txt", 10), Some(r));
    let res = g.largest_file(1);
    assert_eq!(res, vec![(String::from("dir1/"), String::from("big.bin"), 1000)]);
}

#[test]
fn scenario_unreadable_subtree_skipped() {
    // A walk that could not list one subdirectory records the directory
    // itself but none of its children; everything else is reported.
    let mut g = Graph::new();
    let r = g.push(dir_node("root"), None);
    let good = g.push(dir_node("good"), Some(r));
    g.push(file_node("kept.bin", 50), Some(good));
    g.push(dir_node("locked"), Some(r));
    g.push(file_node("top.txt", 20), Some(r));
    let res = g.largest_file(10);
    assert_eq!(
        res,
        vec![
            (String::from("good/"), String::from("kept.bin"), 50),
            (String::from(""), String::from("top.txt"), 20),
        ]
    );
    assert_eq!(g.elements_len(), 5);
}

#[test]
fn scenario_empty_root() {
    let mut g = Graph::new();
    g.push(dir_node("root"), None);
    assert_eq!(g.largest_file(0), Vec::new());
    assert_eq!(g.largest_file(4), Vec::new());
    assert_eq!(g.elements_len(), 1);
    assert_eq!(g.relations_len(), 0);
}

#[test]
fn zero_request_yields_empty_report() {
    let mut g = Graph::new();
    let r = g.push(dir_node("root"), None);
    g.push(file_node("a", 5), Some(r));
    g.push(file_node("b", 6), Some(r));
    assert_eq!(g.largest_file(0), Vec::new());
}

#[test]
fn large_request_returns_every_file_once() {
    let mut g = Graph::new();
    let r = g.push(dir_node("root"), None);
    let d = g.push(dir_node("d"), Some(r));
    g.push(file_node("a", 5), Some(r));
    g.push(file_node("b", 50), Some(d));
    g.push(file_node("c", 5), Some(r));
    let res = g.largest_file(99);
    assert_eq!(res.len(), 3);
    let mut names: Vec<String> = res.iter().map(|row| row.1.clone()).collect();
    names.sort();
    assert_eq!(names, vec!["a".to_string(), "b".to_string(), "c".to_string()]);
}

#[test]
fn report_is_sorted_descending_and_clamped() {
    let mut g = Graph::new();
    let r = g.push(dir_node("root"), None);
    g.push(file_node("a", 30), Some(r));
    g.push(file_node("b", 500), Some(r));
    g.push(file_node("c", 1), Some(r));
    g.push(file_node("d", 200), Some(r));
    g.push(file_node("e", 77), Some(r));
    let res = g.largest_file(3);
    assert_eq!(res.len(), 3);
    for w in res.windows(2) {
        assert!(w[0].2 >= w[1].2);
    }
    let sizes: Vec<u64> = res.iter().map(|row| row.2).collect();
    assert_eq!(sizes, vec![500, 200, 77]);
}

#[test]
fn ties_keep_scan_order() {
    let mut g = Graph::new();
    let r = g.push(dir_node("root"), None);
    g.push(file_node("first", 10), Some(r));
    g.push(file_node("second", 10), Some(r));
    g.push(file_node("third", 10), Some(r));
    // equal sizes: the earlier-scanned file ranks higher, and it is the
    // one kept when the bound bites
    let all = g.largest_file(5);
    let names: Vec<String> = all.iter().map(|row| row.1.clone()).collect();
    assert_eq!(
        names,
        vec!["first".to_string(), "second".to_string(), "third".to_string()]
    );
    let one = g.largest_file(1);
    assert_eq!(one[0].1, "first");
}

#[test]
fn repeated_runs_agree() {
    let mut first: Option<Vec<(String, String, u64)>> = None;
    for _ in 0..2 {
        let mut g = Graph::new();
        let r = g.push(dir_node("root"), None);
        let d = g.push(dir_node("pics"), Some(r));
        g.push(file_node("x.raw", 800), Some(d));
        g.push(file_node("y.jpg", 800), Some(d));
        g.push(file_node("z.txt", 3), Some(r));
        let res = g.largest_file(2);
        match &first {
            None => first = Some(res),
            Some(prev) => assert_eq!(*prev, res),
        }
    }
}

#[test]
fn deep_path_reconstruction() {
    let mut g = Graph::new();
    let r = g.push(dir_node("root"), None);
    let a = g.push(dir_node("a"), Some(r));
    let b = g.push(dir_node("b"), Some(a));
    g.push(file_node("f.dat", 9), Some(b));
    let res = g.largest_file(1);
    assert_eq!(res, vec![(String::from("a/b/"), String::from("f.dat"), 9)]);
    assert_eq!(g.dir_path(3), "a/b/");
}

#[test]
fn zero_byte_file_is_reported() {
    let mut g = Graph::new();
    let r = g.push(dir_node("root"), None);
    g.push(file_node("empty.log", 0), Some(r));
    let res = g.largest_file(2);
    assert_eq!(res, vec![(String::from(""), String::from("empty.log"), 0)]);
}

#[test]
fn directories_are_never_reported() {
    let mut g = Graph::new();
    let r = g.push(dir_node("root"), None);
    let d = g.push(dir_node("huge_dir"), Some(r));
    g.push(file_node("tiny", 1), Some(d));
    let res = g.largest_file(10);
    assert_eq!(res.len(), 1);
    assert_eq!(res[0].1, "tiny");
}
