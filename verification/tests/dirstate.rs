use chk_index::dirstate::{bisect_path_left, bisect_path_right, lt_by_dirs, lt_path_by_dirblock, TreePath};

fn path(parts: &[&[u8]]) -> TreePath {
    TreePath::new(parts.iter().map(|p| p.to_vec()).collect())
}

#[test]
fn dirblock_groups_siblings_before_other_directories() {
    let first_child = path(&[b"dir", b"a.txt"]);
    let second_child = path(&[b"dir", b"b.txt"]);
    let other_dir_child = path(&[b"dir2", b"a.txt"]);

    assert!(lt_path_by_dirblock(&first_child, &second_child));
    assert!(!lt_path_by_dirblock(&second_child, &first_child));
    assert!(lt_path_by_dirblock(&first_child, &other_dir_child));
    assert!(lt_path_by_dirblock(&second_child, &other_dir_child));
    assert!(!lt_path_by_dirblock(&other_dir_child, &first_child));
    assert!(!lt_path_by_dirblock(&other_dir_child, &second_child));
}

#[test]
fn dirblock_order_differs_from_component_order() {
    let deep = path(&[b"a", b"z"]);
    let flat = path(&[b"a-b"]);

    assert!(lt_by_dirs(&deep, &flat));
    assert!(!lt_by_dirs(&flat, &deep));

    assert!(lt_path_by_dirblock(&flat, &deep));
    assert!(!lt_path_by_dirblock(&deep, &flat));
}

#[test]
fn component_order_puts_prefix_first() {
    let shorter = path(&[b"a"]);
    let longer = path(&[b"a", b"b"]);

    assert!(lt_by_dirs(&shorter, &longer));
    assert!(!lt_by_dirs(&longer, &shorter));
    assert!(!lt_by_dirs(&shorter, &shorter));
    assert!(!lt_by_dirs(&longer, &longer));
}

#[test]
fn equal_paths_are_not_less() {
    let p = path(&[b"dir", b"a.txt"]);
    assert!(!lt_path_by_dirblock(&p, &p));
    assert!(!lt_by_dirs(&p, &p));
}

#[test]
fn empty_path_sorts_first() {
    let empty = path(&[]);
    let named = path(&[b"a"]);
    assert!(lt_path_by_dirblock(&empty, &named));
    assert!(!lt_path_by_dirblock(&named, &empty));
    assert!(!lt_path_by_dirblock(&empty, &empty));
}

#[test]
fn bisect_finds_leftmost_and_rightmost_of_duplicates() {
    let paths = vec![path(&[b"a"]), path(&[b"b"]), path(&[b"b"]), path(&[b"c"])];

    assert_eq!(bisect_path_left(&paths, &path(&[b"b"])), 1);
    assert_eq!(bisect_path_right(&paths, &path(&[b"b"])), 3);

    assert_eq!(bisect_path_left(&paths, &path(&[b"aa"])), 1);
    assert_eq!(bisect_path_right(&paths, &path(&[b"aa"])), 1);

    assert_eq!(bisect_path_left(&paths, &path(&[b"a"])), 0);
    assert_eq!(bisect_path_right(&paths, &path(&[b"a"])), 1);

    assert_eq!(bisect_path_left(&paths, &path(&[b"d"])), 4);
    assert_eq!(bisect_path_right(&paths, &path(&[b"d"])), 4);
}

#[test]
fn bisect_on_empty_sequence_returns_zero() {
    let paths: Vec<TreePath> = vec![];
    assert_eq!(bisect_path_left(&paths, &path(&[b"anything"])), 0);
    assert_eq!(bisect_path_right(&paths, &path(&[b"anything"])), 0);
    assert_eq!(bisect_path_left(&paths, &path(&[])), 0);
    assert_eq!(bisect_path_right(&paths, &path(&[])), 0);
}

#[test]
fn bisect_respects_directory_grouping() {
    // Sorted by dirblock order: both top-level names come before any
    // child of `a`, because their parent (the root) sorts first.
    let paths = vec![
        path(&[b"a"]),
        path(&[b"b"]),
        path(&[b"a", b"x"]),
        path(&[b"b", b"y"]),
    ];

    assert_eq!(bisect_path_left(&paths, &path(&[b"a", b"q"])), 2);
    assert_eq!(bisect_path_right(&paths, &path(&[b"a", b"q"])), 2);

    assert_eq!(bisect_path_left(&paths, &path(&[b"a", b"x"])), 2);
    assert_eq!(bisect_path_right(&paths, &path(&[b"a", b"x"])), 3);

    assert_eq!(bisect_path_left(&paths, &path(&[b"b", b"y"])), 3);
    assert_eq!(bisect_path_right(&paths, &path(&[b"b", b"y"])), 4);
}
