use aoc22::day7::{compute_sizes, create_dir_index, day7, join_dir};

const EXAMPLE: &str = "$ cd /\n$ ls\ndir a\n14848514 b.txt\n8504156 c.dat\ndir d\n$ cd a\n$ ls\ndir e\n29116 f\n2557 g\n62596 h.lst\n$ cd e\n$ ls\n584 i\n$ cd ..\n$ cd ..\n$ cd d\n$ ls\n4060174 j\n8033020 d.log\n5626152 d.ext\n7214296 k\n";

fn example_lines() -> Vec<Vec<u8>> {
    EXAMPLE.lines().map(|l| l.as_bytes().to_vec()).collect()
}

#[test]
fn example_answers() {
    assert_eq!(day7(EXAMPLE), Some((95437, 24933642)));
}

#[test]
fn join_dir_separates_with_slash() {
    assert_eq!(join_dir(b"/", b"a"), b"/a".to_vec());
    assert_eq!(join_dir(b"/a", b"e"), b"/a/e".to_vec());
    assert_eq!(join_dir(b"", b"x"), b"/x".to_vec());
}

#[test]
fn index_records_each_cd() {
    let idx = create_dir_index(&example_lines());
    let got: Vec<(Vec<u8>, usize)> =
        idx.iter().map(|d| (d.full_name.clone(), d.line)).collect();
    assert_eq!(
        got,
        vec![
            (b"/".to_vec(), 0),
            (b"/a".to_vec(), 6),
            (b"/a/e".to_vec(), 12),
            (b"/d".to_vec(), 17),
        ]
    );
}

#[test]
fn sizes_aggregate_children() {
    let lines = example_lines();
    let idx = create_dir_index(&lines);
    let table = compute_sizes(&lines, idx).unwrap();
    let find = |key: &[u8]| -> usize {
        table
            .iter()
            .find(|e| e.0 == key)
            .map(|e| e.1)
            .unwrap()
    };
    assert_eq!(find(b"/a/e"), 584);
    assert_eq!(find(b"/a"), 94853);
    assert_eq!(find(b"/d"), 24933642);
    assert_eq!(find(b"/"), 48381165);
}

#[test]
fn missing_listing_fails() {
    // the second `cd` is not followed by `$ ls`
    assert_eq!(day7("$ cd /\n$ ls\ndir a\n$ cd a\n"), None);
}

#[test]
fn unknown_child_directory_fails() {
    // `dir b` was never entered, so its size is unknown when `/` is summed
    let lines: Vec<Vec<u8>> =
        "$ cd /\n$ ls\ndir b\n".lines().map(|l| l.as_bytes().to_vec()).collect();
    let idx = create_dir_index(&lines);
    assert!(compute_sizes(&lines, idx).is_none());
}
