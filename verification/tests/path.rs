use axfs_ext2::path::{byte_of_word, split, stack_up};

fn parts(path: &[u8]) -> Vec<String> {
    split(path).into_iter().map(|p| String::from_utf8(p).unwrap()).collect()
}

#[test]
fn components_are_the_runs_between_separators() {
    assert_eq!(parts(b"/usr/local/bin"), vec!["usr", "local", "bin"]);
    assert_eq!(parts(b"usr/local"), vec!["usr", "local"]);
    assert_eq!(parts(b"//a///b/"), vec!["a", "b"]);
    assert_eq!(parts(b"a"), vec!["a"]);
    assert_eq!(parts(b"./.."), vec![".", ".."]);
}

#[test]
fn the_root_has_no_components() {
    assert!(split(b"/").is_empty());
    assert!(split(b"").is_empty());
    assert!(split(b"///").is_empty());
}

#[test]
fn names_are_stacked_first_on_top() {
    let mut stack = vec![b"z".to_vec()];
    stack_up(&mut stack, vec![b"a".to_vec(), b"b".to_vec()]);
    assert_eq!(stack, vec![b"z".to_vec(), b"b".to_vec(), b"a".to_vec()]);
}

#[test]
fn bytes_of_a_word() {
    assert_eq!(byte_of_word(0x6463_6261, 0), b'a');
    assert_eq!(byte_of_word(0x6463_6261, 1), b'b');
    assert_eq!(byte_of_word(0x6463_6261, 2), b'c');
    assert_eq!(byte_of_word(0x6463_6261, 3), b'd');
}
