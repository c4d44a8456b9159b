use server::editor::{EditorState, FileState};

#[test]
fn test_filestate() {
    let filestate = FileState::new("A\nB C\nD".to_string()).unwrap();
    let n0 = String::from(filestate.get(0).unwrap());
    let n1 = String::from(filestate.get(1).unwrap());
    let n2 = String::from(filestate.get(2).unwrap());
    let n3 = String::from(filestate.left_child(1).unwrap());
    assert_eq!(n0, String::from("A"));
    assert_eq!(n1, String::from("B"));
    assert_eq!(n2, String::from("C"));
    assert_eq!(n3, String::from("D"));
}

fn labels(fs: &FileState) -> Vec<String> {
    let mut out = Vec::new();
    let mut i: usize = 0;
    while let Some(label) = fs.get(i) {
        out.push(label.clone());
        i += 1;
    }
    out
}

#[test]
fn tree_navigation() {
    let fs = FileState::new("A\nB C\nD E F G\nH".to_string()).unwrap();
    assert_eq!(labels(&fs), vec!["A", "B", "C", "D", "E", "F", "G", "H"]);
    assert_eq!(fs.get_char_count(), 15);
    assert_eq!(fs.get(8), None);
    assert_eq!(fs.left_child(0).unwrap(), "B");
    assert_eq!(fs.right_child(0).unwrap(), "C");
    assert_eq!(fs.left_child(2).unwrap(), "F");
    assert_eq!(fs.right_child(2).unwrap(), "G");
    assert_eq!(fs.left_child(3).unwrap(), "H");
    assert_eq!(fs.right_child(3), None);
    assert_eq!(fs.left_child(4), None);
    assert_eq!(fs.parent(0), None);
    assert_eq!(fs.parent(1).unwrap(), "A");
    assert_eq!(fs.parent(2).unwrap(), "A");
    assert_eq!(fs.parent(7).unwrap(), "D");
    assert_eq!(fs.parent(16).unwrap(), "H");
    assert_eq!(fs.parent(17), None);
}

#[test]
fn navigation_never_overflows() {
    let fs = FileState::new("A".to_string()).unwrap();
    assert_eq!(fs.get(usize::MAX), None);
    assert_eq!(fs.left_child(usize::MAX), None);
    assert_eq!(fs.right_child(usize::MAX), None);
    assert_eq!(fs.left_child(usize::MAX / 2), None);
    assert_eq!(fs.right_child(usize::MAX / 2), None);
    assert_eq!(fs.parent(usize::MAX), None);
    assert_eq!(fs.parent(2).unwrap(), "A");
}

#[test]
fn wrong_width_is_rejected() {
    assert!(FileState::new("A\nB  C\nD".to_string()).is_none());
    assert!(FileState::new("A\nB  C".to_string()).is_none());
    assert!(FileState::new("A\nB\nD".to_string()).is_none());
    assert!(FileState::new("AB".to_string()).is_none());
    assert!(FileState::new("\nB C".to_string()).is_none());
    assert!(FileState::new("A\n\nB".to_string()).is_none());
}

#[test]
fn odd_offsets_hold_spaces() {
    assert!(FileState::new("A\nBxC".to_string()).is_none());
    assert!(FileState::new("A\nB C\nD E_F G".to_string()).is_none());
    assert!(FileState::new("A\nB\tC".to_string()).is_none());
    let fs = FileState::new("A\nB C\n  E".to_string()).unwrap();
    assert_eq!(labels(&fs), vec!["A", "B", "C", " ", "E"]);
}

#[test]
fn last_line_may_be_short() {
    let fs = FileState::new("A\nB".to_string()).unwrap();
    assert_eq!(labels(&fs), vec!["A", "B"]);
    let fs = FileState::new("A\nB ".to_string()).unwrap();
    assert_eq!(labels(&fs), vec!["A", "B"]);
    assert_eq!(fs.get_char_count(), 4);
    let fs = FileState::new(String::new()).unwrap();
    assert_eq!(labels(&fs), Vec::<String>::new());
    assert_eq!(fs.get_char_count(), 0);
}

#[test]
fn line_endings() {
    let fs = FileState::new("A\nB C\n".to_string()).unwrap();
    assert_eq!(labels(&fs), vec!["A", "B", "C"]);
    assert_eq!(fs.get_char_count(), 6);
    let fs = FileState::new("A\r\nB C\r\nD\r\n".to_string()).unwrap();
    assert_eq!(labels(&fs), vec!["A", "B", "C", "D"]);
    assert_eq!(fs.get_char_count(), 11);
    let fs = FileState::new("\n".to_string()).unwrap();
    assert_eq!(labels(&fs), Vec::<String>::new());
    let fs = FileState::new("A\n\n".to_string()).unwrap();
    assert_eq!(labels(&fs), vec!["A"]);
    assert!(FileState::new("A\n\n\n".to_string()).is_none());
    assert!(FileState::new("A\nB\r".to_string()).is_none());
}

#[test]
fn labels_are_characters() {
    let fs = FileState::new("\u{e9}\n\u{1F600} \u{4e2d}".to_string()).unwrap();
    assert_eq!(labels(&fs), vec!["\u{e9}", "\u{1F600}", "\u{4e2d}"]);
    assert_eq!(fs.get_char_count(), 5);
}

#[test]
fn editor_keeps_documents_by_name() {
    let mut editor = EditorState::new();
    assert!(editor.get_file_state("a".to_string()).is_none());
    assert!(editor.modify_file("a".to_string(), "A\nB C".to_string()));
    assert!(editor.modify_file("b".to_string(), "X".to_string()));
    assert_eq!(labels(editor.get_file_state("a".to_string()).unwrap()), vec!["A", "B", "C"]);
    assert_eq!(labels(editor.get_file_state("b".to_string()).unwrap()), vec!["X"]);
    assert!(editor.get_file_state("c".to_string()).is_none());
    assert!(editor.modify_file("a".to_string(), "Z".to_string()));
    assert_eq!(labels(editor.get_file_state("a".to_string()).unwrap()), vec!["Z"]);
    assert_eq!(editor.get_file_state("a".to_string()).unwrap().get_char_count(), 1);
}

#[test]
fn rejection_preserves_prior_state() {
    let mut editor = EditorState::new();
    assert!(!editor.modify_file("uri".to_string(), "A\nB  C".to_string()));
    assert!(editor.get_file_state("uri".to_string()).is_none());
    assert!(editor.modify_file("uri".to_string(), "A\nB C\nD".to_string()));
    assert!(!editor.modify_file("uri".to_string(), "A\nB  C\nD".to_string()));
    let fs = editor.get_file_state("uri".to_string()).unwrap();
    assert_eq!(labels(fs), vec!["A", "B", "C", "D"]);
    assert_eq!(fs.get_char_count(), 7);
}
