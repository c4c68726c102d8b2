use given::span::{Edit, Span};

#[test]
fn test_apply_edits() {
    let original = "Hello, world!";
    let edits = vec![
        Edit { span: Span::new(7, 12), text: "Rust".as_bytes().to_vec() },
        Edit { span: Span::new(0, 5), text: "Hi".as_bytes().to_vec() },
    ];
    let result = Edit::apply_edits(edits, original.as_bytes());
    assert_eq!(result, "Hi, Rust!".as_bytes().to_vec());
}

#[test]
fn test_apply_edits_overlap_first_wins() {
    let original = "Hello, world!";
    let edits = vec![
        Edit { span: Span::new(0, 5), text: "Hi".as_bytes().to_vec() },
        Edit { span: Span::new(3, 8), text: "XXX".as_bytes().to_vec() },
    ];
    let result = Edit::apply_edits(edits, original.as_bytes());
    // the later-starting overlapping edit is dropped entirely
    assert_eq!(result, "Hi, world!".as_bytes().to_vec());
}

#[test]
fn test_apply_edits_empty() {
    let original = "untouched";
    let result = Edit::apply_edits(Vec::new(), original.as_bytes());
    assert_eq!(result, "untouched".as_bytes().to_vec());
}
