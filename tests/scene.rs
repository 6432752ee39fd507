use raytracer::scene::{line_kind, parse_face, split_words, vertex_fields, FaceError, LineKind};

#[test]
fn words_split_on_any_white_space() {
    let ws = split_words(b"  f 1\t2   3 \r");
    assert_eq!(ws, vec![b"f".to_vec(), b"1".to_vec(), b"2".to_vec(), b"3".to_vec()]);
    assert!(split_words(b"").is_empty());
    assert!(split_words(b" \t ").is_empty());
    assert_eq!(split_words(b"abc"), vec![b"abc".to_vec()]);
}

#[test]
fn lines_are_classified_by_first_byte() {
    assert_eq!(line_kind(b"o Cube"), LineKind::Object);
    assert_eq!(line_kind(b"v 1.0 2.0 3.0"), LineKind::Vertex);
    assert_eq!(line_kind(b"f 1 2 3"), LineKind::Face);
    assert_eq!(line_kind(b"# comment"), LineKind::Other);
    assert_eq!(line_kind(b""), LineKind::Other);
}

#[test]
fn vertex_fields_are_the_three_words_after_the_tag() {
    let f = vertex_fields(b"v 1.5 -2 3e1 7").unwrap();
    assert_eq!(f, vec![b"1.5".to_vec(), b"-2".to_vec(), b"3e1".to_vec()]);
    assert_eq!(vertex_fields(b"v 1 2"), None);
}

#[test]
fn face_indices_become_zero_based() {
    assert_eq!(parse_face(b"f 1 2 3", 3), Ok((0, 1, 2)));
    assert_eq!(parse_face(b"f  3\t1 2 4", 4), Ok((2, 0, 1)));
}

#[test]
fn face_errors() {
    assert_eq!(parse_face(b"f 1 2", 3), Err(FaceError::MissingIndex));
    assert_eq!(parse_face(b"f 1/1 2 3", 3), Err(FaceError::NotANumber));
    assert_eq!(parse_face(b"f 1 2 -3", 3), Err(FaceError::NotANumber));
    assert_eq!(parse_face(b"f 0 1 2", 3), Err(FaceError::OutOfRange));
    assert_eq!(parse_face(b"f 1 2 4", 3), Err(FaceError::OutOfRange));
    assert_eq!(parse_face(b"f 1 99999999999999999999999999999 2", 3), Err(FaceError::OutOfRange));
    // the first bad word decides
    assert_eq!(parse_face(b"f 9 x 1", 3), Err(FaceError::OutOfRange));
}
