use soft_renderer::mesh::{
    face_from_string, parse_faces, parse_index, record_fields, vertex_indices,
};
use soft_renderer::strings::{chars_of, split};

#[test]
fn test_chars_of() {
    assert_eq!(chars_of("f 1"), vec!['f', ' ', '1']);
    assert_eq!(chars_of(""), Vec::<char>::new());
    assert_eq!(chars_of("é→"), vec!['é', '→']);
}

#[test]
fn test_split_on_spaces() {
    assert_eq!(split("f 1 2 3", ' '), vec!["f", "1", "2", "3"]);
    assert_eq!(split("abc", ' '), vec!["abc"]);
}

#[test]
fn test_split_keeps_empty_fields() {
    assert_eq!(split("", ' '), vec![""]);
    assert_eq!(split(" ", ' '), vec!["", ""]);
    assert_eq!(split("a  b", ' '), vec!["a", "", "b"]);
    assert_eq!(split(" a ", ' '), vec!["", "a", ""]);
}

#[test]
fn test_split_matches_the_standard_library() {
    for s in ["v 1.0 2.0 3.0", "  ", "x", "a b c d e ", "é →  ü", "\n \n"] {
        let expected: Vec<&str> = s.split(' ').collect();
        assert_eq!(split(s, ' '), expected);
        let expected: Vec<&str> = s.split('\n').collect();
        assert_eq!(split(s, '\n'), expected);
    }
}

#[test]
fn test_parse_index() {
    assert_eq!(parse_index("0"), Some(0));
    assert_eq!(parse_index("12"), Some(12));
    assert_eq!(parse_index("007"), Some(7));
    assert_eq!(parse_index("+7"), Some(7));
    assert_eq!(parse_index(&usize::MAX.to_string()), Some(usize::MAX));
}

#[test]
fn test_parse_index_rejects_what_is_no_index() {
    assert_eq!(parse_index(""), None);
    assert_eq!(parse_index("+"), None);
    assert_eq!(parse_index("-1"), None);
    assert_eq!(parse_index("++1"), None);
    assert_eq!(parse_index("1+"), None);
    assert_eq!(parse_index("1a"), None);
    assert_eq!(parse_index("1.0"), None);
    assert_eq!(parse_index(" 1"), None);
    assert_eq!(parse_index("3\r"), None);
    assert_eq!(parse_index("١"), None);
}

#[test]
fn test_parse_index_rejects_what_does_not_fit() {
    assert_eq!(parse_index("99999999999999999999999999"), None);
    let mut too_big = usize::MAX.to_string();
    too_big.push('0');
    assert_eq!(parse_index(&too_big), None);
    let digits = usize::MAX.to_string();
    let (head, last) = digits.split_at(digits.len() - 1);
    let next = format!("{}{}", head, last.parse::<u8>().unwrap() + 1);
    assert_eq!(parse_index(&next), None);
}

#[test]
fn test_parse_index_matches_the_standard_library() {
    for s in ["0", "42", "+42", "-42", "", "+", "4 2", "18446744073709551616", "0x10"] {
        assert_eq!(parse_index(s), s.parse::<usize>().ok());
    }
}

#[test]
fn test_record_fields() {
    assert_eq!(record_fields("v 1.5 -2 3e2", 'v'), Some(("1.5", "-2", "3e2")));
    assert_eq!(record_fields("f 1 2 3", 'f'), Some(("1", "2", "3")));
    assert_eq!(record_fields("f   ", 'f'), Some(("", "", "")));
}

#[test]
fn test_record_fields_rejects_other_lines() {
    assert_eq!(record_fields("f 1 2 3", 'v'), None);
    assert_eq!(record_fields("f 1 2", 'f'), None);
    assert_eq!(record_fields("f 1 2 3 4", 'f'), None);
    assert_eq!(record_fields("f 1  2 3", 'f'), None);
    assert_eq!(record_fields("ff 1 2 3", 'f'), None);
    assert_eq!(record_fields(" f 1 2 3", 'f'), None);
    assert_eq!(record_fields("", 'f'), None);
    assert_eq!(record_fields("# a b c", 'f'), None);
}

#[test]
fn test_face_from_string() {
    assert_eq!(face_from_string("f 1 2 3"), Some((1, 2, 3)));
    assert_eq!(face_from_string("f 10 +20 030"), Some((10, 20, 30)));
    assert_eq!(face_from_string("f 0 0 0"), Some((0, 0, 0)));
}

#[test]
fn test_face_from_string_skips_other_lines() {
    assert_eq!(face_from_string("v 1 2 3"), None);
    assert_eq!(face_from_string("f 1 2"), None);
    assert_eq!(face_from_string("f 1 2 3 4"), None);
    assert_eq!(face_from_string("f 1 2 x"), None);
    assert_eq!(face_from_string("f 1/1 2/2 3/3"), None);
    assert_eq!(face_from_string("f 1 2 3\r"), None);
    assert_eq!(face_from_string("f -1 2 3"), None);
    assert_eq!(face_from_string(""), None);
}

#[test]
fn test_parse_faces_of_a_cube() {
    let content = "# cube\nv -1 -1 -1\nv -1 -1 1\nv -1 1 -1\nv -1 1 1\nv 1 -1 -1\nv 1 -1 1\n\
v 1 1 -1\nv 1 1 1\n\nf 1 7 5\nf 1 3 7\nf 1 4 3\nf 1 2 4\nf 3 8 7\nf 3 4 8\nf 5 7 8\nf 5 8 6\n\
f 1 5 6\nf 1 6 2\nf 2 6 8\nf 2 8 4\n";
    let faces = parse_faces(content);
    assert_eq!(faces.len(), 12);
    assert_eq!(faces[0], (1, 7, 5));
    assert_eq!(faces[11], (2, 8, 4));
}

#[test]
fn test_parse_faces_skips_malformed_lines() {
    assert_eq!(parse_faces(""), vec![]);
    assert_eq!(parse_faces("f 1 2 3"), vec![(1, 2, 3)]);
    assert_eq!(
        parse_faces("f 1 2 3\nf 4 5\no thing\nf a b c\n\nf 7 8 9\nf  1 2 3"),
        vec![(1, 2, 3), (7, 8, 9)]
    );
}

#[test]
fn test_vertex_indices_are_one_based() {
    assert_eq!(vertex_indices((1, 2, 3), 3), Some((0, 1, 2)));
    assert_eq!(vertex_indices((8, 1, 8), 8), Some((7, 0, 7)));
}

#[test]
fn test_vertex_indices_out_of_range() {
    assert_eq!(vertex_indices((0, 1, 2), 3), None);
    assert_eq!(vertex_indices((1, 0, 2), 3), None);
    assert_eq!(vertex_indices((1, 2, 0), 3), None);
    assert_eq!(vertex_indices((1, 2, 4), 3), None);
    assert_eq!(vertex_indices((4, 2, 1), 3), None);
    assert_eq!(vertex_indices((1, 1, 1), 0), None);
}
