use rs_voxie::meshes::obj_text::{split_chars, split_line_words};
use rs_voxie::meshes::objmesh::{
    all_lines_complete, face_refs, line_is_complete, triangulate, ObjRecords,
};

fn words(line: &[&str]) -> Vec<Vec<char>> {
    line.iter().map(|w| w.chars().collect()).collect()
}

fn texts(v: &[Vec<char>]) -> Vec<String> {
    v.iter().map(|w| w.iter().collect()).collect()
}

fn triple(t: &(String, String, String)) -> (&str, &str, &str) {
    (t.0.as_str(), t.1.as_str(), t.2.as_str())
}

#[test]
fn obj_words_and_lines() {
    let lines = split_line_words("v 1 2  3\r\n\n\tf 1/2/3 4//5 \n# note");
    assert_eq!(lines.len(), 4);
    assert_eq!(texts(&lines[0]), vec!["v", "1", "2", "3"]);
    assert!(lines[1].is_empty());
    assert_eq!(texts(&lines[2]), vec!["f", "1/2/3", "4//5"]);
    assert_eq!(texts(&lines[3]), vec!["#", "note"]);
    let wide = split_line_words("a\u{3000}b\u{a0}c");
    assert_eq!(texts(&wide[0]), vec!["a", "b", "c"]);
    assert_eq!(split_line_words("").len(), 1);
    assert_eq!(split_line_words("x\n").len(), 2);
}

#[test]
fn obj_slash_pieces() {
    let w: Vec<char> = "4//5".chars().collect();
    assert_eq!(texts(&split_chars(&w, '/')), vec!["4", "", "5"]);
    let w: Vec<char> = "7".chars().collect();
    assert_eq!(texts(&split_chars(&w, '/')), vec!["7"]);
    let w: Vec<char> = "/".chars().collect();
    assert_eq!(texts(&split_chars(&w, '/')), vec!["", ""]);
}

#[test]
fn obj_reads_a_triangle() {
    let text = "# a triangle\nv 0 0 0\nv 1 0 0\nv 0 1 0\nvt 0 0\nvt 1 0\nvt 0 1\nvn 0 0 1\nf 1/1/1 2/2/1 3/3/1\n";
    let mut r = ObjRecords::new();
    r.parse(text);
    assert_eq!(r.positions.len(), 3);
    assert_eq!(triple(&r.positions[1]), ("1", "0", "0"));
    assert_eq!(r.tex_coords[2], ("0".to_string(), "1".to_string()));
    assert_eq!(triple(&r.normals[0]), ("0", "0", "1"));
    assert_eq!(r.faces, vec![vec![0, 1, 2]]);
    assert_eq!(r.tex_faces, vec![vec![0, 1, 2]]);
    assert_eq!(r.normal_faces, vec![vec![0, 0, 0]]);
}

#[test]
fn obj_negative_and_partial_references() {
    let text = "v 0 0 0\nv 1 0 0\nv 0 1 0\nv 1 1 0\nvn 0 0 1\nf -1 -2 -4\nf 1//1 2//1 3//1 4//1\n";
    let mut r = ObjRecords::new();
    r.parse(text);
    assert_eq!(r.faces, vec![vec![3, 2, 0], vec![0, 1, 2, 3]]);
    assert!(r.tex_faces.is_empty());
    assert_eq!(r.normal_faces, vec![vec![0, 0, 0, 0]]);
}

#[test]
fn obj_references_count_what_was_read_before() {
    let mut r = ObjRecords::continuing(10, 2, 0);
    r.parse("v 5 5 5\nf -1 1 11\nf 2/-1");
    assert_eq!(r.faces, vec![vec![10, 0, 10], vec![1]]);
    assert_eq!(r.tex_faces, vec![vec![1]]);
    assert_eq!(r.base_positions, 10);
}

#[test]
fn obj_ignores_other_lines() {
    let mut r = ObjRecords::new();
    r.parse("o cube\ns off\n   \n#v 1 2 3\nusemtl red\n");
    assert!(r.positions.is_empty());
    assert!(r.faces.is_empty());
}

#[test]
fn obj_unparsable_index() {
    let mut r = ObjRecords::new();
    r.parse("f x 0 1/y");
    assert_eq!(r.faces, vec![vec![usize::MAX, usize::MAX, 0]]);
    assert_eq!(r.tex_faces, vec![vec![usize::MAX]]);
    let (f, tf, nf) = face_refs(&words(&["f", "2/3/4"]), 5, 5, 5);
    assert_eq!((f, tf, nf), (vec![1], vec![2], vec![3]));
}

#[test]
fn obj_line_completeness() {
    assert!(line_is_complete(&words(&["v", "1", "2", "3"])));
    assert!(!line_is_complete(&words(&["v", "1", "2"])));
    assert!(!line_is_complete(&words(&["vn", "1", "2"])));
    assert!(line_is_complete(&words(&["vt", "1", "2"])));
    assert!(!line_is_complete(&words(&["vt", "1"])));
    assert!(line_is_complete(&words(&["f"])));
    assert!(line_is_complete(&words(&[])));
    assert!(!all_lines_complete(&split_line_words("v 1 2 3\nvt 0\n")));
    assert!(all_lines_complete(&split_line_words("v 1 2 3\nvt 0 1\n")));
}

#[test]
fn obj_empty_face() {
    let mut r = ObjRecords::new();
    r.parse("f\n");
    assert_eq!(r.faces, vec![Vec::<usize>::new()]);
    assert!(r.tex_faces.is_empty());
}

#[test]
fn obj_reading_in_parts() {
    let mut parts = ObjRecords::new();
    parts.parse("v 1 2 3\nv 4 5 6");
    parts.parse("f 1 -1\nvt 0 1\nf 1/1");
    let mut whole = ObjRecords::new();
    whole.parse("v 1 2 3\nv 4 5 6\nf 1 -1\nvt 0 1\nf 1/1");
    assert_eq!(parts.positions, whole.positions);
    assert_eq!(parts.tex_coords, whole.tex_coords);
    assert_eq!(parts.faces, whole.faces);
    assert_eq!(parts.faces, vec![vec![0, 1], vec![0]]);
    assert_eq!(parts.tex_faces, whole.tex_faces);
}

#[test]
fn obj_faces_cut_into_fans() {
    let faces = vec![vec![0, 1, 2, 3, 4], vec![7, 8], vec![5, 6, 7]];
    assert_eq!(
        triangulate(&faces),
        vec![(0, 0, 1, 2), (0, 0, 2, 3), (0, 0, 3, 4), (2, 0, 1, 2)]
    );
    assert!(triangulate(&Vec::new()).is_empty());
}
