use snake_move::ground::{load_obj, Face, GroundMesh, ObjError, ObjGroundLoader};
use snake_move::vector::Vector3;

fn vertices(text: &str) -> Vec<Vector3> {
    load_obj(text).expect("a mesh").vertices
}

fn faces(text: &str) -> Vec<Face> {
    load_obj(text).expect("a mesh").faces
}

fn error(text: &str) -> ObjError {
    match load_obj(text) {
        Ok(_) => panic!("{:?} is a mesh", text),
        Err(e) => e,
    }
}

fn one(text: &str) -> i64 {
    let line = format!("v {} 0 0", text);
    vertices(&line)[0].x
}

fn none(text: &str) -> bool {
    let line = format!("v {} 0 0", text);
    load_obj(&line).err() == Some(ObjError::BadNumber)
}

#[test]
fn a_mesh_is_read_line_by_line() {
    let text = "# a square\nv 0 0 0\nv 1 0 0\nv 1 0 1\nv 0 0 1\nf 1 2 3\nf 1 3 4\n";
    let mesh = ObjGroundLoader.load(text.as_bytes()).expect("a mesh");
    assert_eq!(
        mesh.vertices,
        vec![
            Vector3::new(0, 0, 0),
            Vector3::new(1_000_000, 0, 0),
            Vector3::new(1_000_000, 0, 1_000_000),
            Vector3::new(0, 0, 1_000_000),
        ]
    );
    assert_eq!(mesh.faces, vec![Face { a: 0, b: 1, c: 2 }, Face { a: 0, b: 2, c: 3 }]);
}

#[test]
fn bytes_that_are_no_text_are_no_mesh() {
    let loader = ObjGroundLoader;
    assert_eq!(loader.load(b"v 1 2 3\n# \xff\n").err(), Some(ObjError::NotText));
    assert_eq!(loader.load(b"\xc3").err(), Some(ObjError::NotText));
    assert_eq!(loader.load(b"\xed\xa0\x80").err(), Some(ObjError::NotText));
    // Text in any script is text.
    let mesh = loader.load("# h\u{f6}he\nv 1 2 3\n".as_bytes()).expect("a mesh");
    assert_eq!(mesh.vertices, vec![Vector3::new(1_000_000, 2_000_000, 3_000_000)]);
    assert!(loader.load(b"").expect("a mesh").vertices.is_empty());
    // What is wrong with a text is told apart from what is no text.
    assert_eq!(loader.load(b"v 1 2").err(), Some(ObjError::MissingNumber));
}

#[test]
fn numbers_are_decimal() {
    assert_eq!(vertices("v -1.5 +0.25 .5"), vec![Vector3::new(-1_500_000, 250_000, 500_000)]);
    assert_eq!(vertices("v 1. 007 -0"), vec![Vector3::new(1_000_000, 7_000_000, 0)]);
    // Digits after the sixth count for nothing.
    assert_eq!(vertices("v 0.1234567 0.0000009 -0.9999999"), vec![Vector3::new(123_456, 0, -999_999)]);
    // The edge of the world is the largest number.
    assert_eq!(
        vertices("v 1000000 -1000000 1000000.0000009"),
        vec![Vector3::new(1_000_000_000_000, -1_000_000_000_000, 1_000_000_000_000)]
    );
    assert_eq!(error("v 1000000.000001 0 0"), ObjError::BadNumber);
    assert_eq!(error("v 0 -1000001 0"), ObjError::BadNumber);
    assert_eq!(error("v 0 0 99999999999999999999999999999999"), ObjError::BadNumber);
    assert_eq!(error("v . 0 0"), ObjError::BadNumber);
    assert_eq!(error("v - 0 0"), ObjError::BadNumber);
    assert_eq!(error("v 1.2.3 0 0"), ObjError::BadNumber);
    assert_eq!(error("v 0 0x10 0"), ObjError::BadNumber);
    assert_eq!(error("v --1 0 0"), ObjError::BadNumber);
}

#[test]
fn numbers_may_have_an_exponent() {
    assert_eq!(vertices("v 1e3 0 0"), vec![Vector3::new(1_000_000_000, 0, 0)]);
    assert_eq!(one("1E3"), 1_000_000_000);
    assert_eq!(one("1e+3"), 1_000_000_000);
    assert_eq!(one("-2.5e2"), -250_000_000);
    assert_eq!(one("12345e-2"), 123_450_000);
    assert_eq!(one("0.5E1"), 5_000_000);
    assert_eq!(one(".5e1"), 5_000_000);
    assert_eq!(one("5.e-1"), 500_000);
    assert_eq!(one("1e0"), 1_000_000);
    assert_eq!(one("1e-6"), 1);
    assert_eq!(one("1e6"), 1_000_000_000_000);
    assert_eq!(one("0.000001e12"), 1_000_000_000_000);
    assert_eq!(one("1000000000000e-6"), 1_000_000_000_000);
    // What is left of a millionth is dropped.
    assert_eq!(one("1e-7"), 0);
    assert_eq!(one("-19e-7"), -1);
    assert_eq!(one("123456789e-20"), 0);
    assert_eq!(one("1e-99999999999999999999999999999999999999999999"), 0);
    assert_eq!(one("0.1234567e1"), 1_234_567);
    assert_eq!(one("0.1234567e-1"), 12_345);
    // Nought is nought whatever its exponent.
    assert_eq!(one("0e99"), 0);
    assert_eq!(one("0.000e99999999999999999999999999999999999999999999"), 0);
    assert_eq!(one("-0e-5"), 0);
    // A number beyond the edge of the world is none.
    assert!(none("1e7"));
    assert!(none("1.000001e6"));
    assert!(none("0.1e8"));
    assert!(none("0.0000000000001e20"));
    assert!(none("1e99999999999999999999999999999999999999999999"));
    // An exponent is an `e`, a sign or none, and digits.
    assert!(none("1e"));
    assert!(none("1e+"));
    assert!(none("1e-"));
    assert!(none("e3"));
    assert!(none(".e3"));
    assert!(none("1e3.5"));
    assert!(none("1e3e3"));
    assert!(none("1e 3"));
    assert!(none("1f3"));
    // No number is written in letters.
    assert!(none("inf"));
    assert!(none("-inf"));
    assert!(none("infinity"));
    assert!(none("nan"));
    assert!(none("NaN"));
}

#[test]
fn words_are_split_at_single_spaces() {
    assert_eq!(error("v 1  2 3"), ObjError::BadNumber);
    assert_eq!(error("v 1 2 "), ObjError::BadNumber);
    assert_eq!(error("v 1 2"), ObjError::MissingNumber);
    assert_eq!(error("v"), ObjError::MissingNumber);
    assert_eq!(error("v "), ObjError::BadNumber);
    // The first word that is wrong decides.
    assert_eq!(error("v x"), ObjError::BadNumber);
    assert_eq!(error("v 1 x"), ObjError::BadNumber);
    // Words after the third are passed over.
    assert_eq!(vertices("v 1 2 3 4 five"), vec![Vector3::new(1_000_000, 2_000_000, 3_000_000)]);
    assert_eq!(vertices("v\t1 2 3"), vec![]);
}

#[test]
fn triangles_name_their_vertices_from_one() {
    assert_eq!(faces("f 1/2/3 4//5 6/7"), vec![Face { a: 0, b: 3, c: 5 }]);
    assert_eq!(faces("f 1/ 1/ 1/"), vec![Face { a: 0, b: 0, c: 0 }]);
    assert_eq!(faces("f +1 2 3 4"), vec![Face { a: 0, b: 1, c: 2 }]);
    assert_eq!(faces("f 4294967295 1 1"), vec![Face { a: 4_294_967_294, b: 0, c: 0 }]);
    assert_eq!(error("f 4294967296 1 1"), ObjError::BadIndex);
    assert_eq!(error("f 0 1 2"), ObjError::BadIndex);
    assert_eq!(error("f 1 -2 3"), ObjError::BadIndex);
    assert_eq!(error("f 1 /2 3"), ObjError::BadIndex);
    assert_eq!(error("f 1 2 a"), ObjError::BadIndex);
    assert_eq!(error("f 1 + 3"), ObjError::BadIndex);
    assert_eq!(error("f 1.5 2 3"), ObjError::BadIndex);
    assert_eq!(error("f 1e1 2 3"), ObjError::BadIndex);
    assert_eq!(error("f 1 2"), ObjError::MissingIndex);
    assert_eq!(error("f"), ObjError::MissingIndex);
}

#[test]
fn other_lines_are_passed_over() {
    let text = "\n# v 1 2 x\nvn 0 1 0\nvt 0.5 0.5\no ground\nvertex 1 2 3\n V 1 2 3\nfoo\n\n";
    let mesh = load_obj(text).expect("a mesh");
    assert!(mesh.vertices.is_empty());
    assert!(mesh.faces.is_empty());
    assert!(load_obj("").expect("a mesh").vertices.is_empty());
}

#[test]
fn lines_end_with_or_without_a_carriage_return() {
    let text = "v 1 2 3\r\nv 4 5 6\nv 7 8 9";
    assert_eq!(vertices(text).len(), 3);
    assert_eq!(vertices(text)[2], Vector3::new(7_000_000, 8_000_000, 9_000_000));
    // A carriage return that no line feed follows belongs to the word.
    assert_eq!(error("v 1 2 3\r"), ObjError::BadNumber);
    assert_eq!(error("v 1 2\r\nv 1 2 3"), ObjError::MissingNumber);
    // The first line that is wrong decides.
    assert_eq!(error("f 1 2\nv x"), ObjError::MissingIndex);
}

#[test]
fn a_text_is_a_mesh_or_none() {
    let mesh = GroundMesh::from_obj("v 1 2 3\nv 1e1 2 3\nf 1 2 +1").expect("a mesh");
    assert_eq!(mesh.vertices.len(), 2);
    assert_eq!(mesh.vertices[1].x, 10_000_000);
    assert_eq!(mesh.faces, vec![Face { a: 0, b: 1, c: 0 }]);
    assert!(GroundMesh::from_obj("v 1 2").is_none());
    assert!(GroundMesh::from_obj("v 1 2 nan").is_none());
    // Here a triangle names a vertex by a whole word.
    assert!(GroundMesh::from_obj("f 1/ 1/ 1/").is_none());
    assert!(GroundMesh::from_obj("f 1/2/3 4/5/6 7/8/9").is_none());
    assert!(GroundMesh::from_obj("f 1 2 3/").is_none());
    assert!(GroundMesh::from_obj("f 0 1 2").is_none());
    assert!(GroundMesh::from_obj("f 4294967296 1 2").is_none());
    assert!(GroundMesh::from_obj("f 1 2").is_none());
    assert!(GroundMesh::from_obj("").expect("a mesh").faces.is_empty());
}
