use dep2j::dependency::Dependency;
use dep2j::json::JsonSerializer;

#[test]
fn write_vec_001() {
    let vec: Vec<Dependency> = Vec::new();

    let mut serializer = JsonSerializer::new();
    serializer.write_vec(&vec);

    assert_eq!(b"[]", serializer.buf.as_slice());
}

#[test]
fn write_vec_002() {
    let dep = Dependency {
        target: Vec::from("a"),
        prerequisites: Vec::from([Vec::from("b")]),
    };

    let vec = Vec::from([dep]);

    let mut serializer = JsonSerializer::new();
    serializer.write_vec(&vec);

    assert_eq!(
        b"[{\"target\":\"a\",\"prerequisites\":[\"b\"]}]",
        serializer.buf.as_slice()
    );
}

#[test]
fn write_vec_003() {
    let dep = Dependency {
        target: Vec::from("a"),
        prerequisites: Vec::from([Vec::from("b"), Vec::from("c")]),
    };

    let vec = Vec::from([dep]);

    let mut serializer = JsonSerializer::new();
    serializer.write_vec(&vec);

    assert_eq!(
        b"[{\"target\":\"a\",\"prerequisites\":[\"b\",\"c\"]}]",
        serializer.buf.as_slice()
    );
}

#[test]
fn write_str_001() {
    let mut serializer = JsonSerializer::new();
    serializer.write_str(&Vec::from(""));

    assert_eq!(b"\"\"", serializer.buf.as_slice());
}

#[test]
fn write_str_002() {
    let mut serializer = JsonSerializer::new();
    serializer.write_str(&Vec::from("ez"));

    assert_eq!(b"\"ez\"", serializer.buf.as_slice());
}

#[test]
fn write_str_003() {
    let mut serializer = JsonSerializer::new();
    serializer.write_str(&Vec::from("\"e\\z\""));

    assert_eq!(b"\"\\\"e\\\\z\\\"\"", serializer.buf.as_slice());
}

/**
 * JsonSerializer::write_vec()
 *
 * Two entries are separated by a comma, and an empty prerequisite list
 * is an empty array.
 */
#[test]
fn write_vec_two_entries() {
    let vec = Vec::from([
        Dependency { target: Vec::from("a"), prerequisites: Vec::from([Vec::from("b")]) },
        Dependency { target: Vec::from("c"), prerequisites: Vec::new() },
    ]);

    let mut serializer = JsonSerializer::new();
    serializer.write_vec(&vec);

    assert_eq!(
        b"[{\"target\":\"a\",\"prerequisites\":[\"b\"]},{\"target\":\"c\",\"prerequisites\":[]}]",
        serializer.buf.as_slice()
    );
}

/**
 * JsonSerializer::get_json()
 *
 * The getter hands out exactly the bytes written so far.
 */
#[test]
fn get_json_returns_buffer() {
    let mut serializer = JsonSerializer::new();
    assert_eq!(b"", serializer.get_json());

    serializer.write_vec(&Vec::new());

    assert_eq!(b"[]", serializer.get_json());
}

/**
 * JsonSerializer::write_str()
 *
 * A lone backslash is escaped to two.
 */
#[test]
fn write_str_backslash() {
    let mut serializer = JsonSerializer::new();
    serializer.write_str(&Vec::from("\\"));

    assert_eq!(b"\"\\\\\"", serializer.buf.as_slice());
}
