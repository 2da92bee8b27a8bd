use supno::add_sentinel;
use supno::decode_document;
use supno::encode_document;
use supno::read_path;
use supno::strip_sentinel;
use supno::tree_is_wf;
use supno::FileOrDirectory;
use supno::FileSystem;
use supno::ReadOutcome;

fn file(name: &str, content: &str) -> (String, FileOrDirectory) {
    (name.to_string(), FileOrDirectory::File(content.to_string()))
}

fn dir(name: &str, children: Vec<(String, FileOrDirectory)>) -> (String, FileOrDirectory) {
    (name.to_string(), FileOrDirectory::Directory(children))
}

#[test]
fn decode_flat_object() {
    let fs = decode_document("{\"a\":\"hello\",\"b\":\"world\"}").unwrap();
    assert_eq!(fs.entries.len(), 2);
    assert_eq!(fs.entries[0].0, "a");
    match &fs.entries[0].1 {
        FileOrDirectory::File(c) => assert_eq!(c, "hello"),
        _ => panic!("expected a file"),
    }
}

#[test]
fn decode_nested_directories() {
    let text = "{\"supno keep\":\"yes\",\"gnome\":{\"wa\":{},\"donkey\":\"horse\"}}";
    let fs = decode_document(text).unwrap();
    assert_eq!(fs.entries.len(), 2);
    match &fs.entries[1].1 {
        FileOrDirectory::Directory(children) => {
            assert_eq!(children.len(), 2);
            assert_eq!(children[0].0, "wa");
            match &children[0].1 {
                FileOrDirectory::Directory(inner) => assert!(inner.is_empty()),
                _ => panic!("expected an empty directory"),
            }
        },
        _ => panic!("expected a directory"),
    }
}

#[test]
fn round_trip_preserves_structure() {
    let text = "{\"supno keep\":\"yes\",\"gnome\":{\"wa\":{},\"donkey\":\"horse\"}}";
    let fs = decode_document(text).unwrap();
    let encoded = encode_document(&fs);
    assert_eq!(encoded, text);
    let fs2 = decode_document(&encoded).unwrap();
    assert_eq!(encode_document(&fs2), text);
}

#[test]
fn round_trip_keeps_nested_empty_directories() {
    let fs = FileSystem { entries: vec![dir("outer", vec![dir("inner", vec![])])] };
    let encoded = encode_document(&fs);
    assert_eq!(encoded, "{\"outer\":{\"inner\":{}}}");
    let fs2 = decode_document(&encoded).unwrap();
    assert_eq!(encode_document(&fs2), encoded);
}

#[test]
fn empty_object_decodes_to_empty_tree() {
    let fs = decode_document("{}").unwrap();
    assert!(fs.entries.is_empty());
    assert_eq!(encode_document(&fs), "{}");
}

#[test]
fn decode_accepts_whitespace() {
    let fs = decode_document(" {\n  \"a\" : \"b\" ,\t\"d\" : { } } ").unwrap();
    assert_eq!(encode_document(&fs), "{\"a\":\"b\",\"d\":{}}");
}

#[test]
fn decode_handles_escapes() {
    let fs = decode_document("{\"k\":\"line\\nbreak\\ttab \\\"q\\\" back\\\\slash \\u0001\"}")
        .unwrap();
    match &fs.entries[0].1 {
        FileOrDirectory::File(c) => {
            assert_eq!(c, "line\nbreak\ttab \"q\" back\\slash \u{1}");
        },
        _ => panic!("expected a file"),
    }
}

#[test]
fn decode_handles_general_unicode_escapes() {
    let fs = decode_document("{\"k\":\"\\u0100 \\u4e16 \\uFFFD\"}").unwrap();
    match &fs.entries[0].1 {
        FileOrDirectory::File(c) => assert_eq!(c, "\u{100} \u{4e16} \u{fffd}"),
        _ => panic!("expected a file"),
    }
}

#[test]
fn decode_rejects_surrogate_and_bad_escapes() {
    assert!(decode_document("{\"k\":\"\\ud800\"}").is_none());
    assert!(decode_document("{\"k\":\"\\uDFFF\"}").is_none());
    assert!(decode_document("{\"k\":\"\\uzz00\"}").is_none());
    assert!(decode_document("{\"k\":\"\\u12\"}").is_none());
    assert!(decode_document("{\"k\":\"\\q\"}").is_none());
}

#[test]
fn escapes_round_trip_through_encoder() {
    let fs = FileSystem {
        entries: vec![file("k", "a\"b\\c\nd\te\r\u{8}\u{c}\u{1f}plain")],
    };
    let encoded = encode_document(&fs);
    let fs2 = decode_document(&encoded).unwrap();
    match &fs2.entries[0].1 {
        FileOrDirectory::File(c) => assert_eq!(c, "a\"b\\c\nd\te\r\u{8}\u{c}\u{1f}plain"),
        _ => panic!("expected a file"),
    }
}

#[test]
fn encoder_output_is_json_for_serde() {
    let fs = FileSystem {
        entries: vec![file("weird name", "text with \"quotes\" and \n newline"), dir(
            "d",
            vec![file("inner", "x")],
        )],
    };
    let encoded = encode_document(&fs);
    let value: serde_json::Value = serde_json::from_str(&encoded).unwrap();
    assert_eq!(
        value.get("weird name").unwrap().as_str().unwrap(),
        "text with \"quotes\" and \n newline"
    );
    assert_eq!(
        value.get("d").unwrap().get("inner").unwrap().as_str().unwrap(),
        "x"
    );
}

#[test]
fn decode_rejects_malformed_documents() {
    assert!(decode_document("").is_none());
    assert!(decode_document("[]").is_none());
    assert!(decode_document("{\"a\":1}").is_none());
    assert!(decode_document("{\"a\":\"b\"").is_none());
    assert!(decode_document("{\"a\" \"b\"}").is_none());
    assert!(decode_document("{\"a\":\"b\"} trailing").is_none());
    assert!(decode_document("{\"a\":\"b\",}").is_none());
}

#[test]
fn decode_rejects_duplicate_names() {
    assert!(decode_document("{\"a\":\"x\",\"a\":\"y\"}").is_none());
    assert!(decode_document("{\"d\":{\"a\":\"x\",\"a\":\"y\"}}").is_none());
}

#[test]
fn wf_check_sees_duplicates() {
    let good = FileSystem { entries: vec![file("a", "1"), file("b", "2")] };
    assert!(tree_is_wf(&good));
    let bad = FileSystem { entries: vec![file("a", "1"), file("a", "2")] };
    assert!(!tree_is_wf(&bad));
}

#[test]
fn sentinel_added_and_stripped() {
    let mut fs = FileSystem { entries: vec![] };
    add_sentinel(&mut fs);
    assert_eq!(encode_document(&fs), "{\"supno keep\":\"yes\"}");
    strip_sentinel(&mut fs);
    assert_eq!(encode_document(&fs), "{}");
    strip_sentinel(&mut fs);
    assert_eq!(encode_document(&fs), "{}");
}

#[test]
fn sentinel_overwrites_existing_entry() {
    let mut fs = FileSystem { entries: vec![file("supno keep", "old"), file("z", "1")] };
    add_sentinel(&mut fs);
    assert_eq!(encode_document(&fs), "{\"supno keep\":\"yes\",\"z\":\"1\"}");
}

#[test]
fn read_path_finds_file() {
    let fs = decode_document("{\"gnome\":{\"donkey\":\"horse\"}}").unwrap();
    match read_path(&fs, "gnome/donkey") {
        ReadOutcome::FileContent(c) => assert_eq!(c, "horse"),
        _ => panic!("expected file content"),
    }
}

#[test]
fn read_path_directory_end_is_silent() {
    let fs = decode_document("{\"gnome\":{\"donkey\":\"horse\"}}").unwrap();
    assert!(matches!(read_path(&fs, "gnome"), ReadOutcome::DirectoryEnd));
}

#[test]
fn read_path_misses() {
    let fs = decode_document("{\"gnome\":{\"donkey\":\"horse\"}}").unwrap();
    assert!(matches!(read_path(&fs, "gnome/pony"), ReadOutcome::Missing));
    assert!(matches!(read_path(&fs, "gnome/donkey/deep"), ReadOutcome::Missing));
    assert!(matches!(read_path(&fs, "gnome//donkey"), ReadOutcome::Missing));
}
