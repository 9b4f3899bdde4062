use persistent_rope::Rope;
use sphinx::buffer::{Buffer, GetLine, Marker};

#[test]
fn marker_count_chunked() {
    let data: Vec<u8> = b"ab\ncd\nef\n".to_vec();
    let buf = Buffer::from_bytes(&data, 3);
    assert_eq!(buf.marker_count(Marker::Linebreak), 3);
    assert_eq!(buf.len(), 9);
}

#[test]
fn marker_count_independent_of_chunk_size() {
    let data: Vec<u8> = b"ab\ncd\nef\n".to_vec();
    for cs in [1usize, 2, 3, 4, 5, 9, 100] {
        let buf = Buffer::from_bytes(&data, cs);
        assert_eq!(buf.marker_count(Marker::Linebreak), 3);
        assert_eq!(buf.read().to_string(), "ab\ncd\nef\n");
    }
}

#[test]
fn from_chunks_concatenates() {
    let chunks: Vec<Vec<u8>> = vec![b"ab\n".to_vec(), b"cd".to_vec(), b"\nef\n".to_vec()];
    let buf = Buffer::from_chunks(&chunks);
    assert_eq!(buf.len(), 9);
    assert_eq!(buf.marker_count(Marker::Linebreak), 3);
    assert_eq!(buf.read().to_string(), "ab\ncd\nef\n");
}

#[test]
fn empty_load() {
    let buf = Buffer::from_bytes(&Vec::new(), 1);
    assert_eq!(buf.len(), 0);
    assert_eq!(buf.marker_count(Marker::Linebreak), 0);
    assert!(buf.get_line(0).is_none());
}

#[test]
fn history_capacity_two() {
    let mut buf = Buffer::with_history(Rope::from("v0"), 2);
    buf.write(Rope::from("w1"));
    buf.write(Rope::from("w2"));
    buf.write(Rope::from("w3"));
    assert_eq!(buf.read().to_string(), "w3");
    assert_eq!(buf.version(0).unwrap().to_string(), "w3");
    assert_eq!(buf.version(1).unwrap().to_string(), "w2");
    assert!(buf.version(2).is_none());
}

#[test]
fn history_capacity_one_default() {
    let mut buf = Buffer::new(Rope::from("a"));
    buf.write(Rope::from("b"));
    buf.write(Rope::from("c"));
    assert_eq!(buf.read().to_string(), "c");
    assert!(buf.version(1).is_none());
}

#[test]
fn snapshot_immutable_across_write() {
    let mut buf = Buffer::with_history(Rope::from("before"), 2);
    let held = buf.read().clone();
    buf.write(Rope::from("after"));
    assert_eq!(held.to_string(), "before");
    assert_eq!(buf.read().to_string(), "after");
}

#[test]
fn read_idempotent() {
    let buf = Buffer::new(Rope::from("same"));
    let first = buf.read().to_string();
    let second = buf.read().to_string();
    assert_eq!(first, second);
}

#[test]
fn line_lookup() {
    let data: Vec<u8> = b"ab\ncd\nef".to_vec();
    let buf = Buffer::from_bytes(&data, 4);
    assert_eq!(buf.get_line(0).unwrap().as_str(), "ab");
    assert_eq!(buf.get_line(1).unwrap().as_str(), "cd");
    assert_eq!(buf.get_line(2).unwrap().as_str(), "ef");
    assert!(buf.get_line(3).is_none());
}

#[test]
fn line_lookup_trailing_break_and_blanks() {
    let buf = Buffer::from_bytes(&b"ab\n".to_vec(), 2);
    assert_eq!(buf.get_line(0).unwrap().as_str(), "ab");
    assert!(buf.get_line(1).is_none());
    let blank = Buffer::from_bytes(&b"\n\n".to_vec(), 1);
    assert_eq!(blank.get_line(0).unwrap().as_str(), "");
    assert_eq!(blank.get_line(1).unwrap().as_str(), "");
    assert!(blank.get_line(2).is_none());
}

#[test]
fn load_with_history_capacity() {
    let data: Vec<u8> = b"a\nb".to_vec();
    let mut buf = Buffer::load(&data, 2, 3);
    assert_eq!(buf.marker_count(Marker::Linebreak), 1);
    buf.write(Rope::from("edited"));
    assert_eq!(buf.read().to_string(), "edited");
    assert_eq!(buf.version(1).unwrap().to_string(), "a\nb");
}

#[test]
fn source_recorded_once() {
    let mut buf = Buffer::new(Rope::new());
    assert!(buf.source_name().is_none());
    buf.set_source(String::from("notes.txt"));
    assert_eq!(buf.source_name().as_deref(), Some("notes.txt"));
}
