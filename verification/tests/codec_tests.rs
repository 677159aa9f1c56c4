use git_queue::codec::{decode_meta, encode_meta, MetaRecord};
use git_queue::oid::ObjectId;

fn oid(hex: &str) -> ObjectId {
    ObjectId::from_hex(hex.as_bytes()).unwrap()
}

fn sample() -> MetaRecord {
    MetaRecord {
        previous: None,
        head: oid("aaaaaaaaaaaaaaaaaaaaaaaaaaaaaaaaaaaaaaaa"),
        base: oid("aaaaaaaaaaaaaaaaaaaaaaaaaaaaaaaaaaaaaaaa"),
        base_name: String::from("refs/heads/main"),
        applied: vec![],
        unapplied: vec![],
        patches: vec![],
    }
}

#[test]
fn encode_initial_record_exact_bytes() {
    let bytes = encode_meta(&sample());
    let expected = "{\"version\":1,\"head\":\"aaaaaaaaaaaaaaaaaaaaaaaaaaaaaaaaaaaaaaaa\",\"base_name\":\"refs/heads/main\",\"base\":\"aaaaaaaaaaaaaaaaaaaaaaaaaaaaaaaaaaaaaaaa\",\"applied\":[],\"unapplied\":[],\"patches\":{}}";
    assert_eq!(bytes.as_slice(), expected.as_bytes());
}

#[test]
fn encode_full_record_exact_bytes() {
    let m = MetaRecord {
        previous: Some(oid("bbbbbbbbbbbbbbbbbbbbbbbbbbbbbbbbbbbbbbbb")),
        head: oid("cccccccccccccccccccccccccccccccccccccccc"),
        base: oid("aaaaaaaaaaaaaaaaaaaaaaaaaaaaaaaaaaaaaaaa"),
        base_name: String::from("refs/heads/main"),
        applied: vec![String::from("one")],
        unapplied: vec![String::from("two")],
        patches: vec![
            (String::from("one"), oid("cccccccccccccccccccccccccccccccccccccccc")),
            (String::from("two"), oid("dddddddddddddddddddddddddddddddddddddddd")),
        ],
    };
    let bytes = encode_meta(&m);
    let expected = "{\"version\":1,\"previous\":\"bbbbbbbbbbbbbbbbbbbbbbbbbbbbbbbbbbbbbbbb\",\"head\":\"cccccccccccccccccccccccccccccccccccccccc\",\"base_name\":\"refs/heads/main\",\"base\":\"aaaaaaaaaaaaaaaaaaaaaaaaaaaaaaaaaaaaaaaa\",\"applied\":[\"one\"],\"unapplied\":[\"two\"],\"patches\":{\"one\":\"cccccccccccccccccccccccccccccccccccccccc\",\"two\":\"dddddddddddddddddddddddddddddddddddddddd\"}}";
    assert_eq!(bytes.as_slice(), expected.as_bytes());
}

#[test]
fn decode_encode_round_trip() {
    let m = MetaRecord {
        previous: Some(oid("bbbbbbbbbbbbbbbbbbbbbbbbbbbbbbbbbbbbbbbb")),
        head: oid("cccccccccccccccccccccccccccccccccccccccc"),
        base: oid("aaaaaaaaaaaaaaaaaaaaaaaaaaaaaaaaaaaaaaaa"),
        base_name: String::from("refs/heads/wo\"rk\\x"),
        applied: vec![String::from("a patch"), String::from("b")],
        unapplied: vec![String::from("c\nd")],
        patches: vec![
            (String::from("a patch"), oid("cccccccccccccccccccccccccccccccccccccccc")),
            (String::from("b"), oid("dddddddddddddddddddddddddddddddddddddddd")),
            (String::from("c\nd"), oid("eeeeeeeeeeeeeeeeeeeeeeeeeeeeeeeeeeeeeeee")),
        ],
    };
    let bytes = encode_meta(&m);
    let back = decode_meta(&bytes).ok().unwrap();
    assert_eq!(encode_meta(&back), bytes);
    assert_eq!(back.base_name, m.base_name);
    assert_eq!(back.applied, m.applied);
    assert_eq!(back.unapplied, m.unapplied);
    assert_eq!(back.patches.len(), 3);
    assert_eq!(back.patches[0].0, "a patch");
    assert!(back.head == m.head);
    assert!(back.previous.unwrap() == m.previous.unwrap());
}

#[test]
fn decode_rejects_other_version() {
    let bytes = encode_meta(&sample());
    let text = String::from_utf8(bytes).unwrap().replace("\"version\":1", "\"version\":2");
    assert!(decode_meta(&text.into_bytes()).is_err());
}

#[test]
fn decode_rejects_bad_hex_id() {
    let bytes = encode_meta(&sample());
    let text = String::from_utf8(bytes)
        .unwrap()
        .replace("aaaaaaaaaaaaaaaaaaaaaaaaaaaaaaaaaaaaaaaa", "zzzzaaaaaaaaaaaaaaaaaaaaaaaaaaaaaaaaaaaa");
    assert!(decode_meta(&text.into_bytes()).is_err());
}

#[test]
fn decode_rejects_unknown_field() {
    let bytes = encode_meta(&sample());
    let text = String::from_utf8(bytes).unwrap().replace("\"applied\":", "\"applies\":");
    assert!(decode_meta(&text.into_bytes()).is_err());
}

#[test]
fn decode_rejects_duplicate_patch_names() {
    let text = "{\"version\":1,\"head\":\"cccccccccccccccccccccccccccccccccccccccc\",\"base_name\":\"refs/heads/main\",\"base\":\"aaaaaaaaaaaaaaaaaaaaaaaaaaaaaaaaaaaaaaaa\",\"applied\":[\"one\"],\"unapplied\":[],\"patches\":{\"one\":\"cccccccccccccccccccccccccccccccccccccccc\",\"one\":\"dddddddddddddddddddddddddddddddddddddddd\"}}";
    assert!(decode_meta(&text.as_bytes().to_vec()).is_err());
}

#[test]
fn decode_rejects_trailing_bytes() {
    let mut bytes = encode_meta(&sample());
    bytes.push(b' ');
    assert!(decode_meta(&bytes).is_err());
}

#[test]
fn decode_rejects_not_json() {
    assert!(decode_meta(&b"nonsense".to_vec()).is_err());
    assert!(decode_meta(&Vec::new()).is_err());
}
