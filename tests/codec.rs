use formulae::cursor::{read_bytes, read_key, read_string};
use formulae::obj_types;
use formulae::raw::{AnyToBytes, BoolNode, Int32Node, Int64Node, NodeHeader, NodeType, StringNode};
use formulae::{DecodeError, Field, Object};

fn entry(key: &str, value: Object) -> (String, Object) {
    (key.to_string(), value)
}

fn eof(field: Field, needed: u64, available: u64) -> DecodeError {
    DecodeError::UnexpectedEof { field, needed, available }
}

fn root_buffer(body: &[u8]) -> Vec<u8> {
    let mut bytes = b"formulae".to_vec();
    bytes.extend_from_slice(body);
    bytes
}

#[test]
fn empty_root_is_signature_and_end_marker() {
    let bytes = Object::Root(Vec::new()).into_bytes();
    assert_eq!(bytes, b"formulae\xFF".to_vec());
    assert_eq!(Object::parse_root(&bytes), Ok(Object::Root(Vec::new())));
}

#[test]
fn exact_layout_of_one_entry() {
    let root = Object::Root(vec![entry("a", Object::Int32(1))]);
    let bytes = root.into_bytes();
    assert_eq!(bytes, root_buffer(&[1, 1, 0, b'a', 1, 0, 0, 0, 0xFF]));
}

#[test]
fn exact_layout_of_every_kind() {
    assert_eq!(Object::Bool(true).into_bytes(), vec![1]);
    assert_eq!(Object::Bool(false).into_bytes(), vec![0]);
    assert_eq!(Object::Int32(0x01020304).into_bytes(), vec![4, 3, 2, 1]);
    assert_eq!(Object::Int64(0xABCDEF).into_bytes(), vec![0xEF, 0xCD, 0xAB, 0, 0, 0, 0, 0]);
    assert_eq!(
        Object::String("hé".to_string()).into_bytes(),
        vec![3, 0, 0, 0, 0, 0, 0, 0, b'h', 0xC3, 0xA9]
    );
    assert_eq!(
        Object::Array(vec![Object::Bool(true)]).into_bytes(),
        vec![obj_types::BOOL, 1, obj_types::END]
    );
    assert_eq!(
        Object::Dictionary(vec![entry("k", Object::Bool(false))]).into_bytes(),
        vec![obj_types::BOOL, 1, 0, b'k', 0, obj_types::END]
    );
}

#[test]
fn concrete_scenario_round_trips() {
    let root = Object::Root(vec![
        entry("Cool", Object::Bool(true)),
        entry("n", Object::Int64(0xABCDEF)),
        entry("s", Object::String("hello".to_string())),
    ]);
    let bytes = root.into_bytes();
    let decoded = Object::parse_root(&bytes).unwrap();
    match &decoded {
        Object::Root(entries) => {
            assert_eq!(entries.len(), 3);
            assert_eq!(entries[0], entry("Cool", Object::Bool(true)));
            assert_eq!(entries[1], entry("n", Object::Int64(0xABCDEF)));
            assert_eq!(entries[2], entry("s", Object::String("hello".to_string())));
        }
        other => panic!("expected a root, got {:?}", other),
    }
    assert_eq!(decoded, root);
}

#[test]
fn nested_array_keeps_order_and_types() {
    let root = Object::Root(vec![entry(
        "arr",
        Object::Array(vec![Object::String("a".to_string()), Object::Int64(1)]),
    )]);
    let bytes = root.into_bytes();
    let decoded = Object::parse_root(&bytes).unwrap();
    assert_eq!(decoded, root);
    match decoded {
        Object::Root(entries) => match &entries[0].1 {
            Object::Array(items) => {
                assert_eq!(items[0], Object::String("a".to_string()));
                assert_eq!(items[1], Object::Int64(1));
            }
            other => panic!("expected an array, got {:?}", other),
        },
        other => panic!("expected a root, got {:?}", other),
    }
}

#[test]
fn deep_tree_round_trips() {
    let root = Object::Root(vec![
        entry("flag", Object::Bool(false)),
        entry("small", Object::Int32(u32::MAX)),
        entry("big", Object::Int64(u64::MAX)),
        entry("text", Object::String("ünïcödé ✓".to_string())),
        entry(
            "dict",
            Object::Dictionary(vec![
                entry("inner", Object::Array(vec![Object::Array(Vec::new()), Object::Bool(true)])),
                entry("empty", Object::Dictionary(Vec::new())),
            ]),
        ),
        entry("", Object::String(String::new())),
    ]);
    let bytes = root.into_bytes();
    assert_eq!(Object::parse_root(&bytes), Ok(root));
}

#[test]
fn duplicate_key_in_root_is_rejected() {
    let root = Object::Root(vec![entry("x", Object::Bool(true)), entry("x", Object::Int32(7))]);
    let bytes = root.into_bytes();
    assert_eq!(Object::parse_root(&bytes), Err(DecodeError::DuplicateKey));
}

#[test]
fn duplicate_key_in_nested_dictionary_is_rejected() {
    let root = Object::Root(vec![entry(
        "d",
        Object::Dictionary(vec![entry("k", Object::Int32(1)), entry("k", Object::Int32(2))]),
    )]);
    let bytes = root.into_bytes();
    assert_eq!(Object::parse_root(&bytes), Err(DecodeError::DuplicateKey));
}

#[test]
fn same_key_in_different_mappings_is_fine() {
    let root = Object::Root(vec![
        entry("k", Object::Dictionary(vec![entry("k", Object::Bool(true))])),
        entry("j", Object::Dictionary(vec![entry("k", Object::Bool(false))])),
    ]);
    let bytes = root.into_bytes();
    assert_eq!(Object::parse_root(&bytes), Ok(root));
}

#[test]
fn every_truncation_is_detected() {
    let root = Object::Root(vec![
        entry("Cool", Object::Bool(true)),
        entry("n", Object::Int64(0xABCDEF)),
        entry("s", Object::String("hello".to_string())),
        entry("arr", Object::Array(vec![Object::String("a".to_string()), Object::Int32(1)])),
        entry("d", Object::Dictionary(vec![entry("x", Object::Int32(9))])),
    ]);
    let bytes = root.into_bytes();
    for cut in 0..bytes.len() {
        match Object::parse_root(&bytes[..cut]) {
            Err(DecodeError::UnexpectedEof { .. }) | Err(DecodeError::MissingEndMarker) => {}
            other => panic!("prefix of {} bytes gave {:?}", cut, other),
        }
    }
}

#[test]
fn flipped_signature_byte_is_rejected() {
    let bytes = Object::Root(vec![entry("a", Object::Bool(true))]).into_bytes();
    for i in 0..8 {
        let mut broken = bytes.clone();
        broken[i] ^= 0x20;
        assert_eq!(Object::parse_root(&broken), Err(DecodeError::InvalidMagic));
    }
}

#[test]
fn short_buffer_is_unexpected_eof() {
    assert_eq!(Object::parse_root(b"form"), Err(eof(Field::Magic, 8, 4)));
    assert_eq!(Object::parse_root(b""), Err(eof(Field::Magic, 8, 0)));
}

#[test]
fn missing_end_marker_at_root() {
    assert_eq!(Object::parse_root(b"formulae"), Err(DecodeError::MissingEndMarker));
    let body = [obj_types::BOOL, 1, 0, b'b', 1];
    assert_eq!(Object::parse_root(&root_buffer(&body)), Err(DecodeError::MissingEndMarker));
}

#[test]
fn bytes_after_the_end_marker_are_ignored() {
    let buffer = root_buffer(&[0xFF, 1, 2, 3]);
    assert_eq!(Object::parse_root(&buffer), Ok(Object::Root(Vec::new())));
}

#[test]
fn bool_payload_domain() {
    assert_eq!(Object::parse(obj_types::BOOL, &[0]), Ok(Some((Object::Bool(false), &[][..]))));
    assert_eq!(Object::parse(obj_types::BOOL, &[1, 9]), Ok(Some((Object::Bool(true), &[9u8][..]))));
    assert_eq!(Object::parse(obj_types::BOOL, &[2]), Err(DecodeError::InvalidScalarValue(2)));
    let buffer = root_buffer(&[obj_types::BOOL, 1, 0, b'b', 2, 0xFF]);
    assert_eq!(Object::parse_root(&buffer), Err(DecodeError::InvalidScalarValue(2)));
}

#[test]
fn parse_of_end_tag_is_none() {
    assert_eq!(Object::parse(obj_types::END, &[1, 2]), Ok(None));
}

#[test]
fn parse_scalars_little_endian() {
    let input = [4, 3, 2, 1, 0xAA];
    assert_eq!(
        Object::parse(obj_types::INT32, &input),
        Ok(Some((Object::Int32(0x01020304), &[0xAAu8][..])))
    );
    let input = [0xEF, 0xCD, 0xAB, 0, 0, 0, 0, 0];
    assert_eq!(Object::parse(obj_types::INT64, &input), Ok(Some((Object::Int64(0xABCDEF), &[][..]))));
    assert_eq!(Object::parse(obj_types::INT32, &[1, 2, 3]), Err(eof(Field::Int32, 4, 3)));
    assert_eq!(Object::parse(obj_types::INT64, &[1]), Err(eof(Field::Int64, 8, 1)));
    assert_eq!(Object::parse(obj_types::BOOL, &[]), Err(eof(Field::Bool, 1, 0)));
}

#[test]
fn unknown_tag_is_rejected() {
    assert_eq!(Object::parse(9, &[0, 0]), Err(DecodeError::UnknownTag(9)));
    let buffer = root_buffer(&[7, 1, 0, b'q', 0xFF]);
    assert_eq!(Object::parse_root(&buffer), Err(DecodeError::UnknownTag(7)));
}

#[test]
fn invalid_utf8_is_rejected() {
    let string_payload = [2, 0, 0, 0, 0, 0, 0, 0, 0xC3, 0x28];
    assert_eq!(Object::parse(obj_types::STR, &string_payload), Err(DecodeError::InvalidEncoding));
    let bad_key = root_buffer(&[obj_types::BOOL, 1, 0, 0xFF, 1, 0xFF]);
    assert_eq!(Object::parse_root(&bad_key), Err(DecodeError::InvalidEncoding));
}

#[test]
fn string_length_beyond_buffer_is_eof() {
    let payload = [10, 0, 0, 0, 0, 0, 0, 0, b'a'];
    assert_eq!(Object::parse(obj_types::STR, &payload), Err(eof(Field::StringBytes, 10, 1)));
    let huge = [0xFF, 0xFF, 0xFF, 0xFF, 0xFF, 0xFF, 0xFF, 0xFF, b'a'];
    assert_eq!(
        Object::parse(obj_types::STR, &huge),
        Err(eof(Field::StringBytes, u64::MAX, 1))
    );
    assert_eq!(Object::parse(obj_types::STR, &[1, 0]), Err(eof(Field::StringLength, 8, 2)));
}

#[test]
fn key_fields_short_are_eof() {
    let short_len = root_buffer(&[obj_types::BOOL, 1]);
    assert_eq!(Object::parse_root(&short_len), Err(eof(Field::KeyLength, 2, 1)));
    let short_key = root_buffer(&[obj_types::BOOL, 3, 0, b'a']);
    assert_eq!(Object::parse_root(&short_key), Err(eof(Field::Key, 3, 1)));
}

#[test]
fn unterminated_array_and_dictionary() {
    assert_eq!(Object::parse(obj_types::ARRAY, &[obj_types::BOOL, 1]), Err(DecodeError::MissingEndMarker));
    assert_eq!(Object::parse(obj_types::DICT, &[]), Err(DecodeError::MissingEndMarker));
    assert_eq!(
        Object::parse(obj_types::ARRAY, &[obj_types::END, 5]),
        Ok(Some((Object::Array(Vec::new()), &[5u8][..])))
    );
}

#[test]
fn read_helpers() {
    let input = [1u8, 2, 3];
    assert_eq!(read_bytes::<2>(&input), Some(([1u8, 2], &[3u8][..])));
    assert_eq!(read_bytes::<4>(&input), None);
    assert_eq!(read_key(&[2, 0, b'h', b'i', 7]), Ok(("hi".to_string(), &[7u8][..])));
    assert_eq!(read_key(&[1]), Err(eof(Field::KeyLength, 2, 1)));
    assert_eq!(read_key(&[2, 0, b'h']), Err(eof(Field::Key, 2, 1)));
    assert_eq!(
        read_string(&[3, 0, 0, 0, 0, 0, 0, 0, b'a', b'b', b'c']),
        Ok(("abc".to_string(), &[][..]))
    );
    assert_eq!(read_string(&[1, 0, 0, 0, 0, 0, 0, 0, 0x80]), Err(DecodeError::InvalidEncoding));
}

#[test]
fn to_obj_type_tags() {
    assert_eq!(Object::Bool(true).to_obj_type(), 0);
    assert_eq!(Object::Int32(0).to_obj_type(), 1);
    assert_eq!(Object::Int64(0).to_obj_type(), 2);
    assert_eq!(Object::String(String::new()).to_obj_type(), 3);
    assert_eq!(Object::Dictionary(Vec::new()).to_obj_type(), 4);
    assert_eq!(Object::Array(Vec::new()).to_obj_type(), 5);
    assert_eq!(Object::Root(Vec::new()).to_obj_type(), 4);
}

#[test]
fn node_wire_forms() {
    assert_eq!(NodeType::End.to_bytes(), vec![0xFF]);
    assert_eq!(NodeType::from_tag(5), Some(NodeType::Array));
    assert_eq!(NodeType::from_tag(4), Some(NodeType::Dictionary));
    assert_eq!(NodeType::from_tag(6), None);
    assert_eq!(NodeType::String.tag(), 3);
    let header = NodeHeader::new(NodeType::Int64, 0x0102);
    assert_eq!(header.node_type, NodeType::Int64);
    assert_eq!(header.key_len, 0x0102);
    assert_eq!(header.to_bytes(), vec![2, 0x02, 0x01]);
    assert_eq!(BoolNode::new(true).to_bytes(), vec![1]);
    assert_eq!(BoolNode::new(false).value, false);
    assert_eq!(Int32Node::new(0xDEADBEEF).to_bytes(), vec![0xEF, 0xBE, 0xAD, 0xDE]);
    assert_eq!(Int64Node::new(1).to_bytes(), vec![1, 0, 0, 0, 0, 0, 0, 0]);
    assert_eq!(StringNode::new(0x0100).to_bytes(), vec![0, 1, 0, 0, 0, 0, 0, 0]);
    assert_eq!(StringNode::new(5).len, 5);
}
