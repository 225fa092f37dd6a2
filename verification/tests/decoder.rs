//! Tests of the byte cursor, the NBT parser and the accessor API, over
//! hand-encoded byte streams.

use nbt_region::{get_by_name, Cursor, NbtError, Tag, TagPayload};

fn parse_doc(bytes: &Vec<u8>) -> Result<Option<Tag>, NbtError> {
    let mut cur = Cursor::new(bytes);
    Tag::parse(&mut cur)
}

#[test]
fn cursor_reads_big_endian() {
    let bytes: Vec<u8> = vec![0x12, 0x34, 0x56, 0x78, 0x9A, 0xBC, 0xDE, 0xF0];
    let mut cur = Cursor::new(&bytes);
    assert_eq!(cur.next_u16(), Ok(0x1234));
    assert_eq!(cur.pos(), 2);
    assert_eq!(cur.next_u32(), Ok(0x56789ABC));
    assert_eq!(cur.pos(), 6);
    assert_eq!(cur.next_u16(), Ok(0xDEF0));
    assert_eq!(cur.next_u8(), Err(NbtError::UnexpectedEnd));
}

#[test]
fn cursor_reads_signed_values() {
    let bytes: Vec<u8> = vec![0xFF, 0xFF, 0xFE, 0x80, 0x00, 0x00, 0x00];
    let mut cur = Cursor::new(&bytes);
    assert_eq!(cur.next_i8(), Ok(-1));
    assert_eq!(cur.next_i16(), Ok(-2));
    assert_eq!(cur.next_i32(), Ok(-2147483648));
    assert_eq!(cur.next_i32(), Err(NbtError::UnexpectedEnd));
}

#[test]
fn cursor_reads_u64_and_runs() {
    let bytes: Vec<u8> = vec![0, 0, 0, 0, 0, 0, 0x02, 0x01, 7, 8, 9];
    let mut cur = Cursor::new(&bytes);
    assert_eq!(cur.next_u64(), Ok(0x201));
    assert_eq!(cur.next_n_vec(3), Ok(vec![7u8, 8, 9]));
    assert_eq!(cur.next_n_vec(1), Err(NbtError::UnexpectedEnd));
}

#[test]
fn cursor_rejects_invalid_utf8() {
    let bytes: Vec<u8> = vec![0xFF, 0xFE];
    let mut cur = Cursor::new(&bytes);
    assert_eq!(cur.next_string(2), Err(NbtError::InvalidEncoding));
}

#[test]
fn parses_named_byte_tag() {
    let bytes: Vec<u8> = vec![0x01, 0x00, 0x01, b'a', 0x2A];
    let root = parse_doc(&bytes).unwrap().unwrap();
    assert_eq!(root.name, b"a".to_vec());
    assert_eq!(root.payload, TagPayload::Byte(42));
}

#[test]
fn parses_each_scalar_width() {
    let bytes: Vec<u8> = vec![0x02, 0x00, 0x00, 0x01, 0x02];
    let root = parse_doc(&bytes).unwrap().unwrap();
    assert_eq!(root.payload, TagPayload::Short(0x0102));

    let bytes: Vec<u8> = vec![0x03, 0x00, 0x00, 0xFF, 0xFF, 0xFF, 0xFF];
    let root = parse_doc(&bytes).unwrap().unwrap();
    assert_eq!(root.payload, TagPayload::Int(-1));

    let bytes: Vec<u8> = vec![0x04, 0x00, 0x00, 0, 0, 0, 0, 0, 0, 0x01, 0x00];
    let root = parse_doc(&bytes).unwrap().unwrap();
    assert_eq!(root.payload, TagPayload::Long(256));
}

#[test]
fn parses_float_and_double_bits() {
    // 1.0f32 is 0x3F800000; 1.0f64 is 0x3FF0000000000000.
    let bytes: Vec<u8> = vec![0x05, 0x00, 0x00, 0x3F, 0x80, 0x00, 0x00];
    let root = parse_doc(&bytes).unwrap().unwrap();
    assert_eq!(root.payload, TagPayload::Float(0x3F800000));
    if let TagPayload::Float(bits) = root.payload {
        assert_eq!(f32::from_bits(bits), 1.0f32);
    }

    let bytes: Vec<u8> = vec![0x06, 0x00, 0x00, 0x3F, 0xF0, 0, 0, 0, 0, 0, 0];
    let root = parse_doc(&bytes).unwrap().unwrap();
    assert_eq!(root.payload, TagPayload::Double(0x3FF0000000000000));
}

#[test]
fn parses_arrays_and_string() {
    let bytes: Vec<u8> = vec![0x07, 0x00, 0x00, 0, 0, 0, 2, 0xFF, 0x01];
    let root = parse_doc(&bytes).unwrap().unwrap();
    assert_eq!(root.payload, TagPayload::ByteArray(vec![-1, 1]));

    let bytes: Vec<u8> = vec![0x08, 0x00, 0x00, 0x00, 0x02, b'h', b'i'];
    let root = parse_doc(&bytes).unwrap().unwrap();
    assert_eq!(root.payload, TagPayload::String(b"hi".to_vec()));

    let bytes: Vec<u8> = vec![0x0B, 0x00, 0x00, 0, 0, 0, 1, 0, 0, 1, 0];
    let root = parse_doc(&bytes).unwrap().unwrap();
    assert_eq!(root.payload, TagPayload::IntArray(vec![256]));

    let bytes: Vec<u8> = vec![0x0C, 0x00, 0x00, 0, 0, 0, 1, 0, 0, 0, 0, 0, 0, 0, 9];
    let root = parse_doc(&bytes).unwrap().unwrap();
    assert_eq!(root.payload, TagPayload::LongArray(vec![9]));
}

#[test]
fn parses_list_of_shorts() {
    let bytes: Vec<u8> = vec![0x09, 0x00, 0x00, 0x02, 0, 0, 0, 2, 0x00, 0x05, 0x00, 0x06];
    let root = parse_doc(&bytes).unwrap().unwrap();
    assert_eq!(
        root.payload,
        TagPayload::List(2, vec![TagPayload::Short(5), TagPayload::Short(6)])
    );
}

#[test]
fn empty_list_consumes_exactly_five_bytes() {
    // Count zero, with an arbitrary element type code: 1 code byte + 4 count
    // bytes beyond the list header, and nothing of the trailing data.
    for code in [0u8, 1, 3, 10, 99, 255] {
        let bytes: Vec<u8> = vec![code, 0, 0, 0, 0, 0xAB, 0xCD];
        let mut cur = Cursor::new(&bytes);
        let payload = Tag::parse_payload(&mut cur, 9).unwrap();
        assert_eq!(payload, TagPayload::List(code, vec![]));
        assert_eq!(cur.pos(), 5);
    }
}

#[test]
fn parses_compound_members_in_order() {
    let bytes: Vec<u8> = vec![
        0x0A, 0x00, 0x00, // root compound, empty name
        0x01, 0x00, 0x01, b'x', 0x05, // Byte "x" = 5
        0x08, 0x00, 0x01, b'y', 0x00, 0x01, b'z', // String "y" = "z"
        0x00, // end
    ];
    let root = parse_doc(&bytes).unwrap().unwrap();
    let members = root.payload.as_compound().unwrap();
    assert_eq!(members.len(), 2);
    assert_eq!(members[0].name, b"x".to_vec());
    assert_eq!(members[0].payload, TagPayload::Byte(5));
    assert_eq!(members[1].name, b"y".to_vec());
    assert_eq!(members[1].payload, TagPayload::String(b"z".to_vec()));
}

#[test]
fn compound_missing_terminator_is_unexpected_end() {
    // A compound holding one complete member but no terminating zero byte
    // must fail, never decode to a shorter compound.
    let bytes: Vec<u8> = vec![0x0A, 0x00, 0x00, 0x01, 0x00, 0x01, b'x', 0x05];
    assert_eq!(parse_doc(&bytes), Err(NbtError::UnexpectedEnd));
}

#[test]
fn empty_document_is_no_root() {
    let bytes: Vec<u8> = vec![0x00];
    assert_eq!(parse_doc(&bytes), Ok(None));
}

#[test]
fn empty_buffer_is_unexpected_end() {
    let bytes: Vec<u8> = vec![];
    assert_eq!(parse_doc(&bytes), Err(NbtError::UnexpectedEnd));
}

#[test]
fn unknown_type_code_is_rejected() {
    let bytes: Vec<u8> = vec![0x0D, 0x00, 0x00];
    assert_eq!(parse_doc(&bytes), Err(NbtError::UnknownTagType));
}

#[test]
fn negative_count_is_invalid_length() {
    let bytes: Vec<u8> = vec![0x07, 0x00, 0x00, 0xFF, 0xFF, 0xFF, 0xFF];
    assert_eq!(parse_doc(&bytes), Err(NbtError::InvalidLength));
    let bytes: Vec<u8> = vec![0x09, 0x00, 0x00, 0x01, 0x80, 0x00, 0x00, 0x00];
    assert_eq!(parse_doc(&bytes), Err(NbtError::InvalidLength));
}

#[test]
fn invalid_utf8_name_is_invalid_encoding() {
    let bytes: Vec<u8> = vec![0x01, 0x00, 0x01, 0xFF, 0x05];
    assert_eq!(parse_doc(&bytes), Err(NbtError::InvalidEncoding));
}

#[test]
fn truncated_scalar_is_unexpected_end() {
    let bytes: Vec<u8> = vec![0x03, 0x00, 0x00, 0x01, 0x02];
    assert_eq!(parse_doc(&bytes), Err(NbtError::UnexpectedEnd));
}

fn encode_payload(out: &mut Vec<u8>, p: &TagPayload) {
    match p {
        TagPayload::Byte(v) => out.push(*v as u8),
        TagPayload::Short(v) => out.extend_from_slice(&(*v as u16).to_be_bytes()),
        TagPayload::Int(v) => out.extend_from_slice(&(*v as u32).to_be_bytes()),
        TagPayload::Long(v) => out.extend_from_slice(&(*v as u64).to_be_bytes()),
        TagPayload::Float(bits) => out.extend_from_slice(&bits.to_be_bytes()),
        TagPayload::Double(bits) => out.extend_from_slice(&bits.to_be_bytes()),
        TagPayload::ByteArray(v) => {
            out.extend_from_slice(&(v.len() as u32).to_be_bytes());
            for b in v {
                out.push(*b as u8);
            }
        }
        TagPayload::String(v) => {
            out.extend_from_slice(&(v.len() as u16).to_be_bytes());
            out.extend_from_slice(v);
        }
        TagPayload::List(code, items) => {
            out.push(*code);
            out.extend_from_slice(&(items.len() as u32).to_be_bytes());
            for item in items {
                encode_payload(out, item);
            }
        }
        TagPayload::Compound(members) => {
            for m in members {
                encode_tag(out, m);
            }
            out.push(0);
        }
        TagPayload::IntArray(v) => {
            out.extend_from_slice(&(v.len() as u32).to_be_bytes());
            for x in v {
                out.extend_from_slice(&(*x as u32).to_be_bytes());
            }
        }
        TagPayload::LongArray(v) => {
            out.extend_from_slice(&(v.len() as u32).to_be_bytes());
            for x in v {
                out.extend_from_slice(&(*x as u64).to_be_bytes());
            }
        }
    }
}

fn type_code(p: &TagPayload) -> u8 {
    match p {
        TagPayload::Byte(_) => 1,
        TagPayload::Short(_) => 2,
        TagPayload::Int(_) => 3,
        TagPayload::Long(_) => 4,
        TagPayload::Float(_) => 5,
        TagPayload::Double(_) => 6,
        TagPayload::ByteArray(_) => 7,
        TagPayload::String(_) => 8,
        TagPayload::List(_, _) => 9,
        TagPayload::Compound(_) => 10,
        TagPayload::IntArray(_) => 11,
        TagPayload::LongArray(_) => 12,
    }
}

fn encode_tag(out: &mut Vec<u8>, t: &Tag) {
    out.push(type_code(&t.payload));
    out.extend_from_slice(&(t.name.len() as u16).to_be_bytes());
    out.extend_from_slice(&t.name);
    encode_payload(out, &t.payload);
}

#[test]
fn round_trip_of_hand_built_tree() {
    // Encoding a hand-built tree with a conforming encoder and decoding it
    // yields a structurally identical tree at every node.
    let tree = Tag {
        name: b"root".to_vec(),
        payload: TagPayload::Compound(vec![
            Tag {
                name: b"scalars".to_vec(),
                payload: TagPayload::Compound(vec![
                    Tag { name: b"b".to_vec(), payload: TagPayload::Byte(-7) },
                    Tag { name: b"s".to_vec(), payload: TagPayload::Short(-300) },
                    Tag { name: b"i".to_vec(), payload: TagPayload::Int(123456) },
                    Tag { name: b"l".to_vec(), payload: TagPayload::Long(-9876543210) },
                    Tag { name: b"f".to_vec(), payload: TagPayload::Float(0x4048F5C3) },
                    Tag { name: b"d".to_vec(), payload: TagPayload::Double(0x400921FB54442D18) },
                ]),
            },
            Tag {
                name: b"seqs".to_vec(),
                payload: TagPayload::Compound(vec![
                    Tag { name: b"ba".to_vec(), payload: TagPayload::ByteArray(vec![-1, 0, 1]) },
                    Tag { name: b"st".to_vec(), payload: TagPayload::String(b"hello".to_vec()) },
                    Tag {
                        name: b"li".to_vec(),
                        payload: TagPayload::List(
                            10,
                            vec![
                                TagPayload::Compound(vec![Tag {
                                    name: b"n".to_vec(),
                                    payload: TagPayload::Int(1),
                                }]),
                                TagPayload::Compound(vec![]),
                            ],
                        ),
                    },
                    Tag { name: b"el".to_vec(), payload: TagPayload::List(3, vec![]) },
                    Tag { name: b"ia".to_vec(), payload: TagPayload::IntArray(vec![1, -2, 3]) },
                    Tag { name: b"la".to_vec(), payload: TagPayload::LongArray(vec![-4, 5]) },
                ]),
            },
        ]),
    };
    let mut bytes: Vec<u8> = Vec::new();
    encode_tag(&mut bytes, &tree);
    let decoded = parse_doc(&bytes).unwrap().unwrap();
    assert_eq!(decoded, tree);
}

#[test]
fn accessors_project_matching_variants() {
    assert_eq!(TagPayload::Byte(1).as_byte(), Ok(&1i8));
    assert_eq!(TagPayload::Short(2).as_short(), Ok(&2i16));
    assert_eq!(TagPayload::Int(3).as_int(), Ok(&3i32));
    assert_eq!(TagPayload::Long(4).as_long(), Ok(&4i64));
    assert_eq!(TagPayload::Float(5).as_float_bits(), Ok(&5u32));
    assert_eq!(TagPayload::Double(6).as_double_bits(), Ok(&6u64));
    assert_eq!(TagPayload::ByteArray(vec![7]).as_byte_array(), Ok(&vec![7i8]));
    assert_eq!(TagPayload::String(b"s".to_vec()).as_string(), Ok(&b"s".to_vec()));
    assert_eq!(TagPayload::IntArray(vec![8]).as_int_array(), Ok(&vec![8i32]));
    assert_eq!(TagPayload::LongArray(vec![9]).as_long_array(), Ok(&vec![9i64]));
    let list = TagPayload::List(1, vec![TagPayload::Byte(1)]);
    assert_eq!(list.as_list(), Ok(&vec![TagPayload::Byte(1)]));
    let comp = TagPayload::Compound(vec![]);
    assert_eq!(comp.as_compound(), Ok(&vec![]));
}

#[test]
fn as_compound_on_list_is_type_mismatch() {
    // Never a silent coercion: projecting a List as a Compound is an error
    // naming both variants.
    let list = TagPayload::List(1, vec![]);
    assert_eq!(
        list.as_compound(),
        Err(NbtError::TypeMismatch { expected: 10, actual: 9 })
    );
}

#[test]
fn as_byte_on_string_is_type_mismatch() {
    let s = TagPayload::String(b"x".to_vec());
    assert_eq!(s.as_byte(), Err(NbtError::TypeMismatch { expected: 1, actual: 8 }));
}

#[test]
fn get_by_name_returns_first_match() {
    let members = vec![
        Tag { name: b"a".to_vec(), payload: TagPayload::Byte(1) },
        Tag { name: b"b".to_vec(), payload: TagPayload::Byte(2) },
        Tag { name: b"a".to_vec(), payload: TagPayload::Byte(3) },
    ];
    assert_eq!(get_by_name(&members, &b"a".to_vec()), Ok(&TagPayload::Byte(1)));
    assert_eq!(get_by_name(&members, &b"b".to_vec()), Ok(&TagPayload::Byte(2)));
}

#[test]
fn get_by_name_missing_field() {
    let members = vec![Tag { name: b"a".to_vec(), payload: TagPayload::Byte(1) }];
    assert_eq!(get_by_name(&members, &b"z".to_vec()), Err(NbtError::MissingField));
}
