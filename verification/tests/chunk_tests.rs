use luavm::chunk::{dump, undump, Constant, Header, LocVar, Tag, Upvalue, HEADER_LEN};
use luavm::error::{FormatError, HeaderField};
use luavm::reader::Reader;

fn header() -> Vec<u8> {
    let mut h = vec![0x1b, 0x4c, 0x75, 0x61, 0x53, 0, 0x19, 0x93, 0x0d, 0x0a, 0x1a, 0x0a];
    h.extend_from_slice(&[4, 8, 4, 8, 8]);
    h.extend_from_slice(&0x5678i64.to_le_bytes());
    h.extend_from_slice(&370.5f64.to_le_bytes());
    h
}

fn lua_string(s: &str) -> Vec<u8> {
    let mut out = Vec::new();
    if s.is_empty() {
        out.push(0);
    } else if s.len() + 1 < 0xff {
        out.push((s.len() + 1) as u8);
        out.extend_from_slice(s.as_bytes());
    } else {
        out.push(0xff);
        out.extend_from_slice(&((s.len() + 1) as u64).to_le_bytes());
        out.extend_from_slice(s.as_bytes());
    }
    out
}

fn count(n: u32) -> Vec<u8> {
    n.to_le_bytes().to_vec()
}

/// A prototype with the given source, code and nested prototypes, and
/// nothing else.
fn proto(source: &str, stack_size: u8, code: &[u32], nested: &[Vec<u8>]) -> Vec<u8> {
    let mut p = lua_string(source);
    p.extend_from_slice(&3u32.to_le_bytes());
    p.extend_from_slice(&9u32.to_le_bytes());
    p.extend_from_slice(&[1, 0, stack_size]);
    p.extend(count(code.len() as u32));
    for w in code {
        p.extend_from_slice(&w.to_le_bytes());
    }
    p.extend(count(0));
    p.extend(count(0));
    p.extend(count(nested.len() as u32));
    for n in nested {
        p.extend_from_slice(n);
    }
    p.extend(count(0));
    p.extend(count(0));
    p.extend(count(0));
    p
}

fn chunk(main: Vec<u8>) -> Vec<u8> {
    let mut c = header();
    c.push(1);
    c.extend(main);
    c
}

fn field_of(offset: usize) -> HeaderField {
    match offset {
        0..=3 => HeaderField::Signature,
        4 => HeaderField::Version,
        5 => HeaderField::Format,
        6..=11 => HeaderField::LuacData,
        12 => HeaderField::CintSize,
        13 => HeaderField::SizetSize,
        14 => HeaderField::InstructionSize,
        15 => HeaderField::IntegerSize,
        16 => HeaderField::NumberSize,
        17..=24 => HeaderField::LuaInteger,
        _ => HeaderField::LuaNumber,
    }
}

#[test]
fn the_header_has_the_documented_length() {
    assert_eq!(header().len(), HEADER_LEN);
    assert_eq!(HEADER_LEN, 33);
}

#[test]
fn read_header_accepts_the_required_header() {
    let h = header();
    let mut r = Reader::new(&h);
    assert_eq!(r.read_header(), Ok(()));
    assert_eq!(r.available(), 0);
}

#[test]
fn read_header_names_the_field_of_every_altered_byte() {
    for offset in 0..HEADER_LEN {
        for flip in [0x01u8, 0x80, 0xff] {
            let mut h = header();
            h[offset] ^= flip;
            let mut r = Reader::new(&h);
            assert_eq!(
                r.read_header(),
                Err(FormatError::Mismatch(field_of(offset))),
                "offset {}",
                offset
            );
        }
    }
}

#[test]
fn read_header_names_the_first_of_two_wrong_fields() {
    let mut h = header();
    h[16] = 4;
    h[5] = 1;
    let mut r = Reader::new(&h);
    assert_eq!(r.read_header(), Err(FormatError::Mismatch(HeaderField::Format)));
}

#[test]
fn a_buffer_shorter_than_the_header_is_truncated() {
    let h = header();
    for len in 0..HEADER_LEN {
        assert_eq!(undump(h[..len].to_vec()), Err(FormatError::Truncated), "length {}", len);
        assert_eq!(dump(&h[..len]), None);
    }
}

#[test]
fn a_short_buffer_is_truncated_even_where_its_bytes_are_wrong() {
    let garbage = vec![0u8; 20];
    assert_eq!(undump(garbage), Err(FormatError::Truncated));
}

#[test]
fn a_header_alone_lacks_the_byte_behind_it() {
    assert_eq!(undump(header()), Err(FormatError::Truncated));
}

#[test]
fn header_check_names_the_first_mismatch() {
    assert_eq!(Header::new_default().check(), None);
    let mut h = Header::new_default();
    h.lua_number = 370.25f64.to_bits();
    assert_eq!(h.check(), Some(HeaderField::LuaNumber));
    h.version = 0x52;
    assert_eq!(h.check(), Some(HeaderField::Version));
    let built = Header::new(
        [0x1b, 0x4c, 0x75, 0x61],
        0x53,
        0,
        [0x19, 0x93, 0x0d, 0x0a, 0x1a, 0x0a],
        4,
        8,
        4,
        8,
        8,
        0x5678,
        370.5f64.to_bits(),
    );
    assert_eq!(built.check(), None);
    assert_eq!(built.lua_integer, 0x5678);
    assert_eq!(built.signature, [0x1b, 0x4c, 0x75, 0x61]);
}

#[test]
fn decoding_an_empty_function() {
    let p = undump(chunk(proto("@main.lua", 2, &[], &[]))).unwrap();
    assert_eq!(p.source, "@main.lua");
    assert_eq!(p.line_defined, 3);
    assert_eq!(p.last_line_defined, 9);
    assert_eq!(p.num_params, 1);
    assert_eq!(p.is_var_arg, 0);
    assert_eq!(p.stack_size, 2);
    assert!(p.code.is_empty());
    assert!(p.constants.is_empty());
    assert!(p.upval.is_empty());
    assert!(p.protos.is_empty());
    assert!(p.line_info.is_empty());
    assert!(p.loc_vars.is_empty());
    assert!(p.upvalue_names.is_empty());
}

#[test]
fn decoding_every_part_of_a_function() {
    let mut p = lua_string("@all.lua");
    p.extend_from_slice(&10u32.to_le_bytes());
    p.extend_from_slice(&20u32.to_le_bytes());
    p.extend_from_slice(&[2, 1, 7]);
    p.extend(count(2));
    p.extend_from_slice(&0x0040_0001u32.to_le_bytes());
    p.extend_from_slice(&0x0080_0026u32.to_le_bytes());
    p.extend(count(7));
    p.push(0);
    p.extend_from_slice(&[1, 0]);
    p.extend_from_slice(&[1, 2]);
    p.push(3);
    p.extend_from_slice(&1.5f64.to_le_bytes());
    p.push(0x13);
    p.extend_from_slice(&(-42i64).to_le_bytes());
    p.push(4);
    p.extend(lua_string("short"));
    p.push(0x14);
    p.extend(lua_string("long"));
    p.extend(count(2));
    p.extend_from_slice(&[1, 0, 0, 3]);
    p.extend(count(0));
    p.extend(count(2));
    p.extend_from_slice(&1u32.to_le_bytes());
    p.extend_from_slice(&2u32.to_le_bytes());
    p.extend(count(1));
    p.extend(lua_string("x"));
    p.extend_from_slice(&0u32.to_le_bytes());
    p.extend_from_slice(&2u32.to_le_bytes());
    p.extend(count(1));
    p.extend(lua_string("_ENV"));

    let got = undump(chunk(p)).unwrap();
    assert_eq!(got.source, "@all.lua");
    assert_eq!(got.line_defined, 10);
    assert_eq!(got.last_line_defined, 20);
    assert_eq!((got.num_params, got.is_var_arg, got.stack_size), (2, 1, 7));
    assert_eq!(got.code, vec![0x0040_0001, 0x0080_0026]);
    assert_eq!(
        got.constants,
        vec![
            Constant::Nil,
            Constant::Boolean(false),
            Constant::Boolean(true),
            Constant::Number(1.5f64.to_bits()),
            Constant::Integer(-42),
            Constant::SString("short".to_string()),
            Constant::LString("long".to_string()),
        ]
    );
    assert_eq!(
        got.upval,
        vec![Upvalue { instack: 1, idx: 0 }, Upvalue { instack: 0, idx: 3 }]
    );
    assert_eq!(got.line_info, vec![1, 2]);
    assert_eq!(
        got.loc_vars,
        vec![LocVar { var_name: "x".to_string(), start_pc: 0, end_pc: 2 }]
    );
    assert_eq!(got.upvalue_names, vec!["_ENV".to_string()]);
}

#[test]
fn nested_functions_take_the_source_of_the_one_around_them() {
    let innermost = proto("", 2, &[7], &[]);
    let inner = proto("", 3, &[5, 6], &[innermost]);
    let named = proto("@other.lua", 4, &[], &[]);
    let got = undump(chunk(proto("@outer.lua", 5, &[1], &[inner, named]))).unwrap();
    assert_eq!(got.source, "@outer.lua");
    assert_eq!(got.protos.len(), 2);
    assert_eq!(got.protos[0].source, "@outer.lua");
    assert_eq!(got.protos[0].code, vec![5, 6]);
    assert_eq!(got.protos[0].protos.len(), 1);
    assert_eq!(got.protos[0].protos[0].source, "@outer.lua");
    assert_eq!(got.protos[0].protos[0].code, vec![7]);
    assert_eq!(got.protos[1].source, "@other.lua");
}

#[test]
fn a_main_function_without_a_source_has_the_empty_source() {
    let got = undump(chunk(proto("", 2, &[], &[proto("", 2, &[], &[])]))).unwrap();
    assert_eq!(got.source, "");
    assert_eq!(got.protos[0].source, "");
}

#[test]
fn a_chunk_cut_anywhere_is_truncated() {
    let whole = chunk(proto("@cut.lua", 2, &[1, 2, 3], &[proto("", 2, &[4], &[])]));
    assert!(undump(whole.clone()).is_ok());
    for len in 0..whole.len() {
        assert_eq!(undump(whole[..len].to_vec()), Err(FormatError::Truncated), "length {}", len);
    }
}

#[test]
fn bytes_behind_the_main_function_are_not_read() {
    let mut whole = chunk(proto("@tail.lua", 2, &[], &[]));
    whole.extend_from_slice(&[0xde, 0xad]);
    assert_eq!(undump(whole).unwrap().source, "@tail.lua");
}

#[test]
fn a_count_beyond_the_buffer_is_truncated() {
    let mut p = lua_string("@big.lua");
    p.extend_from_slice(&[0; 8]);
    p.extend_from_slice(&[0, 0, 2]);
    p.extend(count(u32::MAX));
    p.extend_from_slice(&[0; 64]);
    assert_eq!(undump(chunk(p)), Err(FormatError::Truncated));
}

#[test]
fn a_source_that_is_not_utf8_is_refused() {
    let mut c = header();
    c.push(0);
    c.extend_from_slice(&[3, 0xc3, 0x28]);
    c.extend_from_slice(&[0; 64]);
    assert_eq!(undump(c.clone()), Err(FormatError::InvalidUtf8));
    assert_eq!(dump(&c), None);
}

#[test]
fn dump_gives_what_undump_gives() {
    let bytes = chunk(proto("@same.lua", 2, &[1, 2], &[]));
    assert_eq!(dump(&bytes), Some(undump(bytes.clone()).unwrap()));
    let mut bad = bytes.clone();
    bad[4] = 0x54;
    assert_eq!(dump(&bad), None);
    assert_eq!(undump(bad), Err(FormatError::Mismatch(HeaderField::Version)));
}

#[test]
fn read_tag_takes_an_unknown_byte_for_nil() {
    let data = [0u8, 1, 3, 4, 0x13, 0x14, 2, 0xff];
    let mut r = Reader::new(&data);
    assert_eq!(r.read_tag(), Ok(Tag::Nil));
    assert_eq!(r.read_tag(), Ok(Tag::Boolean));
    assert_eq!(r.read_tag(), Ok(Tag::Number));
    assert_eq!(r.read_tag(), Ok(Tag::ShortString));
    assert_eq!(r.read_tag(), Ok(Tag::Integer));
    assert_eq!(r.read_tag(), Ok(Tag::LongString));
    assert_eq!(r.read_tag(), Ok(Tag::Nil));
    assert_eq!(r.read_tag(), Ok(Tag::Nil));
    assert_eq!(r.read_tag(), Err(FormatError::Truncated));
}

#[test]
fn the_list_readers_read_a_count_and_that_many_items() {
    let mut data = count(2);
    data.extend_from_slice(&7u32.to_le_bytes());
    data.extend_from_slice(&8u32.to_le_bytes());
    let mut r = Reader::new(&data);
    assert_eq!(r.read_code(), Ok(vec![7, 8]));
    let mut r = Reader::new(&data);
    assert_eq!(r.read_line_info(), Ok(vec![7, 8]));

    let mut data = count(1);
    data.extend_from_slice(&[1, 9]);
    let mut r = Reader::new(&data);
    assert_eq!(r.read_upvalue(), Ok(vec![Upvalue { instack: 1, idx: 9 }]));

    let mut data = count(2);
    data.extend(lua_string("a"));
    data.extend(lua_string(""));
    let mut r = Reader::new(&data);
    assert_eq!(r.read_upvalue_names(), Ok(vec!["a".to_string(), String::new()]));

    let mut data = count(1);
    data.extend(lua_string("i"));
    data.extend_from_slice(&4u32.to_le_bytes());
    data.extend_from_slice(&6u32.to_le_bytes());
    let mut r = Reader::new(&data);
    assert_eq!(
        r.read_local_vars(),
        Ok(vec![LocVar { var_name: "i".to_string(), start_pc: 4, end_pc: 6 }])
    );

    let mut data = count(2);
    data.push(0x13);
    data.extend_from_slice(&5i64.to_le_bytes());
    data.push(9);
    let mut r = Reader::new(&data);
    assert_eq!(r.read_constans(), Ok(vec![Constant::Integer(5), Constant::Nil]));

    let empty = count(0);
    let mut r = Reader::new(&empty);
    assert_eq!(r.read_code(), Ok(vec![]));
    let mut r = Reader::new(&empty);
    assert_eq!(r.read_protos("x"), Ok(vec![]));
}

#[test]
fn read_constant_reads_the_payload_of_its_tag() {
    let mut data = vec![3u8];
    data.extend_from_slice(&(-0.5f64).to_le_bytes());
    let mut r = Reader::new(&data);
    assert_eq!(r.read_constant(), Ok(Constant::Number((-0.5f64).to_bits())));
    let data = [1u8];
    let mut r = Reader::new(&data);
    assert_eq!(r.read_constant(), Err(FormatError::Truncated));
    let data = [1u8, 5];
    let mut r = Reader::new(&data);
    assert_eq!(r.read_constant(), Ok(Constant::Boolean(true)));
}

#[test]
fn read_proto_takes_the_parent_source_for_an_empty_one() {
    let bytes = proto("", 2, &[], &[]);
    let mut r = Reader::new(&bytes);
    assert_eq!(r.read_proto("@parent.lua").unwrap().source, "@parent.lua");
    let bytes = proto("@own.lua", 2, &[], &[]);
    let mut r = Reader::new(&bytes);
    assert_eq!(r.read_proto("@parent.lua").unwrap().source, "@own.lua");
}

#[test]
fn a_refused_read_leaves_the_reader_where_it_was() {
    let mut bad = header();
    bad[20] = 1;
    bad.push(7);
    let mut r = Reader::new(&bad);
    assert_eq!(r.read_header(), Err(FormatError::Mismatch(HeaderField::LuaInteger)));
    assert_eq!(r.available(), HEADER_LEN + 1);
    assert_eq!(r.read_byte(), Ok(0x1b));

    let whole = proto("@cut.lua", 2, &[1, 2, 3], &[proto("", 2, &[4], &[])]);
    let cut = &whole[..whole.len() - 3];
    let mut r = Reader::new(cut);
    assert_eq!(r.read_proto(""), Err(FormatError::Truncated));
    assert_eq!(r.available(), cut.len());
    assert_eq!(r.read_string(), Ok("@cut.lua".to_string()));

    let mut list = count(3);
    list.extend_from_slice(&[1, 2, 3, 4, 5]);
    let mut r = Reader::new(&list);
    assert_eq!(r.read_upvalue(), Err(FormatError::Truncated));
    assert_eq!(r.available(), list.len());
    assert_eq!(r.read_code(), Err(FormatError::Truncated));
    assert_eq!(r.read_constans(), Err(FormatError::Truncated));
    assert_eq!(r.read_local_vars(), Err(FormatError::Truncated));
    assert_eq!(r.read_upvalue_names(), Err(FormatError::Truncated));
    assert_eq!(r.available(), list.len());
    assert_eq!(r.read_u32(), Ok(3));

    let mut names = count(2);
    names.extend(lua_string("ok"));
    names.extend_from_slice(&[2, 0xff]);
    let mut r = Reader::new(&names);
    assert_eq!(r.read_upvalue_names(), Err(FormatError::InvalidUtf8));
    assert_eq!(r.available(), names.len());
}
