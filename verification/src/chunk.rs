//! The binary chunk format: the fixed header and the tree of function
//! prototypes behind it.

use vstd::prelude::*;
use crate::error::{FormatError, HeaderField};
use crate::reader::{can_read, le_i64_at, le_u16_at, le_u32_at, le_u64_at, string_at, Reader};

verus! {

/// What a successful parse at some position yields: the value and the
/// position behind it.
pub type Parsed<T> = Result<(T, int), FormatError>;

pub const TAG_NIL: u8 = 0;

pub const TAG_BOOLEAN: u8 = 1;

pub const TAG_NUMBER: u8 = 3;

pub const TAG_SHORT_STR: u8 = 4;

pub const TAG_INTEGER: u8 = 0x13;

pub const TAG_LONG_STR: u8 = 0x14;

/// The number of bytes of the fixed header.
pub const HEADER_LEN: usize = 33;

/// The bit pattern of the double 370.5, which the header carries to show the
/// float format of the machine that wrote the chunk.
pub const LUAC_NUM_BITS: u64 = 0x4077_2800_0000_0000;

/// The integer that the header carries to show the byte order.
pub const LUAC_INT: i64 = 0x5678;

/// The kind of a constant, as its tag byte tells it.
#[derive(Clone, Copy, Debug, PartialEq, Eq, Structural)]
pub enum Tag {
    Nil,
    Boolean,
    Number,
    ShortString,
    Integer,
    LongString,
}

/// The kind that a tag byte stands for. A byte that is no known tag stands
/// for nil.
pub open spec fn tag_of(b: u8) -> Tag {
    if b == TAG_BOOLEAN {
        Tag::Boolean
    } else if b == TAG_NUMBER {
        Tag::Number
    } else if b == TAG_SHORT_STR {
        Tag::ShortString
    } else if b == TAG_INTEGER {
        Tag::Integer
    } else if b == TAG_LONG_STR {
        Tag::LongString
    } else {
        Tag::Nil
    }
}

/// The fixed header of a chunk. The float is held as its bit pattern.
#[derive(Clone, Copy, Debug)]
pub struct Header {
    pub signature: [u8; 4],
    pub version: u8,
    pub format: u8,
    pub luac_data: [u8; 6],
    pub cint_size: u8,
    pub size_t_size: u8,
    pub instruction_size: u8,
    pub integer_size: u8,
    pub number_size: u8,
    pub lua_integer: i64,
    pub lua_number: u64,
}

/// The signature that every chunk starts with.
pub open spec fn signature_bytes() -> Seq<u8> {
    seq![0x1bu8, 0x4cu8, 0x75u8, 0x61u8]
}

/// The bytes that show whether a transfer has mangled line ends.
pub open spec fn luac_data_bytes() -> Seq<u8> {
    seq![0x19u8, 0x93u8, 0x0du8, 0x0au8, 0x1au8, 0x0au8]
}

/// The offset of a field from the start of the header.
pub open spec fn field_offset(f: HeaderField) -> int {
    match f {
        HeaderField::Signature => 0,
        HeaderField::Version => 4,
        HeaderField::Format => 5,
        HeaderField::LuacData => 6,
        HeaderField::CintSize => 12,
        HeaderField::SizetSize => 13,
        HeaderField::InstructionSize => 14,
        HeaderField::IntegerSize => 15,
        HeaderField::NumberSize => 16,
        HeaderField::LuaInteger => 17,
        HeaderField::LuaNumber => 25,
    }
}

/// The number of bytes of a field.
pub open spec fn field_width(f: HeaderField) -> int {
    match f {
        HeaderField::Signature => 4,
        HeaderField::LuacData => 6,
        HeaderField::LuaInteger => 8,
        HeaderField::LuaNumber => 8,
        _ => 1,
    }
}

/// The field that the header byte at offset `k` belongs to.
pub open spec fn field_of_offset(k: int) -> HeaderField {
    if k < 4 {
        HeaderField::Signature
    } else if k == 4 {
        HeaderField::Version
    } else if k == 5 {
        HeaderField::Format
    } else if k < 12 {
        HeaderField::LuacData
    } else if k == 12 {
        HeaderField::CintSize
    } else if k == 13 {
        HeaderField::SizetSize
    } else if k == 14 {
        HeaderField::InstructionSize
    } else if k == 15 {
        HeaderField::IntegerSize
    } else if k == 16 {
        HeaderField::NumberSize
    } else if k < 25 {
        HeaderField::LuaInteger
    } else {
        HeaderField::LuaNumber
    }
}

/// Whether field `f` of the header that starts at `pos` holds the value that
/// this decoder requires.
pub open spec fn field_ok(bytes: Seq<u8>, pos: int, f: HeaderField) -> bool {
    let at = pos + field_offset(f);
    match f {
        HeaderField::Signature => bytes.subrange(at, at + 4) == signature_bytes(),
        HeaderField::Version => bytes[at] == 0x53,
        HeaderField::Format => bytes[at] == 0,
        HeaderField::LuacData => bytes.subrange(at, at + 6) == luac_data_bytes(),
        HeaderField::CintSize => bytes[at] == 4,
        HeaderField::SizetSize => bytes[at] == 8,
        HeaderField::InstructionSize => bytes[at] == 4,
        HeaderField::IntegerSize => bytes[at] == 8,
        HeaderField::NumberSize => bytes[at] == 8,
        HeaderField::LuaInteger => le_i64_at(bytes, at) == LUAC_INT,
        HeaderField::LuaNumber => le_u64_at(bytes, at) == LUAC_NUM_BITS,
    }
}

/// The verdict on the header at `pos`: a buffer too short for a header is
/// truncated; otherwise the first field that differs is named.
#[verifier::opaque]
pub open spec fn header_at(bytes: Seq<u8>, pos: int) -> Result<(), FormatError> {
    if !can_read(bytes, pos, HEADER_LEN as int) {
        Err(FormatError::Truncated)
    } else if !field_ok(bytes, pos, HeaderField::Signature) {
        Err(FormatError::Mismatch(HeaderField::Signature))
    } else if !field_ok(bytes, pos, HeaderField::Version) {
        Err(FormatError::Mismatch(HeaderField::Version))
    } else if !field_ok(bytes, pos, HeaderField::Format) {
        Err(FormatError::Mismatch(HeaderField::Format))
    } else if !field_ok(bytes, pos, HeaderField::LuacData) {
        Err(FormatError::Mismatch(HeaderField::LuacData))
    } else if !field_ok(bytes, pos, HeaderField::CintSize) {
        Err(FormatError::Mismatch(HeaderField::CintSize))
    } else if !field_ok(bytes, pos, HeaderField::SizetSize) {
        Err(FormatError::Mismatch(HeaderField::SizetSize))
    } else if !field_ok(bytes, pos, HeaderField::InstructionSize) {
        Err(FormatError::Mismatch(HeaderField::InstructionSize))
    } else if !field_ok(bytes, pos, HeaderField::IntegerSize) {
        Err(FormatError::Mismatch(HeaderField::IntegerSize))
    } else if !field_ok(bytes, pos, HeaderField::NumberSize) {
        Err(FormatError::Mismatch(HeaderField::NumberSize))
    } else if !field_ok(bytes, pos, HeaderField::LuaInteger) {
        Err(FormatError::Mismatch(HeaderField::LuaInteger))
    } else if !field_ok(bytes, pos, HeaderField::LuaNumber) {
        Err(FormatError::Mismatch(HeaderField::LuaNumber))
    } else {
        Ok(())
    }
}

/// The bytes of the header that this decoder requires.
pub open spec fn header_bytes() -> Seq<u8> {
    seq![
        0x1bu8, 0x4cu8, 0x75u8, 0x61u8, 0x53u8, 0u8, 0x19u8, 0x93u8, 0x0du8, 0x0au8, 0x1au8,
        0x0au8, 4u8, 8u8, 4u8, 8u8, 8u8, 0x78u8, 0x56u8, 0u8, 0u8, 0u8, 0u8, 0u8, 0u8, 0u8, 0u8,
        0u8, 0u8, 0u8, 0x28u8, 0x77u8, 0x40u8,
    ]
}

/// Whether the `HEADER_LEN` bytes at `pos` are the required header.
pub open spec fn holds_header(bytes: Seq<u8>, pos: int) -> bool {
    &&& can_read(bytes, pos, HEADER_LEN as int)
    &&& bytes.subrange(pos, pos + HEADER_LEN) == header_bytes()
}

proof fn lemma_header_bytes(bytes: Seq<u8>, pos: int)
    requires
        can_read(bytes, pos, HEADER_LEN as int),
    ensures
        holds_header(bytes, pos) <==> (forall|k: int|
            0 <= k < HEADER_LEN ==> bytes[pos + k] == #[trigger] header_bytes()[k]),
        header_bytes().len() == HEADER_LEN,
{
    let window = bytes.subrange(pos, pos + HEADER_LEN);
    if holds_header(bytes, pos) {
        assert forall|k: int| 0 <= k < HEADER_LEN implies bytes[pos + k]
            == #[trigger] header_bytes()[k] by {
            assert(window[k] == bytes[pos + k]);
        }
    }
    if forall|k: int| 0 <= k < HEADER_LEN ==> bytes[pos + k] == #[trigger] header_bytes()[k] {
        assert(window =~= header_bytes());
    }
}

/// Two little-endian numbers of two bytes are equal exactly if their bytes
/// are.
proof fn lemma_le_u16_unique(a: Seq<u8>, i: int, b: Seq<u8>, j: int)
    ensures
        0 <= le_u16_at(a, i) < 0x1_0000,
        le_u16_at(a, i) == le_u16_at(b, j) <==> (a[i] == b[j] && a[i + 1] == b[j + 1]),
{
}

/// Two little-endian numbers of four bytes are equal exactly if their halves
/// are.
proof fn lemma_le_u32_unique(a: Seq<u8>, i: int, b: Seq<u8>, j: int)
    ensures
        0 <= le_u32_at(a, i) < 0x1_0000_0000,
        le_u32_at(a, i) == le_u32_at(b, j) <==> (le_u16_at(a, i) == le_u16_at(b, j) && le_u16_at(
            a,
            i + 2,
        ) == le_u16_at(b, j + 2)),
{
    lemma_le_u16_unique(a, i, b, j);
    lemma_le_u16_unique(a, i + 2, b, j + 2);
    lemma_le_u16_unique(b, j, a, i);
    lemma_le_u16_unique(b, j + 2, a, i + 2);
}

/// Two little-endian numbers of eight bytes are equal exactly if their
/// halves are.
proof fn lemma_le_u64_halves(a: Seq<u8>, i: int, b: Seq<u8>, j: int)
    ensures
        le_u64_at(a, i) == le_u64_at(b, j) <==> (le_u32_at(a, i) == le_u32_at(b, j) && le_u32_at(
            a,
            i + 4,
        ) == le_u32_at(b, j + 4)),
{
    lemma_le_u32_unique(a, i, b, j);
    lemma_le_u32_unique(a, i + 4, b, j + 4);
    lemma_le_u32_unique(b, j, a, i);
    lemma_le_u32_unique(b, j + 4, a, i + 4);
}

/// Two little-endian numbers of eight bytes are equal exactly if their bytes
/// are.
#[verifier::rlimit(50)]
proof fn lemma_le_u64_unique(a: Seq<u8>, i: int, b: Seq<u8>, j: int)
    ensures
        le_u64_at(a, i) == le_u64_at(b, j) <==> (forall|k: int|
            0 <= k < 8 ==> a[i + k] == #[trigger] b[j + k]),
{
    lemma_le_u64_halves(a, i, b, j);
    lemma_le_u32_unique(a, i, b, j);
    lemma_le_u32_unique(a, i + 4, b, j + 4);
    lemma_le_u16_unique(a, i, b, j);
    lemma_le_u16_unique(a, i + 2, b, j + 2);
    lemma_le_u16_unique(a, i + 4, b, j + 4);
    lemma_le_u16_unique(a, i + 6, b, j + 6);
    let bytewise = a[i] == b[j] && a[i + 1] == b[j + 1] && a[i + 2] == b[j + 2] && a[i + 3] == b[j
        + 3] && a[i + 4] == b[j + 4] && a[i + 5] == b[j + 5] && a[i + 6] == b[j + 6] && a[i + 7]
        == b[j + 7];
    assert(le_u64_at(a, i) == le_u64_at(b, j) <==> bytewise);
    if bytewise {
        assert forall|k: int| 0 <= k < 8 implies a[i + k] == #[trigger] b[j + k] by {
            if k == 0 {
            } else if k == 1 {
            } else if k == 2 {
            } else if k == 3 {
            } else if k == 4 {
            } else if k == 5 {
            } else if k == 6 {
            } else {
            }
        }
    }
    if forall|k: int| 0 <= k < 8 ==> a[i + k] == #[trigger] b[j + k] {
        assert(a[i + 0] == b[j + 0]);
        assert(a[i + 1] == b[j + 1]);
        assert(a[i + 2] == b[j + 2]);
        assert(a[i + 3] == b[j + 3]);
        assert(a[i + 4] == b[j + 4]);
        assert(a[i + 5] == b[j + 5]);
        assert(a[i + 6] == b[j + 6]);
        assert(a[i + 7] == b[j + 7]);
    }
}

/// The two numbers of the required header, read from its bytes.
#[verifier::rlimit(50)]
proof fn lemma_header_numbers()
    ensures
        header_bytes().len() == HEADER_LEN,
        le_u64_at(header_bytes(), 17) == LUAC_INT,
        le_u64_at(header_bytes(), 25) == LUAC_NUM_BITS,
{
    let h = header_bytes();
    assert(le_u16_at(h, 17) == 0x5678 && le_u16_at(h, 19) == 0 && le_u16_at(h, 21) == 0
        && le_u16_at(h, 23) == 0);
    assert(le_u16_at(h, 25) == 0 && le_u16_at(h, 27) == 0 && le_u16_at(h, 29) == 0x2800
        && le_u16_at(h, 31) == 0x4077);
}

#[verifier::rlimit(50)]
proof fn lemma_number_fields(bytes: Seq<u8>, pos: int)
    requires
        can_read(bytes, pos, HEADER_LEN as int),
    ensures
        field_ok(bytes, pos, HeaderField::LuaInteger) <==> (forall|k: int|
            17 <= k < 25 ==> bytes[pos + k] == #[trigger] header_bytes()[k]),
        field_ok(bytes, pos, HeaderField::LuaNumber) <==> (forall|k: int|
            25 <= k < 33 ==> bytes[pos + k] == #[trigger] header_bytes()[k]),
{
    let h = header_bytes();
    lemma_header_numbers();
    lemma_le_u64_unique(bytes, pos + 17, h, 17);
    lemma_le_u64_unique(bytes, pos + 25, h, 25);
    assert(field_ok(bytes, pos, HeaderField::LuaInteger) <==> le_u64_at(bytes, pos + 17)
        == le_u64_at(h, 17));
    assert(field_ok(bytes, pos, HeaderField::LuaNumber) <==> le_u64_at(bytes, pos + 25)
        == le_u64_at(h, 25));
    if forall|k: int| 0 <= k < 8 ==> bytes[pos + 17 + k] == #[trigger] h[17 + k] {
        assert forall|k: int| 17 <= k < 25 implies bytes[pos + k] == #[trigger] h[k] by {
            assert(bytes[pos + 17 + (k - 17)] == h[17 + (k - 17)]);
        }
    }
    if forall|k: int| 17 <= k < 25 ==> bytes[pos + k] == #[trigger] h[k] {
        assert forall|k: int| 0 <= k < 8 implies bytes[pos + 17 + k] == #[trigger] h[17 + k] by {
            assert(bytes[pos + (17 + k)] == h[17 + k]);
        }
    }
    if forall|k: int| 0 <= k < 8 ==> bytes[pos + 25 + k] == #[trigger] h[25 + k] {
        assert forall|k: int| 25 <= k < 33 implies bytes[pos + k] == #[trigger] h[k] by {
            assert(bytes[pos + 25 + (k - 25)] == h[25 + (k - 25)]);
        }
    }
    if forall|k: int| 25 <= k < 33 ==> bytes[pos + k] == #[trigger] h[k] {
        assert forall|k: int| 0 <= k < 8 implies bytes[pos + 25 + k] == #[trigger] h[25 + k] by {
            assert(bytes[pos + (25 + k)] == h[25 + k]);
        }
    }
}

#[verifier::rlimit(50)]
proof fn lemma_byte_fields(bytes: Seq<u8>, pos: int)
    requires
        can_read(bytes, pos, HEADER_LEN as int),
    ensures
        field_ok(bytes, pos, HeaderField::Signature) <==> (forall|k: int|
            0 <= k < 4 ==> bytes[pos + k] == #[trigger] header_bytes()[k]),
        field_ok(bytes, pos, HeaderField::Version) <==> bytes[pos + 4] == header_bytes()[4],
        field_ok(bytes, pos, HeaderField::Format) <==> bytes[pos + 5] == header_bytes()[5],
        field_ok(bytes, pos, HeaderField::LuacData) <==> (forall|k: int|
            6 <= k < 12 ==> bytes[pos + k] == #[trigger] header_bytes()[k]),
        field_ok(bytes, pos, HeaderField::CintSize) <==> bytes[pos + 12] == header_bytes()[12],
        field_ok(bytes, pos, HeaderField::SizetSize) <==> bytes[pos + 13] == header_bytes()[13],
        field_ok(bytes, pos, HeaderField::InstructionSize) <==> bytes[pos + 14]
            == header_bytes()[14],
        field_ok(bytes, pos, HeaderField::IntegerSize) <==> bytes[pos + 15] == header_bytes()[15],
        field_ok(bytes, pos, HeaderField::NumberSize) <==> bytes[pos + 16] == header_bytes()[16],
{
    let sig = bytes.subrange(pos, pos + 4);
    let data = bytes.subrange(pos + 6, pos + 12);
    if sig == signature_bytes() {
        assert forall|k: int| 0 <= k < 4 implies bytes[pos + k] == #[trigger] header_bytes()[k] by {
            assert(sig[k] == bytes[pos + k]);
        }
    }
    if forall|k: int| 0 <= k < 4 ==> bytes[pos + k] == #[trigger] header_bytes()[k] {
        assert forall|k: int| 0 <= k < 4 implies sig[k] == signature_bytes()[k] by {
            assert(bytes[pos + k] == header_bytes()[k]);
        }
        assert(sig =~= signature_bytes());
    }
    if data == luac_data_bytes() {
        assert forall|k: int| 6 <= k < 12 implies bytes[pos + k] == #[trigger] header_bytes()[
            k
        ] by {
            assert(data[k - 6] == bytes[pos + k]);
        }
    }
    if forall|k: int| 6 <= k < 12 ==> bytes[pos + k] == #[trigger] header_bytes()[k] {
        assert forall|k: int| 0 <= k < 6 implies data[k] == luac_data_bytes()[k] by {
            assert(bytes[pos + (k + 6)] == header_bytes()[k + 6]);
        }
        assert(data =~= luac_data_bytes());
    }
}

proof fn lemma_fields_of_header(bytes: Seq<u8>, pos: int)
    requires
        can_read(bytes, pos, HEADER_LEN as int),
    ensures
        field_ok(bytes, pos, HeaderField::Signature) <==> (forall|k: int|
            0 <= k < 4 ==> bytes[pos + k] == #[trigger] header_bytes()[k]),
        field_ok(bytes, pos, HeaderField::Version) <==> bytes[pos + 4] == header_bytes()[4],
        field_ok(bytes, pos, HeaderField::Format) <==> bytes[pos + 5] == header_bytes()[5],
        field_ok(bytes, pos, HeaderField::LuacData) <==> (forall|k: int|
            6 <= k < 12 ==> bytes[pos + k] == #[trigger] header_bytes()[k]),
        field_ok(bytes, pos, HeaderField::CintSize) <==> bytes[pos + 12] == header_bytes()[12],
        field_ok(bytes, pos, HeaderField::SizetSize) <==> bytes[pos + 13] == header_bytes()[13],
        field_ok(bytes, pos, HeaderField::InstructionSize) <==> bytes[pos + 14]
            == header_bytes()[14],
        field_ok(bytes, pos, HeaderField::IntegerSize) <==> bytes[pos + 15] == header_bytes()[15],
        field_ok(bytes, pos, HeaderField::NumberSize) <==> bytes[pos + 16] == header_bytes()[16],
        field_ok(bytes, pos, HeaderField::LuaInteger) <==> (forall|k: int|
            17 <= k < 25 ==> bytes[pos + k] == #[trigger] header_bytes()[k]),
        field_ok(bytes, pos, HeaderField::LuaNumber) <==> (forall|k: int|
            25 <= k < 33 ==> bytes[pos + k] == #[trigger] header_bytes()[k]),
{
    lemma_byte_fields(bytes, pos);
    lemma_number_fields(bytes, pos);
}

/// The header check passes on exactly the buffers that hold the required
/// header, byte for byte.
#[verifier::rlimit(50)]
pub proof fn lemma_header_accepts_exactly(bytes: Seq<u8>, pos: int)
    ensures
        header_at(bytes, pos) is Ok <==> holds_header(bytes, pos),
{
    reveal(header_at);
    if can_read(bytes, pos, HEADER_LEN as int) {
        lemma_header_bytes(bytes, pos);
        lemma_fields_of_header(bytes, pos);
    }
}

/// Where a buffer holds the required header, a change to any one byte of it
/// makes the check fail and name the field that the byte belongs to.
#[verifier::rlimit(50)]
pub proof fn lemma_header_names_altered_field(bytes: Seq<u8>, pos: int, k: int, b: u8)
    requires
        holds_header(bytes, pos),
        0 <= k < HEADER_LEN,
        b != bytes[pos + k],
    ensures
        header_at(bytes.update(pos + k, b), pos) == Err::<(), FormatError>(
            FormatError::Mismatch(field_of_offset(k)),
        ),
{
    reveal(header_at);
    let altered = bytes.update(pos + k, b);
    lemma_header_bytes(bytes, pos);
    lemma_fields_of_header(altered, pos);
    assert forall|j: int| 0 <= j < HEADER_LEN && j != k implies altered[pos + j]
        == #[trigger] header_bytes()[j] by {
        assert(bytes[pos + j] == header_bytes()[j]);
    }
    assert(altered[pos + k] != header_bytes()[k]) by {
        assert(bytes[pos + k] == header_bytes()[k]);
    }
}

impl Header {
    /// The header that this decoder requires.
    pub fn new_default() -> (h: Self)
        ensures
            h.signature@ == signature_bytes(),
            h.version == 0x53,
            h.format == 0,
            h.luac_data@ == luac_data_bytes(),
            h.cint_size == 4,
            h.size_t_size == 8,
            h.instruction_size == 4,
            h.integer_size == 8,
            h.number_size == 8,
            h.lua_integer == LUAC_INT,
            h.lua_number == LUAC_NUM_BITS,
            h.first_mismatch() is None,
    {
        let h = Self {
            signature: [0x1b, 0x4c, 0x75, 0x61],
            version: 0x53,
            format: 0,
            luac_data: [0x19, 0x93, 0x0D, 0x0A, 0x1A, 0x0A],
            cint_size: 4,
            size_t_size: 8,
            instruction_size: 4,
            integer_size: 8,
            number_size: 8,
            lua_integer: LUAC_INT,
            lua_number: LUAC_NUM_BITS,
        };
        assert(h.signature@ =~= signature_bytes());
        assert(h.luac_data@ =~= luac_data_bytes());
        h
    }

    pub fn new(
        signature: [u8; 4],
        version: u8,
        format: u8,
        luac_data: [u8; 6],
        cint_size: u8,
        size_t_size: u8,
        instruction_size: u8,
        integer_size: u8,
        number_size: u8,
        lua_integer: i64,
        lua_number: u64,
    ) -> (h: Self)
        ensures
            h == (Header {
                signature,
                version,
                format,
                luac_data,
                cint_size,
                size_t_size,
                instruction_size,
                integer_size,
                number_size,
                lua_integer,
                lua_number,
            }),
    {
        Self {
            signature,
            version,
            format,
            luac_data,
            cint_size,
            size_t_size,
            instruction_size,
            integer_size,
            number_size,
            lua_integer,
            lua_number,
        }
    }

    /// The first field, in the order of the layout, whose value is not the
    /// required one.
    pub open spec fn first_mismatch(&self) -> Option<HeaderField> {
        if self.signature@ != signature_bytes() {
            Some(HeaderField::Signature)
        } else if self.version != 0x53 {
            Some(HeaderField::Version)
        } else if self.format != 0 {
            Some(HeaderField::Format)
        } else if self.luac_data@ != luac_data_bytes() {
            Some(HeaderField::LuacData)
        } else if self.cint_size != 4 {
            Some(HeaderField::CintSize)
        } else if self.size_t_size != 8 {
            Some(HeaderField::SizetSize)
        } else if self.instruction_size != 4 {
            Some(HeaderField::InstructionSize)
        } else if self.integer_size != 8 {
            Some(HeaderField::IntegerSize)
        } else if self.number_size != 8 {
            Some(HeaderField::NumberSize)
        } else if self.lua_integer != LUAC_INT {
            Some(HeaderField::LuaInteger)
        } else if self.lua_number != LUAC_NUM_BITS {
            Some(HeaderField::LuaNumber)
        } else {
            None
        }
    }

    /// Compares the header with the required one, field by field.
    pub fn check(&self) -> (r: Option<HeaderField>)
        ensures
            r == self.first_mismatch(),
    {
        let s = &self.signature;
        let d = &self.luac_data;
        if !(s[0] == 0x1b && s[1] == 0x4c && s[2] == 0x75 && s[3] == 0x61) {
            assert(self.signature@ != signature_bytes()) by {
                if self.signature@ == signature_bytes() {
                    assert(signature_bytes()[0] == 0x1b && signature_bytes()[1] == 0x4c
                        && signature_bytes()[2] == 0x75 && signature_bytes()[3] == 0x61);
                }
            }
            return Some(HeaderField::Signature);
        }
        assert(self.signature@ =~= signature_bytes());
        if self.version != 0x53 {
            return Some(HeaderField::Version);
        }
        if self.format != 0 {
            return Some(HeaderField::Format);
        }
        if !(d[0] == 0x19 && d[1] == 0x93 && d[2] == 0x0d && d[3] == 0x0a && d[4] == 0x1a && d[5]
            == 0x0a) {
            assert(self.luac_data@ != luac_data_bytes()) by {
                if self.luac_data@ == luac_data_bytes() {
                    assert(luac_data_bytes()[0] == 0x19 && luac_data_bytes()[1] == 0x93
                        && luac_data_bytes()[2] == 0x0d && luac_data_bytes()[3] == 0x0a
                        && luac_data_bytes()[4] == 0x1a && luac_data_bytes()[5] == 0x0a);
                }
            }
            return Some(HeaderField::LuacData);
        }
        assert(self.luac_data@ =~= luac_data_bytes());
        if self.cint_size != 4 {
            return Some(HeaderField::CintSize);
        }
        if self.size_t_size != 8 {
            return Some(HeaderField::SizetSize);
        }
        if self.instruction_size != 4 {
            return Some(HeaderField::InstructionSize);
        }
        if self.integer_size != 8 {
            return Some(HeaderField::IntegerSize);
        }
        if self.number_size != 8 {
            return Some(HeaderField::NumberSize);
        }
        if self.lua_integer != LUAC_INT {
            return Some(HeaderField::LuaInteger);
        }
        if self.lua_number != LUAC_NUM_BITS {
            return Some(HeaderField::LuaNumber);
        }
        None
    }
}

/// A constant of a prototype's pool. A float is held as its bit pattern.
#[derive(Clone, Debug, PartialEq, Eq)]
pub enum Constant {
    Nil,
    Boolean(bool),
    Number(u64),
    Integer(i64),
    SString(String),
    LString(String),
}

/// A constant, with its text as a sequence of characters.
pub enum ConstantView {
    Nil,
    Boolean(bool),
    Number(u64),
    Integer(i64),
    SString(Seq<char>),
    LString(Seq<char>),
}

impl View for Constant {
    type V = ConstantView;

    open spec fn view(&self) -> ConstantView {
        match self {
            Constant::Nil => ConstantView::Nil,
            Constant::Boolean(b) => ConstantView::Boolean(*b),
            Constant::Number(n) => ConstantView::Number(*n),
            Constant::Integer(i) => ConstantView::Integer(*i),
            Constant::SString(s) => ConstantView::SString(s@),
            Constant::LString(s) => ConstantView::LString(s@),
        }
    }
}

/// Where a closure finds one of its captured variables.
#[derive(Clone, Copy, Debug, PartialEq, Eq, Structural)]
pub struct Upvalue {
    pub instack: u8,
    pub idx: u8,
}

/// The name of a local variable and the instructions over which it lives.
#[derive(Clone, Debug, PartialEq, Eq)]
pub struct LocVar {
    pub var_name: String,
    pub start_pc: u32,
    pub end_pc: u32,
}

pub struct LocVarView {
    pub var_name: Seq<char>,
    pub start_pc: u32,
    pub end_pc: u32,
}

impl View for LocVar {
    type V = LocVarView;

    open spec fn view(&self) -> LocVarView {
        LocVarView { var_name: self.var_name@, start_pc: self.start_pc, end_pc: self.end_pc }
    }
}

/// One compiled function: its code, its constants, the functions nested in
/// it, and what the compiler kept for debugging.
#[derive(Debug, PartialEq, Eq)]
pub struct ProtoType {
    pub source: String,
    pub line_defined: u32,
    pub last_line_defined: u32,
    pub num_params: u8,
    pub is_var_arg: u8,
    pub stack_size: u8,
    pub code: Vec<u32>,
    pub constants: Vec<Constant>,
    pub upval: Vec<Upvalue>,
    pub protos: Vec<ProtoType>,
    pub line_info: Vec<u32>,
    pub loc_vars: Vec<LocVar>,
    pub upvalue_names: Vec<String>,
}

pub struct ProtoView {
    pub source: Seq<char>,
    pub line_defined: u32,
    pub last_line_defined: u32,
    pub num_params: u8,
    pub is_var_arg: u8,
    pub stack_size: u8,
    pub code: Seq<u32>,
    pub constants: Seq<ConstantView>,
    pub upval: Seq<Upvalue>,
    pub protos: Seq<ProtoView>,
    pub line_info: Seq<u32>,
    pub loc_vars: Seq<LocVarView>,
    pub upvalue_names: Seq<Seq<char>>,
}

/// The views of a sequence of constants.
pub open spec fn constants_view(v: Seq<Constant>) -> Seq<ConstantView> {
    v.map_values(|c: Constant| c@)
}

/// The views of a sequence of local-variable records.
pub open spec fn loc_vars_view(v: Seq<LocVar>) -> Seq<LocVarView> {
    v.map_values(|l: LocVar| l@)
}

/// The views of a sequence of strings.
pub open spec fn strings_view(v: Seq<String>) -> Seq<Seq<char>> {
    v.map_values(|s: String| s@)
}

/// The views of a sequence of prototypes.
pub open spec fn protos_view(v: Seq<ProtoType>) -> Seq<ProtoView>
    decreases v,
{
    Seq::new(
        v.len(),
        |i: int|
            if 0 <= i < v.len() {
                proto_view(v[i])
            } else {
                arbitrary()
            },
    )
}

/// The view of a prototype.
pub open spec fn proto_view(p: ProtoType) -> ProtoView
    decreases p,
{
    ProtoView {
        source: p.source@,
        line_defined: p.line_defined,
        last_line_defined: p.last_line_defined,
        num_params: p.num_params,
        is_var_arg: p.is_var_arg,
        stack_size: p.stack_size,
        code: p.code@,
        constants: constants_view(p.constants@),
        upval: p.upval@,
        protos: protos_view(p.protos@),
        line_info: p.line_info@,
        loc_vars: loc_vars_view(p.loc_vars@),
        upvalue_names: strings_view(p.upvalue_names@),
    }
}

impl View for ProtoType {
    type V = ProtoView;

    open spec fn view(&self) -> ProtoView {
        proto_view(*self)
    }
}

/// The byte at `pos`.
pub open spec fn byte_at(bytes: Seq<u8>, pos: int) -> Parsed<u8> {
    if can_read(bytes, pos, 1) {
        Ok((bytes[pos], pos + 1))
    } else {
        Err(FormatError::Truncated)
    }
}

/// The little-endian 32-bit word at `pos`.
pub open spec fn u32_at(bytes: Seq<u8>, pos: int) -> Parsed<u32> {
    if can_read(bytes, pos, 4) {
        Ok((le_u32_at(bytes, pos) as u32, pos + 4))
    } else {
        Err(FormatError::Truncated)
    }
}

/// `n` items in a row from `pos` on, each parsed by `elem`. The first item
/// that fails decides the error.
pub open spec fn array_at<T>(
    bytes: Seq<u8>,
    pos: int,
    n: nat,
    elem: spec_fn(Seq<u8>, int) -> Parsed<T>,
) -> Parsed<Seq<T>>
    decreases n,
{
    if n == 0 {
        Ok((Seq::empty(), pos))
    } else {
        match array_at(bytes, pos, (n - 1) as nat, elem) {
            Err(e) => Err(e),
            Ok((items, p)) => match elem(bytes, p) {
                Err(e) => Err(e),
                Ok((item, q)) => Ok((items.push(item), q)),
            },
        }
    }
}

/// A 32-bit count at `pos`, and behind it that many items.
pub open spec fn counted_at<T>(
    bytes: Seq<u8>,
    pos: int,
    elem: spec_fn(Seq<u8>, int) -> Parsed<T>,
) -> Parsed<Seq<T>> {
    match u32_at(bytes, pos) {
        Err(e) => Err(e),
        Ok((n, p)) => array_at(bytes, p, n as nat, elem),
    }
}

/// A counted list of 32-bit words: the code of a function, or its line
/// numbers.
pub open spec fn words_at(bytes: Seq<u8>, pos: int) -> Parsed<Seq<u32>> {
    counted_at(bytes, pos, |b: Seq<u8>, p: int| u32_at(b, p))
}

/// The constant at `pos`: a tag byte, and the payload that the tag calls for.
pub open spec fn constant_at(bytes: Seq<u8>, pos: int) -> Parsed<ConstantView> {
    if !can_read(bytes, pos, 1) {
        Err(FormatError::Truncated)
    } else {
        match tag_of(bytes[pos]) {
            Tag::Nil => Ok((ConstantView::Nil, pos + 1)),
            Tag::Boolean => if can_read(bytes, pos + 1, 1) {
                Ok((ConstantView::Boolean(bytes[pos + 1] != 0), pos + 2))
            } else {
                Err(FormatError::Truncated)
            },
            Tag::Number => if can_read(bytes, pos + 1, 8) {
                Ok((ConstantView::Number(le_u64_at(bytes, pos + 1) as u64), pos + 9))
            } else {
                Err(FormatError::Truncated)
            },
            Tag::Integer => if can_read(bytes, pos + 1, 8) {
                Ok((ConstantView::Integer(le_i64_at(bytes, pos + 1) as i64), pos + 9))
            } else {
                Err(FormatError::Truncated)
            },
            Tag::ShortString => match string_at(bytes, pos + 1) {
                Err(e) => Err(e),
                Ok((s, p)) => Ok((ConstantView::SString(s), p)),
            },
            Tag::LongString => match string_at(bytes, pos + 1) {
                Err(e) => Err(e),
                Ok((s, p)) => Ok((ConstantView::LString(s), p)),
            },
        }
    }
}

pub open spec fn constants_at(bytes: Seq<u8>, pos: int) -> Parsed<Seq<ConstantView>> {
    counted_at(bytes, pos, |b: Seq<u8>, p: int| constant_at(b, p))
}

/// The upvalue descriptor at `pos`: two bytes.
pub open spec fn upvalue_at(bytes: Seq<u8>, pos: int) -> Parsed<Upvalue> {
    if can_read(bytes, pos, 2) {
        Ok((Upvalue { instack: bytes[pos], idx: bytes[pos + 1] }, pos + 2))
    } else {
        Err(FormatError::Truncated)
    }
}

pub open spec fn upvalues_at(bytes: Seq<u8>, pos: int) -> Parsed<Seq<Upvalue>> {
    counted_at(bytes, pos, |b: Seq<u8>, p: int| upvalue_at(b, p))
}

/// The local-variable record at `pos`: a name and two 32-bit words.
pub open spec fn loc_var_at(bytes: Seq<u8>, pos: int) -> Parsed<LocVarView> {
    match string_at(bytes, pos) {
        Err(e) => Err(e),
        Ok((name, p)) => if can_read(bytes, p, 8) {
            Ok(
                (
                    LocVarView {
                        var_name: name,
                        start_pc: le_u32_at(bytes, p) as u32,
                        end_pc: le_u32_at(bytes, p + 4) as u32,
                    },
                    p + 8,
                ),
            )
        } else {
            Err(FormatError::Truncated)
        },
    }
}

pub open spec fn loc_vars_at(bytes: Seq<u8>, pos: int) -> Parsed<Seq<LocVarView>> {
    counted_at(bytes, pos, |b: Seq<u8>, p: int| loc_var_at(b, p))
}

pub open spec fn names_at(bytes: Seq<u8>, pos: int) -> Parsed<Seq<Seq<char>>> {
    counted_at(bytes, pos, |b: Seq<u8>, p: int| string_at(b, p))
}

/// The part of a prototype that stands before its nested prototypes. The
/// lists that are read later are empty in the result. A prototype without a
/// source name of its own takes `parent`.
pub open spec fn proto_head_at(bytes: Seq<u8>, pos: int, parent: Seq<char>) -> Parsed<ProtoView> {
    match string_at(bytes, pos) {
        Err(e) => Err(e),
        Ok((name, q1)) => if !can_read(bytes, q1, 11) {
            Err(FormatError::Truncated)
        } else {
            match words_at(bytes, q1 + 11) {
                Err(e) => Err(e),
                Ok((code, q2)) => match constants_at(bytes, q2) {
                    Err(e) => Err(e),
                    Ok((constants, q3)) => match upvalues_at(bytes, q3) {
                        Err(e) => Err(e),
                        Ok((upval, q4)) => Ok(
                            (
                                ProtoView {
                                    source: if name.len() == 0 {
                                        parent
                                    } else {
                                        name
                                    },
                                    line_defined: le_u32_at(bytes, q1) as u32,
                                    last_line_defined: le_u32_at(bytes, q1 + 4) as u32,
                                    num_params: bytes[q1 + 8],
                                    is_var_arg: bytes[q1 + 9],
                                    stack_size: bytes[q1 + 10],
                                    code,
                                    constants,
                                    upval,
                                    protos: Seq::empty(),
                                    line_info: Seq::empty(),
                                    loc_vars: Seq::empty(),
                                    upvalue_names: Seq::empty(),
                                },
                                q4,
                            ),
                        ),
                    },
                },
            }
        },
    }
}

/// The part of a prototype that stands behind its nested prototypes: line
/// numbers, local variables and upvalue names.
pub open spec fn proto_tail_at(bytes: Seq<u8>, pos: int) -> Parsed<
    (Seq<u32>, Seq<LocVarView>, Seq<Seq<char>>),
> {
    match words_at(bytes, pos) {
        Err(e) => Err(e),
        Ok((line_info, q1)) => match loc_vars_at(bytes, q1) {
            Err(e) => Err(e),
            Ok((loc_vars, q2)) => match names_at(bytes, q2) {
                Err(e) => Err(e),
                Ok((names, q3)) => Ok(((line_info, loc_vars, names), q3)),
            },
        },
    }
}

/// The prototype at `pos`, nested prototypes included. They take this
/// prototype's source name where they have none of their own.
pub open spec fn proto_at(bytes: Seq<u8>, pos: int, parent: Seq<char>) -> Parsed<ProtoView>
    decreases bytes.len() - pos, 0nat, 0nat,
{
    match proto_head_at(bytes, pos, parent) {
        Err(e) => Err(e),
        Ok((head, q1)) => match u32_at(bytes, q1) {
            Err(e) => Err(e),
            Ok((n, q2)) => {
                proof {
                    lemma_head_progress(bytes, pos, parent);
                }
                match protos_at(bytes, q2, n as nat, head.source) {
                    Err(e) => Err(e),
                    Ok((protos, q3)) => match proto_tail_at(bytes, q3) {
                        Err(e) => Err(e),
                        Ok((tail, q4)) => Ok(
                            (
                                ProtoView {
                                    protos,
                                    line_info: tail.0,
                                    loc_vars: tail.1,
                                    upvalue_names: tail.2,
                                    ..head
                                },
                                q4,
                            ),
                        ),
                    },
                }
            },
        },
    }
}

/// A 32-bit count at `pos`, and behind it that many prototypes.
pub open spec fn nested_at(bytes: Seq<u8>, pos: int, parent: Seq<char>) -> Parsed<Seq<ProtoView>> {
    match u32_at(bytes, pos) {
        Err(e) => Err(e),
        Ok((n, p)) => protos_at(bytes, p, n as nat, parent),
    }
}

/// `n` prototypes in a row from `pos` on.
///
/// The test on the position behind the first `n - 1` of them only serves to
/// show that the definition ends: `lemma_protos_progress` shows that it
/// never fails.
pub open spec fn protos_at(bytes: Seq<u8>, pos: int, n: nat, parent: Seq<char>) -> Parsed<
    Seq<ProtoView>,
>
    decreases bytes.len() - pos, 1nat, n,
{
    if n == 0 {
        Ok((Seq::empty(), pos))
    } else {
        match protos_at(bytes, pos, (n - 1) as nat, parent) {
            Err(e) => Err(e),
            Ok((items, p)) => if !(pos <= p <= bytes.len()) {
                Err(FormatError::Truncated)
            } else {
                match proto_at(bytes, p, parent) {
                    Err(e) => Err(e),
                    Ok((item, q)) => Ok((items.push(item), q)),
                }
            },
        }
    }
}

/// The chunk that `bytes` holds: the header, one byte that is passed over,
/// and the main prototype.
pub open spec fn chunk_of(bytes: Seq<u8>) -> Result<ProtoView, FormatError> {
    match header_at(bytes, 0) {
        Err(e) => Err(e),
        Ok(_) => match byte_at(bytes, HEADER_LEN as int) {
            Err(e) => Err(e),
            Ok((_, p)) => match proto_at(bytes, p, Seq::empty()) {
                Err(e) => Err(e),
                Ok((proto, _)) => Ok(proto),
            },
        },
    }
}

/// Whether `elem` only moves forward and stays inside the buffer.
pub open spec fn moves_on<T>(bytes: Seq<u8>, elem: spec_fn(Seq<u8>, int) -> Parsed<T>) -> bool {
    forall|p: int|
        0 <= p ==> (#[trigger] elem(bytes, p) matches Ok((_, q)) ==> p <= q <= bytes.len())
}

/// Items that move forward make a list that moves forward.
pub proof fn lemma_array_progress<T>(
    bytes: Seq<u8>,
    pos: int,
    n: nat,
    elem: spec_fn(Seq<u8>, int) -> Parsed<T>,
)
    requires
        0 <= pos <= bytes.len(),
        moves_on(bytes, elem),
    ensures
        array_at(bytes, pos, n, elem) matches Ok((items, q)) ==> pos <= q <= bytes.len()
            && items.len() == n,
    decreases n,
{
    if n > 0 {
        lemma_array_progress(bytes, pos, (n - 1) as nat, elem);
    }
}

/// Once an item has failed, the list fails in the same way however many
/// items are asked for.
pub proof fn lemma_array_fails<T>(
    bytes: Seq<u8>,
    pos: int,
    i: nat,
    n: nat,
    elem: spec_fn(Seq<u8>, int) -> Parsed<T>,
)
    requires
        i <= n,
        array_at(bytes, pos, i, elem) is Err,
    ensures
        array_at(bytes, pos, n, elem) == array_at(bytes, pos, i, elem),
    decreases n,
{
    if i < n {
        lemma_array_fails(bytes, pos, i, (n - 1) as nat, elem);
    }
}

/// A counted list of items that move forward ends inside the buffer.
pub proof fn lemma_counted_progress<T>(
    bytes: Seq<u8>,
    pos: int,
    elem: spec_fn(Seq<u8>, int) -> Parsed<T>,
)
    requires
        0 <= pos,
        moves_on(bytes, elem),
    ensures
        counted_at(bytes, pos, elem) matches Ok((_, q)) ==> pos + 4 <= q <= bytes.len(),
{
    if u32_at(bytes, pos) is Ok {
        lemma_array_progress(bytes, pos + 4, le_u32_at(bytes, pos) as u32 as nat, elem);
    }
}

/// The item parsers of the format all move forward.
pub proof fn lemma_items_move_on(bytes: Seq<u8>)
    ensures
        moves_on(bytes, |b: Seq<u8>, p: int| u32_at(b, p)),
        moves_on(bytes, |b: Seq<u8>, p: int| constant_at(b, p)),
        moves_on(bytes, |b: Seq<u8>, p: int| upvalue_at(b, p)),
        moves_on(bytes, |b: Seq<u8>, p: int| loc_var_at(b, p)),
        moves_on(bytes, |b: Seq<u8>, p: int| string_at(b, p)),
{
}

/// The head of a prototype takes at least one byte and ends inside the
/// buffer.
pub proof fn lemma_head_progress(bytes: Seq<u8>, pos: int, parent: Seq<char>)
    ensures
        0 <= pos ==> (proto_head_at(bytes, pos, parent) matches Ok((_, q)) ==> pos < q
            <= bytes.len()),
{
    if 0 <= pos {
        lemma_items_move_on(bytes);
        match string_at(bytes, pos) {
            Err(e) => {},
            Ok((name, q1)) => {
                if can_read(bytes, q1, 11) {
                    lemma_counted_progress(bytes, q1 + 11, |b: Seq<u8>, p: int| u32_at(b, p));
                    match words_at(bytes, q1 + 11) {
                        Err(e) => {},
                        Ok((code, q2)) => {
                            lemma_counted_progress(
                                bytes,
                                q2,
                                |b: Seq<u8>, p: int| constant_at(b, p),
                            );
                            match constants_at(bytes, q2) {
                                Err(e) => {},
                                Ok((constants, q3)) => {
                                    lemma_counted_progress(
                                        bytes,
                                        q3,
                                        |b: Seq<u8>, p: int| upvalue_at(b, p),
                                    );
                                },
                            }
                        },
                    }
                }
            },
        }
    }
}

/// The tail of a prototype ends inside the buffer.
pub proof fn lemma_tail_progress(bytes: Seq<u8>, pos: int)
    requires
        0 <= pos,
    ensures
        proto_tail_at(bytes, pos) matches Ok((_, q)) ==> pos < q <= bytes.len(),
{
    lemma_items_move_on(bytes);
    lemma_counted_progress(bytes, pos, |b: Seq<u8>, p: int| u32_at(b, p));
    match words_at(bytes, pos) {
        Err(e) => {},
        Ok((line_info, q1)) => {
            lemma_counted_progress(bytes, q1, |b: Seq<u8>, p: int| loc_var_at(b, p));
            match loc_vars_at(bytes, q1) {
                Err(e) => {},
                Ok((loc_vars, q2)) => {
                    lemma_counted_progress(bytes, q2, |b: Seq<u8>, p: int| string_at(b, p));
                },
            }
        },
    }
}

/// A prototype takes at least one byte and ends inside the buffer.
pub proof fn lemma_proto_progress(bytes: Seq<u8>, pos: int, parent: Seq<char>)
    requires
        0 <= pos,
    ensures
        proto_at(bytes, pos, parent) matches Ok((_, q)) ==> pos < q <= bytes.len(),
    decreases bytes.len() - pos, 0nat, 0nat,
{
    lemma_head_progress(bytes, pos, parent);
    match proto_head_at(bytes, pos, parent) {
        Err(e) => {},
        Ok((head, q1)) => {
            match u32_at(bytes, q1) {
                Err(e) => {},
                Ok((n, q2)) => {
                    lemma_protos_progress(bytes, q2, n as nat, head.source);
                    match protos_at(bytes, q2, n as nat, head.source) {
                        Err(e) => {},
                        Ok((protos, q3)) => {
                            lemma_tail_progress(bytes, q3);
                        },
                    }
                },
            }
        },
    }
}

/// A row of prototypes never moves back and ends inside the buffer, so the
/// test on the position in `protos_at` never fails.
pub proof fn lemma_protos_progress(bytes: Seq<u8>, pos: int, n: nat, parent: Seq<char>)
    requires
        0 <= pos <= bytes.len(),
    ensures
        protos_at(bytes, pos, n, parent) matches Ok((items, q)) ==> pos <= q <= bytes.len()
            && items.len() == n,
    decreases bytes.len() - pos, 1nat, n,
{
    if n > 0 {
        lemma_protos_progress(bytes, pos, (n - 1) as nat, parent);
        match protos_at(bytes, pos, (n - 1) as nat, parent) {
            Err(e) => {},
            Ok((items, p)) => {
                lemma_proto_progress(bytes, p, parent);
            },
        }
    }
}

/// Once a nested prototype has failed, the row fails in the same way however
/// many are asked for.
pub proof fn lemma_protos_fails(bytes: Seq<u8>, pos: int, i: nat, n: nat, parent: Seq<char>)
    requires
        i <= n,
        protos_at(bytes, pos, i, parent) is Err,
    ensures
        protos_at(bytes, pos, n, parent) == protos_at(bytes, pos, i, parent),
    decreases n,
{
    if i < n {
        lemma_protos_fails(bytes, pos, i, (n - 1) as nat, parent);
    }
}

/// What a decoding step owes. Where the format yields a value at the old
/// position, the step returns that value and the reader stands behind it,
/// over the same buffer. Where the format fails, the step returns the same
/// error and the reader is as it was.
pub open spec fn decoded<V>(
    before: &Reader,
    after: &Reader,
    want: Parsed<V>,
    got: Result<V, FormatError>,
) -> bool {
    &&& after.wf()
    &&& match got {
        Ok(v) => want == Ok::<(V, int), FormatError>((v, after.position())) && after.bytes()
            == before.bytes() && before.position() <= after.position(),
        Err(e) => want == Err::<(V, int), FormatError>(e) && *after == *before,
    }
}

/// The view of a value that a decoding step returned.
pub open spec fn lift<T: View>(r: Result<T, FormatError>) -> Result<T::V, FormatError> {
    match r {
        Ok(v) => Ok(v@),
        Err(e) => Err(e),
    }
}

impl<'a> Reader<'a> {
    /// Reads the fixed header and holds it against the required values.
    /// Where the header is refused, the reader stays where it was.
    #[verifier::rlimit(50)]
    pub fn read_header(&mut self) -> (r: Result<(), FormatError>)
        requires
            old(self).wf(),
        ensures
            final(self).wf(),
            r == header_at(old(self).bytes(), old(self).position()),
            r is Ok ==> final(self).advanced(old(self), HEADER_LEN as int),
            r is Err ==> *final(self) == *old(self),
    {
        reveal(header_at);
        let mut cur: Reader<'a> = *self;
        let header = Header::new(
            cur.read_4()?,
            cur.read_byte()?,
            cur.read_byte()?,
            cur.read_6()?,
            cur.read_byte()?,
            cur.read_byte()?,
            cur.read_byte()?,
            cur.read_byte()?,
            cur.read_byte()?,
            cur.read_i64()?,
            cur.read_f64()?,
        );
        match header.check() {
            Some(f) => Err(FormatError::Mismatch(f)),
            None => {
                *self = cur;
                Ok(())
            },
        }
    }

    /// Reads a counted list of instruction words.
    pub fn read_code(&mut self) -> (r: Result<Vec<u32>, FormatError>)
        requires
            old(self).wf(),
        ensures
            decoded(
                old(self),
                final(self),
                words_at(old(self).bytes(), old(self).position()),
                lift(r),
            ),
    {
        self.read_words()
    }

    /// Reads a counted list of line numbers, one for each instruction.
    pub fn read_line_info(&mut self) -> (r: Result<Vec<u32>, FormatError>)
        requires
            old(self).wf(),
        ensures
            decoded(
                old(self),
                final(self),
                words_at(old(self).bytes(), old(self).position()),
                lift(r),
            ),
    {
        self.read_words()
    }

    fn read_words(&mut self) -> (r: Result<Vec<u32>, FormatError>)
        requires
            old(self).wf(),
        ensures
            decoded(
                old(self),
                final(self),
                words_at(old(self).bytes(), old(self).position()),
                lift(r),
            ),
    {
        let mut cur: Reader<'a> = *self;
        let len: u32 = cur.read_u32()?;
        let ghost bytes = cur.bytes();
        let ghost start = cur.position();
        let mut vec: Vec<u32> = Vec::new();
        let mut i: u32 = 0;
        assert(vec@ =~= Seq::empty());
        while i < len
            invariant
                cur.wf(),
                *self == *old(self),
                cur.bytes() == bytes,
                bytes == old(self).bytes(),
                u32_at(bytes, old(self).position()) == Ok::<(u32, int), FormatError>(
                    (len, start),
                ),
                i <= len,
                start <= cur.position(),
                array_at(bytes, start, i as nat, |b: Seq<u8>, p: int| u32_at(b, p)) == Ok::<
                    (Seq<u32>, int),
                    FormatError,
                >((vec@, cur.position())),
            decreases len - i,
        {
            match cur.read_u32() {
                Ok(w) => {
                    vec.push(w);
                },
                Err(e) => {
                    proof {
                        lemma_array_fails(
                            bytes,
                            start,
                            (i + 1) as nat,
                            len as nat,
                            |b: Seq<u8>, p: int| u32_at(b, p),
                        );
                    }
                    return Err(e);
                },
            }
            i += 1;
        }
        *self = cur;
        Ok(vec)
    }

    /// Reads the tag byte of a constant.
    pub fn read_tag(&mut self) -> (r: Result<Tag, FormatError>)
        requires
            old(self).wf(),
        ensures
            final(self).took(old(self), 1, r),
            r matches Ok(t) ==> t == tag_of(old(self).bytes()[old(self).position()]),
    {
        let b: u8 = self.read_byte()?;
        if b == TAG_BOOLEAN {
            Ok(Tag::Boolean)
        } else if b == TAG_NUMBER {
            Ok(Tag::Number)
        } else if b == TAG_SHORT_STR {
            Ok(Tag::ShortString)
        } else if b == TAG_INTEGER {
            Ok(Tag::Integer)
        } else if b == TAG_LONG_STR {
            Ok(Tag::LongString)
        } else {
            Ok(Tag::Nil)
        }
    }

    /// Reads one constant.
    pub fn read_constant(&mut self) -> (r: Result<Constant, FormatError>)
        requires
            old(self).wf(),
        ensures
            decoded(
                old(self),
                final(self),
                constant_at(old(self).bytes(), old(self).position()),
                lift(r),
            ),
    {
        let mut cur: Reader<'a> = *self;
        let c = match cur.read_tag()? {
            Tag::Nil => Constant::Nil,
            Tag::Boolean => Constant::Boolean(cur.read_byte()? != 0),
            Tag::Number => Constant::Number(cur.read_f64()?),
            Tag::ShortString => Constant::SString(cur.read_string()?),
            Tag::Integer => Constant::Integer(cur.read_i64()?),
            Tag::LongString => Constant::LString(cur.read_string()?),
        };
        *self = cur;
        Ok(c)
    }

    /// Reads the counted pool of constants.
    pub fn read_constans(&mut self) -> (r: Result<Vec<Constant>, FormatError>)
        requires
            old(self).wf(),
        ensures
            decoded(
                old(self),
                final(self),
                constants_at(old(self).bytes(), old(self).position()),
                match r {
                    Ok(v) => Ok(constants_view(v@)),
                    Err(e) => Err(e),
                },
            ),
    {
        let mut cur: Reader<'a> = *self;
        let len: u32 = cur.read_u32()?;
        let ghost bytes = cur.bytes();
        let ghost start = cur.position();
        let mut vec: Vec<Constant> = Vec::new();
        let mut i: u32 = 0;
        assert(constants_view(vec@) =~= Seq::empty());
        while i < len
            invariant
                cur.wf(),
                *self == *old(self),
                cur.bytes() == bytes,
                bytes == old(self).bytes(),
                u32_at(bytes, old(self).position()) == Ok::<(u32, int), FormatError>(
                    (len, start),
                ),
                i <= len,
                start <= cur.position(),
                array_at(bytes, start, i as nat, |b: Seq<u8>, p: int| constant_at(b, p)) == Ok::<
                    (Seq<ConstantView>, int),
                    FormatError,
                >((constants_view(vec@), cur.position())),
            decreases len - i,
        {
            match cur.read_constant() {
                Ok(c) => {
                    assert(constants_view(vec@.push(c)) =~= constants_view(vec@).push(c@));
                    vec.push(c);
                },
                Err(e) => {
                    proof {
                        lemma_array_fails(
                            bytes,
                            start,
                            (i + 1) as nat,
                            len as nat,
                            |b: Seq<u8>, p: int| constant_at(b, p),
                        );
                    }
                    return Err(e);
                },
            }
            i += 1;
        }
        *self = cur;
        Ok(vec)
    }

    /// Reads the counted list of upvalue descriptors.
    pub fn read_upvalue(&mut self) -> (r: Result<Vec<Upvalue>, FormatError>)
        requires
            old(self).wf(),
        ensures
            decoded(
                old(self),
                final(self),
                upvalues_at(old(self).bytes(), old(self).position()),
                lift(r),
            ),
    {
        let mut cur: Reader<'a> = *self;
        let len: u32 = cur.read_u32()?;
        let ghost bytes = cur.bytes();
        let ghost start = cur.position();
        let mut vec: Vec<Upvalue> = Vec::new();
        let mut i: u32 = 0;
        assert(vec@ =~= Seq::empty());
        while i < len
            invariant
                cur.wf(),
                *self == *old(self),
                cur.bytes() == bytes,
                bytes == old(self).bytes(),
                u32_at(bytes, old(self).position()) == Ok::<(u32, int), FormatError>(
                    (len, start),
                ),
                i <= len,
                start <= cur.position(),
                array_at(bytes, start, i as nat, |b: Seq<u8>, p: int| upvalue_at(b, p)) == Ok::<
                    (Seq<Upvalue>, int),
                    FormatError,
                >((vec@, cur.position())),
            decreases len - i,
        {
            match cur.read_2() {
                Ok(pair) => {
                    vec.push(Upvalue { instack: pair[0], idx: pair[1] });
                },
                Err(e) => {
                    proof {
                        lemma_array_fails(
                            bytes,
                            start,
                            (i + 1) as nat,
                            len as nat,
                            |b: Seq<u8>, p: int| upvalue_at(b, p),
                        );
                    }
                    return Err(e);
                },
            }
            i += 1;
        }
        *self = cur;
        Ok(vec)
    }

    /// Reads one local-variable record.
    fn read_local_var(&mut self) -> (r: Result<LocVar, FormatError>)
        requires
            old(self).wf(),
        ensures
            decoded(
                old(self),
                final(self),
                loc_var_at(old(self).bytes(), old(self).position()),
                lift(r),
            ),
    {
        let mut cur: Reader<'a> = *self;
        let var_name = cur.read_string()?;
        if cur.available() < 8 {
            return Err(FormatError::Truncated);
        }
        let start_pc: u32 = cur.read_u32()?;
        let end_pc: u32 = cur.read_u32()?;
        *self = cur;
        Ok(LocVar { var_name, start_pc, end_pc })
    }

    /// Reads the counted table of local variables.
    pub fn read_local_vars(&mut self) -> (r: Result<Vec<LocVar>, FormatError>)
        requires
            old(self).wf(),
        ensures
            decoded(
                old(self),
                final(self),
                loc_vars_at(old(self).bytes(), old(self).position()),
                match r {
                    Ok(v) => Ok(loc_vars_view(v@)),
                    Err(e) => Err(e),
                },
            ),
    {
        let mut cur: Reader<'a> = *self;
        let len: u32 = cur.read_u32()?;
        let ghost bytes = cur.bytes();
        let ghost start = cur.position();
        let mut vec: Vec<LocVar> = Vec::new();
        let mut i: u32 = 0;
        assert(loc_vars_view(vec@) =~= Seq::empty());
        while i < len
            invariant
                cur.wf(),
                *self == *old(self),
                cur.bytes() == bytes,
                bytes == old(self).bytes(),
                u32_at(bytes, old(self).position()) == Ok::<(u32, int), FormatError>(
                    (len, start),
                ),
                i <= len,
                start <= cur.position(),
                array_at(bytes, start, i as nat, |b: Seq<u8>, p: int| loc_var_at(b, p)) == Ok::<
                    (Seq<LocVarView>, int),
                    FormatError,
                >((loc_vars_view(vec@), cur.position())),
            decreases len - i,
        {
            match cur.read_local_var() {
                Ok(l) => {
                    assert(loc_vars_view(vec@.push(l)) =~= loc_vars_view(vec@).push(l@));
                    vec.push(l);
                },
                Err(e) => {
                    proof {
                        lemma_array_fails(
                            bytes,
                            start,
                            (i + 1) as nat,
                            len as nat,
                            |b: Seq<u8>, p: int| loc_var_at(b, p),
                        );
                    }
                    return Err(e);
                },
            }
            i += 1;
        }
        *self = cur;
        Ok(vec)
    }

    /// Reads the counted list of upvalue names.
    pub fn read_upvalue_names(&mut self) -> (r: Result<Vec<String>, FormatError>)
        requires
            old(self).wf(),
        ensures
            decoded(
                old(self),
                final(self),
                names_at(old(self).bytes(), old(self).position()),
                match r {
                    Ok(v) => Ok(strings_view(v@)),
                    Err(e) => Err(e),
                },
            ),
    {
        let mut cur: Reader<'a> = *self;
        let len: u32 = cur.read_u32()?;
        let ghost bytes = cur.bytes();
        let ghost start = cur.position();
        let mut vec: Vec<String> = Vec::new();
        let mut i: u32 = 0;
        assert(strings_view(vec@) =~= Seq::empty());
        while i < len
            invariant
                cur.wf(),
                *self == *old(self),
                cur.bytes() == bytes,
                bytes == old(self).bytes(),
                u32_at(bytes, old(self).position()) == Ok::<(u32, int), FormatError>(
                    (len, start),
                ),
                i <= len,
                start <= cur.position(),
                array_at(bytes, start, i as nat, |b: Seq<u8>, p: int| string_at(b, p)) == Ok::<
                    (Seq<Seq<char>>, int),
                    FormatError,
                >((strings_view(vec@), cur.position())),
            decreases len - i,
        {
            match cur.read_string() {
                Ok(name) => {
                    assert(strings_view(vec@.push(name)) =~= strings_view(vec@).push(name@));
                    vec.push(name);
                },
                Err(e) => {
                    proof {
                        lemma_array_fails(
                            bytes,
                            start,
                            (i + 1) as nat,
                            len as nat,
                            |b: Seq<u8>, p: int| string_at(b, p),
                        );
                    }
                    return Err(e);
                },
            }
            i += 1;
        }
        *self = cur;
        Ok(vec)
    }

    /// Reads the counted list of nested prototypes.
    pub fn read_protos(&mut self, parent_source: &str) -> (r: Result<Vec<ProtoType>, FormatError>)
        requires
            old(self).wf(),
        ensures
            decoded(
                old(self),
                final(self),
                nested_at(old(self).bytes(), old(self).position(), parent_source@),
                match r {
                    Ok(v) => Ok(protos_view(v@)),
                    Err(e) => Err(e),
                },
            ),
        decreases old(self).bytes().len() - old(self).position(), 1nat,
    {
        let mut cur: Reader<'a> = *self;
        let len: u32 = cur.read_u32()?;
        let ghost bytes = cur.bytes();
        let ghost start = cur.position();
        let mut vec: Vec<ProtoType> = Vec::new();
        let mut i: u32 = 0;
        assert(protos_view(vec@) =~= Seq::empty());
        while i < len
            invariant
                cur.wf(),
                *self == *old(self),
                cur.bytes() == bytes,
                bytes == old(self).bytes(),
                u32_at(bytes, old(self).position()) == Ok::<(u32, int), FormatError>(
                    (len, start),
                ),
                i <= len,
                start <= cur.position(),
                protos_at(bytes, start, i as nat, parent_source@) == Ok::<
                    (Seq<ProtoView>, int),
                    FormatError,
                >((protos_view(vec@), cur.position())),
            decreases len - i,
        {
            match cur.read_proto(parent_source) {
                Ok(p) => {
                    assert(protos_view(vec@.push(p)) =~= protos_view(vec@).push(p@));
                    vec.push(p);
                },
                Err(e) => {
                    proof {
                        lemma_protos_fails(
                            bytes,
                            start,
                            (i + 1) as nat,
                            len as nat,
                            parent_source@,
                        );
                    }
                    return Err(e);
                },
            }
            i += 1;
        }
        *self = cur;
        Ok(vec)
    }

    /// Reads one prototype with everything nested in it. A prototype without
    /// a source name of its own takes `parent_source`.
    #[verifier::rlimit(50)]
    pub fn read_proto(&mut self, parent_source: &str) -> (r: Result<ProtoType, FormatError>)
        requires
            old(self).wf(),
        ensures
            decoded(
                old(self),
                final(self),
                proto_at(old(self).bytes(), old(self).position(), parent_source@),
                lift(r),
            ),
        decreases old(self).bytes().len() - old(self).position(), 0nat,
    {
        let mut cur: Reader<'a> = *self;
        let mut source = cur.read_string()?;
        if source.as_str().is_empty() {
            source = parent_source.to_owned();
        }
        let line_defined: u32 = cur.read_u32()?;
        let last_line_defined: u32 = cur.read_u32()?;
        let num_params: u8 = cur.read_byte()?;
        let is_var_arg: u8 = cur.read_byte()?;
        let stack_size: u8 = cur.read_byte()?;
        let code = cur.read_code()?;
        let constants = cur.read_constans()?;
        let upval = cur.read_upvalue()?;
        proof {
            lemma_head_progress(old(self).bytes(), old(self).position(), parent_source@);
        }
        let protos = cur.read_protos(source.as_str())?;
        let line_info = cur.read_line_info()?;
        let loc_vars = cur.read_local_vars()?;
        let upvalue_names = cur.read_upvalue_names()?;
        *self = cur;
        Ok(
            ProtoType {
                source,
                line_defined,
                last_line_defined,
                num_params,
                is_var_arg,
                stack_size,
                code,
                constants,
                upval,
                protos,
                line_info,
                loc_vars,
                upvalue_names,
            },
        )
    }
}

/// Decodes a chunk: the header, the byte that is passed over, and the main
/// prototype. A buffer shorter than the header is truncated whatever it
/// holds.
#[verifier::rlimit(50)]
pub fn undump(data: Vec<u8>) -> (r: Result<ProtoType, FormatError>)
    ensures
        lift(r) == chunk_of(data@),
        data@.len() < HEADER_LEN ==> r is Err && r->Err_0 == FormatError::Truncated,
{
    proof {
        reveal_strlit("");
        assert(""@ =~= Seq::<char>::empty());
        assert(data@.len() < HEADER_LEN ==> header_at(data@, 0) == Err::<(), FormatError>(
            FormatError::Truncated,
        )) by {
            reveal(header_at);
        }
    }
    let mut r = Reader::new(data.as_slice());
    r.read_header()?;
    r.read_byte()?;
    r.read_proto("")
}

/// Decodes a chunk, and tells no more of a failure than that it happened.
#[verifier::rlimit(50)]
pub fn dump(data: &[u8]) -> (r: Option<ProtoType>)
    ensures
        match r {
            Some(p) => chunk_of(data@) == Ok::<ProtoView, FormatError>(p@),
            None => chunk_of(data@) is Err,
        },
{
    proof {
        reveal_strlit("");
        assert(""@ =~= Seq::<char>::empty());
    }
    let mut reader = Reader::new(data);
    if reader.read_header().is_err() {
        return None;
    }
    if reader.read_byte().is_err() {
        return None;
    }
    match reader.read_proto("") {
        Ok(p) => Some(p),
        Err(_) => None,
    }
}

} // verus!
