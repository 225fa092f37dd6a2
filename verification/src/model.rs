//! Mathematical model of the NBT wire format: spec-level tag trees, their
//! well-formedness, and the big-endian encoding that a byte stream must match
//! for the decoder to accept it.

use vstd::prelude::*;

verus! {

broadcast use vstd::seq::group_seq_axioms;

/// Whether a byte sequence is valid UTF-8; the meaning is fixed by the
/// `utf8_check` wrapper over `core::str::from_utf8`.
pub uninterp spec fn is_utf8(s: Seq<u8>) -> bool;

/// Spec-level mirror of a tag payload. Sequences stand for the executable
/// vectors; `Float` and `Double` hold the raw big-endian IEEE-754 bits.
pub enum PayloadV {
    Byte(i8),
    Short(i16),
    Int(i32),
    Long(i64),
    Float(u32),
    Double(u64),
    ByteArray(Seq<i8>),
    Str(Seq<u8>),
    List(u8, Seq<PayloadV>),
    Compound(Seq<TagV>),
    IntArray(Seq<i32>),
    LongArray(Seq<i64>),
}

/// Spec-level mirror of a named tag: a name (UTF-8 bytes) and a payload.
pub struct TagV {
    pub name: Seq<u8>,
    pub payload: PayloadV,
}

/// The NBT type code of a payload, 1 through 12.
pub open spec fn code_of(p: PayloadV) -> u8 {
    match p {
        PayloadV::Byte(_) => 1,
        PayloadV::Short(_) => 2,
        PayloadV::Int(_) => 3,
        PayloadV::Long(_) => 4,
        PayloadV::Float(_) => 5,
        PayloadV::Double(_) => 6,
        PayloadV::ByteArray(_) => 7,
        PayloadV::Str(_) => 8,
        PayloadV::List(_, _) => 9,
        PayloadV::Compound(_) => 10,
        PayloadV::IntArray(_) => 11,
        PayloadV::LongArray(_) => 12,
    }
}

/// A payload tree the wire format can carry: every count fits its count field,
/// every string is UTF-8, and a list's elements all share its element code.
pub open spec fn wf_payload(p: PayloadV) -> bool
    decreases p, 0int,
{
    match p {
        PayloadV::Byte(_) => true,
        PayloadV::Short(_) => true,
        PayloadV::Int(_) => true,
        PayloadV::Long(_) => true,
        PayloadV::Float(_) => true,
        PayloadV::Double(_) => true,
        PayloadV::ByteArray(s) => s.len() <= i32::MAX,
        PayloadV::Str(s) => s.len() <= u16::MAX && is_utf8(s),
        PayloadV::List(c, items) => items.len() <= i32::MAX && wf_items(c, items, 0),
        PayloadV::Compound(ms) => wf_members(ms, 0),
        PayloadV::IntArray(s) => s.len() <= i32::MAX,
        PayloadV::LongArray(s) => s.len() <= i32::MAX,
    }
}

/// All of `items[i..]` are well-formed payloads of element code `c`.
pub open spec fn wf_items(c: u8, items: Seq<PayloadV>, i: int) -> bool
    decreases items, items.len() - i,
{
    if i < 0 || i >= items.len() {
        true
    } else {
        code_of(items[i]) == c && wf_payload(items[i]) && wf_items(c, items, i + 1)
    }
}

/// A named tag the wire format can carry.
pub open spec fn wf_tag(t: TagV) -> bool
    decreases t, 1int,
{
    t.name.len() <= u16::MAX && is_utf8(t.name) && wf_payload(t.payload)
}

/// All of `ms[i..]` are well-formed named tags.
pub open spec fn wf_members(ms: Seq<TagV>, i: int) -> bool
    decreases ms, ms.len() - i,
{
    if i < 0 || i >= ms.len() {
        true
    } else {
        wf_tag(ms[i]) && wf_members(ms, i + 1)
    }
}

/// Big-endian value of two bytes.
pub open spec fn be_u16(b0: u8, b1: u8) -> u16 {
    ((b0 as u16) * 0x100 + (b1 as u16)) as u16
}

/// Big-endian value of four bytes.
pub open spec fn be_u32(b0: u8, b1: u8, b2: u8, b3: u8) -> u32 {
    ((b0 as u32) * 0x100_0000 + (b1 as u32) * 0x1_0000 + (b2 as u32) * 0x100 + (b3 as u32)) as u32
}

/// Big-endian value of eight bytes.
pub open spec fn be_u64(b0: u8, b1: u8, b2: u8, b3: u8, b4: u8, b5: u8, b6: u8, b7: u8) -> u64 {
    ((b0 as u64) * 0x100_0000_0000_0000 + (b1 as u64) * 0x1_0000_0000_0000 + (b2 as u64)
        * 0x100_0000_0000 + (b3 as u64) * 0x1_0000_0000 + (b4 as u64) * 0x100_0000 + (b5 as u64)
        * 0x1_0000 + (b6 as u64) * 0x100 + (b7 as u64)) as u64
}

/// Big-endian bytes of a 16-bit value.
pub open spec fn enc_u16(v: u16) -> Seq<u8> {
    seq![(v / 0x100) as u8, (v % 0x100) as u8]
}

/// Big-endian bytes of a 32-bit value.
pub open spec fn enc_u32(v: u32) -> Seq<u8> {
    seq![
        (v / 0x100_0000) as u8,
        ((v / 0x1_0000) % 0x100) as u8,
        ((v / 0x100) % 0x100) as u8,
        (v % 0x100) as u8,
    ]
}

/// Big-endian bytes of a 64-bit value.
pub open spec fn enc_u64(v: u64) -> Seq<u8> {
    seq![
        (v / 0x100_0000_0000_0000) as u8,
        ((v / 0x1_0000_0000_0000) % 0x100) as u8,
        ((v / 0x100_0000_0000) % 0x100) as u8,
        ((v / 0x1_0000_0000) % 0x100) as u8,
        ((v / 0x100_0000) % 0x100) as u8,
        ((v / 0x1_0000) % 0x100) as u8,
        ((v / 0x100) % 0x100) as u8,
        (v % 0x100) as u8,
    ]
}

/// Reading back the big-endian bytes of a 16-bit value gives the value.
pub proof fn lemma_be_enc_u16(v: u16)
    ensures
        be_u16(enc_u16(v)[0], enc_u16(v)[1]) == v,
{
}

/// Reading back the big-endian bytes of a 32-bit value gives the value.
pub proof fn lemma_be_enc_u32(v: u32)
    ensures
        be_u32(enc_u32(v)[0], enc_u32(v)[1], enc_u32(v)[2], enc_u32(v)[3]) == v,
{
    assert(((v / 0x100_0000) as u8 as u32) * 0x100_0000 + (((v / 0x1_0000) % 0x100) as u8 as u32)
        * 0x1_0000 + (((v / 0x100) % 0x100) as u8 as u32) * 0x100 + ((v % 0x100) as u8 as u32)
        == v) by (bit_vector);
}

/// Reading back the big-endian bytes of a 64-bit value gives the value.
pub proof fn lemma_be_enc_u64(v: u64)
    ensures
        be_u64(
            enc_u64(v)[0],
            enc_u64(v)[1],
            enc_u64(v)[2],
            enc_u64(v)[3],
            enc_u64(v)[4],
            enc_u64(v)[5],
            enc_u64(v)[6],
            enc_u64(v)[7],
        ) == v,
{
    assert(((v / 0x100_0000_0000_0000) as u8 as u64) * 0x100_0000_0000_0000 + (((v
        / 0x1_0000_0000_0000) % 0x100) as u8 as u64) * 0x1_0000_0000_0000 + (((v / 0x100_0000_0000)
        % 0x100) as u8 as u64) * 0x100_0000_0000 + (((v / 0x1_0000_0000) % 0x100) as u8 as u64)
        * 0x1_0000_0000 + (((v / 0x100_0000) % 0x100) as u8 as u64) * 0x100_0000 + (((v / 0x1_0000)
        % 0x100) as u8 as u64) * 0x1_0000 + (((v / 0x100) % 0x100) as u8 as u64) * 0x100 + ((v
        % 0x100) as u8 as u64) == v) by (bit_vector);
}

/// The big-endian bytes of the value of two bytes are those bytes.
pub proof fn lemma_enc_be_u16(b0: u8, b1: u8)
    ensures
        enc_u16(be_u16(b0, b1)) == seq![b0, b1],
{
    assert(enc_u16(be_u16(b0, b1)) =~= seq![b0, b1]);
}

/// The big-endian bytes of the value of four bytes are those bytes.
pub proof fn lemma_enc_be_u32(b0: u8, b1: u8, b2: u8, b3: u8)
    ensures
        enc_u32(be_u32(b0, b1, b2, b3)) == seq![b0, b1, b2, b3],
{
    let v = be_u32(b0, b1, b2, b3);
    assert({
        let w = ((b0 as u32) * 0x100_0000 + (b1 as u32) * 0x1_0000 + (b2 as u32) * 0x100 + (
        b3 as u32)) as u32;
        (w / 0x100_0000) as u8 == b0 && ((w / 0x1_0000) % 0x100) as u8 == b1 && ((w / 0x100)
            % 0x100) as u8 == b2 && (w % 0x100) as u8 == b3
    }) by (bit_vector);
    assert(enc_u32(v) =~= seq![b0, b1, b2, b3]);
}

/// The big-endian bytes of the value of eight bytes are those bytes.
pub proof fn lemma_enc_be_u64(b0: u8, b1: u8, b2: u8, b3: u8, b4: u8, b5: u8, b6: u8, b7: u8)
    ensures
        enc_u64(be_u64(b0, b1, b2, b3, b4, b5, b6, b7)) == seq![b0, b1, b2, b3, b4, b5, b6, b7],
{
    let v = be_u64(b0, b1, b2, b3, b4, b5, b6, b7);
    assert({
        let w = ((b0 as u64) * 0x100_0000_0000_0000 + (b1 as u64) * 0x1_0000_0000_0000 + (
        b2 as u64) * 0x100_0000_0000 + (b3 as u64) * 0x1_0000_0000 + (b4 as u64) * 0x100_0000 + (
        b5 as u64) * 0x1_0000 + (b6 as u64) * 0x100 + (b7 as u64)) as u64;
        (w / 0x100_0000_0000_0000) as u8 == b0 && ((w / 0x1_0000_0000_0000) % 0x100) as u8 == b1
            && ((w / 0x100_0000_0000) % 0x100) as u8 == b2 && ((w / 0x1_0000_0000) % 0x100) as u8
            == b3 && ((w / 0x100_0000) % 0x100) as u8 == b4 && ((w / 0x1_0000) % 0x100) as u8 == b5
            && ((w / 0x100) % 0x100) as u8 == b6 && (w % 0x100) as u8 == b7
    }) by (bit_vector);
    assert(enc_u64(v) =~= seq![b0, b1, b2, b3, b4, b5, b6, b7]);
}

/// A byte range is the concatenation of its two halves around a middle point.
pub proof fn lemma_subrange_split(s: Seq<u8>, a: int, m: int, b: int)
    requires
        0 <= a <= m <= b <= s.len(),
    ensures
        s.subrange(a, b) == s.subrange(a, m) + s.subrange(m, b),
{
    let lhs = s.subrange(a, b);
    let rhs = s.subrange(a, m) + s.subrange(m, b);
    assert(lhs.len() == rhs.len());
    assert forall|i: int| 0 <= i < b - a implies lhs[i] == rhs[i] by {
        assert(lhs[i] == s[a + i]);
        if i < m - a {
            assert(rhs[i] == s.subrange(a, m)[i]);
            assert(s.subrange(a, m)[i] == s[a + i]);
        } else {
            assert(rhs[i] == s.subrange(m, b)[i - (m - a)]);
            assert(s.subrange(m, b)[i - (m - a)] == s[m + (i - (m - a))]);
        }
    }
    assert(lhs =~= rhs);
}

/// Reading a byte as signed and writing it back as unsigned gives the byte.
pub proof fn lemma_cast_u8_i8(w: u8)
    ensures
        (w as i8) as u8 == w,
{
    assert((w as i8) as u8 == w) by (bit_vector);
}

/// The 16-bit signed reinterpretation round-trips.
pub proof fn lemma_cast_u16_i16(w: u16)
    ensures
        (w as i16) as u16 == w,
{
    assert((w as i16) as u16 == w) by (bit_vector);
}

/// The 32-bit signed reinterpretation round-trips.
pub proof fn lemma_cast_u32_i32(w: u32)
    ensures
        (w as i32) as u32 == w,
{
    assert((w as i32) as u32 == w) by (bit_vector);
}

/// A 32-bit value no larger than `i32::MAX` reads back unchanged as signed.
pub proof fn lemma_u32_to_i32_small(w: u32)
    requires
        w <= 0x7fff_ffff,
    ensures
        w as i32 >= 0,
        (w as i32) as u32 == w,
{
    assert(w <= 0x7fff_ffff ==> (w as i32 >= 0 && (w as i32) as u32 == w)) by (bit_vector);
}

/// The 64-bit signed reinterpretation round-trips.
pub proof fn lemma_cast_u64_i64(w: u64)
    ensures
        (w as i64) as u64 == w,
{
    assert((w as i64) as u64 == w) by (bit_vector);
}

/// Wire encoding of a payload, without its type code; the code stands in the
/// enclosing tag header, list header or list element code.
pub open spec fn enc_payload(p: PayloadV) -> Seq<u8>
    decreases p, 0int,
{
    match p {
        PayloadV::Byte(v) => seq![v as u8],
        PayloadV::Short(v) => enc_u16(v as u16),
        PayloadV::Int(v) => enc_u32(v as u32),
        PayloadV::Long(v) => enc_u64(v as u64),
        PayloadV::Float(bits) => enc_u32(bits),
        PayloadV::Double(bits) => enc_u64(bits),
        PayloadV::ByteArray(s) => enc_u32(s.len() as u32) + s.map_values(|b: i8| b as u8),
        PayloadV::Str(s) => enc_u16(s.len() as u16) + s,
        PayloadV::List(c, items) => seq![c] + enc_u32(items.len() as u32) + enc_items(items, 0),
        PayloadV::Compound(ms) => enc_members(ms, 0) + seq![0u8],
        PayloadV::IntArray(s) => enc_u32(s.len() as u32) + enc_i32s(s, 0),
        PayloadV::LongArray(s) => enc_u32(s.len() as u32) + enc_i64s(s, 0),
    }
}

/// Wire encoding of the list elements `items[i..]`, back to back.
pub open spec fn enc_items(items: Seq<PayloadV>, i: int) -> Seq<u8>
    decreases items, items.len() - i,
{
    if i < 0 || i >= items.len() {
        Seq::empty()
    } else {
        enc_payload(items[i]) + enc_items(items, i + 1)
    }
}

/// Wire encoding of a named tag: type code, name length, name, payload.
pub open spec fn enc_tag(t: TagV) -> Seq<u8>
    decreases t, 1int,
{
    seq![code_of(t.payload)] + enc_u16(t.name.len() as u16) + t.name + enc_payload(t.payload)
}

/// Wire encoding of the compound members `ms[i..]`, back to back, without the
/// terminating zero byte.
pub open spec fn enc_members(ms: Seq<TagV>, i: int) -> Seq<u8>
    decreases ms, ms.len() - i,
{
    if i < 0 || i >= ms.len() {
        Seq::empty()
    } else {
        enc_tag(ms[i]) + enc_members(ms, i + 1)
    }
}

/// Wire encoding of the big-endian 32-bit values `s[i..]`, back to back.
pub open spec fn enc_i32s(s: Seq<i32>, i: int) -> Seq<u8>
    decreases s.len() - i,
{
    if i < 0 || i >= s.len() {
        Seq::empty()
    } else {
        enc_u32(s[i] as u32) + enc_i32s(s, i + 1)
    }
}

/// Wire encoding of the big-endian 64-bit values `s[i..]`, back to back.
pub open spec fn enc_i64s(s: Seq<i64>, i: int) -> Seq<u8>
    decreases s.len() - i,
{
    if i < 0 || i >= s.len() {
        Seq::empty()
    } else {
        enc_u64(s[i] as u64) + enc_i64s(s, i + 1)
    }
}

proof fn lemma_enc_i32s_push_from(s: Seq<i32>, x: i32, i: int)
    requires
        0 <= i <= s.len(),
    ensures
        enc_i32s(s.push(x), i) == enc_i32s(s, i) + enc_u32(x as u32),
    decreases s.len() - i,
{
    let p = s.push(x);
    if i == s.len() {
        assert(p[i] == x);
        assert(enc_i32s(p, i) == enc_u32(x as u32) + enc_i32s(p, i + 1));
        assert(enc_i32s(p, i) =~= enc_i32s(s, i) + enc_u32(x as u32));
    } else {
        assert(p[i] == s[i]);
        lemma_enc_i32s_push_from(s, x, i + 1);
        assert(enc_u32(p[i] as u32) + (enc_i32s(s, i + 1) + enc_u32(x as u32)) =~= (enc_u32(
            s[i] as u32,
        ) + enc_i32s(s, i + 1)) + enc_u32(x as u32));
    }
}

/// Appending a value appends its encoding.
pub proof fn lemma_enc_i32s_push(s: Seq<i32>, x: i32)
    ensures
        enc_i32s(s.push(x), 0) == enc_i32s(s, 0) + enc_u32(x as u32),
{
    lemma_enc_i32s_push_from(s, x, 0);
}

proof fn lemma_enc_i64s_push_from(s: Seq<i64>, x: i64, i: int)
    requires
        0 <= i <= s.len(),
    ensures
        enc_i64s(s.push(x), i) == enc_i64s(s, i) + enc_u64(x as u64),
    decreases s.len() - i,
{
    let p = s.push(x);
    if i == s.len() {
        assert(p[i] == x);
        assert(enc_i64s(p, i) == enc_u64(x as u64) + enc_i64s(p, i + 1));
        assert(enc_i64s(p, i) =~= enc_i64s(s, i) + enc_u64(x as u64));
    } else {
        assert(p[i] == s[i]);
        lemma_enc_i64s_push_from(s, x, i + 1);
        assert(enc_u64(p[i] as u64) + (enc_i64s(s, i + 1) + enc_u64(x as u64)) =~= (enc_u64(
            s[i] as u64,
        ) + enc_i64s(s, i + 1)) + enc_u64(x as u64));
    }
}

/// Appending a value appends its encoding.
pub proof fn lemma_enc_i64s_push(s: Seq<i64>, x: i64)
    ensures
        enc_i64s(s.push(x), 0) == enc_i64s(s, 0) + enc_u64(x as u64),
{
    lemma_enc_i64s_push_from(s, x, 0);
}

proof fn lemma_enc_items_push_from(items: Seq<PayloadV>, x: PayloadV, i: int)
    requires
        0 <= i <= items.len(),
    ensures
        enc_items(items.push(x), i) == enc_items(items, i) + enc_payload(x),
    decreases items.len() - i,
{
    let p = items.push(x);
    if i == items.len() {
        assert(p[i] == x);
        assert(enc_items(p, i) == enc_payload(x) + enc_items(p, i + 1));
        assert(enc_items(p, i) =~= enc_items(items, i) + enc_payload(x));
    } else {
        assert(p[i] == items[i]);
        lemma_enc_items_push_from(items, x, i + 1);
        assert(enc_payload(p[i]) + (enc_items(items, i + 1) + enc_payload(x)) =~= (enc_payload(
            items[i],
        ) + enc_items(items, i + 1)) + enc_payload(x));
    }
}

/// Appending a list element appends its encoding.
pub proof fn lemma_enc_items_push(items: Seq<PayloadV>, x: PayloadV)
    ensures
        enc_items(items.push(x), 0) == enc_items(items, 0) + enc_payload(x),
{
    lemma_enc_items_push_from(items, x, 0);
}

proof fn lemma_enc_members_push_from(ms: Seq<TagV>, x: TagV, i: int)
    requires
        0 <= i <= ms.len(),
    ensures
        enc_members(ms.push(x), i) == enc_members(ms, i) + enc_tag(x),
    decreases ms.len() - i,
{
    let p = ms.push(x);
    if i == ms.len() {
        assert(p[i] == x);
        assert(enc_members(p, i) == enc_tag(x) + enc_members(p, i + 1));
        assert(enc_members(p, i) =~= enc_members(ms, i) + enc_tag(x));
    } else {
        assert(p[i] == ms[i]);
        lemma_enc_members_push_from(ms, x, i + 1);
        assert(enc_tag(p[i]) + (enc_members(ms, i + 1) + enc_tag(x)) =~= (enc_tag(ms[i])
            + enc_members(ms, i + 1)) + enc_tag(x));
    }
}

/// Appending a member appends its encoding.
pub proof fn lemma_enc_members_push(ms: Seq<TagV>, x: TagV)
    ensures
        enc_members(ms.push(x), 0) == enc_members(ms, 0) + enc_tag(x),
{
    lemma_enc_members_push_from(ms, x, 0);
}

proof fn lemma_wf_items_push_from(c: u8, items: Seq<PayloadV>, x: PayloadV, i: int)
    requires
        0 <= i <= items.len(),
        wf_items(c, items, i),
        wf_payload(x),
        code_of(x) == c,
    ensures
        wf_items(c, items.push(x), i),
    decreases items.len() - i,
{
    let p = items.push(x);
    if i == items.len() {
        assert(p[i] == x);
        assert(wf_items(c, p, i + 1));
    } else {
        assert(p[i] == items[i]);
        lemma_wf_items_push_from(c, items, x, i + 1);
        assert(wf_items(c, p, i + 1));
    }
}

/// A well-formed element of the list's code keeps a list well-formed.
pub proof fn lemma_wf_items_push(c: u8, items: Seq<PayloadV>, x: PayloadV)
    requires
        wf_items(c, items, 0),
        wf_payload(x),
        code_of(x) == c,
    ensures
        wf_items(c, items.push(x), 0),
{
    lemma_wf_items_push_from(c, items, x, 0);
}

proof fn lemma_wf_members_push_from(ms: Seq<TagV>, x: TagV, i: int)
    requires
        0 <= i <= ms.len(),
        wf_members(ms, i),
        wf_tag(x),
    ensures
        wf_members(ms.push(x), i),
    decreases ms.len() - i,
{
    let p = ms.push(x);
    if i == ms.len() {
        assert(p[i] == x);
        assert(wf_members(p, i + 1));
    } else {
        assert(p[i] == ms[i]);
        lemma_wf_members_push_from(ms, x, i + 1);
        assert(wf_members(p, i + 1));
    }
}

/// A well-formed member keeps a compound well-formed.
pub proof fn lemma_wf_members_push(ms: Seq<TagV>, x: TagV)
    requires
        wf_members(ms, 0),
        wf_tag(x),
    ensures
        wf_members(ms.push(x), 0),
{
    lemma_wf_members_push_from(ms, x, 0);
}

/// Well-formedness of a run of list elements passes to its suffixes.
pub proof fn lemma_wf_items_suffix(c: u8, items: Seq<PayloadV>, i: int, j: int)
    requires
        0 <= i <= j <= items.len(),
        wf_items(c, items, i),
    ensures
        wf_items(c, items, j),
        forall|k: int| j <= k < items.len() ==> wf_payload(#[trigger] items[k]) && code_of(
            items[k],
        ) == c,
    decreases items.len() - i,
{
    if i < items.len() && i < j {
        lemma_wf_items_suffix(c, items, i + 1, j);
    } else if i < items.len() {
        lemma_wf_items_suffix(c, items, i + 1, i + 1);
    }
}

/// Well-formedness of a run of members passes to its suffixes.
pub proof fn lemma_wf_members_suffix(ms: Seq<TagV>, i: int, j: int)
    requires
        0 <= i <= j <= ms.len(),
        wf_members(ms, i),
    ensures
        wf_members(ms, j),
        forall|k: int| j <= k < ms.len() ==> wf_tag(#[trigger] ms[k]),
    decreases ms.len() - i,
{
    if i < ms.len() && i < j {
        lemma_wf_members_suffix(ms, i + 1, j);
    } else if i < ms.len() {
        lemma_wf_members_suffix(ms, i + 1, i + 1);
    }
}

} // verus!
