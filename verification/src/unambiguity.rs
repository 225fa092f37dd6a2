//! Unambiguity of the wire encoding: two well-formed trees whose encodings
//! agree on a common byte stream are the same tree. Together with the
//! parser's contract this gives the round-trip guarantee: decoding the
//! encoding of a tree yields that tree, node for node.

use vstd::prelude::*;
use crate::model::{
    be_u16, be_u32, be_u64, code_of, enc_i32s, enc_i64s, enc_items, enc_members, enc_payload,
    enc_tag, enc_u16, enc_u32, enc_u64, lemma_be_enc_u16, lemma_be_enc_u32, lemma_be_enc_u64,
    wf_items, wf_members, wf_payload, wf_tag, PayloadV, TagV,
};

verus! {

broadcast use vstd::seq::group_seq_axioms;

/// Cancelling equal-length prefixes of equal concatenations.
pub proof fn lemma_concat_cancel<A>(a: Seq<A>, b: Seq<A>, s1: Seq<A>, s2: Seq<A>)
    requires
        a.len() == b.len(),
        a + s1 == b + s2,
    ensures
        a == b,
        s1 == s2,
{
    assert((a + s1).len() == a.len() + s1.len());
    assert((b + s2).len() == b.len() + s2.len());
    assert forall|i: int| 0 <= i < a.len() implies a[i] == b[i] by {
        assert((a + s1)[i] == a[i]);
        assert((b + s2)[i] == b[i]);
    }
    assert(a =~= b);
    assert forall|i: int| 0 <= i < s1.len() implies s1[i] == s2[i] by {
        assert((a + s1)[a.len() + i] == s1[i]);
        assert((b + s2)[b.len() + i] == s2[i]);
    }
    assert(s1 =~= s2);
}

/// Every payload's type code lies in 1 through 12.
pub proof fn lemma_code_range(p: PayloadV)
    ensures
        1 <= code_of(p) <= 12,
{
}

proof fn lemma_cast_i8(v: i8)
    ensures
        (v as u8) as i8 == v,
{
    assert((v as u8) as i8 == v) by (bit_vector);
}

proof fn lemma_cast_i16(v: i16)
    ensures
        (v as u16) as i16 == v,
{
    assert((v as u16) as i16 == v) by (bit_vector);
}

proof fn lemma_cast_i32(v: i32)
    ensures
        (v as u32) as i32 == v,
{
    assert((v as u32) as i32 == v) by (bit_vector);
}

proof fn lemma_cast_i64(v: i64)
    ensures
        (v as u64) as i64 == v,
{
    assert((v as u64) as i64 == v) by (bit_vector);
}

/// Equal 16-bit encodings come from equal values.
proof fn lemma_enc_u16_inj(x: u16, y: u16)
    requires
        enc_u16(x) == enc_u16(y),
    ensures
        x == y,
{
    lemma_be_enc_u16(x);
    lemma_be_enc_u16(y);
}

/// Equal 32-bit encodings come from equal values.
proof fn lemma_enc_u32_inj(x: u32, y: u32)
    requires
        enc_u32(x) == enc_u32(y),
    ensures
        x == y,
{
    lemma_be_enc_u32(x);
    lemma_be_enc_u32(y);
}

/// Equal 64-bit encodings come from equal values.
proof fn lemma_enc_u64_inj(x: u64, y: u64)
    requires
        enc_u64(x) == enc_u64(y),
    ensures
        x == y,
{
    lemma_be_enc_u64(x);
    lemma_be_enc_u64(y);
}

/// Length of an encoded run of 32-bit values.
pub proof fn lemma_enc_i32s_len(s: Seq<i32>, i: int)
    requires
        0 <= i <= s.len(),
    ensures
        enc_i32s(s, i).len() == 4 * (s.len() - i),
    decreases s.len() - i,
{
    if i < s.len() {
        lemma_enc_i32s_len(s, i + 1);
    }
}

/// Length of an encoded run of 64-bit values.
pub proof fn lemma_enc_i64s_len(s: Seq<i64>, i: int)
    requires
        0 <= i <= s.len(),
    ensures
        enc_i64s(s, i).len() == 8 * (s.len() - i),
    decreases s.len() - i,
{
    if i < s.len() {
        lemma_enc_i64s_len(s, i + 1);
    }
}

/// Equal-length runs of 32-bit values with equal encodings are equal.
proof fn lemma_i32s_inj(a: Seq<i32>, b: Seq<i32>, i: int)
    requires
        a.len() == b.len(),
        0 <= i <= a.len(),
        enc_i32s(a, i) == enc_i32s(b, i),
    ensures
        forall|k: int| i <= k < a.len() ==> a[k] == b[k],
    decreases a.len() - i,
{
    if i < a.len() {
        let ea = enc_u32(a[i] as u32);
        let eb = enc_u32(b[i] as u32);
        lemma_concat_cancel(ea, eb, enc_i32s(a, i + 1), enc_i32s(b, i + 1));
        lemma_enc_u32_inj(a[i] as u32, b[i] as u32);
        lemma_cast_i32(a[i]);
        lemma_cast_i32(b[i]);
        lemma_i32s_inj(a, b, i + 1);
    }
}

/// Equal-length runs of 64-bit values with equal encodings are equal.
proof fn lemma_i64s_inj(a: Seq<i64>, b: Seq<i64>, i: int)
    requires
        a.len() == b.len(),
        0 <= i <= a.len(),
        enc_i64s(a, i) == enc_i64s(b, i),
    ensures
        forall|k: int| i <= k < a.len() ==> a[k] == b[k],
    decreases a.len() - i,
{
    if i < a.len() {
        let ea = enc_u64(a[i] as u64);
        let eb = enc_u64(b[i] as u64);
        lemma_concat_cancel(ea, eb, enc_i64s(a, i + 1), enc_i64s(b, i + 1));
        lemma_enc_u64_inj(a[i] as u64, b[i] as u64);
        lemma_cast_i64(a[i]);
        lemma_cast_i64(b[i]);
        lemma_i64s_inj(a, b, i + 1);
    }
}

/// Unambiguity for byte-array payloads.
proof fn lemma_bytearray_unamb(a: Seq<i8>, b: Seq<i8>, s1: Seq<u8>, s2: Seq<u8>)
    requires
        a.len() <= i32::MAX,
        b.len() <= i32::MAX,
        enc_payload(PayloadV::ByteArray(a)) + s1 == enc_payload(PayloadV::ByteArray(b)) + s2,
    ensures
        a == b,
        s1 == s2,
{
    let ma = a.map_values(|x: i8| x as u8);
    let mb = b.map_values(|x: i8| x as u8);
    assert((enc_u32(a.len() as u32) + ma) + s1 =~= enc_u32(a.len() as u32) + (ma + s1));
    assert((enc_u32(b.len() as u32) + mb) + s2 =~= enc_u32(b.len() as u32) + (mb + s2));
    lemma_concat_cancel(enc_u32(a.len() as u32), enc_u32(b.len() as u32), ma + s1, mb + s2);
    lemma_enc_u32_inj(a.len() as u32, b.len() as u32);
    lemma_concat_cancel(ma, mb, s1, s2);
    assert forall|k: int| 0 <= k < a.len() implies a[k] == b[k] by {
        assert(ma[k] == mb[k]);
        lemma_cast_i8(a[k]);
        lemma_cast_i8(b[k]);
    }
    assert(a =~= b);
}

/// Unambiguity for string payloads.
proof fn lemma_str_unamb(a: Seq<u8>, b: Seq<u8>, s1: Seq<u8>, s2: Seq<u8>)
    requires
        a.len() <= u16::MAX,
        b.len() <= u16::MAX,
        enc_payload(PayloadV::Str(a)) + s1 == enc_payload(PayloadV::Str(b)) + s2,
    ensures
        a == b,
        s1 == s2,
{
    assert((enc_u16(a.len() as u16) + a) + s1 =~= enc_u16(a.len() as u16) + (a + s1));
    assert((enc_u16(b.len() as u16) + b) + s2 =~= enc_u16(b.len() as u16) + (b + s2));
    lemma_concat_cancel(enc_u16(a.len() as u16), enc_u16(b.len() as u16), a + s1, b + s2);
    lemma_enc_u16_inj(a.len() as u16, b.len() as u16);
    lemma_concat_cancel(a, b, s1, s2);
}

/// Unambiguity for 32-bit-array payloads.
proof fn lemma_intarray_unamb(a: Seq<i32>, b: Seq<i32>, s1: Seq<u8>, s2: Seq<u8>)
    requires
        a.len() <= i32::MAX,
        b.len() <= i32::MAX,
        enc_payload(PayloadV::IntArray(a)) + s1 == enc_payload(PayloadV::IntArray(b)) + s2,
    ensures
        a == b,
        s1 == s2,
{
    let ea = enc_i32s(a, 0);
    let eb = enc_i32s(b, 0);
    assert((enc_u32(a.len() as u32) + ea) + s1 =~= enc_u32(a.len() as u32) + (ea + s1));
    assert((enc_u32(b.len() as u32) + eb) + s2 =~= enc_u32(b.len() as u32) + (eb + s2));
    lemma_concat_cancel(enc_u32(a.len() as u32), enc_u32(b.len() as u32), ea + s1, eb + s2);
    lemma_enc_u32_inj(a.len() as u32, b.len() as u32);
    lemma_enc_i32s_len(a, 0);
    lemma_enc_i32s_len(b, 0);
    lemma_concat_cancel(ea, eb, s1, s2);
    lemma_i32s_inj(a, b, 0);
    assert(a =~= b);
}

/// Unambiguity for 64-bit-array payloads.
proof fn lemma_longarray_unamb(a: Seq<i64>, b: Seq<i64>, s1: Seq<u8>, s2: Seq<u8>)
    requires
        a.len() <= i32::MAX,
        b.len() <= i32::MAX,
        enc_payload(PayloadV::LongArray(a)) + s1 == enc_payload(PayloadV::LongArray(b)) + s2,
    ensures
        a == b,
        s1 == s2,
{
    let ea = enc_i64s(a, 0);
    let eb = enc_i64s(b, 0);
    assert((enc_u32(a.len() as u32) + ea) + s1 =~= enc_u32(a.len() as u32) + (ea + s1));
    assert((enc_u32(b.len() as u32) + eb) + s2 =~= enc_u32(b.len() as u32) + (eb + s2));
    lemma_concat_cancel(enc_u32(a.len() as u32), enc_u32(b.len() as u32), ea + s1, eb + s2);
    lemma_enc_u32_inj(a.len() as u32, b.len() as u32);
    lemma_enc_i64s_len(a, 0);
    lemma_enc_i64s_len(b, 0);
    lemma_concat_cancel(ea, eb, s1, s2);
    lemma_i64s_inj(a, b, 0);
    assert(a =~= b);
}

/// Unambiguity for list payloads.
proof fn lemma_list_unamb(p1: PayloadV, p2: PayloadV, s1: Seq<u8>, s2: Seq<u8>)
    requires
        wf_payload(p1),
        wf_payload(p2),
        p1 is List,
        p2 is List,
        enc_payload(p1) + s1 == enc_payload(p2) + s2,
    ensures
        p1 == p2,
        s1 == s2,
    decreases p1, 1int,
{
    let c1 = p1->List_0;
    let items1 = p1->List_1;
    let c2 = p2->List_0;
    let items2 = p2->List_1;
    let ha = seq![c1] + enc_u32(items1.len() as u32);
    let hb = seq![c2] + enc_u32(items2.len() as u32);
    assert((ha + enc_items(items1, 0)) + s1 =~= ha + (enc_items(items1, 0) + s1));
    assert(enc_payload(p1) =~= ha + enc_items(items1, 0));
    assert((hb + enc_items(items2, 0)) + s2 =~= hb + (enc_items(items2, 0) + s2));
    assert(enc_payload(p2) =~= hb + enc_items(items2, 0));
    lemma_concat_cancel(ha, hb, enc_items(items1, 0) + s1, enc_items(items2, 0) + s2);
    assert(ha[0] == c1);
    assert(hb[0] == c2);
    assert(c1 == c2);
    assert(enc_u32(items1.len() as u32) =~= ha.subrange(1, 5));
    assert(enc_u32(items2.len() as u32) =~= hb.subrange(1, 5));
    lemma_enc_u32_inj(items1.len() as u32, items2.len() as u32);
    lemma_items_unamb(c1, items1, items2, 0, s1, s2);
    assert(items1 =~= items2);
}

/// Unambiguity for compound payloads.
proof fn lemma_compound_unamb(p1: PayloadV, p2: PayloadV, s1: Seq<u8>, s2: Seq<u8>)
    requires
        wf_payload(p1),
        wf_payload(p2),
        p1 is Compound,
        p2 is Compound,
        enc_payload(p1) + s1 == enc_payload(p2) + s2,
    ensures
        p1 == p2,
        s1 == s2,
    decreases p1, 1int,
{
    let ms1 = p1->Compound_0;
    let ms2 = p2->Compound_0;
    assert((enc_members(ms1, 0) + seq![0u8]) + s1 =~= enc_members(ms1, 0) + (seq![0u8] + s1));
    assert((enc_members(ms2, 0) + seq![0u8]) + s2 =~= enc_members(ms2, 0) + (seq![0u8] + s2));
    lemma_members_unamb(ms1, ms2, 0, 0, s1, s2);
    assert(ms1.skip(0) =~= ms1);
    assert(ms2.skip(0) =~= ms2);
}

/// Two well-formed payloads of the same type code whose encodings agree on a
/// common stream are equal, and the streams behind them agree too.
pub proof fn lemma_payload_unamb(p1: PayloadV, p2: PayloadV, s1: Seq<u8>, s2: Seq<u8>)
    requires
        wf_payload(p1),
        wf_payload(p2),
        code_of(p1) == code_of(p2),
        enc_payload(p1) + s1 == enc_payload(p2) + s2,
    ensures
        p1 == p2,
        s1 == s2,
    decreases p1, 2int,
{
    match (p1, p2) {
        (PayloadV::Byte(v1), PayloadV::Byte(v2)) => {
            assert((enc_payload(p1) + s1)[0] == (enc_payload(p2) + s2)[0]);
            assert((enc_payload(p1) + s1)[0] == v1 as u8);
            assert((enc_payload(p2) + s2)[0] == v2 as u8);
            lemma_cast_i8(v1);
            lemma_cast_i8(v2);
            lemma_concat_cancel(enc_payload(p1), enc_payload(p2), s1, s2);
        },
        (PayloadV::Short(v1), PayloadV::Short(v2)) => {
            lemma_concat_cancel(enc_payload(p1), enc_payload(p2), s1, s2);
            lemma_enc_u16_inj(v1 as u16, v2 as u16);
            lemma_cast_i16(v1);
            lemma_cast_i16(v2);
        },
        (PayloadV::Int(v1), PayloadV::Int(v2)) => {
            lemma_concat_cancel(enc_payload(p1), enc_payload(p2), s1, s2);
            lemma_enc_u32_inj(v1 as u32, v2 as u32);
            lemma_cast_i32(v1);
            lemma_cast_i32(v2);
        },
        (PayloadV::Long(v1), PayloadV::Long(v2)) => {
            lemma_concat_cancel(enc_payload(p1), enc_payload(p2), s1, s2);
            lemma_enc_u64_inj(v1 as u64, v2 as u64);
            lemma_cast_i64(v1);
            lemma_cast_i64(v2);
        },
        (PayloadV::Float(v1), PayloadV::Float(v2)) => {
            lemma_concat_cancel(enc_payload(p1), enc_payload(p2), s1, s2);
            lemma_enc_u32_inj(v1, v2);
        },
        (PayloadV::Double(v1), PayloadV::Double(v2)) => {
            lemma_concat_cancel(enc_payload(p1), enc_payload(p2), s1, s2);
            lemma_enc_u64_inj(v1, v2);
        },
        (PayloadV::ByteArray(a), PayloadV::ByteArray(b)) => {
            lemma_bytearray_unamb(a, b, s1, s2);
        },
        (PayloadV::Str(a), PayloadV::Str(b)) => {
            lemma_str_unamb(a, b, s1, s2);
        },
        (PayloadV::List(c1, items1), PayloadV::List(c2, items2)) => {
            lemma_list_unamb(p1, p2, s1, s2);
        },
        (PayloadV::Compound(ms1), PayloadV::Compound(ms2)) => {
            lemma_compound_unamb(p1, p2, s1, s2);
        },
        (PayloadV::IntArray(a), PayloadV::IntArray(b)) => {
            lemma_intarray_unamb(a, b, s1, s2);
        },
        (PayloadV::LongArray(a), PayloadV::LongArray(b)) => {
            lemma_longarray_unamb(a, b, s1, s2);
        },
        _ => {
            assert(false);
        },
    }
}

/// Equal-count runs of list elements of one element code whose encodings
/// agree on a common stream are equal element for element.
proof fn lemma_items_unamb(
    c: u8,
    a: Seq<PayloadV>,
    b: Seq<PayloadV>,
    i: int,
    s1: Seq<u8>,
    s2: Seq<u8>,
)
    requires
        wf_items(c, a, i),
        wf_items(c, b, i),
        a.len() == b.len(),
        0 <= i <= a.len(),
        enc_items(a, i) + s1 == enc_items(b, i) + s2,
    ensures
        forall|k: int| i <= k < a.len() ==> a[k] == b[k],
        s1 == s2,
    decreases a, a.len() - i,
{
    if i >= a.len() {
        assert(enc_items(a, i) + s1 =~= s1);
        assert(enc_items(b, i) + s2 =~= s2);
    } else {
        assert((enc_payload(a[i]) + enc_items(a, i + 1)) + s1 =~= enc_payload(a[i]) + (enc_items(
            a,
            i + 1,
        ) + s1));
        assert((enc_payload(b[i]) + enc_items(b, i + 1)) + s2 =~= enc_payload(b[i]) + (enc_items(
            b,
            i + 1,
        ) + s2));
        lemma_payload_unamb(a[i], b[i], enc_items(a, i + 1) + s1, enc_items(b, i + 1) + s2);
        lemma_items_unamb(c, a, b, i + 1, s1, s2);
    }
}

/// Two well-formed named tags whose encodings agree on a common stream are
/// the same tag, and the streams behind them agree too.
pub proof fn lemma_tag_unamb(t1: TagV, t2: TagV, s1: Seq<u8>, s2: Seq<u8>)
    requires
        wf_tag(t1),
        wf_tag(t2),
        enc_tag(t1) + s1 == enc_tag(t2) + s2,
    ensures
        t1 == t2,
        s1 == s2,
    decreases t1, 3int,
{
    let h1 = seq![code_of(t1.payload)] + enc_u16(t1.name.len() as u16) + t1.name;
    let h2 = seq![code_of(t2.payload)] + enc_u16(t2.name.len() as u16) + t2.name;
    assert(enc_tag(t1) + s1 =~= h1 + (enc_payload(t1.payload) + s1));
    assert(enc_tag(t2) + s2 =~= h2 + (enc_payload(t2.payload) + s2));
    assert((h1 + (enc_payload(t1.payload) + s1))[0] == (h2 + (enc_payload(t2.payload) + s2))[0]);
    assert(h1[0] == code_of(t1.payload));
    assert(h2[0] == code_of(t2.payload));
    assert(code_of(t1.payload) == code_of(t2.payload));
    assert(h1[1] == enc_u16(t1.name.len() as u16)[0] && h1[2] == enc_u16(t1.name.len() as u16)[1]);
    assert(h2[1] == enc_u16(t2.name.len() as u16)[0] && h2[2] == enc_u16(t2.name.len() as u16)[1]);
    assert((h1 + (enc_payload(t1.payload) + s1))[1] == (h2 + (enc_payload(t2.payload) + s2))[1]);
    assert((h1 + (enc_payload(t1.payload) + s1))[2] == (h2 + (enc_payload(t2.payload) + s2))[2]);
    assert(enc_u16(t1.name.len() as u16) =~= enc_u16(t2.name.len() as u16));
    lemma_enc_u16_inj(t1.name.len() as u16, t2.name.len() as u16);
    assert(t1.name.len() == t2.name.len());
    assert(h1.len() == h2.len());
    lemma_concat_cancel(h1, h2, enc_payload(t1.payload) + s1, enc_payload(t2.payload) + s2);
    assert(t1.name =~= h2.subrange(3, h2.len() as int));
    assert(t2.name =~= h2.subrange(3, h2.len() as int));
    lemma_payload_unamb(t1.payload, t2.payload, s1, s2);
}

/// Runs of compound members, each closed by the terminating zero byte, that
/// agree on a common stream are equal member for member; a member's leading
/// type code is never zero, so the terminator cannot be mistaken for one.
#[verifier::rlimit(80)]
proof fn lemma_members_unamb(
    ms1: Seq<TagV>,
    ms2: Seq<TagV>,
    i1: int,
    i2: int,
    u1: Seq<u8>,
    u2: Seq<u8>,
)
    requires
        wf_members(ms1, i1),
        wf_members(ms2, i2),
        0 <= i1 <= ms1.len(),
        0 <= i2 <= ms2.len(),
        enc_members(ms1, i1) + (seq![0u8] + u1) == enc_members(ms2, i2) + (seq![0u8] + u2),
    ensures
        ms1.skip(i1) == ms2.skip(i2),
        u1 == u2,
    decreases ms1, ms1.len() - i1,
{
    let lhs = enc_members(ms1, i1) + (seq![0u8] + u1);
    let rhs = enc_members(ms2, i2) + (seq![0u8] + u2);
    if i1 >= ms1.len() && i2 >= ms2.len() {
        assert(lhs =~= seq![0u8] + u1);
        assert(rhs =~= seq![0u8] + u2);
        lemma_concat_cancel(seq![0u8], seq![0u8], u1, u2);
        assert(ms1.skip(i1) =~= ms2.skip(i2));
    } else if i1 >= ms1.len() {
        assert(lhs[0] == 0u8);
        let t = ms2[i2];
        assert(enc_members(ms2, i2) == enc_tag(t) + enc_members(ms2, i2 + 1));
        assert(enc_tag(t)[0] == code_of(t.payload));
        assert(rhs[0] == code_of(t.payload));
        lemma_code_range(t.payload);
        assert(false);
    } else if i2 >= ms2.len() {
        assert(rhs[0] == 0u8);
        let t = ms1[i1];
        assert(enc_members(ms1, i1) == enc_tag(t) + enc_members(ms1, i1 + 1));
        assert(enc_tag(t)[0] == code_of(t.payload));
        assert(lhs[0] == code_of(t.payload));
        lemma_code_range(t.payload);
        assert(false);
    } else {
        let t1 = ms1[i1];
        let t2 = ms2[i2];
        assert((enc_tag(t1) + enc_members(ms1, i1 + 1)) + (seq![0u8] + u1) =~= enc_tag(t1) + (
        enc_members(ms1, i1 + 1) + (seq![0u8] + u1)));
        assert((enc_tag(t2) + enc_members(ms2, i2 + 1)) + (seq![0u8] + u2) =~= enc_tag(t2) + (
        enc_members(ms2, i2 + 1) + (seq![0u8] + u2)));
        lemma_tag_unamb(
            t1,
            t2,
            enc_members(ms1, i1 + 1) + (seq![0u8] + u1),
            enc_members(ms2, i2 + 1) + (seq![0u8] + u2),
        );
        lemma_members_unamb(ms1, ms2, i1 + 1, i2 + 1, u1, u2);
        assert(ms1.skip(i1 + 1).len() == ms2.skip(i2 + 1).len());
        assert(ms1.skip(i1).len() == ms2.skip(i2).len());
        assert forall|j: int| 0 <= j < ms1.skip(i1).len() implies ms1.skip(i1)[j] == ms2.skip(
            i2,
        )[j] by {
            vstd::seq::axiom_seq_subrange_index::<TagV>(ms1, i1, ms1.len() as int, j);
            vstd::seq::axiom_seq_subrange_index::<TagV>(ms2, i2, ms2.len() as int, j);
            if j > 0 {
                vstd::seq::axiom_seq_subrange_index::<TagV>(ms1, i1 + 1, ms1.len() as int, j - 1);
                vstd::seq::axiom_seq_subrange_index::<TagV>(ms2, i2 + 1, ms2.len() as int, j - 1);
                assert(ms1.skip(i1 + 1)[j - 1] == ms2.skip(i2 + 1)[j - 1]);
            }
        }
        assert(ms1.skip(i1) =~= ms2.skip(i2));
    }
}

} // verus!
