//! The recursive NBT decoder. `Tag::parse` reads one document root,
//! `Tag::parse_payload` one payload of a given type code. The contracts say,
//! over the wire encoding of the model: whatever is returned is the unique
//! tree whose encoding the stream holds at the cursor (soundness), and
//! whenever the stream holds such an encoding the decoder returns it
//! (completeness).

use vstd::prelude::*;
use crate::cursor::Cursor;
use crate::error::NbtError;
use crate::model::{
    be_u16, be_u32, code_of, enc_items, enc_members, enc_payload, enc_tag, enc_u16, enc_u32,
    is_utf8, lemma_be_enc_u16, lemma_be_enc_u32, lemma_subrange_split, lemma_wf_items_suffix,
    lemma_wf_members_suffix, wf_items, wf_members, wf_payload, wf_tag, PayloadV, TagV,
};
use crate::unambiguity::{lemma_enc_i32s_len, lemma_enc_i64s_len};
use crate::tag::{Tag, TagPayload};

verus! {

broadcast use vstd::seq::group_seq_axioms;

/// The bytes `e` stand at position `pos` of `s`.
pub open spec fn can_read(s: Seq<u8>, pos: int, e: Seq<u8>) -> bool {
    0 <= pos && pos + e.len() <= s.len() && s.subrange(pos, pos + e.len()) == e
}

/// A well-formed payload of type code `code` is encoded at `pos`.
pub open spec fn payload_fits(s: Seq<u8>, pos: int, code: u8, p: PayloadV) -> bool {
    wf_payload(p) && code_of(p) == code && can_read(s, pos, enc_payload(p))
}

/// A well-formed named tag is encoded at `pos`.
pub open spec fn tag_fits(s: Seq<u8>, pos: int, t: TagV) -> bool {
    wf_tag(t) && can_read(s, pos, enc_tag(t))
}

/// From `pos` to the very end of `s` stands a run of well-formed members
/// with no terminating zero byte after it.
pub open spec fn members_unterminated(s: Seq<u8>, pos: int, ms: Seq<TagV>) -> bool {
    wf_members(ms, 0) && pos + enc_members(ms, 0).len() == s.len() && can_read(
        s,
        pos,
        enc_members(ms, 0),
    )
}

/// Reading a concatenation is reading its parts in order.
pub proof fn lemma_can_read_split(s: Seq<u8>, pos: int, a: Seq<u8>, b: Seq<u8>)
    requires
        can_read(s, pos, a + b),
    ensures
        can_read(s, pos, a),
        can_read(s, pos + a.len(), b),
{
    assert((a + b).len() == a.len() + b.len());
    lemma_subrange_split(s, pos, pos + a.len(), pos + (a + b).len());
    crate::unambiguity::lemma_concat_cancel(
        s.subrange(pos, pos + a.len()),
        a,
        s.subrange(pos + a.len(), pos + a.len() + b.len()),
        b,
    );
}

/// The bytes read are the bytes of `e`, one for one.
pub proof fn lemma_can_read_index(s: Seq<u8>, pos: int, e: Seq<u8>)
    requires
        can_read(s, pos, e),
    ensures
        forall|i: int| 0 <= i < e.len() ==> s[pos + i] == #[trigger] e[i],
{
    assert forall|i: int| 0 <= i < e.len() implies s[pos + i] == #[trigger] e[i] by {
        assert(s.subrange(pos, pos + e.len())[i] == s[pos + i]);
    }
}

/// Width in bytes of a scalar payload of code 1 through 6.
pub open spec fn scalar_width(code: u8) -> int {
    if code == 1 {
        1
    } else if code == 2 {
        2
    } else if code == 3 || code == 5 {
        4
    } else {
        8
    }
}

/// A scalar payload's encoding has its fixed width.
pub proof fn lemma_scalar_fits_width(s: Seq<u8>, pos: int, code: u8, p: PayloadV)
    requires
        payload_fits(s, pos, code, p),
        1 <= code <= 6,
    ensures
        pos + scalar_width(code) <= s.len(),
        enc_payload(p).len() == scalar_width(code),
{
    match p {
        PayloadV::Byte(_) => {},
        PayloadV::Short(_) => {},
        PayloadV::Int(_) => {},
        PayloadV::Long(_) => {},
        PayloadV::Float(_) => {},
        PayloadV::Double(_) => {},
        _ => {
            assert(false);
        },
    }
}

/// Element count of an array payload.
pub open spec fn arr_len(p: PayloadV) -> int {
    match p {
        PayloadV::ByteArray(a) => a.len() as int,
        PayloadV::IntArray(a) => a.len() as int,
        PayloadV::LongArray(a) => a.len() as int,
        _ => 0,
    }
}

/// Element width of an array payload of code 7, 11 or 12.
pub open spec fn arr_elem_width(code: u8) -> int {
    if code == 7 {
        1
    } else if code == 11 {
        4
    } else {
        8
    }
}

/// An array payload's count field holds its element count, and the whole
/// array stands inside the stream.
pub proof fn lemma_array_fits_fields(s: Seq<u8>, pos: int, code: u8, p: PayloadV)
    requires
        payload_fits(s, pos, code, p),
        code == 7 || code == 11 || code == 12,
    ensures
        pos + 4 <= s.len(),
        0 <= arr_len(p) <= i32::MAX,
        be_u32(s[pos], s[pos + 1], s[pos + 2], s[pos + 3]) == arr_len(p) as u32,
        pos + 4 + arr_elem_width(code) * arr_len(p) <= s.len(),
{
    let n = arr_len(p);
    let body: Seq<u8> = match p {
        PayloadV::ByteArray(a) => a.map_values(|x: i8| x as u8),
        PayloadV::IntArray(a) => crate::model::enc_i32s(a, 0),
        PayloadV::LongArray(a) => crate::model::enc_i64s(a, 0),
        _ => Seq::empty(),
    };
    match p {
        PayloadV::ByteArray(a) => {
            assert(body.len() == n);
        },
        PayloadV::IntArray(a) => {
            lemma_enc_i32s_len(a, 0);
        },
        PayloadV::LongArray(a) => {
            lemma_enc_i64s_len(a, 0);
        },
        _ => {
            assert(false);
        },
    }
    assert(enc_payload(p) == enc_u32(n as u32) + body);
    lemma_can_read_split(s, pos, enc_u32(n as u32), body);
    lemma_can_read_index(s, pos, enc_u32(n as u32));
    lemma_be_enc_u32(n as u32);
    assert(be_u32(s[pos], s[pos + 1], s[pos + 2], s[pos + 3]) == be_u32(
        enc_u32(n as u32)[0],
        enc_u32(n as u32)[1],
        enc_u32(n as u32)[2],
        enc_u32(n as u32)[3],
    ));
}

/// A string payload's length field holds its byte count, its bytes follow,
/// and they are valid UTF-8.
pub proof fn lemma_str_fits_fields(s: Seq<u8>, pos: int, p: PayloadV)
    requires
        payload_fits(s, pos, 8, p),
    ensures
        p is Str,
        pos + 2 <= s.len(),
        0 <= p->Str_0.len() <= u16::MAX,
        be_u16(s[pos], s[pos + 1]) == p->Str_0.len() as u16,
        can_read(s, pos + 2, p->Str_0),
        is_utf8(p->Str_0),
{
    let a = p->Str_0;
    assert(enc_payload(p) == enc_u16(a.len() as u16) + a);
    lemma_can_read_split(s, pos, enc_u16(a.len() as u16), a);
    lemma_can_read_index(s, pos, enc_u16(a.len() as u16));
    lemma_be_enc_u16(a.len() as u16);
    assert(be_u16(s[pos], s[pos + 1]) == be_u16(
        enc_u16(a.len() as u16)[0],
        enc_u16(a.len() as u16)[1],
    ));
}

/// A list payload's header holds its element code and count, and its
/// elements' encodings follow.
pub proof fn lemma_list_fits_fields(s: Seq<u8>, pos: int, p: PayloadV)
    requires
        payload_fits(s, pos, 9, p),
    ensures
        p is List,
        pos + 5 <= s.len(),
        s[pos] == p->List_0,
        0 <= p->List_1.len() <= i32::MAX,
        be_u32(s[pos + 1], s[pos + 2], s[pos + 3], s[pos + 4]) == p->List_1.len() as u32,
        wf_items(p->List_0, p->List_1, 0),
        can_read(s, pos + 5, enc_items(p->List_1, 0)),
{
    let c = p->List_0;
    let items = p->List_1;
    let h = seq![c] + enc_u32(items.len() as u32);
    assert(enc_payload(p) == seq![c] + enc_u32(items.len() as u32) + enc_items(items, 0));
    assert(enc_payload(p) =~= h + enc_items(items, 0));
    lemma_can_read_split(s, pos, h, enc_items(items, 0));
    assert(h.len() == 5);
    lemma_can_read_index(s, pos, h);
    assert(h[0] == c);
    assert(h[1] == enc_u32(items.len() as u32)[0]);
    assert(h[2] == enc_u32(items.len() as u32)[1]);
    assert(h[3] == enc_u32(items.len() as u32)[2]);
    assert(h[4] == enc_u32(items.len() as u32)[3]);
    lemma_be_enc_u32(items.len() as u32);
    assert(be_u32(s[pos + 1], s[pos + 2], s[pos + 3], s[pos + 4]) == be_u32(
        enc_u32(items.len() as u32)[0],
        enc_u32(items.len() as u32)[1],
        enc_u32(items.len() as u32)[2],
        enc_u32(items.len() as u32)[3],
    ));
}

/// A compound payload's bytes are its member run then the zero terminator.
pub proof fn lemma_compound_fits_fields(s: Seq<u8>, pos: int, p: PayloadV)
    requires
        payload_fits(s, pos, 10, p),
    ensures
        p is Compound,
        wf_members(p->Compound_0, 0),
        can_read(s, pos, enc_members(p->Compound_0, 0) + seq![0u8]),
{
    let ms = p->Compound_0;
    assert(enc_payload(p) == enc_members(ms, 0) + seq![0u8]);
}

/// A named tag's header holds its type code and name, and its payload's
/// encoding follows.
pub proof fn lemma_tag_fits_fields(s: Seq<u8>, pos: int, t: TagV)
    requires
        can_read(s, pos, enc_tag(t)),
        wf_tag(t),
    ensures
        pos + 3 <= s.len(),
        s[pos] == code_of(t.payload),
        1 <= code_of(t.payload) <= 12,
        0 <= t.name.len() <= u16::MAX,
        be_u16(s[pos + 1], s[pos + 2]) == t.name.len() as u16,
        can_read(s, pos + 3, t.name),
        is_utf8(t.name),
        payload_fits(s, pos + 3 + t.name.len(), code_of(t.payload), t.payload),
{
    let h = seq![code_of(t.payload)] + enc_u16(t.name.len() as u16);
    assert(enc_tag(t) == seq![code_of(t.payload)] + enc_u16(t.name.len() as u16) + t.name
        + enc_payload(t.payload));
    assert(enc_tag(t) =~= (h + t.name) + enc_payload(t.payload));
    lemma_can_read_split(s, pos, h + t.name, enc_payload(t.payload));
    lemma_can_read_split(s, pos, h, t.name);
    assert(h.len() == 3);
    lemma_can_read_index(s, pos, h);
    assert(h[0] == code_of(t.payload));
    assert(h[1] == enc_u16(t.name.len() as u16)[0]);
    assert(h[2] == enc_u16(t.name.len() as u16)[1]);
    lemma_be_enc_u16(t.name.len() as u16);
    assert(be_u16(s[pos + 1], s[pos + 2]) == be_u16(
        enc_u16(t.name.len() as u16)[0],
        enc_u16(t.name.len() as u16)[1],
    ));
    crate::unambiguity::lemma_code_range(t.payload);
}

/// The root a document's bytes hold: the unique well-formed tag whose
/// encoding starts the stream, if any.
pub open spec fn spec_doc_root(s: Seq<u8>) -> Option<TagV> {
    if exists|t: TagV| tag_fits(s, 0, t) {
        Some(choose|t: TagV| tag_fits(s, 0, t))
    } else {
        None
    }
}

/// At most one well-formed tag is encoded at the start of a stream.
pub proof fn lemma_doc_root_unique(s: Seq<u8>, t: TagV)
    requires
        tag_fits(s, 0, t),
    ensures
        spec_doc_root(s) == Some(t),
{
    let t2 = choose|q: TagV| tag_fits(s, 0, q);
    let l1 = enc_tag(t).len() as int;
    let l2 = enc_tag(t2).len() as int;
    assert(s.subrange(0, s.len() as int) =~= s);
    lemma_subrange_split(s, 0, l1, s.len() as int);
    lemma_subrange_split(s, 0, l2, s.len() as int);
    crate::unambiguity::lemma_tag_unamb(
        t,
        t2,
        s.subrange(l1, s.len() as int),
        s.subrange(l2, s.len() as int),
    );
}

/// A stream whose first byte is the end marker holds no root.
pub proof fn lemma_doc_root_none(s: Seq<u8>)
    requires
        s.len() == 0 || s[0] == 0,
    ensures
        spec_doc_root(s) is None,
{
    if exists|t: TagV| tag_fits(s, 0, t) {
        let t = choose|q: TagV| tag_fits(s, 0, q);
        lemma_tag_fits_fields(s, 0, t);
    }
}

/// What the byte stream holds where a well-formed member tag is encoded:
/// its code byte, its name length, its name bytes, then its payload.
proof fn lemma_member_reads(s: Seq<u8>, q0: int, t: TagV, nlen: u16)
    requires
        wf_tag(t),
        can_read(s, q0, enc_tag(t)),
        be_u16(s[q0 + 1], s[q0 + 2]) == nlen,
    ensures
        q0 + 3 <= s.len(),
        t.name.len() == nlen as int,
        q0 + 3 + nlen <= s.len(),
        t.name == s.subrange(q0 + 3, q0 + 3 + nlen),
        is_utf8(s.subrange(q0 + 3, q0 + 3 + nlen)),
        payload_fits(s, q0 + 3 + nlen, code_of(t.payload), t.payload),
        s[q0] == code_of(t.payload),
{
    lemma_tag_fits_fields(s, q0, t);
    assert(t.name.len() as u16 == nlen);
    assert(t.name.len() == nlen as int);
    assert(t.name == s.subrange(q0 + 3, q0 + 3 + t.name.len()));
}

impl Tag {
    /// Decodes one payload of type code `tag_id` at the cursor.
    ///
    /// On success the returned payload is well-formed, carries `tag_id`, and
    /// its wire encoding is exactly the bytes consumed; whenever such a
    /// payload stands at the cursor, decoding succeeds. A compound stream
    /// that runs out before its terminating zero byte yields `UnexpectedEnd`.
    #[verifier::rlimit(100)]
    pub fn parse_payload(cur: &mut Cursor, tag_id: u8) -> (r: Result<TagPayload, NbtError>)
        requires
            old(cur).wf(),
        ensures
            final(cur).wf(),
            final(cur).spec_data() == old(cur).spec_data(),
            r matches Ok(p) ==> payload_fits(
                old(cur).spec_data(),
                old(cur).spec_pos(),
                tag_id,
                p@,
            ) && final(cur).spec_pos() == old(cur).spec_pos() + enc_payload(p@).len(),
            (exists|q: PayloadV|
                payload_fits(old(cur).spec_data(), old(cur).spec_pos(), tag_id, q)) ==> r is Ok,
            r matches Err(e) ==> (e == NbtError::UnexpectedEnd || e == NbtError::InvalidEncoding
                || e == NbtError::InvalidLength || e == NbtError::UnknownTagType),
            tag_id == 0 || tag_id > 12 ==> r == Err::<TagPayload, NbtError>(
                NbtError::UnknownTagType,
            ),
            tag_id == 10 && (exists|ms: Seq<TagV>|
                members_unterminated(old(cur).spec_data(), old(cur).spec_pos(), ms)) ==> r
                == Err::<TagPayload, NbtError>(NbtError::UnexpectedEnd),
        decreases old(cur).remaining(), 1int,
    {
        let ghost s = cur.spec_data();
        let ghost p0 = cur.spec_pos();
        if tag_id == 1 {
            match cur.next_i8() {
                Ok(v) => {
                    let p = TagPayload::Byte(v);
                    proof {
                        crate::model::lemma_cast_u8_i8(s[p0]);
                        assert(enc_payload(p@) =~= s.subrange(p0, p0 + 1));
                    }
                    Ok(p)
                },
                Err(e) => {
                    proof {
                        assert forall|q: PayloadV| !payload_fits(s, p0, tag_id, q) by {
                            if payload_fits(s, p0, tag_id, q) {
                                lemma_scalar_fits_width(s, p0, tag_id, q);
                            }
                        }
                    }
                    Err(e)
                },
            }
        } else if tag_id == 2 {
            match cur.next_i16() {
                Ok(v) => {
                    let p = TagPayload::Short(v);
                    proof {
                        crate::model::lemma_cast_u16_i16(be_u16(s[p0], s[p0 + 1]));
                        crate::model::lemma_enc_be_u16(s[p0], s[p0 + 1]);
                        assert(enc_payload(p@) =~= s.subrange(p0, p0 + 2));
                    }
                    Ok(p)
                },
                Err(e) => {
                    proof {
                        assert forall|q: PayloadV| !payload_fits(s, p0, tag_id, q) by {
                            if payload_fits(s, p0, tag_id, q) {
                                lemma_scalar_fits_width(s, p0, tag_id, q);
                            }
                        }
                    }
                    Err(e)
                },
            }
        } else if tag_id == 3 {
            match cur.next_i32() {
                Ok(v) => {
                    let p = TagPayload::Int(v);
                    proof {
                        crate::model::lemma_cast_u32_i32(
                            be_u32(s[p0], s[p0 + 1], s[p0 + 2], s[p0 + 3]),
                        );
                        crate::model::lemma_enc_be_u32(s[p0], s[p0 + 1], s[p0 + 2], s[p0 + 3]);
                        assert(enc_payload(p@) =~= s.subrange(p0, p0 + 4));
                    }
                    Ok(p)
                },
                Err(e) => {
                    proof {
                        assert forall|q: PayloadV| !payload_fits(s, p0, tag_id, q) by {
                            if payload_fits(s, p0, tag_id, q) {
                                lemma_scalar_fits_width(s, p0, tag_id, q);
                            }
                        }
                    }
                    Err(e)
                },
            }
        } else if tag_id == 4 {
            match cur.next_i64() {
                Ok(v) => {
                    let p = TagPayload::Long(v);
                    proof {
                        crate::model::lemma_cast_u64_i64(
                            crate::model::be_u64(
                                s[p0],
                                s[p0 + 1],
                                s[p0 + 2],
                                s[p0 + 3],
                                s[p0 + 4],
                                s[p0 + 5],
                                s[p0 + 6],
                                s[p0 + 7],
                            ),
                        );
                        crate::model::lemma_enc_be_u64(
                            s[p0],
                            s[p0 + 1],
                            s[p0 + 2],
                            s[p0 + 3],
                            s[p0 + 4],
                            s[p0 + 5],
                            s[p0 + 6],
                            s[p0 + 7],
                        );
                        assert(enc_payload(p@) =~= s.subrange(p0, p0 + 8));
                    }
                    Ok(p)
                },
                Err(e) => {
                    proof {
                        assert forall|q: PayloadV| !payload_fits(s, p0, tag_id, q) by {
                            if payload_fits(s, p0, tag_id, q) {
                                lemma_scalar_fits_width(s, p0, tag_id, q);
                            }
                        }
                    }
                    Err(e)
                },
            }
        } else if tag_id == 5 {
            match cur.next_u32() {
                Ok(bits) => {
                    let p = TagPayload::Float(bits);
                    proof {
                        crate::model::lemma_enc_be_u32(s[p0], s[p0 + 1], s[p0 + 2], s[p0 + 3]);
                        assert(enc_payload(p@) =~= s.subrange(p0, p0 + 4));
                    }
                    Ok(p)
                },
                Err(e) => {
                    proof {
                        assert forall|q: PayloadV| !payload_fits(s, p0, tag_id, q) by {
                            if payload_fits(s, p0, tag_id, q) {
                                lemma_scalar_fits_width(s, p0, tag_id, q);
                            }
                        }
                    }
                    Err(e)
                },
            }
        } else if tag_id == 6 {
            match cur.next_u64() {
                Ok(bits) => {
                    let p = TagPayload::Double(bits);
                    proof {
                        crate::model::lemma_enc_be_u64(
                            s[p0],
                            s[p0 + 1],
                            s[p0 + 2],
                            s[p0 + 3],
                            s[p0 + 4],
                            s[p0 + 5],
                            s[p0 + 6],
                            s[p0 + 7],
                        );
                        assert(enc_payload(p@) =~= s.subrange(p0, p0 + 8));
                    }
                    Ok(p)
                },
                Err(e) => {
                    proof {
                        assert forall|q: PayloadV| !payload_fits(s, p0, tag_id, q) by {
                            if payload_fits(s, p0, tag_id, q) {
                                lemma_scalar_fits_width(s, p0, tag_id, q);
                            }
                        }
                    }
                    Err(e)
                },
            }
        } else if tag_id == 7 {
            let cnt = match cur.next_i32() {
                Ok(c) => c,
                Err(e) => {
                    proof {
                        assert forall|q: PayloadV| !payload_fits(s, p0, tag_id, q) by {
                            if payload_fits(s, p0, tag_id, q) {
                                lemma_array_fits_fields(s, p0, tag_id, q);
                            }
                        }
                    }
                    return Err(e);
                },
            };
            let ghost w32 = be_u32(s[p0], s[p0 + 1], s[p0 + 2], s[p0 + 3]);
            if cnt < 0 {
                proof {
                    assert forall|q: PayloadV| !payload_fits(s, p0, tag_id, q) by {
                        if payload_fits(s, p0, tag_id, q) {
                            lemma_array_fits_fields(s, p0, tag_id, q);
                            crate::model::lemma_u32_to_i32_small(w32);
                        }
                    }
                }
                return Err(NbtError::InvalidLength);
            }
            let n = cnt as usize;
            match cur.next_n_i8_vec(n) {
                Ok(v) => {
                    let p = TagPayload::ByteArray(v);
                    proof {
                        crate::model::lemma_cast_u32_i32(w32);
                        crate::model::lemma_enc_be_u32(s[p0], s[p0 + 1], s[p0 + 2], s[p0 + 3]);
                        assert(enc_u32(v@.len() as u32) =~= s.subrange(p0, p0 + 4));
                        let body = v@.map_values(|x: i8| x as u8);
                        assert forall|j: int| 0 <= j < v@.len() implies body[j] == s[p0 + 4
                            + j] by {
                            crate::model::lemma_cast_u8_i8(s[p0 + 4 + j]);
                        }
                        assert(body =~= s.subrange(p0 + 4, p0 + 4 + n));
                        lemma_subrange_split(s, p0, p0 + 4, p0 + 4 + n);
                        assert(enc_payload(p@) == enc_u32(v@.len() as u32) + body);
                        assert(enc_payload(p@) == s.subrange(p0, p0 + 4 + n));
                    }
                    Ok(p)
                },
                Err(e) => {
                    proof {
                        assert forall|q: PayloadV| !payload_fits(s, p0, tag_id, q) by {
                            if payload_fits(s, p0, tag_id, q) {
                                lemma_array_fits_fields(s, p0, tag_id, q);
                                crate::model::lemma_u32_to_i32_small(w32);
                            }
                        }
                    }
                    Err(e)
                },
            }
        } else if tag_id == 8 {
            let slen = match cur.next_u16() {
                Ok(l) => l,
                Err(e) => {
                    proof {
                        assert forall|q: PayloadV| !payload_fits(s, p0, tag_id, q) by {
                            if payload_fits(s, p0, tag_id, q) {
                                lemma_str_fits_fields(s, p0, q);
                            }
                        }
                    }
                    return Err(e);
                },
            };
            match cur.next_string(slen as usize) {
                Ok(v) => {
                    let p = TagPayload::String(v);
                    proof {
                        crate::model::lemma_enc_be_u16(s[p0], s[p0 + 1]);
                        assert(enc_u16(v@.len() as u16) =~= s.subrange(p0, p0 + 2));
                        lemma_subrange_split(s, p0, p0 + 2, p0 + 2 + slen);
                        assert(enc_payload(p@) == enc_u16(v@.len() as u16) + v@);
                        assert(enc_payload(p@) == s.subrange(p0, p0 + 2 + slen));
                    }
                    Ok(p)
                },
                Err(e) => {
                    proof {
                        assert forall|q: PayloadV| !payload_fits(s, p0, tag_id, q) by {
                            if payload_fits(s, p0, tag_id, q) {
                                lemma_str_fits_fields(s, p0, q);
                            }
                        }
                    }
                    Err(e)
                },
            }
        } else if tag_id == 9 {
            Self::parse_list(cur, tag_id)
        } else if tag_id == 10 {
            Self::parse_compound(cur, tag_id)
        } else if tag_id == 11 {
            let cnt = match cur.next_i32() {
                Ok(c) => c,
                Err(e) => {
                    proof {
                        assert forall|q: PayloadV| !payload_fits(s, p0, tag_id, q) by {
                            if payload_fits(s, p0, tag_id, q) {
                                lemma_array_fits_fields(s, p0, tag_id, q);
                            }
                        }
                    }
                    return Err(e);
                },
            };
            let ghost w32 = be_u32(s[p0], s[p0 + 1], s[p0 + 2], s[p0 + 3]);
            if cnt < 0 {
                proof {
                    assert forall|q: PayloadV| !payload_fits(s, p0, tag_id, q) by {
                        if payload_fits(s, p0, tag_id, q) {
                            lemma_array_fits_fields(s, p0, tag_id, q);
                            crate::model::lemma_u32_to_i32_small(w32);
                        }
                    }
                }
                return Err(NbtError::InvalidLength);
            }
            let n = cnt as usize;
            match cur.next_n_i32_vec(n) {
                Ok(v) => {
                    let p = TagPayload::IntArray(v);
                    proof {
                        crate::model::lemma_cast_u32_i32(w32);
                        crate::model::lemma_enc_be_u32(s[p0], s[p0 + 1], s[p0 + 2], s[p0 + 3]);
                        assert(enc_u32(v@.len() as u32) =~= s.subrange(p0, p0 + 4));
                        lemma_subrange_split(s, p0, p0 + 4, p0 + 4 + 4 * n);
                        assert(enc_payload(p@) == enc_u32(v@.len() as u32) + crate::model::enc_i32s(
                            v@,
                            0,
                        ));
                        assert(enc_payload(p@) == s.subrange(p0, p0 + 4 + 4 * n));
                        lemma_enc_i32s_len(v@, 0);
                    }
                    Ok(p)
                },
                Err(e) => {
                    proof {
                        assert forall|q: PayloadV| !payload_fits(s, p0, tag_id, q) by {
                            if payload_fits(s, p0, tag_id, q) {
                                lemma_array_fits_fields(s, p0, tag_id, q);
                                crate::model::lemma_u32_to_i32_small(w32);
                            }
                        }
                    }
                    Err(e)
                },
            }
        } else if tag_id == 12 {
            let cnt = match cur.next_i32() {
                Ok(c) => c,
                Err(e) => {
                    proof {
                        assert forall|q: PayloadV| !payload_fits(s, p0, tag_id, q) by {
                            if payload_fits(s, p0, tag_id, q) {
                                lemma_array_fits_fields(s, p0, tag_id, q);
                            }
                        }
                    }
                    return Err(e);
                },
            };
            let ghost w32 = be_u32(s[p0], s[p0 + 1], s[p0 + 2], s[p0 + 3]);
            if cnt < 0 {
                proof {
                    assert forall|q: PayloadV| !payload_fits(s, p0, tag_id, q) by {
                        if payload_fits(s, p0, tag_id, q) {
                            lemma_array_fits_fields(s, p0, tag_id, q);
                            crate::model::lemma_u32_to_i32_small(w32);
                        }
                    }
                }
                return Err(NbtError::InvalidLength);
            }
            let n = cnt as usize;
            match cur.next_n_i64_vec(n) {
                Ok(v) => {
                    let p = TagPayload::LongArray(v);
                    proof {
                        crate::model::lemma_cast_u32_i32(w32);
                        crate::model::lemma_enc_be_u32(s[p0], s[p0 + 1], s[p0 + 2], s[p0 + 3]);
                        assert(enc_u32(v@.len() as u32) =~= s.subrange(p0, p0 + 4));
                        lemma_subrange_split(s, p0, p0 + 4, p0 + 4 + 8 * n);
                        assert(enc_payload(p@) == enc_u32(v@.len() as u32) + crate::model::enc_i64s(
                            v@,
                            0,
                        ));
                        assert(enc_payload(p@) == s.subrange(p0, p0 + 4 + 8 * n));
                        lemma_enc_i64s_len(v@, 0);
                    }
                    Ok(p)
                },
                Err(e) => {
                    proof {
                        assert forall|q: PayloadV| !payload_fits(s, p0, tag_id, q) by {
                            if payload_fits(s, p0, tag_id, q) {
                                lemma_array_fits_fields(s, p0, tag_id, q);
                                crate::model::lemma_u32_to_i32_small(w32);
                            }
                        }
                    }
                    Err(e)
                },
            }
        } else {
            proof {
                assert forall|q: PayloadV| !payload_fits(s, p0, tag_id, q) by {
                    if payload_fits(s, p0, tag_id, q) {
                        crate::unambiguity::lemma_code_range(q);
                    }
                }
            }
            Err(NbtError::UnknownTagType)
        }
    }

    /// Decodes a list payload: element type code, element count, then that
    /// many payloads of that single code.
    #[verifier::rlimit(100)]
    fn parse_list(cur: &mut Cursor, tag_id: u8) -> (r: Result<TagPayload, NbtError>)
        requires
            old(cur).wf(),
            tag_id == 9,
        ensures
            final(cur).wf(),
            final(cur).spec_data() == old(cur).spec_data(),
            r matches Ok(p) ==> payload_fits(
                old(cur).spec_data(),
                old(cur).spec_pos(),
                tag_id,
                p@,
            ) && final(cur).spec_pos() == old(cur).spec_pos() + enc_payload(p@).len(),
            (exists|q: PayloadV|
                payload_fits(old(cur).spec_data(), old(cur).spec_pos(), tag_id, q)) ==> r is Ok,
            r matches Err(e) ==> (e == NbtError::UnexpectedEnd || e == NbtError::InvalidEncoding
                || e == NbtError::InvalidLength || e == NbtError::UnknownTagType),
        decreases old(cur).remaining(), 0int,
    {
        let ghost s = cur.spec_data();
        let ghost p0 = cur.spec_pos();
        let elem_code = match cur.next_u8() {
            Ok(c) => c,
            Err(e) => {
                proof {
                    assert forall|q: PayloadV| !payload_fits(s, p0, tag_id, q) by {
                        if payload_fits(s, p0, tag_id, q) {
                            lemma_list_fits_fields(s, p0, q);
                        }
                    }
                }
                return Err(e);
            },
        };
        let cnt = match cur.next_i32() {
            Ok(c) => c,
            Err(e) => {
                proof {
                    assert forall|q: PayloadV| !payload_fits(s, p0, tag_id, q) by {
                        if payload_fits(s, p0, tag_id, q) {
                            lemma_list_fits_fields(s, p0, q);
                        }
                    }
                }
                return Err(e);
            },
        };
        let ghost w32 = be_u32(s[p0 + 1], s[p0 + 2], s[p0 + 3], s[p0 + 4]);
        if cnt < 0 {
            proof {
                assert forall|q: PayloadV| !payload_fits(s, p0, tag_id, q) by {
                    if payload_fits(s, p0, tag_id, q) {
                        lemma_list_fits_fields(s, p0, q);
                        crate::model::lemma_u32_to_i32_small(w32);
                    }
                }
            }
            return Err(NbtError::InvalidLength);
        }
        let n = cnt as usize;
        let ghost fits = exists|q: PayloadV| payload_fits(s, p0, 9u8, q);
        let ghost w: PayloadV = if fits {
            choose|q: PayloadV| payload_fits(s, p0, 9u8, q)
        } else {
            arbitrary()
        };
        let ghost witems: Seq<PayloadV> = w->List_1;
        proof {
            if fits {
                lemma_list_fits_fields(s, p0, w);
                crate::model::lemma_u32_to_i32_small(w32);
                assert(witems.len() == cnt as int);
            }
        }
        let mut items: Vec<TagPayload> = Vec::new();
        let mut k: usize = 0;
        proof {
            crate::tag::lemma_view_items_props(items@, 0);
            assert(s.subrange(p0 + 5, p0 + 5) =~= enc_items(
                crate::tag::view_items(items@, 0),
                0,
            ));
        }
        while k < n
            invariant
                cur.wf(),
                cur.spec_data() == s,
                s == old(cur).spec_data(),
                p0 == old(cur).spec_pos(),
                tag_id == 9,
                0 <= p0,
                p0 + 5 <= cur.spec_pos() <= s.len(),
                k <= n,
                n == cnt as int,
                0 <= cnt,
                s[p0] == elem_code,
                be_u32(s[p0 + 1], s[p0 + 2], s[p0 + 3], s[p0 + 4]) as i32 == cnt,
                w32 == be_u32(s[p0 + 1], s[p0 + 2], s[p0 + 3], s[p0 + 4]),
                items@.len() == k,
                crate::tag::view_items(items@, 0).len() == k,
                wf_items(elem_code, crate::tag::view_items(items@, 0), 0),
                s.subrange(p0 + 5, cur.spec_pos()) == enc_items(
                    crate::tag::view_items(items@, 0),
                    0,
                ),
                fits == (exists|q: PayloadV| payload_fits(s, p0, 9u8, q)),
                fits ==> payload_fits(s, p0, 9u8, w) && w is List && w->List_0 == elem_code
                    && witems == w->List_1 && witems.len() == n && crate::tag::view_items(
                    items@,
                    0,
                ) == witems.subrange(0, k as int) && can_read(
                    s,
                    cur.spec_pos(),
                    enc_items(witems, k as int),
                ),
            decreases n - k,
        {
            let ghost prepos = cur.spec_pos();
            let ghost views = crate::tag::view_items(items@, 0);
            proof {
                if fits {
                    assert(enc_items(witems, k as int) == enc_payload(witems[k as int])
                        + enc_items(witems, k as int + 1));
                    lemma_can_read_split(
                        s,
                        prepos,
                        enc_payload(witems[k as int]),
                        enc_items(witems, k as int + 1),
                    );
                    lemma_wf_items_suffix(elem_code, witems, 0, k as int);
                }
            }
            let elem = match Tag::parse_payload(cur, elem_code) {
                Ok(p) => p,
                Err(e) => {
                    proof {
                        if fits {
                            assert(payload_fits(s, prepos, elem_code, witems[k as int]));
                            assert(false);
                        }
                    }
                    return Err(e);
                },
            };
            proof {
                let ev = crate::tag::view_payload(elem);
                let l1 = enc_payload(ev).len();
                crate::tag::lemma_view_items_push(items@, elem);
                crate::model::lemma_enc_items_push(views, ev);
                crate::model::lemma_wf_items_push(elem_code, views, ev);
                lemma_subrange_split(s, p0 + 5, prepos, prepos + l1);
                if fits {
                    let l2 = enc_payload(witems[k as int]).len();
                    let rest1 = s.subrange(prepos + l1, s.len() as int);
                    let rest2 = s.subrange(prepos + l2, s.len() as int);
                    lemma_subrange_split(s, prepos, prepos + l1, s.len() as int);
                    lemma_subrange_split(s, prepos, prepos + l2, s.len() as int);
                    crate::unambiguity::lemma_payload_unamb(ev, witems[k as int], rest1, rest2);
                    assert(witems.subrange(0, k as int + 1) =~= witems.subrange(0, k as int).push(
                        witems[k as int],
                    ));
                }
            }
            items.push(elem);
            k = k + 1;
        }
        let p = TagPayload::List(elem_code, items);
        proof {
            let views = crate::tag::view_items(items@, 0);
            assert(p@ == PayloadV::List(elem_code, views));
            crate::model::lemma_cast_u32_i32(w32);
            crate::model::lemma_enc_be_u32(s[p0 + 1], s[p0 + 2], s[p0 + 3], s[p0 + 4]);
            assert(enc_u32(views.len() as u32) =~= s.subrange(p0 + 1, p0 + 5));
            assert(seq![elem_code] =~= s.subrange(p0, p0 + 1));
            let pos1 = cur.spec_pos();
            lemma_subrange_split(s, p0 + 1, p0 + 5, pos1);
            lemma_subrange_split(s, p0, p0 + 1, pos1);
            assert(enc_payload(p@) == seq![elem_code] + enc_u32(views.len() as u32) + enc_items(
                views,
                0,
            ));
            assert(seq![elem_code] + enc_u32(views.len() as u32) + enc_items(views, 0) =~= seq![
                elem_code,
            ] + (enc_u32(views.len() as u32) + enc_items(views, 0)));
            assert(enc_payload(p@) == s.subrange(p0, pos1));
        }
        Ok(p)
    }

    /// Decodes one document root: a zero first byte means an empty document
    /// ("no root"), anything else one named tag.
    #[verifier::rlimit(100)]
    pub fn parse(cur: &mut Cursor) -> (r: Result<Option<Tag>, NbtError>)
        requires
            old(cur).wf(),
        ensures
            final(cur).wf(),
            final(cur).spec_data() == old(cur).spec_data(),
            r matches Ok(o) ==> (o matches Some(t) ==> tag_fits(
                old(cur).spec_data(),
                old(cur).spec_pos(),
                t@,
            ) && final(cur).spec_pos() == old(cur).spec_pos() + enc_tag(t@).len()),
            r matches Ok(o) ==> (o is None ==> old(cur).spec_pos() < old(cur).spec_data().len()
                && old(cur).spec_data()[old(cur).spec_pos()] == 0 && final(cur).spec_pos() == old(
                cur,
            ).spec_pos() + 1),
            (exists|t: TagV| tag_fits(old(cur).spec_data(), old(cur).spec_pos(), t)) ==> (r
                matches Ok(o) && o is Some),
            old(cur).spec_pos() < old(cur).spec_data().len() && old(cur).spec_data()[old(
                cur,
            ).spec_pos()] == 0 ==> (r matches Ok(o) && o is None),
            r matches Err(e) ==> (e == NbtError::UnexpectedEnd || e == NbtError::InvalidEncoding
                || e == NbtError::InvalidLength || e == NbtError::UnknownTagType),
    {
        let ghost s = cur.spec_data();
        let ghost p0 = cur.spec_pos();
        let b = match cur.next_u8() {
            Ok(b) => b,
            Err(e) => {
                proof {
                    if exists|t: TagV| tag_fits(s, p0, t) {
                        let t = choose|t: TagV| tag_fits(s, p0, t);
                        lemma_tag_fits_fields(s, p0, t);
                        assert(false);
                    }
                }
                return Err(e);
            },
        };
        if b == 0 {
            proof {
                if exists|t: TagV| tag_fits(s, p0, t) {
                    let t = choose|t: TagV| tag_fits(s, p0, t);
                    lemma_tag_fits_fields(s, p0, t);
                    assert(false);
                }
            }
            return Ok(None);
        }
        let nlen = match cur.next_u16() {
            Ok(l) => l,
            Err(e) => {
                proof {
                    if exists|t: TagV| tag_fits(s, p0, t) {
                        let t = choose|t: TagV| tag_fits(s, p0, t);
                        lemma_tag_fits_fields(s, p0, t);
                        assert(false);
                    }
                }
                return Err(e);
            },
        };
        let name = match cur.next_string(nlen as usize) {
            Ok(nm) => nm,
            Err(e) => {
                proof {
                    if exists|t: TagV| tag_fits(s, p0, t) {
                        let t = choose|t: TagV| tag_fits(s, p0, t);
                        lemma_member_reads(s, p0, t, nlen);
                        assert(false);
                    }
                }
                return Err(e);
            },
        };
        let ghost namev = name@;
        let ghost qp = cur.spec_pos();
        proof {
            if exists|t: TagV| tag_fits(s, p0, t) {
                let t = choose|t: TagV| tag_fits(s, p0, t);
                lemma_member_reads(s, p0, t, nlen);
                assert(payload_fits(s, qp, b, t.payload));
            }
        }
        let pl = match Tag::parse_payload(cur, b) {
            Ok(p) => p,
            Err(e) => {
                proof {
                    if exists|t: TagV| tag_fits(s, p0, t) {
                        assert(false);
                    }
                }
                return Err(e);
            },
        };
        let ghost plv = crate::tag::view_payload(pl);
        let t = Tag { name, payload: pl };
        proof {
            let tv = crate::tag::view_tag(t);
            let newpos = cur.spec_pos();
            assert(tv == (TagV { name: namev, payload: plv }));
            assert(seq![b] =~= s.subrange(p0, p0 + 1));
            crate::model::lemma_enc_be_u16(s[p0 + 1], s[p0 + 2]);
            assert(enc_u16(namev.len() as u16) =~= s.subrange(p0 + 1, p0 + 3));
            assert(namev == s.subrange(p0 + 3, qp));
            assert(code_of(plv) == b);
            assert(enc_tag(tv) == seq![b] + enc_u16(namev.len() as u16) + namev + enc_payload(
                plv,
            ));
            lemma_subrange_split(s, p0, p0 + 1, p0 + 3);
            lemma_subrange_split(s, p0, p0 + 3, qp);
            lemma_subrange_split(s, p0, qp, newpos);
            assert(enc_tag(tv) =~= ((seq![b] + enc_u16(namev.len() as u16)) + namev) + enc_payload(
                plv,
            ));
            assert(enc_tag(tv) == s.subrange(p0, newpos));
            assert(wf_tag(tv));
            assert(tag_fits(s, p0, tv));
        }
        Ok(Some(t))
    }

    /// Decodes a compound payload: named tags back to back until the zero
    /// type-code byte. A stream that ends before that byte is rejected with
    /// `UnexpectedEnd`, never returned as a shorter compound.
    #[verifier::rlimit(100)]
    fn parse_compound(cur: &mut Cursor, tag_id: u8) -> (r: Result<TagPayload, NbtError>)
        requires
            old(cur).wf(),
            tag_id == 10,
        ensures
            final(cur).wf(),
            final(cur).spec_data() == old(cur).spec_data(),
            r matches Ok(p) ==> payload_fits(
                old(cur).spec_data(),
                old(cur).spec_pos(),
                tag_id,
                p@,
            ) && final(cur).spec_pos() == old(cur).spec_pos() + enc_payload(p@).len(),
            (exists|q: PayloadV|
                payload_fits(old(cur).spec_data(), old(cur).spec_pos(), tag_id, q)) ==> r is Ok,
            r matches Err(e) ==> (e == NbtError::UnexpectedEnd || e == NbtError::InvalidEncoding
                || e == NbtError::InvalidLength || e == NbtError::UnknownTagType),
            (exists|ms: Seq<TagV>|
                members_unterminated(old(cur).spec_data(), old(cur).spec_pos(), ms)) ==> r
                == Err::<TagPayload, NbtError>(NbtError::UnexpectedEnd),
        decreases old(cur).remaining(), 0int,
    {
        let ghost s = cur.spec_data();
        let ghost p0 = cur.spec_pos();
        let ghost fits = exists|q: PayloadV| payload_fits(s, p0, 10u8, q);
        let ghost w: PayloadV = if fits {
            choose|q: PayloadV| payload_fits(s, p0, 10u8, q)
        } else {
            arbitrary()
        };
        let ghost wms: Seq<TagV> = w->Compound_0;
        let ghost unterm = exists|ms: Seq<TagV>| members_unterminated(s, p0, ms);
        let ghost mw: Seq<TagV> = if unterm {
            choose|ms: Seq<TagV>| members_unterminated(s, p0, ms)
        } else {
            arbitrary()
        };
        proof {
            if fits {
                lemma_compound_fits_fields(s, p0, w);
            }
        }
        let mut members: Vec<Tag> = Vec::new();
        proof {
            crate::tag::lemma_view_members_props(members@, 0);
            assert(s.subrange(p0, p0) =~= enc_members(crate::tag::view_members(members@, 0), 0));
            assert(crate::tag::view_members(members@, 0) =~= wms.subrange(0, 0));
            assert(crate::tag::view_members(members@, 0) =~= mw.subrange(0, 0));
        }
        loop
            invariant
                cur.wf(),
                cur.spec_data() == s,
                s == old(cur).spec_data(),
                p0 == old(cur).spec_pos(),
                tag_id == 10,
                0 <= p0 <= cur.spec_pos() <= s.len(),
                crate::tag::view_members(members@, 0).len() == members@.len(),
                wf_members(crate::tag::view_members(members@, 0), 0),
                s.subrange(p0, cur.spec_pos()) == enc_members(
                    crate::tag::view_members(members@, 0),
                    0,
                ),
                fits == (exists|q: PayloadV| payload_fits(s, p0, 10u8, q)),
                unterm == (exists|ms: Seq<TagV>| members_unterminated(s, p0, ms)),
                fits ==> payload_fits(s, p0, 10u8, w) && w is Compound && wms == w->Compound_0
                    && wf_members(wms, 0) && members@.len() <= wms.len()
                    && crate::tag::view_members(members@, 0) == wms.subrange(
                    0,
                    members@.len() as int,
                ) && can_read(
                    s,
                    cur.spec_pos(),
                    enc_members(wms, members@.len() as int) + seq![0u8],
                ),
                unterm ==> wf_members(mw, 0) && members@.len() <= mw.len()
                    && crate::tag::view_members(members@, 0) == mw.subrange(
                    0,
                    members@.len() as int,
                ) && can_read(s, cur.spec_pos(), enc_members(mw, members@.len() as int))
                    && cur.spec_pos() + enc_members(mw, members@.len() as int).len()
                    == s.len(),
            decreases s.len() - cur.spec_pos(),
        {
            let ghost k = members@.len() as int;
            let ghost q0 = cur.spec_pos();
            proof {
                if fits {
                    if k < wms.len() {
                        assert(enc_members(wms, k) == enc_tag(wms[k]) + enc_members(wms, k + 1));
                        assert((enc_tag(wms[k]) + enc_members(wms, k + 1)) + seq![0u8] =~= enc_tag(
                            wms[k],
                        ) + (enc_members(wms, k + 1) + seq![0u8]));
                        lemma_can_read_split(
                            s,
                            q0,
                            enc_tag(wms[k]),
                            enc_members(wms, k + 1) + seq![0u8],
                        );
                        lemma_wf_members_suffix(wms, 0, k);
                        lemma_tag_fits_fields(s, q0, wms[k]);
                    } else {
                        assert(enc_members(wms, k) == Seq::<u8>::empty());
                        assert(Seq::<u8>::empty() + seq![0u8] =~= seq![0u8]);
                        lemma_can_read_index(s, q0, seq![0u8]);
                        assert(seq![0u8][0] == 0u8);
                        assert(s[q0 + 0] == 0);
                    }
                }
                if unterm {
                    if k < mw.len() {
                        assert(enc_members(mw, k) == enc_tag(mw[k]) + enc_members(mw, k + 1));
                        lemma_can_read_split(s, q0, enc_tag(mw[k]), enc_members(mw, k + 1));
                        lemma_wf_members_suffix(mw, 0, k);
                        lemma_tag_fits_fields(s, q0, mw[k]);
                    } else {
                        assert(enc_members(mw, k).len() == 0);
                        assert(q0 == s.len());
                    }
                }
            }
            let b = match cur.next_u8() {
                Ok(b) => b,
                Err(e) => {
                    proof {
                        if fits {
                            assert(false);
                        }
                    }
                    return Err(e);
                },
            };
            if b == 0 {
                proof {
                    if unterm {
                        assert(false);
                    }
                }
                let ghost views = crate::tag::view_members(members@, 0);
                let p = TagPayload::Compound(members);
                proof {
                    assert(p@ == PayloadV::Compound(views));
                    assert(seq![0u8] =~= s.subrange(q0, q0 + 1));
                    lemma_subrange_split(s, p0, q0, q0 + 1);
                    assert(enc_payload(p@) == enc_members(views, 0) + seq![0u8]);
                    assert(enc_payload(p@) == s.subrange(p0, q0 + 1));
                    assert(enc_payload(p@).len() == q0 + 1 - p0);
                    assert(wf_payload(p@));
                    assert(can_read(s, p0, enc_payload(p@)));
                    assert(payload_fits(s, p0, 10u8, p@));
                    assert(cur.spec_pos() == q0 + 1);
                }
                return Ok(p);
            }
            let nlen = match cur.next_u16() {
                Ok(l) => l,
                Err(e) => {
                    proof {
                        if fits {
                            assert(k < wms.len());
                            assert(q0 + 3 <= s.len());
                            assert(false);
                        }
                        if unterm {
                            assert(k < mw.len());
                            assert(q0 + 3 <= s.len());
                            assert(false);
                        }
                    }
                    return Err(e);
                },
            };
            let name = match cur.next_string(nlen as usize) {
                Ok(nm) => nm,
                Err(e) => {
                    proof {
                        if fits {
                            assert(k < wms.len());
                            lemma_member_reads(s, q0, wms[k], nlen);
                            assert(false);
                        }
                        if unterm {
                            assert(k < mw.len());
                            lemma_member_reads(s, q0, mw[k], nlen);
                            assert(false);
                        }
                    }
                    return Err(e);
                },
            };
            let ghost namev = name@;
            let ghost qp = cur.spec_pos();
            proof {
                if fits {
                    assert(k < wms.len());
                    lemma_member_reads(s, q0, wms[k], nlen);
                    assert(wms[k].name == namev);
                }
                if unterm {
                    assert(k < mw.len());
                    lemma_member_reads(s, q0, mw[k], nlen);
                    assert(mw[k].name == namev);
                }
            }
            let pl = match Tag::parse_payload(cur, b) {
                Ok(p) => p,
                Err(e) => {
                    proof {
                        if fits {
                            assert(payload_fits(s, qp, b, wms[k].payload));
                            assert(false);
                        }
                        if unterm {
                            assert(payload_fits(s, qp, b, mw[k].payload));
                            assert(false);
                        }
                    }
                    return Err(e);
                },
            };
            let ghost plv = crate::tag::view_payload(pl);
            let member = Tag { name, payload: pl };
            proof {
                let mv = crate::tag::view_tag(member);
                let newpos = cur.spec_pos();
                let views = crate::tag::view_members(members@, 0);
                assert(mv == (TagV { name: namev, payload: plv }));
                assert(seq![b] =~= s.subrange(q0, q0 + 1));
                crate::model::lemma_enc_be_u16(s[q0 + 1], s[q0 + 2]);
                assert(enc_u16(namev.len() as u16) =~= s.subrange(q0 + 1, q0 + 3));
                assert(namev == s.subrange(q0 + 3, qp));
                assert(code_of(plv) == b);
                assert(enc_tag(mv) == seq![b] + enc_u16(namev.len() as u16) + namev + enc_payload(
                    plv,
                ));
                lemma_subrange_split(s, q0, q0 + 1, q0 + 3);
                lemma_subrange_split(s, q0, q0 + 3, qp);
                lemma_subrange_split(s, q0, qp, newpos);
                assert(enc_tag(mv) =~= ((seq![b] + enc_u16(namev.len() as u16)) + namev)
                    + enc_payload(plv));
                assert(enc_tag(mv) == s.subrange(q0, newpos));
                assert(wf_tag(mv));
                crate::tag::lemma_view_members_push(members@, member);
                crate::model::lemma_enc_members_push(views, mv);
                crate::model::lemma_wf_members_push(views, mv);
                lemma_subrange_split(s, p0, q0, newpos);
                if fits {
                    let t = wms[k];
                    let l1 = enc_payload(plv).len();
                    let l2 = enc_payload(t.payload).len();
                    lemma_subrange_split(s, qp, qp + l1, s.len() as int);
                    lemma_subrange_split(s, qp, qp + l2, s.len() as int);
                    crate::unambiguity::lemma_payload_unamb(
                        plv,
                        t.payload,
                        s.subrange(qp + l1, s.len() as int),
                        s.subrange(qp + l2, s.len() as int),
                    );
                    assert(mv == t);
                    assert(wms.subrange(0, k + 1) =~= wms.subrange(0, k).push(t));
                }
                if unterm {
                    let t = mw[k];
                    let l1 = enc_payload(plv).len();
                    let l2 = enc_payload(t.payload).len();
                    lemma_subrange_split(s, qp, qp + l1, s.len() as int);
                    lemma_subrange_split(s, qp, qp + l2, s.len() as int);
                    crate::unambiguity::lemma_payload_unamb(
                        plv,
                        t.payload,
                        s.subrange(qp + l1, s.len() as int),
                        s.subrange(qp + l2, s.len() as int),
                    );
                    assert(mv == t);
                    assert(mw.subrange(0, k + 1) =~= mw.subrange(0, k).push(t));
                }
            }
            members.push(member);
        }
    }
}

} // verus!
