//! Global guarantees of the decoder, stated over the same spec functions its
//! contracts use: the locator's offsets grow in table order, decoding inverts
//! encoding, and an empty list occupies exactly its five header bytes.

use vstd::prelude::*;
use crate::model::{enc_items, enc_payload, enc_tag, enc_u32, wf_tag, PayloadV, TagV};
use crate::parse::{lemma_doc_root_unique, spec_doc_root, tag_fits};
use crate::region::{entry_present, located_offsets, spec_entry_of};

verus! {

broadcast use vstd::seq::group_seq_axioms;

proof fn lemma_located_offsets_entries(t: Seq<u8>, i: int)
    requires
        0 <= i <= 1024,
    ensures
        located_offsets(t, i).len() <= 1024 - i,
        forall|k: int|
            0 <= k < located_offsets(t, i).len() ==> #[trigger] located_offsets(t, i)[k]
                == spec_entry_of(t, i + k) && entry_present(t, i + k),
    decreases 1024 - i,
{
    if i < 1024 {
        lemma_located_offsets_entries(t, i + 1);
        if entry_present(t, i) {
            assert forall|k: int|
                0 <= k < located_offsets(t, i).len() implies #[trigger] located_offsets(t, i)[k]
                == spec_entry_of(t, i + k) && entry_present(t, i + k) by {
                if k > 0 {
                    assert(located_offsets(t, i)[k] == located_offsets(t, i + 1)[k - 1]);
                    assert(located_offsets(t, i + 1)[k - 1] == spec_entry_of(t, i + 1 + (k - 1))
                        && entry_present(t, i + 1 + (k - 1)));
                }
            }
        }
    }
}

proof fn lemma_entry_chain(t: Seq<u8>, a: int, b: int)
    requires
        forall|i: int|
            0 <= i < 1023 && entry_present(t, i) && entry_present(t, i + 1)
                ==> #[trigger] spec_entry_of(t, i) < spec_entry_of(t, i + 1),
        forall|i: int| a <= i <= b ==> #[trigger] entry_present(t, i),
        0 <= a < b <= 1023,
    ensures
        spec_entry_of(t, a) < spec_entry_of(t, b),
    decreases b - a,
{
    if a + 1 < b {
        lemma_entry_chain(t, a, b - 1);
        assert(spec_entry_of(t, b - 1) < spec_entry_of(t, b - 1 + 1));
    } else {
        assert(spec_entry_of(t, a) < spec_entry_of(t, a + 1));
    }
}

/// Law: over a location table whose present entries' offsets grow from each
/// present entry to the next, the locator returns offsets strictly
/// increasing in table-scan order, up to the first absent entry, and never
/// more than 1024 of them.
pub proof fn lemma_located_offsets_increasing(t: Seq<u8>)
    requires
        forall|i: int|
            0 <= i < 1023 && entry_present(t, i) && entry_present(t, i + 1)
                ==> #[trigger] spec_entry_of(t, i) < spec_entry_of(t, i + 1),
    ensures
        located_offsets(t, 0).len() <= 1024,
        forall|a: int, b: int|
            0 <= a < b < located_offsets(t, 0).len() ==> located_offsets(t, 0)[a]
                < located_offsets(t, 0)[b],
{
    lemma_located_offsets_entries(t, 0);
    assert forall|a: int, b: int|
        0 <= a < b < located_offsets(t, 0).len() implies located_offsets(t, 0)[a]
        < located_offsets(t, 0)[b] by {
        assert forall|i: int| a <= i <= b implies #[trigger] entry_present(t, i) by {
            assert(located_offsets(t, 0)[i] == spec_entry_of(t, 0 + i) && entry_present(t, 0 + i));
        }
        lemma_entry_chain(t, a, b);
    }
}

/// Law: decoding inverts encoding. A stream that starts with the encoding of
/// a well-formed tag tree holds exactly that tree as its document root, so
/// the decoder, whose contract ties its result to this root, returns a tree
/// structurally identical to the one encoded — same variant, value and
/// member order at every node.
pub proof fn lemma_round_trip(t: TagV, rest: Seq<u8>)
    requires
        wf_tag(t),
    ensures
        spec_doc_root(enc_tag(t) + rest) == Some(t),
{
    let s = enc_tag(t) + rest;
    assert forall|i: int| 0 <= i < enc_tag(t).len() implies s.subrange(
        0,
        enc_tag(t).len() as int,
    )[i] == enc_tag(t)[i] by {
        assert(s[i] == enc_tag(t)[i]);
    }
    assert(s.subrange(0, enc_tag(t).len() as int) =~= enc_tag(t));
    assert(tag_fits(s, 0, t));
    lemma_doc_root_unique(s, t);
}

/// Law: a list with count zero occupies exactly five bytes beyond the
/// enclosing header — one element-type-code byte and four count bytes —
/// whatever its element type code.
pub proof fn lemma_empty_list_width(c: u8)
    ensures
        enc_payload(PayloadV::List(c, Seq::empty())).len() == 5,
{
    assert(enc_items(Seq::<PayloadV>::empty(), 0) =~= Seq::<u8>::empty());
    assert(enc_payload(PayloadV::List(c, Seq::empty())) =~= seq![c] + enc_u32(0u32));
}

} // verus!
