//! The region-file side of the pipeline: decoding the chunk location table,
//! extracting and inflating one chunk record, and decoding every located
//! chunk of an in-memory region file into its tag tree.

use vstd::prelude::*;
use crate::cursor::Cursor;
use crate::error::NbtError;
use crate::model::{be_u32, TagV};
use crate::parse::{lemma_doc_root_none, lemma_doc_root_unique, spec_doc_root};
use crate::tag::Tag;

verus! {

broadcast use vstd::seq::group_seq_axioms;

/// Byte offset of a chunk, decoded from one 4-byte location-table entry.
///
/// The first three bytes are a big-endian sector offset (a sector is 4096
/// bytes); the fourth is the sector count, whose zero value marks an absent
/// chunk.
pub open spec fn spec_entry_offset(b0: u8, b1: u8, b2: u8) -> u64 {
    (((b0 as u64) * 0x1_0000 + (b1 as u64) * 0x100 + (b2 as u64)) * 4096) as u64
}

/// Decodes one 4-byte big-endian location-table entry: `None` when the fourth
/// byte (the sector count) is zero, marking an absent chunk, else the byte
/// offset of the chunk record.
pub fn chunk_loc_to_byte_offset(bytes: [u8; 4]) -> (r: Option<u64>)
    ensures
        bytes[3] == 0 ==> r is None,
        bytes[3] != 0 ==> r == Some(spec_entry_offset(bytes[0], bytes[1], bytes[2])),
{
    if bytes[3] == 0 {
        None
    } else {
        let sector: u64 = (bytes[0] as u64) * 0x1_0000 + (bytes[1] as u64) * 0x100 + (
        bytes[2] as u64);
        Some(sector * 4096)
    }
}

/// The byte offset held by entry `i` of the location table.
pub open spec fn spec_entry_of(t: Seq<u8>, i: int) -> u64 {
    spec_entry_offset(t[4 * i], t[4 * i + 1], t[4 * i + 2])
}

/// Whether entry `i` of the location table marks a present chunk.
pub open spec fn entry_present(t: Seq<u8>, i: int) -> bool {
    t[4 * i + 3] != 0
}

/// The offsets of the present chunks from entry `i` on, in table order,
/// stopping at the first absent entry.
pub open spec fn located_offsets(t: Seq<u8>, i: int) -> Seq<u64>
    decreases 1024 - i,
{
    if i < 0 || i >= 1024 {
        Seq::empty()
    } else if !entry_present(t, i) {
        Seq::empty()
    } else {
        seq![spec_entry_of(t, i)] + located_offsets(t, i + 1)
    }
}

/// Decodes the 1024-entry location table at the head of a region file into
/// the byte offsets of the present chunks, in table order, stopping at the
/// first absent entry.
pub fn locate_chunks(region: &Vec<u8>) -> (r: Result<Vec<u64>, NbtError>)
    ensures
        region@.len() < 4096 ==> r == Err::<Vec<u64>, NbtError>(NbtError::Truncated),
        region@.len() >= 4096 ==> (r matches Ok(v) && v@ == located_offsets(region@, 0)
            && v@.len() <= 1024),
{
    if region.len() < 4096 {
        return Err(NbtError::Truncated);
    }
    let ghost t = region@;
    let mut v: Vec<u64> = Vec::new();
    let mut i: usize = 0;
    while i < 1024
        invariant
            region@ == t,
            t.len() >= 4096,
            i <= 1024,
            v@.len() == i,
            located_offsets(t, 0) == v@ + located_offsets(t, i as int),
            forall|j: int| 0 <= j < i ==> entry_present(t, j),
        decreases 1024 - i,
    {
        let entry: [u8; 4] = [
            region[4 * i],
            region[4 * i + 1],
            region[4 * i + 2],
            region[4 * i + 3],
        ];
        match chunk_loc_to_byte_offset(entry) {
            Some(off) => {
                proof {
                    assert(entry[0] == t[4 * i] && entry[1] == t[4 * i + 1] && entry[2] == t[4 * i
                        + 2] && entry[3] == t[4 * i + 3]);
                    assert(entry_present(t, i as int));
                    assert(located_offsets(t, i as int) == seq![spec_entry_of(t, i as int)]
                        + located_offsets(t, i as int + 1));
                    assert(v@.push(off) =~= v@ + seq![spec_entry_of(t, i as int)]);
                    assert((v@ + seq![spec_entry_of(t, i as int)]) + located_offsets(
                        t,
                        i as int + 1,
                    ) =~= v@ + (seq![spec_entry_of(t, i as int)] + located_offsets(
                        t,
                        i as int + 1,
                    )));
                }
                v.push(off);
            },
            None => {
                proof {
                    assert(!entry_present(t, i as int));
                    assert(located_offsets(t, i as int) =~= Seq::<u64>::empty());
                    assert(v@ + Seq::<u64>::empty() =~= v@);
                }
                return Ok(v);
            },
        }
        i = i + 1;
    }
    proof {
        assert(located_offsets(t, 1024) =~= Seq::<u64>::empty());
        assert(v@ + Seq::<u64>::empty() =~= v@);
    }
    Ok(v)
}

/// The offsets of the present chunks from entry `i` on, in table order,
/// passing over absent entries instead of stopping at the first one.
pub open spec fn located_offsets_skipping(t: Seq<u8>, i: int) -> Seq<u64>
    decreases 1024 - i,
{
    if i < 0 || i >= 1024 {
        Seq::empty()
    } else if !entry_present(t, i) {
        located_offsets_skipping(t, i + 1)
    } else {
        seq![spec_entry_of(t, i)] + located_offsets_skipping(t, i + 1)
    }
}

/// Decodes the location table like `locate_chunks`, but passes over an
/// absent entry and goes on scanning instead of stopping at it — the other
/// reading of the table, for region files whose absent chunks stand between
/// present ones.
pub fn locate_chunks_skipping(region: &Vec<u8>) -> (r: Result<Vec<u64>, NbtError>)
    ensures
        region@.len() < 4096 ==> r == Err::<Vec<u64>, NbtError>(NbtError::Truncated),
        region@.len() >= 4096 ==> (r matches Ok(v) && v@ == located_offsets_skipping(region@, 0)
            && v@.len() <= 1024),
{
    if region.len() < 4096 {
        return Err(NbtError::Truncated);
    }
    let ghost t = region@;
    let mut v: Vec<u64> = Vec::new();
    let mut i: usize = 0;
    while i < 1024
        invariant
            region@ == t,
            t.len() >= 4096,
            i <= 1024,
            v@.len() <= i,
            located_offsets_skipping(t, 0) == v@ + located_offsets_skipping(t, i as int),
        decreases 1024 - i,
    {
        let entry: [u8; 4] = [
            region[4 * i],
            region[4 * i + 1],
            region[4 * i + 2],
            region[4 * i + 3],
        ];
        proof {
            assert(entry[0] == t[4 * i] && entry[1] == t[4 * i + 1] && entry[2] == t[4 * i + 2]
                && entry[3] == t[4 * i + 3]);
        }
        match chunk_loc_to_byte_offset(entry) {
            Some(off) => {
                proof {
                    assert(entry_present(t, i as int));
                    assert(located_offsets_skipping(t, i as int) == seq![spec_entry_of(t, i as int)]
                        + located_offsets_skipping(t, i as int + 1));
                    assert(v@.push(off) =~= v@ + seq![spec_entry_of(t, i as int)]);
                    assert((v@ + seq![spec_entry_of(t, i as int)]) + located_offsets_skipping(
                        t,
                        i as int + 1,
                    ) =~= v@ + (seq![spec_entry_of(t, i as int)] + located_offsets_skipping(
                        t,
                        i as int + 1,
                    )));
                }
                v.push(off);
            },
            None => {
                proof {
                    assert(!entry_present(t, i as int));
                    assert(located_offsets_skipping(t, i as int) == located_offsets_skipping(
                        t,
                        i as int + 1,
                    ));
                }
            },
        }
        i = i + 1;
    }
    proof {
        assert(located_offsets_skipping(t, 1024) =~= Seq::<u64>::empty());
        assert(v@ + Seq::<u64>::empty() =~= v@);
    }
    Ok(v)
}

/// Result of inflating a zlib stream; the meaning is fixed by the
/// `zlib_inflate` wrapper over flate2.
pub uninterp spec fn inflate_of(s: Seq<u8>) -> Option<Seq<u8>>;

/// Relies on flate2's bufread::ZlibDecoder, read to its end: the inflated
/// bytes are a function of the compressed bytes alone, and a malformed
/// stream is an error.
#[verifier::external_body]
fn zlib_inflate(data: &Vec<u8>) -> (r: Option<Vec<u8>>)
    ensures
        match r {
            Some(v) => inflate_of(data@) == Some(v@),
            None => inflate_of(data@) is None,
        },
{
    let mut out: Vec<u8> = Vec::new();
    let mut dec = flate2::bufread::ZlibDecoder::new(data.as_slice());
    match std::io::Read::read_to_end(&mut dec, &mut out) {
        Ok(_) => Some(out),
        Err(_) => None,
    }
}

/// The compressed payload of the chunk record at `off`, or the error its
/// header forces: a truncated header or payload, a length of zero, or a
/// compression scheme other than zlib.
pub open spec fn spec_chunk_record(region: Seq<u8>, off: u64) -> Result<Seq<u8>, NbtError> {
    let o = off as int;
    if region.len() < o + 5 {
        Err(NbtError::Truncated)
    } else {
        let l = be_u32(region[o], region[o + 1], region[o + 2], region[o + 3]) as int;
        if region[o + 4] != 2 {
            Err(NbtError::UnsupportedCompression)
        } else if l == 0 {
            Err(NbtError::Truncated)
        } else if region.len() < o + 5 + (l - 1) {
            Err(NbtError::Truncated)
        } else {
            Ok(region.subrange(o + 5, o + 5 + (l - 1)))
        }
    }
}

/// Reads the chunk record at byte offset `offset`: a 4-byte big-endian
/// length, the compression-scheme byte, which must name zlib, then the
/// compressed payload, which is inflated and returned.
pub fn extract_chunk(region: &Vec<u8>, offset: u64) -> (r: Result<Vec<u8>, NbtError>)
    ensures
        match spec_chunk_record(region@, offset) {
            Err(e) => r == Err::<Vec<u8>, NbtError>(e),
            Ok(comp) => match inflate_of(comp) {
                Some(d) => r matches Ok(v) && v@ == d,
                None => r == Err::<Vec<u8>, NbtError>(NbtError::DecompressionFailed),
            },
        },
{
    let rl = region.len() as u64;
    if rl < 5 || offset > rl - 5 {
        return Err(NbtError::Truncated);
    }
    let o = offset as usize;
    let l: u32 = (region[o] as u32) * 0x100_0000 + (region[o + 1] as u32) * 0x1_0000 + (region[o
        + 2] as u32) * 0x100 + (region[o + 3] as u32);
    let scheme = region[o + 4];
    if scheme != 2 {
        return Err(NbtError::UnsupportedCompression);
    }
    if l == 0 {
        return Err(NbtError::Truncated);
    }
    let pl = (l - 1) as u64;
    if rl - offset - 5 < pl {
        return Err(NbtError::Truncated);
    }
    let n = (l - 1) as usize;
    let mut comp: Vec<u8> = Vec::new();
    let mut j: usize = 0;
    while j < n
        invariant
            j <= n,
            o + 5 + n <= region@.len(),
            o + 5 + n <= usize::MAX,
            comp@ == region@.subrange(o + 5, o + 5 + j),
        decreases n - j,
    {
        comp.push(region[o + 5 + j]);
        j = j + 1;
        proof {
            assert(comp@ =~= region@.subrange(o as int + 5, o + 5 + j));
        }
    }
    proof {
        assert(comp@ == spec_chunk_record(region@, offset)->Ok_0);
    }
    match zlib_inflate(&comp) {
        Some(v) => Ok(v),
        None => Err(NbtError::DecompressionFailed),
    }
}

/// The roots of the chunks at `offs[i..]`, in order: a chunk whose record or
/// zlib stream is bad stops everything with that error; a chunk whose
/// decompressed document holds no root is skipped.
pub open spec fn spec_chunk_roots(region: Seq<u8>, offs: Seq<u64>, i: int) -> Result<
    Seq<TagV>,
    NbtError,
>
    decreases offs.len() - i,
{
    if i < 0 || i >= offs.len() {
        Ok(Seq::empty())
    } else {
        match spec_chunk_record(region, offs[i]) {
            Err(e) => Err(e),
            Ok(comp) => match inflate_of(comp) {
                None => Err(NbtError::DecompressionFailed),
                Some(d) => match spec_chunk_roots(region, offs, i + 1) {
                    Err(e) => Err(e),
                    Ok(rest) => match spec_doc_root(d) {
                        Some(t) => Ok(seq![t] + rest),
                        None => Ok(rest),
                    },
                },
            },
        }
    }
}

/// Decodes every chunk at the given offsets. Extraction and decompression
/// failures abort with that chunk's error; a chunk whose document holds no
/// root, or whose tag tree is malformed, is skipped, as the per-chunk-loop
/// policy allows.
pub fn parse_chunks(region: &Vec<u8>, chunk_offsets: &Vec<u64>) -> (r: Result<Vec<Tag>, NbtError>)
    ensures
        match spec_chunk_roots(region@, chunk_offsets@, 0) {
            Err(e) => r == Err::<Vec<Tag>, NbtError>(e),
            Ok(roots) => r matches Ok(v) && crate::tag::view_members(v@, 0) == roots,
        },
{
    let ghost rg = region@;
    let ghost offs = chunk_offsets@;
    let mut chunks: Vec<Tag> = Vec::new();
    let mut i: usize = 0;
    proof {
        crate::tag::lemma_view_members_props(chunks@, 0);
    }
    while i < chunk_offsets.len()
        invariant
            region@ == rg,
            chunk_offsets@ == offs,
            i <= offs.len(),
            crate::tag::view_members(chunks@, 0).len() == chunks@.len(),
            spec_chunk_roots(rg, offs, 0) == (match spec_chunk_roots(rg, offs, i as int) {
                Err(e) => Err::<Seq<TagV>, NbtError>(e),
                Ok(rest) => Ok(crate::tag::view_members(chunks@, 0) + rest),
            }),
        decreases offs.len() - i,
    {
        let data = match extract_chunk(region, chunk_offsets[i]) {
            Ok(d) => d,
            Err(e) => {
                return Err(e);
            },
        };
        let mut cursor = Cursor::new(&data);
        let ghost views = crate::tag::view_members(chunks@, 0);
        match Tag::parse(&mut cursor) {
            Ok(Some(root)) => {
                proof {
                    lemma_doc_root_unique(data@, crate::tag::view_tag(root));
                    crate::tag::lemma_view_members_push(chunks@, root);
                    assert(views.push(crate::tag::view_tag(root)) =~= views + seq![
                        crate::tag::view_tag(root),
                    ]);
                    assert((views + seq![crate::tag::view_tag(root)]) + spec_chunk_roots(
                        rg,
                        offs,
                        i + 1,
                    )->Ok_0 =~= views + (seq![crate::tag::view_tag(root)] + spec_chunk_roots(
                        rg,
                        offs,
                        i + 1,
                    )->Ok_0));
                }
                chunks.push(root);
            },
            Ok(None) => {
                proof {
                    lemma_doc_root_none(data@);
                }
            },
            Err(_) => {
                proof {
                    if exists|t: TagV| crate::parse::tag_fits(data@, 0, t) {
                        assert(false);
                    }
                }
            },
        }
        i = i + 1;
    }
    Ok(chunks)
}

} // verus!
