//! The decoded tag tree: executable payload and tag types, their spec-level
//! views, and the typed accessor API used to traverse a decoded tree.

use vstd::prelude::*;
use crate::error::NbtError;
use crate::model::{PayloadV, TagV, code_of};

verus! {

/// Payload of one NBT tag. `Float` and `Double` hold the raw big-endian
/// IEEE-754 bits of the wire format; a `List` keeps the element type code it
/// was decoded with, so an empty list still round-trips.
#[derive(Debug, PartialEq)]
pub enum TagPayload {
    Byte(i8),
    Short(i16),
    Int(i32),
    Long(i64),
    Float(u32),
    Double(u64),
    ByteArray(Vec<i8>),
    String(Vec<u8>),
    List(u8, Vec<TagPayload>),
    Compound(Vec<Tag>),
    IntArray(Vec<i32>),
    LongArray(Vec<i64>),
}

/// A named node of the tree: a UTF-8 name (empty for the document root and
/// for list elements) and a payload.
#[derive(Debug, PartialEq)]
pub struct Tag {
    pub name: Vec<u8>,
    pub payload: TagPayload,
}

/// Spec-level view of a payload.
pub open spec fn view_payload(p: TagPayload) -> PayloadV
    decreases p, 1int,
{
    match p {
        TagPayload::Byte(v) => PayloadV::Byte(v),
        TagPayload::Short(v) => PayloadV::Short(v),
        TagPayload::Int(v) => PayloadV::Int(v),
        TagPayload::Long(v) => PayloadV::Long(v),
        TagPayload::Float(bits) => PayloadV::Float(bits),
        TagPayload::Double(bits) => PayloadV::Double(bits),
        TagPayload::ByteArray(v) => PayloadV::ByteArray(v@),
        TagPayload::String(v) => PayloadV::Str(v@),
        TagPayload::List(c, items) => PayloadV::List(c, view_items(items@, 0)),
        TagPayload::Compound(ms) => PayloadV::Compound(view_members(ms@, 0)),
        TagPayload::IntArray(v) => PayloadV::IntArray(v@),
        TagPayload::LongArray(v) => PayloadV::LongArray(v@),
    }
}

/// Views of the payloads `items[i..]`.
pub open spec fn view_items(items: Seq<TagPayload>, i: int) -> Seq<PayloadV>
    decreases items, items.len() - i,
{
    if i < 0 || i >= items.len() {
        Seq::empty()
    } else {
        seq![view_payload(items[i])] + view_items(items, i + 1)
    }
}

/// Spec-level view of a named tag.
pub open spec fn view_tag(t: Tag) -> TagV
    decreases t, 2int,
{
    TagV { name: t.name@, payload: view_payload(t.payload) }
}

/// Views of the named tags `ms[i..]`.
pub open spec fn view_members(ms: Seq<Tag>, i: int) -> Seq<TagV>
    decreases ms, ms.len() - i,
{
    if i < 0 || i >= ms.len() {
        Seq::empty()
    } else {
        seq![view_tag(ms[i])] + view_members(ms, i + 1)
    }
}

impl View for TagPayload {
    type V = PayloadV;

    open spec fn view(&self) -> PayloadV {
        view_payload(*self)
    }
}

impl View for Tag {
    type V = TagV;

    open spec fn view(&self) -> TagV {
        view_tag(*self)
    }
}

/// `view_items(items, i)` views the elements of `items[i..]` one for one.
pub proof fn lemma_view_items_props(items: Seq<TagPayload>, i: int)
    requires
        0 <= i <= items.len(),
    ensures
        view_items(items, i).len() == items.len() - i,
        forall|k: int|
            0 <= k < items.len() - i ==> #[trigger] view_items(items, i)[k] == view_payload(
                items[k + i],
            ),
    decreases items.len() - i,
{
    if i < items.len() {
        lemma_view_items_props(items, i + 1);
    }
}

/// `view_members(ms, i)` views the tags of `ms[i..]` one for one.
pub proof fn lemma_view_members_props(ms: Seq<Tag>, i: int)
    requires
        0 <= i <= ms.len(),
    ensures
        view_members(ms, i).len() == ms.len() - i,
        forall|k: int|
            0 <= k < ms.len() - i ==> #[trigger] view_members(ms, i)[k] == view_tag(ms[k + i]),
    decreases ms.len() - i,
{
    if i < ms.len() {
        lemma_view_members_props(ms, i + 1);
    }
}

/// Appending a payload appends its view.
pub proof fn lemma_view_items_push(items: Seq<TagPayload>, p: TagPayload)
    ensures
        view_items(items.push(p), 0) == view_items(items, 0).push(view_payload(p)),
{
    lemma_view_items_props(items, 0);
    lemma_view_items_props(items.push(p), 0);
    assert(view_items(items.push(p), 0) =~= view_items(items, 0).push(view_payload(p)));
}

/// Appending a tag appends its view.
pub proof fn lemma_view_members_push(ms: Seq<Tag>, t: Tag)
    ensures
        view_members(ms.push(t), 0) == view_members(ms, 0).push(view_tag(t)),
{
    lemma_view_members_props(ms, 0);
    lemma_view_members_props(ms.push(t), 0);
    assert(view_members(ms.push(t), 0) =~= view_members(ms, 0).push(view_tag(t)));
}

impl TagPayload {
    /// The NBT type code of this payload.
    pub fn type_code(&self) -> (r: u8)
        ensures
            r == code_of(self@),
    {
        match self {
            TagPayload::Byte(_) => 1,
            TagPayload::Short(_) => 2,
            TagPayload::Int(_) => 3,
            TagPayload::Long(_) => 4,
            TagPayload::Float(_) => 5,
            TagPayload::Double(_) => 6,
            TagPayload::ByteArray(_) => 7,
            TagPayload::String(_) => 8,
            TagPayload::List(_, _) => 9,
            TagPayload::Compound(_) => 10,
            TagPayload::IntArray(_) => 11,
            TagPayload::LongArray(_) => 12,
        }
    }

    /// Projects onto the `Byte` variant, else `TypeMismatch`.
    pub fn as_byte(&self) -> (r: Result<&i8, NbtError>)
        ensures
            self@ matches PayloadV::Byte(v) ==> r matches Ok(b) && *b == v,
            !(self@ is Byte) ==> r == Err::<&i8, NbtError>(
                NbtError::TypeMismatch { expected: 1, actual: code_of(self@) },
            ),
    {
        match self {
            TagPayload::Byte(b) => Ok(b),
            _ => Err(NbtError::TypeMismatch { expected: 1, actual: self.type_code() }),
        }
    }

    /// Projects onto the `Short` variant, else `TypeMismatch`.
    pub fn as_short(&self) -> (r: Result<&i16, NbtError>)
        ensures
            self@ matches PayloadV::Short(v) ==> r matches Ok(b) && *b == v,
            !(self@ is Short) ==> r == Err::<&i16, NbtError>(
                NbtError::TypeMismatch { expected: 2, actual: code_of(self@) },
            ),
    {
        match self {
            TagPayload::Short(b) => Ok(b),
            _ => Err(NbtError::TypeMismatch { expected: 2, actual: self.type_code() }),
        }
    }

    /// Projects onto the `Int` variant, else `TypeMismatch`.
    pub fn as_int(&self) -> (r: Result<&i32, NbtError>)
        ensures
            self@ matches PayloadV::Int(v) ==> r matches Ok(b) && *b == v,
            !(self@ is Int) ==> r == Err::<&i32, NbtError>(
                NbtError::TypeMismatch { expected: 3, actual: code_of(self@) },
            ),
    {
        match self {
            TagPayload::Int(b) => Ok(b),
            _ => Err(NbtError::TypeMismatch { expected: 3, actual: self.type_code() }),
        }
    }

    /// Projects onto the `Long` variant, else `TypeMismatch`.
    pub fn as_long(&self) -> (r: Result<&i64, NbtError>)
        ensures
            self@ matches PayloadV::Long(v) ==> r matches Ok(b) && *b == v,
            !(self@ is Long) ==> r == Err::<&i64, NbtError>(
                NbtError::TypeMismatch { expected: 4, actual: code_of(self@) },
            ),
    {
        match self {
            TagPayload::Long(b) => Ok(b),
            _ => Err(NbtError::TypeMismatch { expected: 4, actual: self.type_code() }),
        }
    }

    /// Projects onto the `Float` variant, as raw IEEE-754 bits, else
    /// `TypeMismatch`.
    pub fn as_float_bits(&self) -> (r: Result<&u32, NbtError>)
        ensures
            self@ matches PayloadV::Float(v) ==> r matches Ok(b) && *b == v,
            !(self@ is Float) ==> r == Err::<&u32, NbtError>(
                NbtError::TypeMismatch { expected: 5, actual: code_of(self@) },
            ),
    {
        match self {
            TagPayload::Float(b) => Ok(b),
            _ => Err(NbtError::TypeMismatch { expected: 5, actual: self.type_code() }),
        }
    }

    /// Projects onto the `Double` variant, as raw IEEE-754 bits, else
    /// `TypeMismatch`.
    pub fn as_double_bits(&self) -> (r: Result<&u64, NbtError>)
        ensures
            self@ matches PayloadV::Double(v) ==> r matches Ok(b) && *b == v,
            !(self@ is Double) ==> r == Err::<&u64, NbtError>(
                NbtError::TypeMismatch { expected: 6, actual: code_of(self@) },
            ),
    {
        match self {
            TagPayload::Double(b) => Ok(b),
            _ => Err(NbtError::TypeMismatch { expected: 6, actual: self.type_code() }),
        }
    }

    /// Projects onto the `ByteArray` variant, else `TypeMismatch`.
    pub fn as_byte_array(&self) -> (r: Result<&Vec<i8>, NbtError>)
        ensures
            self@ matches PayloadV::ByteArray(v) ==> r matches Ok(b) && b@ == v,
            !(self@ is ByteArray) ==> r == Err::<&Vec<i8>, NbtError>(
                NbtError::TypeMismatch { expected: 7, actual: code_of(self@) },
            ),
    {
        match self {
            TagPayload::ByteArray(b) => Ok(b),
            _ => Err(NbtError::TypeMismatch { expected: 7, actual: self.type_code() }),
        }
    }

    /// Projects onto the `String` variant (UTF-8 bytes), else `TypeMismatch`.
    pub fn as_string(&self) -> (r: Result<&Vec<u8>, NbtError>)
        ensures
            self@ matches PayloadV::Str(v) ==> r matches Ok(b) && b@ == v,
            !(self@ is Str) ==> r == Err::<&Vec<u8>, NbtError>(
                NbtError::TypeMismatch { expected: 8, actual: code_of(self@) },
            ),
    {
        match self {
            TagPayload::String(b) => Ok(b),
            _ => Err(NbtError::TypeMismatch { expected: 8, actual: self.type_code() }),
        }
    }

    /// Projects onto the `List` variant's elements, else `TypeMismatch`.
    pub fn as_list(&self) -> (r: Result<&Vec<TagPayload>, NbtError>)
        ensures
            self@ matches PayloadV::List(c, items) ==> r matches Ok(b) && view_items(b@, 0)
                == items,
            !(self@ is List) ==> r == Err::<&Vec<TagPayload>, NbtError>(
                NbtError::TypeMismatch { expected: 9, actual: code_of(self@) },
            ),
    {
        match self {
            TagPayload::List(_, items) => Ok(items),
            _ => Err(NbtError::TypeMismatch { expected: 9, actual: self.type_code() }),
        }
    }

    /// Projects onto the `Compound` variant's members, else `TypeMismatch`.
    pub fn as_compound(&self) -> (r: Result<&Vec<Tag>, NbtError>)
        ensures
            self@ matches PayloadV::Compound(ms) ==> r matches Ok(b) && view_members(b@, 0) == ms,
            !(self@ is Compound) ==> r == Err::<&Vec<Tag>, NbtError>(
                NbtError::TypeMismatch { expected: 10, actual: code_of(self@) },
            ),
    {
        match self {
            TagPayload::Compound(ms) => Ok(ms),
            _ => Err(NbtError::TypeMismatch { expected: 10, actual: self.type_code() }),
        }
    }

    /// Projects onto the `IntArray` variant, else `TypeMismatch`.
    pub fn as_int_array(&self) -> (r: Result<&Vec<i32>, NbtError>)
        ensures
            self@ matches PayloadV::IntArray(v) ==> r matches Ok(b) && b@ == v,
            !(self@ is IntArray) ==> r == Err::<&Vec<i32>, NbtError>(
                NbtError::TypeMismatch { expected: 11, actual: code_of(self@) },
            ),
    {
        match self {
            TagPayload::IntArray(b) => Ok(b),
            _ => Err(NbtError::TypeMismatch { expected: 11, actual: self.type_code() }),
        }
    }

    /// Projects onto the `LongArray` variant, else `TypeMismatch`.
    pub fn as_long_array(&self) -> (r: Result<&Vec<i64>, NbtError>)
        ensures
            self@ matches PayloadV::LongArray(v) ==> r matches Ok(b) && b@ == v,
            !(self@ is LongArray) ==> r == Err::<&Vec<i64>, NbtError>(
                NbtError::TypeMismatch { expected: 12, actual: code_of(self@) },
            ),
    {
        match self {
            TagPayload::LongArray(b) => Ok(b),
            _ => Err(NbtError::TypeMismatch { expected: 12, actual: self.type_code() }),
        }
    }
}

/// The payload of the first member of `ms[i..]` whose name is `name`.
pub open spec fn first_match(ms: Seq<TagV>, name: Seq<u8>, i: int) -> Option<PayloadV>
    decreases ms.len() - i,
{
    if i < 0 || i >= ms.len() {
        None
    } else if ms[i].name == name {
        Some(ms[i].payload)
    } else {
        first_match(ms, name, i + 1)
    }
}

/// Byte-for-byte equality of two byte vectors.
fn bytes_eq(a: &Vec<u8>, b: &Vec<u8>) -> (r: bool)
    ensures
        r == (a@ == b@),
{
    if a.len() != b.len() {
        proof {
            assert(a@ != b@);
        }
        return false;
    }
    let n = a.len();
    let mut k: usize = 0;
    while k < n
        invariant
            n == a@.len() == b@.len(),
            k <= n,
            forall|j: int| 0 <= j < k ==> a@[j] == b@[j],
        decreases n - k,
    {
        if a[k] != b[k] {
            proof {
                assert(a@ != b@);
            }
            return false;
        }
        k = k + 1;
    }
    proof {
        assert(a@ =~= b@);
    }
    true
}

/// By-name lookup on a compound's member list: the payload of the first
/// member named `name`, or `MissingField` when no member matches.
pub fn get_by_name<'a>(members: &'a Vec<Tag>, name: &Vec<u8>) -> (r: Result<
    &'a TagPayload,
    NbtError,
>)
    ensures
        first_match(view_members(members@, 0), name@, 0) matches Some(p) ==> r matches Ok(q) && q@
            == p,
        first_match(view_members(members@, 0), name@, 0) is None ==> r == Err::<
            &'a TagPayload,
            NbtError,
        >(NbtError::MissingField),
{
    proof {
        lemma_view_members_props(members@, 0);
    }
    let ghost vms = view_members(members@, 0);
    let n = members.len();
    let mut k: usize = 0;
    while k < n
        invariant
            n == members@.len(),
            k <= n,
            vms == view_members(members@, 0),
            vms.len() == n,
            forall|j: int| 0 <= j < members@.len() ==> vms[j] == view_tag(#[trigger] members@[j]),
            first_match(vms, name@, 0) == first_match(vms, name@, k as int),
        decreases n - k,
    {
        if bytes_eq(&members[k].name, name) {
            return Ok(&members[k].payload);
        }
        k = k + 1;
    }
    Err(NbtError::MissingField)
}

} // verus!
