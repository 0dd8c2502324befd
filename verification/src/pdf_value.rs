//! A mathematical model of PDF objects.
use lopdf::ObjectId;
use vstd::prelude::*;

verus! {

/// How a string object is written.
#[derive(Debug, Clone, Copy, PartialEq, Eq, Structural)]
pub enum TextFormat {
    Literal,
    Hexadecimal,
}

/// What a PDF object says. Reals and streams are carried along unread.
#[verifier::ext_equal]
pub enum PdfValue {
    Null,
    Boolean(bool),
    Integer(i64),
    Name(Seq<u8>),
    Text(Seq<u8>, TextFormat),
    Array(Seq<PdfValue>),
    Dictionary(Map<Seq<u8>, PdfValue>),
    Reference(ObjectId),
    Opaque(lopdf::Object),
}

/// The bytes of a PDF name.
pub open spec fn name(s: &str) -> Seq<u8> {
    vstd::utf8::encode_utf8(s@)
}

/// The entries of an empty dictionary.
pub open spec fn no_entries() -> Map<Seq<u8>, PdfValue> {
    Map::empty()
}

/// Where the chain of references that starts at `id` ends: the first object on
/// it that is no reference. Nothing when the chain runs into a missing object
/// or takes more than `hops` steps.
pub open spec fn resolve(objects: Map<ObjectId, PdfValue>, id: ObjectId, hops: nat) -> Option<
    ObjectId,
>
    decreases hops,
{
    if !objects.dom().contains(id) {
        None
    } else {
        match objects[id] {
            PdfValue::Reference(next) => if hops == 0 {
                None
            } else {
                resolve(objects, next, (hops - 1) as nat)
            },
            _ => Some(id),
        }
    }
}

/// The object that `id` leads to, through any references.
pub open spec fn read(objects: Map<ObjectId, PdfValue>, id: ObjectId) -> Option<PdfValue> {
    match resolve(objects, id, 128) {
        Some(target) => Some(objects[target]),
        None => None,
    }
}

/// Different words are different names.
pub proof fn names_differ(a: &str, b: &str)
    requires
        a@ != b@,
    ensures
        name(a) != name(b),
{
    vstd::utf8::encode_utf8_decode_utf8(a@);
    vstd::utf8::encode_utf8_decode_utf8(b@);
}

/// A chain of references ends at an object that is there and is no reference.
pub proof fn lemma_resolve(objects: Map<ObjectId, PdfValue>, id: ObjectId, hops: nat)
    ensures
        resolve(objects, id, hops) matches Some(target) ==> objects.dom().contains(target) && !(
        objects[target] is Reference) && objects.dom().contains(id),
    decreases hops,
{
    if objects.dom().contains(id) {
        if let PdfValue::Reference(next) = objects[id] {
            if hops > 0 {
                lemma_resolve(objects, next, (hops - 1) as nat);
            }
        }
    }
}

} // verus!
