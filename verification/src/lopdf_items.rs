//! Trusted contracts for the `lopdf` types and functions that the library
//! uses. They speak of PDF objects by the model in [`crate::pdf_value`].
use crate::pdf_value;
use crate::pdf_value::PdfValue;
use lopdf::{Dictionary, Document, Object, ObjectId};
use vstd::prelude::*;

verus! {

/// `lopdf::Document`: a PDF file in memory.
#[verifier::external_type_specification]
#[verifier::external_body]
pub struct ExDocument(lopdf::Document);

/// `lopdf::Object`: one PDF object.
#[verifier::external_type_specification]
#[verifier::external_body]
pub struct ExObject(lopdf::Object);

/// `lopdf::Dictionary`: a PDF dictionary.
#[verifier::external_type_specification]
#[verifier::external_body]
pub struct ExDictionary(lopdf::Dictionary);

/// `lopdf::Error`: why an object could not be read.
#[verifier::external_type_specification]
#[verifier::external_body]
pub struct ExError(lopdf::Error);

/// What an object holds.
pub uninterp spec fn object_value(object: lopdf::Object) -> PdfValue;

/// The entries of a dictionary.
pub uninterp spec fn dictionary_entries(dictionary: lopdf::Dictionary) -> Map<Seq<u8>, PdfValue>;

/// The indirect objects of a document, by their ids.
pub uninterp spec fn document_objects(doc: lopdf::Document) -> Map<ObjectId, PdfValue>;

/// The entries of a document's trailer.
pub uninterp spec fn document_trailer(doc: lopdf::Document) -> Map<Seq<u8>, PdfValue>;

/// The highest object number that a document says it uses.
pub uninterp spec fn document_max_id(doc: lopdf::Document) -> u32;

/// Whether the second document differs from the first in its objects at most.
pub open spec fn same_frame(a: lopdf::Document, b: lopdf::Document) -> bool {
    document_trailer(a) == document_trailer(b) && document_max_id(a) == document_max_id(b)
}

/// `lopdf::Document::get_object`: finds the object and follows references
/// from it, at most 128 of them.
pub assume_specification[ lopdf::Document::get_object ](doc: &Document, id: ObjectId) -> (r: Result<
    &Object,
    lopdf::Error,
>)
    ensures
        match r {
            Ok(object) => pdf_value::read(document_objects(*doc), id) == Some(
                object_value(*object),
            ),
            Err(_) => pdf_value::read(document_objects(*doc), id) is None,
        },
;

/// `lopdf::Document::get_object_mut`: finds the object as `get_object` does
/// and lends it out for change.
pub assume_specification[ lopdf::Document::get_object_mut ](
    doc: &mut Document,
    id: ObjectId,
) -> (r: Result<&mut Object, lopdf::Error>)
    ensures
        same_frame(*old(doc), *final(doc)),
        match r {
            Ok(object) => pdf_value::resolve(
                document_objects(*old(doc)),
                id,
                128,
            ) matches Some(target) && object_value(*object) == document_objects(*old(doc))[target]
                && document_objects(*final(doc)) == document_objects(*old(doc)).insert(
                target,
                object_value(*final(object)),
            ),
            Err(_) => pdf_value::resolve(document_objects(*old(doc)), id, 128) is None
                && document_objects(*final(doc)) == document_objects(*old(doc)),
        },
;

/// The field `trailer` of `lopdf::Document`.
#[verifier::external_body]
pub(crate) fn trailer(doc: &Document) -> (r: &Dictionary)
    ensures
        dictionary_entries(*r) == document_trailer(*doc),
{
    &doc.trailer
}

/// The field `max_id` of `lopdf::Document`.
#[verifier::external_body]
pub(crate) fn max_id(doc: &Document) -> (r: u32)
    ensures
        r == document_max_id(*doc),
{
    doc.max_id
}

/// Sets the field `max_id` of `lopdf::Document`.
#[verifier::external_body]
pub(crate) fn set_max_id(doc: &mut Document, id: u32)
    ensures
        document_max_id(*final(doc)) == id,
        document_objects(*final(doc)) == document_objects(*old(doc)),
        document_trailer(*final(doc)) == document_trailer(*old(doc)),
{
    doc.max_id = id;
}

/// Whether there are `n` objects.
pub open spec fn has_count(objects: Map<ObjectId, PdfValue>, n: nat) -> bool {
    objects.dom().finite() && objects.dom().len() == n
}

/// How many objects the map `objects` of `lopdf::Document` holds.
#[verifier::external_body]
pub(crate) fn object_count(doc: &Document) -> (r: usize)
    ensures
        has_count(document_objects(*doc), r as nat),
{
    doc.objects.len()
}

/// Puts an object into the map `objects` of `lopdf::Document`.
#[verifier::external_body]
pub(crate) fn insert_object(doc: &mut Document, id: ObjectId, object: Object)
    ensures
        same_frame(*old(doc), *final(doc)),
        document_objects(*final(doc)) == document_objects(*old(doc)).insert(
            id,
            object_value(object),
        ),
{
    doc.objects.insert(id, object);
}

/// Lends out an object of the map `objects` of `lopdf::Document` for change.
#[verifier::external_body]
pub(crate) fn object_mut(doc: &mut Document, id: ObjectId) -> (r: Option<&mut Object>)
    ensures
        same_frame(*old(doc), *final(doc)),
        match r {
            Some(object) => document_objects(*old(doc)).dom().contains(id) && object_value(*object)
                == document_objects(*old(doc))[id] && document_objects(*final(doc))
                == document_objects(*old(doc)).insert(id, object_value(*final(object))),
            None => !document_objects(*old(doc)).dom().contains(id) && document_objects(*final(doc))
                == document_objects(*old(doc)),
        },
{
    doc.objects.get_mut(&id)
}

/// `lopdf::Dictionary::new`: a dictionary without entries.
pub assume_specification[ lopdf::Dictionary::new ]() -> (r: Dictionary)
    ensures
        dictionary_entries(r) == pdf_value::no_entries(),
;

/// `lopdf::Dictionary::get`: the value under a key, or an error when there is
/// none.
pub assume_specification<'a, 'b>[ lopdf::Dictionary::get ](
    dictionary: &'a Dictionary,
    key: &'b [u8],
) -> (r: Result<&'a Object, lopdf::Error>)
    ensures
        match r {
            Ok(object) => dictionary_entries(*dictionary).dom().contains(key@) && object_value(
                *object,
            ) == dictionary_entries(*dictionary)[key@],
            Err(_) => !dictionary_entries(*dictionary).dom().contains(key@),
        },
;

/// `lopdf::Dictionary::set`: puts the value under the key, in place of any
/// value that was there.
#[verifier::external_body]
pub(crate) fn dictionary_set(dictionary: &mut Dictionary, key: &str, value: Object)
    ensures
        dictionary_entries(*final(dictionary)) == dictionary_entries(*old(dictionary)).insert(
            pdf_value::name(key),
            object_value(value),
        ),
{
    dictionary.set(key, value);
}

/// `lopdf::Object::as_reference`: the id that a reference names, and an error
/// for any other object.
pub assume_specification[ lopdf::Object::as_reference ](object: &Object) -> (r: Result<
    ObjectId,
    lopdf::Error,
>)
    ensures
        match r {
            Ok(id) => object_value(*object) == PdfValue::Reference(id),
            Err(_) => !(object_value(*object) is Reference),
        },
;

/// `lopdf::Object::as_name`: the bytes of a name, and an error for any other
/// object.
pub assume_specification[ lopdf::Object::as_name ](object: &Object) -> (r: Result<
    &[u8],
    lopdf::Error,
>)
    ensures
        match r {
            Ok(bytes) => object_value(*object) == PdfValue::Name(bytes@),
            Err(_) => !(object_value(*object) is Name),
        },
;

/// `lopdf::Object::as_array`: the items of an array, and an error for any
/// other object.
pub assume_specification[ lopdf::Object::as_array ](object: &Object) -> (r: Result<
    &Vec<Object>,
    lopdf::Error,
>)
    ensures
        match r {
            Ok(items) => object_value(*object) == PdfValue::Array(
                items@.map_values(|o: Object| object_value(o)),
            ),
            Err(_) => !(object_value(*object) is Array),
        },
;

/// `lopdf::Object::as_dict`: the dictionary, and an error for any other
/// object.
pub assume_specification[ lopdf::Object::as_dict ](object: &Object) -> (r: Result<
    &Dictionary,
    lopdf::Error,
>)
    ensures
        match r {
            Ok(dictionary) => object_value(*object) == PdfValue::Dictionary(
                dictionary_entries(*dictionary),
            ),
            Err(_) => !(object_value(*object) is Dictionary),
        },
;

/// `lopdf::Object::as_dict_mut`: lends out the dictionary for change, and
/// gives an error for any other object.
pub assume_specification[ lopdf::Object::as_dict_mut ](object: &mut Object) -> (r: Result<
    &mut Dictionary,
    lopdf::Error,
>)
    ensures
        match r {
            Ok(dictionary) => object_value(*old(object)) == PdfValue::Dictionary(
                dictionary_entries(*dictionary),
            ) && object_value(*final(object)) == PdfValue::Dictionary(
                dictionary_entries(*final(dictionary)),
            ),
            Err(_) => !(object_value(*old(object)) is Dictionary) && object_value(*final(object))
                == object_value(*old(object)),
        },
;

/// The variant `Null` of `lopdf::Object`.
#[verifier::external_body]
pub(crate) fn null() -> (r: Object)
    ensures
        object_value(r) == PdfValue::Null,
{
    Object::Null
}

/// The variant `Integer` of `lopdf::Object`.
#[verifier::external_body]
pub(crate) fn integer(n: i64) -> (r: Object)
    ensures
        object_value(r) == PdfValue::Integer(n),
{
    Object::Integer(n)
}

/// The variant `Name` of `lopdf::Object`, from the bytes of a word.
#[verifier::external_body]
pub(crate) fn name_object(word: &str) -> (r: Object)
    ensures
        object_value(r) == PdfValue::Name(pdf_value::name(word)),
{
    Object::Name(word.as_bytes().to_vec())
}

/// The variant `String` of `lopdf::Object` in literal form.
#[verifier::external_body]
pub(crate) fn literal_string(bytes: Vec<u8>) -> (r: Object)
    ensures
        object_value(r) == PdfValue::Text(bytes@, pdf_value::TextFormat::Literal),
{
    Object::String(bytes, lopdf::StringFormat::Literal)
}

/// The variant `String` of `lopdf::Object` in hexadecimal form.
#[verifier::external_body]
pub(crate) fn hexadecimal_string(bytes: Vec<u8>) -> (r: Object)
    ensures
        object_value(r) == PdfValue::Text(bytes@, pdf_value::TextFormat::Hexadecimal),
{
    Object::String(bytes, lopdf::StringFormat::Hexadecimal)
}

/// The variant `Array` of `lopdf::Object`.
#[verifier::external_body]
pub(crate) fn array(items: Vec<Object>) -> (r: Object)
    ensures
        object_value(r) == PdfValue::Array(items@.map_values(|o: Object| object_value(o))),
{
    Object::Array(items)
}

/// The variant `Dictionary` of `lopdf::Object`.
#[verifier::external_body]
pub(crate) fn dictionary_object(dictionary: Dictionary) -> (r: Object)
    ensures
        object_value(r) == PdfValue::Dictionary(dictionary_entries(dictionary)),
{
    Object::Dictionary(dictionary)
}

/// The variant `Reference` of `lopdf::Object`.
#[verifier::external_body]
pub(crate) fn reference(id: ObjectId) -> (r: Object)
    ensures
        object_value(r) == PdfValue::Reference(id),
{
    Object::Reference(id)
}

} // verus!
