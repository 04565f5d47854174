//! The calls into the `lopdf` crate.
//!
//! A `lopdf::Document` is a collection of numbered objects with a trailer. Contracts speak of it
//! through [`document_objects`] and [`document_trailer`]. Every function of this file that makes
//! an outside call states what the call does over those two, or over the values of
//! [`crate::value`], and is believed without proof. It is believed of a build in which arithmetic
//! wraps around, as in a release build, and of a machine whose memory and stack suffice.

use crate::blocks::shown;
use crate::content::operations_of;
use crate::inline_image::has_bad_image;
use crate::value::{
    dictionary_entries, distinct_names, distinct_value, entry, key, object_value, operation_values, stream_value,
    with_entry, without_entry, OperationValue, StreamValue, Value,
};
use lopdf::content::{Content, Operation};
use lopdf::{Dictionary, Document, Object, ObjectId, Stream, StringFormat};
use vstd::prelude::*;

verus! {

/// `lopdf::Document`. It is opaque; [`document_objects`] and [`document_trailer`] name what the
/// library reads and changes of it.
#[verifier::external_type_specification]
#[verifier::external_body]
pub struct ExDocument(Document);

/// `lopdf::Error`. It is opaque and only carried through.
#[verifier::external_type_specification]
#[verifier::external_body]
pub struct ExError(lopdf::Error);

/// Why a document could not be read or cleaned.
#[derive(Debug)]
pub enum PdfError {
    /// A reference leads to an object that the document does not hold.
    ObjectNotFound(ObjectId),
    /// A chain of references is longer than lopdf follows.
    ReferenceLimit,
    /// The filters of a content stream could not be undone.
    Undecodable(lopdf::Error),
    /// A form XObject contains itself, directly or through other forms.
    FormCycle(ObjectId),
    /// The document could not be decrypted.
    Locked(lopdf::Error),
}

/// A [`PdfError`] without what lopdf has to say about it.
pub enum Fault {
    ObjectNotFound(ObjectId),
    ReferenceLimit,
    Undecodable,
    FormCycle(ObjectId),
    Locked,
}

impl View for PdfError {
    type V = Fault;

    open spec fn view(&self) -> Fault {
        match *self {
            PdfError::ObjectNotFound(id) => Fault::ObjectNotFound(id),
            PdfError::ReferenceLimit => Fault::ReferenceLimit,
            PdfError::Undecodable(_) => Fault::Undecodable,
            PdfError::FormCycle(id) => Fault::FormCycle(id),
            PdfError::Locked(_) => Fault::Locked,
        }
    }
}

/// The objects that a `lopdf::Document` holds, by number and generation.
pub uninterp spec fn document_objects(doc: Document) -> Map<ObjectId, Value>;

/// The entries of the trailer of a `lopdf::Document`.
pub uninterp spec fn document_trailer(doc: Document) -> Seq<(Seq<u8>, Value)>;

/// The pages that `lopdf::Document::page_iter` finds in the page tree, in page order. They are
/// determined by the objects and the trailer of the document.
pub uninterp spec fn page_list(objects: Map<ObjectId, Value>, trailer: Seq<(Seq<u8>, Value)>) -> Seq<ObjectId>;

/// What `lopdf::Stream::decompressed_content` makes of a stream with this dictionary and this
/// content: `None` if it fails.
pub uninterp spec fn unfiltered(dict: Seq<(Seq<u8>, Value)>, content: Seq<u8>) -> Option<Seq<u8>>;

/// The operations that `lopdf::content::Content::decode` reads from a content stream: `None` if
/// it fails.
pub uninterp spec fn decoded(data: Seq<u8>) -> Option<Seq<OperationValue>>;

/// The bytes that `lopdf::content::Content::encode` writes for operations: `None` if it fails.
pub uninterp spec fn encoded(ops: Seq<OperationValue>) -> Option<Seq<u8>>;

/// What `lopdf::Document::decrypt` makes of a document with these objects and this trailer:
/// whether it succeeds, and the objects that there are then. It may fail half-way.
pub uninterp spec fn decryption(
    objects: Map<ObjectId, Value>,
    trailer: Seq<(Seq<u8>, Value)>,
    password: Seq<char>,
) -> (bool, Map<ObjectId, Value>);

/// Whether lopdf writes a value into a content stream as it reads one. A real number from 2^63 on is
/// written with more digits than an integer may have, and a string with 100 opening brackets may be
/// nested too deep. Streams and references have no place in a content stream.
pub open spec fn plain_value(value: Value) -> bool
    decreases value,
{
    match value {
        Value::Real(bits) => bits % 0x8000_0000 < 0x5f00_0000,
        Value::String(bytes, StringFormat::Literal) => bytes.filter(|b: u8| b == 40).len() < 100,
        Value::Array(items) => forall|i: int| 0 <= i < items.len() ==> plain_value(#[trigger] items[i]),
        Value::Dictionary(entries) => forall|i: int|
            0 <= i < entries.len() ==> plain_value((#[trigger] entries[i]).1),
        Value::Stream(_) => false,
        Value::Reference(_) => false,
        _ => true,
    }
}

/// The characters of operators: letters, and `*`, `'` and `"`.
pub open spec fn operator_char(c: char) -> bool {
    'a' <= c <= 'z' || 'A' <= c <= 'Z' || c == '*' || c == '\'' || c == '"'
}

/// Whether a text starts with a word.
pub open spec fn starts_with(text: Seq<char>, word: Seq<char>) -> bool {
    text.len() >= word.len() && text.take(word.len() as int) == word
}

/// Whether an operator is read as one: it is made of the characters of operators and does not
/// start like an inline image or like an operand.
pub open spec fn plain_operator(operator: Seq<char>) -> bool {
    &&& operator.len() > 0
    &&& forall|i: int| 0 <= i < operator.len() ==> operator_char(#[trigger] operator[i])
    &&& !starts_with(operator, "BI"@)
    &&& !starts_with(operator, "null"@)
    &&& !starts_with(operator, "true"@)
    &&& !starts_with(operator, "false"@)
}

/// Whether operations can be written and read again.
pub open spec fn plain_operations(ops: Seq<OperationValue>) -> bool {
    forall|i: int|
        0 <= i < ops.len() ==> plain_operator((#[trigger] ops[i]).operator) && forall|j: int|
            0 <= j < ops[i].operands.len() ==> plain_value(#[trigger] ops[i].operands[j])
}

/// Whether operations show the same as others, one by one.
pub open spec fn show_the_same(ops: Seq<OperationValue>, others: Seq<OperationValue>) -> bool {
    &&& ops.len() == others.len()
    &&& forall|i: int|
        0 <= i < ops.len() ==> (#[trigger] ops[i]).operator == others[i].operator && shown(ops[i]) == shown(others[i])
}

/// Whether a content stream can be read and shows the same as the operations.
pub open spec fn reads_as(data: Seq<u8>, ops: Seq<OperationValue>) -> bool {
    &&& !has_bad_image(data)
    &&& decoded(data) is Some
    &&& show_the_same(operations_of(data), ops)
}

/// How many references in a row lopdf follows.
pub open spec fn deref_limit() -> nat {
    128
}

/// Where the references that start with the value `value` of object `id` end, after `steps` of
/// them have been followed: the number and the value of the object at the end.
pub open spec fn follow(
    objects: Map<ObjectId, Value>,
    id: ObjectId,
    value: Value,
    steps: nat,
) -> Result<(ObjectId, Value), Fault>
    decreases deref_limit() - steps,
{
    match value {
        Value::Reference(next) => if !objects.contains_key(next) {
            Err(Fault::ObjectNotFound(next))
        } else if steps >= deref_limit() {
            Err(Fault::ReferenceLimit)
        } else {
            follow(objects, next, objects[next], steps + 1)
        },
        _ => Ok((id, value)),
    }
}

/// The object that the number `id` leads to, once references are followed.
pub open spec fn resolve(objects: Map<ObjectId, Value>, id: ObjectId) -> Result<(ObjectId, Value), Fault> {
    if objects.contains_key(id) {
        follow(objects, id, objects[id], 0)
    } else {
        Err(Fault::ObjectNotFound(id))
    }
}

proof fn lemma_followed(objects: Map<ObjectId, Value>, id: ObjectId, value: Value, steps: nat)
    requires
        objects.contains_key(id),
        objects[id] == value,
    ensures
        follow(objects, id, value, steps) matches Ok((target, found)) ==> objects.contains_key(target)
            && objects[target] == found && !(found is Reference),
    decreases deref_limit() - steps,
{
    if let Value::Reference(next) = value {
        if objects.contains_key(next) && steps < deref_limit() {
            lemma_followed(objects, next, objects[next], steps + 1);
        }
    }
}

/// What a number leads to is an object of the document, and no reference.
pub proof fn lemma_resolved(objects: Map<ObjectId, Value>, id: ObjectId)
    ensures
        resolve(objects, id) matches Ok((target, value)) ==> objects.contains_key(target) && objects[target] == value
            && !(value is Reference) && objects.insert(target, value) == objects,
{
    if objects.contains_key(id) {
        lemma_followed(objects, id, objects[id], 0);
        if let Ok((target, value)) = resolve(objects, id) {
            assert(objects.insert(target, value) =~= objects);
        }
    }
}

/// Whether the `Filter` entry of a stream tells its filters: it is a name or an array of names.
pub open spec fn tells_filters(filter: Value) -> bool {
    match filter {
        Value::Name(_) => true,
        Value::Array(items) => forall|i: int| 0 <= i < items.len() ==> #[trigger] items[i] is Name,
        _ => false,
    }
}

/// The content of a stream with its filters undone: `None` if they cannot be told or undone. A
/// stream without filters is read as it is.
pub open spec fn plain_content(stream: StreamValue) -> Option<Seq<u8>> {
    match entry(stream.dict, key("Filter")) {
        None => Some(stream.content),
        Some(Value::Array(items)) if items.len() == 0 => Some(stream.content),
        Some(filter) => if tells_filters(filter) {
            unfiltered(stream.dict, stream.content)
        } else {
            None
        },
    }
}

/// The stream once it is given a new content that no filter is applied to.
pub open spec fn with_plain_content(stream: StreamValue, content: Seq<u8>) -> StreamValue {
    StreamValue {
        dict: with_entry(
            without_entry(without_entry(stream.dict, key("DecodeParms")), key("Filter")),
            key("Length"),
            Value::Integer(content.len() as i64),
        ),
        content,
        ..stream
    }
}

/// Whether the trailer refers to an encryption dictionary.
pub open spec fn encrypted(objects: Map<ObjectId, Value>, trailer: Seq<(Seq<u8>, Value)>) -> bool {
    match entry(trailer, key("Encrypt")) {
        Some(Value::Reference(id)) => match resolve(objects, id) {
            Ok((_, value)) => value is Dictionary,
            Err(_) => false,
        },
        _ => false,
    }
}

/// `lopdf::Document::get_object`: the object with this number, references followed. lopdf fails
/// where an object is missing or where more references come in a row than it follows. A dictionary
/// of lopdf has no name twice.
#[verifier::external_body]
pub(crate) fn get_object<'a>(doc: &'a Document, id: ObjectId) -> (r: Result<&'a Object, PdfError>)
    ensures
        match resolve(document_objects(*doc), id) {
            Ok((_, value)) => r matches Ok(object) && object_value(*object) == value && distinct_value(
                object_value(*object),
            ),
            Err(fault) => r matches Err(error) && error@ == fault,
        },
{
    match doc.get_object(id) {
        Ok(object) => Ok(object),
        Err(lopdf::Error::ObjectNotFound(missing)) => Err(PdfError::ObjectNotFound(missing)),
        Err(_) => Err(PdfError::ReferenceLimit),
    }
}

/// `lopdf::Document::get_object_mut`: the object that [`get_object`] reads, to be changed in
/// place. The rest of the document stays as it is.
#[verifier::external_body]
pub(crate) fn get_object_mut<'a>(doc: &'a mut Document, id: ObjectId) -> (r: Result<&'a mut Object, PdfError>)
    ensures
        document_trailer(*final(doc)) == document_trailer(*old(doc)),
        match resolve(document_objects(*old(doc)), id) {
            Ok((target, value)) => r matches Ok(object) && object_value(*object) == value && distinct_value(
                object_value(*object),
            ) && document_objects(*final(doc)) == document_objects(*old(doc)).insert(
                target,
                object_value(*final(object)),
            ),
            Err(fault) => r matches Err(error) && error@ == fault && document_objects(*final(doc))
                == document_objects(*old(doc)),
        },
{
    match doc.get_object_mut(id) {
        Ok(object) => Ok(object),
        Err(lopdf::Error::ObjectNotFound(missing)) => Err(PdfError::ObjectNotFound(missing)),
        Err(_) => Err(PdfError::ReferenceLimit),
    }
}

/// `lopdf::Document::page_iter`: the numbers of the page objects, in page order. These are the
/// pages that `lopdf::Document::get_pages` numbers, which panics where a document claims to have
/// too many.
#[verifier::external_body]
pub(crate) fn get_pages(doc: &Document) -> (r: Vec<ObjectId>)
    ensures
        r@ == page_list(document_objects(*doc), document_trailer(*doc)),
{
    let mut pages: Vec<ObjectId> = Vec::new();
    for page in doc.page_iter() {
        pages.push(page);
    }
    pages
}

/// `lopdf::Document::is_encrypted`: whether the trailer refers to an encryption dictionary.
#[verifier::external_body]
pub(crate) fn is_encrypted(doc: &Document) -> (r: bool)
    ensures
        r == encrypted(document_objects(*doc), document_trailer(*doc)),
{
    doc.is_encrypted()
}

/// `lopdf::Document::decrypt`: replaces the strings and streams of an encrypted document by what
/// they decrypt to, and removes the encryption dictionary from the trailer. Whether it succeeds,
/// and the objects that there are then, are determined by the document and the password; if it
/// fails the trailer stays as it is.
#[verifier::external_body]
pub(crate) fn decrypt(doc: &mut Document, password: &str) -> (r: Result<(), lopdf::Error>)
    ensures
        decryption(document_objects(*old(doc)), document_trailer(*old(doc)), password@) == (
            r is Ok,
            document_objects(*final(doc)),
        ),
        document_trailer(*final(doc)) == (if r is Ok {
            without_entry(document_trailer(*old(doc)), key("Encrypt"))
        } else {
            document_trailer(*old(doc))
        }),
{
    doc.decrypt(password)
}

/// `lopdf::Dictionary::remove` on the trailer of the document: the entry goes, the last entry of
/// the trailer takes its place, and the objects stay as they are. The trailer has no name twice.
#[verifier::external_body]
pub(crate) fn remove_from_trailer(doc: &mut Document, name: &str)
    ensures
        document_objects(*final(doc)) == document_objects(*old(doc)),
        document_trailer(*final(doc)) == without_entry(document_trailer(*old(doc)), key(name)),
        entry(document_trailer(*final(doc)), key(name)) is None,
        distinct_names(document_trailer(*final(doc))),
{
    doc.trailer.remove(name.as_bytes());
}

/// `lopdf::Dictionary::get`: the value of the entry with this name, if there is one.
#[verifier::external_body]
pub(crate) fn dictionary_get<'a>(dict: &'a Dictionary, name: &str) -> (r: Option<&'a Object>)
    ensures
        match entry(dictionary_entries(*dict), key(name)) {
            Some(value) => r matches Some(object) && object_value(*object) == value,
            None => r is None,
        },
{
    dict.get(name.as_bytes()).ok()
}

/// `lopdf::Dictionary::set`: the entry with this name gets a new value in its old place, or is
/// added at the end.
#[verifier::external_body]
pub(crate) fn dictionary_set(dict: &mut Dictionary, name: &str, value: Object)
    ensures
        dictionary_entries(*final(dict)) == with_entry(dictionary_entries(*old(dict)), key(name), object_value(value)),
{
    dict.set(name, value);
}

/// `lopdf::Dictionary::remove`: the entry with this name goes and the last entry takes its place.
#[verifier::external_body]
pub(crate) fn dictionary_remove(dict: &mut Dictionary, name: &str)
    ensures
        dictionary_entries(*final(dict)) == without_entry(dictionary_entries(*old(dict)), key(name)),
{
    dict.remove(name.as_bytes());
}

/// `lopdf::Dictionary::iter`: the entries, in order. No name occurs twice.
#[verifier::external_body]
pub(crate) fn dictionary_items(dict: &Dictionary) -> (r: Vec<(Vec<u8>, Object)>)
    ensures
        r@.len() == dictionary_entries(*dict).len(),
        forall|i: int|
            0 <= i < r@.len() ==> (#[trigger] r@[i]).0@ == dictionary_entries(*dict)[i].0 && object_value(r@[i].1)
                == dictionary_entries(*dict)[i].1,
        forall|i: int, j: int| 0 <= i < j < r@.len() ==> (#[trigger] r@[i]).0@ != (#[trigger] r@[j]).0@,
{
    dict.iter().map(|(name, object)| (name.clone(), object.clone())).collect()
}

/// `lopdf::Stream::decompressed_content`: the content with its filters undone. lopdf fails where the
/// `Filter` entry is missing or does not tell the filters. Else only this is claimed, that the
/// outcome is determined by the dictionary and the content.
#[verifier::external_body]
pub(crate) fn decompressed_content(stream: &Stream) -> (r: Result<Vec<u8>, lopdf::Error>)
    ensures
        match r {
            Ok(bytes) => unfiltered(dictionary_entries(stream.dict), stream.content@) == Some(bytes@) && (entry(
                dictionary_entries(stream.dict),
                key("Filter"),
            ) matches Some(filter) && tells_filters(filter)),
            Err(_) => unfiltered(dictionary_entries(stream.dict), stream.content@) is None,
        },
{
    stream.decompressed_content()
}

/// `lopdf::Stream::set_plain_content`: the stream gets a new content and its length, and loses
/// the entries that describe filters.
#[verifier::external_body]
pub(crate) fn set_plain_content(stream: &mut Stream, content: Vec<u8>)
    ensures
        stream_value(*final(stream)) == with_plain_content(stream_value(*old(stream)), content@),
{
    stream.set_plain_content(content);
}

/// `lopdf::content::Content::decode`: the operations of a content stream, if it can be read. What
/// they are is determined by the bytes; of no bytes there are none. lopdf panics when it comes to an
/// inline image that has a size but no color space and is no mask; [`has_bad_image`] says of which
/// bytes it does.
#[verifier::external_body]
pub(crate) fn decode_content(data: &[u8]) -> (r: Option<Vec<Operation>>)
    requires
        !has_bad_image(data@),
    ensures
        match r {
            Some(operations) => decoded(data@) == Some(operation_values(operations@)) && (data@.len() == 0
                ==> operations@.len() == 0),
            None => decoded(data@) is None && data@.len() > 0,
        },
{
    match Content::decode(data) {
        Ok(content) => Some(content.operations),
        Err(_) => None,
    }
}

/// `lopdf::content::Content::encode`: the bytes of a content stream with these operations, if it
/// can be written. What they are is determined by the operations. Operations that lopdf writes as
/// it reads them can be written, and what [`decode_content`] reads shows the same: each operator
/// comes back with strings that hold the same bytes. Since none of these operators begins with
/// `BI`, no inline image is come to. That numbers come back as they were is not claimed: a real
/// number without a fraction comes back as an integer.
#[verifier::external_body]
pub(crate) fn encode_content(operations: Vec<Operation>) -> (r: Option<Vec<u8>>)
    ensures
        match r {
            Some(bytes) => encoded(operation_values(operations@)) == Some(bytes@) && (plain_operations(
                operation_values(operations@),
            ) ==> reads_as(bytes@, operation_values(operations@))),
            None => encoded(operation_values(operations@)) is None && !plain_operations(
                operation_values(operations@),
            ),
        },
{
    match (Content { operations }).encode() {
        Ok(bytes) => Some(bytes),
        Err(_) => None,
    }
}

/// The bits of a real number, by `f32::to_bits`.
#[verifier::external_body]
pub(crate) fn real_bits(object: &Object) -> (r: u32)
    requires
        *object is Real,
    ensures
        object_value(*object) == Value::Real(r),
{
    match object {
        Object::Real(number) => number.to_bits(),
        _ => 0,
    }
}

} // verus!
