//! PDF objects as mathematical values.
//!
//! The library works on the objects of the `lopdf` crate. Contracts speak of them through the
//! types of this file: a [`Value`] is what an object holds, with every vector replaced by the
//! sequence of its items and every dictionary by the sequence of its entries.

use lopdf::content::Operation;
use lopdf::{Dictionary, Object, ObjectId, Stream, StringFormat};
#[allow(unused_imports)]
use vstd::float::FloatBitsProperties;
use vstd::prelude::*;
#[allow(unused_imports)]
use vstd::string::StringSliceAdditionalSpecFns;

verus! {

/// `lopdf::StringFormat`: whether a string is written in brackets or as hexadecimal digits.
#[verifier::external_type_specification]
pub struct ExStringFormat(StringFormat);

/// `lopdf::Dictionary`, an insertion-ordered map from names to objects. It is opaque;
/// [`dictionary_entries`] names what it holds.
#[verifier::external_type_specification]
#[verifier::external_body]
pub struct ExDictionary(Dictionary);

/// `lopdf::Stream`: a dictionary with a content of bytes. All its fields are public.
#[verifier::external_type_specification]
pub struct ExStream(Stream);

/// `lopdf::Object`: the ten kinds of PDF object. All its variants are public.
#[verifier::external_type_specification]
pub struct ExObject(Object);

/// `lopdf::content::Operation`: an operator with its operands. All its fields are public.
#[verifier::external_type_specification]
pub struct ExOperation(Operation);

/// The entries of a dictionary, in order.
pub type Entries = Seq<(Seq<u8>, Value)>;

/// What a stream holds.
pub struct StreamValue {
    pub dict: Seq<(Seq<u8>, Value)>,
    pub content: Seq<u8>,
    pub allows_compression: bool,
    pub start_position: Option<usize>,
}

/// What an object holds. A real number is given by the bits of its single-precision encoding.
pub enum Value {
    Null,
    Boolean(bool),
    Integer(i64),
    Real(u32),
    Name(Seq<u8>),
    String(Seq<u8>, StringFormat),
    Array(Seq<Value>),
    Dictionary(Seq<(Seq<u8>, Value)>),
    Stream(StreamValue),
    Reference(ObjectId),
}

/// What an operation of a content stream holds.
pub struct OperationValue {
    pub operator: Seq<char>,
    pub operands: Seq<Value>,
}

/// The entries that a `lopdf::Dictionary` holds, in the order in which it is walked. No name
/// occurs twice.
pub uninterp spec fn dictionary_entries(dict: Dictionary) -> Seq<(Seq<u8>, Value)>;

pub open spec fn stream_value(stream: Stream) -> StreamValue {
    StreamValue {
        dict: dictionary_entries(stream.dict),
        content: stream.content@,
        allows_compression: stream.allows_compression,
        start_position: stream.start_position,
    }
}

pub open spec fn object_value(object: Object) -> Value
    decreases object,
{
    match object {
        Object::Null => Value::Null,
        Object::Boolean(b) => Value::Boolean(b),
        Object::Integer(n) => Value::Integer(n),
        Object::Real(x) => Value::Real(x.to_bits_spec()),
        Object::Name(name) => Value::Name(name@),
        Object::String(bytes, format) => Value::String(bytes@, format),
        Object::Array(items) => Value::Array(
            Seq::new(
                items@.len(),
                |i: int|
                    if 0 <= i < items@.len() {
                        object_value(items@[i])
                    } else {
                        Value::Null
                    },
            ),
        ),
        Object::Dictionary(dict) => Value::Dictionary(dictionary_entries(dict)),
        Object::Stream(stream) => Value::Stream(stream_value(stream)),
        Object::Reference(id) => Value::Reference(id),
    }
}

pub open spec fn object_values(objects: Seq<Object>) -> Seq<Value> {
    Seq::new(objects.len(), |i: int| object_value(objects[i]))
}

/// What an array holds are the values of its items.
pub proof fn lemma_array_value(items: Vec<Object>)
    ensures
        object_value(Object::Array(items)) == Value::Array(object_values(items@)),
{
    assert(object_value(Object::Array(items))->Array_0 =~= object_values(items@));
}

pub open spec fn operation_value(op: Operation) -> OperationValue {
    OperationValue { operator: op.operator@, operands: object_values(op.operands@) }
}

pub open spec fn operation_values(ops: Seq<Operation>) -> Seq<OperationValue> {
    Seq::new(ops.len(), |i: int| operation_value(ops[i]))
}

/// The bytes of a name that is written in ASCII, such as a key of a dictionary.
pub open spec fn key(name: &str) -> Seq<u8> {
    name.spec_bytes()
}

/// The position of the entry called `name`, searched for from position `from` on.
pub open spec fn entry_position(entries: Seq<(Seq<u8>, Value)>, name: Seq<u8>, from: int) -> Option<int>
    decreases entries.len() - from,
{
    if from < 0 || from >= entries.len() {
        None
    } else if entries[from].0 == name {
        Some(from)
    } else {
        entry_position(entries, name, from + 1)
    }
}

/// The value of the entry called `name`.
pub open spec fn entry(entries: Seq<(Seq<u8>, Value)>, name: Seq<u8>) -> Option<Value> {
    match entry_position(entries, name, 0) {
        Some(i) => Some(entries[i].1),
        None => None,
    }
}

/// The entries once `name` is given a value: in its old place, or at the end if it is new.
pub open spec fn with_entry(entries: Seq<(Seq<u8>, Value)>, name: Seq<u8>, value: Value) -> Seq<(Seq<u8>, Value)> {
    match entry_position(entries, name, 0) {
        Some(i) => entries.update(i, (name, value)),
        None => entries.push((name, value)),
    }
}

/// The entries once `name` is removed: the last entry takes its place.
pub open spec fn without_entry(entries: Seq<(Seq<u8>, Value)>, name: Seq<u8>) -> Seq<(Seq<u8>, Value)> {
    match entry_position(entries, name, 0) {
        Some(i) => entries.update(i, entries.last()).drop_last(),
        None => entries,
    }
}

/// No name occurs twice.
pub open spec fn distinct_names(entries: Seq<(Seq<u8>, Value)>) -> bool {
    forall|i: int, j: int| 0 <= i < j < entries.len() ==> #[trigger] entries[i].0 != #[trigger] entries[j].0
}

/// No name occurs twice in the dictionary that a value is, or that it has.
pub open spec fn distinct_value(value: Value) -> bool {
    match value {
        Value::Stream(stream) => distinct_names(stream.dict),
        Value::Dictionary(dict) => distinct_names(dict),
        _ => true,
    }
}

proof fn lemma_entry_position(entries: Seq<(Seq<u8>, Value)>, name: Seq<u8>, from: int)
    requires
        0 <= from,
    ensures
        match entry_position(entries, name, from) {
            Some(i) => from <= i < entries.len() && entries[i].0 == name,
            None => forall|i: int| from <= i < entries.len() ==> (#[trigger] entries[i]).0 != name,
        },
    decreases entries.len() - from,
{
    if from < entries.len() && entries[from].0 != name {
        lemma_entry_position(entries, name, from + 1);
    }
}

/// Where no name occurs twice, the entry with a name is the one that has it.
pub proof fn lemma_entry(entries: Seq<(Seq<u8>, Value)>, name: Seq<u8>)
    requires
        distinct_names(entries),
    ensures
        forall|i: int|
            0 <= i < entries.len() && (#[trigger] entries[i]).0 == name ==> entry(entries, name) == Some(entries[i].1),
        entry(entries, name) is None <==> forall|i: int|
            0 <= i < entries.len() ==> (#[trigger] entries[i]).0 != name,
        entry(entries, name) matches Some(value) ==> exists|i: int|
            0 <= i < entries.len() && #[trigger] entries[i] == (name, value),
{
    lemma_entry_position(entries, name, 0);
    if let Some(p) = entry_position(entries, name, 0) {
        assert(entries[p] == (name, entries[p].1));
        assert forall|i: int| 0 <= i < entries.len() && (#[trigger] entries[i]).0 == name implies i == p by {
            if i < p {
                assert(entries[i].0 != entries[p].0);
            } else if p < i {
                assert(entries[p].0 != entries[i].0);
            }
        }
    }
}

/// To set an entry to the value that it has changes nothing.
pub proof fn lemma_same_entry(entries: Seq<(Seq<u8>, Value)>, name: Seq<u8>, value: Value)
    requires
        entry(entries, name) == Some(value),
    ensures
        with_entry(entries, name, value) == entries,
{
    lemma_entry_position(entries, name, 0);
    assert(with_entry(entries, name, value) =~= entries);
}

/// Setting an entry gives it its value and leaves the others as they are.
pub proof fn lemma_with_entry(entries: Seq<(Seq<u8>, Value)>, name: Seq<u8>, value: Value)
    requires
        distinct_names(entries),
    ensures
        distinct_names(with_entry(entries, name, value)),
        entry(with_entry(entries, name, value), name) == Some(value),
        forall|other: Seq<u8>|
            other != name ==> #[trigger] entry(with_entry(entries, name, value), other) == entry(entries, other),
{
    lemma_entry_position(entries, name, 0);
    let after = with_entry(entries, name, value);
    let p = match entry_position(entries, name, 0) {
        Some(p) => p,
        None => entries.len() as int,
    };
    assert(after[p] == (name, value));
    assert(forall|i: int| 0 <= i < after.len() && i != p ==> #[trigger] after[i] == entries[i]);
    assert forall|i: int, j: int| 0 <= i < j < after.len() implies #[trigger] after[i].0 != #[trigger] after[j].0 by {
        if i == p {
            assert(after[j] == entries[j]);
            if p < entries.len() {
                assert(entries[p].0 != entries[j].0);
            }
        } else if j == p {
            assert(after[i] == entries[i]);
            if p < entries.len() {
                assert(entries[i].0 != entries[p].0);
            }
        } else {
            assert(entries[i].0 != entries[j].0);
        }
    }
    lemma_entry(after, name);
    assert forall|other: Seq<u8>| other != name implies #[trigger] entry(after, other) == entry(entries, other) by {
        lemma_entry(after, other);
        lemma_entry(entries, other);
        if let Some(found) = entry(entries, other) {
            let i = choose|i: int| 0 <= i < entries.len() && #[trigger] entries[i] == (other, found);
            assert(i != p);
            assert(after[i].0 == other);
        } else {
            assert forall|i: int| 0 <= i < after.len() implies (#[trigger] after[i]).0 != other by {
                if i != p {
                    assert(entries[i].0 != other);
                }
            }
        }
    }
}

/// Removing an entry takes its value away and leaves the others as they are.
pub proof fn lemma_without_entry(entries: Seq<(Seq<u8>, Value)>, name: Seq<u8>)
    requires
        distinct_names(entries),
    ensures
        distinct_names(without_entry(entries, name)),
        entry(without_entry(entries, name), name) is None,
        forall|other: Seq<u8>|
            other != name ==> #[trigger] entry(without_entry(entries, name), other) == entry(entries, other),
{
    lemma_entry_position(entries, name, 0);
    lemma_entry(entries, name);
    let after = without_entry(entries, name);
    if let Some(p) = entry_position(entries, name, 0) {
        let last = entries.len() - 1;
        assert(forall|i: int|
            0 <= i < after.len() ==> #[trigger] after[i] == (if i == p { entries[last] } else { entries[i] }));
        assert forall|i: int| 0 <= i < after.len() implies (#[trigger] after[i]).0 != name by {
            let j = if i == p { last } else { i };
            assert(after[i] == entries[j]);
            if j < p {
                assert(entries[j].0 != entries[p].0);
            } else {
                assert(entries[p].0 != entries[j].0);
            }
        }
        assert forall|i: int, j: int|
            0 <= i < j < after.len() implies #[trigger] after[i].0 != #[trigger] after[j].0 by {
            let a = if i == p { last } else { i };
            let b = if j == p { last } else { j };
            assert(after[i] == entries[a] && after[j] == entries[b]);
            if a < b {
                assert(entries[a].0 != entries[b].0);
            } else {
                assert(entries[b].0 != entries[a].0);
            }
        }
        lemma_entry(after, name);
        assert forall|other: Seq<u8>| other != name implies #[trigger] entry(after, other) == entry(entries, other) by {
            lemma_entry(after, other);
            lemma_entry(entries, other);
            if let Some(found) = entry(entries, other) {
                let i = choose|i: int| 0 <= i < entries.len() && #[trigger] entries[i] == (other, found);
                let j = if i == last { p } else { i };
                assert(after[j] == entries[i]);
            } else {
                assert forall|i: int| 0 <= i < after.len() implies (#[trigger] after[i]).0 != other by {
                    let j = if i == p { last } else { i };
                    assert(after[i] == entries[j]);
                }
            }
        }
    }
}

/// Whether the bytes from `start` to before `end` are those of the word.
pub(crate) fn is_word(data: &[u8], start: usize, end: usize, word: &str) -> (r: bool)
    requires
        start <= end <= data@.len(),
    ensures
        r == (data@.subrange(start as int, end as int) == key(word)),
{
    let bytes = word.as_bytes();
    let ghost part = data@.subrange(start as int, end as int);
    if bytes.len() != end - start {
        return false;
    }
    for i in 0..bytes.len()
        invariant
            start <= end <= data@.len(),
            bytes@ == key(word),
            bytes@.len() == end - start,
            part == data@.subrange(start as int, end as int),
            forall|j: int| 0 <= j < i ==> #[trigger] part[j] == bytes@[j],
    {
        assert(part[i as int] == data@[start + i]);
        if data[start + i] != bytes[i] {
            return false;
        }
    }
    assert(part =~= key(word));
    true
}

} // verus!
