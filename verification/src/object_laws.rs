//! What objects lead to, and what they hold.

use crate::analysis::page_block_values;
use crate::blocks::{block_values, segment_values, Segment, TextBlock};
use crate::pdf::{encrypted, follow, lemma_resolved, resolve, Fault};
use crate::strip::span_values;
use crate::value::{
    distinct_names, entry, key, lemma_array_value, lemma_entry, lemma_with_entry, lemma_without_entry, object_value,
    object_values, operation_values, with_entry, without_entry, Value,
};
use lopdf::content::Operation;
use lopdf::{Object, ObjectId};
use vstd::prelude::*;

verus! {

/// An entry is found by its name, wherever it stands, and no other one is.
pub proof fn law_entries_are_found_by_name(entries: Seq<(Seq<u8>, Value)>, name: Seq<u8>, value: Value)
    requires
        forall|i: int, j: int| 0 <= i < j < entries.len() ==> #[trigger] entries[i].0 != #[trigger] entries[j].0,
    ensures
        entry(entries, name) == Some(value) <==> exists|i: int|
            0 <= i < entries.len() && #[trigger] entries[i] == (name, value),
        entry(entries, name) is None <==> forall|i: int|
            0 <= i < entries.len() ==> (#[trigger] entries[i]).0 != name,
{
    assert(distinct_names(entries));
    lemma_entry(entries, name);
}

/// An entry that is set has its value, one that is removed has none, and all others stay as they are.
pub proof fn law_other_entries_stay(entries: Seq<(Seq<u8>, Value)>, name: Seq<u8>, value: Value, other: Seq<u8>)
    requires
        forall|i: int, j: int| 0 <= i < j < entries.len() ==> #[trigger] entries[i].0 != #[trigger] entries[j].0,
        other != name,
    ensures
        entry(with_entry(entries, name, value), name) == Some(value),
        entry(with_entry(entries, name, value), other) == entry(entries, other),
        entry(without_entry(entries, name), name) is None,
        entry(without_entry(entries, name), other) == entry(entries, other),
{
    assert(distinct_names(entries));
    lemma_with_entry(entries, name, value);
    lemma_without_entry(entries, name);
}

/// Whether each object is a reference to the next one.
pub open spec fn is_chain_of_references(objects: Map<ObjectId, Value>, chain: Seq<ObjectId>) -> bool {
    chain.len() > 0 && forall|i: int, j: int|
        0 <= i && j == i + 1 && j < chain.len() ==> objects.contains_key(#[trigger] chain[i]) && objects[chain[i]]
            == Value::Reference(#[trigger] chain[j])
}

proof fn lemma_chain(objects: Map<ObjectId, Value>, chain: Seq<ObjectId>, k: int)
    requires
        is_chain_of_references(objects, chain),
        0 <= k < chain.len(),
        k <= 128,
        objects.contains_key(chain[k]),
    ensures
        objects.contains_key(chain[0]),
        resolve(objects, chain[0]) == follow(objects, chain[k], objects[chain[k]], k as nat),
    decreases k,
{
    if k > 0 {
        assert(objects.contains_key(chain[k - 1]) && objects[chain[k - 1]] == Value::Reference(chain[k]));
        lemma_chain(objects, chain, k - 1);
    }
}

/// References are followed to their end, 128 of them at most: to an object that is no reference, or
/// to one that is missing.
pub proof fn law_references_are_followed(objects: Map<ObjectId, Value>, chain: Seq<ObjectId>)
    requires
        is_chain_of_references(objects, chain),
    ensures
        chain.len() <= 129 && objects.contains_key(chain.last()) && !(objects[chain.last()] is Reference) ==> resolve(
            objects,
            chain[0],
        ) == Ok::<(ObjectId, Value), Fault>((chain.last(), objects[chain.last()])),
        chain.len() <= 130 && !objects.contains_key(chain.last()) ==> resolve(objects, chain[0]) == Err::<
            (ObjectId, Value),
            Fault,
        >(Fault::ObjectNotFound(chain.last())),
        chain.len() >= 130 && objects.contains_key(chain[129]) ==> resolve(objects, chain[0]) == Err::<
            (ObjectId, Value),
            Fault,
        >(Fault::ReferenceLimit),
{
    let n = chain.len() as int;
    if n <= 129 && objects.contains_key(chain.last()) && !(objects[chain.last()] is Reference) {
        lemma_chain(objects, chain, n - 1);
    }
    if n <= 130 && !objects.contains_key(chain.last()) && n > 1 {
        assert(objects.contains_key(chain[n - 2]) && objects[chain[n - 2]] == Value::Reference(chain[n - 1]));
        lemma_chain(objects, chain, n - 2);
    }
    if n >= 130 && objects.contains_key(chain[129]) {
        assert(objects.contains_key(chain[128]) && objects[chain[128]] == Value::Reference(chain[129]));
        lemma_chain(objects, chain, 128);
    }
}

/// What a number leads to is an object of the document that is no reference.
pub proof fn law_resolved_objects_are_there(objects: Map<ObjectId, Value>, id: ObjectId)
    ensures
        match resolve(objects, id) {
            Ok((target, value)) => objects.contains_key(target) && objects[target] == value && !(value is Reference),
            Err(Fault::ObjectNotFound(missing)) => !objects.contains_key(missing),
            Err(fault) => fault == Fault::ReferenceLimit,
        },
{
    lemma_resolved(objects, id);
    if objects.contains_key(id) {
        lemma_follow_faults(objects, id, objects[id], 0);
    }
}

proof fn lemma_follow_faults(objects: Map<ObjectId, Value>, id: ObjectId, value: Value, steps: nat)
    ensures
        match follow(objects, id, value, steps) {
            Ok(_) => true,
            Err(Fault::ObjectNotFound(missing)) => !objects.contains_key(missing),
            Err(fault) => fault == Fault::ReferenceLimit,
        },
    decreases 128 - steps,
{
    if let Value::Reference(next) = value {
        if objects.contains_key(next) && steps < 128 {
            lemma_follow_faults(objects, next, objects[next], steps + 1);
        }
    }
}

/// A document is encrypted if and only if its trailer refers to an encryption dictionary.
pub proof fn law_encryption_is_told_by_the_trailer(
    objects: Map<ObjectId, Value>,
    trailer: Seq<(Seq<u8>, Value)>,
)
    ensures
        encrypted(objects, trailer) <==> exists|id: ObjectId|
            entry(trailer, key("Encrypt")) == Some(Value::Reference(id)) && (#[trigger] resolve(objects, id) matches Ok(
                (_, Value::Dictionary(_)),
            )),
{
    if encrypted(objects, trailer) {
        let id = entry(trailer, key("Encrypt"))->Some_0->Reference_0;
        assert(resolve(objects, id) is Ok);
    }
}

/// Of objects, operations, blocks and spans of blocks each one has its value, in order.
pub proof fn law_each_has_its_value(
    objects: Seq<Object>,
    ops: Seq<Operation>,
    blocks: Seq<TextBlock>,
    segments: Seq<Segment>,
)
    ensures
        object_values(objects).len() == objects.len(),
        forall|i: int|
            0 <= i < objects.len() ==> #[trigger] object_values(objects)[i] == object_value(objects[i]),
        operation_values(ops).len() == ops.len(),
        forall|i: int|
            0 <= i < ops.len() ==> (#[trigger] operation_values(ops)[i]).operator == ops[i].operator@
                && operation_values(ops)[i].operands == object_values(ops[i].operands@),
        block_values(blocks).len() == blocks.len(),
        forall|i: int|
            0 <= i < blocks.len() ==> {
                let value = #[trigger] block_values(blocks)[i];
                &&& value.text == blocks[i].text@
                &&& value.size == blocks[i].size
                &&& value.op_start == blocks[i].op_start
                &&& value.op_end == blocks[i].op_end
            },
        segment_values(segments).len() == segments.len(),
        forall|i: int|
            0 <= i < segments.len() ==> {
                let value = #[trigger] segment_values(segments)[i];
                &&& value.bytes == segments[i].bytes@
                &&& value.size == segments[i].size
                &&& value.op_start == segments[i].op_start
                &&& value.op_end == segments[i].op_end
            },
{
}

/// The blocks of each page have their values, and each span has its two ends, in order.
pub proof fn law_each_page_has_its_blocks(pages: Seq<Vec<TextBlock>>, spans: Seq<(usize, usize)>)
    ensures
        page_block_values(pages).len() == pages.len(),
        forall|p: int| 0 <= p < pages.len() ==> #[trigger] page_block_values(pages)[p] == block_values(pages[p]@),
        span_values(spans).len() == spans.len(),
        forall|i: int|
            0 <= i < spans.len() ==> (#[trigger] span_values(spans)[i]).0 == spans[i].0 && span_values(spans)[i].1
                == spans[i].1,
{
}

/// An array holds the values of its items, in order.
pub proof fn law_arrays_hold_their_items(items: Vec<Object>)
    ensures
        object_value(Object::Array(items)) matches Value::Array(values) && values.len() == items@.len()
            && forall|i: int|
            0 <= i < items@.len() ==> #[trigger] values[i] == object_value(items@[i]),
{
    lemma_array_value(items);
}

} // verus!
