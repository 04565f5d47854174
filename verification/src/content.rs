//! Content streams as operations: reading and writing them.

use crate::inline_image::{contains_bad_image, has_bad_image};
use crate::pdf::{
    decode_content, decoded, dictionary_items, encode_content, encoded, plain_operations, plain_value, reads_as,
};
use crate::text::same_text;
use crate::value::{
    dictionary_entries, object_value, object_values, operation_value, operation_values, stream_value, OperationValue,
    StreamValue, Value,
};
use lopdf::content::Operation;
use lopdf::{Dictionary, Object, Stream};
use vstd::prelude::*;

verus! {

/// The operations of a content stream; none if it cannot be read.
pub open spec fn operations_of(data: Seq<u8>) -> Seq<OperationValue> {
    if data.len() == 0 || has_bad_image(data) {
        Seq::empty()
    } else {
        match decoded(data) {
            Some(ops) => ops,
            None => Seq::empty(),
        }
    }
}

/// Whether an operation stands for an inline image: lopdf reads one as `BI` with a stream.
pub open spec fn is_image(op: OperationValue) -> bool {
    op.operator == "BI"@ && op.operands.len() == 1 && op.operands[0] is Stream
}

/// The position of the first inline image from `from` on; the number of operations if there is
/// none.
pub open spec fn next_image(ops: Seq<OperationValue>, from: int) -> int
    decreases ops.len() - from,
{
    if from >= ops.len() {
        ops.len() as int
    } else if is_image(ops[from]) {
        from
    } else {
        next_image(ops, from + 1)
    }
}

/// Names and values in turn, as the operands of `ID`.
pub open spec fn entry_operands(entries: Seq<(Seq<u8>, Value)>, n: int) -> Seq<Value>
    decreases n,
{
    if n <= 0 {
        Seq::empty()
    } else {
        entry_operands(entries, n - 1).push(Value::Name(entries[n - 1].0)).push(entries[n - 1].1)
    }
}

/// The operations `BI` and `ID` that an inline image begins with.
pub open spec fn image_head(image: StreamValue) -> Seq<OperationValue> {
    seq![
        OperationValue { operator: "BI"@, operands: Seq::empty() },
        OperationValue { operator: "ID"@, operands: entry_operands(image.dict, image.dict.len() as int) },
    ]
}

/// The end of an inline image: `EI` on a line of its own.
pub open spec fn image_end() -> Seq<u8> {
    seq![10u8, 69u8, 73u8]
}

/// The bytes of a content stream with these operations: `None` if it cannot be written. lopdf
/// writes all operations but inline images, whose data stand between `ID` and `EI`.
pub open spec fn written(ops: Seq<OperationValue>) -> Option<Seq<u8>>
    decreases ops.len(),
{
    let i = next_image(ops, 0);
    if i >= ops.len() {
        encoded(ops)
    } else {
        proof {
            lemma_next_image(ops, 0);
        }
        let image = ops[i].operands[0]->Stream_0;
        match (encoded(ops.take(i) + image_head(image)), written(ops.skip(i + 1))) {
            (Some(head), Some(rest)) => Some(
                head + seq![10u8] + image.content + image_end() + (if rest.len() > 0 {
                    seq![10u8]
                } else {
                    Seq::empty()
                }) + rest,
            ),
            _ => None,
        }
    }
}

/// A position that is found lies where it is searched for.
pub proof fn lemma_next_image(ops: Seq<OperationValue>, from: int)
    requires
        0 <= from <= ops.len(),
    ensures
        from <= next_image(ops, from) <= ops.len(),
        next_image(ops, from) < ops.len() ==> is_image(ops[next_image(ops, from)]),
    decreases ops.len() - from,
{
    if from < ops.len() && !is_image(ops[from]) {
        lemma_next_image(ops, from + 1);
    }
}

/// Operations that lopdf writes as it reads them have no inline images among them.
pub proof fn lemma_plain_written(ops: Seq<OperationValue>)
    requires
        plain_operations(ops),
    ensures
        written(ops) == encoded(ops),
{
    lemma_next_image(ops, 0);
    let i = next_image(ops, 0);
    if i < ops.len() {
        assert(plain_value(ops[i].operands[0]));
    }
}

/// Decode content bytes into operations; on failure return an empty operation list.
pub fn decode_content_or_empty(data: &[u8]) -> (r: Vec<Operation>)
    ensures
        operation_values(r@) == operations_of(data@),
{
    if !contains_bad_image(data) {
        if let Some(operations) = decode_content(data) {
            return operations;
        }
    }
    let none: Vec<Operation> = Vec::new();
    assert(operation_values(none@) =~= Seq::<OperationValue>::empty());
    none
}

/// The inline image that an operation stands for.
fn image_of(op: &Operation) -> (r: Option<&Stream>)
    ensures
        match r {
            Some(stream) => is_image(operation_value(*op)) && operation_value(*op).operands[0] == Value::Stream(
                stream_value(*stream),
            ),
            None => !is_image(operation_value(*op)),
        },
{
    if !(same_text(op.operator.as_str(), "BI") && op.operands.len() == 1) {
        return None;
    }
    assert(operation_value(*op).operands[0] == object_value(op.operands@[0]));
    match &op.operands[0] {
        Object::Stream(stream) => Some(stream),
        _ => None,
    }
}

/// The position of the first inline image; the number of operations if there is none.
fn find_image(ops: &[Operation]) -> (r: usize)
    ensures
        r == next_image(operation_values(ops@), 0),
        r <= ops@.len(),
{
    let ghost values = operation_values(ops@);
    let mut i: usize = 0;
    while i < ops.len()
        invariant
            values == operation_values(ops@),
            i <= ops@.len(),
            next_image(values, i as int) == next_image(values, 0),
        decreases ops@.len() - i,
    {
        assert(values[i as int] == operation_value(ops@[i as int]));
        if image_of(&ops[i]).is_some() {
            return i;
        }
        i += 1;
    }
    i
}

/// The operation `ID` of an inline image with this dictionary.
fn image_data_operation(dict: &Dictionary) -> (r: Operation)
    ensures
        operation_value(r) == image_head(
            (StreamValue {
                dict: dictionary_entries(*dict),
                content: Seq::empty(),
                allows_compression: false,
                start_position: None,
            }),
        )[1],
{
    let ghost entries = dictionary_entries(*dict);
    let mut items = dictionary_items(dict);
    let mut operands: Vec<Object> = Vec::new();
    let n = items.len();
    assert(object_values(operands@) =~= Seq::<Value>::empty());
    for i in 0..n
        invariant
            n == entries.len(),
            items@.len() == n - i,
            forall|j: int| 0 <= j < items@.len() ==> (#[trigger] items@[j]).0@ == entries[i + j].0,
            forall|j: int| 0 <= j < items@.len() ==> object_value((#[trigger] items@[j]).1) == entries[i + j].1,
            object_values(operands@) == entry_operands(entries, i as int),
    {
        let ghost before = object_values(operands@);
        let ghost rest = items@;
        let (name, value) = items.remove(0);
        let ghost written_name = Object::Name(name);
        let ghost written_value = value;
        assert(rest[0].0@ == entries[i as int].0 && object_value(rest[0].1) == entries[i as int].1);
        operands.push(Object::Name(name));
        operands.push(value);
        assert(object_values(operands@) =~= before.push(object_value(written_name)).push(object_value(written_value)));
        assert forall|j: int| 0 <= j < items@.len() implies (#[trigger] items@[j]) == rest[j + 1] by {}
    }
    Operation { operator: "ID".to_owned(), operands }
}

/// The bytes of a content stream with these operations, if it can be written.
pub fn encode_operations(ops: Vec<Operation>) -> (r: Option<Vec<u8>>)
    ensures
        match written(operation_values(ops@)) {
            Some(data) => r matches Some(bytes) && bytes@ == data,
            None => r is None,
        },
        plain_operations(operation_values(ops@)) ==> match r {
            Some(bytes) => reads_as(bytes@, operation_values(ops@)),
            None => false,
        },
    decreases ops@.len(),
{
    let ghost values = operation_values(ops@);
    proof {
        lemma_next_image(values, 0);
        if plain_operations(values) {
            lemma_plain_written(values);
        }
    }
    let i = find_image(ops.as_slice());
    if i == ops.len() {
        return encode_content(ops);
    }
    let mut head = ops;
    let tail = head.split_off(i + 1);
    assert(operation_values(tail@) =~= values.skip(i + 1));
    assert(operation_value(head@[i as int]) == values[i as int]);
    let (data_operation, mut data) = match image_of(&head[i]) {
        Some(stream) => {
            let copy = stream.content.clone();
            assert(copy@ =~= stream.content@);
            (image_data_operation(&stream.dict), copy)
        },
        None => return None,
    };
    let ghost image = values[i as int].operands[0]->Stream_0;
    let begin = Operation { operator: "BI".to_owned(), operands: Vec::new() };
    assert(operation_value(begin).operands =~= Seq::<Value>::empty());
    head.truncate(i);
    head.push(begin);
    head.push(data_operation);
    assert(operation_values(head@) =~= values.take(i as int) + image_head(image));
    let first = encode_content(head);
    let second = encode_operations(tail);
    match (first, second) {
        (Some(mut out), Some(mut rest)) => {
            let ghost start = out@;
            let ghost end = rest@;
            out.push(10);
            out.append(&mut data);
            out.push(10);
            out.push(69);
            out.push(73);
            if rest.len() > 0 {
                out.push(10);
            }
            out.append(&mut rest);
            assert(out@ =~= start + seq![10u8] + image.content + image_end() + (if end.len() > 0 {
                seq![10u8]
            } else {
                Seq::empty()
            }) + end);
            Some(out)
        },
        _ => None,
    }
}

} // verus!
