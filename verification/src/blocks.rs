//! The text blocks of a content stream.
//!
//! A text block runs from a `BT` operation to the next `ET` operation, or to the end of the
//! stream. It is the unit that is analyzed and removed.

use crate::pdf::real_bits;
use crate::strip::lemma_segments;
use crate::text::{from_utf8_lossy, lossy_text, same_text};
use crate::value::{object_value, operation_value, operation_values, OperationValue, Value};
use lopdf::content::Operation;
use lopdf::Object;
use vstd::prelude::*;
#[allow(unused_imports)]
use vstd::utf8::{decode_utf8, valid_utf8};

verus! {

/// The size that a `Tf` operation gives: an integer, or a real number by the bits of its
/// single-precision encoding. `Unset` is the size where no `Tf` gives one, which is zero.
#[derive(Debug, Clone, Copy, PartialEq, Eq, Structural)]
pub enum FontSize {
    Unset,
    Integer(i64),
    Real(u32),
}

/// A text block of a content stream.
#[derive(Debug, Clone, PartialEq)]
pub struct TextBlock {
    /// The text that the block shows.
    pub text: String,
    /// The font size of the last `Tf` before the text operators.
    pub size: FontSize,
    /// The operations of the block, from its `BT` ...
    pub op_start: usize,
    /// ... to behind its `ET`.
    pub op_end: usize,
}

/// A text block before its bytes are read as text.
#[derive(Debug, Clone)]
pub struct Segment {
    /// The bytes of the strings that the block shows, one after the other.
    pub bytes: Vec<u8>,
    /// The font size of the last `Tf` before the text operators.
    pub size: FontSize,
    /// The operations of the block, from its `BT` ...
    pub op_start: usize,
    /// ... to behind its `ET`.
    pub op_end: usize,
}

/// What a [`TextBlock`] holds.
pub struct BlockValue {
    pub text: Seq<char>,
    pub size: FontSize,
    pub op_start: int,
    pub op_end: int,
}

/// What a [`Segment`] holds.
pub struct SegmentValue {
    pub bytes: Seq<u8>,
    pub size: FontSize,
    pub op_start: int,
    pub op_end: int,
}

impl View for TextBlock {
    type V = BlockValue;

    open spec fn view(&self) -> BlockValue {
        BlockValue {
            text: self.text@,
            size: self.size,
            op_start: self.op_start as int,
            op_end: self.op_end as int,
        }
    }
}

impl View for Segment {
    type V = SegmentValue;

    open spec fn view(&self) -> SegmentValue {
        SegmentValue {
            bytes: self.bytes@,
            size: self.size,
            op_start: self.op_start as int,
            op_end: self.op_end as int,
        }
    }
}

pub open spec fn segment_values(segments: Seq<Segment>) -> Seq<SegmentValue> {
    Seq::new(segments.len(), |i: int| segments[i]@)
}

pub open spec fn block_values(blocks: Seq<TextBlock>) -> Seq<BlockValue> {
    Seq::new(blocks.len(), |i: int| blocks[i]@)
}

/// The bytes of a string object; other objects have none.
pub open spec fn string_bytes(value: Value) -> Seq<u8> {
    match value {
        Value::String(bytes, _) => bytes,
        _ => Seq::empty(),
    }
}

/// The bytes of the strings among the first `n` values, one after the other.
pub open spec fn strings_bytes(values: Seq<Value>, n: int) -> Seq<u8>
    decreases n,
{
    if n <= 0 {
        Seq::empty()
    } else {
        strings_bytes(values, n - 1) + string_bytes(values[n - 1])
    }
}

/// The bytes that the operand at `i` shows if it is a string.
pub open spec fn operand_shown(op: OperationValue, i: int) -> Seq<u8> {
    if i < op.operands.len() {
        string_bytes(op.operands[i])
    } else {
        Seq::empty()
    }
}

/// The bytes that an operation shows: those of the first operand of `Tj` and `'`, of the third
/// operand of `"`, and of the strings in the array that is the first operand of `TJ`.
pub open spec fn shown(op: OperationValue) -> Seq<u8> {
    if op.operator == "Tj"@ || op.operator == "'"@ {
        operand_shown(op, 0)
    } else if op.operator == "\""@ {
        operand_shown(op, 2)
    } else if op.operator == "TJ"@ && op.operands.len() > 0 {
        match op.operands[0] {
            Value::Array(items) => strings_bytes(items, items.len() as int),
            _ => Seq::empty(),
        }
    } else {
        Seq::empty()
    }
}

/// The font size that an operation sets: the second operand of a `Tf`, if it is a number.
pub open spec fn size_set(op: OperationValue) -> Option<FontSize> {
    if op.operator == "Tf"@ && op.operands.len() > 1 {
        match op.operands[1] {
            Value::Integer(n) => Some(FontSize::Integer(n)),
            Value::Real(bits) => Some(FontSize::Real(bits)),
            _ => None,
        }
    } else {
        None
    }
}

pub open spec fn is_bt(op: OperationValue) -> bool {
    op.operator == "BT"@
}

pub open spec fn is_et(op: OperationValue) -> bool {
    op.operator == "ET"@
}

/// The position of the first `ET` from `from` on; the number of operations if there is none.
pub open spec fn next_et(ops: Seq<OperationValue>, from: int) -> int
    decreases ops.len() - from,
{
    if from >= ops.len() {
        ops.len() as int
    } else if is_et(ops[from]) {
        from
    } else {
        next_et(ops, from + 1)
    }
}

/// The bytes that the operations from `from` to before `to` show, one after the other.
pub open spec fn shown_bytes(ops: Seq<OperationValue>, from: int, to: int) -> Seq<u8>
    decreases to - from,
{
    if from >= to {
        Seq::empty()
    } else {
        shown_bytes(ops, from, to - 1) + shown(ops[to - 1])
    }
}

/// The last font size that the operations from `from` to before `to` set.
pub open spec fn last_size(ops: Seq<OperationValue>, from: int, to: int) -> FontSize
    decreases to - from,
{
    if from >= to {
        FontSize::Unset
    } else {
        match size_set(ops[to - 1]) {
            Some(size) => size,
            None => last_size(ops, from, to - 1),
        }
    }
}

/// Whether an operation is one of those that show text.
pub open spec fn is_showing(op: OperationValue) -> bool {
    op.operator == "Tj"@ || op.operator == "'"@ || op.operator == "\""@ || op.operator == "TJ"@
}

/// The last font size that is set before the last of the operations from `from` to before `to` that
/// are there to show text.
pub open spec fn shown_size(ops: Seq<OperationValue>, from: int, to: int) -> FontSize
    decreases to - from,
{
    if from >= to {
        FontSize::Unset
    } else if is_showing(ops[to - 1]) {
        last_size(ops, from, to - 1)
    } else {
        shown_size(ops, from, to - 1)
    }
}

/// The end of the block that a `BT` at `start` begins: behind its `ET`, or the end of the stream.
pub open spec fn block_end(ops: Seq<OperationValue>, start: int) -> int {
    let et = next_et(ops, start + 1);
    if et < ops.len() {
        et + 1
    } else {
        ops.len() as int
    }
}

/// The block that a `BT` at `start` begins.
pub open spec fn segment_at(ops: Seq<OperationValue>, start: int) -> SegmentValue {
    let et = next_et(ops, start + 1);
    SegmentValue {
        bytes: shown_bytes(ops, start + 1, et),
        size: shown_size(ops, start + 1, et),
        op_start: start,
        op_end: block_end(ops, start),
    }
}

/// The blocks that show something, from position `from` on.
pub open spec fn segments_from(ops: Seq<OperationValue>, from: int) -> Seq<SegmentValue>
    decreases ops.len() - from,
{
    if from >= ops.len() {
        Seq::empty()
    } else if is_bt(ops[from]) {
        proof {
            lemma_next_et(ops, from + 1);
        }
        let segment = segment_at(ops, from);
        let rest = segments_from(ops, segment.op_end);
        if segment.bytes.len() > 0 {
            seq![segment] + rest
        } else {
            rest
        }
    } else {
        segments_from(ops, from + 1)
    }
}

/// A block with its bytes read as text.
pub open spec fn with_text(segment: SegmentValue) -> BlockValue {
    BlockValue {
        text: lossy_text(segment.bytes),
        size: segment.size,
        op_start: segment.op_start,
        op_end: segment.op_end,
    }
}

/// The text blocks of a content stream.
pub open spec fn text_blocks(ops: Seq<OperationValue>) -> Seq<BlockValue> {
    segments_from(ops, 0).map_values(|segment: SegmentValue| with_text(segment))
}

pub proof fn lemma_next_et(ops: Seq<OperationValue>, from: int)
    ensures
        from <= ops.len() ==> from <= next_et(ops, from) <= ops.len(),
        from >= ops.len() ==> next_et(ops, from) == ops.len(),
        0 <= from && next_et(ops, from) < ops.len() ==> is_et(ops[next_et(ops, from)]),
        forall|i: int| from <= i < next_et(ops, from) ==> !is_et(#[trigger] ops[i]),
    decreases ops.len() - from,
{
    if from < ops.len() && !is_et(ops[from]) {
        lemma_next_et(ops, from + 1);
    }
}

/// The bytes of a string object.
fn operand_bytes(object: &Object) -> (r: Option<Vec<u8>>)
    ensures
        object_value(*object) is String == (r is Some),
        r matches Some(bytes) ==> bytes@ == string_bytes(object_value(*object)),
{
    match object {
        Object::String(bytes, _) => {
            let copy = bytes.clone();
            assert(copy@ =~= bytes@);
            Some(copy)
        },
        _ => None,
    }
}

/// Adds the bytes of the object if it is a string.
fn push_string(out: &mut Vec<u8>, object: &Object)
    ensures
        final(out)@ == old(out)@ + string_bytes(object_value(*object)),
{
    assert(out@ + Seq::<u8>::empty() =~= out@);
    if let Some(mut bytes) = operand_bytes(object) {
        out.append(&mut bytes);
    }
}

/// Adds the bytes of the operand at `i` if it is a string.
fn push_operand(out: &mut Vec<u8>, op: &Operation, i: usize)
    ensures
        final(out)@ == old(out)@ + operand_shown(operation_value(*op), i as int),
{
    assert(out@ + Seq::<u8>::empty() =~= out@);
    if i < op.operands.len() {
        push_string(out, &op.operands[i]);
    }
}

/// Adds the bytes that the operation shows.
fn push_shown(out: &mut Vec<u8>, op: &Operation)
    ensures
        final(out)@ == old(out)@ + shown(operation_value(*op)),
{
    assert(out@ + Seq::<u8>::empty() =~= out@);
    let operator = op.operator.as_str();
    if same_text(operator, "Tj") || same_text(operator, "'") {
        push_operand(out, op, 0);
    } else if same_text(operator, "\"") {
        push_operand(out, op, 2);
    } else if same_text(operator, "TJ") && op.operands.len() > 0 {
        if let Object::Array(items) = &op.operands[0] {
            let ghost values = object_value(op.operands@[0])->Array_0;
            for i in 0..items.len()
                invariant
                    values.len() == items@.len(),
                    forall|j: int| 0 <= j < values.len() ==> values[j] == object_value(#[trigger] items@[j]),
                    out@ == old(out)@ + strings_bytes(values, i as int),
            {
                assert(values[i as int] == object_value(items@[i as int]));
                push_string(out, &items[i]);
                assert(out@ =~= old(out)@ + strings_bytes(values, i + 1));
            }
        }
    }
}

/// Whether operations with this operator show text.
fn shows_text(operator: &str) -> (r: bool)
    ensures
        r == (operator@ == "Tj"@ || operator@ == "'"@ || operator@ == "\""@ || operator@ == "TJ"@),
{
    same_text(operator, "Tj") || same_text(operator, "'") || same_text(operator, "\"") || same_text(operator, "TJ")
}

/// The font size that the operation sets.
fn operation_size(op: &Operation) -> (r: Option<FontSize>)
    ensures
        r == size_set(operation_value(*op)),
{
    if same_text(op.operator.as_str(), "Tf") && op.operands.len() > 1 {
        let ghost value = object_value(op.operands@[1]);
        assert(operation_value(*op).operands[1] == value);
        match &op.operands[1] {
            Object::Integer(n) => Some(FontSize::Integer(*n)),
            Object::Real(_) => Some(FontSize::Real(real_bits(&op.operands[1]))),
            _ => None,
        }
    } else {
        None
    }
}

/// The blocks of a content stream that show something, with the bytes that they show and the
/// positions of their operations.
pub fn text_segments(ops: &[Operation]) -> (r: Vec<Segment>)
    ensures
        segment_values(r@) == segments_from(operation_values(ops@), 0),
{
    let ghost values = operation_values(ops@);
    let mut segments: Vec<Segment> = Vec::new();
    let mut i: usize = 0;
    assert(segment_values(segments@) + segments_from(values, 0) =~= segments_from(values, 0));
    while i < ops.len()
        invariant
            values == operation_values(ops@),
            0 <= i <= ops@.len(),
            segment_values(segments@) + segments_from(values, i as int) == segments_from(values, 0),
        decreases ops@.len() - i,
    {
        assert(values[i as int] == operation_value(ops@[i as int]));
        if same_text(ops[i].operator.as_str(), "BT") {
            let start = i;
            let mut j: usize = i + 1;
            let mut bytes: Vec<u8> = Vec::new();
            let mut current: FontSize = FontSize::Unset;
            let mut size: FontSize = FontSize::Unset;
            while j < ops.len() && !same_text(ops[j].operator.as_str(), "ET")
                invariant
                    values == operation_values(ops@),
                    start < j <= ops@.len(),
                    bytes@ == shown_bytes(values, start + 1, j as int),
                    current == last_size(values, start + 1, j as int),
                    size == shown_size(values, start + 1, j as int),
                    next_et(values, start + 1) == next_et(values, j as int),
                decreases ops@.len() - j,
            {
                assert(values[j as int] == operation_value(ops@[j as int]));
                push_shown(&mut bytes, &ops[j]);
                if shows_text(ops[j].operator.as_str()) {
                    size = current;
                }
                if let Some(new_size) = operation_size(&ops[j]) {
                    current = new_size;
                }
                j += 1;
            }
            assert(j < ops@.len() ==> values[j as int] == operation_value(ops@[j as int]));
            assert(next_et(values, start + 1) == j);
            let end: usize = if j < ops.len() { j + 1 } else { ops.len() };
            let ghost before = segment_values(segments@);
            let ghost segment = segment_at(values, start as int);
            if !bytes.is_empty() {
                segments.push(Segment { bytes, size, op_start: start, op_end: end });
                assert(segment_values(segments@) =~= before.push(segment));
                assert(before.push(segment) + segments_from(values, end as int) =~= before + (seq![segment]
                    + segments_from(values, end as int)));
            }
            i = end;
        } else {
            i += 1;
        }
    }
    assert(segment_values(segments@) + segments_from(values, i as int) =~= segment_values(segments@));
    segments
}

/// The text blocks of a content stream: what each one shows, which is never nothing, and its
/// operations. Bytes that are valid UTF-8 show the text that they encode.
pub fn extract_text_blocks(ops: &[Operation]) -> (r: Vec<TextBlock>)
    ensures
        block_values(r@) == text_blocks(operation_values(ops@)),
        forall|i: int|
            0 <= i < r@.len() && valid_utf8(#[trigger] segments_from(operation_values(ops@), 0)[i].bytes)
                ==> r@[i].text@ == decode_utf8(segments_from(operation_values(ops@), 0)[i].bytes),
        forall|i: int| 0 <= i < r@.len() ==> (#[trigger] r@[i]).text@.len() > 0,
{
    let segments = text_segments(ops);
    let ghost values = segments_from(operation_values(ops@), 0);
    let mut blocks: Vec<TextBlock> = Vec::new();
    proof {
        lemma_segments(operation_values(ops@), 0);
    }
    for i in 0..segments.len()
        invariant
            segment_values(segments@) == values,
            blocks@.len() == i,
            forall|j: int| 0 <= j < i ==> (#[trigger] blocks@[j])@ == with_text(values[j]),
            forall|j: int|
                0 <= j < i && valid_utf8(#[trigger] values[j].bytes) ==> blocks@[j].text@ == decode_utf8(
                    values[j].bytes,
                ),
            forall|j: int| 0 <= j < values.len() ==> (#[trigger] values[j]).bytes.len() > 0,
            forall|j: int| 0 <= j < i ==> (#[trigger] blocks@[j]).text@.len() > 0,
    {
        assert(values[i as int] == segments@[i as int]@);
        blocks.push(
            TextBlock {
                text: from_utf8_lossy(segments[i].bytes.as_slice()),
                size: segments[i].size,
                op_start: segments[i].op_start,
                op_end: segments[i].op_end,
            },
        );
    }
    assert(segment_values(segments@).len() == segments@.len());
    assert(block_values(blocks@) =~= text_blocks(operation_values(ops@)));
    blocks
}

} // verus!
