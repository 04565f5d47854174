//! What the text blocks of a content stream are, in terms of its operations.

use crate::blocks::{
    is_bt, is_et, last_size, lemma_next_et, next_et, segment_at, segments_from, shown, shown_bytes, shown_size,
    strings_bytes, text_blocks, with_text, BlockValue, FontSize, SegmentValue,
};
use crate::strip::lemma_segments;
use crate::strip_laws::{lemma_same_next_et, lemma_same_operations};
use crate::text::lossy_text;
use crate::value::{OperationValue, Value};
use vstd::prelude::*;

verus! {

/// The names of the operators that show text differ.
proof fn lemma_operators()
    ensures
        "Tj"@.len() == 2 && "Tj"@[0] == 'T' && "Tj"@[1] == 'j',
        "TJ"@.len() == 2 && "TJ"@[0] == 'T' && "TJ"@[1] == 'J',
        "Tf"@.len() == 2 && "Tf"@[0] == 'T' && "Tf"@[1] == 'f',
        "BT"@.len() == 2 && "BT"@[0] == 'B' && "BT"@[1] == 'T',
        "ET"@.len() == 2 && "ET"@[0] == 'E' && "ET"@[1] == 'T',
        "'"@.len() == 1 && "'"@[0] == '\'',
        "\""@.len() == 1 && "\""@[0] == '"',
{
    reveal_strlit("Tj");
    reveal_strlit("TJ");
    reveal_strlit("Tf");
    reveal_strlit("BT");
    reveal_strlit("ET");
    reveal_strlit("'");
    reveal_strlit("\"");
}

/// `Tj` and `'` show the string that is their first operand, `"` the one that is its third. Where
/// there is no string in that place nothing is shown, nor by any operator but these and `TJ`.
pub proof fn law_operators_show_their_string(op: OperationValue)
    ensures
        op.operator == "Tj"@ || op.operator == "'"@ ==> shown(op) == (if op.operands.len() > 0 {
            match op.operands[0] {
                Value::String(bytes, _) => bytes,
                _ => Seq::empty(),
            }
        } else {
            Seq::empty()
        }),
        op.operator == "\""@ ==> shown(op) == (if op.operands.len() > 2 {
            match op.operands[2] {
                Value::String(bytes, _) => bytes,
                _ => Seq::empty(),
            }
        } else {
            Seq::empty()
        }),
        op.operator == "TJ"@ && !(op.operands.len() > 0 && op.operands[0] is Array) ==> shown(op).len() == 0,
        op.operator != "Tj"@ && op.operator != "'"@ && op.operator != "\""@ && op.operator != "TJ"@
            ==> shown(op).len() == 0,
{
    lemma_operators();
}

/// `TJ` shows all the strings of its array, one after the other, and nothing else: a string that is
/// added at the end of an array of any length is shown behind what the array showed before, and an
/// item of another kind changes nothing.
pub proof fn law_arrays_show_all_their_strings(items: Seq<Value>, item: Value, rest: Seq<Value>)
    ensures
        ({
            let showing = |array: Seq<Value>|
                shown(OperationValue { operator: "TJ"@, operands: seq![Value::Array(array)] + rest });
            &&& showing(Seq::empty()).len() == 0
            &&& showing(items.push(item)) == showing(items) + (match item {
                Value::String(bytes, _) => bytes,
                _ => Seq::empty(),
            })
        }),
{
    lemma_operators();
    let empty = OperationValue { operator: "TJ"@, operands: seq![Value::Array(Seq::empty())] + rest };
    let before = OperationValue { operator: "TJ"@, operands: seq![Value::Array(items)] + rest };
    let after = OperationValue { operator: "TJ"@, operands: seq![Value::Array(items.push(item))] + rest };
    assert(empty.operands[0] == Value::Array(Seq::empty()));
    assert(before.operands[0] == Value::Array(items));
    assert(after.operands[0] == Value::Array(items.push(item)));
    lemma_first_strings(items.push(item), items, items.len() as int);
}

/// The strings of an array show what its first part and its second part show.
pub proof fn law_parts_of_an_array_are_shown(items: Seq<Value>, more: Seq<Value>, rest: Seq<Value>)
    ensures
        ({
            let showing = |array: Seq<Value>|
                shown(OperationValue { operator: "TJ"@, operands: seq![Value::Array(array)] + rest });
            showing(items + more) == showing(items) + showing(more)
        }),
    decreases more.len(),
{
    if more.len() == 0 {
        law_arrays_show_all_their_strings(items, Value::Null, rest);
        assert(items + more =~= items);
        assert(more =~= Seq::empty());
    } else {
        let shorter = more.drop_last();
        law_parts_of_an_array_are_shown(items, shorter, rest);
        law_arrays_show_all_their_strings(items + shorter, more.last(), rest);
        law_arrays_show_all_their_strings(shorter, more.last(), rest);
        assert((items + shorter).push(more.last()) =~= items + more);
        assert(shorter.push(more.last()) =~= more);
    }
}

proof fn lemma_first_strings(items: Seq<Value>, others: Seq<Value>, n: int)
    requires
        forall|i: int| 0 <= i < n ==> #[trigger] items[i] == others[i],
    ensures
        strings_bytes(items, n) == strings_bytes(others, n),
    decreases n,
{
    if n > 0 {
        assert(items[n - 1] == others[n - 1]);
        lemma_first_strings(items, others, n - 1);
    }
}

/// The bytes that operations show, one after the other.
proof fn lemma_shown_bytes(ops: Seq<OperationValue>, inner: Seq<OperationValue>, from: int)
    requires
        0 <= from,
        from + inner.len() <= ops.len(),
        forall|i: int| 0 <= i < inner.len() ==> #[trigger] inner[i] == ops[from + i],
    ensures
        shown_bytes(ops, from, from + inner.len()) == inner.map_values(|op: OperationValue| shown(op)).flatten(),
    decreases inner.len(),
{
    let all = inner.map_values(|op: OperationValue| shown(op));
    if inner.len() == 0 {
        assert(all.flatten() =~= Seq::<u8>::empty());
    } else {
        let shorter = inner.drop_last();
        lemma_shown_bytes(ops, shorter, from);
        let before = shorter.map_values(|op: OperationValue| shown(op));
        assert(all =~= before.push(shown(inner.last())));
        before.lemma_flatten_push(shown(inner.last()));
        assert(inner.last() == ops[from + inner.len() - 1]);
    }
}

/// The bytes of the block that a `BT` at `start` begins.
pub proof fn lemma_block_bytes(ops: Seq<OperationValue>, inner: Seq<OperationValue>, start: int)
    requires
        0 <= start,
        next_et(ops, start + 1) == start + 1 + inner.len(),
        start + 1 + inner.len() <= ops.len(),
        forall|i: int| 0 <= i < inner.len() ==> #[trigger] inner[i] == ops[start + 1 + i],
    ensures
        segment_at(ops, start).bytes == inner.map_values(|op: OperationValue| shown(op)).flatten(),
{
    lemma_shown_bytes(ops, inner, start + 1);
}

proof fn lemma_before_blocks(ops: Seq<OperationValue>, from: int, to: int)
    requires
        0 <= from <= to <= ops.len(),
        forall|i: int| from <= i < to ==> !is_bt(#[trigger] ops[i]),
    ensures
        segments_from(ops, from) == segments_from(ops, to),
    decreases to - from,
{
    if from < to {
        assert(!is_bt(ops[from]));
        lemma_before_blocks(ops, from + 1, to);
    }
}

/// A block that stands `shift` operations further on.
spec fn further(segment: SegmentValue, shift: int) -> SegmentValue {
    SegmentValue { op_start: segment.op_start + shift, op_end: segment.op_end + shift, ..segment }
}

proof fn lemma_further(a: Seq<OperationValue>, b: Seq<OperationValue>, from: int, shift: int)
    requires
        0 <= from <= a.len(),
        0 <= shift,
        b.len() == a.len() + shift,
        forall|i: int| 0 <= i < a.len() ==> #[trigger] a[i] == b[i + shift],
    ensures
        segments_from(b, from + shift) == segments_from(a, from).map_values(
            |segment: SegmentValue| further(segment, shift),
        ),
    decreases a.len() - from,
{
    let moving = |segment: SegmentValue| further(segment, shift);
    if from < a.len() {
        assert(a[from] == b[from + shift]);
        if !is_bt(a[from]) {
            lemma_further(a, b, from + 1, shift);
        } else {
            lemma_next_et(a, from + 1);
            lemma_same_next_et(a, b, from + 1, shift);
            lemma_same_operations(a, b, from + 1, next_et(a, from + 1), shift);
            let own = segment_at(a, from);
            lemma_further(a, b, own.op_end, shift);
            assert(segment_at(b, from + shift) == further(own, shift));
            if own.bytes.len() > 0 {
                assert(segments_from(b, from + shift) =~= segments_from(a, from).map_values(moving));
            }
        }
    } else {
        assert(segments_from(b, from + shift) =~= segments_from(a, from).map_values(moving));
    }
}

proof fn lemma_found_et(ops: Seq<OperationValue>, from: int, et: int)
    requires
        0 <= from <= et <= ops.len(),
        forall|i: int| from <= i < et ==> !is_et(#[trigger] ops[i]),
        et < ops.len() ==> is_et(ops[et]),
    ensures
        next_et(ops, from) == et,
    decreases et - from,
{
    if from < et {
        assert(!is_et(ops[from]));
        lemma_found_et(ops, from + 1, et);
    }
}

/// A content stream without `BT` has no text blocks.
pub proof fn law_no_bt_no_blocks(ops: Seq<OperationValue>)
    requires
        forall|i: int| 0 <= i < ops.len() ==> (#[trigger] ops[i]).operator != "BT"@,
    ensures
        text_blocks(ops).len() == 0,
{
    lemma_before_blocks(ops, 0, ops.len() as int);
}

/// A `BT` and the next `ET` make one text block of all that stands between them. It shows the bytes
/// that these operations show, one after the other, and is there if these are not none. The blocks
/// behind it are those of the operations behind it.
pub proof fn law_bt_to_et_is_one_block(
    before: Seq<OperationValue>,
    bt: OperationValue,
    inner: Seq<OperationValue>,
    et: OperationValue,
    after: Seq<OperationValue>,
)
    requires
        forall|i: int| 0 <= i < before.len() ==> (#[trigger] before[i]).operator != "BT"@,
        bt.operator == "BT"@,
        forall|i: int| 0 <= i < inner.len() ==> (#[trigger] inner[i]).operator != "ET"@,
        et.operator == "ET"@,
    ensures
        ({
            let ops = before.push(bt) + inner.push(et) + after;
            let bytes = inner.map_values(|op: OperationValue| shown(op)).flatten();
            let shift = before.len() + inner.len() + 2;
            let rest = text_blocks(after).map_values(
                |block: BlockValue|
                    BlockValue { op_start: block.op_start + shift, op_end: block.op_end + shift, ..block },
            );
            if bytes.len() == 0 {
                text_blocks(ops) == rest
            } else {
                &&& text_blocks(ops).len() == rest.len() + 1
                &&& text_blocks(ops)[0].text == lossy_text(bytes)
                &&& text_blocks(ops)[0].op_start == before.len()
                &&& text_blocks(ops)[0].op_end == shift
                &&& text_blocks(ops).drop_first() == rest
            }
        }),
{
    let ops = before.push(bt) + inner.push(et) + after;
    let n = before.len() as int;
    let end = n + inner.len() + 2;
    assert forall|i: int| 0 <= i < n implies !is_bt(#[trigger] ops[i]) by {
        assert(ops[i] == before[i]);
    }
    lemma_before_blocks(ops, 0, n);
    assert(ops[n] == bt);
    assert forall|i: int| 0 <= i < inner.len() implies #[trigger] inner[i] == ops[n + 1 + i] by {}
    assert forall|i: int| n + 1 <= i < end - 1 implies !is_et(#[trigger] ops[i]) by {
        assert(inner[i - n - 1] == ops[n + 1 + (i - n - 1)]);
    }
    assert(ops[end - 1] == et);
    lemma_found_et(ops, n + 1, end - 1);
    lemma_shown_bytes(ops, inner, n + 1);
    lemma_further(after, ops, 0, end);
    let segment = segment_at(ops, n);
    let rest = text_blocks(after).map_values(
        |block: BlockValue| BlockValue { op_start: block.op_start + end, op_end: block.op_end + end, ..block },
    );
    let behind = segments_from(ops, end);
    assert(behind.map_values(|segment: SegmentValue| with_text(segment)) =~= rest);
    if segment.bytes.len() == 0 {
        assert(text_blocks(ops) =~= rest);
    } else {
        assert(text_blocks(ops) =~= seq![with_text(segment)] + rest);
        assert(text_blocks(ops).drop_first() =~= rest);
    }
}

/// A `BT` that no `ET` follows makes one text block of all that follows.
pub proof fn law_unfinished_block_runs_to_the_end(
    before: Seq<OperationValue>,
    bt: OperationValue,
    inner: Seq<OperationValue>,
)
    requires
        forall|i: int| 0 <= i < before.len() ==> (#[trigger] before[i]).operator != "BT"@,
        bt.operator == "BT"@,
        forall|i: int| 0 <= i < inner.len() ==> (#[trigger] inner[i]).operator != "ET"@,
    ensures
        ({
            let ops = before.push(bt) + inner;
            let bytes = inner.map_values(|op: OperationValue| shown(op)).flatten();
            if bytes.len() == 0 {
                text_blocks(ops).len() == 0
            } else {
                &&& text_blocks(ops).len() == 1
                &&& text_blocks(ops)[0].text == lossy_text(bytes)
                &&& text_blocks(ops)[0].op_start == before.len()
                &&& text_blocks(ops)[0].op_end == ops.len()
            }
        }),
{
    let ops = before.push(bt) + inner;
    let n = before.len() as int;
    let end = ops.len() as int;
    assert forall|i: int| 0 <= i < n implies !is_bt(#[trigger] ops[i]) by {
        assert(ops[i] == before[i]);
    }
    lemma_before_blocks(ops, 0, n);
    assert(ops[n] == bt);
    assert forall|i: int| 0 <= i < inner.len() implies #[trigger] inner[i] == ops[n + 1 + i] by {}
    assert forall|i: int| n + 1 <= i < end implies !is_et(#[trigger] ops[i]) by {
        assert(inner[i - n - 1] == ops[n + 1 + (i - n - 1)]);
    }
    lemma_found_et(ops, n + 1, end);
    lemma_shown_bytes(ops, inner, n + 1);
    assert(segments_from(ops, end) =~= Seq::<SegmentValue>::empty());
    let segment = segment_at(ops, n);
    if segment.bytes.len() > 0 {
        assert(segments_from(ops, n) =~= seq![segment]);
    }
}

proof fn lemma_last_size(ops: Seq<OperationValue>, from: int, at: int, to: int)
    requires
        0 <= from <= to <= ops.len(),
        at < to,
        forall|i: int|
            from <= i < to && i > at ==> !((#[trigger] ops[i]).operator == "Tf"@ && ops[i].operands.len() > 1 && (
            ops[i].operands[1] is Integer || ops[i].operands[1] is Real)),
    ensures
        from <= at && ops[at].operator == "Tf"@ && ops[at].operands.len() > 1 ==> match ops[at].operands[1] {
            Value::Integer(n) => last_size(ops, from, to) == FontSize::Integer(n),
            Value::Real(bits) => last_size(ops, from, to) == FontSize::Real(bits),
            _ => true,
        },
        at < from ==> last_size(ops, from, to) == FontSize::Unset,
    decreases to - from,
{
    if from < to && at < to - 1 {
        assert(!(ops[to - 1].operator == "Tf"@ && ops[to - 1].operands.len() > 1 && (ops[to - 1].operands[1] is Integer
            || ops[to - 1].operands[1] is Real)));
        lemma_last_size(ops, from, at, to - 1);
    }
}

proof fn lemma_shown_size(ops: Seq<OperationValue>, from: int, at: int, to: int)
    requires
        0 <= from <= at < to <= ops.len(),
        ops[at].operator == "Tj"@ || ops[at].operator == "TJ"@ || ops[at].operator == "'"@ || ops[at].operator
            == "\""@,
        forall|i: int|
            at < i < to ==> (#[trigger] ops[i]).operator != "Tj"@ && ops[i].operator != "TJ"@ && ops[i].operator
                != "'"@ && ops[i].operator != "\""@,
    ensures
        shown_size(ops, from, to) == last_size(ops, from, at),
    decreases to - from,
{
    if at < to - 1 {
        assert(ops[to - 1].operator != "Tj"@);
        lemma_shown_size(ops, from, at, to - 1);
    }
}

/// The size of a text block is the number that the last `Tf` gives before the last operation of the
/// block that is there to show text. `at` is the position of that operation, `font` the one of the
/// `Tf`; where there is none, `font` lies before the block, and the size is unset.
pub proof fn law_size_is_set_before_the_text(ops: Seq<OperationValue>, i: int, font: int, at: int)
    requires
        0 <= i < text_blocks(ops).len(),
        font < at,
        text_blocks(ops)[i].op_start < at < text_blocks(ops)[i].op_end,
        font <= text_blocks(ops)[i].op_start || (ops[font].operator == "Tf"@ && ops[font].operands.len() > 1 && (
        ops[font].operands[1] is Integer || ops[font].operands[1] is Real)),
        ops[at].operator == "Tj"@ || ops[at].operator == "TJ"@ || ops[at].operator == "'"@ || ops[at].operator
            == "\""@,
        forall|k: int|
            text_blocks(ops)[i].op_start < k < at && k > font ==> !((#[trigger] ops[k]).operator == "Tf"@
                && ops[k].operands.len() > 1 && (ops[k].operands[1] is Integer || ops[k].operands[1] is Real)),
        forall|k: int|
            at < k < text_blocks(ops)[i].op_end ==> (#[trigger] ops[k]).operator != "Tj"@ && ops[k].operator
                != "TJ"@ && ops[k].operator != "'"@ && ops[k].operator != "\""@,
    ensures
        text_blocks(ops)[i].size == (if font <= text_blocks(ops)[i].op_start {
            FontSize::Unset
        } else {
            match ops[font].operands[1] {
                Value::Integer(n) => FontSize::Integer(n),
                Value::Real(bits) => FontSize::Real(bits),
                _ => FontSize::Unset,
            }
        }),
{
    lemma_operators();
    lemma_segments(ops, 0);
    let segments = segments_from(ops, 0);
    assert(text_blocks(ops)[i] == with_text(segments[i]));
    let segment = segments[i];
    assert(segment == segment_at(ops, segment.op_start));
    let from = segment.op_start + 1;
    let et = next_et(ops, from);
    lemma_next_et(ops, from);
    if at >= et {
        assert(is_et(ops[et]));
    }
    lemma_shown_size(ops, from, at, et);
    lemma_last_size(ops, from, font, at);
}

} // verus!
