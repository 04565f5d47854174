//! The removal of text blocks from the operations of a content stream.

use crate::blocks::{
    block_values, extract_text_blocks, is_bt, lemma_next_et, segment_at, segments_from, text_blocks, with_text,
    BlockValue,
};
use crate::text::{block_matches, block_matches_keywords, texts};
use crate::value::{operation_values, OperationValue};
use lopdf::content::Operation;
use vstd::prelude::*;

verus! {

/// Spans of positions below `n` that are not empty, one behind the other.
pub open spec fn ordered_spans(spans: Seq<(int, int)>, n: int) -> bool {
    &&& forall|i: int| 0 <= i < spans.len() ==> 0 <= (#[trigger] spans[i]).0 < spans[i].1 <= n
    &&& forall|i: int, j: int| 0 <= i < j < spans.len() ==> (#[trigger] spans[i]).1 <= (#[trigger] spans[j]).0
}

/// The items outside the spans, in order.
pub open spec fn without_spans<T>(items: Seq<T>, spans: Seq<(int, int)>) -> Seq<T>
    decreases spans.len(),
{
    if spans.len() == 0 {
        items
    } else {
        let (start, end) = spans.last();
        without_spans(items.subrange(0, start), spans.drop_last()) + items.subrange(end, items.len() as int)
    }
}

/// The operations of the blocks that match one of the keywords.
pub open spec fn matching_spans(blocks: Seq<BlockValue>, keywords: Seq<Seq<char>>) -> Seq<(int, int)>
    decreases blocks.len(),
{
    if blocks.len() == 0 {
        Seq::empty()
    } else {
        let before = matching_spans(blocks.drop_last(), keywords);
        let block = blocks.last();
        if block_matches(block.text, keywords) {
            before.push((block.op_start, block.op_end))
        } else {
            before
        }
    }
}

/// The operations without the text blocks that match one of the keywords.
pub open spec fn stripped(ops: Seq<OperationValue>, keywords: Seq<Seq<char>>) -> Seq<OperationValue> {
    without_spans(ops, matching_spans(text_blocks(ops), keywords))
}

/// The number of text blocks that match one of the keywords.
pub open spec fn matching_count(ops: Seq<OperationValue>, keywords: Seq<Seq<char>>) -> nat {
    matching_spans(text_blocks(ops), keywords).len()
}

pub open spec fn span_values(spans: Seq<(usize, usize)>) -> Seq<(int, int)> {
    Seq::new(spans.len(), |i: int| (spans[i].0 as int, spans[i].1 as int))
}

/// The items outside the spans, in order.
pub fn remove_spans<T>(items: Vec<T>, spans: &[(usize, usize)]) -> (r: Vec<T>)
    requires
        ordered_spans(span_values(spans@), items@.len() as int),
    ensures
        r@ == without_spans(items@, span_values(spans@)),
{
    let ghost all = span_values(spans@);
    let mut head = items;
    let mut tail: Vec<T> = Vec::new();
    let mut i: usize = spans.len();
    assert(all.take(i as int) =~= all);
    assert(without_spans(head@, all.take(i as int)) + tail@ =~= without_spans(items@, all));
    while i > 0
        invariant
            0 <= i <= spans@.len(),
            all == span_values(spans@),
            ordered_spans(all.take(i as int), head@.len() as int),
            without_spans(head@, all.take(i as int)) + tail@ == without_spans(items@, all),
        decreases i,
    {
        i -= 1;
        let (start, end) = spans[i];
        let ghost before = head@;
        let ghost rest = tail@;
        let ghost spans_before = all.take(i + 1);
        assert(spans_before.last() == (start as int, end as int));
        assert(spans_before.drop_last() =~= all.take(i as int));
        assert(0 <= spans_before[i as int].0 < spans_before[i as int].1 <= before.len());
        let mut behind = head.split_off(end);
        head.truncate(start);
        behind.append(&mut tail);
        tail = behind;
        proof {
            assert(head@ =~= before.subrange(0, start as int));
            assert(tail@ =~= before.subrange(end as int, before.len() as int) + rest);
            assert(without_spans(head@, all.take(i as int)) + tail@ =~= without_spans(before, spans_before) + rest);
            let shorter = all.take(i as int);
            assert forall|k: int| 0 <= k < shorter.len() implies 0 <= (#[trigger] shorter[k]).0 < shorter[k].1
                <= head@.len() by {
                assert(shorter[k] == spans_before[k]);
                assert(spans_before[k].1 <= spans_before[i as int].0);
            }
            assert forall|k: int, l: int| 0 <= k < l < shorter.len() implies (#[trigger] shorter[k]).1 <= (
            #[trigger] shorter[l]).0 by {
                assert(shorter[k] == spans_before[k] && shorter[l] == spans_before[l]);
            }
        }
    }
    assert(all.take(0) =~= Seq::<(int, int)>::empty());
    head.append(&mut tail);
    head
}

/// A span of a value of a sequence is a span of the sequence of the values.
proof fn lemma_values_without_spans(ops: Seq<Operation>, spans: Seq<(int, int)>)
    requires
        ordered_spans(spans, ops.len() as int),
    ensures
        operation_values(without_spans(ops, spans)) == without_spans(operation_values(ops), spans),
    decreases spans.len(),
{
    if spans.len() > 0 {
        let (start, end) = spans.last();
        let last = spans.len() - 1;
        assert(0 <= spans[last].0 < spans[last].1 <= ops.len());
        assert(ordered_spans(spans.drop_last(), start)) by {
            let shorter = spans.drop_last();
            assert forall|k: int| 0 <= k < shorter.len() implies 0 <= (#[trigger] shorter[k]).0 < shorter[k].1
                <= start by {
                assert(shorter[k] == spans[k]);
                assert(spans[k].1 <= spans[last].0);
            }
            assert forall|k: int, l: int| 0 <= k < l < shorter.len() implies (#[trigger] shorter[k]).1 <= (
            #[trigger] shorter[l]).0 by {
                assert(shorter[k] == spans[k] && shorter[l] == spans[l]);
            }
        }
        lemma_values_without_spans(ops.subrange(0, start), spans.drop_last());
        assert(operation_values(ops.subrange(0, start)) =~= operation_values(ops).subrange(0, start));
        assert(operation_values(ops.subrange(end, ops.len() as int)) =~= operation_values(ops).subrange(
            end,
            ops.len() as int,
        ));
        assert(operation_values(without_spans(ops, spans)) =~= operation_values(
            without_spans(ops.subrange(0, start), spans.drop_last()),
        ) + operation_values(ops.subrange(end, ops.len() as int)));
    }
}

/// Where the blocks from `from` on lie: each one runs from a `BT` to its end, and the next one
/// starts behind it.
pub proof fn lemma_segments(ops: Seq<OperationValue>, from: int)
    requires
        0 <= from,
    ensures
        forall|i: int|
            0 <= i < segments_from(ops, from).len() ==> {
                let segment = #[trigger] segments_from(ops, from)[i];
                &&& from <= segment.op_start < segment.op_end <= ops.len()
                &&& is_bt(ops[segment.op_start])
                &&& segment == segment_at(ops, segment.op_start)
                &&& segment.bytes.len() > 0
            },
        forall|i: int, j: int|
            0 <= i < j < segments_from(ops, from).len() ==> (#[trigger] segments_from(ops, from)[i]).op_end <= (
            #[trigger] segments_from(ops, from)[j]).op_start,
    decreases ops.len() - from,
{
    if from < ops.len() {
        if is_bt(ops[from]) {
            lemma_next_et(ops, from + 1);
            let segment = segment_at(ops, from);
            lemma_segments(ops, segment.op_end);
            let all = segments_from(ops, from);
            let rest = segments_from(ops, segment.op_end);
            if segment.bytes.len() > 0 {
                assert(all == seq![segment] + rest);
                assert forall|i: int| 0 < i < all.len() implies #[trigger] all[i] == rest[i - 1] by {}
            }
        } else {
            lemma_segments(ops, from + 1);
        }
    }
}

proof fn lemma_matching_spans(blocks: Seq<BlockValue>, keywords: Seq<Seq<char>>, n: int)
    requires
        forall|i: int| 0 <= i < blocks.len() ==> 0 <= (#[trigger] blocks[i]).op_start < blocks[i].op_end <= n,
        forall|i: int, j: int|
            0 <= i < j < blocks.len() ==> (#[trigger] blocks[i]).op_end <= (#[trigger] blocks[j]).op_start,
    ensures
        ordered_spans(matching_spans(blocks, keywords), n),
        matching_spans(blocks, keywords).len() <= blocks.len(),
        matching_spans(blocks, keywords).len() > 0 ==> blocks.len() > 0 && matching_spans(blocks, keywords).last().1
            <= blocks.last().op_end,
    decreases blocks.len(),
{
    if blocks.len() > 0 {
        let shorter = blocks.drop_last();
        let last = blocks.len() - 1;
        assert(forall|i: int| 0 <= i < shorter.len() ==> #[trigger] shorter[i] == blocks[i]);
        lemma_matching_spans(shorter, keywords, n);
        let before = matching_spans(shorter, keywords);
        let after = matching_spans(blocks, keywords);
        assert(blocks[last].op_start < blocks[last].op_end);
        if before.len() > 0 {
            assert(shorter.last() == blocks[last - 1]);
            assert(blocks[last - 1].op_end <= blocks[last].op_start);
        }
        if block_matches(blocks.last().text, keywords) {
            assert forall|i: int, j: int| 0 <= i < j < after.len() implies (#[trigger] after[i]).1 <= (
            #[trigger] after[j]).0 by {
                if j == before.len() {
                    if i < before.len() - 1 {
                        assert(before[i].1 <= before[before.len() - 1].0);
                    }
                }
            }
        }
    }
}

/// The spans of the blocks to be removed are ordered spans of the operations.
pub proof fn lemma_ordered(ops: Seq<OperationValue>, keywords: Seq<Seq<char>>)
    ensures
        ordered_spans(matching_spans(text_blocks(ops), keywords), ops.len() as int),
        matching_count(ops, keywords) <= text_blocks(ops).len(),
{
    lemma_segments(ops, 0);
    let segments = segments_from(ops, 0);
    let blocks = text_blocks(ops);
    assert(forall|i: int| 0 <= i < blocks.len() ==> #[trigger] blocks[i] == with_text(segments[i]));
    lemma_matching_spans(blocks, keywords, ops.len() as int);
}

/// Removes the text blocks that match one of the keywords, which have to be in lower case. Gives
/// the operations that are left and the number of blocks removed.
pub fn strip_operations(ops: Vec<Operation>, kws: &[String]) -> (r: (Vec<Operation>, usize))
    ensures
        operation_values(r.0@) == stripped(operation_values(ops@), texts(kws@)),
        r.1 == matching_count(operation_values(ops@), texts(kws@)),
{
    let blocks = extract_text_blocks(ops.as_slice());
    let ghost values = text_blocks(operation_values(ops@));
    let ghost keywords = texts(kws@);
    let mut spans: Vec<(usize, usize)> = Vec::new();
    assert(values.take(0) =~= Seq::<BlockValue>::empty());
    assert(span_values(spans@) =~= Seq::<(int, int)>::empty());
    for i in 0..blocks.len()
        invariant
            block_values(blocks@) == values,
            keywords == texts(kws@),
            span_values(spans@) == matching_spans(values.take(i as int), keywords),
    {
        let ghost before = span_values(spans@);
        assert(values[i as int] == blocks@[i as int]@);
        assert(values.take(i + 1).drop_last() =~= values.take(i as int));
        if block_matches_keywords(blocks[i].text.as_str(), kws) {
            spans.push((blocks[i].op_start, blocks[i].op_end));
            assert(span_values(spans@) =~= before.push(
                (blocks@[i as int].op_start as int, blocks@[i as int].op_end as int),
            ));
        }
    }
    proof {
        assert(values.len() == blocks@.len());
        assert(values.take(blocks@.len() as int) =~= values);
        lemma_ordered(operation_values(ops@), keywords);
        lemma_values_without_spans(ops@, span_values(spans@));
    }
    let removed = spans.len();
    (remove_spans(ops, spans.as_slice()), removed)
}

} // verus!
