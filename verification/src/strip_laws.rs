//! What the removal of text blocks from operations leaves.

use crate::blocks::{
    block_end, is_bt, is_et, last_size, lemma_next_et, next_et, segment_at, segments_from, shown, shown_bytes,
    shown_size, text_blocks, with_text, BlockValue, FontSize, SegmentValue,
};
use crate::block_laws::{
    law_bt_to_et_is_one_block, law_no_bt_no_blocks, law_unfinished_block_runs_to_the_end, lemma_block_bytes,
};
use crate::strip::{lemma_segments, matching_count, matching_spans, ordered_spans, stripped, without_spans};
use crate::text::{block_matches, lossy_text};
use crate::value::OperationValue;
use vstd::prelude::*;

verus! {

/// What a block shows, wherever it stands.
pub open spec fn look(block: BlockValue) -> (Seq<char>, FontSize) {
    (block.text, block.size)
}

/// What the blocks show that match none of the keywords, in order.
pub open spec fn unmatched_looks(blocks: Seq<BlockValue>, keywords: Seq<Seq<char>>) -> Seq<(Seq<char>, FontSize)>
    decreases blocks.len(),
{
    if blocks.len() == 0 {
        Seq::empty()
    } else {
        let rest = unmatched_looks(blocks.drop_first(), keywords);
        if block_matches(blocks[0].text, keywords) {
            rest
        } else {
            seq![look(blocks[0])] + rest
        }
    }
}

/// What blocks show, in order.
pub open spec fn looks(blocks: Seq<BlockValue>) -> Seq<(Seq<char>, FontSize)> {
    blocks.map_values(|block: BlockValue| look(block))
}

/// The operations outside the text blocks, from position `from` on.
pub open spec fn outside_from(ops: Seq<OperationValue>, from: int) -> Seq<OperationValue>
    decreases ops.len() - from,
{
    if from >= ops.len() {
        Seq::empty()
    } else if is_bt(ops[from]) {
        proof {
            lemma_next_et(ops, from + 1);
        }
        outside_from(ops, block_end(ops, from))
    } else {
        seq![ops[from]] + outside_from(ops, from + 1)
    }
}

/// The operations outside the text blocks of a content stream.
pub open spec fn outside_text(ops: Seq<OperationValue>) -> Seq<OperationValue> {
    outside_from(ops, 0)
}

/// The text blocks from position `from` on.
spec fn blocks_from(ops: Seq<OperationValue>, from: int) -> Seq<BlockValue> {
    segments_from(ops, from).map_values(|segment: SegmentValue| with_text(segment))
}

/// The operations from position `from` on, without the text blocks that match.
spec fn kept_from(ops: Seq<OperationValue>, from: int, keywords: Seq<Seq<char>>) -> Seq<OperationValue>
    decreases ops.len() - from,
{
    if from >= ops.len() {
        Seq::empty()
    } else if is_bt(ops[from]) {
        proof {
            lemma_next_et(ops, from + 1);
        }
        let segment = segment_at(ops, from);
        let rest = kept_from(ops, segment.op_end, keywords);
        if segment.bytes.len() > 0 && block_matches(with_text(segment).text, keywords) {
            rest
        } else {
            ops.subrange(from, segment.op_end) + rest
        }
    } else {
        seq![ops[from]] + kept_from(ops, from + 1, keywords)
    }
}

/// Removing a first span and further ones: what is left behind the first span stays as it is.
proof fn lemma_first_span<T>(items: Seq<T>, start: int, end: int, rest: Seq<(int, int)>)
    requires
        ordered_spans(seq![(start, end)] + rest, items.len() as int),
    ensures
        without_spans(items, rest).len() >= end,
        without_spans(items, rest).take(end) == items.take(end),
        without_spans(items, seq![(start, end)] + rest) == items.take(start) + without_spans(items, rest).subrange(
            end,
            without_spans(items, rest).len() as int,
        ),
    decreases rest.len(),
{
    let all = seq![(start, end)] + rest;
    assert(all[0] == (start, end));
    if rest.len() == 0 {
        assert(all.drop_last() =~= Seq::<(int, int)>::empty());
        assert(all.last() == (start, end));
        reveal_with_fuel(without_spans, 2);
        assert(items.take(start) =~= items.subrange(0, start));
    } else {
        let (from, to) = rest.last();
        let shorter = rest.drop_last();
        let n = all.len() - 1;
        assert(all[n] == (from, to));
        assert(all[0].1 <= all[n].0);
        assert(all.drop_last() =~= seq![(start, end)] + shorter);
        let head = items.subrange(0, from);
        assert(ordered_spans(seq![(start, end)] + shorter, head.len() as int)) by {
            let spans = seq![(start, end)] + shorter;
            assert forall|i: int| 0 <= i < spans.len() implies 0 <= (#[trigger] spans[i]).0 < spans[i].1
                <= head.len() by {
                assert(spans[i] == all[i]);
                assert(all[i].1 <= all[n].0);
            }
            assert forall|i: int, j: int| 0 <= i < j < spans.len() implies (#[trigger] spans[i]).1 <= (
            #[trigger] spans[j]).0 by {
                assert(spans[i] == all[i] && spans[j] == all[j]);
            }
        }
        lemma_first_span(head, start, end, shorter);
        let tail = items.subrange(to, items.len() as int);
        let left = without_spans(head, shorter);
        assert(without_spans(items, rest) == left + tail);
        assert(without_spans(items, all) == without_spans(head, seq![(start, end)] + shorter) + tail);
        assert((left + tail).take(end) =~= left.take(end));
        assert(head.take(end) =~= items.take(end));
        assert(head.take(start) =~= items.take(start));
        assert(without_spans(items, all) =~= items.take(start) + (left + tail).subrange(
            end,
            (left + tail).len() as int,
        ));
    }
}

/// The matching spans, seen from the front.
proof fn lemma_first_matching(blocks: Seq<BlockValue>, keywords: Seq<Seq<char>>)
    requires
        blocks.len() > 0,
    ensures
        matching_spans(blocks, keywords) == (if block_matches(blocks[0].text, keywords) {
            seq![(blocks[0].op_start, blocks[0].op_end)]
        } else {
            Seq::empty()
        }) + matching_spans(blocks.drop_first(), keywords),
    decreases blocks.len(),
{
    let rest = blocks.drop_first();
    if blocks.len() == 1 {
        assert(blocks.drop_last() =~= Seq::<BlockValue>::empty());
        assert(rest =~= Seq::<BlockValue>::empty());
        reveal_with_fuel(matching_spans, 2);
        assert(matching_spans(blocks, keywords) =~= (if block_matches(blocks[0].text, keywords) {
            seq![(blocks[0].op_start, blocks[0].op_end)]
        } else {
            Seq::empty()
        }) + matching_spans(rest, keywords));
    } else {
        lemma_first_matching(blocks.drop_last(), keywords);
        assert(blocks.drop_last().drop_first() =~= rest.drop_last());
        assert(blocks.last() == rest.last());
        assert(blocks.drop_last()[0] == blocks[0]);
        assert(matching_spans(blocks, keywords) =~= (if block_matches(blocks[0].text, keywords) {
            seq![(blocks[0].op_start, blocks[0].op_end)]
        } else {
            Seq::empty()
        }) + matching_spans(rest, keywords));
    }
}

/// The blocks from a position on, one step further.
proof fn lemma_blocks_step(ops: Seq<OperationValue>, from: int)
    requires
        0 <= from < ops.len(),
    ensures
        !is_bt(ops[from]) ==> blocks_from(ops, from) == blocks_from(ops, from + 1),
        is_bt(ops[from]) ==> ({
            let segment = segment_at(ops, from);
            &&& from < segment.op_end <= ops.len()
            &&& segment.bytes.len() == 0 ==> blocks_from(ops, from) == blocks_from(ops, segment.op_end)
            &&& segment.bytes.len() > 0 ==> {
                &&& blocks_from(ops, from).len() > 0
                &&& blocks_from(ops, from)[0] == with_text(segment)
                &&& blocks_from(ops, from).drop_first() == blocks_from(ops, segment.op_end)
            }
        }),
{
    if is_bt(ops[from]) {
        lemma_next_et(ops, from + 1);
        let segment = segment_at(ops, from);
        if segment.bytes.len() > 0 {
            assert(blocks_from(ops, from).drop_first() =~= blocks_from(ops, segment.op_end));
        }
    }
}

/// The spans that match among the blocks from a position on lie behind it.
proof fn lemma_spans_behind(ops: Seq<OperationValue>, from: int, keywords: Seq<Seq<char>>)
    requires
        0 <= from <= ops.len(),
    ensures
        ordered_spans(matching_spans(blocks_from(ops, from), keywords), ops.len() as int),
        forall|i: int|
            0 <= i < matching_spans(blocks_from(ops, from), keywords).len() ==> from <= (#[trigger] matching_spans(
                blocks_from(ops, from),
                keywords,
            )[i]).0,
    decreases ops.len() - from,
{
    let blocks = blocks_from(ops, from);
    if from < ops.len() {
        lemma_blocks_step(ops, from);
        if !is_bt(ops[from]) {
            lemma_spans_behind(ops, from + 1, keywords);
        } else {
            let segment = segment_at(ops, from);
            lemma_spans_behind(ops, segment.op_end, keywords);
            if segment.bytes.len() > 0 {
                lemma_first_matching(blocks, keywords);
                let rest = matching_spans(blocks.drop_first(), keywords);
                let spans = matching_spans(blocks, keywords);
                if block_matches(blocks[0].text, keywords) {
                    assert(spans == seq![(from, segment.op_end)] + rest);
                    assert forall|i: int| 0 < i < spans.len() implies #[trigger] spans[i] == rest[i - 1] by {}
                    assert(spans[0] == (from, segment.op_end));
                } else {
                    assert(spans =~= rest);
                }
            }
        }
    } else {
        assert(blocks =~= Seq::<BlockValue>::empty());
    }
}

/// The operations without the matching blocks from a position on: those before it, and what is
/// kept of those behind it.
proof fn lemma_kept(ops: Seq<OperationValue>, from: int, keywords: Seq<Seq<char>>)
    requires
        0 <= from <= ops.len(),
    ensures
        without_spans(ops, matching_spans(blocks_from(ops, from), keywords)) == ops.take(from) + kept_from(
            ops,
            from,
            keywords,
        ),
    decreases ops.len() - from,
{
    let blocks = blocks_from(ops, from);
    let spans = matching_spans(blocks, keywords);
    if from >= ops.len() {
        assert(blocks =~= Seq::<BlockValue>::empty());
        assert(ops.take(from) + kept_from(ops, from, keywords) =~= ops);
    } else {
        lemma_blocks_step(ops, from);
        if !is_bt(ops[from]) {
            lemma_kept(ops, from + 1, keywords);
            assert(ops.take(from + 1) + kept_from(ops, from + 1, keywords) =~= ops.take(from) + kept_from(
                ops,
                from,
                keywords,
            ));
        } else {
            let segment = segment_at(ops, from);
            let end = segment.op_end;
            let rest = kept_from(ops, end, keywords);
            lemma_kept(ops, end, keywords);
            let after = matching_spans(blocks_from(ops, end), keywords);
            if segment.bytes.len() > 0 {
                lemma_first_matching(blocks, keywords);
            }
            if segment.bytes.len() > 0 && block_matches(with_text(segment).text, keywords) {
                lemma_spans_behind(ops, from, keywords);
                assert(spans == seq![(from, end)] + after);
                lemma_first_span(ops, from, end, after);
                assert((ops.take(end) + rest).subrange(end, (ops.take(end) + rest).len() as int) =~= rest);
            } else {
                assert(spans =~= after);
                assert(ops.take(end) + rest =~= ops.take(from) + (ops.subrange(from, end) + rest));
            }
        }
    }
}

/// What operations show and set does not depend on where they stand.
pub proof fn lemma_same_operations(a: Seq<OperationValue>, b: Seq<OperationValue>, from: int, to: int, shift: int)
    requires
        forall|i: int| from <= i < to ==> #[trigger] a[i] == b[i + shift],
    ensures
        shown_bytes(a, from, to) == shown_bytes(b, from + shift, to + shift),
        last_size(a, from, to) == last_size(b, from + shift, to + shift),
        shown_size(a, from, to) == shown_size(b, from + shift, to + shift),
    decreases to - from,
{
    if from < to {
        lemma_same_operations(a, b, from, to - 1, shift);
        assert(a[to - 1] == b[to - 1 + shift]);
    }
}

/// The next `ET` does not depend on where the operations stand.
pub proof fn lemma_same_next_et(a: Seq<OperationValue>, b: Seq<OperationValue>, from: int, shift: int)
    requires
        0 <= from <= a.len(),
        0 <= from + shift,
        b.len() == a.len() + shift,
        forall|i: int| from <= i < a.len() ==> #[trigger] a[i] == b[i + shift],
    ensures
        next_et(b, from + shift) == next_et(a, from) + shift,
    decreases a.len() - from,
{
    if from < a.len() {
        assert(a[from] == b[from + shift]);
        if !is_et(a[from]) {
            lemma_same_next_et(a, b, from + 1, shift);
        }
    }
}

/// The blocks of operations do not depend on what stands before them.
proof fn lemma_same_blocks(a: Seq<OperationValue>, b: Seq<OperationValue>, from: int, shift: int)
    requires
        0 <= from <= a.len(),
        0 <= from + shift,
        b.len() == a.len() + shift,
        forall|i: int| from <= i < a.len() ==> #[trigger] a[i] == b[i + shift],
    ensures
        looks(blocks_from(b, from + shift)) == looks(blocks_from(a, from)),
        outside_from(b, from + shift) == outside_from(a, from),
    decreases a.len() - from,
{
    if from < a.len() {
        assert(a[from] == b[from + shift]);
        lemma_blocks_step(a, from);
        lemma_blocks_step(b, from + shift);
        if !is_bt(a[from]) {
            lemma_same_blocks(a, b, from + 1, shift);
        } else {
            lemma_next_et(a, from + 1);
            lemma_same_next_et(a, b, from + 1, shift);
            lemma_same_operations(a, b, from + 1, next_et(a, from + 1), shift);
            let own = segment_at(a, from);
            let other = segment_at(b, from + shift);
            lemma_same_blocks(a, b, own.op_end, shift);
            if own.bytes.len() > 0 {
                assert(looks(blocks_from(a, from)) =~= seq![look(with_text(own))] + looks(
                    blocks_from(a, own.op_end),
                ));
                assert(looks(blocks_from(b, from + shift)) =~= seq![look(with_text(other))] + looks(
                    blocks_from(b, other.op_end),
                ));
            }
        }
    } else {
        assert(looks(blocks_from(a, from)) =~= Seq::<(Seq<char>, FontSize)>::empty());
        assert(looks(blocks_from(b, from + shift)) =~= Seq::<(Seq<char>, FontSize)>::empty());
    }
}

/// The blocks and the other operations of what is kept.
proof fn lemma_kept_blocks(ops: Seq<OperationValue>, from: int, keywords: Seq<Seq<char>>)
    requires
        0 <= from <= ops.len(),
    ensures
        looks(blocks_from(kept_from(ops, from, keywords), 0)) == unmatched_looks(blocks_from(ops, from), keywords),
        outside_from(kept_from(ops, from, keywords), 0) == outside_from(ops, from),
    decreases ops.len() - from,
{
    let kept = kept_from(ops, from, keywords);
    if from >= ops.len() {
        assert(looks(blocks_from(kept, 0)) =~= Seq::<(Seq<char>, FontSize)>::empty());
    } else {
        lemma_blocks_step(ops, from);
        if !is_bt(ops[from]) {
            let rest = kept_from(ops, from + 1, keywords);
            lemma_kept_blocks(ops, from + 1, keywords);
            assert(kept[0] == ops[from]);
            lemma_blocks_step(kept, 0);
            lemma_same_blocks(rest, kept, 0, 1);
        } else {
            let segment = segment_at(ops, from);
            let end = segment.op_end;
            let rest = kept_from(ops, end, keywords);
            lemma_kept_blocks(ops, end, keywords);
            if !(segment.bytes.len() > 0 && block_matches(with_text(segment).text, keywords)) {
                let own = ops.subrange(from, end);
                assert(kept == own + rest);
                assert(kept[0] == ops[from]);
                lemma_next_et(ops, from + 1);
                lemma_next_et(kept, 1);
                let et = next_et(ops, from + 1);
                if et >= ops.len() {
                    assert(rest =~= Seq::<OperationValue>::empty());
                    assert(kept =~= own);
                }
                lemma_kept_et(ops, kept, from, end);
                assert(next_et(kept, 1) == et - from);
                assert(forall|i: int| 1 <= i < et - from ==> #[trigger] kept[i] == ops[i + from]);
                lemma_same_operations(kept, ops, 1, et - from, from);
                let found = segment_at(kept, 0);
                assert(found.op_end == end - from);
                assert(found.bytes == segment.bytes && found.size == segment.size);
                lemma_blocks_step(kept, 0);
                lemma_same_blocks(rest, kept, 0, end - from);
                if segment.bytes.len() > 0 {
                    assert(looks(blocks_from(kept, 0)) =~= seq![look(with_text(found))] + looks(
                        blocks_from(kept, found.op_end),
                    ));
                }
            }
        }
    }
}

/// The first `ET` of a block is found again where the block stands at the begin.
proof fn lemma_kept_et(ops: Seq<OperationValue>, kept: Seq<OperationValue>, from: int, end: int)
    requires
        0 <= from < end <= ops.len(),
        end == block_end(ops, from),
        kept.len() >= end - from,
        next_et(ops, from + 1) >= ops.len() ==> kept.len() == end - from,
        forall|i: int| 0 <= i < end - from ==> #[trigger] kept[i] == ops[i + from],
    ensures
        next_et(kept, 1) == next_et(ops, from + 1) - from,
{
    lemma_next_et(ops, from + 1);
    lemma_next_et(kept, 1);
    let et = next_et(ops, from + 1);
    let found = next_et(kept, 1);
    if found < et - from {
        assert(kept[found] == ops[found + from]);
        assert(is_et(kept[found]));
    }
    if found > et - from {
        assert(et < ops.len());
        assert(kept[et - from] == ops[et - from + from]);
    }
}

/// The text blocks lie one behind the other. Each one runs from a `BT` to behind the next `ET`, or to
/// the end where there is none.
pub proof fn law_blocks_run_from_bt_to_et(ops: Seq<OperationValue>)
    ensures
        forall|i: int|
            0 <= i < text_blocks(ops).len() ==> {
                let block = #[trigger] text_blocks(ops)[i];
                &&& 0 <= block.op_start < block.op_end <= ops.len()
                &&& is_bt(ops[block.op_start])
                &&& is_et(ops[block.op_end - 1]) || block.op_end == ops.len()
                &&& forall|k: int| block.op_start < k < block.op_end - 1 ==> !is_et(#[trigger] ops[k])
            },
        forall|i: int, j: int|
            0 <= i < j < text_blocks(ops).len() ==> (#[trigger] text_blocks(ops)[i]).op_end <= (#[trigger] text_blocks(
                ops,
            )[j]).op_start,
{
    lemma_segments(ops, 0);
    let segments = segments_from(ops, 0);
    let blocks = text_blocks(ops);
    assert forall|i: int| 0 <= i < blocks.len() implies {
        let block = #[trigger] blocks[i];
        &&& 0 <= block.op_start < block.op_end <= ops.len()
        &&& is_bt(ops[block.op_start])
        &&& is_et(ops[block.op_end - 1]) || block.op_end == ops.len()
        &&& forall|k: int| block.op_start < k < block.op_end - 1 ==> !is_et(#[trigger] ops[k])
    } by {
        assert(blocks[i] == with_text(segments[i]));
        lemma_next_et(ops, segments[i].op_start + 1);
    }
    assert forall|i: int, j: int| 0 <= i < j < blocks.len() implies (#[trigger] blocks[i]).op_end <= (
    #[trigger] blocks[j]).op_start by {
        assert(blocks[i] == with_text(segments[i]) && blocks[j] == with_text(segments[j]));
    }
}

/// A block is shown again after a removal if and only if it does not match: the text blocks that
/// are left show what the unmatched blocks showed, in the same order.
pub proof fn law_unmatched_blocks_stay(ops: Seq<OperationValue>, keywords: Seq<Seq<char>>)
    ensures
        looks(text_blocks(stripped(ops, keywords))) == unmatched_looks(text_blocks(ops), keywords),
{
    lemma_kept(ops, 0, keywords);
    lemma_kept_blocks(ops, 0, keywords);
    assert(ops.take(0) + kept_from(ops, 0, keywords) =~= kept_from(ops, 0, keywords));
}

/// Removal does not touch what stands outside the text blocks: graphics, images and state stay,
/// in the same order.
pub proof fn law_graphics_stay(ops: Seq<OperationValue>, keywords: Seq<Seq<char>>)
    ensures
        outside_text(stripped(ops, keywords)) == outside_text(ops),
{
    lemma_kept(ops, 0, keywords);
    lemma_kept_blocks(ops, 0, keywords);
    assert(ops.take(0) + kept_from(ops, 0, keywords) =~= kept_from(ops, 0, keywords));
}

proof fn lemma_unmatched_looks(blocks: Seq<BlockValue>, keywords: Seq<Seq<char>>)
    ensures
        forall|i: int|
            0 <= i < unmatched_looks(blocks, keywords).len() ==> !block_matches(
                (#[trigger] unmatched_looks(blocks, keywords)[i]).0,
                keywords,
            ),
        unmatched_looks(blocks, keywords).len() + matching_spans(blocks, keywords).len() == blocks.len(),
    decreases blocks.len(),
{
    if blocks.len() > 0 {
        lemma_unmatched_looks(blocks.drop_first(), keywords);
        lemma_first_matching(blocks, keywords);
        let rest = unmatched_looks(blocks.drop_first(), keywords);
        let all = unmatched_looks(blocks, keywords);
        if !block_matches(blocks[0].text, keywords) {
            assert forall|i: int| 0 < i < all.len() implies #[trigger] all[i] == rest[i - 1] by {}
        }
    }
}

proof fn lemma_no_match(blocks: Seq<BlockValue>, keywords: Seq<Seq<char>>)
    ensures
        matching_spans(blocks, keywords).len() == 0 <==> forall|i: int|
            0 <= i < blocks.len() ==> !block_matches((#[trigger] blocks[i]).text, keywords),
    decreases blocks.len(),
{
    if blocks.len() > 0 {
        let shorter = blocks.drop_last();
        lemma_no_match(shorter, keywords);
        assert(forall|i: int| 0 <= i < shorter.len() ==> #[trigger] shorter[i] == blocks[i]);
        let last = blocks[blocks.len() - 1];
        assert(last == blocks.last());
        if matching_spans(blocks, keywords).len() == 0 {
            assert forall|i: int| 0 <= i < blocks.len() implies !block_matches(
                (#[trigger] blocks[i]).text,
                keywords,
            ) by {
                if i < shorter.len() {
                    assert(!block_matches(shorter[i].text, keywords));
                }
            }
        } else if matching_spans(shorter, keywords).len() > 0 {
            let i = choose|i: int| 0 <= i < shorter.len() && block_matches((#[trigger] shorter[i]).text, keywords);
            assert(block_matches(blocks[i].text, keywords));
        } else {
            assert(block_matches(last.text, keywords));
        }
    }
}

/// Blocks match if and only if some of them are counted.
pub proof fn law_count_tells_matches(ops: Seq<OperationValue>, keywords: Seq<Seq<char>>)
    ensures
        matching_count(ops, keywords) == 0 <==> forall|i: int|
            0 <= i < text_blocks(ops).len() ==> !block_matches((#[trigger] text_blocks(ops)[i]).text, keywords),
{
    lemma_no_match(text_blocks(ops), keywords);
}

/// No block matches after a removal.
pub proof fn law_nothing_matches_afterwards(ops: Seq<OperationValue>, keywords: Seq<Seq<char>>)
    ensures
        matching_count(stripped(ops, keywords), keywords) == 0,
{
    law_unmatched_blocks_stay(ops, keywords);
    lemma_unmatched_looks(text_blocks(ops), keywords);
    let after = text_blocks(stripped(ops, keywords));
    assert forall|i: int| 0 <= i < after.len() implies !block_matches((#[trigger] after[i]).text, keywords) by {
        assert(looks(after)[i] == look(after[i]));
    }
    lemma_no_match(after, keywords);
}

/// The number of blocks removed is the number of blocks that are then missing.
pub proof fn law_count_is_difference(ops: Seq<OperationValue>, keywords: Seq<Seq<char>>)
    ensures
        text_blocks(stripped(ops, keywords)).len() + matching_count(ops, keywords) == text_blocks(ops).len(),
{
    law_unmatched_blocks_stay(ops, keywords);
    lemma_unmatched_looks(text_blocks(ops), keywords);
    assert(looks(text_blocks(stripped(ops, keywords))).len() == text_blocks(stripped(ops, keywords)).len());
}

/// Where no block matches, every operation stays.
pub proof fn law_no_match_no_change(ops: Seq<OperationValue>, keywords: Seq<Seq<char>>)
    requires
        matching_count(ops, keywords) == 0,
    ensures
        stripped(ops, keywords) == ops,
{
}

/// A second removal with the same keywords changes nothing.
pub proof fn law_removal_is_idempotent(ops: Seq<OperationValue>, keywords: Seq<Seq<char>>)
    ensures
        stripped(stripped(ops, keywords), keywords) == stripped(ops, keywords),
{
    law_nothing_matches_afterwards(ops, keywords);
    law_no_match_no_change(stripped(ops, keywords), keywords);
}

/// Keywords that are empty match nothing, so that every operation stays.
pub proof fn law_empty_keywords_match_nothing(ops: Seq<OperationValue>, keywords: Seq<Seq<char>>)
    requires
        forall|i: int| 0 <= i < keywords.len() ==> (#[trigger] keywords[i]).len() == 0,
    ensures
        matching_count(ops, keywords) == 0,
        stripped(ops, keywords) == ops,
{
    lemma_no_match(text_blocks(ops), keywords);
}

/// A block that stands `shift` operations further on.
pub open spec fn moved(block: BlockValue, shift: int) -> BlockValue {
    BlockValue { op_start: block.op_start + shift, op_end: block.op_end + shift, ..block }
}

/// The operations without those of one block.
pub open spec fn without_block(ops: Seq<OperationValue>, block: BlockValue) -> Seq<OperationValue> {
    ops.take(block.op_start) + ops.skip(block.op_end)
}

/// The blocks without the one at `k`, once its operations are gone: the later ones move up.
pub open spec fn blocks_without(blocks: Seq<BlockValue>, k: int) -> Seq<BlockValue> {
    let shift = blocks[k].op_start - blocks[k].op_end;
    blocks.take(k) + blocks.skip(k + 1).map_values(|block: BlockValue| moved(block, shift))
}

/// The blocks of operations that stand further on are the same, further on.
proof fn lemma_moved_blocks(a: Seq<OperationValue>, b: Seq<OperationValue>, from: int, shift: int)
    requires
        0 <= from <= a.len(),
        0 <= from + shift,
        b.len() == a.len() + shift,
        forall|i: int| from <= i < a.len() ==> #[trigger] a[i] == b[i + shift],
    ensures
        blocks_from(b, from + shift) == blocks_from(a, from).map_values(|block: BlockValue| moved(block, shift)),
    decreases a.len() - from,
{
    let shifted = |block: BlockValue| moved(block, shift);
    if from < a.len() {
        assert(a[from] == b[from + shift]);
        lemma_blocks_step(a, from);
        lemma_blocks_step(b, from + shift);
        if !is_bt(a[from]) {
            lemma_moved_blocks(a, b, from + 1, shift);
        } else {
            lemma_next_et(a, from + 1);
            lemma_same_next_et(a, b, from + 1, shift);
            lemma_same_operations(a, b, from + 1, next_et(a, from + 1), shift);
            let own = segment_at(a, from);
            let other = segment_at(b, from + shift);
            lemma_moved_blocks(a, b, own.op_end, shift);
            if own.bytes.len() > 0 {
                let mine = blocks_from(a, from);
                let theirs = blocks_from(b, from + shift);
                assert(with_text(other) == moved(with_text(own), shift));
                assert(mine =~= seq![with_text(own)] + mine.drop_first());
                assert(theirs =~= seq![with_text(other)] + theirs.drop_first());
                assert(theirs =~= mine.map_values(shifted));
            }
        }
    } else {
        assert(blocks_from(b, from + shift) =~= blocks_from(a, from).map_values(shifted));
    }
}

proof fn lemma_deleted(ops: Seq<OperationValue>, from: int, k: int)
    requires
        0 <= from <= ops.len(),
        0 <= k < blocks_from(ops, from).len(),
    ensures
        from <= blocks_from(ops, from)[k].op_start < blocks_from(ops, from)[k].op_end <= ops.len(),
        blocks_from(without_block(ops, blocks_from(ops, from)[k]), from) == blocks_without(blocks_from(ops, from), k),
    decreases ops.len() - from,
{
    let blocks = blocks_from(ops, from);
    let gone = blocks[k];
    lemma_segments(ops, from);
    assert(gone == with_text(segments_from(ops, from)[k]));
    let left = without_block(ops, gone);
    let shift = gone.op_start - gone.op_end;
    let shifted = |block: BlockValue| moved(block, shift);
    lemma_blocks_step(ops, from);
    assert(forall|i: int| 0 <= i < gone.op_start ==> #[trigger] left[i] == ops[i]);
    if !is_bt(ops[from]) {
        if gone.op_start == from {
            assert(is_bt(ops[segments_from(ops, from)[k].op_start]));
        }
        lemma_deleted(ops, from + 1, k);
        lemma_blocks_step(left, from);
    } else {
        let segment = segment_at(ops, from);
        let end = segment.op_end;
        if segment.bytes.len() > 0 && k == 0 {
            assert(gone == with_text(segment));
            assert forall|i: int| end <= i < ops.len() implies #[trigger] ops[i] == left[i + shift] by {}
            lemma_moved_blocks(ops, left, end, shift);
            assert(blocks.skip(1) =~= blocks.drop_first());
            assert(blocks_without(blocks, 0) =~= blocks_from(ops, end).map_values(shifted));
        } else {
            let rest = blocks_from(ops, end);
            let m = if segment.bytes.len() > 0 { k - 1 } else { k };
            assert(rest[m] == gone);
            lemma_deleted(ops, end, m);
            lemma_next_et(ops, from + 1);
            let et = next_et(ops, from + 1);
            lemma_head_et(ops, left, from, gone.op_start);
            lemma_same_operations(ops, left, from + 1, et, 0);
            assert(segment_at(left, from) == segment);
            lemma_blocks_step(left, from);
            if segment.bytes.len() > 0 {
                let after = blocks_from(left, from);
                assert(after =~= seq![with_text(segment)] + after.drop_first());
                assert(blocks =~= seq![with_text(segment)] + rest);
                assert(blocks.skip(k + 1) =~= rest.skip(m + 1));
                assert(blocks.take(k) =~= seq![with_text(segment)] + rest.take(m));
                assert(after =~= blocks_without(blocks, k));
            }
        }
    }
}

/// An `ET` that is found before a position is found in all operations that agree up to it.
proof fn lemma_head_et(ops: Seq<OperationValue>, left: Seq<OperationValue>, from: int, to: int)
    requires
        0 <= from < to <= ops.len(),
        to <= left.len(),
        next_et(ops, from + 1) < to,
        forall|i: int| 0 <= i < to ==> #[trigger] left[i] == ops[i],
    ensures
        next_et(left, from + 1) == next_et(ops, from + 1),
{
    lemma_next_et(ops, from + 1);
    lemma_next_et(left, from + 1);
    let et = next_et(ops, from + 1);
    let found = next_et(left, from + 1);
    assert(left[et] == ops[et]);
    if found < et {
        assert(left[found] == ops[found]);
    }
}

/// To delete the operations of one block leaves the other blocks as they are: those before it
/// where they stand, and those behind it moved up by its length.
pub proof fn law_other_blocks_stay(ops: Seq<OperationValue>, k: int)
    requires
        0 <= k < text_blocks(ops).len(),
    ensures
        text_blocks(without_block(ops, text_blocks(ops)[k])) == blocks_without(text_blocks(ops), k),
{
    lemma_deleted(ops, 0, k);
}

/// What is kept does not depend on where the operations stand.
proof fn lemma_same_kept(
    a: Seq<OperationValue>,
    b: Seq<OperationValue>,
    from: int,
    shift: int,
    keywords: Seq<Seq<char>>,
)
    requires
        0 <= from <= a.len(),
        0 <= from + shift,
        b.len() == a.len() + shift,
        forall|i: int| from <= i < a.len() ==> #[trigger] a[i] == b[i + shift],
    ensures
        kept_from(b, from + shift, keywords) == kept_from(a, from, keywords),
    decreases a.len() - from,
{
    if from < a.len() {
        assert(a[from] == b[from + shift]);
        if !is_bt(a[from]) {
            lemma_same_kept(a, b, from + 1, shift, keywords);
        } else {
            lemma_next_et(a, from + 1);
            lemma_same_next_et(a, b, from + 1, shift);
            lemma_same_operations(a, b, from + 1, next_et(a, from + 1), shift);
            let own = segment_at(a, from);
            lemma_same_kept(a, b, own.op_end, shift, keywords);
            assert(a.subrange(from, own.op_end) =~= b.subrange(from + shift, own.op_end + shift));
        }
    }
}

proof fn lemma_kept_before(ops: Seq<OperationValue>, from: int, to: int, keywords: Seq<Seq<char>>)
    requires
        0 <= from <= to <= ops.len(),
        forall|i: int| from <= i < to ==> !is_bt(#[trigger] ops[i]),
    ensures
        kept_from(ops, from, keywords) == ops.subrange(from, to) + kept_from(ops, to, keywords),
    decreases to - from,
{
    if from < to {
        assert(!is_bt(ops[from]));
        lemma_kept_before(ops, from + 1, to, keywords);
        assert(ops.subrange(from, to) =~= seq![ops[from]] + ops.subrange(from + 1, to));
        assert(kept_from(ops, from, keywords) =~= ops.subrange(from, to) + kept_from(ops, to, keywords));
    } else {
        assert(kept_from(ops, from, keywords) =~= ops.subrange(from, to) + kept_from(ops, to, keywords));
    }
}

proof fn lemma_same_matches(blocks: Seq<BlockValue>, others: Seq<BlockValue>, keywords: Seq<Seq<char>>)
    requires
        blocks.len() == others.len(),
        forall|i: int| 0 <= i < blocks.len() ==> (#[trigger] blocks[i]).text == others[i].text,
    ensures
        matching_spans(blocks, keywords).len() == matching_spans(others, keywords).len(),
    decreases blocks.len(),
{
    if blocks.len() > 0 {
        let shorter = blocks.drop_last();
        let other = others.drop_last();
        assert forall|i: int| 0 <= i < shorter.len() implies (#[trigger] shorter[i]).text == other[i].text by {
            assert(blocks[i].text == others[i].text);
        }
        lemma_same_matches(shorter, other, keywords);
        assert(blocks[blocks.len() - 1].text == others[blocks.len() - 1].text);
    }
}

/// Operations without `BT` stay, and nothing is removed from them.
pub proof fn law_no_bt_no_removal(ops: Seq<OperationValue>, keywords: Seq<Seq<char>>)
    requires
        forall|i: int| 0 <= i < ops.len() ==> (#[trigger] ops[i]).operator != "BT"@,
    ensures
        stripped(ops, keywords) == ops,
        matching_count(ops, keywords) == 0,
{
    law_no_bt_no_blocks(ops);
}

/// A text block goes as a whole, from its `BT` to its `ET`, if what it shows contains a keyword; else
/// all of it stays. What stands before it stays, and what stands behind it is treated in the same
/// way. Each block that goes counts once.
pub proof fn law_matching_block_goes_as_a_whole(
    before: Seq<OperationValue>,
    bt: OperationValue,
    inner: Seq<OperationValue>,
    et: OperationValue,
    after: Seq<OperationValue>,
    keywords: Seq<Seq<char>>,
)
    requires
        forall|i: int| 0 <= i < before.len() ==> (#[trigger] before[i]).operator != "BT"@,
        bt.operator == "BT"@,
        forall|i: int| 0 <= i < inner.len() ==> (#[trigger] inner[i]).operator != "ET"@,
        et.operator == "ET"@,
    ensures
        ({
            let ops = before.push(bt) + inner.push(et) + after;
            let bytes = inner.map_values(|op: OperationValue| shown(op)).flatten();
            if bytes.len() > 0 && block_matches(lossy_text(bytes), keywords) {
                &&& stripped(ops, keywords) == before + stripped(after, keywords)
                &&& matching_count(ops, keywords) == 1 + matching_count(after, keywords)
            } else {
                &&& stripped(ops, keywords) == before.push(bt) + inner.push(et) + stripped(after, keywords)
                &&& matching_count(ops, keywords) == matching_count(after, keywords)
            }
        }),
{
    let ops = before.push(bt) + inner.push(et) + after;
    let bytes = inner.map_values(|op: OperationValue| shown(op)).flatten();
    let n = before.len() as int;
    let end = n + inner.len() + 2;
    law_bt_to_et_is_one_block(before, bt, inner, et, after);
    assert forall|i: int| 0 <= i < n implies !is_bt(#[trigger] ops[i]) by {
        assert(ops[i] == before[i]);
    }
    assert(ops[n] == bt);
    assert forall|i: int| n + 1 <= i < end - 1 implies !is_et(#[trigger] ops[i]) by {
        assert(ops[i] == inner[i - n - 1]);
    }
    assert(ops[end - 1] == et);
    lemma_next_et(ops, n + 1);
    let found = next_et(ops, n + 1);
    if found < end - 1 {
        assert(is_et(ops[found]));
    } else if found > end - 1 {
        assert(!is_et(ops[end - 1]));
    }
    lemma_kept(ops, 0, keywords);
    lemma_kept(after, 0, keywords);
    assert(ops.take(0) + kept_from(ops, 0, keywords) =~= kept_from(ops, 0, keywords));
    assert(after.take(0) + kept_from(after, 0, keywords) =~= kept_from(after, 0, keywords));
    lemma_kept_before(ops, 0, n, keywords);
    assert(ops.subrange(0, n) =~= before);
    lemma_same_kept(after, ops, 0, end, keywords);
    lemma_blocks_step(ops, n);
    lemma_block_bytes(ops, inner, n);
    assert(ops.subrange(n, end) =~= seq![bt] + inner.push(et));
    let blocks = text_blocks(ops);
    let rest = text_blocks(after);
    if bytes.len() > 0 {
        lemma_first_matching(blocks, keywords);
        assert forall|i: int| 0 <= i < blocks.drop_first().len() implies (#[trigger] blocks.drop_first()[i]).text
            == rest[i].text by {}
        lemma_same_matches(blocks.drop_first(), rest, keywords);
    } else {
        assert forall|i: int| 0 <= i < blocks.len() implies (#[trigger] blocks[i]).text == rest[i].text by {}
        lemma_same_matches(blocks, rest, keywords);
    }
    if !(bytes.len() > 0 && block_matches(lossy_text(bytes), keywords)) {
        assert(stripped(ops, keywords) =~= before.push(bt) + inner.push(et) + stripped(after, keywords));
    }
}

/// A text block that no `ET` ends goes with all that follows it, if what it shows contains a keyword;
/// else all of it stays.
pub proof fn law_matching_block_goes_to_the_end(
    before: Seq<OperationValue>,
    bt: OperationValue,
    inner: Seq<OperationValue>,
    keywords: Seq<Seq<char>>,
)
    requires
        forall|i: int| 0 <= i < before.len() ==> (#[trigger] before[i]).operator != "BT"@,
        bt.operator == "BT"@,
        forall|i: int| 0 <= i < inner.len() ==> (#[trigger] inner[i]).operator != "ET"@,
    ensures
        ({
            let ops = before.push(bt) + inner;
            let bytes = inner.map_values(|op: OperationValue| shown(op)).flatten();
            if bytes.len() > 0 && block_matches(lossy_text(bytes), keywords) {
                stripped(ops, keywords) == before && matching_count(ops, keywords) == 1
            } else {
                stripped(ops, keywords) == ops && matching_count(ops, keywords) == 0
            }
        }),
{
    let ops = before.push(bt) + inner;
    let bytes = inner.map_values(|op: OperationValue| shown(op)).flatten();
    let n = before.len() as int;
    law_unfinished_block_runs_to_the_end(before, bt, inner);
    let blocks = text_blocks(ops);
    if bytes.len() > 0 {
        lemma_first_matching(blocks, keywords);
        assert(blocks.drop_first() =~= Seq::<BlockValue>::empty());
        let spans = matching_spans(blocks, keywords);
        if block_matches(lossy_text(bytes), keywords) {
            assert(spans =~= seq![(n, ops.len() as int)]);
            reveal_with_fuel(without_spans, 2);
            assert(spans.drop_last() =~= Seq::<(int, int)>::empty());
            assert(stripped(ops, keywords) =~= before);
        } else {
            assert(spans =~= Seq::<(int, int)>::empty());
        }
    } else {
        assert(blocks =~= Seq::<BlockValue>::empty());
    }
}

/// To cut out spans leaves what stands before and between and behind them, in order.
pub proof fn law_spans_are_cut_out<T>(head: Seq<T>, cut: Seq<T>, tail: Seq<T>, spans: Seq<(int, int)>)
    requires
        cut.len() > 0,
        ordered_spans(spans, head.len() as int),
    ensures
        without_spans(head, Seq::empty()) == head,
        without_spans(head + cut + tail, spans.push((head.len() as int, (head.len() + cut.len()) as int)))
            == without_spans(head, spans) + tail,
{
    let items = head + cut + tail;
    let all = spans.push((head.len() as int, (head.len() + cut.len()) as int));
    assert(all.drop_last() =~= spans);
    assert(items.subrange(0, head.len() as int) =~= head);
    assert(items.subrange((head.len() + cut.len()) as int, items.len() as int) =~= tail);
}

} // verus!
