//! Streams, pages and forms without text blocks that match.

use crate::blocks::{
    is_bt, is_et, lemma_next_et, next_et, segment_at, segments_from, shown, shown_bytes, text_blocks, with_text,
    BlockValue,
};
use crate::content::{operations_of, written};
use crate::document::page_objects;
use crate::forms::{drawn_objects, is_form, lemma_numbers_left, numbers_left};
use crate::frame::{
    lemma_contents_kept, lemma_kept_resolve, lemma_names, objects_kept, page_target, proper_at, value_kept,
};
use crate::page::{
    clean_page, clean_streams, content_or_empty, content_streams, page_content, page_shows, references, set_contents,
    with_contents, PageState,
};
use crate::pdf::{lemma_resolved, plain_operations, plain_operator, plain_value, resolve, show_the_same, Fault};
use crate::strip::{lemma_ordered, matching_count, matching_spans, ordered_spans, stripped, without_spans};
use crate::strip_laws::{law_count_tells_matches, law_empty_keywords_match_nothing, law_nothing_matches_afterwards};
use crate::text::{block_matches, lowercase, lowercase_texts};
use crate::value::{
    entry, key, lemma_same_entry, lemma_with_entry, lemma_without_entry, OperationValue, StreamValue, Value,
};
use lopdf::ObjectId;
use vstd::prelude::*;

verus! {

/// Whether no text block of a stream matches.
pub open spec fn is_clean(stream: StreamValue, keywords: Seq<Seq<char>>) -> bool {
    matching_count(operations_of(content_or_empty(stream)), keywords) == 0
}

/// Whether what is left of operations can be written, and shows the same when it is read again.
pub open spec fn writes_back(ops: Seq<OperationValue>, keywords: Seq<Seq<char>>) -> bool {
    written(stripped(ops, keywords)) matches Some(data) && show_the_same(operations_of(data), stripped(ops, keywords))
}

/// Whether a removal from a stream achieves what it is for: there is nothing to be removed, or what
/// is left can be written and read again. lopdf promises this of plain operations.
pub open spec fn is_rewritable(stream: StreamValue, keywords: Seq<Seq<char>>) -> bool {
    let ops = operations_of(content_or_empty(stream));
    is_clean(stream, keywords) || plain_operations(ops) || writes_back(ops, keywords)
}

/// Whether every stream is rewritable.
pub open spec fn rewritable(objects: Map<ObjectId, Value>, keywords: Seq<Seq<char>>) -> bool {
    forall|id: ObjectId|
        objects.contains_key(id) ==> match #[trigger] objects[id] {
            Value::Stream(stream) => is_rewritable(stream, keywords),
            _ => true,
        }
}

/// The streams that are clean.
pub open spec fn clean_ones(keywords: Seq<Seq<char>>) -> spec_fn(StreamValue) -> bool {
    |stream: StreamValue| is_clean(stream, keywords)
}

/// The streams that are rewritable.
pub open spec fn rewritable_ones(keywords: Seq<Seq<char>>) -> spec_fn(StreamValue) -> bool {
    |stream: StreamValue| is_rewritable(stream, keywords)
}

/// Whether a stream is clean and shows what was left of the operations of another one when the
/// text blocks that match were removed.
pub open spec fn is_left(before: Value, after: StreamValue, keywords: Seq<Seq<char>>) -> bool {
    &&& is_clean(after, keywords)
    &&& before matches Value::Stream(stream) && show_the_same(
        operations_of(content_or_empty(after)),
        stripped(operations_of(content_or_empty(stream)), keywords),
    )
}

/// Whether every stream that has changed is clean and shows what was left of it.
pub open spec fn changed_are_clean(
    before: Map<ObjectId, Value>,
    after: Map<ObjectId, Value>,
    keywords: Seq<Seq<char>>,
) -> bool {
    forall|id: ObjectId|
        before.contains_key(id) ==> match #[trigger] after[id] {
            Value::Stream(stream) => after[id] == before[id] || is_left(before[id], stream, keywords),
            _ => true,
        }
}

/// Whether streams that are good stay so.
pub open spec fn stay_good(
    before: Map<ObjectId, Value>,
    after: Map<ObjectId, Value>,
    good: spec_fn(StreamValue) -> bool,
) -> bool {
    forall|id: ObjectId|
        before.contains_key(id) ==> match (before[id], #[trigger] after[id]) {
            (Value::Stream(old_stream), Value::Stream(new_stream)) => good(old_stream) ==> good(new_stream),
            _ => true,
        }
}

/// Whether the stream that a number leads to is good.
pub open spec fn stream_is(
    objects: Map<ObjectId, Value>,
    id: ObjectId,
    good: spec_fn(StreamValue) -> bool,
) -> bool {
    match resolve(objects, id) {
        Ok((_, Value::Stream(stream))) => good(stream),
        _ => true,
    }
}

/// Whether all content streams of a page are good.
pub open spec fn page_is(objects: Map<ObjectId, Value>, page: ObjectId, good: spec_fn(StreamValue) -> bool) -> bool {
    match resolve(objects, page) {
        Ok((_, Value::Dictionary(dict))) => match content_streams(objects, dict) {
            Ok(Some(ids)) => forall|i: int| 0 <= i < ids.len() ==> stream_is(objects, #[trigger] ids[i], good),
            _ => true,
        },
        _ => true,
    }
}

/// Whether a form and the forms that it draws are good. Those of `open` are not looked at again.
pub open spec fn form_is(
    objects: Map<ObjectId, Value>,
    id: ObjectId,
    good: spec_fn(StreamValue) -> bool,
    open: Seq<ObjectId>,
) -> bool
    decreases numbers_left(open), 0int,
{
    match resolve(objects, id) {
        Ok((_, Value::Stream(form))) => if is_form(form.dict) && !open.contains(id) {
            proof {
                lemma_numbers_left(open, id);
            }
            let inner = drawn_objects(objects, form.dict);
            good(form) && forms_are(objects, inner, inner.len() as int, good, open.push(id))
        } else {
            true
        },
        _ => true,
    }
}

/// Whether the first `n` forms and those that they draw are good.
pub open spec fn forms_are(
    objects: Map<ObjectId, Value>,
    ids: Seq<ObjectId>,
    n: int,
    good: spec_fn(StreamValue) -> bool,
    open: Seq<ObjectId>,
) -> bool
    decreases numbers_left(open), n,
{
    n <= 0 || (forms_are(objects, ids, n - 1, good, open) && form_is(objects, ids[n - 1], good, open))
}

/// Whether all content streams of a page and the forms that it draws are good.
pub open spec fn page_and_forms_are(
    objects: Map<ObjectId, Value>,
    page: ObjectId,
    good: spec_fn(StreamValue) -> bool,
) -> bool {
    let drawn = page_objects(objects, page);
    page_is(objects, page, good) && forms_are(objects, drawn, drawn.len() as int, good, Seq::empty())
}

/// Whether the stream that a number leads to is clean.
pub open spec fn stream_is_clean(objects: Map<ObjectId, Value>, id: ObjectId, keywords: Seq<Seq<char>>) -> bool {
    stream_is(objects, id, clean_ones(keywords))
}

/// Whether all content streams of a page are clean.
pub open spec fn page_is_clean(objects: Map<ObjectId, Value>, page: ObjectId, keywords: Seq<Seq<char>>) -> bool {
    page_is(objects, page, clean_ones(keywords))
}

/// Whether the first `n` forms and those that they draw are clean.
pub open spec fn forms_are_clean(
    objects: Map<ObjectId, Value>,
    ids: Seq<ObjectId>,
    n: int,
    keywords: Seq<Seq<char>>,
    open: Seq<ObjectId>,
) -> bool {
    forms_are(objects, ids, n, clean_ones(keywords), open)
}

/// Whether a page and the forms that it draws are clean.
pub open spec fn page_and_forms_are_clean(
    objects: Map<ObjectId, Value>,
    page: ObjectId,
    keywords: Seq<Seq<char>>,
) -> bool {
    page_and_forms_are(objects, page, clean_ones(keywords))
}

/// Where what changes is clean, the clean streams stay clean and the rewritable ones rewritable.
pub proof fn lemma_stay_good(before: Map<ObjectId, Value>, after: Map<ObjectId, Value>, keywords: Seq<Seq<char>>)
    requires
        changed_are_clean(before, after, keywords),
    ensures
        stay_good(before, after, clean_ones(keywords)),
        stay_good(before, after, rewritable_ones(keywords)),
{
}

proof fn lemma_same_segments(ops: Seq<OperationValue>, others: Seq<OperationValue>, from: int)
    requires
        show_the_same(ops, others),
        0 <= from,
    ensures
        segments_from(ops, from).len() == segments_from(others, from).len(),
        forall|i: int|
            0 <= i < segments_from(ops, from).len() ==> {
                let segment = #[trigger] segments_from(ops, from)[i];
                let other = segments_from(others, from)[i];
                &&& segment.bytes == other.bytes
                &&& segment.op_start == other.op_start
                &&& segment.op_end == other.op_end
            },
    decreases ops.len() - from,
{
    if from < ops.len() {
        assert(ops[from].operator == others[from].operator);
        if is_bt(ops[from]) {
            lemma_next_et(ops, from + 1);
            lemma_same_et(ops, others, from + 1);
            lemma_same_shown(ops, others, from + 1, next_et(ops, from + 1));
            let segment = segment_at(ops, from);
            let other = segment_at(others, from);
            lemma_same_segments(ops, others, segment.op_end);
            let rest = segments_from(ops, segment.op_end);
            let other_rest = segments_from(others, segment.op_end);
            if segment.bytes.len() > 0 {
                assert forall|i: int| 0 < i < segments_from(ops, from).len() implies #[trigger] segments_from(
                    ops,
                    from,
                )[i] == rest[i - 1] && segments_from(others, from)[i] == other_rest[i - 1] by {}
            }
        } else {
            lemma_same_segments(ops, others, from + 1);
        }
    }
}

proof fn lemma_same_et(ops: Seq<OperationValue>, others: Seq<OperationValue>, from: int)
    requires
        show_the_same(ops, others),
        0 <= from,
    ensures
        next_et(ops, from) == next_et(others, from),
    decreases ops.len() - from,
{
    if from < ops.len() {
        assert(ops[from].operator == others[from].operator);
        if !is_et(ops[from]) {
            lemma_same_et(ops, others, from + 1);
        }
    }
}

proof fn lemma_same_shown(ops: Seq<OperationValue>, others: Seq<OperationValue>, from: int, to: int)
    requires
        show_the_same(ops, others),
        0 <= from,
        to <= ops.len(),
    ensures
        shown_bytes(ops, from, to) == shown_bytes(others, from, to),
    decreases to - from,
{
    if from < to {
        lemma_same_shown(ops, others, from, to - 1);
        assert(shown(ops[to - 1]) == shown(others[to - 1]));
    }
}

proof fn lemma_same_spans(blocks: Seq<BlockValue>, others: Seq<BlockValue>, keywords: Seq<Seq<char>>)
    requires
        blocks.len() == others.len(),
        forall|i: int| 0 <= i < blocks.len() ==> (#[trigger] blocks[i]).text == others[i].text,
    ensures
        matching_spans(blocks, keywords).len() == matching_spans(others, keywords).len(),
    decreases blocks.len(),
{
    if blocks.len() > 0 {
        let shorter = blocks.drop_last();
        let other = others.drop_last();
        assert forall|i: int| 0 <= i < shorter.len() implies (#[trigger] shorter[i]).text == other[i].text by {
            assert(blocks[i].text == others[i].text);
        }
        lemma_same_spans(shorter, other, keywords);
        assert(blocks[blocks.len() - 1].text == others[blocks.len() - 1].text);
    }
}

/// Operations that show the same match alike.
proof fn lemma_same_count(ops: Seq<OperationValue>, others: Seq<OperationValue>, keywords: Seq<Seq<char>>)
    requires
        show_the_same(ops, others),
    ensures
        matching_count(ops, keywords) == matching_count(others, keywords),
{
    lemma_same_segments(ops, others, 0);
    let blocks = text_blocks(ops);
    let other = text_blocks(others);
    assert forall|i: int| 0 <= i < blocks.len() implies (#[trigger] blocks[i]).text == other[i].text by {
        assert(blocks[i] == with_text(segments_from(ops, 0)[i]));
        assert(other[i] == with_text(segments_from(others, 0)[i]));
    }
    lemma_same_spans(blocks, other, keywords);
}

proof fn lemma_members<T>(items: Seq<T>, spans: Seq<(int, int)>, good: spec_fn(T) -> bool)
    requires
        ordered_spans(spans, items.len() as int),
        forall|i: int| 0 <= i < items.len() ==> good(#[trigger] items[i]),
    ensures
        forall|i: int| 0 <= i < without_spans(items, spans).len() ==> good(#[trigger] without_spans(items, spans)[i]),
    decreases spans.len(),
{
    if spans.len() > 0 {
        let (start, end) = spans.last();
        let shorter = spans.drop_last();
        let last = spans.len() - 1;
        assert(0 <= spans[last].0 < spans[last].1 <= items.len());
        let head = items.subrange(0, start);
        let tail = items.subrange(end, items.len() as int);
        assert(ordered_spans(shorter, head.len() as int)) by {
            assert forall|i: int| 0 <= i < shorter.len() implies 0 <= (#[trigger] shorter[i]).0 < shorter[i].1
                <= head.len() by {
                assert(shorter[i] == spans[i]);
                assert(spans[i].1 <= spans[last].0);
            }
            assert forall|i: int, j: int| 0 <= i < j < shorter.len() implies (#[trigger] shorter[i]).1 <= (
            #[trigger] shorter[j]).0 by {
                assert(shorter[i] == spans[i] && shorter[j] == spans[j]);
            }
        }
        assert forall|i: int| 0 <= i < head.len() implies good(#[trigger] head[i]) by {
            assert(head[i] == items[i]);
        }
        lemma_members(head, shorter, good);
        let left = without_spans(head, shorter);
        let all = without_spans(items, spans);
        assert(all == left + tail);
        assert forall|i: int| 0 <= i < all.len() implies good(#[trigger] all[i]) by {
            if i < left.len() {
                assert(all[i] == left[i]);
            } else {
                assert(all[i] == items[end + i - left.len()]);
            }
        }
    }
}

/// What is left of operations that can be written and read again can be, too.
pub proof fn lemma_plain_stripped(ops: Seq<OperationValue>, keywords: Seq<Seq<char>>)
    requires
        plain_operations(ops),
    ensures
        plain_operations(stripped(ops, keywords)),
{
    let good = |op: OperationValue| plain_operations(seq![op]);
    lemma_ordered(ops, keywords);
    assert forall|i: int| 0 <= i < ops.len() implies good(#[trigger] ops[i]) by {
        assert(seq![ops[i]][0] == ops[i]);
    }
    lemma_members(ops, matching_spans(text_blocks(ops), keywords), good);
    let left = stripped(ops, keywords);
    assert forall|i: int| 0 <= i < left.len() implies plain_operator((#[trigger] left[i]).operator)
        && forall|j: int| 0 <= j < left[i].operands.len() ==> plain_value(#[trigger] left[i].operands[j]) by {
        assert(good(left[i]));
        assert(seq![left[i]][0] == left[i]);
    }
}

/// What shows what was left after a removal is clean.
pub proof fn lemma_written_clean(ops: Seq<OperationValue>, data: Seq<u8>, keywords: Seq<Seq<char>>)
    requires
        show_the_same(operations_of(data), stripped(ops, keywords)),
    ensures
        matching_count(operations_of(data), keywords) == 0,
{
    law_nothing_matches_afterwards(ops, keywords);
    lemma_same_count(operations_of(data), stripped(ops, keywords), keywords);
}

/// Operations of which no block matches are what is left of themselves.
proof fn lemma_clean_unchanged(ops: Seq<OperationValue>, keywords: Seq<Seq<char>>)
    requires
        matching_count(ops, keywords) == 0,
    ensures
        stripped(ops, keywords) == ops,
{
}

/// Where what changes is clean, then what changes later too.
pub proof fn lemma_clean_on(
    first: Map<ObjectId, Value>,
    second: Map<ObjectId, Value>,
    third: Map<ObjectId, Value>,
    keywords: Seq<Seq<char>>,
)
    requires
        first.dom() == second.dom(),
        changed_are_clean(first, second, keywords),
        changed_are_clean(second, third, keywords),
    ensures
        changed_are_clean(first, third, keywords),
{
    assert forall|id: ObjectId| first.contains_key(id) implies match #[trigger] third[id] {
        Value::Stream(stream) => third[id] == first[id] || is_left(first[id], stream, keywords),
        _ => true,
    } by {
        assert(second.contains_key(id));
        if let (Value::Stream(old), Value::Stream(new)) = (second[id], third[id]) {
            if second[id] != first[id] && third[id] != second[id] {
                lemma_clean_unchanged(operations_of(content_or_empty(old)), keywords);
            }
        }
    }
}

/// What is rewritable stays so.
pub proof fn lemma_stays_rewritable(
    before: Map<ObjectId, Value>,
    after: Map<ObjectId, Value>,
    pages: Set<ObjectId>,
    keywords: Seq<Seq<char>>,
)
    requires
        rewritable(before, keywords),
        objects_kept(before, after, pages),
        changed_are_clean(before, after, keywords),
    ensures
        rewritable(after, keywords),
{
    assert forall|id: ObjectId| after.contains_key(id) implies match #[trigger] after[id] {
        Value::Stream(stream) => is_rewritable(stream, keywords),
        _ => true,
    } by {
        assert(before.contains_key(id));
    }
}

/// A page that is clean is rewritable.
pub proof fn lemma_clean_is_rewritable(objects: Map<ObjectId, Value>, page: ObjectId, keywords: Seq<Seq<char>>)
    requires
        page_is_clean(objects, page, keywords),
    ensures
        page_is(objects, page, rewritable_ones(keywords)),
{
    if let Ok((_, Value::Dictionary(dict))) = resolve(objects, page) {
        if let Ok(Some(ids)) = content_streams(objects, dict) {
            assert forall|i: int| 0 <= i < ids.len() implies stream_is(
                objects,
                #[trigger] ids[i],
                rewritable_ones(keywords),
            ) by {
                assert(stream_is_clean(objects, ids[i], keywords));
            }
        }
    }
}

/// Where every stream is rewritable, each page is.
pub proof fn lemma_rewritable_page(objects: Map<ObjectId, Value>, page: ObjectId, keywords: Seq<Seq<char>>)
    requires
        rewritable(objects, keywords),
    ensures
        page_is(objects, page, rewritable_ones(keywords)),
{
    assert forall|id: ObjectId| #[trigger] stream_is(objects, id, rewritable_ones(keywords)) by {
        lemma_resolved(objects, id);
    }
}

proof fn lemma_rewritable_form(
    objects: Map<ObjectId, Value>,
    id: ObjectId,
    keywords: Seq<Seq<char>>,
    open: Seq<ObjectId>,
)
    requires
        rewritable(objects, keywords),
    ensures
        form_is(objects, id, rewritable_ones(keywords), open),
    decreases numbers_left(open), 0int,
{
    lemma_resolved(objects, id);
    if let Ok((_, Value::Stream(form))) = resolve(objects, id) {
        if is_form(form.dict) && !open.contains(id) {
            lemma_numbers_left(open, id);
            let inner = drawn_objects(objects, form.dict);
            lemma_rewritable_forms(objects, inner, inner.len() as int, keywords, open.push(id));
        }
    }
}

/// Where every stream is rewritable, forms and those that they draw are.
pub proof fn lemma_rewritable_forms(
    objects: Map<ObjectId, Value>,
    ids: Seq<ObjectId>,
    n: int,
    keywords: Seq<Seq<char>>,
    open: Seq<ObjectId>,
)
    requires
        rewritable(objects, keywords),
    ensures
        forms_are(objects, ids, n, rewritable_ones(keywords), open),
    decreases numbers_left(open), n,
{
    if n > 0 {
        lemma_rewritable_forms(objects, ids, n - 1, keywords, open);
        lemma_rewritable_form(objects, ids[n - 1], keywords, open);
    }
}

/// Each of the forms that are good is.
pub proof fn lemma_each_form(
    objects: Map<ObjectId, Value>,
    ids: Seq<ObjectId>,
    n: int,
    good: spec_fn(StreamValue) -> bool,
    open: Seq<ObjectId>,
    i: int,
)
    requires
        forms_are(objects, ids, n, good, open),
        0 <= i < n,
    ensures
        form_is(objects, ids[i], good, open),
    decreases n,
{
    if i < n - 1 {
        lemma_each_form(objects, ids, n - 1, good, open, i);
    }
}

/// The stream that a number leads to stays good.
pub proof fn lemma_stream_stays(
    before: Map<ObjectId, Value>,
    after: Map<ObjectId, Value>,
    pages: Set<ObjectId>,
    good: spec_fn(StreamValue) -> bool,
    id: ObjectId,
)
    requires
        objects_kept(before, after, pages),
        stay_good(before, after, good),
        stream_is(before, id, good),
    ensures
        stream_is(after, id, good),
{
    lemma_kept_resolve(before, after, pages, id);
}

/// A page whose own dictionary is not changed stays good.
pub proof fn lemma_page_stays(
    before: Map<ObjectId, Value>,
    after: Map<ObjectId, Value>,
    pages: Set<ObjectId>,
    good: spec_fn(StreamValue) -> bool,
    page: ObjectId,
)
    requires
        objects_kept(before, after, pages),
        stay_good(before, after, good),
        page_is(before, page, good),
        resolve(before, page) matches Ok((target, _)) ==> !pages.contains(target),
    ensures
        page_is(after, page, good),
{
    lemma_kept_resolve(before, after, pages, page);
    if let Ok((_, Value::Dictionary(dict))) = resolve(before, page) {
        if let Some(Value::Reference(id)) = entry(dict, key("Contents")) {
            lemma_kept_resolve(before, after, pages, id);
        }
        assert(content_streams(after, dict) == content_streams(before, dict));
        if let Ok(Some(ids)) = content_streams(before, dict) {
            assert forall|i: int| 0 <= i < ids.len() implies stream_is(after, #[trigger] ids[i], good) by {
                lemma_stream_stays(before, after, pages, good, ids[i]);
            }
        }
    }
}

/// The dictionary of external objects that the resources of a dictionary refer to.
pub open spec fn external_dictionary(objects: Map<ObjectId, Value>, dict: Seq<(Seq<u8>, Value)>) -> Option<ObjectId> {
    let resources = match entry(dict, key("Resources")) {
        Some(Value::Reference(id)) => match resolve(objects, id) {
            Ok((_, value)) => Some(value),
            Err(_) => None,
        },
        other => other,
    };
    match resources {
        Some(Value::Dictionary(found)) => match entry(found, key("XObject")) {
            Some(Value::Reference(id)) => match resolve(objects, id) {
                Ok((target, _)) => Some(target),
                Err(_) => None,
            },
            _ => None,
        },
        _ => None,
    }
}

/// Whether none of the pages is used as a dictionary of external objects.
pub open spec fn forms_apart(objects: Map<ObjectId, Value>, pages: Set<ObjectId>) -> bool {
    forall|id: ObjectId|
        objects.contains_key(id) ==> match #[trigger] objects[id] {
            Value::Stream(stream) => !used_by(objects, stream.dict, pages),
            Value::Dictionary(dict) => !used_by(objects, dict, pages),
            _ => true,
        }
}

/// Whether a dictionary has one of the pages as its dictionary of external objects.
pub open spec fn used_by(
    objects: Map<ObjectId, Value>,
    dict: Seq<(Seq<u8>, Value)>,
    pages: Set<ObjectId>,
) -> bool {
    external_dictionary(objects, dict) matches Some(target) && pages.contains(target)
}

/// Kept dictionaries refer to the same external objects as before.
proof fn lemma_same_external_dictionary(
    before: Map<ObjectId, Value>,
    after: Map<ObjectId, Value>,
    pages: Set<ObjectId>,
    dict: Seq<(Seq<u8>, Value)>,
    kept: Seq<(Seq<u8>, Value)>,
)
    requires
        objects_kept(before, after, pages),
        entry(kept, key("Resources")) == entry(dict, key("Resources")),
    ensures
        external_dictionary(after, kept) == external_dictionary(before, dict),
{
    lemma_names();
    if let Some(Value::Reference(id)) = entry(dict, key("Resources")) {
        lemma_kept_resolve(before, after, pages, id);
        if let Ok((target, Value::Dictionary(resources))) = resolve(before, id) {
            if let Value::Dictionary(later) = after[target] {
                assert(entry(later, key("XObject")) == entry(resources, key("XObject")));
            }
            if let Some(Value::Reference(named)) = entry(resources, key("XObject")) {
                lemma_kept_resolve(before, after, pages, named);
            }
        }
    } else if let Some(Value::Dictionary(resources)) = entry(dict, key("Resources")) {
        if let Some(Value::Reference(named)) = entry(resources, key("XObject")) {
            lemma_kept_resolve(before, after, pages, named);
        }
    }
}

/// Pages that are apart from dictionaries of external objects stay so.
pub proof fn lemma_stays_apart(
    before: Map<ObjectId, Value>,
    after: Map<ObjectId, Value>,
    pages: Set<ObjectId>,
    apart: Set<ObjectId>,
)
    requires
        objects_kept(before, after, pages),
        forms_apart(before, apart),
    ensures
        forms_apart(after, apart),
{
    lemma_names();
    assert forall|id: ObjectId| after.contains_key(id) implies match #[trigger] after[id] {
        Value::Stream(stream) => !used_by(after, stream.dict, apart),
        Value::Dictionary(dict) => !used_by(after, dict, apart),
        _ => true,
    } by {
        assert(before.contains_key(id));
        assert(value_kept(before[id], after[id], pages.contains(id)));
        match (before[id], after[id]) {
            (Value::Stream(old_stream), Value::Stream(new_stream)) => {
                lemma_same_external_dictionary(before, after, pages, old_stream.dict, new_stream.dict);
            },
            (Value::Dictionary(old_dict), Value::Dictionary(new_dict)) => {
                lemma_same_external_dictionary(before, after, pages, old_dict, new_dict);
            },
            _ => {},
        }
    }
}

/// What is apart from some pages is apart from fewer.
pub proof fn lemma_fewer_apart(objects: Map<ObjectId, Value>, pages: Set<ObjectId>, fewer: Set<ObjectId>)
    requires
        forms_apart(objects, pages),
        fewer.subset_of(pages),
    ensures
        forms_apart(objects, fewer),
{
}

/// The external objects that a kept dictionary draws are the same as before, unless a page that
/// changes is used as a dictionary of external objects.
pub proof fn lemma_same_drawn(
    before: Map<ObjectId, Value>,
    after: Map<ObjectId, Value>,
    pages: Set<ObjectId>,
    dict: Seq<(Seq<u8>, Value)>,
    kept: Seq<(Seq<u8>, Value)>,
)
    requires
        objects_kept(before, after, pages),
        entry(kept, key("Resources")) == entry(dict, key("Resources")),
        !used_by(before, dict, pages),
    ensures
        drawn_objects(after, kept) == drawn_objects(before, dict),
{
    lemma_names();
    if let Some(Value::Reference(id)) = entry(dict, key("Resources")) {
        lemma_kept_resolve(before, after, pages, id);
        if let Ok((target, Value::Dictionary(resources))) = resolve(before, id) {
            if let Value::Dictionary(later) = after[target] {
                assert(entry(later, key("XObject")) == entry(resources, key("XObject")));
            }
            if let Some(Value::Reference(named)) = entry(resources, key("XObject")) {
                lemma_kept_resolve(before, after, pages, named);
            }
        }
    } else if let Some(Value::Dictionary(resources)) = entry(dict, key("Resources")) {
        if let Some(Value::Reference(named)) = entry(resources, key("XObject")) {
            lemma_kept_resolve(before, after, pages, named);
        }
    }
}

/// A form and those that it draws stay good.
pub proof fn lemma_form_stays(
    before: Map<ObjectId, Value>,
    after: Map<ObjectId, Value>,
    pages: Set<ObjectId>,
    id: ObjectId,
    good: spec_fn(StreamValue) -> bool,
    open: Seq<ObjectId>,
)
    requires
        objects_kept(before, after, pages),
        forms_apart(before, pages),
        stay_good(before, after, good),
        form_is(before, id, good, open),
    ensures
        form_is(after, id, good, open),
    decreases numbers_left(open), 0int,
{
    lemma_names();
    lemma_resolved(before, id);
    lemma_kept_resolve(before, after, pages, id);
    if let Ok((target, Value::Stream(form))) = resolve(before, id) {
        if let Value::Stream(later) = after[target] {
            assert(entry(later.dict, key("Subtype")) == entry(form.dict, key("Subtype")));
            assert(entry(later.dict, key("Resources")) == entry(form.dict, key("Resources")));
            if is_form(form.dict) && !open.contains(id) {
                lemma_numbers_left(open, id);
                lemma_same_drawn(before, after, pages, form.dict, later.dict);
                let inner = drawn_objects(before, form.dict);
                lemma_forms_stay(before, after, pages, inner, inner.len() as int, good, open.push(id));
            }
        }
    }
}

/// Forms and those that they draw stay good.
pub proof fn lemma_forms_stay(
    before: Map<ObjectId, Value>,
    after: Map<ObjectId, Value>,
    pages: Set<ObjectId>,
    ids: Seq<ObjectId>,
    n: int,
    good: spec_fn(StreamValue) -> bool,
    open: Seq<ObjectId>,
)
    requires
        objects_kept(before, after, pages),
        forms_apart(before, pages),
        stay_good(before, after, good),
        forms_are(before, ids, n, good, open),
    ensures
        forms_are(after, ids, n, good, open),
    decreases numbers_left(open), n,
{
    if n > 0 {
        lemma_forms_stay(before, after, pages, ids, n - 1, good, open);
        lemma_form_stays(before, after, pages, ids[n - 1], good, open);
    }
}

/// A form is clean once it and the forms that it draws are cleaned.
pub proof fn lemma_form_cleaned(
    before: Map<ObjectId, Value>,
    between: Map<ObjectId, Value>,
    after: Map<ObjectId, Value>,
    id: ObjectId,
    keywords: Seq<Seq<char>>,
    open: Seq<ObjectId>,
)
    requires
        objects_kept(before, between, Set::empty()),
        objects_kept(between, after, Set::empty()),
        changed_are_clean(between, after, keywords),
        stream_is_clean(between, id, keywords),
        resolve(before, id) matches Ok((_, Value::Stream(form))) && is_form(form.dict) && forms_are_clean(
            after,
            drawn_objects(between, form.dict),
            drawn_objects(between, form.dict).len() as int,
            keywords,
            open.push(id),
        ),
    ensures
        form_is(after, id, clean_ones(keywords), open),
{
    lemma_names();
    lemma_kept_resolve(before, between, Set::empty(), id);
    lemma_kept_resolve(between, after, Set::empty(), id);
    lemma_stay_good(between, after, keywords);
    lemma_stream_stays(between, after, Set::empty(), clean_ones(keywords), id);
    let (target, value) = resolve(before, id)->Ok_0;
    let form = value->Stream_0;
    let middle = between[target]->Stream_0;
    let later = after[target]->Stream_0;
    assert(entry(middle.dict, key("Resources")) == entry(form.dict, key("Resources")));
    assert(entry(later.dict, key("Resources")) == entry(middle.dict, key("Resources")));
    lemma_same_drawn(between, after, Set::empty(), form.dict, later.dict);
}

/// The references of an array of references.
pub proof fn lemma_references(ids: Seq<ObjectId>, n: int)
    requires
        n <= ids.len(),
    ensures
        references(Seq::new(ids.len(), |i: int| Value::Reference(ids[i])), n) == ids.take(
            if n < 0 {
                0
            } else {
                n
            },
        ),
    decreases n,
{
    if n > 0 {
        lemma_references(ids, n - 1);
        assert(ids.take(n) =~= ids.take(n - 1).push(ids[n - 1]));
    } else {
        assert(ids.take(0) =~= Seq::<ObjectId>::empty());
    }
}

/// Clean content streams stay as they are, and the page keeps them.
pub proof fn lemma_kept_idle(objects: Map<ObjectId, Value>, ids: Seq<ObjectId>, n: int, keywords: Seq<Seq<char>>)
    requires
        0 <= n <= ids.len(),
        forall|i: int|
            0 <= i < ids.len() ==> stream_is_clean(objects, #[trigger] ids[i], keywords) && (resolve(objects, ids[i])
                matches Ok((_, Value::Stream(_)))),
    ensures
        clean_streams(objects, ids, n, keywords) == (PageState {
            objects,
            kept: ids.take(n),
            removed: 0,
            fault: None,
        }),
    decreases n,
{
    if n > 0 {
        lemma_kept_idle(objects, ids, n - 1, keywords);
        assert(stream_is_clean(objects, ids[n - 1], keywords));
        assert(ids.take(n) =~= ids.take(n - 1).push(ids[n - 1]));
    } else {
        assert(ids.take(0) =~= Seq::<ObjectId>::empty());
    }
}

/// Whether a page has one content stream that it refers to directly, or none.
pub open spec fn at_most_one_stream(objects: Map<ObjectId, Value>, page: ObjectId) -> bool {
    match resolve(objects, page) {
        Ok((_, Value::Dictionary(dict))) => match entry(dict, key("Contents")) {
            Some(Value::Reference(id)) => resolve(objects, id) matches Ok((_, Value::Stream(_))),
            Some(Value::Array(_)) => false,
            _ => true,
        },
        _ => true,
    }
}

/// A page that keeps clean streams only is clean, and to clean it again changes nothing.
pub proof fn lemma_contents_clean(
    objects: Map<ObjectId, Value>,
    page: ObjectId,
    kept: Seq<ObjectId>,
    keywords: Seq<Seq<char>>,
)
    requires
        proper_at(objects, page),
        forall|i: int|
            0 <= i < kept.len() ==> stream_is_clean(objects, #[trigger] kept[i], keywords) && (resolve(objects, kept[i])
                matches Ok((_, Value::Stream(_)))),
    ensures
        page_is_clean(set_contents(objects, page, kept).0, page, keywords),
        changed_are_clean(objects, set_contents(objects, page, kept).0, keywords),
        kept.len() <= 1 ==> at_most_one_stream(set_contents(objects, page, kept).0, page),
        set_contents(objects, page, kept).1 is None ==> clean_page(
            set_contents(objects, page, kept).0,
            page,
            keywords,
        ) == (set_contents(objects, page, kept).0, Ok::<nat, Fault>(0)),
{
    lemma_resolved(objects, page);
    let (after, _) = set_contents(objects, page, kept);
    lemma_contents_kept(objects, page, kept);
    lemma_kept_resolve(objects, after, page_target(objects, page), page);
    if let Ok((target, Value::Dictionary(dict))) = resolve(objects, page) {
        assert(objects[target] == Value::Dictionary(dict));
        let new_dict = with_contents(dict, kept);
        assert(after[target] == Value::Dictionary(new_dict));
        lemma_without_entry(dict, key("Contents"));
        let array = Value::Array(Seq::new(kept.len(), |i: int| Value::Reference(kept[i])));
        lemma_with_entry(dict, key("Contents"), array);
        if kept.len() == 1 {
            lemma_with_entry(dict, key("Contents"), Value::Reference(kept[0]));
            lemma_same_entry(new_dict, key("Contents"), Value::Reference(kept[0]));
            lemma_kept_resolve(objects, after, page_target(objects, page), kept[0]);
            assert(content_streams(after, new_dict)->Ok_0->Some_0 =~= kept);
        } else if kept.len() > 1 {
            lemma_same_entry(new_dict, key("Contents"), array);
            lemma_references(kept, kept.len() as int);
            assert(kept.take(kept.len() as int) =~= kept);
        }
        assert forall|i: int| 0 <= i < kept.len() implies stream_is_clean(after, #[trigger] kept[i], keywords) && (
        resolve(after, kept[i]) matches Ok((_, Value::Stream(_)))) by {
            lemma_stream_stays(objects, after, page_target(objects, page), clean_ones(keywords), kept[i]);
            lemma_kept_resolve(objects, after, page_target(objects, page), kept[i]);
        }
        if kept.len() > 0 {
            lemma_kept_idle(after, kept, kept.len() as int, keywords);
            assert(kept.take(kept.len() as int) =~= kept);
            assert(after.insert(target, Value::Dictionary(new_dict)) =~= after);
        }
    }
}

/// A page draws the same external objects as before.
proof fn lemma_same_page_objects(
    before: Map<ObjectId, Value>,
    after: Map<ObjectId, Value>,
    pages: Set<ObjectId>,
    page: ObjectId,
)
    requires
        objects_kept(before, after, pages),
        forms_apart(before, pages),
    ensures
        page_objects(after, page) == page_objects(before, page),
{
    lemma_names();
    lemma_resolved(before, page);
    lemma_kept_resolve(before, after, pages, page);
    if let Ok((target, Value::Dictionary(dict))) = resolve(before, page) {
        let later = after[target]->Dictionary_0;
        assert(entry(later, key("Resources")) == entry(dict, key("Resources")));
        lemma_same_drawn(before, after, pages, dict, later);
    }
}

/// A page stays good when another one is cleaned, or the same one again.
pub proof fn lemma_other_page_stays(
    before: Map<ObjectId, Value>,
    after: Map<ObjectId, Value>,
    good: spec_fn(StreamValue) -> bool,
    page: ObjectId,
    other: ObjectId,
)
    requires
        objects_kept(before, after, page_target(before, page)),
        forms_apart(before, page_target(before, page)),
        stay_good(before, after, good),
        page_is(after, page, good),
        page_and_forms_are(before, other, good),
    ensures
        page_and_forms_are(after, other, good),
{
    let pages = page_target(before, page);
    lemma_kept_resolve(before, after, pages, page);
    lemma_kept_resolve(before, after, pages, other);
    lemma_same_page_objects(before, after, pages, other);
    let drawn = page_objects(before, other);
    lemma_forms_stay(before, after, pages, drawn, drawn.len() as int, good, Seq::empty());
    if resolve(before, other) matches Ok((target, _)) && pages.contains(target) {
        assert(resolve(after, other) == resolve(after, page));
    } else {
        lemma_page_stays(before, after, pages, good, other);
    }
}

/// A page stays good when forms are cleaned.
pub proof fn lemma_page_stays_with_forms(
    before: Map<ObjectId, Value>,
    after: Map<ObjectId, Value>,
    good: spec_fn(StreamValue) -> bool,
    page: ObjectId,
)
    requires
        objects_kept(before, after, Set::empty()),
        stay_good(before, after, good),
    ensures
        page_is(before, page, good) ==> page_is(after, page, good),
        page_and_forms_are(before, page, good) ==> page_and_forms_are(after, page, good),
        page_objects(after, page) == page_objects(before, page),
{
    lemma_same_page_objects(before, after, Set::empty(), page);
    if page_is(before, page, good) {
        lemma_page_stays(before, after, Set::empty(), good, page);
    }
    let drawn = page_objects(before, page);
    if forms_are(before, drawn, drawn.len() as int, good, Seq::empty()) {
        lemma_forms_stay(before, after, Set::empty(), drawn, drawn.len() as int, good, Seq::empty());
    }
}

/// Without keywords every page is clean.
pub proof fn lemma_no_keywords_clean(objects: Map<ObjectId, Value>, page: ObjectId, keywords: Seq<Seq<char>>)
    requires
        keywords.len() == 0,
    ensures
        page_is_clean(objects, page, keywords),
{
    assert forall|id: ObjectId| #[trigger] stream_is(objects, id, clean_ones(keywords)) by {
        if let Ok((_, Value::Stream(stream))) = resolve(objects, id) {
            law_empty_keywords_match_nothing(operations_of(content_or_empty(stream)), keywords);
        }
    }
}

/// A clean page does not show the keyword: where it has one content stream or none, no text block
/// contains one of the keywords, whatever its case.
pub proof fn law_clean_page_lacks_keyword(
    objects: Map<ObjectId, Value>,
    page: ObjectId,
    keywords: Seq<Seq<char>>,
    i: int,
)
    requires
        page_is_clean(objects, page, lowercase_texts(keywords)),
        at_most_one_stream(objects, page),
        0 <= i < keywords.len(),
    ensures
        !page_shows(objects, page, lowercase(keywords[i])),
{
    if let Ok(content) = page_content(objects, page) {
        let lower = lowercase_texts(keywords);
        let ops = operations_of(content);
        if let Ok((_, Value::Dictionary(dict))) = resolve(objects, page) {
            if let Some(Value::Reference(id)) = entry(dict, key("Contents")) {
                let ids = content_streams(objects, dict)->Ok_0->Some_0;
                assert(ids =~= seq![id]);
                assert(stream_is_clean(objects, ids[0], lower));
            }
        }
        let blocks = text_blocks(ops);
        if content.len() == 0 {
            assert(blocks =~= Seq::<BlockValue>::empty());
        }
        law_count_tells_matches(ops, lower);
        lemma_no_blocks(ops, lower);
        assert forall|j: int| 0 <= j < blocks.len() implies !block_matches(
            (#[trigger] blocks[j]).text,
            seq![lowercase(keywords[i])],
        ) by {
            assert(!block_matches(blocks[j].text, lower));
            let one = seq![lowercase(keywords[i])];
            if block_matches(blocks[j].text, one) {
                assert(lower[i] == one[0]);
            }
        }
    }
}

proof fn lemma_no_blocks(ops: Seq<OperationValue>, keywords: Seq<Seq<char>>)
    ensures
        ops.len() == 0 ==> matching_count(ops, keywords) == 0,
{
    if ops.len() == 0 {
        assert(text_blocks(ops) =~= Seq::<BlockValue>::empty());
    }
}

} // verus!
