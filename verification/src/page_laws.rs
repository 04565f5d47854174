//! What the content of a page is, and what a removal from a page does to it.

use crate::blocks::text_blocks;
use crate::clean::{lemma_kept_idle, lemma_references, stream_is_clean};
use crate::content::{operations_of, written};
use crate::frame::{
    law_page_removal_keeps_the_rest, lemma_contents_kept, lemma_kept_on, lemma_kept_proper, lemma_kept_resolve,
    lemma_names, lemma_stream_kept, lemma_streams_kept, lemma_written, objects_kept, page_target, proper,
};
use crate::page::{
    add_counts, clean_stream, clean_streams, content_or_empty, content_streams, is_shell, joined_content, page_content,
    page_shows, references, removal_from_page, strip_content, with_contents, PageState,
};
use crate::pdf::{lemma_resolved, plain_content, resolve, unfiltered, with_plain_content, Fault};
use crate::strip::{matching_count, stripped};
use crate::strip_laws::law_count_tells_matches;
use crate::text::{block_matches, collapsed, lossy_text, lowercase, lowercase_texts, white_space};
use crate::text_laws::law_blocks_match_substrings;
use crate::value::{
    distinct_names, distinct_value, entry, key, lemma_with_entry, lemma_without_entry, without_entry, StreamValue,
    Value,
};
use lopdf::ObjectId;
use vstd::prelude::*;

verus! {

/// A stream without filters is read as it is. One with filters is read as what lopdf makes of it. If
/// its `Filter` is neither a name nor an array of names, it cannot be read.
pub proof fn law_filters_are_undone(stream: StreamValue)
    ensures
        match entry(stream.dict, key("Filter")) {
            None => plain_content(stream) == Some(stream.content),
            Some(Value::Name(_)) => plain_content(stream) == unfiltered(stream.dict, stream.content),
            Some(Value::Array(items)) => {
                &&& items.len() == 0 ==> plain_content(stream) == Some(stream.content)
                &&& items.len() > 0 && (forall|i: int| 0 <= i < items.len() ==> #[trigger] items[i] is Name)
                    ==> plain_content(stream) == unfiltered(stream.dict, stream.content)
                &&& (exists|i: int| 0 <= i < items.len() && !(#[trigger] items[i] is Name)) ==> plain_content(stream)
                    is None
            },
            Some(_) => plain_content(stream) is None,
        },
{
}

/// The references among values are all that there are, in order.
pub proof fn law_every_reference_is_found(values: Seq<Value>, value: Value)
    ensures
        references(Seq::empty(), 0).len() == 0,
        references(values.push(value), (values.len() + 1) as int) == references(values, values.len() as int)
            + (match value {
            Value::Reference(id) => seq![id],
            _ => Seq::empty(),
        }),
{
    lemma_first_references(values.push(value), values, values.len() as int);
}

proof fn lemma_first_references(values: Seq<Value>, others: Seq<Value>, n: int)
    requires
        forall|i: int| 0 <= i < n ==> #[trigger] values[i] == others[i],
    ensures
        references(values, n) == references(others, n),
    decreases n,
{
    if n > 0 {
        assert(values[n - 1] == others[n - 1]);
        lemma_first_references(values, others, n - 1);
    }
}

/// The content streams of a page are what its `Contents` refer to: one stream, or the references of
/// an array, which may be given by reference itself.
pub proof fn law_contents_tell_the_streams(objects: Map<ObjectId, Value>, dict: Seq<(Seq<u8>, Value)>)
    ensures
        match entry(dict, key("Contents")) {
            Some(Value::Array(items)) => content_streams(objects, dict) == Ok::<Option<Seq<ObjectId>>, Fault>(
                Some(references(items, items.len() as int)),
            ),
            Some(Value::Reference(id)) => match resolve(objects, id) {
                Ok((_, Value::Array(items))) => content_streams(objects, dict) == Ok::<
                    Option<Seq<ObjectId>>,
                    Fault,
                >(Some(references(items, items.len() as int))),
                Ok(_) => content_streams(objects, dict) == Ok::<Option<Seq<ObjectId>>, Fault>(Some(seq![id])),
                Err(fault) => content_streams(objects, dict) == Err::<Option<Seq<ObjectId>>, Fault>(fault),
            },
            _ => content_streams(objects, dict) == Ok::<Option<Seq<ObjectId>>, Fault>(None),
        },
{
}

proof fn lemma_first_joined(objects: Map<ObjectId, Value>, values: Seq<Value>, others: Seq<Value>, n: int)
    requires
        forall|i: int| 0 <= i < n ==> #[trigger] values[i] == others[i],
    ensures
        joined_content(objects, values, n) == joined_content(objects, others, n),
    decreases n,
{
    if n > 0 {
        assert(values[n - 1] == others[n - 1]);
        lemma_first_joined(objects, values, others, n - 1);
    }
}

/// The content of an array is that of all its streams, one after the other: a stream that is added
/// at the end adds its content, unless it cannot be read. What is no stream adds nothing. A reference
/// that leads nowhere is a fault.
pub proof fn law_contents_of_an_array_are_joined(objects: Map<ObjectId, Value>, values: Seq<Value>, value: Value)
    ensures
        joined_content(objects, Seq::empty(), 0) == Ok::<Seq<u8>, Fault>(Seq::empty()),
        ({
            let found = match value {
                Value::Reference(id) => match resolve(objects, id) {
                    Ok((_, target)) => Ok(target),
                    Err(fault) => Err(fault),
                },
                _ => Ok(value),
            };
            let after = joined_content(objects, values.push(value), (values.len() + 1) as int);
            match (joined_content(objects, values, values.len() as int), found) {
                (Err(fault), _) => after == Err::<Seq<u8>, Fault>(fault),
                (Ok(before), Ok(Value::Stream(stream))) => after == Ok::<Seq<u8>, Fault>(
                    before + match plain_content(stream) {
                        Some(content) => content,
                        None => Seq::empty(),
                    },
                ),
                (Ok(before), Ok(_)) => after == Ok::<Seq<u8>, Fault>(before),
                (Ok(before), Err(fault)) => after == Err::<Seq<u8>, Fault>(fault),
            }
        }),
{
    lemma_first_joined(objects, values.push(value), values, values.len() as int);
}

/// The content of a page is that of the stream that its `Contents` refer to, or that of an array. A
/// page whose stream cannot be read is a fault. Without contents there is none.
pub proof fn law_page_content(objects: Map<ObjectId, Value>, page: ObjectId)
    ensures
        match resolve(objects, page) {
            Err(fault) => page_content(objects, page) == Err::<Seq<u8>, Fault>(fault),
            Ok((_, Value::Dictionary(dict))) => match entry(dict, key("Contents")) {
                Some(Value::Array(items)) => page_content(objects, page) == joined_content(
                    objects,
                    items,
                    items.len() as int,
                ),
                Some(Value::Reference(id)) => match resolve(objects, id) {
                    Err(fault) => page_content(objects, page) == Err::<Seq<u8>, Fault>(fault),
                    Ok((_, Value::Stream(stream))) => page_content(objects, page) == (match plain_content(stream) {
                        Some(content) => Ok::<Seq<u8>, Fault>(content),
                        None => Err(Fault::Undecodable),
                    }),
                    Ok((_, Value::Array(items))) => page_content(objects, page) == joined_content(
                        objects,
                        items,
                        items.len() as int,
                    ),
                    Ok(_) => page_content(objects, page) == Ok::<Seq<u8>, Fault>(Seq::empty()),
                },
                _ => page_content(objects, page) == Ok::<Seq<u8>, Fault>(Seq::empty()),
            },
            Ok(_) => page_content(objects, page) == Ok::<Seq<u8>, Fault>(Seq::empty()),
        },
{
}

/// A page shows a keyword that is not empty if and only if its content can be read and the text of
/// one of its blocks, with white space collapsed and in lower case, is made of the keyword and of
/// what comes before and behind it.
pub proof fn law_page_shows_its_blocks(objects: Map<ObjectId, Value>, page: ObjectId, keyword: Seq<char>)
    ensures
        page_shows(objects, page, keyword) <==> keyword.len() > 0 && (page_content(objects, page) matches Ok(content)
            && exists|j: int, a: Seq<char>, b: Seq<char>|
            0 <= j < text_blocks(operations_of(content)).len() && lowercase(
                collapsed((#[trigger] text_blocks(operations_of(content))[j]).text),
            ) == #[trigger] (a + keyword + b)),
{
    if let Ok(content) = page_content(objects, page) {
        let blocks = text_blocks(operations_of(content));
        let one = seq![keyword];
        assert(one[0] == keyword);
        assert forall|j: int| 0 <= j < blocks.len() implies block_matches((#[trigger] blocks[j]).text, one) == (
        keyword.len() > 0 && exists|a: Seq<char>, b: Seq<char>|
            lowercase(collapsed(blocks[j].text)) == #[trigger] (a + keyword + b)) by {
            law_blocks_match_substrings(blocks[j].text, one);
            let lower = lowercase(collapsed(blocks[j].text));
            if block_matches(blocks[j].text, one) {
                let (i, a, b) = choose|i: int, a: Seq<char>, b: Seq<char>|
                    0 <= i < one.len() && one[i].len() > 0 && lower == #[trigger] (a + one[i] + b);
                assert(lower == a + keyword + b);
            }
            if keyword.len() > 0 && exists|a: Seq<char>, b: Seq<char>| lower == #[trigger] (a + keyword + b) {
                let (a, b) = choose|a: Seq<char>, b: Seq<char>| lower == #[trigger] (a + keyword + b);
                assert(lower == a + one[0] + b);
            }
        }
        if page_shows(objects, page, keyword) {
            let j = choose|j: int| 0 <= j < blocks.len() && block_matches((#[trigger] blocks[j]).text, one);
            let (a, b) = choose|a: Seq<char>, b: Seq<char>|
                lowercase(collapsed(blocks[j].text)) == #[trigger] (a + keyword + b);
            assert(lowercase(collapsed(blocks[j].text)) == a + keyword + b);
        }
    }
}

/// What a removal leaves of the content of a stream: `None` if no block matches or if the rest cannot
/// be written.
pub open spec fn left_of(stream: StreamValue, keywords: Seq<Seq<char>>) -> Option<Seq<u8>> {
    let ops = operations_of(match plain_content(stream) {
        Some(content) => content,
        None => Seq::empty(),
    });
    if matching_count(ops, keywords) == 0 {
        None
    } else {
        written(stripped(ops, keywords))
    }
}

/// Whether bytes show nothing: their text is white space and the operators `q` and `Q`.
pub open spec fn shows_no_more(data: Seq<u8>) -> bool {
    forall|i: int|
        0 <= i < lossy_text(data).len() ==> white_space(#[trigger] lossy_text(data)[i]) || lossy_text(data)[i] == 'q'
            || lossy_text(data)[i] == 'Q'
}

proof fn lemma_left_of(stream: StreamValue, keywords: Seq<Seq<char>>)
    ensures
        match left_of(stream, keywords) {
            Some(data) => strip_content(stream, keywords) == Some(
                (data, matching_count(operations_of(content_or_empty(stream)), keywords)),
            ) && is_shell(lossy_text(data)) == shows_no_more(data),
            None => strip_content(stream, keywords) is None,
        },
{
}

/// Whether no two of these numbers lead to the same object.
pub open spec fn lead_apart(objects: Map<ObjectId, Value>, ids: Seq<ObjectId>) -> bool {
    forall|i: int, j: int|
        0 <= i < j < ids.len() ==> match (resolve(objects, #[trigger] ids[i]), resolve(objects, #[trigger] ids[j])) {
            (Ok((a, _)), Ok((b, _))) => a != b,
            _ => true,
        }
}

/// Whether a page keeps a stream.
pub open spec fn stays(objects: Map<ObjectId, Value>, id: ObjectId, keywords: Seq<Seq<char>>) -> bool {
    match resolve(objects, id) {
        Ok((_, Value::Stream(stream))) => match left_of(stream, keywords) {
            Some(data) => !shows_no_more(data),
            None => true,
        },
        _ => false,
    }
}

/// The number of blocks that are removed from a stream.
pub open spec fn blocks_gone(objects: Map<ObjectId, Value>, id: ObjectId, keywords: Seq<Seq<char>>) -> int {
    match resolve(objects, id) {
        Ok((_, Value::Stream(stream))) => match left_of(stream, keywords) {
            Some(data) => matching_count(
                operations_of(
                    match plain_content(stream) {
                        Some(content) => content,
                        None => Seq::empty(),
                    },
                ),
                keywords,
            ) as int,
            None => 0,
        },
        _ => 0,
    }
}

/// What becomes of the object that a number leads to.
spec fn outcome(objects: Map<ObjectId, Value>, id: ObjectId, keywords: Seq<Seq<char>>) -> Value {
    let value = resolve(objects, id)->Ok_0.1;
    match value {
        Value::Stream(stream) => match left_of(stream, keywords) {
            Some(data) => if shows_no_more(data) {
                value
            } else {
                Value::Stream(with_plain_content(stream, data))
            },
            None => value,
        },
        _ => value,
    }
}

/// The cleaning of streams that are told apart, one after the other.
proof fn lemma_streams_cleaned(objects: Map<ObjectId, Value>, ids: Seq<ObjectId>, n: int, keywords: Seq<Seq<char>>)
    requires
        proper(objects),
        lead_apart(objects, ids),
        0 <= n <= ids.len(),
        clean_streams(objects, ids, n, keywords).fault is None,
    ensures
        objects_kept(objects, clean_streams(objects, ids, n, keywords).objects, Set::empty()),
        clean_streams(objects, ids, n, keywords).kept == ids.take(n).filter(
            |id: ObjectId| stays(objects, id, keywords),
        ),
        clean_streams(objects, ids, n, keywords).removed == ({
            let total = ids.take(n).map_values(|id: ObjectId| blocks_gone(objects, id, keywords)).fold_left(
                0int,
                |sum: int, count: int| sum + count,
            );
            if total <= usize::MAX {
                total
            } else {
                usize::MAX as int
            }
        }),
        forall|i: int|
            0 <= i < n ==> (resolve(objects, #[trigger] ids[i]) matches Ok((target, _)) && clean_streams(
                objects,
                ids,
                n,
                keywords,
            ).objects[target] == outcome(objects, ids[i], keywords)),
        forall|id: ObjectId|
            (forall|i: int|
                0 <= i < n ==> !(resolve(objects, #[trigger] ids[i]) matches Ok((target, _)) && target == id))
                && objects.contains_key(id) ==> #[trigger] clean_streams(objects, ids, n, keywords).objects[id]
                == objects[id],
    decreases n,
{
    reveal(Seq::filter);
    let state = clean_streams(objects, ids, n, keywords);
    let counting = |id: ObjectId| blocks_gone(objects, id, keywords);
    let keeping = |id: ObjectId| stays(objects, id, keywords);
    let adding = |sum: int, count: int| sum + count;
    if n == 0 {
        assert(ids.take(0) =~= Seq::<ObjectId>::empty());
        assert(ids.take(0).filter(keeping) =~= Seq::<ObjectId>::empty());
        assert(ids.take(0).map_values(counting) =~= Seq::<int>::empty());
    } else {
        let before = clean_streams(objects, ids, n - 1, keywords);
        lemma_streams_cleaned(objects, ids, n - 1, keywords);
        let id = ids[n - 1];
        lemma_kept_resolve(objects, before.objects, Set::empty(), id);
        let step = clean_stream(before.objects, id, keywords);
        assert(step.fault is None);
        let (target, value) = resolve(objects, id)->Ok_0;
        assert forall|i: int| 0 <= i < n - 1 implies !(resolve(objects, #[trigger] ids[i]) matches Ok((other, _))
            && other == target) by {
            assert(ids[i] == ids[i] && ids[n - 1] == id);
        }
        assert(before.objects[target] == value);
        lemma_kept_proper(objects, before.objects, Set::empty());
        lemma_resolved(before.objects, id);
        lemma_stream_kept(before.objects, id, keywords);
        lemma_kept_on(objects, before.objects, step.objects, Set::empty(), Set::empty());
        assert(Set::<ObjectId>::empty().union(Set::empty()) =~= Set::<ObjectId>::empty());
        assert(ids.take(n).drop_last() =~= ids.take(n - 1));
        assert(ids.take(n).last() == id);
        let counts = ids.take(n).map_values(counting);
        assert(counts.drop_last() =~= ids.take(n - 1).map_values(counting));
        if let Value::Stream(stream) = value {
            lemma_left_of(stream, keywords);
        }
        lemma_counts_add_up(ids.take(n - 1).map_values(counting));
        assert(step.objects[target] == outcome(objects, id, keywords));
        assert forall|i: int| 0 <= i < n implies (resolve(objects, #[trigger] ids[i]) matches Ok((other, _))
            && state.objects[other] == outcome(objects, ids[i], keywords)) by {
            if i < n - 1 {
                assert(ids[n - 1] == id);
            }
        }
    }
}

proof fn lemma_counts_add_up(counts: Seq<int>)
    requires
        forall|i: int| 0 <= i < counts.len() ==> 0 <= #[trigger] counts[i],
    ensures
        0 <= counts.fold_left(0int, |sum: int, count: int| sum + count),
    decreases counts.len(),
{
    if counts.len() > 0 {
        lemma_counts_add_up(counts.drop_last());
    }
}

/// A removal from a page whose content streams are different objects.
///
/// - The page refers to the streams that it referred to before, in the same order. Only what is no
///   stream goes, and a stream from which blocks were removed and which shows nothing any more.
/// - A stream from which blocks were removed gets what is left of it as its content, without filters.
///   Its other entries stay, and so do all other streams, the other entries of the page, and all
///   other objects.
/// - The blocks that are removed from all these streams are counted.
pub proof fn law_page_keeps_its_streams(
    objects: Map<ObjectId, Value>,
    page: ObjectId,
    keywords: Seq<Seq<char>>,
    target: ObjectId,
    dict: Seq<(Seq<u8>, Value)>,
    ids: Seq<ObjectId>,
)
    requires
        proper(objects),
        keywords.len() > 0,
        resolve(objects, page) == Ok::<(ObjectId, Value), Fault>((target, Value::Dictionary(dict))),
        content_streams(objects, dict) == Ok::<Option<Seq<ObjectId>>, Fault>(Some(ids)),
        lead_apart(objects, ids),
        removal_from_page(objects, page, keywords).1 is Ok,
    ensures
        ({
            let (after, result) = removal_from_page(objects, page, keywords);
            let lower = lowercase_texts(keywords);
            let kept = ids.filter(|id: ObjectId| stays(objects, id, lower));
            let total = ids.map_values(|id: ObjectId| blocks_gone(objects, id, lower)).fold_left(
                0int,
                |sum: int, count: int| sum + count,
            );
            &&& after.dom() == objects.dom()
            &&& after[target] matches Value::Dictionary(new_dict) && {
                &&& kept.len() == 0 ==> entry(new_dict, key("Contents")) is None
                &&& kept.len() == 1 ==> entry(new_dict, key("Contents")) == Some(Value::Reference(kept[0]))
                &&& kept.len() > 1 ==> (entry(new_dict, key("Contents")) matches Some(Value::Array(items))
                    && items.len() == kept.len() && forall|k: int|
                    0 <= k < kept.len() ==> #[trigger] items[k] == Value::Reference(kept[k]))
                &&& forall|name: Seq<u8>|
                    name != key("Contents") ==> #[trigger] entry(new_dict, name) == entry(dict, name)
            }
            &&& result == Ok::<nat, Fault>(
                if total <= usize::MAX {
                    total as nat
                } else {
                    usize::MAX as nat
                },
            )
            &&& forall|i: int|
                0 <= i < ids.len() ==> match resolve(objects, #[trigger] ids[i]) {
                    Ok((at, Value::Stream(stream))) => match left_of(stream, lower) {
                        Some(data) if !shows_no_more(data) => after[at] matches Value::Stream(new_stream) && {
                            &&& plain_content(new_stream) == Some(data)
                            &&& new_stream.content == data
                            &&& forall|name: Seq<u8>|
                                name != key("Length") && name != key("Filter") && name != key("DecodeParms")
                                    ==> #[trigger] entry(new_stream.dict, name) == entry(stream.dict, name)
                        },
                        _ => after[at] == objects[at],
                    },
                    _ => true,
                }
            &&& forall|id: ObjectId|
                objects.contains_key(id) && id != target && (forall|i: int|
                    0 <= i < ids.len() ==> !(resolve(objects, #[trigger] ids[i]) matches Ok((at, _)) && at == id))
                    ==> #[trigger] after[id] == objects[id]
        }),
{
    let (after, result) = removal_from_page(objects, page, keywords);
    let lower = lowercase_texts(keywords);
    let n = ids.len() as int;
    let state = clean_streams(objects, ids, n, lower);
    lemma_streams_cleaned(objects, ids, n, lower);
    assert(ids.take(n) =~= ids);
    let kept = ids.filter(|id: ObjectId| stays(objects, id, lower));
    assert(state.kept == kept);
    lemma_resolved(objects, page);
    lemma_kept_resolve(objects, state.objects, Set::empty(), page);
    assert(state.objects[target] == Value::Dictionary(dict));
    lemma_kept_proper(objects, state.objects, Set::empty());
    assert(after == state.objects.insert(target, Value::Dictionary(with_contents(dict, kept))));
    assert(distinct_names(dict)) by {
        assert(distinct_value(objects[target]));
    }
    lemma_without_entry(dict, key("Contents"));
    lemma_with_entry(dict, key("Contents"), Value::Reference(kept[0]));
    let array = Value::Array(Seq::new(kept.len(), |k: int| Value::Reference(kept[k])));
    lemma_with_entry(dict, key("Contents"), array);
    assert(after.dom() =~= objects.dom());
    assert forall|i: int| 0 <= i < ids.len() implies match resolve(objects, #[trigger] ids[i]) {
        Ok((at, Value::Stream(stream))) => match left_of(stream, lower) {
            Some(data) if !shows_no_more(data) => after[at] matches Value::Stream(new_stream) && {
                &&& plain_content(new_stream) == Some(data)
                &&& new_stream.content == data
                &&& forall|name: Seq<u8>|
                    name != key("Length") && name != key("Filter") && name != key("DecodeParms") ==> #[trigger] entry(
                        new_stream.dict,
                        name,
                    ) == entry(stream.dict, name)
            },
            _ => after[at] == objects[at],
        },
        _ => true,
    } by {
        lemma_resolved(objects, ids[i]);
        if let Ok((at, Value::Stream(stream))) = resolve(objects, ids[i]) {
            assert(at != target);
            assert(distinct_value(objects[at]));
            if let Some(data) = left_of(stream, lower) {
                lemma_written_stream(stream, data);
            }
        }
    }
}

/// A stream that gets a new content has it, without filters, and keeps its other entries.
proof fn lemma_written_stream(stream: StreamValue, data: Seq<u8>)
    requires
        distinct_names(stream.dict),
    ensures
        ({
            let after = with_plain_content(stream, data);
            &&& plain_content(after) == Some(data)
            &&& after.content == data
            &&& forall|name: Seq<u8>|
                name != key("Length") && name != key("Filter") && name != key("DecodeParms") ==> #[trigger] entry(
                    after.dict,
                    name,
                ) == entry(stream.dict, name)
        }),
{
    lemma_written(stream, data);
    let first = without_entry(stream.dict, key("DecodeParms"));
    let second = without_entry(first, key("Filter"));
    lemma_without_entry(stream.dict, key("DecodeParms"));
    lemma_without_entry(first, key("Filter"));
    lemma_with_entry(second, key("Length"), Value::Integer(data.len() as i64));
    let after = with_plain_content(stream, data).dict;
    assert forall|name: Seq<u8>|
        name != key("Length") && name != key("Filter") && name != key("DecodeParms") implies #[trigger] entry(
        after,
        name,
    ) == entry(stream.dict, name) by {
        assert(entry(after, name) == entry(second, name));
        assert(entry(second, name) == entry(first, name));
        assert(entry(first, name) == entry(stream.dict, name));
    }
}

/// A stream that is rewritten tells the length of its content, and no filters.
pub proof fn law_rewritten_stream_tells_its_length(stream: StreamValue, data: Seq<u8>)
    requires
        distinct_names(stream.dict),
    ensures
        with_plain_content(stream, data).content == data,
        plain_content(with_plain_content(stream, data)) == Some(data),
        entry(with_plain_content(stream, data).dict, key("Length")) == Some(Value::Integer(data.len() as i64)),
        entry(with_plain_content(stream, data).dict, key("Filter")) is None,
        entry(with_plain_content(stream, data).dict, key("DecodeParms")) is None,
{
    lemma_names();
    lemma_written(stream, data);
    let first = without_entry(stream.dict, key("DecodeParms"));
    let second = without_entry(first, key("Filter"));
    lemma_without_entry(stream.dict, key("DecodeParms"));
    lemma_without_entry(first, key("Filter"));
    lemma_with_entry(second, key("Length"), Value::Integer(data.len() as i64));
}

/// What a stream adds to the content of its page after a removal.
pub open spec fn shown_after(objects: Map<ObjectId, Value>, id: ObjectId, keywords: Seq<Seq<char>>) -> Seq<u8> {
    match resolve(objects, id) {
        Ok((_, Value::Stream(stream))) => match left_of(stream, keywords) {
            Some(data) => if shows_no_more(data) {
                Seq::empty()
            } else {
                data
            },
            None => match plain_content(stream) {
                Some(content) => content,
                None => Seq::empty(),
            },
        },
        _ => Seq::empty(),
    }
}

proof fn lemma_joined_references(
    objects: Map<ObjectId, Value>,
    ids: Seq<ObjectId>,
    n: int,
    content: spec_fn(ObjectId) -> Seq<u8>,
)
    requires
        0 <= n <= ids.len(),
        forall|i: int|
            0 <= i < n ==> (resolve(objects, #[trigger] ids[i]) matches Ok((_, Value::Stream(stream)))
                && content_or_empty(stream) == content(ids[i])),
    ensures
        joined_content(objects, Seq::new(ids.len(), |i: int| Value::Reference(ids[i])), n) == Ok::<Seq<u8>, Fault>(
            ids.take(n).map_values(content).flatten(),
        ),
    decreases n,
{
    if n > 0 {
        lemma_joined_references(objects, ids, n - 1, content);
        assert(resolve(objects, ids[n - 1]) is Ok);
        let before = ids.take(n - 1).map_values(content);
        assert(ids.take(n).map_values(content) =~= before.push(content(ids[n - 1])));
        before.lemma_flatten_push(content(ids[n - 1]));
    } else {
        assert(ids.take(0).map_values(content) =~= Seq::<Seq<u8>>::empty());
    }
}

proof fn lemma_kept_contents(ids: Seq<ObjectId>, keep: spec_fn(ObjectId) -> bool, content: spec_fn(ObjectId) -> Seq<u8>)
    requires
        forall|i: int| 0 <= i < ids.len() && !keep(#[trigger] ids[i]) ==> content(ids[i]).len() == 0,
    ensures
        ids.filter(keep).map_values(content).flatten() == ids.map_values(content).flatten(),
    decreases ids.len(),
{
    reveal(Seq::filter);
    if ids.len() > 0 {
        let shorter = ids.drop_last();
        assert forall|i: int| 0 <= i < shorter.len() && !keep(#[trigger] shorter[i]) implies content(shorter[i]).len()
            == 0 by {
            assert(shorter[i] == ids[i]);
        }
        lemma_kept_contents(shorter, keep, content);
        let last = ids.last();
        assert(last == ids[ids.len() - 1]);
        let all = shorter.map_values(content);
        assert(ids.map_values(content) =~= all.push(content(last)));
        all.lemma_flatten_push(content(last));
        let kept = shorter.filter(keep).map_values(content);
        if keep(last) {
            assert(ids.filter(keep).map_values(content) =~= kept.push(content(last)));
            kept.lemma_flatten_push(content(last));
        } else {
            assert(all.flatten() + content(last) =~= all.flatten());
        }
    } else {
        assert(ids.filter(keep) =~= ids);
    }
}

/// After a removal the content of a page is that of its content streams, one after the other: of a
/// stream without a block that matches all of it, of the others what is left. The streams have to be
/// different objects, and those that stay as they are have to be readable.
pub proof fn law_page_shows_all_that_is_left(
    objects: Map<ObjectId, Value>,
    page: ObjectId,
    keywords: Seq<Seq<char>>,
    target: ObjectId,
    dict: Seq<(Seq<u8>, Value)>,
    ids: Seq<ObjectId>,
)
    requires
        proper(objects),
        keywords.len() > 0,
        resolve(objects, page) == Ok::<(ObjectId, Value), Fault>((target, Value::Dictionary(dict))),
        content_streams(objects, dict) == Ok::<Option<Seq<ObjectId>>, Fault>(Some(ids)),
        lead_apart(objects, ids),
        removal_from_page(objects, page, keywords).1 is Ok,
        forall|i: int|
            0 <= i < ids.len() ==> match resolve(objects, #[trigger] ids[i]) {
                Ok((_, Value::Stream(stream))) => plain_content(stream) is Some,
                _ => true,
            },
    ensures
        page_content(removal_from_page(objects, page, keywords).0, page) == Ok::<Seq<u8>, Fault>(
            ids.map_values(|id: ObjectId| shown_after(objects, id, lowercase_texts(keywords))).flatten(),
        ),
{
    reveal(Seq::filter);
    let lower = lowercase_texts(keywords);
    let after = removal_from_page(objects, page, keywords).0;
    let keep = |id: ObjectId| stays(objects, id, lower);
    let content = |id: ObjectId| shown_after(objects, id, lower);
    let kept = ids.filter(keep);
    law_page_keeps_its_streams(objects, page, keywords, target, dict, ids);
    law_page_removal_keeps_the_rest(objects, page, keywords);
    lemma_resolved(objects, page);
    lemma_kept_resolve(objects, after, page_target(objects, page), page);
    lemma_kept_contents(ids, keep, content);
    broadcast use vstd::seq_lib::group_filter_ensures;

    assert forall|k: int| 0 <= k < kept.len() implies (resolve(after, #[trigger] kept[k]) matches Ok(
        (_, Value::Stream(stream)),
    ) && plain_content(stream) == Some(content(kept[k]))) by {
        let id = kept[k];
        assert(keep(kept[k]));
        lemma_from_filter(ids, keep, k);
        let i = choose|i: int| 0 <= i < ids.len() && #[trigger] ids[i] == id;
        assert(ids[i] == id);
        lemma_kept_resolve(objects, after, page_target(objects, page), id);
        lemma_resolved(objects, id);
    }
    lemma_joined_references(after, kept, kept.len() as int, content);
    assert(kept.take(kept.len() as int) =~= kept);
    let new_dict = after[target]->Dictionary_0;
    if kept.len() == 0 {
        assert(kept.map_values(content) =~= Seq::<Seq<u8>>::empty());
    } else if kept.len() == 1 {
        assert(resolve(after, kept[0]) is Ok);
        assert(kept.map_values(content) =~= seq![content(kept[0])]);
        kept.map_values(content).lemma_flatten_one_element();
    } else {
        let items = entry(new_dict, key("Contents"))->Some_0->Array_0;
        assert(items =~= Seq::new(kept.len(), |k: int| Value::Reference(kept[k])));
    }
}

proof fn lemma_from_filter(ids: Seq<ObjectId>, keep: spec_fn(ObjectId) -> bool, k: int)
    requires
        0 <= k < ids.filter(keep).len(),
    ensures
        exists|i: int| 0 <= i < ids.len() && #[trigger] ids[i] == ids.filter(keep)[k],
    decreases ids.len(),
{
    reveal(Seq::filter);
    if ids.len() > 0 {
        let shorter = ids.drop_last();
        if k < shorter.filter(keep).len() {
            lemma_from_filter(shorter, keep, k);
            let i = choose|i: int| 0 <= i < shorter.len() && #[trigger] shorter[i] == shorter.filter(keep)[k];
            assert(ids[i] == shorter[i]);
        } else {
            assert(ids[ids.len() - 1] == ids.filter(keep)[k]);
        }
    }
}

/// A page of which no block matches loses nothing: where all its contents are streams, it has the
/// same content streams as before, every stream stays as it is, and nothing is counted. This is so
/// also where it has a stream more than once.
pub proof fn law_unmatched_page_stays(
    objects: Map<ObjectId, Value>,
    page: ObjectId,
    keywords: Seq<Seq<char>>,
    target: ObjectId,
    dict: Seq<(Seq<u8>, Value)>,
    ids: Seq<ObjectId>,
)
    requires
        proper(objects),
        resolve(objects, page) == Ok::<(ObjectId, Value), Fault>((target, Value::Dictionary(dict))),
        content_streams(objects, dict) == Ok::<Option<Seq<ObjectId>>, Fault>(Some(ids)),
        forall|i: int|
            0 <= i < ids.len() ==> (resolve(objects, #[trigger] ids[i]) matches Ok((_, Value::Stream(stream)))
                && forall|j: int|
                0 <= j < text_blocks(operations_of(content_or_empty(stream))).len() ==> !block_matches(
                    (#[trigger] text_blocks(operations_of(content_or_empty(stream)))[j]).text,
                    lowercase_texts(keywords),
                )),
    ensures
        ({
            let (after, result) = removal_from_page(objects, page, keywords);
            &&& result == Ok::<nat, Fault>(0)
            &&& after[target] matches Value::Dictionary(new_dict) && content_streams(after, new_dict) == (if ids.len()
                == 0 && keywords.len() > 0 {
                Ok::<Option<Seq<ObjectId>>, Fault>(None)
            } else {
                Ok(Some(ids))
            })
            &&& forall|id: ObjectId| objects.contains_key(id) && id != target ==> #[trigger] after[id] == objects[id]
        }),
{
    let (after, result) = removal_from_page(objects, page, keywords);
    let lower = lowercase_texts(keywords);
    lemma_resolved(objects, page);
    if keywords.len() > 0 {
        assert forall|i: int| 0 <= i < ids.len() implies stream_is_clean(objects, #[trigger] ids[i], lower) && (resolve(
            objects,
            ids[i],
        ) matches Ok((_, Value::Stream(_)))) by {
            let stream = resolve(objects, ids[i])->Ok_0.1->Stream_0;
            law_count_tells_matches(operations_of(content_or_empty(stream)), lower);
        }
        lemma_kept_idle(objects, ids, ids.len() as int, lower);
        assert(ids.take(ids.len() as int) =~= ids);
        assert(distinct_value(objects[target]));
        lemma_contents_kept(objects, page, ids);
        lemma_kept_resolve(objects, after, page_target(objects, page), page);
        lemma_without_entry(dict, key("Contents"));
        let array = Seq::new(ids.len(), |i: int| Value::Reference(ids[i]));
        lemma_with_entry(dict, key("Contents"), Value::Array(array));
        lemma_references(ids, ids.len() as int);
        if ids.len() == 1 {
            lemma_with_entry(dict, key("Contents"), Value::Reference(ids[0]));
            assert(resolve(objects, ids[0]) is Ok);
            lemma_kept_resolve(objects, after, page_target(objects, page), ids[0]);
            assert(seq![ids[0]] =~= ids);
        }
    }
}

proof fn lemma_first_stream_fault(
    objects: Map<ObjectId, Value>,
    ids: Seq<ObjectId>,
    n: int,
    keywords: Seq<Seq<char>>,
)
    requires
        proper(objects),
        0 <= n <= ids.len(),
    ensures
        match clean_streams(objects, ids, n, keywords).fault {
            None => forall|i: int| 0 <= i < n ==> resolve(objects, #[trigger] ids[i]) is Ok,
            Some(fault) => exists|i: int|
                0 <= i < n && resolve(objects, #[trigger] ids[i]) == Err::<(ObjectId, Value), Fault>(fault)
                    && forall|j: int| 0 <= j < i ==> resolve(objects, #[trigger] ids[j]) is Ok,
        },
    decreases n,
{
    if n > 0 {
        lemma_first_stream_fault(objects, ids, n - 1, keywords);
        lemma_streams_kept(objects, ids, n - 1, keywords);
        let before = clean_streams(objects, ids, n - 1, keywords);
        lemma_kept_resolve(objects, before.objects, Set::empty(), ids[n - 1]);
        if let Some(fault) = before.fault {
            let i = choose|i: int|
                0 <= i < n - 1 && resolve(objects, #[trigger] ids[i]) == Err::<(ObjectId, Value), Fault>(fault)
                    && forall|j: int| 0 <= j < i ==> resolve(objects, #[trigger] ids[j]) is Ok;
            assert(resolve(objects, ids[i]) == Err::<(ObjectId, Value), Fault>(fault));
        } else if let Err(fault) = resolve(objects, ids[n - 1]) {
            assert(resolve(objects, ids[n - 1]) == Err::<(ObjectId, Value), Fault>(fault));
        }
    }
}

/// A removal from a page fails if and only if a number leads nowhere: that of the page, that of its
/// contents, or that of one of its content streams. The first such fault is told. What is no page or
/// has no contents stays as it is, and so does everything without keywords.
pub proof fn law_page_removal_fails_for_missing_objects(
    objects: Map<ObjectId, Value>,
    page: ObjectId,
    keywords: Seq<Seq<char>>,
)
    requires
        proper(objects),
    ensures
        ({
            let (after, result) = removal_from_page(objects, page, keywords);
            &&& keywords.len() == 0 ==> after == objects && result == Ok::<nat, Fault>(0)
            &&& keywords.len() > 0 ==> match resolve(objects, page) {
                Err(fault) => after == objects && result == Err::<nat, Fault>(fault),
                Ok((_, Value::Dictionary(dict))) => match content_streams(objects, dict) {
                    Err(fault) => after == objects && result == Err::<nat, Fault>(fault),
                    Ok(None) => after == objects && result == Ok::<nat, Fault>(0),
                    Ok(Some(ids)) => match result {
                        Ok(_) => forall|i: int| 0 <= i < ids.len() ==> resolve(objects, #[trigger] ids[i]) is Ok,
                        Err(fault) => exists|i: int|
                            0 <= i < ids.len() && resolve(objects, #[trigger] ids[i]) == Err::<
                                (ObjectId, Value),
                                Fault,
                            >(fault) && forall|j: int| 0 <= j < i ==> resolve(objects, #[trigger] ids[j]) is Ok,
                    },
                },
                Ok(_) => after == objects && result == Ok::<nat, Fault>(0),
            }
        }),
{
    if let Ok((_, Value::Dictionary(dict))) = resolve(objects, page) {
        if let Ok(Some(ids)) = content_streams(objects, dict) {
            let lower = lowercase_texts(keywords);
            lemma_first_stream_fault(objects, ids, ids.len() as int, lower);
            lemma_streams_kept(objects, ids, ids.len() as int, lower);
            let state = clean_streams(objects, ids, ids.len() as int, lower);
            lemma_kept_resolve(objects, state.objects, Set::empty(), page);
        }
    }
}

proof fn lemma_first_streams(
    objects: Map<ObjectId, Value>,
    ids: Seq<ObjectId>,
    others: Seq<ObjectId>,
    n: int,
    keywords: Seq<Seq<char>>,
)
    requires
        forall|i: int| 0 <= i < n ==> #[trigger] ids[i] == others[i],
    ensures
        clean_streams(objects, ids, n, keywords) == clean_streams(objects, others, n, keywords),
        clean_streams(objects, ids, n, keywords).removed <= usize::MAX,
    decreases n,
{
    if n > 0 {
        assert(ids[n - 1] == others[n - 1]);
        lemma_first_streams(objects, ids, others, n - 1, keywords);
    }
}

proof fn lemma_more_streams(
    objects: Map<ObjectId, Value>,
    ids: Seq<ObjectId>,
    more: Seq<ObjectId>,
    n: int,
    keywords: Seq<Seq<char>>,
)
    requires
        0 <= n <= more.len(),
    ensures
        ({
            let first = clean_streams(objects, ids, ids.len() as int, keywords);
            let second = clean_streams(first.objects, more, n, keywords);
            clean_streams(objects, ids + more, ids.len() + n, keywords) == (if first.fault is Some {
                first
            } else {
                PageState {
                    kept: first.kept + second.kept,
                    removed: add_counts(first.removed, second.removed),
                    ..second
                }
            })
        }),
    decreases n,
{
    let first = clean_streams(objects, ids, ids.len() as int, keywords);
    lemma_first_streams(objects, ids + more, ids, ids.len() as int, keywords);
    let second = clean_streams(first.objects, more, n, keywords);
    if n > 0 {
        lemma_more_streams(objects, ids, more, n - 1, keywords);
        assert((ids + more)[ids.len() + n - 1] == more[n - 1]);
        let before = clean_streams(first.objects, more, n - 1, keywords);
        assert((first.kept + before.kept).push(more[n - 1]) =~= first.kept + before.kept.push(more[n - 1]));
    } else {
        assert(first.kept + second.kept =~= first.kept);
    }
}

/// The content streams of a page are cleaned one after the other, also where one comes twice: to clean
/// those of two lists is to clean those of the first and then those of the second. What is kept of
/// both is kept in order, and the blocks removed add up.
pub proof fn law_streams_are_cleaned_in_turn(
    objects: Map<ObjectId, Value>,
    ids: Seq<ObjectId>,
    more: Seq<ObjectId>,
    keywords: Seq<Seq<char>>,
)
    ensures
        ({
            let first = clean_streams(objects, ids, ids.len() as int, keywords);
            let second = clean_streams(first.objects, more, more.len() as int, keywords);
            let both = clean_streams(objects, ids + more, (ids + more).len() as int, keywords);
            if first.fault is Some {
                both == first
            } else {
                &&& both.objects == second.objects
                &&& both.kept == first.kept + second.kept
                &&& both.fault == second.fault
                &&& first.removed + second.removed <= usize::MAX ==> both.removed == first.removed + second.removed
            }
        }),
{
    lemma_more_streams(objects, ids, more, more.len() as int, keywords);
}

} // verus!
