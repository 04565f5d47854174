//! The content of a page: reading it, and removing text blocks from it.

use crate::blocks::{block_values, extract_text_blocks, text_blocks};
use crate::clean::{
    at_most_one_stream, changed_are_clean, clean_ones, is_clean, is_rewritable, law_clean_page_lacks_keyword,
    lemma_clean_on, lemma_contents_clean, lemma_no_keywords_clean, lemma_plain_stripped, lemma_stay_good,
    lemma_stream_stays, lemma_written_clean, page_is, page_is_clean, rewritable_ones, stream_is, stream_is_clean,
};
use crate::content::{decode_content_or_empty, encode_operations, operations_of, written};
use crate::frame::{
    law_content_reads_back, lemma_contents_kept, lemma_kept_more, lemma_kept_on, lemma_kept_resolve, lemma_stream_kept,
    objects_kept, page_target, proper_at,
};
use crate::pdf::{
    decompressed_content, dictionary_get, dictionary_remove, dictionary_set, document_objects, document_trailer,
    get_object, get_object_mut, lemma_resolved, plain_content, plain_operations, resolve, set_plain_content,
    show_the_same, with_plain_content, Fault, PdfError,
};
use crate::strip::{matching_count, strip_operations, stripped};
use crate::text::{
    block_matches, block_matches_keywords, collapsed, from_utf8_lossy, lossy_text, lowercase, lowercase_keywords,
    lowercase_texts, occurs, texts, white_space,
};
use crate::value::{
    dictionary_entries, entry, key, lemma_array_value, object_value, object_values, operation_values, stream_value,
    with_entry, without_entry, StreamValue, Value,
};
use lopdf::{Dictionary, Document, Object, ObjectId, Stream};
use vstd::prelude::*;

verus! {

/// The content of a stream with its filters undone; nothing if they cannot be.
pub open spec fn content_or_empty(stream: StreamValue) -> Seq<u8> {
    match plain_content(stream) {
        Some(content) => content,
        None => Seq::empty(),
    }
}

/// The content of the stream without the text blocks that match one of the keywords, and the
/// number of blocks removed: `None` if no block matches or if the rest cannot be written.
pub open spec fn strip_content(stream: StreamValue, keywords: Seq<Seq<char>>) -> Option<(Seq<u8>, nat)> {
    let ops = operations_of(content_or_empty(stream));
    if matching_count(ops, keywords) == 0 {
        None
    } else {
        match written(stripped(ops, keywords)) {
            Some(data) => Some((data, matching_count(ops, keywords))),
            None => None,
        }
    }
}

/// Whether a text holds nothing but white space and the operators `q` and `Q`.
pub open spec fn is_shell(text: Seq<char>) -> bool {
    forall|i: int| 0 <= i < text.len() ==> white_space(#[trigger] text[i]) || text[i] == 'q' || text[i] == 'Q'
}

/// The references among the first `n` values.
pub open spec fn references(values: Seq<Value>, n: int) -> Seq<ObjectId>
    decreases n,
{
    if n <= 0 {
        Seq::empty()
    } else {
        match values[n - 1] {
            Value::Reference(id) => references(values, n - 1).push(id),
            _ => references(values, n - 1),
        }
    }
}

/// The content streams of a page with this dictionary: `None` if it has no contents.
pub open spec fn content_streams(
    objects: Map<ObjectId, Value>,
    dict: Seq<(Seq<u8>, Value)>,
) -> Result<Option<Seq<ObjectId>>, Fault> {
    match entry(dict, key("Contents")) {
        Some(Value::Reference(id)) => match resolve(objects, id) {
            Ok((_, Value::Array(items))) => Ok(Some(references(items, items.len() as int))),
            Ok(_) => Ok(Some(seq![id])),
            Err(fault) => Err(fault),
        },
        Some(Value::Array(items)) => Ok(Some(references(items, items.len() as int))),
        _ => Ok(None),
    }
}

/// The contents of the streams among the first `n` values, with references followed, one after
/// the other. A stream whose filters cannot be undone has none.
pub open spec fn joined_content(objects: Map<ObjectId, Value>, values: Seq<Value>, n: int) -> Result<Seq<u8>, Fault>
    decreases n,
{
    if n <= 0 {
        Ok(Seq::empty())
    } else {
        match joined_content(objects, values, n - 1) {
            Err(fault) => Err(fault),
            Ok(before) => match (match values[n - 1] {
                Value::Reference(id) => resolve(objects, id),
                value => Ok(((0u32, 0u16), value)),
            }) {
                Ok((_, Value::Stream(stream))) => Ok(before + content_or_empty(stream)),
                Ok(_) => Ok(before),
                Err(fault) => Err(fault),
            },
        }
    }
}

/// The content of a page: of its one stream, or of all the streams of its array.
pub open spec fn page_content(objects: Map<ObjectId, Value>, page: ObjectId) -> Result<Seq<u8>, Fault> {
    match resolve(objects, page) {
        Ok((_, Value::Dictionary(dict))) => match entry(dict, key("Contents")) {
            Some(Value::Reference(id)) => match resolve(objects, id) {
                Ok((_, Value::Stream(stream))) => match plain_content(stream) {
                    Some(content) => Ok(content),
                    None => Err(Fault::Undecodable),
                },
                Ok((_, Value::Array(items))) => joined_content(objects, items, items.len() as int),
                Ok(_) => Ok(Seq::empty()),
                Err(fault) => Err(fault),
            },
            Some(Value::Array(items)) => joined_content(objects, items, items.len() as int),
            _ => Ok(Seq::empty()),
        },
        Ok(_) => Ok(Seq::empty()),
        Err(fault) => Err(fault),
    }
}

/// Whether the content of a page has a text block that contains the keyword, which is in lower
/// case.
pub open spec fn content_has_keyword(content: Seq<u8>, keyword: Seq<char>) -> bool {
    let blocks = text_blocks(operations_of(content));
    exists|i: int| 0 <= i < blocks.len() && block_matches((#[trigger] blocks[i]).text, seq![keyword])
}

/// Whether the content of a page has a text block that shows this text, with its white space
/// collapsed.
pub open spec fn content_shows_text(content: Seq<u8>, text: Seq<char>) -> bool {
    let blocks = text_blocks(operations_of(content));
    exists|i: int| 0 <= i < blocks.len() && collapsed((#[trigger] blocks[i]).text) == text
}

/// A text that is shown is found as a keyword.
pub proof fn lemma_shown_text(content: Seq<u8>, text: Seq<char>)
    requires
        content_shows_text(content, text),
        lowercase(text).len() > 0,
    ensures
        content_has_keyword(content, lowercase(text)),
{
    let blocks = text_blocks(operations_of(content));
    let i = choose|i: int| 0 <= i < blocks.len() && collapsed((#[trigger] blocks[i]).text) == text;
    let lower = lowercase(text);
    let one = seq![lower];
    assert(lower.subrange(0, 0int + lower.len()) =~= lower);
    assert(occurs(one[0], lower));
    assert(block_matches(blocks[i].text, one));
}

/// The sum of two counts, as far as a machine word counts.
pub open spec fn add_counts(a: nat, b: nat) -> nat {
    if a + b <= usize::MAX {
        a + b
    } else {
        usize::MAX as nat
    }
}

/// What becomes of one content stream.
pub struct StreamOutcome {
    /// The objects of the document.
    pub objects: Map<ObjectId, Value>,
    /// The number of blocks removed.
    pub removed: nat,
    /// Whether the page keeps the stream.
    pub kept: bool,
    /// What stopped the cleaning.
    pub fault: Option<Fault>,
}

/// Cleans one content stream. A stream from which blocks are removed and which shows nothing any
/// more is not kept.
pub open spec fn clean_stream(
    objects: Map<ObjectId, Value>,
    id: ObjectId,
    keywords: Seq<Seq<char>>,
) -> StreamOutcome {
    match resolve(objects, id) {
        Ok((target, Value::Stream(stream))) => match strip_content(stream, keywords) {
            None => StreamOutcome { objects, removed: 0, kept: true, fault: None },
            Some((data, count)) => if is_shell(lossy_text(data)) {
                StreamOutcome { objects, removed: count, kept: false, fault: None }
            } else {
                StreamOutcome {
                    objects: objects.insert(target, Value::Stream(with_plain_content(stream, data))),
                    removed: count,
                    kept: true,
                    fault: None,
                }
            },
        },
        Ok(_) => StreamOutcome { objects, removed: 0, kept: false, fault: None },
        Err(fault) => StreamOutcome { objects, removed: 0, kept: false, fault: Some(fault) },
    }
}

/// How far the cleaning of a page has come.
pub struct PageState {
    /// The objects of the document.
    pub objects: Map<ObjectId, Value>,
    /// The content streams that the page keeps.
    pub kept: Seq<ObjectId>,
    /// The number of blocks removed.
    pub removed: nat,
    /// What stopped the cleaning.
    pub fault: Option<Fault>,
}

/// Cleans the first `n` content streams, one after the other, as far as there is no fault.
pub open spec fn clean_streams(
    objects: Map<ObjectId, Value>,
    ids: Seq<ObjectId>,
    n: int,
    keywords: Seq<Seq<char>>,
) -> PageState
    decreases n,
{
    if n <= 0 {
        PageState { objects, kept: Seq::empty(), removed: 0, fault: None }
    } else {
        let state = clean_streams(objects, ids, n - 1, keywords);
        if state.fault is Some {
            state
        } else {
            let outcome = clean_stream(state.objects, ids[n - 1], keywords);
            PageState {
                objects: outcome.objects,
                kept: if outcome.kept {
                    state.kept.push(ids[n - 1])
                } else {
                    state.kept
                },
                removed: add_counts(state.removed, outcome.removed),
                fault: outcome.fault,
            }
        }
    }
}

/// The dictionary of a page that keeps these content streams: one is referred to as it is, more
/// by an array.
pub open spec fn with_contents(dict: Seq<(Seq<u8>, Value)>, kept: Seq<ObjectId>) -> Seq<(Seq<u8>, Value)> {
    if kept.len() == 0 {
        without_entry(dict, key("Contents"))
    } else if kept.len() == 1 {
        with_entry(dict, key("Contents"), Value::Reference(kept[0]))
    } else {
        with_entry(
            dict,
            key("Contents"),
            Value::Array(Seq::new(kept.len(), |i: int| Value::Reference(kept[i]))),
        )
    }
}

/// The objects once the page keeps only these content streams.
pub open spec fn set_contents(
    objects: Map<ObjectId, Value>,
    page: ObjectId,
    kept: Seq<ObjectId>,
) -> (Map<ObjectId, Value>, Option<Fault>) {
    match resolve(objects, page) {
        Ok((target, Value::Dictionary(dict))) => (
            objects.insert(target, Value::Dictionary(with_contents(dict, kept))),
            None,
        ),
        Ok(_) => (objects, None),
        Err(fault) => (objects, Some(fault)),
    }
}

/// The objects once the text blocks that match one of the keywords are removed from a page, and
/// the number of blocks removed. The keywords are in lower case.
pub open spec fn clean_page(
    objects: Map<ObjectId, Value>,
    page: ObjectId,
    keywords: Seq<Seq<char>>,
) -> (Map<ObjectId, Value>, Result<nat, Fault>) {
    match resolve(objects, page) {
        Ok((_, Value::Dictionary(dict))) => match content_streams(objects, dict) {
            Ok(Some(ids)) => {
                let state = clean_streams(objects, ids, ids.len() as int, keywords);
                match state.fault {
                    Some(fault) => (state.objects, Err(fault)),
                    None => match set_contents(state.objects, page, state.kept) {
                        (after, None) => (after, Ok(state.removed)),
                        (after, Some(fault)) => (after, Err(fault)),
                    },
                }
            },
            Ok(None) => (objects, Ok(0)),
            Err(fault) => (objects, Err(fault)),
        },
        Ok(_) => (objects, Ok(0)),
        Err(fault) => (objects, Err(fault)),
    }
}

/// The objects once the text blocks that contain one of the keywords, whatever its case, are
/// removed from a page, and the number of blocks removed. Without keywords nothing is done.
pub open spec fn removal_from_page(
    objects: Map<ObjectId, Value>,
    page: ObjectId,
    keywords: Seq<Seq<char>>,
) -> (Map<ObjectId, Value>, Result<nat, Fault>) {
    if keywords.len() == 0 {
        (objects, Ok(0))
    } else {
        clean_page(objects, page, lowercase_texts(keywords))
    }
}

/// The content of a stream with its filters undone.
fn stream_content(stream: &Stream) -> (r: Result<Vec<u8>, PdfError>)
    ensures
        match plain_content(stream_value(*stream)) {
            Some(content) => r matches Ok(bytes) && bytes@ == content,
            None => r matches Err(error) && error@ == Fault::Undecodable,
        },
{
    let bare = match dictionary_get(&stream.dict, "Filter") {
        None => true,
        Some(Object::Array(items)) => {
            proof {
                lemma_array_value(*items);
            }
            items.len() == 0
        },
        Some(_) => false,
    };
    if bare {
        let content = stream.content.clone();
        assert(content@ =~= stream.content@);
        return Ok(content);
    }
    match decompressed_content(stream) {
        Ok(content) => Ok(content),
        Err(error) => Err(PdfError::Undecodable(error)),
    }
}

/// The content of a stream with its filters undone; nothing if they cannot be.
pub(crate) fn stream_content_or_empty(stream: &Stream) -> (r: Vec<u8>)
    ensures
        r@ == content_or_empty(stream_value(*stream)),
{
    match stream_content(stream) {
        Ok(content) => content,
        Err(_) => Vec::new(),
    }
}

/// The content of the stream without the text blocks that match one of the keywords, and the
/// number of blocks removed: `None` if no block matches or if the rest cannot be written.
pub(crate) fn strip_stream(stream: &Stream, kws: &[String]) -> (r: Option<(Vec<u8>, usize)>)
    ensures
        match strip_content(stream_value(*stream), texts(kws@)) {
            Some((data, count)) => r matches Some((bytes, removed)) && bytes@ == data && removed == count,
            None => r is None,
        },
        is_rewritable(stream_value(*stream), texts(kws@)) ==> match r {
            Some((bytes, _)) => matching_count(operations_of(bytes@), texts(kws@)) == 0 && show_the_same(
                operations_of(bytes@),
                stripped(operations_of(content_or_empty(stream_value(*stream))), texts(kws@)),
            ),
            None => is_clean(stream_value(*stream), texts(kws@)),
        },
{
    let raw = stream_content_or_empty(stream);
    let operations = decode_content_or_empty(raw.as_slice());
    let ghost ops = operation_values(operations@);
    let (rest, removed) = strip_operations(operations, kws);
    if removed == 0 {
        return None;
    }
    proof {
        if plain_operations(ops) {
            lemma_plain_stripped(ops, texts(kws@));
        }
    }
    match encode_operations(rest) {
        Some(bytes) => {
            proof {
                if is_rewritable(stream_value(*stream), texts(kws@)) {
                    lemma_written_clean(ops, bytes@, texts(kws@));
                }
            }
            Some((bytes, removed))
        },
        None => None,
    }
}

/// Whether a text holds nothing but white space and the operators `q` and `Q`.
pub fn shows_nothing(text: &str) -> (r: bool)
    ensures
        r == is_shell(text@),
{
    for c in chars: text.chars()
        invariant
            chars.seq() == text@,
            forall|i: int|
                0 <= i < chars.index() ==> white_space(#[trigger] text@[i]) || text@[i] == 'q' || text@[i] == 'Q',
    {
        assert(c == text@[chars.index()]);
        if !c.is_whitespace() && c != 'q' && c != 'Q' {
            return false;
        }
    }
    true
}

/// The references in an array.
fn array_references(items: &[Object]) -> (r: Vec<ObjectId>)
    ensures
        r@ == references(object_values(items@), items@.len() as int),
{
    let ghost values = object_values(items@);
    let mut ids: Vec<ObjectId> = Vec::new();
    for i in 0..items.len()
        invariant
            values == object_values(items@),
            ids@ == references(values, i as int),
    {
        assert(values[i as int] == object_value(items@[i as int]));
        if let Object::Reference(id) = &items[i] {
            ids.push(*id);
        }
    }
    ids
}

/// The content streams of a page with this dictionary: `None` if it has no contents.
fn page_streams(doc: &Document, dict: &Dictionary) -> (r: Result<Option<Vec<ObjectId>>, PdfError>)
    ensures
        match content_streams(document_objects(*doc), dictionary_entries(*dict)) {
            Ok(Some(ids)) => r matches Ok(Some(found)) && found@ == ids,
            Ok(None) => r matches Ok(None),
            Err(fault) => r matches Err(error) && error@ == fault,
        },
{
    match dictionary_get(dict, "Contents") {
        Some(Object::Reference(id)) => match get_object(doc, *id) {
            Ok(Object::Array(items)) => {
                proof {
                    lemma_array_value(*items);
                }
                let ids = array_references(items.as_slice());
                Ok(Some(ids))
            },
            Ok(_) => {
                let ids: Vec<ObjectId> = vec![*id];
                assert(ids@ =~= seq![*id]);
                Ok(Some(ids))
            },
            Err(error) => Err(error),
        },
        Some(Object::Array(items)) => {
            proof {
                lemma_array_value(*items);
            }
            let ids = array_references(items.as_slice());
            Ok(Some(ids))
        },
        _ => Ok(None),
    }
}

/// Cleans one content stream: gives the number of blocks removed and whether the page keeps the
/// stream.
fn clean_content_stream(doc: &mut Document, id: ObjectId, kws: &[String]) -> (r: Result<(usize, bool), PdfError>)
    ensures
        document_trailer(*final(doc)) == document_trailer(*old(doc)),
        ({
            let outcome = clean_stream(document_objects(*old(doc)), id, texts(kws@));
            &&& document_objects(*final(doc)) == outcome.objects
            &&& match r {
                Ok((removed, kept)) => outcome.fault is None && outcome.removed == removed && outcome.kept == kept,
                Err(error) => outcome.fault == Some(error@),
            }
        }),
        objects_kept(document_objects(*old(doc)), document_objects(*final(doc)), Set::empty()),
        stream_is(document_objects(*old(doc)), id, rewritable_ones(texts(kws@))) ==> changed_are_clean(
            document_objects(*old(doc)),
            document_objects(*final(doc)),
            texts(kws@),
        ) && (r matches Ok((_, true)) ==> stream_is_clean(document_objects(*final(doc)), id, texts(kws@)) && (resolve(
            document_objects(*final(doc)),
            id,
        ) matches Ok((_, Value::Stream(_))))),
{
    let ghost before = document_objects(*doc);
    let ghost keywords = texts(kws@);
    proof {
        lemma_resolved(before, id);
    }
    let (data, removed) = match get_object(doc, id) {
        Ok(Object::Stream(stream)) => match strip_stream(stream, kws) {
            Some((data, removed)) => (data, removed),
            None => return Ok((0, true)),
        },
        Ok(_) => return Ok((0, false)),
        Err(error) => return Err(error),
    };
    if shows_nothing(from_utf8_lossy(data.as_slice()).as_str()) {
        return Ok((removed, false));
    }
    match get_object_mut(doc, id) {
        Ok(Object::Stream(stream)) => {
            let ghost old_stream = stream_value(*stream);
            let ghost bytes = data@;
            set_plain_content(stream, data);
            proof {
                law_content_reads_back(old_stream, bytes);
                lemma_stream_kept(before, id, keywords);
                lemma_kept_resolve(before, clean_stream(before, id, keywords).objects, Set::empty(), id);
            }
            Ok((removed, true))
        },
        Ok(_) => Ok((removed, true)),
        Err(error) => Err(error),
    }
}

/// An array of references.
fn reference_array(ids: &[ObjectId]) -> (r: Object)
    ensures
        object_value(r) == Value::Array(Seq::new(ids@.len(), |i: int| Value::Reference(ids@[i]))),
{
    let mut items: Vec<Object> = Vec::new();
    for i in 0..ids.len()
        invariant
            items@.len() == i,
            forall|j: int| 0 <= j < i ==> #[trigger] items@[j] == Object::Reference(ids@[j]),
    {
        items.push(Object::Reference(ids[i]));
    }
    proof {
        lemma_array_value(items);
        assert(object_values(items@) =~= Seq::new(ids@.len(), |i: int| Value::Reference(ids@[i])));
    }
    Object::Array(items)
}

/// Lets the page keep only these content streams.
fn keep_contents(doc: &mut Document, page_id: ObjectId, kept: &[ObjectId]) -> (r: Result<(), PdfError>)
    ensures
        document_trailer(*final(doc)) == document_trailer(*old(doc)),
        document_objects(*final(doc)) == set_contents(document_objects(*old(doc)), page_id, kept@).0,
        objects_kept(
            document_objects(*old(doc)),
            document_objects(*final(doc)),
            page_target(document_objects(*old(doc)), page_id),
        ),
        proper_at(document_objects(*old(doc)), page_id),
        match set_contents(document_objects(*old(doc)), page_id, kept@).1 {
            None => r is Ok,
            Some(fault) => r matches Err(error) && error@ == fault,
        },
{
    proof {
        lemma_resolved(document_objects(*old(doc)), page_id);
    }
    match get_object_mut(doc, page_id) {
        Ok(Object::Dictionary(dict)) => {
            proof {
                lemma_contents_kept(document_objects(*old(doc)), page_id, kept@);
            }
            if kept.len() == 0 {
                dictionary_remove(dict, "Contents");
            } else if kept.len() == 1 {
                dictionary_set(dict, "Contents", Object::Reference(kept[0]));
            } else {
                dictionary_set(dict, "Contents", reference_array(kept));
            }
            Ok(())
        },
        Ok(_) => Ok(()),
        Err(error) => Err(error),
    }
}

/// Removes the text blocks that match one of the keywords, which are in lower case, from a page.
fn clean_page_contents(doc: &mut Document, page_id: ObjectId, kws: &[String]) -> (r: Result<usize, PdfError>)
    ensures
        document_trailer(*final(doc)) == document_trailer(*old(doc)),
        document_objects(*final(doc)) == clean_page(document_objects(*old(doc)), page_id, texts(kws@)).0,
        match clean_page(document_objects(*old(doc)), page_id, texts(kws@)).1 {
            Ok(count) => r matches Ok(removed) && removed == count,
            Err(fault) => r matches Err(error) && error@ == fault,
        },
        objects_kept(
            document_objects(*old(doc)),
            document_objects(*final(doc)),
            page_target(document_objects(*old(doc)), page_id),
        ),
        page_is(document_objects(*old(doc)), page_id, rewritable_ones(texts(kws@))) ==> changed_are_clean(
            document_objects(*old(doc)),
            document_objects(*final(doc)),
            texts(kws@),
        ) && (r is Ok ==> {
            &&& page_is_clean(document_objects(*final(doc)), page_id, texts(kws@))
            &&& clean_page(document_objects(*final(doc)), page_id, texts(kws@)) == (
                document_objects(*final(doc)),
                Ok::<nat, Fault>(0),
            )
            &&& at_most_one_stream(document_objects(*old(doc)), page_id) ==> at_most_one_stream(
                document_objects(*final(doc)),
                page_id,
            )
        }),
{
    let ghost first = document_objects(*doc);
    let ghost keywords = texts(kws@);
    let ids = match get_object(doc, page_id) {
        Ok(Object::Dictionary(dict)) => match page_streams(doc, dict) {
            Ok(Some(ids)) => ids,
            Ok(None) => return Ok(0),
            Err(error) => return Err(error),
        },
        Ok(_) => return Ok(0),
        Err(error) => return Err(error),
    };
    let mut removed_total: usize = 0;
    let mut kept: Vec<ObjectId> = Vec::new();
    for i in 0..ids.len()
        invariant
            resolve(document_objects(*old(doc)), page_id) matches Ok((_, Value::Dictionary(dict))) && content_streams(
                document_objects(*old(doc)),
                dict,
            ) == Ok::<Option<Seq<ObjectId>>, Fault>(Some(ids@)),
            document_trailer(*doc) == document_trailer(*old(doc)),
            clean_streams(document_objects(*old(doc)), ids@, i as int, texts(kws@)) == (PageState {
                objects: document_objects(*doc),
                kept: kept@,
                removed: removed_total as nat,
                fault: None,
            }),
            first == document_objects(*old(doc)),
            keywords == texts(kws@),
            objects_kept(first, document_objects(*doc), Set::empty()),
            kept@.len() <= i,
            page_is(first, page_id, rewritable_ones(keywords)) ==> {
                &&& changed_are_clean(first, document_objects(*doc), keywords)
                &&& forall|k: int|
                    0 <= k < ids@.len() ==> stream_is(
                        document_objects(*doc),
                        #[trigger] ids@[k],
                        rewritable_ones(keywords),
                    )
                &&& forall|k: int|
                    0 <= k < kept@.len() ==> stream_is_clean(document_objects(*doc), #[trigger] kept@[k], keywords) && (
                    resolve(document_objects(*doc), kept@[k]) matches Ok((_, Value::Stream(_))))
            },
    {
        let ghost before = document_objects(*doc);
        let ghost kept_before = kept@;
        let result = clean_content_stream(doc, ids[i], kws);
        let ghost after = document_objects(*doc);
        proof {
            lemma_kept_on(first, before, after, Set::empty(), Set::empty());
            assert(Set::<ObjectId>::empty().union(Set::empty()) =~= Set::<ObjectId>::empty());
            lemma_kept_more(first, after, Set::empty(), page_target(first, page_id));
            if page_is(first, page_id, rewritable_ones(keywords)) {
                assert(stream_is(before, ids@[i as int], rewritable_ones(keywords)));
                lemma_clean_on(first, before, after, keywords);
                lemma_stay_good(before, after, keywords);
                assert forall|k: int| 0 <= k < ids@.len() implies stream_is(
                    after,
                    #[trigger] ids@[k],
                    rewritable_ones(keywords),
                ) by {
                    lemma_stream_stays(before, after, Set::empty(), rewritable_ones(keywords), ids@[k]);
                }
                assert forall|k: int| 0 <= k < kept_before.len() implies stream_is_clean(
                    after,
                    #[trigger] kept_before[k],
                    keywords,
                ) && (resolve(after, kept_before[k]) matches Ok((_, Value::Stream(_)))) by {
                    lemma_stream_stays(before, after, Set::empty(), clean_ones(keywords), kept_before[k]);
                    lemma_kept_resolve(before, after, Set::empty(), kept_before[k]);
                }
            }
        }
        match result {
            Ok((removed, keep)) => {
                removed_total = removed_total.saturating_add(removed);
                if keep {
                    kept.push(ids[i]);
                }
            },
            Err(error) => {
                proof {
                    lemma_fault_stays(document_objects(*old(doc)), ids@, i + 1, ids@.len() as int, texts(kws@));
                }
                return Err(error);
            },
        }
    }
    let ghost cleaned = document_objects(*doc);
    proof {
        lemma_kept_resolve(first, cleaned, Set::empty(), page_id);
        assert(page_target(cleaned, page_id) =~= page_target(first, page_id));
    }
    let result = keep_contents(doc, page_id, kept.as_slice());
    proof {
        lemma_kept_on(first, cleaned, document_objects(*doc), Set::empty(), page_target(first, page_id));
        assert(Set::<ObjectId>::empty().union(page_target(first, page_id)) =~= page_target(first, page_id));
        if page_is(first, page_id, rewritable_ones(keywords)) {
            lemma_contents_clean(cleaned, page_id, kept@, keywords);
            lemma_clean_on(first, cleaned, document_objects(*doc), keywords);
        }
    }
    match result {
        Ok(()) => Ok(removed_total),
        Err(error) => Err(error),
    }
}

proof fn lemma_fault_stays(
    objects: Map<ObjectId, Value>,
    ids: Seq<ObjectId>,
    n: int,
    m: int,
    keywords: Seq<Seq<char>>,
)
    requires
        n <= m,
        clean_streams(objects, ids, n, keywords).fault is Some,
    ensures
        clean_streams(objects, ids, m, keywords) == clean_streams(objects, ids, n, keywords),
    decreases m - n,
{
    if n < m {
        lemma_fault_stays(objects, ids, n, m - 1, keywords);
        if m <= 0 {
            assert(clean_streams(objects, ids, n, keywords).fault is None);
        }
    }
}

/// Removes the text blocks that contain one of the keywords, whatever its case, from a page.
/// Gives the number of blocks removed. A stream that shows nothing any more is dropped. A page
/// may have one content stream or an array of them.
///
/// Where what is written to its content streams can be read again, no content stream of the page has
/// a block that matches afterwards, a page with one content stream does not show the keywords any
/// more, and a second removal removes nothing and changes nothing.
pub fn remove_watermarks_from_page(doc: &mut Document, page_id: ObjectId, keywords: &[String]) -> (r: Result<
    usize,
    PdfError,
>)
    ensures
        document_trailer(*final(doc)) == document_trailer(*old(doc)),
        document_objects(*final(doc)) == removal_from_page(document_objects(*old(doc)), page_id, texts(keywords@)).0,
        match removal_from_page(document_objects(*old(doc)), page_id, texts(keywords@)).1 {
            Ok(count) => r matches Ok(removed) && removed == count,
            Err(fault) => r matches Err(error) && error@ == fault,
        },
        objects_kept(
            document_objects(*old(doc)),
            document_objects(*final(doc)),
            page_target(document_objects(*old(doc)), page_id),
        ),
        ({
            let lower = lowercase_texts(texts(keywords@));
            page_is(document_objects(*old(doc)), page_id, rewritable_ones(lower)) ==> changed_are_clean(
                document_objects(*old(doc)),
                document_objects(*final(doc)),
                lower,
            ) && (r is Ok ==> {
                &&& page_is_clean(document_objects(*final(doc)), page_id, lower)
                &&& removal_from_page(document_objects(*final(doc)), page_id, texts(keywords@)) == (
                    document_objects(*final(doc)),
                    Ok::<nat, Fault>(0),
                )
                &&& at_most_one_stream(document_objects(*old(doc)), page_id) ==> forall|i: int|
                    0 <= i < keywords@.len() ==> !page_shows(
                        document_objects(*final(doc)),
                        page_id,
                        lowercase((#[trigger] keywords@[i])@),
                    )
            })
        }),
{
    let ghost all = texts(keywords@);
    if keywords.len() == 0 {
        proof {
            lemma_no_keywords_clean(document_objects(*doc), page_id, lowercase_texts(all));
        }
        return Ok(0);
    }
    let kws = lowercase_keywords(keywords);
    let result = clean_page_contents(doc, page_id, kws.as_slice());
    proof {
        let after = document_objects(*doc);
        if page_is(document_objects(*old(doc)), page_id, rewritable_ones(lowercase_texts(all))) && result is Ok
            && at_most_one_stream(document_objects(*old(doc)), page_id) {
            assert forall|i: int| 0 <= i < keywords@.len() implies !page_shows(
                after,
                page_id,
                lowercase((#[trigger] keywords@[i])@),
            ) by {
                law_clean_page_lacks_keyword(after, page_id, all, i);
                assert(all[i] == keywords@[i]@);
            }
        }
    }
    result
}

/// The contents of the streams in an array, one after the other.
fn joined_content_bytes(doc: &Document, items: &[Object]) -> (r: Result<Vec<u8>, PdfError>)
    ensures
        match joined_content(document_objects(*doc), object_values(items@), items@.len() as int) {
            Ok(content) => r matches Ok(bytes) && bytes@ == content,
            Err(fault) => r matches Err(error) && error@ == fault,
        },
{
    let ghost values = object_values(items@);
    let mut out: Vec<u8> = Vec::new();
    for i in 0..items.len()
        invariant
            values == object_values(items@),
            joined_content(document_objects(*doc), values, i as int) == Ok::<Seq<u8>, Fault>(out@),
    {
        assert(values[i as int] == object_value(items@[i as int]));
        let object = match &items[i] {
            Object::Reference(id) => match get_object(doc, *id) {
                Ok(object) => object,
                Err(error) => {
                    proof {
                        lemma_joined_fault(document_objects(*doc), values, i + 1, items@.len() as int);
                    }
                    return Err(error);
                },
            },
            other => other,
        };
        if let Object::Stream(stream) = object {
            let mut content = stream_content_or_empty(stream);
            out.append(&mut content);
        }
    }
    Ok(out)
}

proof fn lemma_joined_fault(objects: Map<ObjectId, Value>, values: Seq<Value>, n: int, m: int)
    requires
        n <= m,
        joined_content(objects, values, n) is Err,
    ensures
        joined_content(objects, values, m) == joined_content(objects, values, n),
    decreases m - n,
{
    if n < m {
        lemma_joined_fault(objects, values, n, m - 1);
    }
}

/// The content of a page, with filters undone: of its one stream, or of all the streams of its
/// array.
pub fn page_content_bytes(doc: &Document, page_id: ObjectId) -> (r: Result<Vec<u8>, PdfError>)
    ensures
        match page_content(document_objects(*doc), page_id) {
            Ok(content) => r matches Ok(bytes) && bytes@ == content,
            Err(fault) => r matches Err(error) && error@ == fault,
        },
{
    let dict = match get_object(doc, page_id) {
        Ok(Object::Dictionary(dict)) => dict,
        Ok(_) => return Ok(Vec::new()),
        Err(error) => return Err(error),
    };
    match dictionary_get(dict, "Contents") {
        Some(Object::Reference(id)) => match get_object(doc, *id) {
            Ok(Object::Stream(stream)) => stream_content(stream),
            Ok(Object::Array(items)) => {
                proof {
                    lemma_array_value(*items);
                }
                joined_content_bytes(doc, items.as_slice())
            },
            Ok(_) => Ok(Vec::new()),
            Err(error) => Err(error),
        },
        Some(Object::Array(items)) => {
            proof {
                lemma_array_value(*items);
            }
            joined_content_bytes(doc, items.as_slice())
        },
        _ => Ok(Vec::new()),
    }
}

/// Whether a content stream has a text block that contains the keyword, whatever its case.
pub fn content_contains_keyword(data: &[u8], keyword: &str) -> (r: bool)
    ensures
        r == content_has_keyword(data@, lowercase(keyword@)),
        keyword@.len() > 0 && content_shows_text(data@, keyword@) ==> r,
        keyword@.len() == 0 ==> !r,
{
    let operations = decode_content_or_empty(data);
    let blocks = extract_text_blocks(operations.as_slice());
    let lower = keyword.to_lowercase();
    proof {
        if keyword@.len() > 0 && content_shows_text(data@, keyword@) {
            lemma_shown_text(data@, keyword@);
        }
    }
    let kws: Vec<String> = vec![lower];
    assert(texts(kws@) =~= seq![lowercase(keyword@)]);
    let ghost values = text_blocks(operations_of(data@));
    for i in 0..blocks.len()
        invariant
            values == text_blocks(operations_of(data@)),
            block_values(blocks@) == values,
            texts(kws@) == seq![lowercase(keyword@)],
            keyword@.len() == 0 ==> lowercase(keyword@).len() == 0,
            forall|j: int|
                0 <= j < i ==> !block_matches((#[trigger] values[j]).text, seq![lowercase(keyword@)]),
    {
        assert(values[i as int] == blocks@[i as int]@);
        if block_matches_keywords(blocks[i].text.as_str(), kws.as_slice()) {
            return true;
        }
    }
    assert(values.len() == blocks@.len());
    false
}

/// Whether the content of a page can be read and has a text block that contains the keyword, which
/// is in lower case.
pub open spec fn page_shows(objects: Map<ObjectId, Value>, page: ObjectId, keyword: Seq<char>) -> bool {
    match page_content(objects, page) {
        Ok(content) => content_has_keyword(content, keyword),
        Err(_) => false,
    }
}

/// Whether the content of the page still has a text block that contains the keyword, whatever
/// its case. A page whose content cannot be read has none.
pub fn page_has_keyword(doc: &Document, page_id: ObjectId, keyword: &str) -> (r: bool)
    ensures
        r == page_shows(document_objects(*doc), page_id, lowercase(keyword@)),
        keyword@.len() > 0 && (page_content(document_objects(*doc), page_id) matches Ok(content) && content_shows_text(
            content,
            keyword@,
        )) ==> r,
        keyword@.len() == 0 ==> !r,
{
    match page_content_bytes(doc, page_id) {
        Ok(content) => content_contains_keyword(content.as_slice(), keyword),
        Err(_) => false,
    }
}

} // verus!
