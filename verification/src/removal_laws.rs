//! What a removal from a whole document reports, and on what it depends.

use crate::clean::{
    changed_are_clean, clean_ones, form_is, forms_apart, forms_are_clean, lemma_contents_clean, lemma_fewer_apart,
    lemma_other_page_stays, lemma_stay_good, lemma_stays_apart, page_and_forms_are_clean, page_is_clean,
    stream_is_clean,
};
use crate::content::operations_of;
use crate::document::{clean_pages, page_objects, removal, DocumentState};
use crate::form_laws::{
    draws, is_path, law_clean_forms_match_nothing, law_drawn_objects_are_found, lemma_found_references, matches_nothing,
};
use crate::forms::{
    clean_form, clean_forms, drawn_objects, is_form, lemma_numbers_left, numbers_left, removal_from_forms,
};
use crate::frame::{
    law_page_removal_keeps_the_rest, law_removal_keeps_the_rest, lemma_kept_on, lemma_kept_proper, lemma_kept_resolve,
    lemma_page_targets, objects_kept, page_target, page_targets, proper,
};
use crate::page::{add_counts, clean_streams, content_or_empty, content_streams, removal_from_page, strip_content};
use crate::pdf::{lemma_resolved, page_list, resolve, Fault};
use crate::strip_laws::{law_count_tells_matches, law_empty_keywords_match_nothing};
use crate::text::lowercase_texts;
use crate::value::{entry, key, StreamValue, Value};
use lopdf::ObjectId;
use vstd::prelude::*;

verus! {

proof fn lemma_counts(objects: Map<ObjectId, Value>, pages: Seq<ObjectId>, n: int, keywords: Seq<Seq<char>>)
    requires
        n <= usize::MAX,
    ensures
        clean_pages(objects, pages, n, keywords).touched <= if n < 0 {
            0
        } else {
            n
        },
        clean_pages(objects, pages, n, keywords).touched <= clean_pages(objects, pages, n, keywords).removed,
    decreases n,
{
    if n > 0 {
        lemma_counts(objects, pages, n - 1, keywords);
    }
}

/// No more pages are touched than there are, and no more than blocks are removed.
pub proof fn law_counts_agree(
    objects: Map<ObjectId, Value>,
    trailer: Seq<(Seq<u8>, Value)>,
    keywords: Seq<Seq<char>>,
)
    requires
        page_list(objects, trailer).len() <= usize::MAX,
    ensures
        removal(objects, trailer, keywords).touched <= page_list(objects, trailer).len(),
        removal(objects, trailer, keywords).touched <= removal(objects, trailer, keywords).removed,
{
    lemma_counts(objects, page_list(objects, trailer), page_list(objects, trailer).len() as int, keywords);
}

proof fn lemma_same_pages(
    objects: Map<ObjectId, Value>,
    pages: Seq<ObjectId>,
    n: int,
    keywords: Seq<Seq<char>>,
    others: Seq<Seq<char>>,
)
    requires
        lowercase_texts(keywords) == lowercase_texts(others),
    ensures
        clean_pages(objects, pages, n, keywords) == clean_pages(objects, pages, n, others),
    decreases n,
{
    assert(lowercase_texts(keywords).len() == keywords.len());
    assert(lowercase_texts(others).len() == others.len());
    if n > 0 {
        lemma_same_pages(objects, pages, n - 1, keywords, others);
    }
}

/// The case of keywords does not matter: those that are alike in lower case remove the same.
pub proof fn law_removal_ignores_case(
    objects: Map<ObjectId, Value>,
    trailer: Seq<(Seq<u8>, Value)>,
    keywords: Seq<Seq<char>>,
    others: Seq<Seq<char>>,
)
    requires
        lowercase_texts(keywords) == lowercase_texts(others),
    ensures
        removal(objects, trailer, keywords) == removal(objects, trailer, others),
{
    lemma_same_pages(objects, page_list(objects, trailer), page_list(objects, trailer).len() as int, keywords, others);
}

proof fn lemma_nothing_stripped(stream: StreamValue, keywords: Seq<Seq<char>>)
    requires
        keywords.len() == 0,
    ensures
        strip_content(stream, keywords) is None,
{
    law_empty_keywords_match_nothing(operations_of(content_or_empty(stream)), keywords);
}

proof fn lemma_form_untouched(
    objects: Map<ObjectId, Value>,
    id: ObjectId,
    keywords: Seq<Seq<char>>,
    open: Seq<ObjectId>,
)
    requires
        keywords.len() == 0,
    ensures
        clean_form(objects, id, keywords, open).objects == objects,
        clean_form(objects, id, keywords, open).removed == 0,
    decreases numbers_left(open), 0int,
{
    if let Ok((target, Value::Stream(form))) = resolve(objects, id) {
        if is_form(form.dict) && !open.contains(id) {
            lemma_nothing_stripped(form, keywords);
            lemma_numbers_left(open, id);
            let inner = drawn_objects(objects, form.dict);
            lemma_forms_untouched(objects, inner, inner.len() as int, keywords, open.push(id));
        }
    }
}

proof fn lemma_forms_untouched(
    objects: Map<ObjectId, Value>,
    ids: Seq<ObjectId>,
    n: int,
    keywords: Seq<Seq<char>>,
    open: Seq<ObjectId>,
)
    requires
        keywords.len() == 0,
    ensures
        clean_forms(objects, ids, n, keywords, open).objects == objects,
        clean_forms(objects, ids, n, keywords, open).removed == 0,
    decreases numbers_left(open), n,
{
    if n > 0 {
        lemma_forms_untouched(objects, ids, n - 1, keywords, open);
        lemma_form_untouched(objects, ids[n - 1], keywords, open);
    }
}

proof fn lemma_pages_untouched(
    objects: Map<ObjectId, Value>,
    pages: Seq<ObjectId>,
    n: int,
    keywords: Seq<Seq<char>>,
)
    requires
        keywords.len() == 0,
    ensures
        clean_pages(objects, pages, n, keywords).objects == objects,
        clean_pages(objects, pages, n, keywords).removed == 0,
        clean_pages(objects, pages, n, keywords).touched == 0,
    decreases n,
{
    if n > 0 {
        lemma_pages_untouched(objects, pages, n - 1, keywords);
        let drawn = page_objects(objects, pages[n - 1]);
        lemma_forms_untouched(objects, drawn, drawn.len() as int, lowercase_texts(keywords), Seq::empty());
    }
}

/// Without keywords no object changes and nothing is removed.
pub proof fn law_no_keywords_no_removal(
    objects: Map<ObjectId, Value>,
    trailer: Seq<(Seq<u8>, Value)>,
    keywords: Seq<Seq<char>>,
)
    requires
        keywords.len() == 0,
    ensures
        removal(objects, trailer, keywords).objects == objects,
        removal(objects, trailer, keywords).removed == 0,
        removal(objects, trailer, keywords).touched == 0,
{
    lemma_pages_untouched(objects, page_list(objects, trailer), page_list(objects, trailer).len() as int, keywords);
}

/// Clean content streams stay as they are, and nothing is removed from them.
proof fn lemma_clean_streams_idle(
    objects: Map<ObjectId, Value>,
    ids: Seq<ObjectId>,
    n: int,
    keywords: Seq<Seq<char>>,
)
    requires
        n <= ids.len(),
        forall|i: int| 0 <= i < ids.len() ==> stream_is_clean(objects, #[trigger] ids[i], keywords),
    ensures
        clean_streams(objects, ids, n, keywords).objects == objects,
        clean_streams(objects, ids, n, keywords).removed == 0,
        forall|k: int|
            0 <= k < clean_streams(objects, ids, n, keywords).kept.len() ==> stream_is_clean(
                objects,
                #[trigger] clean_streams(objects, ids, n, keywords).kept[k],
                keywords,
            ) && (resolve(objects, clean_streams(objects, ids, n, keywords).kept[k]) matches Ok(
                (_, Value::Stream(_)),
            )),
    decreases n,
{
    if n > 0 {
        lemma_clean_streams_idle(objects, ids, n - 1, keywords);
        assert(stream_is_clean(objects, ids[n - 1], keywords));
    }
}

/// Nothing is removed from a clean page. It may refer to its content streams in another way.
proof fn lemma_clean_page_idle(objects: Map<ObjectId, Value>, page: ObjectId, keywords: Seq<Seq<char>>)
    requires
        proper(objects),
        page_is_clean(objects, page, lowercase_texts(keywords)),
    ensures
        removal_from_page(objects, page, keywords).1 matches Ok(count) ==> count == 0,
        changed_are_clean(objects, removal_from_page(objects, page, keywords).0, lowercase_texts(keywords)),
        removal_from_page(objects, page, keywords).1 is Ok ==> page_is_clean(
            removal_from_page(objects, page, keywords).0,
            page,
            lowercase_texts(keywords),
        ),
{
    let lower = lowercase_texts(keywords);
    lemma_resolved(objects, page);
    if keywords.len() > 0 {
        if let Ok((_, Value::Dictionary(dict))) = resolve(objects, page) {
            if let Ok(Some(ids)) = content_streams(objects, dict) {
                lemma_clean_streams_idle(objects, ids, ids.len() as int, lower);
                let state = clean_streams(objects, ids, ids.len() as int, lower);
                if state.fault is None {
                    lemma_contents_clean(objects, page, state.kept, lower);
                }
            }
        }
    }
}

/// Clean forms stay as they are, and nothing is removed from them.
proof fn lemma_clean_form_idle(
    objects: Map<ObjectId, Value>,
    id: ObjectId,
    keywords: Seq<Seq<char>>,
    open: Seq<ObjectId>,
)
    requires
        form_is(objects, id, clean_ones(keywords), open),
    ensures
        clean_form(objects, id, keywords, open).objects == objects,
        clean_form(objects, id, keywords, open).removed == 0,
    decreases numbers_left(open), 0int,
{
    if let Ok((target, Value::Stream(form))) = resolve(objects, id) {
        if is_form(form.dict) && !open.contains(id) {
            lemma_numbers_left(open, id);
            let inner = drawn_objects(objects, form.dict);
            lemma_clean_forms_idle(objects, inner, inner.len() as int, keywords, open.push(id));
        }
    }
}

proof fn lemma_clean_forms_idle(
    objects: Map<ObjectId, Value>,
    ids: Seq<ObjectId>,
    n: int,
    keywords: Seq<Seq<char>>,
    open: Seq<ObjectId>,
)
    requires
        forms_are_clean(objects, ids, n, keywords, open),
    ensures
        clean_forms(objects, ids, n, keywords, open).objects == objects,
        clean_forms(objects, ids, n, keywords, open).removed == 0,
    decreases numbers_left(open), n,
{
    if n > 0 {
        lemma_clean_forms_idle(objects, ids, n - 1, keywords, open);
        lemma_clean_form_idle(objects, ids[n - 1], keywords, open);
    }
}

proof fn lemma_clean_pages_idle(objects: Map<ObjectId, Value>, pages: Seq<ObjectId>, n: int, keywords: Seq<Seq<char>>)
    requires
        proper(objects),
        forms_apart(objects, page_targets(objects, pages, pages.len() as int)),
        n <= pages.len(),
        forall|p: int|
            0 <= p < pages.len() ==> page_and_forms_are_clean(objects, #[trigger] pages[p], lowercase_texts(keywords)),
    ensures
        clean_pages(objects, pages, n, keywords).removed == 0,
        clean_pages(objects, pages, n, keywords).touched == 0,
        objects_kept(
            objects,
            clean_pages(objects, pages, n, keywords).objects,
            page_targets(objects, pages, pages.len() as int),
        ),
        clean_pages(objects, pages, n, keywords).fault is None ==> forall|p: int|
            0 <= p < pages.len() ==> page_and_forms_are_clean(
                clean_pages(objects, pages, n, keywords).objects,
                #[trigger] pages[p],
                lowercase_texts(keywords),
            ),
    decreases n,
{
    if n > 0 {
        let lower = lowercase_texts(keywords);
        let targets = page_targets(objects, pages, pages.len() as int);
        lemma_clean_pages_idle(objects, pages, n - 1, keywords);
        let state = clean_pages(objects, pages, n - 1, keywords);
        if state.fault is None {
            let page = pages[n - 1];
            let before = state.objects;
            lemma_kept_proper(objects, before, targets);
            lemma_resolved(before, page);
            lemma_kept_resolve(objects, before, targets, page);
            assert(page_target(before, page) =~= page_target(objects, page));
            lemma_page_targets(objects, pages, n - 1);
            lemma_stays_apart(objects, before, targets, targets);
            lemma_fewer_apart(before, targets, page_target(before, page));
            assert(page_and_forms_are_clean(before, page, lower));
            lemma_clean_page_idle(before, page, keywords);
            law_page_removal_keeps_the_rest(before, page, keywords);
            let (after, result) = removal_from_page(before, page, keywords);
            lemma_kept_on(objects, before, after, targets, page_target(before, page));
            assert(targets.union(page_target(before, page)) =~= targets);
            if result is Ok {
                lemma_stay_good(before, after, lower);
                assert forall|p: int| 0 <= p < pages.len() implies page_and_forms_are_clean(
                    after,
                    #[trigger] pages[p],
                    lower,
                ) by {
                    lemma_other_page_stays(before, after, clean_ones(lower), page, pages[p]);
                }
                assert(page_and_forms_are_clean(after, page, lower));
                let drawn = page_objects(after, page);
                lemma_clean_forms_idle(after, drawn, drawn.len() as int, lower, Seq::empty());
            }
        }
    }
}

/// A second removal finds nothing: where the pages and the forms that they draw are clean, no
/// block is removed and no page is touched. No page may be used as a dictionary of external objects.
pub proof fn law_clean_documents_have_nothing_to_remove(
    objects: Map<ObjectId, Value>,
    trailer: Seq<(Seq<u8>, Value)>,
    keywords: Seq<Seq<char>>,
)
    requires
        proper(objects),
        forms_apart(
            objects,
            page_targets(objects, page_list(objects, trailer), page_list(objects, trailer).len() as int),
        ),
        forall|p: int|
            0 <= p < page_list(objects, trailer).len() ==> page_and_forms_are_clean(
                objects,
                #[trigger] page_list(objects, trailer)[p],
                lowercase_texts(keywords),
            ),
    ensures
        removal(objects, trailer, keywords).removed == 0,
        removal(objects, trailer, keywords).touched == 0,
{
    let pages = page_list(objects, trailer);
    lemma_clean_pages_idle(objects, pages, pages.len() as int, keywords);
}

proof fn lemma_page_counts_small(
    objects: Map<ObjectId, Value>,
    pages: Seq<ObjectId>,
    n: int,
    keywords: Seq<Seq<char>>,
)
    ensures
        clean_pages(objects, pages, n, keywords).removed <= usize::MAX,
    decreases n,
{
    if n > 0 {
        lemma_page_counts_small(objects, pages, n - 1, keywords);
    }
}

proof fn lemma_first_pages(
    objects: Map<ObjectId, Value>,
    pages: Seq<ObjectId>,
    others: Seq<ObjectId>,
    n: int,
    keywords: Seq<Seq<char>>,
)
    requires
        forall|i: int| 0 <= i < n ==> #[trigger] pages[i] == others[i],
    ensures
        clean_pages(objects, pages, n, keywords) == clean_pages(objects, others, n, keywords),
    decreases n,
{
    if n > 0 {
        assert(pages[n - 1] == others[n - 1]);
        lemma_first_pages(objects, pages, others, n - 1, keywords);
    }
}

proof fn lemma_more_pages(
    objects: Map<ObjectId, Value>,
    pages: Seq<ObjectId>,
    more: Seq<ObjectId>,
    n: int,
    keywords: Seq<Seq<char>>,
)
    requires
        0 <= n <= more.len(),
    ensures
        ({
            let first = clean_pages(objects, pages, pages.len() as int, keywords);
            let second = clean_pages(first.objects, more, n, keywords);
            clean_pages(objects, pages + more, pages.len() + n, keywords) == (if first.fault is Some {
                first
            } else {
                DocumentState {
                    removed: add_counts(first.removed, second.removed),
                    touched: first.touched + second.touched,
                    ..second
                }
            })
        }),
    decreases n,
{
    lemma_page_counts_small(objects, pages, pages.len() as int, keywords);
    lemma_first_pages(objects, pages + more, pages, pages.len() as int, keywords);
    if n > 0 {
        lemma_more_pages(objects, pages, more, n - 1, keywords);
        assert((pages + more)[pages.len() + n - 1] == more[n - 1]);
    }
}

/// Pages are cleaned one after the other: to clean two lists of pages is to clean the first and then
/// the second, unless there is a fault, and the blocks removed and the pages touched add up.
pub proof fn law_pages_are_cleaned_in_turn(
    objects: Map<ObjectId, Value>,
    pages: Seq<ObjectId>,
    more: Seq<ObjectId>,
    keywords: Seq<Seq<char>>,
)
    ensures
        ({
            let first = clean_pages(objects, pages, pages.len() as int, keywords);
            let second = clean_pages(first.objects, more, more.len() as int, keywords);
            let both = clean_pages(objects, pages + more, (pages + more).len() as int, keywords);
            if first.fault is Some {
                both == first
            } else {
                &&& both.objects == second.objects
                &&& both.fault == second.fault
                &&& both.touched == first.touched + second.touched
                &&& first.removed + second.removed <= usize::MAX ==> both.removed == first.removed + second.removed
            }
        }),
{
    lemma_more_pages(objects, pages, more, more.len() as int, keywords);
}

/// No page is cleaned where there is none. Of one page its own content is cleaned, and then the forms
/// that its resources name. It is touched if a block of its own content was removed.
pub proof fn law_each_page_is_cleaned(objects: Map<ObjectId, Value>, page: ObjectId, keywords: Seq<Seq<char>>)
    ensures
        clean_pages(objects, Seq::empty(), 0, keywords) == (DocumentState {
            objects,
            removed: 0,
            touched: 0,
            fault: None,
        }),
        match removal_from_page(objects, page, keywords) {
            (after, Err(fault)) => clean_pages(objects, seq![page], 1, keywords) == (DocumentState {
                objects: after,
                removed: 0,
                touched: 0,
                fault: Some(fault),
            }),
            (after, Ok(count)) => {
                let drawn = page_objects(after, page);
                let forms = removal_from_forms(after, drawn, keywords);
                let state = clean_pages(objects, seq![page], 1, keywords);
                &&& forall|id: ObjectId| #[trigger] drawn.contains(id) <==> (resolve(after, page) matches Ok(
                    (_, Value::Dictionary(dict)),
                ) && draws(after, dict, id))
                &&& state.objects == forms.objects
                &&& state.fault == forms.fault
                &&& count + forms.removed <= usize::MAX ==> state.removed == count + forms.removed
                &&& state.touched == if count > 0 {
                    1nat
                } else {
                    0nat
                }
            },
        },
{
    reveal_with_fuel(clean_pages, 2);
    let start = clean_pages(objects, seq![page], 0, keywords);
    assert(start == (DocumentState { objects, removed: 0, touched: 0, fault: None }));
    if let (after, Ok(_)) = removal_from_page(objects, page, keywords) {
        let drawn = page_objects(after, page);
        assert forall|id: ObjectId| #[trigger] drawn.contains(id) <==> (resolve(after, page) matches Ok(
            (_, Value::Dictionary(dict)),
        ) && draws(after, dict, id)) by {
            if let Ok((_, Value::Dictionary(dict))) = resolve(after, page) {
                law_drawn_objects_are_found(after, dict, id);
            }
        }
    }
}

/// Whether a page refers to a content stream: by its `Contents` entry, or in an array there that is
/// given directly or by reference.
pub open spec fn refers_to_content(
    objects: Map<ObjectId, Value>,
    dict: Seq<(Seq<u8>, Value)>,
    id: ObjectId,
) -> bool {
    match entry(dict, key("Contents")) {
        Some(Value::Array(items)) => exists|i: int|
            0 <= i < items.len() && #[trigger] items[i] == Value::Reference(id),
        Some(Value::Reference(at)) => match resolve(objects, at) {
            Ok((_, Value::Array(items))) => exists|i: int|
                0 <= i < items.len() && #[trigger] items[i] == Value::Reference(id),
            Ok((_, Value::Stream(_))) => id == at,
            _ => false,
        },
        _ => false,
    }
}

/// Where a page and the forms that it draws are clean, no block matches of a content stream that the
/// page refers to, nor of a form that its resources name, nor of the forms that these draw, at any
/// depth.
pub proof fn law_clean_page_matches_nothing(
    objects: Map<ObjectId, Value>,
    page: ObjectId,
    keywords: Seq<Seq<char>>,
    target: ObjectId,
    dict: Seq<(Seq<u8>, Value)>,
)
    requires
        page_and_forms_are_clean(objects, page, keywords),
        resolve(objects, page) == Ok::<(ObjectId, Value), Fault>((target, Value::Dictionary(dict))),
    ensures
        forall|id: ObjectId| #[trigger]
            refers_to_content(objects, dict, id) ==> (resolve(objects, id) matches Ok((_, Value::Stream(stream)))
                ==> matches_nothing(stream, keywords)),
        forall|ids: Seq<ObjectId>, path: Seq<ObjectId>|
            (forall|id: ObjectId| #[trigger] ids.contains(id) ==> draws(objects, dict, id)) && #[trigger] is_path(
                objects,
                ids,
                path,
            ) ==> (resolve(objects, path.last()) matches Ok((_, Value::Stream(form))) ==> entry(
                form.dict,
                key("Subtype"),
            ) == Some(Value::Name(key("Form"))) ==> matches_nothing(form, keywords)),
{
    assert forall|id: ObjectId| #[trigger] refers_to_content(objects, dict, id) implies (resolve(
        objects,
        id,
    ) matches Ok((_, Value::Stream(stream))) ==> matches_nothing(stream, keywords)) by {
        let ids = content_streams(objects, dict)->Ok_0->Some_0;
        match entry(dict, key("Contents")) {
            Some(Value::Array(items)) => {
                lemma_found_references(items, items.len() as int, id);
            },
            Some(Value::Reference(at)) => {
                if let Ok((_, Value::Array(items))) = resolve(objects, at) {
                    lemma_found_references(items, items.len() as int, id);
                } else {
                    assert(ids[0] == id);
                }
            },
            _ => {},
        }
        let i = choose|i: int| 0 <= i < ids.len() && ids[i] == id;
        assert(stream_is_clean(objects, ids[i], keywords));
        if let Ok((_, Value::Stream(stream))) = resolve(objects, id) {
            law_count_tells_matches(operations_of(content_or_empty(stream)), keywords);
        }
    }
    let drawn = drawn_objects(objects, dict);
    assert forall|ids: Seq<ObjectId>, path: Seq<ObjectId>|
        (forall|id: ObjectId| #[trigger] ids.contains(id) ==> draws(objects, dict, id)) && #[trigger] is_path(
            objects,
            ids,
            path,
        ) implies (resolve(objects, path.last()) matches Ok((_, Value::Stream(form))) ==> entry(
        form.dict,
        key("Subtype"),
    ) == Some(Value::Name(key("Form"))) ==> matches_nothing(form, keywords)) by {
        assert(ids.contains(path[0]));
        law_drawn_objects_are_found(objects, dict, path[0]);
        law_clean_forms_match_nothing(objects, drawn, keywords, path);
    }
}

/// A removal from a document cleans all its pages: however the list of its pages is parted, the pages
/// of the first part are cleaned and then those of the second, unless there is a fault.
pub proof fn law_all_pages_are_cleaned(
    objects: Map<ObjectId, Value>,
    trailer: Seq<(Seq<u8>, Value)>,
    keywords: Seq<Seq<char>>,
    pages: Seq<ObjectId>,
    more: Seq<ObjectId>,
)
    requires
        page_list(objects, trailer) == pages + more,
    ensures
        ({
            let first = clean_pages(objects, pages, pages.len() as int, keywords);
            let second = clean_pages(first.objects, more, more.len() as int, keywords);
            let all = removal(objects, trailer, keywords);
            if first.fault is Some {
                all == first
            } else {
                &&& all.objects == second.objects
                &&& all.fault == second.fault
                &&& all.touched == first.touched + second.touched
                &&& first.removed + second.removed <= usize::MAX ==> all.removed == first.removed + second.removed
            }
        }),
{
    law_pages_are_cleaned_in_turn(objects, pages, more, keywords);
}

proof fn lemma_is_page_target(objects: Map<ObjectId, Value>, pages: Seq<ObjectId>, n: int, id: ObjectId)
    requires
        0 <= n <= pages.len(),
        page_targets(objects, pages, n).contains(id),
    ensures
        exists|p: int| 0 <= p < n && (resolve(objects, #[trigger] pages[p]) matches Ok((target, _)) && target == id),
    decreases n,
{
    if n > 0 {
        if page_targets(objects, pages, n - 1).contains(id) {
            lemma_is_page_target(objects, pages, n - 1, id);
        } else {
            assert(resolve(objects, pages[n - 1]) matches Ok((target, _)) && target == id);
        }
    }
}

/// A removal from a document adds no object and takes none away. A stream stays a stream and keeps all
/// its entries but those that tell how its content is read. A dictionary that changes is that of a
/// page, and keeps all its entries but the contents. All other objects stay as they are.
pub proof fn law_removal_changes_contents_alone(
    objects: Map<ObjectId, Value>,
    trailer: Seq<(Seq<u8>, Value)>,
    keywords: Seq<Seq<char>>,
    id: ObjectId,
)
    requires
        proper(objects),
    ensures
        ({
            let pages = page_list(objects, trailer);
            let after = removal(objects, trailer, keywords).objects;
            &&& after.contains_key(id) <==> objects.contains_key(id)
            &&& objects.contains_key(id) ==> match objects[id] {
                Value::Stream(stream) => after[id] matches Value::Stream(new_stream) && {
                    &&& new_stream.allows_compression == stream.allows_compression
                    &&& new_stream.start_position == stream.start_position
                    &&& forall|name: Seq<u8>|
                        name != key("Length") && name != key("Filter") && name != key("DecodeParms")
                            ==> #[trigger] entry(new_stream.dict, name) == entry(stream.dict, name)
                },
                Value::Dictionary(dict) => after[id] == objects[id] || {
                    &&& after[id] matches Value::Dictionary(new_dict) && forall|name: Seq<u8>|
                        name != key("Contents") ==> #[trigger] entry(new_dict, name) == entry(dict, name)
                    &&& exists|p: int|
                        0 <= p < pages.len() && (resolve(objects, #[trigger] pages[p]) matches Ok((target, _))
                            && target == id)
                },
                _ => after[id] == objects[id],
            }
        }),
{
    let pages = page_list(objects, trailer);
    let targets = page_targets(objects, pages, pages.len() as int);
    let after = removal(objects, trailer, keywords).objects;
    law_removal_keeps_the_rest(objects, trailer, keywords);
    assert(after.contains_key(id) <==> after.dom().contains(id));
    if objects.contains_key(id) {
        let kept = after[id];
        if targets.contains(id) {
            lemma_is_page_target(objects, pages, pages.len() as int, id);
        }
    }
}

} // verus!
