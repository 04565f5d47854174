//! What a removal leaves as it is.

use crate::document::{clean_pages, page_objects, removal};
use crate::forms::{
    clean_form, clean_forms, drawn_objects, is_form, lemma_numbers_left, numbers_left, removal_from_forms, strip_form,
};
use crate::page::{
    clean_stream, clean_streams, content_streams, removal_from_page, set_contents, strip_content, with_contents,
};
use crate::pdf::{
    deref_limit, encrypted, follow, lemma_resolved, page_list, plain_content, resolve, with_plain_content, Fault,
};
use crate::text::lowercase_texts;
use crate::value::{
    distinct_names, distinct_value, entry, key, lemma_with_entry, lemma_without_entry, without_entry, StreamValue,
    Value,
};
use lopdf::ObjectId;
use vstd::prelude::*;

verus! {

/// Whether no dictionary has a name twice. This is so for all documents that lopdf holds.
pub open spec fn proper(objects: Map<ObjectId, Value>) -> bool {
    forall|id: ObjectId| objects.contains_key(id) ==> distinct_value(#[trigger] objects[id])
}

/// Whether the dictionary that a number leads to has no name twice.
pub open spec fn proper_at(objects: Map<ObjectId, Value>, id: ObjectId) -> bool {
    resolve(objects, id) matches Ok((_, value)) ==> distinct_value(value)
}

/// Whether two dictionaries have the same entries, apart from those with the given names.
pub open spec fn same_entries_but(
    before: Seq<(Seq<u8>, Value)>,
    after: Seq<(Seq<u8>, Value)>,
    names: Set<Seq<u8>>,
) -> bool {
    &&& distinct_names(after)
    &&& forall|name: Seq<u8>| !names.contains(name) ==> #[trigger] entry(after, name) == entry(before, name)
}

/// The names of the entries that tell how the content of a stream is to be read.
pub open spec fn content_names() -> Set<Seq<u8>> {
    set![key("Length"), key("Filter"), key("DecodeParms")]
}

/// Whether a value is kept: it is the same, or it is a stream that got another content, or, for a
/// page, its dictionary has other contents.
pub open spec fn value_kept(before: Value, after: Value, page: bool) -> bool {
    ||| after == before
    ||| match (before, after) {
        (Value::Stream(old_stream), Value::Stream(new_stream)) => {
            &&& same_entries_but(old_stream.dict, new_stream.dict, content_names())
            &&& new_stream.allows_compression == old_stream.allows_compression
            &&& new_stream.start_position == old_stream.start_position
        },
        (Value::Dictionary(old_dict), Value::Dictionary(new_dict)) => page && same_entries_but(
            old_dict,
            new_dict,
            set![key("Contents")],
        ),
        _ => false,
    }
}

/// Whether all objects are kept, those of `pages` apart from their contents. No object comes or
/// goes.
pub open spec fn objects_kept(
    before: Map<ObjectId, Value>,
    after: Map<ObjectId, Value>,
    pages: Set<ObjectId>,
) -> bool {
    &&& before.dom() == after.dom()
    &&& forall|id: ObjectId|
        before.contains_key(id) ==> value_kept(before[id], #[trigger] after[id], pages.contains(id))
}

/// The object that a page number leads to.
pub open spec fn page_target(objects: Map<ObjectId, Value>, page: ObjectId) -> Set<ObjectId> {
    match resolve(objects, page) {
        Ok((target, _)) => set![target],
        Err(_) => Set::empty(),
    }
}

/// The objects that the first `n` page numbers lead to.
pub open spec fn page_targets(objects: Map<ObjectId, Value>, pages: Seq<ObjectId>, n: int) -> Set<ObjectId>
    decreases n,
{
    if n <= 0 {
        Set::empty()
    } else {
        page_targets(objects, pages, n - 1).union(page_target(objects, pages[n - 1]))
    }
}

/// The object that one of the pages leads to is among those that all lead to.
pub proof fn lemma_page_targets(objects: Map<ObjectId, Value>, pages: Seq<ObjectId>, i: int)
    requires
        0 <= i < pages.len(),
    ensures
        page_target(objects, pages[i]).subset_of(page_targets(objects, pages, pages.len() as int)),
{
    lemma_page_targets_up_to(objects, pages, i, pages.len() as int);
}

proof fn lemma_page_targets_up_to(objects: Map<ObjectId, Value>, pages: Seq<ObjectId>, i: int, n: int)
    requires
        0 <= i < n,
    ensures
        page_target(objects, pages[i]).subset_of(page_targets(objects, pages, n)),
    decreases n,
{
    if i < n - 1 {
        lemma_page_targets_up_to(objects, pages, i, n - 1);
    }
}

/// The names that the library reads and writes differ.
pub proof fn lemma_names()
    ensures
        key("Length") != key("Filter"),
        key("Length") != key("DecodeParms"),
        key("Filter") != key("DecodeParms"),
        !content_names().contains(key("Subtype")),
        !content_names().contains(key("Resources")),
        key("Contents") != key("XObject"),
        key("Contents") != key("Resources"),
{
    reveal_strlit("Length");
    reveal_strlit("Filter");
    reveal_strlit("DecodeParms");
    reveal_strlit("Subtype");
    reveal_strlit("Resources");
    reveal_strlit("Contents");
    reveal_strlit("XObject");
    vstd::string::is_ascii_spec_bytes("Length");
    vstd::string::is_ascii_spec_bytes("Filter");
    vstd::string::is_ascii_spec_bytes("DecodeParms");
    vstd::string::is_ascii_spec_bytes("Subtype");
    vstd::string::is_ascii_spec_bytes("Resources");
    vstd::string::is_ascii_spec_bytes("Contents");
    vstd::string::is_ascii_spec_bytes("XObject");
    assert(key("Length")[0] != key("Filter")[0]);
    assert(key("Length")[0] != key("DecodeParms")[0]);
    assert(key("Filter")[0] != key("DecodeParms")[0]);
    assert(key("Subtype")[0] != key("Length")[0]);
    assert(key("Subtype")[0] != key("Filter")[0]);
    assert(key("Subtype")[0] != key("DecodeParms")[0]);
    assert(key("Resources")[0] != key("Length")[0]);
    assert(key("Resources")[0] != key("Filter")[0]);
    assert(key("Resources")[0] != key("DecodeParms")[0]);
    assert(key("Contents")[0] != key("XObject")[0]);
    assert(key("Contents")[0] != key("Resources")[0]);
}

/// What is written to a stream is what is then read from it.
pub proof fn law_content_reads_back(stream: StreamValue, content: Seq<u8>)
    requires
        distinct_names(stream.dict),
    ensures
        plain_content(with_plain_content(stream, content)) == Some(content),
{
    lemma_written(stream, content);
}

/// A stream with a new content keeps its other entries.
pub proof fn lemma_written(stream: StreamValue, content: Seq<u8>)
    requires
        distinct_names(stream.dict),
    ensures
        value_kept(Value::Stream(stream), Value::Stream(with_plain_content(stream, content)), false),
        entry(with_plain_content(stream, content).dict, key("Filter")) is None,
{
    lemma_names();
    let first = without_entry(stream.dict, key("DecodeParms"));
    let second = without_entry(first, key("Filter"));
    lemma_without_entry(stream.dict, key("DecodeParms"));
    lemma_without_entry(first, key("Filter"));
    lemma_with_entry(second, key("Length"), Value::Integer(content.len() as i64));
    let after = with_plain_content(stream, content).dict;
    assert(entry(after, key("Filter")) is None);
    assert forall|name: Seq<u8>| !content_names().contains(name) implies #[trigger] entry(after, name) == entry(
        stream.dict,
        name,
    ) by {
        assert(content_names().contains(key("Length")));
        assert(content_names().contains(key("Filter")));
        assert(content_names().contains(key("DecodeParms")));
        assert(entry(after, name) == entry(second, name));
        assert(entry(second, name) == entry(first, name));
        assert(entry(first, name) == entry(stream.dict, name));
    }
}

/// What is kept twice is kept.
pub proof fn lemma_kept_on(
    first: Map<ObjectId, Value>,
    second: Map<ObjectId, Value>,
    third: Map<ObjectId, Value>,
    pages: Set<ObjectId>,
    more: Set<ObjectId>,
)
    requires
        objects_kept(first, second, pages),
        objects_kept(second, third, more),
    ensures
        objects_kept(first, third, pages.union(more)),
{
    assert forall|id: ObjectId| first.contains_key(id) implies value_kept(
        first[id],
        #[trigger] third[id],
        pages.union(more).contains(id),
    ) by {
        assert(second.contains_key(id));
        assert(value_kept(first[id], second[id], pages.contains(id)));
        assert(value_kept(second[id], third[id], more.contains(id)));
    }
}

/// Objects that are kept are proper.
pub proof fn lemma_kept_proper(before: Map<ObjectId, Value>, after: Map<ObjectId, Value>, pages: Set<ObjectId>)
    requires
        proper(before),
        objects_kept(before, after, pages),
    ensures
        proper(after),
{
    assert forall|id: ObjectId| after.contains_key(id) implies distinct_value(#[trigger] after[id]) by {
        assert(before.contains_key(id));
        assert(value_kept(before[id], after[id], pages.contains(id)));
    }
}

proof fn lemma_kept_follow(
    before: Map<ObjectId, Value>,
    after: Map<ObjectId, Value>,
    pages: Set<ObjectId>,
    id: ObjectId,
    steps: nat,
)
    requires
        objects_kept(before, after, pages),
        before.contains_key(id),
    ensures
        match follow(before, id, before[id], steps) {
            Ok((target, _)) => before.contains_key(target) && follow(after, id, after[id], steps) == Ok::<
                (ObjectId, Value),
                Fault,
            >((target, after[target])),
            Err(fault) => follow(after, id, after[id], steps) == Err::<(ObjectId, Value), Fault>(fault),
        },
    decreases deref_limit() - steps,
{
    assert(value_kept(before[id], after[id], pages.contains(id)));
    if let Value::Reference(next) = before[id] {
        if before.contains_key(next) && steps < deref_limit() {
            lemma_kept_follow(before, after, pages, next, steps + 1);
        }
    }
}

/// References lead to the same objects as before.
pub proof fn lemma_kept_resolve(
    before: Map<ObjectId, Value>,
    after: Map<ObjectId, Value>,
    pages: Set<ObjectId>,
    id: ObjectId,
)
    requires
        objects_kept(before, after, pages),
    ensures
        match resolve(before, id) {
            Ok((target, value)) => before.contains_key(target) && before[target] == value && value_kept(
                value,
                after[target],
                pages.contains(target),
            ) && resolve(after, id) == Ok::<(ObjectId, Value), Fault>((target, after[target])),
            Err(fault) => resolve(after, id) == Err::<(ObjectId, Value), Fault>(fault),
        },
{
    lemma_resolved(before, id);
    if before.contains_key(id) {
        lemma_kept_follow(before, after, pages, id, 0);
    }
}

/// An object that gets a kept value is kept, and so are the others.
pub proof fn lemma_kept_insert(objects: Map<ObjectId, Value>, id: ObjectId, value: Value, pages: Set<ObjectId>)
    requires
        objects.contains_key(id),
        value_kept(objects[id], value, pages.contains(id)),
    ensures
        objects_kept(objects, objects.insert(id, value), pages),
{
    assert(objects.insert(id, value).dom() =~= objects.dom());
}

/// Objects that are kept for some pages are kept for more.
pub proof fn lemma_kept_more(
    before: Map<ObjectId, Value>,
    after: Map<ObjectId, Value>,
    pages: Set<ObjectId>,
    more: Set<ObjectId>,
)
    requires
        objects_kept(before, after, pages),
        pages.subset_of(more),
    ensures
        objects_kept(before, after, more),
{
    assert forall|id: ObjectId| before.contains_key(id) implies value_kept(
        before[id],
        #[trigger] after[id],
        more.contains(id),
    ) by {
        assert(value_kept(before[id], after[id], pages.contains(id)));
    }
}

/// The cleaning of one content stream keeps all objects.
pub proof fn lemma_stream_kept(objects: Map<ObjectId, Value>, id: ObjectId, keywords: Seq<Seq<char>>)
    requires
        proper_at(objects, id),
    ensures
        objects_kept(objects, clean_stream(objects, id, keywords).objects, Set::empty()),
{
    lemma_resolved(objects, id);
    if let Ok((target, Value::Stream(stream))) = resolve(objects, id) {
        assert(objects[target] == Value::Stream(stream));
        if let Some((data, count)) = strip_content(stream, keywords) {
            lemma_written(stream, data);
            lemma_kept_insert(objects, target, Value::Stream(with_plain_content(stream, data)), Set::empty());
        }
    }
}

/// The cleaning of content streams keeps all objects.
pub proof fn lemma_streams_kept(
    objects: Map<ObjectId, Value>,
    ids: Seq<ObjectId>,
    n: int,
    keywords: Seq<Seq<char>>,
)
    requires
        proper(objects),
    ensures
        objects_kept(objects, clean_streams(objects, ids, n, keywords).objects, Set::empty()),
    decreases n,
{
    if n > 0 {
        lemma_streams_kept(objects, ids, n - 1, keywords);
        let state = clean_streams(objects, ids, n - 1, keywords);
        if state.fault is None {
            lemma_kept_proper(objects, state.objects, Set::empty());
            lemma_resolved(state.objects, ids[n - 1]);
            lemma_stream_kept(state.objects, ids[n - 1], keywords);
            let after = clean_stream(state.objects, ids[n - 1], keywords).objects;
            lemma_kept_on(objects, state.objects, after, Set::empty(), Set::empty());
            assert(Set::<ObjectId>::empty().union(Set::empty()) =~= Set::<ObjectId>::empty());
        }
    }
}

/// A page that keeps other content streams keeps its other entries.
pub proof fn lemma_contents_kept(objects: Map<ObjectId, Value>, page: ObjectId, kept: Seq<ObjectId>)
    requires
        proper_at(objects, page),
    ensures
        objects_kept(objects, set_contents(objects, page, kept).0, page_target(objects, page)),
{
    lemma_resolved(objects, page);
    if let Ok((target, Value::Dictionary(dict))) = resolve(objects, page) {
        assert(objects[target] == Value::Dictionary(dict));
        lemma_without_entry(dict, key("Contents"));
        if kept.len() == 1 {
            lemma_with_entry(dict, key("Contents"), Value::Reference(kept[0]));
        } else if kept.len() > 1 {
            lemma_with_entry(
                dict,
                key("Contents"),
                Value::Array(Seq::new(kept.len(), |i: int| Value::Reference(kept[i]))),
            );
        }
        let after = with_contents(dict, kept);
        assert forall|name: Seq<u8>| !set![key("Contents")].contains(name) implies #[trigger] entry(after, name)
            == entry(dict, name) by {
            assert(set![key("Contents")].contains(key("Contents")));
        }
        lemma_kept_insert(objects, target, Value::Dictionary(after), page_target(objects, page));
    }
}

/// The cleaning of a page keeps all objects: streams get other contents, and so does the page.
pub proof fn law_page_removal_keeps_the_rest(
    objects: Map<ObjectId, Value>,
    page: ObjectId,
    keywords: Seq<Seq<char>>,
)
    requires
        proper(objects),
    ensures
        objects_kept(objects, removal_from_page(objects, page, keywords).0, page_target(objects, page)),
{
    if keywords.len() > 0 {
        let lower = lowercase_texts(keywords);
        if let Ok((_, Value::Dictionary(dict))) = resolve(objects, page) {
            if let Ok(Some(ids)) = content_streams(objects, dict) {
                let state = clean_streams(objects, ids, ids.len() as int, lower);
                lemma_streams_kept(objects, ids, ids.len() as int, lower);
                lemma_kept_more(objects, state.objects, Set::empty(), page_target(objects, page));
                if state.fault is None {
                    lemma_kept_proper(objects, state.objects, Set::empty());
                    lemma_kept_resolve(objects, state.objects, Set::empty(), page);
                    lemma_resolved(state.objects, page);
                    lemma_contents_kept(state.objects, page, state.kept);
                    assert(page_target(state.objects, page) =~= page_target(objects, page));
                    let after = set_contents(state.objects, page, state.kept).0;
                    lemma_kept_on(objects, state.objects, after, Set::empty(), page_target(objects, page));
                    assert(Set::<ObjectId>::empty().union(page_target(objects, page)) =~= page_target(objects, page));
                }
            }
        }
    }
}

/// The removal of blocks from a form keeps all objects.
pub proof fn lemma_strip_kept(
    objects: Map<ObjectId, Value>,
    target: ObjectId,
    form: StreamValue,
    keywords: Seq<Seq<char>>,
)
    requires
        distinct_names(form.dict),
        objects.contains_key(target),
        objects[target] == Value::Stream(form),
    ensures
        objects_kept(objects, strip_form(objects, target, form, keywords).0, Set::empty()),
{
    if let Some((data, _)) = strip_content(form, keywords) {
        lemma_written(form, data);
        lemma_kept_insert(objects, target, Value::Stream(with_plain_content(form, data)), Set::empty());
    }
}

/// The cleaning of a form keeps all objects.
pub proof fn lemma_form_kept(objects: Map<ObjectId, Value>, id: ObjectId, keywords: Seq<Seq<char>>, open: Seq<ObjectId>)
    requires
        proper(objects),
    ensures
        objects_kept(objects, clean_form(objects, id, keywords, open).objects, Set::empty()),
    decreases numbers_left(open), 0int,
{
    lemma_resolved(objects, id);
    if let Ok((target, Value::Stream(form))) = resolve(objects, id) {
        if is_form(form.dict) && !open.contains(id) {
            assert(objects[target] == Value::Stream(form));
            let (after, count) = strip_form(objects, target, form, keywords);
            lemma_strip_kept(objects, target, form, keywords);
            lemma_kept_proper(objects, after, Set::empty());
            lemma_numbers_left(open, id);
            let inner = drawn_objects(after, form.dict);
            lemma_forms_kept(after, inner, inner.len() as int, keywords, open.push(id));
            let state = clean_forms(after, inner, inner.len() as int, keywords, open.push(id));
            lemma_kept_on(objects, after, state.objects, Set::empty(), Set::empty());
            assert(Set::<ObjectId>::empty().union(Set::empty()) =~= Set::<ObjectId>::empty());
        }
    }
}

/// The cleaning of forms keeps all objects.
pub proof fn lemma_forms_kept(
    objects: Map<ObjectId, Value>,
    ids: Seq<ObjectId>,
    n: int,
    keywords: Seq<Seq<char>>,
    open: Seq<ObjectId>,
)
    requires
        proper(objects),
    ensures
        objects_kept(objects, clean_forms(objects, ids, n, keywords, open).objects, Set::empty()),
    decreases numbers_left(open), n,
{
    if n > 0 {
        lemma_forms_kept(objects, ids, n - 1, keywords, open);
        let state = clean_forms(objects, ids, n - 1, keywords, open);
        if state.fault is None {
            lemma_kept_proper(objects, state.objects, Set::empty());
            lemma_form_kept(state.objects, ids[n - 1], keywords, open);
            let after = clean_form(state.objects, ids[n - 1], keywords, open).objects;
            lemma_kept_on(objects, state.objects, after, Set::empty(), Set::empty());
            assert(Set::<ObjectId>::empty().union(Set::empty()) =~= Set::<ObjectId>::empty());
        }
    }
}

/// The cleaning of forms keeps all objects: only streams get other contents.
pub proof fn law_form_removal_keeps_the_rest(
    objects: Map<ObjectId, Value>,
    ids: Seq<ObjectId>,
    keywords: Seq<Seq<char>>,
)
    requires
        proper(objects),
    ensures
        objects_kept(objects, removal_from_forms(objects, ids, keywords).objects, Set::empty()),
{
    lemma_forms_kept(objects, ids, ids.len() as int, lowercase_texts(keywords), Seq::empty());
}

/// The cleaning of pages keeps all objects.
proof fn lemma_pages_kept(objects: Map<ObjectId, Value>, pages: Seq<ObjectId>, n: int, keywords: Seq<Seq<char>>)
    requires
        proper(objects),
    ensures
        objects_kept(objects, clean_pages(objects, pages, n, keywords).objects, page_targets(objects, pages, n)),
    decreases n,
{
    if n > 0 {
        lemma_pages_kept(objects, pages, n - 1, keywords);
        let state = clean_pages(objects, pages, n - 1, keywords);
        let before = page_targets(objects, pages, n - 1);
        let targets = page_targets(objects, pages, n);
        if state.fault is Some {
            lemma_kept_more(objects, state.objects, before, targets);
        } else {
            let page = pages[n - 1];
            lemma_kept_proper(objects, state.objects, before);
            lemma_kept_resolve(objects, state.objects, before, page);
            assert(page_target(state.objects, page) =~= page_target(objects, page));
            law_page_removal_keeps_the_rest(state.objects, page, keywords);
            let (after, result) = removal_from_page(state.objects, page, keywords);
            lemma_kept_on(objects, state.objects, after, before, page_target(objects, page));
            if result is Ok {
                lemma_kept_proper(objects, after, targets);
                let drawn = page_objects(after, page);
                law_form_removal_keeps_the_rest(after, drawn, keywords);
                let forms = removal_from_forms(after, drawn, keywords);
                lemma_kept_on(objects, after, forms.objects, targets, Set::empty());
                assert(targets.union(Set::empty()) =~= targets);
            }
        }
    }
}

/// A removal keeps all objects of a document: streams get other contents, and so do pages. All
/// else stays as it is, also where the removal fails.
pub proof fn law_removal_keeps_the_rest(
    objects: Map<ObjectId, Value>,
    trailer: Seq<(Seq<u8>, Value)>,
    keywords: Seq<Seq<char>>,
)
    requires
        proper(objects),
    ensures
        ({
            let pages = page_list(objects, trailer);
            objects_kept(
                objects,
                removal(objects, trailer, keywords).objects,
                page_targets(objects, pages, pages.len() as int),
            )
        }),
{
    let pages = page_list(objects, trailer);
    lemma_pages_kept(objects, pages, pages.len() as int, keywords);
}

/// Nothing of the encryption is left once the entry is removed from the trailer.
pub proof fn law_encryption_is_dropped(objects: Map<ObjectId, Value>, trailer: Seq<(Seq<u8>, Value)>)
    requires
        distinct_names(trailer),
    ensures
        entry(without_entry(trailer, key("Encrypt")), key("Encrypt")) is None,
        !encrypted(objects, without_entry(trailer, key("Encrypt"))),
        forall|name: Seq<u8>|
            name != key("Encrypt") ==> #[trigger] entry(without_entry(trailer, key("Encrypt")), name) == entry(
                trailer,
                name,
            ),
{
    lemma_without_entry(trailer, key("Encrypt"));
}

} // verus!
