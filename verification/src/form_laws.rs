//! What the forms that a page draws are, and what a removal from forms does to them.

use crate::blocks::{shown, text_blocks};
use crate::clean::{
    changed_are_clean, clean_ones, form_is, forms_are_clean, is_clean, lemma_clean_on, lemma_each_form,
    lemma_form_cleaned, lemma_forms_stay, lemma_stay_good, lemma_written_clean, writes_back,
};
use crate::content::{operations_of, written};
use crate::forms::{
    clean_form, clean_forms, drawn_objects, entry_values, external_objects, is_form, lemma_numbers_left, numbers_left,
    removal_from_forms, strip_form, FormState,
};
use crate::frame::{
    law_content_reads_back, lemma_kept_on, lemma_kept_proper, lemma_kept_resolve, lemma_strip_kept, objects_kept,
    proper,
};
use crate::page::{add_counts, content_or_empty, references};
use crate::page_laws::left_of;
use crate::pdf::{lemma_resolved, plain_content, resolve, with_plain_content, Fault};
use crate::strip::{matching_count, stripped};
use crate::strip_laws::law_count_tells_matches;
use crate::text::{block_matches, lowercase_texts};
use crate::value::{distinct_value, entry, key, StreamValue, Value};
use lopdf::ObjectId;
use vstd::prelude::*;

verus! {

/// Whether an entry is this dictionary, directly or by reference.
pub open spec fn leads_to(
    objects: Map<ObjectId, Value>,
    value: Option<Value>,
    dict: Seq<(Seq<u8>, Value)>,
) -> bool {
    ||| value == Some(Value::Dictionary(dict))
    ||| (value matches Some(Value::Reference(id)) && (resolve(objects, id) matches Ok((_, Value::Dictionary(found)))
        && found == dict))
}

/// Whether resources name an object: their `XObject` dictionary, given directly or by reference, has
/// an entry that refers to it.
pub open spec fn names_object(
    objects: Map<ObjectId, Value>,
    resources: Seq<(Seq<u8>, Value)>,
    id: ObjectId,
) -> bool {
    exists|names: Seq<(Seq<u8>, Value)>, k: int|
        leads_to(objects, entry(resources, key("XObject")), names) && 0 <= k < names.len() && (#[trigger] names[k]).1
            == Value::Reference(id)
}

/// Whether what has this dictionary draws an object: its `Resources`, given directly or by reference,
/// name it.
pub open spec fn draws(objects: Map<ObjectId, Value>, dict: Seq<(Seq<u8>, Value)>, id: ObjectId) -> bool {
    exists|resources: Seq<(Seq<u8>, Value)>|
        leads_to(objects, entry(dict, key("Resources")), resources) && #[trigger] names_object(objects, resources, id)
}

/// The numbers of references are those that some value refers to.
pub proof fn lemma_found_references(values: Seq<Value>, n: int, id: ObjectId)
    requires
        0 <= n <= values.len(),
    ensures
        references(values, n).contains(id) <==> exists|k: int|
            0 <= k < n && #[trigger] values[k] == Value::Reference(id),
    decreases n,
{
    if n > 0 {
        lemma_found_references(values, n - 1, id);
        let before = references(values, n - 1);
        if let Value::Reference(last) = values[n - 1] {
            let all = before.push(last);
            if all.contains(id) {
                let k = choose|k: int| 0 <= k < all.len() && all[k] == id;
                if k < before.len() {
                    assert(before[k] == id);
                } else {
                    assert(values[n - 1] == Value::Reference(id));
                }
            }
            if before.contains(id) {
                let k = choose|k: int| 0 <= k < before.len() && before[k] == id;
                assert(all[k] == id);
            }
            if last == id {
                assert(all[before.len() as int] == id);
            }
        }
        if exists|k: int| 0 <= k < n && #[trigger] values[k] == Value::Reference(id) {
            let k = choose|k: int| 0 <= k < n && #[trigger] values[k] == Value::Reference(id);
            if k < n - 1 {
                assert(values[k] == Value::Reference(id));
            }
        }
    }
}

/// The external objects of resources are those that they name.
pub proof fn law_named_objects_are_found(
    objects: Map<ObjectId, Value>,
    resources: Seq<(Seq<u8>, Value)>,
    id: ObjectId,
)
    ensures
        external_objects(objects, resources).contains(id) <==> names_object(objects, resources, id),
{
    let value = entry(resources, key("XObject"));
    if exists|names: Seq<(Seq<u8>, Value)>| leads_to(objects, value, names) {
        let names = choose|names: Seq<(Seq<u8>, Value)>| leads_to(objects, value, names);
        let values = entry_values(names);
        assert(external_objects(objects, resources) == references(values, names.len() as int));
        lemma_found_references(values, names.len() as int, id);
        if external_objects(objects, resources).contains(id) {
            let k = choose|k: int| 0 <= k < names.len() && #[trigger] values[k] == Value::Reference(id);
            assert(names[k].1 == Value::Reference(id));
        }
        if names_object(objects, resources, id) {
            let (other, k) = choose|other: Seq<(Seq<u8>, Value)>, k: int|
                leads_to(objects, value, other) && 0 <= k < other.len() && (#[trigger] other[k]).1
                    == Value::Reference(id);
            assert(other == names);
            assert(values[k] == Value::Reference(id));
        }
    } else {
        assert(external_objects(objects, resources) =~= Seq::<ObjectId>::empty()) by {
            if let Some(Value::Dictionary(names)) = value {
                assert(leads_to(objects, value, names));
            }
            if let Some(Value::Reference(at)) = value {
                if let Ok((_, Value::Dictionary(names))) = resolve(objects, at) {
                    assert(leads_to(objects, value, names));
                }
            }
        }
    }
}

/// The external objects that a page or a form draws are those that its resources name.
pub proof fn law_drawn_objects_are_found(objects: Map<ObjectId, Value>, dict: Seq<(Seq<u8>, Value)>, id: ObjectId)
    ensures
        drawn_objects(objects, dict).contains(id) <==> draws(objects, dict, id),
{
    let value = entry(dict, key("Resources"));
    if exists|resources: Seq<(Seq<u8>, Value)>| leads_to(objects, value, resources) {
        let resources = choose|resources: Seq<(Seq<u8>, Value)>| leads_to(objects, value, resources);
        assert(drawn_objects(objects, dict) == external_objects(objects, resources));
        law_named_objects_are_found(objects, resources, id);
        if names_object(objects, resources, id) {
            assert(draws(objects, dict, id));
        }
        if draws(objects, dict, id) {
            let other = choose|other: Seq<(Seq<u8>, Value)>|
                leads_to(objects, value, other) && #[trigger] names_object(objects, other, id);
            assert(other == resources);
        }
    } else {
        assert(drawn_objects(objects, dict) =~= Seq::<ObjectId>::empty()) by {
            if let Some(Value::Dictionary(resources)) = value {
                assert(leads_to(objects, value, resources));
            }
            if let Some(Value::Reference(at)) = value {
                if let Ok((_, Value::Dictionary(resources))) = resolve(objects, at) {
                    assert(leads_to(objects, value, resources));
                }
            }
        }
    }
}

/// Whether an external object is a form depends on its `Subtype` alone: it is one if that is the name
/// `Form`, whatever its other entries are. What is no form stays as it is.
pub proof fn law_subtype_tells_forms(
    objects: Map<ObjectId, Value>,
    id: ObjectId,
    keywords: Seq<Seq<char>>,
    open: Seq<ObjectId>,
)
    ensures
        match resolve(objects, id) {
            Err(fault) => clean_form(objects, id, keywords, open) == (FormState {
                objects,
                removed: 0,
                fault: Some(fault),
            }),
            Ok((target, Value::Stream(form))) => if entry(form.dict, key("Subtype")) != Some(Value::Name(key("Form"))) {
                clean_form(objects, id, keywords, open) == (FormState { objects, removed: 0, fault: None })
            } else if open.contains(id) {
                clean_form(objects, id, keywords, open) == (FormState {
                    objects,
                    removed: 0,
                    fault: Some(Fault::FormCycle(id)),
                })
            } else {
                let after = clean_form(objects, id, keywords, open);
                (forall|other: ObjectId| !draws(objects, form.dict, other)) && proper(objects) ==> match left_of(
                    form,
                    keywords,
                ) {
                    Some(data) => {
                        &&& after.fault is None
                        &&& after.removed == add_counts(
                            matching_count(operations_of(content_or_empty(form)), keywords),
                            0,
                        )
                        &&& after.objects == objects.insert(target, after.objects[target])
                        &&& after.objects[target] matches Value::Stream(stream) && stream.content == data
                            && plain_content(stream) == Some(data)
                    },
                    None => after == (FormState { objects, removed: 0, fault: None }),
                }
            },
            Ok(_) => clean_form(objects, id, keywords, open) == (FormState { objects, removed: 0, fault: None }),
        },
{
    lemma_resolved(objects, id);
    if let Ok((target, Value::Stream(form))) = resolve(objects, id) {
        if entry(form.dict, key("Subtype")) == Some(Value::Name(key("Form"))) && !open.contains(id) && proper(objects)
            && forall|other: ObjectId| !draws(objects, form.dict, other) {
            lemma_numbers_left(open, id);
            assert(distinct_value(objects[target]));
            let (after, count) = strip_form(objects, target, form, keywords);
            lemma_strip_kept(objects, target, form, keywords);
            crate::clean::lemma_same_drawn(objects, after, Set::empty(), form.dict, form.dict);
            let inner = drawn_objects(after, form.dict);
            if inner.len() > 0 {
                assert(inner.contains(inner[0]));
                law_drawn_objects_are_found(objects, form.dict, inner[0]);
            }
            if let Some(data) = left_of(form, keywords) {
                law_content_reads_back(form, data);
                assert(after =~= objects.insert(target, after[target]));
            }
        }
    }
}

/// After a form the forms that it draws are cleaned, as its content was left, and the blocks removed
/// add up. A form that is drawn while it is being cleaned is a fault.
pub proof fn law_forms_in_forms_are_cleaned(
    objects: Map<ObjectId, Value>,
    id: ObjectId,
    keywords: Seq<Seq<char>>,
    open: Seq<ObjectId>,
    target: ObjectId,
    form: StreamValue,
)
    requires
        resolve(objects, id) == Ok::<(ObjectId, Value), Fault>((target, Value::Stream(form))),
        entry(form.dict, key("Subtype")) == Some(Value::Name(key("Form"))),
        !open.contains(id),
    ensures
        ({
            let (own, between) = match left_of(form, keywords) {
                Some(data) => (
                    matching_count(operations_of(content_or_empty(form)), keywords),
                    objects.insert(target, Value::Stream(with_plain_content(form, data))),
                ),
                None => (0, objects),
            };
            let drawn = drawn_objects(between, form.dict);
            let inner = clean_forms(between, drawn, drawn.len() as int, keywords, open.push(id));
            let after = clean_form(objects, id, keywords, open);
            &&& forall|other: ObjectId| #[trigger] drawn.contains(other) <==> draws(between, form.dict, other)
            &&& after.objects == inner.objects
            &&& after.fault == inner.fault
            &&& own + inner.removed <= usize::MAX ==> after.removed == own + inner.removed
            &&& own + inner.removed > usize::MAX ==> after.removed == usize::MAX
        }),
{
    lemma_numbers_left(open, id);
    let between = strip_form(objects, target, form, keywords).0;
    assert forall|other: ObjectId| #[trigger] drawn_objects(between, form.dict).contains(other) <==> draws(
        between,
        form.dict,
        other,
    ) by {
        law_drawn_objects_are_found(between, form.dict, other);
    }
}

proof fn lemma_counts_small(
    objects: Map<ObjectId, Value>,
    ids: Seq<ObjectId>,
    n: int,
    keywords: Seq<Seq<char>>,
    open: Seq<ObjectId>,
)
    ensures
        clean_forms(objects, ids, n, keywords, open).removed <= usize::MAX,
    decreases n,
{
    if n > 0 {
        lemma_counts_small(objects, ids, n - 1, keywords, open);
    }
}

proof fn lemma_first_forms(
    objects: Map<ObjectId, Value>,
    ids: Seq<ObjectId>,
    others: Seq<ObjectId>,
    n: int,
    keywords: Seq<Seq<char>>,
    open: Seq<ObjectId>,
)
    requires
        forall|i: int| 0 <= i < n ==> #[trigger] ids[i] == others[i],
    ensures
        clean_forms(objects, ids, n, keywords, open) == clean_forms(objects, others, n, keywords, open),
    decreases n,
{
    if n > 0 {
        assert(ids[n - 1] == others[n - 1]);
        lemma_first_forms(objects, ids, others, n - 1, keywords, open);
    }
}

proof fn lemma_more_forms(
    objects: Map<ObjectId, Value>,
    ids: Seq<ObjectId>,
    more: Seq<ObjectId>,
    n: int,
    keywords: Seq<Seq<char>>,
    open: Seq<ObjectId>,
)
    requires
        0 <= n <= more.len(),
    ensures
        ({
            let first = clean_forms(objects, ids, ids.len() as int, keywords, open);
            let second = clean_forms(first.objects, more, n, keywords, open);
            clean_forms(objects, ids + more, ids.len() + n, keywords, open) == (if first.fault is Some {
                first
            } else {
                FormState { removed: add_counts(first.removed, second.removed), ..second }
            })
        }),
    decreases n,
{
    let first = clean_forms(objects, ids, ids.len() as int, keywords, open);
    lemma_counts_small(objects, ids, ids.len() as int, keywords, open);
    lemma_first_forms(objects, ids + more, ids, ids.len() as int, keywords, open);
    if n > 0 {
        lemma_more_forms(objects, ids, more, n - 1, keywords, open);
        assert((ids + more)[ids.len() + n - 1] == more[n - 1]);
    }
}

/// Forms are cleaned one after the other: to clean those of two lists is to clean those of the first
/// and then those of the second, unless there is a fault, and the blocks removed add up.
pub proof fn law_forms_are_cleaned_in_turn(
    objects: Map<ObjectId, Value>,
    ids: Seq<ObjectId>,
    more: Seq<ObjectId>,
    keywords: Seq<Seq<char>>,
)
    ensures
        ({
            let first = removal_from_forms(objects, ids, keywords);
            let second = removal_from_forms(first.objects, more, keywords);
            let both = removal_from_forms(objects, ids + more, keywords);
            if first.fault is Some {
                both == first
            } else {
                &&& both.objects == second.objects
                &&& both.fault == second.fault
                &&& first.removed + second.removed <= usize::MAX ==> both.removed == first.removed + second.removed
            }
        }),
{
    lemma_more_forms(objects, ids, more, more.len() as int, lowercase_texts(keywords), Seq::empty());
}

/// No form is cleaned for an empty list, and for one form this form is.
pub proof fn law_each_form_is_cleaned(objects: Map<ObjectId, Value>, id: ObjectId, keywords: Seq<Seq<char>>)
    ensures
        removal_from_forms(objects, Seq::empty(), keywords) == (FormState { objects, removed: 0, fault: None }),
        removal_from_forms(objects, seq![id], keywords) == clean_form(
            objects,
            id,
            lowercase_texts(keywords),
            Seq::empty(),
        ),
{
    reveal_with_fuel(clean_forms, 2);
    let lower = lowercase_texts(keywords);
    assert(clean_forms(objects, seq![id], 0, lower, Seq::empty()) == (FormState { objects, removed: 0, fault: None }));
    assert(clean_form(objects, id, lower, Seq::empty()).removed <= usize::MAX);
}

/// Whether what is left of each stream can be written and reads back: the same operators in the same
/// order, which show the same.
pub open spec fn all_write_back(objects: Map<ObjectId, Value>, keywords: Seq<Seq<char>>) -> bool {
    forall|id: ObjectId|
        objects.contains_key(id) ==> match #[trigger] objects[id] {
            Value::Stream(stream) => {
                let ops = operations_of(content_or_empty(stream));
                let left = stripped(ops, keywords);
                matching_count(ops, keywords) > 0 ==> written(left) is Some && ({
                    let read = operations_of(written(left)->Some_0);
                    read.len() == left.len() && forall|i: int|
                        0 <= i < left.len() ==> (#[trigger] read[i]).operator == left[i].operator && shown(read[i])
                            == shown(left[i])
                })
            },
            _ => true,
        }
}

proof fn lemma_still_write_back(before: Map<ObjectId, Value>, after: Map<ObjectId, Value>, keywords: Seq<Seq<char>>)
    requires
        all_write_back(before, keywords),
        before.dom() == after.dom(),
        changed_are_clean(before, after, keywords),
    ensures
        all_write_back(after, keywords),
{
    assert forall|id: ObjectId| after.contains_key(id) implies match #[trigger] after[id] {
        Value::Stream(stream) => writes_back(operations_of(content_or_empty(stream)), keywords) || is_clean(
            stream,
            keywords,
        ),
        _ => true,
    } by {
        assert(before.contains_key(id));
        assert(before[id] == before[id]);
    }
}

proof fn lemma_form_is_stripped(
    objects: Map<ObjectId, Value>,
    target: ObjectId,
    form: StreamValue,
    keywords: Seq<Seq<char>>,
)
    requires
        proper(objects),
        all_write_back(objects, keywords),
        objects.contains_key(target),
        objects[target] == Value::Stream(form),
    ensures
        ({
            let after = strip_form(objects, target, form, keywords).0;
            &&& objects_kept(objects, after, Set::empty())
            &&& changed_are_clean(objects, after, keywords)
            &&& after[target] matches Value::Stream(stream) && is_clean(stream, keywords)
        }),
{
    assert(distinct_value(objects[target]));
    lemma_strip_kept(objects, target, form, keywords);
    let ops = operations_of(content_or_empty(form));
    if matching_count(ops, keywords) > 0 {
        let data = written(stripped(ops, keywords))->Some_0;
        lemma_written_clean(ops, data, keywords);
        law_content_reads_back(form, data);
    }
}

proof fn lemma_form_cleans(
    objects: Map<ObjectId, Value>,
    id: ObjectId,
    keywords: Seq<Seq<char>>,
    open: Seq<ObjectId>,
)
    requires
        proper(objects),
        all_write_back(objects, keywords),
    ensures
        ({
            let state = clean_form(objects, id, keywords, open);
            &&& objects_kept(objects, state.objects, Set::empty())
            &&& changed_are_clean(objects, state.objects, keywords)
            &&& state.fault is None ==> form_is(state.objects, id, clean_ones(keywords), open)
        }),
    decreases numbers_left(open), 0int,
{
    lemma_resolved(objects, id);
    if let Ok((target, Value::Stream(form))) = resolve(objects, id) {
        if is_form(form.dict) && !open.contains(id) {
            let (between, _) = strip_form(objects, target, form, keywords);
            lemma_form_is_stripped(objects, target, form, keywords);
            lemma_kept_proper(objects, between, Set::empty());
            lemma_still_write_back(objects, between, keywords);
            lemma_numbers_left(open, id);
            let inner = drawn_objects(between, form.dict);
            lemma_forms_clean(between, inner, inner.len() as int, keywords, open.push(id));
            let after = clean_forms(between, inner, inner.len() as int, keywords, open.push(id)).objects;
            lemma_kept_on(objects, between, after, Set::empty(), Set::empty());
            assert(Set::<ObjectId>::empty().union(Set::empty()) =~= Set::<ObjectId>::empty());
            lemma_clean_on(objects, between, after, keywords);
            lemma_kept_resolve(objects, between, Set::empty(), id);
            if clean_form(objects, id, keywords, open).fault is None {
                lemma_form_cleaned(objects, between, after, id, keywords, open);
            }
        }
    }
}

proof fn lemma_forms_clean(
    objects: Map<ObjectId, Value>,
    ids: Seq<ObjectId>,
    n: int,
    keywords: Seq<Seq<char>>,
    open: Seq<ObjectId>,
)
    requires
        proper(objects),
        all_write_back(objects, keywords),
    ensures
        ({
            let state = clean_forms(objects, ids, n, keywords, open);
            &&& objects_kept(objects, state.objects, Set::empty())
            &&& changed_are_clean(objects, state.objects, keywords)
            &&& state.fault is None ==> forms_are_clean(state.objects, ids, n, keywords, open)
        }),
    decreases numbers_left(open), n,
{
    if n > 0 {
        lemma_forms_clean(objects, ids, n - 1, keywords, open);
        let before = clean_forms(objects, ids, n - 1, keywords, open);
        if before.fault is None {
            lemma_kept_proper(objects, before.objects, Set::empty());
            lemma_still_write_back(objects, before.objects, keywords);
            lemma_form_cleans(before.objects, ids[n - 1], keywords, open);
            let after = clean_form(before.objects, ids[n - 1], keywords, open).objects;
            lemma_kept_on(objects, before.objects, after, Set::empty(), Set::empty());
            assert(Set::<ObjectId>::empty().union(Set::empty()) =~= Set::<ObjectId>::empty());
            lemma_clean_on(objects, before.objects, after, keywords);
            lemma_stay_good(before.objects, after, keywords);
            lemma_forms_stay(before.objects, after, Set::empty(), ids, n - 1, clean_ones(keywords), open);
        }
    }
}

/// Whether no text block that a stream shows matches a keyword.
pub open spec fn matches_nothing(stream: StreamValue, keywords: Seq<Seq<char>>) -> bool {
    forall|j: int|
        0 <= j < text_blocks(operations_of(content_or_empty(stream))).len() ==> !block_matches(
            (#[trigger] text_blocks(operations_of(content_or_empty(stream)))[j]).text,
            keywords,
        )
}

/// Whether each number is that of a form, told by its `Subtype` alone, that draws the next one. None
/// comes twice.
pub open spec fn is_chain(objects: Map<ObjectId, Value>, path: Seq<ObjectId>) -> bool {
    &&& forall|i: int, j: int| 0 <= i < j < path.len() ==> #[trigger] path[i] != #[trigger] path[j]
    &&& forall|i: int, j: int|
        0 <= i && j == i + 1 && j < path.len() ==> (resolve(objects, #[trigger] path[i]) matches Ok(
            (_, Value::Stream(form)),
        ) && entry(form.dict, key("Subtype")) == Some(Value::Name(key("Form"))) && draws(
            objects,
            form.dict,
            #[trigger] path[j],
        ))
}

/// Whether a path leads from one of the numbers to others, from each form to one that it draws.
pub open spec fn is_path(objects: Map<ObjectId, Value>, ids: Seq<ObjectId>, path: Seq<ObjectId>) -> bool {
    path.len() > 0 && ids.contains(path[0]) && is_chain(objects, path)
}

proof fn lemma_path_is_clean(
    objects: Map<ObjectId, Value>,
    ids: Seq<ObjectId>,
    path: Seq<ObjectId>,
    k: int,
    keywords: Seq<Seq<char>>,
)
    requires
        forms_are_clean(objects, ids, ids.len() as int, keywords, Seq::empty()),
        is_path(objects, ids, path),
        0 <= k < path.len(),
    ensures
        form_is(objects, path[k], clean_ones(keywords), path.take(k)),
    decreases k,
{
    if k == 0 {
        let i = choose|i: int| 0 <= i < ids.len() && ids[i] == path[0];
        lemma_each_form(objects, ids, ids.len() as int, clean_ones(keywords), Seq::empty(), i);
        assert(path.take(0) =~= Seq::<ObjectId>::empty());
    } else {
        lemma_path_is_clean(objects, ids, path, k - 1, keywords);
        let above = path[k - 1];
        assert(path[k] == path[k]);
        let form = resolve(objects, above)->Ok_0.1->Stream_0;
        let open = path.take(k - 1);
        assert(!open.contains(above)) by {
            if open.contains(above) {
                let i = choose|i: int| 0 <= i < open.len() && open[i] == above;
                assert(path[i] == path[k - 1]);
            }
        }
        assert(open.push(above) =~= path.take(k));
        law_drawn_objects_are_found(objects, form.dict, path[k]);
        let inner = drawn_objects(objects, form.dict);
        let i = choose|i: int| 0 <= i < inner.len() && inner[i] == path[k];
        lemma_each_form(objects, inner, inner.len() as int, clean_ones(keywords), path.take(k), i);
    }
}

/// Where the forms with these numbers are clean, no block of them matches, nor of the forms that they
/// draw, at any depth. A form is told by its `Subtype` alone.
pub proof fn law_clean_forms_match_nothing(
    objects: Map<ObjectId, Value>,
    ids: Seq<ObjectId>,
    keywords: Seq<Seq<char>>,
    path: Seq<ObjectId>,
)
    requires
        forms_are_clean(objects, ids, ids.len() as int, keywords, Seq::empty()),
        is_path(objects, ids, path),
    ensures
        resolve(objects, path.last()) matches Ok((_, Value::Stream(form))) ==> entry(form.dict, key("Subtype")) == Some(
            Value::Name(key("Form")),
        ) ==> matches_nothing(form, keywords),
{
    let k = path.len() - 1;
    lemma_path_is_clean(objects, ids, path, k, keywords);
    if let Ok((_, Value::Stream(form))) = resolve(objects, path.last()) {
        if path.take(k).contains(path.last()) {
            let i = choose|i: int| 0 <= i < k && path.take(k)[i] == path.last();
            assert(path[i] != path[k]);
        }
        law_count_tells_matches(operations_of(content_or_empty(form)), keywords);
    }
}

/// After a removal from forms no block of them matches, nor of the forms that they draw, at any
/// depth, where what is left of streams can be written and reads back. A form is told by its
/// `Subtype` alone.
pub proof fn law_forms_are_clean_afterwards(
    objects: Map<ObjectId, Value>,
    ids: Seq<ObjectId>,
    keywords: Seq<Seq<char>>,
    path: Seq<ObjectId>,
)
    requires
        proper(objects),
        all_write_back(objects, lowercase_texts(keywords)),
        removal_from_forms(objects, ids, keywords).fault is None,
        is_path(removal_from_forms(objects, ids, keywords).objects, ids, path),
    ensures
        resolve(removal_from_forms(objects, ids, keywords).objects, path.last()) matches Ok((_, Value::Stream(form)))
            ==> entry(form.dict, key("Subtype")) == Some(Value::Name(key("Form"))) ==> matches_nothing(
            form,
            lowercase_texts(keywords),
        ),
{
    let lower = lowercase_texts(keywords);
    lemma_forms_clean(objects, ids, ids.len() as int, lower, Seq::empty());
    law_clean_forms_match_nothing(removal_from_forms(objects, ids, keywords).objects, ids, lower, path);
}

} // verus!
