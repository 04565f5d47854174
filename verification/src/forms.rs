//! Form XObjects: content streams that pages and other forms draw, found through their resources.

use crate::clean::{
    changed_are_clean, clean_ones, form_is, forms_are, forms_are_clean, lemma_clean_on, lemma_each_form,
    lemma_form_cleaned, lemma_forms_stay, lemma_same_drawn, lemma_stay_good, rewritable_ones, stream_is,
    stream_is_clean,
};
use crate::frame::{law_content_reads_back, lemma_kept_on, lemma_kept_resolve, lemma_strip_kept, objects_kept};
use crate::page::{add_counts, references, strip_content, strip_stream};
use crate::pdf::{
    dictionary_get, dictionary_items, document_objects, document_trailer, get_object, get_object_mut, lemma_resolved,
    resolve, set_plain_content, with_plain_content, Fault, PdfError,
};
use crate::text::{lowercase_keywords, lowercase_texts, texts};
use crate::value::{dictionary_entries, entry, is_word, key, object_value, stream_value, StreamValue, Value};
use lopdf::{Dictionary, Document, Object, ObjectId, Stream};
use vstd::prelude::*;

verus! {

/// The values of the entries of a dictionary, in order.
pub open spec fn entry_values(entries: Seq<(Seq<u8>, Value)>) -> Seq<Value> {
    Seq::new(entries.len(), |i: int| entries[i].1)
}

/// The external objects that resources refer to, in a dictionary of their own, directly or by
/// reference.
pub open spec fn external_objects(
    objects: Map<ObjectId, Value>,
    resources: Seq<(Seq<u8>, Value)>,
) -> Seq<ObjectId> {
    match entry(resources, key("XObject")) {
        Some(Value::Dictionary(entries)) => references(entry_values(entries), entries.len() as int),
        Some(Value::Reference(id)) => named_objects(objects, id),
        _ => Seq::empty(),
    }
}

/// The external objects that a dictionary of them refers to.
pub open spec fn named_objects(objects: Map<ObjectId, Value>, id: ObjectId) -> Seq<ObjectId> {
    match resolve(objects, id) {
        Ok((_, Value::Dictionary(entries))) => references(entry_values(entries), entries.len() as int),
        _ => Seq::empty(),
    }
}

/// The external objects of the resources that a dictionary has, directly or by reference.
pub open spec fn drawn_objects(objects: Map<ObjectId, Value>, dict: Seq<(Seq<u8>, Value)>) -> Seq<ObjectId> {
    match entry(dict, key("Resources")) {
        Some(Value::Dictionary(resources)) => external_objects(objects, resources),
        Some(Value::Reference(id)) => match resolve(objects, id) {
            Ok((_, Value::Dictionary(resources))) => external_objects(objects, resources),
            _ => Seq::empty(),
        },
        _ => Seq::empty(),
    }
}

/// Whether an external object with this dictionary is a form.
pub open spec fn is_form(dict: Seq<(Seq<u8>, Value)>) -> bool {
    entry(dict, key("Subtype")) == Some(Value::Name(key("Form")))
}

/// The objects once the text blocks that match one of the keywords are removed from a form that
/// is the object `target`, and the number of blocks removed.
pub open spec fn strip_form(
    objects: Map<ObjectId, Value>,
    target: ObjectId,
    form: StreamValue,
    keywords: Seq<Seq<char>>,
) -> (Map<ObjectId, Value>, nat) {
    match strip_content(form, keywords) {
        Some((data, count)) => (objects.insert(target, Value::Stream(with_plain_content(form, data))), count),
        None => (objects, 0),
    }
}

/// How far the cleaning of forms has come.
pub struct FormState {
    /// The objects of the document.
    pub objects: Map<ObjectId, Value>,
    /// The number of blocks removed.
    pub removed: nat,
    /// What stopped the cleaning.
    pub fault: Option<Fault>,
}

/// How many object numbers are not among those of `open`.
pub open spec fn numbers_left(open: Seq<ObjectId>) -> int {
    0x1_0000_0000_0000 - open.to_set().len()
}

/// Cleans a form and the forms that it draws. The forms that are being cleaned are `open`: one
/// that draws itself, directly or through others, is a fault. What is no form is left alone.
pub open spec fn clean_form(
    objects: Map<ObjectId, Value>,
    id: ObjectId,
    keywords: Seq<Seq<char>>,
    open: Seq<ObjectId>,
) -> FormState
    decreases numbers_left(open), 0int,
{
    match resolve(objects, id) {
        Ok((target, Value::Stream(form))) => if !is_form(form.dict) {
            FormState { objects, removed: 0, fault: None }
        } else if open.contains(id) {
            FormState { objects, removed: 0, fault: Some(Fault::FormCycle(id)) }
        } else {
            proof {
                lemma_numbers_left(open, id);
            }
            let (after, count) = strip_form(objects, target, form, keywords);
            let inner = drawn_objects(after, form.dict);
            let state = clean_forms(after, inner, inner.len() as int, keywords, open.push(id));
            FormState { removed: add_counts(count, state.removed), ..state }
        },
        Ok(_) => FormState { objects, removed: 0, fault: None },
        Err(fault) => FormState { objects, removed: 0, fault: Some(fault) },
    }
}

/// Cleans the first `n` forms and those that they draw, one after the other, as far as there is
/// no fault.
pub open spec fn clean_forms(
    objects: Map<ObjectId, Value>,
    ids: Seq<ObjectId>,
    n: int,
    keywords: Seq<Seq<char>>,
    open: Seq<ObjectId>,
) -> FormState
    decreases numbers_left(open), n,
{
    if n <= 0 {
        FormState { objects, removed: 0, fault: None }
    } else {
        let state = clean_forms(objects, ids, n - 1, keywords, open);
        if state.fault is Some {
            state
        } else {
            let outcome = clean_form(state.objects, ids[n - 1], keywords, open);
            FormState { removed: add_counts(state.removed, outcome.removed), ..outcome }
        }
    }
}

/// The objects once the text blocks that contain one of the keywords, whatever its case, are
/// removed from the external objects with these numbers, as far as they are forms.
pub open spec fn removal_from_forms(
    objects: Map<ObjectId, Value>,
    ids: Seq<ObjectId>,
    keywords: Seq<Seq<char>>,
) -> FormState {
    clean_forms(objects, ids, ids.len() as int, lowercase_texts(keywords), Seq::empty())
}

/// There are only so many object numbers, so that fewer are left with each one that is added.
pub proof fn lemma_numbers_left(open: Seq<ObjectId>, id: ObjectId)
    requires
        !open.contains(id),
    ensures
        0 <= numbers_left(open.push(id)) < numbers_left(open),
{
    let after = open.push(id);
    vstd::seq_lib::seq_to_set_is_finite(open);
    vstd::seq_lib::seq_to_set_is_finite(after);
    assert(after.to_set() =~= open.to_set().insert(id)) by {
        assert forall|other: ObjectId| after.to_set().contains(other) implies open.to_set().insert(id).contains(
            other,
        ) by {
            let i = choose|i: int| 0 <= i < after.len() && after[i] == other;
            if i < open.len() {
                assert(open[i] == other);
            }
        }
        assert forall|other: ObjectId| open.to_set().insert(id).contains(other) implies after.to_set().contains(
            other,
        ) by {
            if other == id {
                assert(after[open.len() as int] == id);
            } else {
                let i = choose|i: int| 0 <= i < open.len() && open[i] == other;
                assert(after[i] == other);
            }
        }
    }
    let number = |id: ObjectId| id.0 as int * 0x1_0000 + id.1 as int;
    let numbers = after.to_set().map(number);
    assert(vstd::relations::injective_on(number, after.to_set()));
    vstd::set_lib::lemma_map_size(after.to_set(), numbers, number);
    let all = vstd::set_lib::set_int_range(0, 0x1_0000_0000_0000);
    vstd::set_lib::lemma_int_range(0, 0x1_0000_0000_0000);
    assert(numbers.subset_of(all));
    vstd::set_lib::lemma_len_subset(numbers, all);
}

proof fn lemma_form_fault_stays(
    objects: Map<ObjectId, Value>,
    ids: Seq<ObjectId>,
    n: int,
    m: int,
    keywords: Seq<Seq<char>>,
    open: Seq<ObjectId>,
)
    requires
        n <= m,
        clean_forms(objects, ids, n, keywords, open).fault is Some,
    ensures
        clean_forms(objects, ids, m, keywords, open) == clean_forms(objects, ids, n, keywords, open),
    decreases m - n,
{
    if n < m {
        lemma_form_fault_stays(objects, ids, n, m - 1, keywords, open);
    }
}

/// The external objects that a dictionary of them refers to.
fn dictionary_objects(dict: &Dictionary) -> (r: Vec<ObjectId>)
    ensures
        r@ == references(
            entry_values(dictionary_entries(*dict)),
            dictionary_entries(*dict).len() as int,
        ),
{
    let ghost values = entry_values(dictionary_entries(*dict));
    let items = dictionary_items(dict);
    let mut ids: Vec<ObjectId> = Vec::new();
    for i in 0..items.len()
        invariant
            values.len() == items@.len(),
            forall|j: int| 0 <= j < items@.len() ==> object_value((#[trigger] items@[j]).1) == values[j],
            ids@ == references(values, i as int),
    {
        assert(values[i as int] == object_value(items@[i as int].1));
        if let Object::Reference(id) = &items[i].1 {
            ids.push(*id);
        }
    }
    ids
}

/// Where the external objects of a dictionary with resources are found.
enum Resources {
    /// These are the objects.
    Objects(Vec<ObjectId>),
    /// The object with this number is the dictionary of external objects.
    Named(ObjectId),
    /// The object with this number is the dictionary of resources.
    At(ObjectId),
}

/// The external objects that are found there.
spec fn objects_at(objects: Map<ObjectId, Value>, resources: Resources) -> Seq<ObjectId> {
    match resources {
        Resources::Objects(ids) => ids@,
        Resources::Named(id) => named_objects(objects, id),
        Resources::At(id) => match resolve(objects, id) {
            Ok((_, Value::Dictionary(dict))) => external_objects(objects, dict),
            _ => Seq::empty(),
        },
    }
}

/// Where the external objects of resources are found.
fn objects_of(resources: &Dictionary) -> (r: Resources)
    ensures
        forall|objects: Map<ObjectId, Value>| #[trigger]
            external_objects(objects, dictionary_entries(*resources)) == objects_at(objects, r),
        !(r is At),
{
    match dictionary_get(resources, "XObject") {
        Some(Object::Dictionary(dict)) => Resources::Objects(dictionary_objects(dict)),
        Some(Object::Reference(id)) => Resources::Named(*id),
        _ => Resources::Objects(Vec::new()),
    }
}

/// Where the external objects of a dictionary with resources are found.
fn resources_of(dict: &Dictionary) -> (r: Resources)
    ensures
        forall|objects: Map<ObjectId, Value>| #[trigger]
            drawn_objects(objects, dictionary_entries(*dict)) == objects_at(objects, r),
{
    match dictionary_get(dict, "Resources") {
        Some(Object::Dictionary(resources)) => {
            let found = objects_of(resources);
            assert forall|objects: Map<ObjectId, Value>| #[trigger]
                drawn_objects(objects, dictionary_entries(*dict)) == objects_at(objects, found) by {
                assert(external_objects(objects, dictionary_entries(*resources)) == objects_at(objects, found));
            }
            found
        },
        Some(Object::Reference(id)) => Resources::At(*id),
        _ => Resources::Objects(Vec::new()),
    }
}

/// The external objects that are found there, once the dictionary of resources is.
fn find_named(doc: &Document, resources: Resources) -> (r: Vec<ObjectId>)
    requires
        !(resources is At),
    ensures
        r@ == objects_at(document_objects(*doc), resources),
{
    match resources {
        Resources::Objects(ids) => ids,
        Resources::Named(id) => match get_object(doc, id) {
            Ok(Object::Dictionary(dict)) => dictionary_objects(dict),
            _ => Vec::new(),
        },
        Resources::At(_) => Vec::new(),
    }
}

fn find_objects(doc: &Document, resources: Resources) -> (r: Vec<ObjectId>)
    ensures
        r@ == objects_at(document_objects(*doc), resources),
{
    match resources {
        Resources::At(id) => match get_object(doc, id) {
            Ok(Object::Dictionary(dict)) => find_named(doc, objects_of(dict)),
            _ => Vec::new(),
        },
        other => find_named(doc, other),
    }
}

/// The external objects of the resources that a dictionary has, directly or by reference.
pub(crate) fn objects_drawn(doc: &Document, dict: &Dictionary) -> (r: Vec<ObjectId>)
    ensures
        r@ == drawn_objects(document_objects(*doc), dictionary_entries(*dict)),
{
    find_objects(doc, resources_of(dict))
}

/// Whether an external object is a form.
fn stream_is_form(stream: &Stream) -> (r: bool)
    ensures
        r == is_form(stream_value(*stream).dict),
{
    match dictionary_get(&stream.dict, "Subtype") {
        Some(Object::Name(name)) => {
            assert(name@.subrange(0, name@.len() as int) =~= name@);
            is_word(name.as_slice(), 0, name.len(), "Form")
        },
        _ => false,
    }
}

/// Whether a number is among those of `ids`.
fn contains_id(ids: &[ObjectId], id: ObjectId) -> (r: bool)
    ensures
        r == ids@.contains(id),
{
    for i in 0..ids.len()
        invariant
            forall|j: int| 0 <= j < i ==> ids@[j] != id,
    {
        if ids[i].0 == id.0 && ids[i].1 == id.1 {
            assert(ids@[i as int] == id);
            return true;
        }
    }
    false
}

/// Removes the text blocks that match one of the keywords from one form. Gives the number of
/// blocks removed and the external objects that the form draws: `None` if it is no form.
fn clean_one_form(doc: &mut Document, id: ObjectId, kws: &[String], open: &[ObjectId]) -> (r: Result<
    Option<(usize, Vec<ObjectId>)>,
    PdfError,
>)
    ensures
        document_trailer(*final(doc)) == document_trailer(*old(doc)),
        match resolve(document_objects(*old(doc)), id) {
            Ok((target, Value::Stream(form))) => if !is_form(form.dict) {
                r matches Ok(None) && document_objects(*final(doc)) == document_objects(*old(doc))
            } else if open@.contains(id) {
                (r matches Err(error) && error@ == Fault::FormCycle(id)) && document_objects(*final(doc))
                    == document_objects(*old(doc))
            } else {
                let (after, count) = strip_form(document_objects(*old(doc)), target, form, texts(kws@));
                (r matches Ok(Some((removed, inner))) && removed == count && inner@ == drawn_objects(after, form.dict))
                    && document_objects(*final(doc)) == after
            },
            Ok(_) => r matches Ok(None) && document_objects(*final(doc)) == document_objects(*old(doc)),
            Err(fault) => (r matches Err(error) && error@ == fault) && document_objects(*final(doc))
                == document_objects(*old(doc)),
        },
        objects_kept(document_objects(*old(doc)), document_objects(*final(doc)), Set::empty()),
        stream_is(document_objects(*old(doc)), id, rewritable_ones(texts(kws@))) ==> changed_are_clean(
            document_objects(*old(doc)),
            document_objects(*final(doc)),
            texts(kws@),
        ) && (r matches Ok(Some(_)) ==> stream_is_clean(document_objects(*final(doc)), id, texts(kws@))),
{
    let ghost before = document_objects(*doc);
    let ghost keywords = texts(kws@);
    proof {
        lemma_resolved(before, id);
    }
    let (stripped, resources) = match get_object(doc, id) {
        Ok(Object::Stream(stream)) => {
            if !stream_is_form(stream) {
                return Ok(None);
            }
            if contains_id(open, id) {
                return Err(PdfError::FormCycle(id));
            }
            (strip_stream(stream, kws), resources_of(&stream.dict))
        },
        Ok(_) => return Ok(None),
        Err(error) => return Err(error),
    };
    let removed: usize = match stripped {
        Some((data, removed)) => {
            if let Ok(Object::Stream(stream)) = get_object_mut(doc, id) {
                let ghost form = stream_value(*stream);
                let ghost bytes = data@;
                set_plain_content(stream, data);
                proof {
                    let target = resolve(before, id)->Ok_0.0;
                    law_content_reads_back(form, bytes);
                    lemma_strip_kept(before, target, form, keywords);
                    lemma_kept_resolve(before, strip_form(before, target, form, keywords).0, Set::empty(), id);
                }
            }
            removed
        },
        None => 0,
    };
    Ok(Some((removed, find_objects(doc, resources))))
}

/// Cleans forms and those that they draw, one after the other, and gives the number of blocks
/// removed. The forms that are being cleaned are `open`.
fn clean_form_list(doc: &mut Document, ids: &[ObjectId], kws: &[String], open: &mut Vec<ObjectId>) -> (r: Result<
    usize,
    PdfError,
>)
    ensures
        document_trailer(*final(doc)) == document_trailer(*old(doc)),
        ({
            let state = clean_forms(document_objects(*old(doc)), ids@, ids@.len() as int, texts(kws@), old(open)@);
            &&& document_objects(*final(doc)) == state.objects
            &&& match r {
                Ok(removed) => state.fault is None && state.removed == removed && final(open)@ == old(open)@,
                Err(error) => state.fault == Some(error@),
            }
        }),
        objects_kept(document_objects(*old(doc)), document_objects(*final(doc)), Set::empty()),
        forms_are(
            document_objects(*old(doc)),
            ids@,
            ids@.len() as int,
            rewritable_ones(texts(kws@)),
            old(open)@,
        ) ==> changed_are_clean(
            document_objects(*old(doc)),
            document_objects(*final(doc)),
            texts(kws@),
        ) && (r is Ok ==> forms_are_clean(
            document_objects(*final(doc)),
            ids@,
            ids@.len() as int,
            texts(kws@),
            old(open)@,
        )),
    decreases numbers_left(old(open)@),
{
    let ghost first = document_objects(*doc);
    let ghost keywords = texts(kws@);
    let ghost writable = forms_are(first, ids@, ids@.len() as int, rewritable_ones(keywords), open@);
    let mut total: usize = 0;
    for i in 0..ids.len()
        invariant
            document_trailer(*doc) == document_trailer(*old(doc)),
            open@ == old(open)@,
            clean_forms(document_objects(*old(doc)), ids@, i as int, texts(kws@), open@) == (FormState {
                objects: document_objects(*doc),
                removed: total as nat,
                fault: None,
            }),
            first == document_objects(*old(doc)),
            keywords == texts(kws@),
            objects_kept(first, document_objects(*doc), Set::empty()),
            writable == forms_are(first, ids@, ids@.len() as int, rewritable_ones(keywords), open@),
            writable ==> {
                &&& changed_are_clean(first, document_objects(*doc), keywords)
                &&& forms_are(document_objects(*doc), ids@, ids@.len() as int, rewritable_ones(keywords), open@)
                &&& forms_are_clean(document_objects(*doc), ids@, i as int, keywords, open@)
            },
    {
        let ghost before = document_objects(*doc);
        let id = ids[i];
        proof {
            lemma_resolved(before, id);
            if writable {
                lemma_each_form(before, ids@, ids@.len() as int, rewritable_ones(keywords), open@, i as int);
            }
        }
        let ghost outcome = clean_form(before, id, texts(kws@), open@);
        assert(clean_forms(document_objects(*old(doc)), ids@, i + 1, texts(kws@), open@) == (FormState {
            removed: add_counts(total as nat, outcome.removed),
            ..outcome
        }));
        let removed: usize = match clean_one_form(doc, id, kws, open.as_slice()) {
            Ok(Some((own, inner))) => {
                let ghost between = document_objects(*doc);
                proof {
                    lemma_numbers_left(open@, id);
                    if writable {
                        let form = resolve(before, id)->Ok_0.1->Stream_0;
                        let drawn = drawn_objects(before, form.dict);
                        lemma_same_drawn(before, between, Set::empty(), form.dict, form.dict);
                        lemma_stay_good(before, between, keywords);
                        lemma_forms_stay(
                            before,
                            between,
                            Set::empty(),
                            drawn,
                            drawn.len() as int,
                            rewritable_ones(keywords),
                            open@.push(id),
                        );
                    }
                }
                open.push(id);
                let result = clean_form_list(doc, inner.as_slice(), kws, open);
                let ghost after = document_objects(*doc);
                proof {
                    lemma_kept_on(before, between, after, Set::empty(), Set::empty());
                    lemma_kept_on(first, before, after, Set::empty(), Set::empty());
                    assert(Set::<ObjectId>::empty().union(Set::empty()) =~= Set::<ObjectId>::empty());
                    if writable {
                        lemma_clean_on(before, between, after, keywords);
                        lemma_clean_on(first, before, after, keywords);
                        if result is Ok {
                            lemma_form_cleaned(before, between, after, id, keywords, old(open)@);
                        }
                    }
                }
                match result {
                    Ok(nested) => {
                        open.pop();
                        assert(open@ =~= old(open)@);
                        own.saturating_add(nested)
                    },
                    Err(error) => {
                        proof {
                            lemma_form_fault_stays(
                                document_objects(*old(doc)),
                                ids@,
                                i + 1,
                                ids@.len() as int,
                                texts(kws@),
                                old(open)@,
                            );
                        }
                        return Err(error);
                    },
                }
            },
            Ok(None) => 0,
            Err(error) => {
                proof {
                    lemma_form_fault_stays(
                        document_objects(*old(doc)),
                        ids@,
                        i + 1,
                        ids@.len() as int,
                        texts(kws@),
                        old(open)@,
                    );
                }
                return Err(error);
            },
        };
        total = total.saturating_add(removed);
        proof {
            if writable {
                let after = document_objects(*doc);
                lemma_clean_on(first, before, after, keywords);
                lemma_stay_good(before, after, keywords);
                lemma_forms_stay(before, after, Set::empty(), ids@, i as int, clean_ones(keywords), open@);
                lemma_forms_stay(
                    before,
                    after,
                    Set::empty(),
                    ids@,
                    ids@.len() as int,
                    rewritable_ones(keywords),
                    open@,
                );
                assert(form_is(after, id, clean_ones(keywords), open@));
                assert(forms_are_clean(after, ids@, i + 1, keywords, open@));
            }
        }
    }
    Ok(total)
}

/// Removes the text blocks that contain one of the keywords, whatever its case, from the external
/// objects with these numbers, as far as they are forms, and from the forms that they draw.
pub(crate) fn remove_watermarks_from_forms(doc: &mut Document, ids: &[ObjectId], keywords: &[String]) -> (r: Result<
    usize,
    PdfError,
>)
    ensures
        document_trailer(*final(doc)) == document_trailer(*old(doc)),
        ({
            let state = removal_from_forms(document_objects(*old(doc)), ids@, texts(keywords@));
            &&& document_objects(*final(doc)) == state.objects
            &&& match r {
                Ok(removed) => state.fault is None && state.removed == removed,
                Err(error) => state.fault == Some(error@),
            }
        }),
        objects_kept(document_objects(*old(doc)), document_objects(*final(doc)), Set::empty()),
        ({
            let lower = lowercase_texts(texts(keywords@));
            let ids = ids@;
            forms_are(
                document_objects(*old(doc)),
                ids,
                ids.len() as int,
                rewritable_ones(lower),
                Seq::empty(),
            ) ==> changed_are_clean(
                document_objects(*old(doc)),
                document_objects(*final(doc)),
                lower,
            ) && (r is Ok ==> forms_are_clean(
                document_objects(*final(doc)),
                ids,
                ids.len() as int,
                lower,
                Seq::empty(),
            ))
        }),
{
    let kws = lowercase_keywords(keywords);
    let mut open: Vec<ObjectId> = Vec::new();
    assert(open@ =~= Seq::<ObjectId>::empty());
    clean_form_list(doc, ids, kws.as_slice(), &mut open)
}

/// Removes the text blocks that contain one of the keywords, whatever its case, from the forms
/// that resources refer to and from those that these forms draw. Gives the number of blocks
/// removed. A form that draws itself is a fault.
///
/// Where what is written to these forms can be read again, none of them has a block that matches
/// afterwards.
pub fn remove_watermarks_from_resources(
    doc: &mut Document,
    resources: Option<&Dictionary>,
    keywords: &[String],
) -> (r: Result<usize, PdfError>)
    ensures
        document_trailer(*final(doc)) == document_trailer(*old(doc)),
        ({
            let state = removal_from_forms(
                document_objects(*old(doc)),
                match resources {
                    Some(dict) => external_objects(document_objects(*old(doc)), dictionary_entries(*dict)),
                    None => Seq::empty(),
                },
                texts(keywords@),
            );
            &&& document_objects(*final(doc)) == state.objects
            &&& match r {
                Ok(removed) => state.fault is None && state.removed == removed,
                Err(error) => state.fault == Some(error@),
            }
        }),
        objects_kept(document_objects(*old(doc)), document_objects(*final(doc)), Set::empty()),
        ({
            let lower = lowercase_texts(texts(keywords@));
            let ids = (match resources {
                Some(dict) => external_objects(document_objects(*old(doc)), dictionary_entries(*dict)),
                None => Seq::empty(),
            });
            forms_are(
                document_objects(*old(doc)),
                ids,
                ids.len() as int,
                rewritable_ones(lower),
                Seq::empty(),
            ) ==> changed_are_clean(
                document_objects(*old(doc)),
                document_objects(*final(doc)),
                lower,
            ) && (r is Ok ==> forms_are_clean(
                document_objects(*final(doc)),
                ids,
                ids.len() as int,
                lower,
                Seq::empty(),
            ))
        }),
{
    let ids = match resources {
        Some(dict) => find_named(doc, objects_of(dict)),
        None => Vec::new(),
    };
    remove_watermarks_from_forms(doc, ids.as_slice(), keywords)
}

} // verus!
