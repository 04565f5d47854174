//! Whole documents: unlocking them, and removing watermarks from all their pages.

use crate::clean::{
    changed_are_clean, clean_ones, forms_apart, lemma_clean_is_rewritable, lemma_clean_on, lemma_fewer_apart,
    lemma_other_page_stays, lemma_page_stays_with_forms, lemma_rewritable_forms, lemma_rewritable_page, lemma_stay_good,
    lemma_stays_apart, lemma_stays_rewritable, page_and_forms_are, page_and_forms_are_clean, rewritable,
    rewritable_ones,
};
use crate::forms::{drawn_objects, objects_drawn, removal_from_forms, remove_watermarks_from_forms};
use crate::frame::{lemma_kept_on, lemma_kept_resolve, lemma_page_targets, objects_kept, page_target, page_targets};
use crate::page::{add_counts, removal_from_page, remove_watermarks_from_page};
use crate::pdf::{
    decrypt, decryption, document_objects, document_trailer, encrypted, get_object, get_pages, is_encrypted, page_list,
    remove_from_trailer, resolve, Fault, PdfError,
};
use crate::text::{lowercase_texts, texts};
use crate::value::{entry, key, without_entry, Value};
use lopdf::{Document, Object, ObjectId};
use vstd::prelude::*;

verus! {

/// What was removed from a document.
#[derive(Debug, Clone)]
pub struct RemovalReport {
    /// The number of text blocks removed.
    pub removed_blocks: usize,
    /// The number of pages whose own content lost text blocks.
    pub pages_touched: usize,
    /// The number of pages of the document.
    pub total_pages: usize,
    /// Always `false`: nothing of the encryption is left in a cleaned document.
    pub was_encrypted: bool,
}

/// The external objects that a page draws.
pub open spec fn page_objects(objects: Map<ObjectId, Value>, page: ObjectId) -> Seq<ObjectId> {
    match resolve(objects, page) {
        Ok((_, Value::Dictionary(dict))) => drawn_objects(objects, dict),
        _ => Seq::empty(),
    }
}

/// How far the cleaning of a document has come.
pub struct DocumentState {
    /// The objects of the document.
    pub objects: Map<ObjectId, Value>,
    /// The number of text blocks removed.
    pub removed: nat,
    /// The number of pages whose own content lost text blocks.
    pub touched: nat,
    /// What stopped the cleaning.
    pub fault: Option<Fault>,
}

/// Removes the text blocks that contain one of the keywords from the first `n` pages and from the
/// forms that they draw, page by page, as far as there is no fault.
pub open spec fn clean_pages(
    objects: Map<ObjectId, Value>,
    pages: Seq<ObjectId>,
    n: int,
    keywords: Seq<Seq<char>>,
) -> DocumentState
    decreases n,
{
    if n <= 0 {
        DocumentState { objects, removed: 0, touched: 0, fault: None }
    } else {
        let state = clean_pages(objects, pages, n - 1, keywords);
        if state.fault is Some {
            state
        } else {
            match removal_from_page(state.objects, pages[n - 1], keywords) {
                (after, Err(fault)) => DocumentState { objects: after, fault: Some(fault), ..state },
                (after, Ok(count)) => {
                    let forms = removal_from_forms(after, page_objects(after, pages[n - 1]), keywords);
                    DocumentState {
                        objects: forms.objects,
                        removed: add_counts(add_counts(state.removed, count), forms.removed),
                        touched: if count > 0 {
                            state.touched + 1
                        } else {
                            state.touched
                        },
                        fault: forms.fault,
                    }
                },
            }
        }
    }
}

/// Removes the text blocks that contain one of the keywords from all pages of a document.
pub open spec fn removal(
    objects: Map<ObjectId, Value>,
    trailer: Seq<(Seq<u8>, Value)>,
    keywords: Seq<Seq<char>>,
) -> DocumentState {
    let pages = page_list(objects, trailer);
    clean_pages(objects, pages, pages.len() as int, keywords)
}

/// Whether the content streams of these pages and the forms that they draw are rewritable.
pub open spec fn pages_are_rewritable(
    objects: Map<ObjectId, Value>,
    pages: Seq<ObjectId>,
    keywords: Seq<Seq<char>>,
) -> bool {
    forall|p: int|
        0 <= p < pages.len() ==> page_and_forms_are(objects, #[trigger] pages[p], rewritable_ones(keywords))
}

proof fn lemma_page_fault_stays(
    objects: Map<ObjectId, Value>,
    pages: Seq<ObjectId>,
    n: int,
    m: int,
    keywords: Seq<Seq<char>>,
)
    requires
        n <= m,
        clean_pages(objects, pages, n, keywords).fault is Some,
    ensures
        clean_pages(objects, pages, m, keywords) == clean_pages(objects, pages, n, keywords),
    decreases m - n,
{
    if n < m {
        lemma_page_fault_stays(objects, pages, n, m - 1, keywords);
    }
}

/// Decrypts a document that is still encrypted after it was read, if there is a password to try.
/// A document that an empty password opens is decrypted when it is read.
pub fn unlock(doc: &mut Document, password: Option<&str>) -> (r: Result<(), PdfError>)
    ensures
        ({
            let objects = document_objects(*old(doc));
            let trailer = document_trailer(*old(doc));
            match password {
                Some(text) if encrypted(objects, trailer) => {
                    let (opened, after) = decryption(objects, trailer, text@);
                    &&& document_objects(*final(doc)) == after
                    &&& if opened {
                        r is Ok && document_trailer(*final(doc)) == without_entry(trailer, key("Encrypt"))
                    } else {
                        (r matches Err(error) && error@ == Fault::Locked) && document_trailer(*final(doc)) == trailer
                    }
                },
                _ => r is Ok && document_objects(*final(doc)) == objects && document_trailer(*final(doc)) == trailer,
            }
        }),
{
    if let Some(text) = password {
        if is_encrypted(doc) {
            return match decrypt(doc, text) {
                Ok(()) => Ok(()),
                Err(error) => Err(PdfError::Locked(error)),
            };
        }
    }
    Ok(())
}

/// The external objects that a page draws.
fn objects_on_page(doc: &Document, page_id: ObjectId) -> (r: Vec<ObjectId>)
    ensures
        r@ == page_objects(document_objects(*doc), page_id),
{
    match get_object(doc, page_id) {
        Ok(Object::Dictionary(dict)) => objects_drawn(doc, dict),
        _ => Vec::new(),
    }
}

/// Removes the text blocks that contain one of the keywords, whatever its case, from these pages
/// and from the forms that they draw.
///
/// Where what is written to their streams can be read again and none of these pages is used as a
/// dictionary of external objects, no block of the pages and forms matches afterwards, and a stream
/// that was changed shows what was left of it.
pub fn remove_watermarks_from_pages(doc: &mut Document, pages: &[ObjectId], keywords: &[String]) -> (r: Result<
    RemovalReport,
    PdfError,
>)
    ensures
        document_trailer(*final(doc)) == document_trailer(*old(doc)),
        ({
            let state = clean_pages(document_objects(*old(doc)), pages@, pages@.len() as int, texts(keywords@));
            &&& document_objects(*final(doc)) == state.objects
            &&& match r {
                Ok(report) => {
                    &&& state.fault is None
                    &&& report.removed_blocks == state.removed
                    &&& report.pages_touched == state.touched
                    &&& report.total_pages == pages@.len()
                    &&& !report.was_encrypted
                    &&& report.pages_touched <= report.removed_blocks
                },
                Err(error) => state.fault == Some(error@),
            }
        }),
        ({
            let lower = lowercase_texts(texts(keywords@));
            let targets = page_targets(document_objects(*old(doc)), pages@, pages@.len() as int);
            &&& objects_kept(document_objects(*old(doc)), document_objects(*final(doc)), targets)
            &&& rewritable(document_objects(*old(doc)), lower) ==> changed_are_clean(
                document_objects(*old(doc)),
                document_objects(*final(doc)),
                lower,
            )
            &&& forms_apart(document_objects(*old(doc)), targets) && pages_are_rewritable(
                document_objects(*old(doc)),
                pages@,
                lower,
            ) ==> changed_are_clean(document_objects(*old(doc)), document_objects(*final(doc)), lower) && (r is Ok
                ==> forall|i: int|
                0 <= i < pages@.len() ==> page_and_forms_are_clean(
                    document_objects(*final(doc)),
                    #[trigger] pages@[i],
                    lower,
                ))
        }),
{
    let ghost first = document_objects(*doc);
    let ghost lower = lowercase_texts(texts(keywords@));
    let ghost targets = page_targets(first, pages@, pages@.len() as int);
    let ghost apart = forms_apart(first, targets) && pages_are_rewritable(first, pages@, lower);
    let mut removed_blocks: usize = 0;
    let mut pages_touched: usize = 0;
    for i in 0..pages.len()
        invariant
            document_trailer(*doc) == document_trailer(*old(doc)),
            pages_touched <= i,
            clean_pages(document_objects(*old(doc)), pages@, i as int, texts(keywords@)) == (DocumentState {
                objects: document_objects(*doc),
                removed: removed_blocks as nat,
                touched: pages_touched as nat,
                fault: None,
            }),
            first == document_objects(*old(doc)),
            lower == lowercase_texts(texts(keywords@)),
            targets == page_targets(first, pages@, pages@.len() as int),
            objects_kept(first, document_objects(*doc), targets),
            pages_touched <= removed_blocks,
            rewritable(first, lower) ==> rewritable(document_objects(*doc), lower) && changed_are_clean(
                first,
                document_objects(*doc),
                lower,
            ),
            apart == (forms_apart(first, targets) && pages_are_rewritable(first, pages@, lower)),
            apart ==> {
                &&& changed_are_clean(first, document_objects(*doc), lower)
                &&& pages_are_rewritable(document_objects(*doc), pages@, lower)
                &&& forall|p: int|
                    0 <= p < i ==> page_and_forms_are_clean(document_objects(*doc), #[trigger] pages@[p], lower)
            },
    {
        let ghost before = document_objects(*doc);
        let ghost page = pages@[i as int];
        proof {
            if rewritable(first, lower) {
                lemma_rewritable_page(before, page, lower);
            }
            assert(apart ==> page_and_forms_are(before, page, rewritable_ones(lower)));
        }
        let result = remove_watermarks_from_page(doc, pages[i], keywords);
        let ghost between = document_objects(*doc);
        proof {
            lemma_kept_resolve(first, before, targets, page);
            assert(page_target(before, page) =~= page_target(first, page));
            lemma_page_targets(first, pages@, i as int);
            lemma_kept_on(first, before, between, targets, page_target(first, page));
            assert(targets.union(page_target(first, page)) =~= targets);
            if rewritable(first, lower) {
                lemma_clean_on(first, before, between, lower);
                lemma_stays_rewritable(before, between, page_target(before, page), lower);
            }
            if apart {
                lemma_clean_on(first, before, between, lower);
                lemma_stay_good(before, between, lower);
                lemma_stays_apart(first, before, targets, targets);
                lemma_fewer_apart(before, targets, page_target(before, page));
            }
        }
        match result {
            Ok(removed) => {
                if removed > 0 {
                    pages_touched += 1;
                }
                removed_blocks = removed_blocks.saturating_add(removed);
            },
            Err(error) => {
                proof {
                    lemma_page_fault_stays(
                        document_objects(*old(doc)),
                        pages@,
                        i + 1,
                        pages@.len() as int,
                        texts(keywords@),
                    );
                }
                return Err(error);
            },
        }
        let forms = objects_on_page(doc, pages[i]);
        proof {
            if rewritable(first, lower) {
                lemma_rewritable_forms(between, forms@, forms@.len() as int, lower, Seq::empty());
            }
            if apart {
                lemma_clean_is_rewritable(between, page, lower);
                assert forall|p: int| 0 <= p < pages@.len() implies page_and_forms_are(
                    between,
                    #[trigger] pages@[p],
                    rewritable_ones(lower),
                ) by {
                    lemma_other_page_stays(before, between, rewritable_ones(lower), page, pages@[p]);
                }
                assert(page_and_forms_are(between, page, rewritable_ones(lower)));
            }
        }
        let result = remove_watermarks_from_forms(doc, forms.as_slice(), keywords);
        let ghost after = document_objects(*doc);
        proof {
            lemma_kept_on(first, between, after, targets, Set::empty());
            assert(targets.union(Set::empty()) =~= targets);
            if rewritable(first, lower) {
                lemma_clean_on(first, between, after, lower);
                lemma_stays_rewritable(between, after, Set::empty(), lower);
            }
            if apart {
                lemma_clean_on(first, between, after, lower);
                lemma_stay_good(between, after, lower);
            }
        }
        match result {
            Ok(removed) => {
                removed_blocks = removed_blocks.saturating_add(removed);
                proof {
                    if apart {
                        lemma_page_stays_with_forms(between, after, clean_ones(lower), page);
                        assert forall|p: int| 0 <= p < i + 1 implies page_and_forms_are_clean(
                            after,
                            #[trigger] pages@[p],
                            lower,
                        ) by {
                            if p < i {
                                lemma_other_page_stays(before, between, clean_ones(lower), page, pages@[p]);
                                lemma_page_stays_with_forms(between, after, clean_ones(lower), pages@[p]);
                            }
                        }
                        assert forall|p: int| 0 <= p < pages@.len() implies page_and_forms_are(
                            after,
                            #[trigger] pages@[p],
                            rewritable_ones(lower),
                        ) by {
                            lemma_page_stays_with_forms(between, after, rewritable_ones(lower), pages@[p]);
                        }
                    }
                }
            },
            Err(error) => {
                proof {
                    lemma_page_fault_stays(
                        document_objects(*old(doc)),
                        pages@,
                        i + 1,
                        pages@.len() as int,
                        texts(keywords@),
                    );
                }
                return Err(error);
            },
        }
    }
    Ok(RemovalReport { removed_blocks, pages_touched, total_pages: pages.len(), was_encrypted: false })
}

/// Removes the text blocks that contain one of the keywords, whatever its case, from all pages of
/// a document and from the forms that they draw, and drops the encryption of the document. What
/// [`remove_watermarks_from_pages`] achieves for pages is achieved for all.
pub fn remove_watermarks(doc: &mut Document, keywords: &[String]) -> (r: Result<RemovalReport, PdfError>)
    ensures
        ({
            let trailer = document_trailer(*old(doc));
            let state = removal(document_objects(*old(doc)), trailer, texts(keywords@));
            &&& document_objects(*final(doc)) == state.objects
            &&& match r {
                Ok(report) => {
                    &&& state.fault is None
                    &&& report.removed_blocks == state.removed
                    &&& report.pages_touched == state.touched
                    &&& report.total_pages == page_list(document_objects(*old(doc)), trailer).len()
                    &&& !report.was_encrypted
                    &&& report.pages_touched <= report.removed_blocks
                    &&& document_trailer(*final(doc)) == without_entry(trailer, key("Encrypt"))
                    &&& entry(document_trailer(*final(doc)), key("Encrypt")) is None
                    &&& !encrypted(document_objects(*final(doc)), document_trailer(*final(doc)))
                },
                Err(error) => state.fault == Some(error@) && document_trailer(*final(doc)) == trailer,
            }
        }),
        ({
            let lower = lowercase_texts(texts(keywords@));
            let pages = page_list(document_objects(*old(doc)), document_trailer(*old(doc)));
            let targets = page_targets(document_objects(*old(doc)), pages, pages.len() as int);
            &&& objects_kept(document_objects(*old(doc)), document_objects(*final(doc)), targets)
            &&& rewritable(document_objects(*old(doc)), lower) ==> changed_are_clean(
                document_objects(*old(doc)),
                document_objects(*final(doc)),
                lower,
            )
            &&& forms_apart(document_objects(*old(doc)), targets) && pages_are_rewritable(
                document_objects(*old(doc)),
                pages,
                lower,
            ) ==> changed_are_clean(document_objects(*old(doc)), document_objects(*final(doc)), lower) && (r is Ok
                ==> forall|i: int|
                0 <= i < pages.len() ==> page_and_forms_are_clean(
                    document_objects(*final(doc)),
                    #[trigger] pages[i],
                    lower,
                ))
        }),
{
    let pages = get_pages(doc);
    match remove_watermarks_from_pages(doc, pages.as_slice(), keywords) {
        Ok(report) => {
            remove_from_trailer(doc, "Encrypt");
            Ok(report)
        },
        Err(error) => Err(error),
    }
}

} // verus!
