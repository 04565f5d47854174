use lopdf::{Dictionary, Document, Object, ObjectId, Stream};
use pdf_wm_remover::analysis::repeated_texts;
use pdf_wm_remover::blocks::FontSize;
use pdf_wm_remover::{analyze, page_has_keyword, Candidate, PdfError, TextBlock};

fn block(text: &str, size: i64) -> TextBlock {
    TextBlock { text: text.to_string(), size: FontSize::Integer(size), op_start: 0, op_end: 1 }
}

fn summary(candidates: &[Candidate]) -> Vec<(String, u32, usize, usize)> {
    candidates.iter().map(|c| (c.text.clone(), c.size, c.count, c.sample_page)).collect()
}

fn line(text: &str, size: u32, count: usize, sample_page: usize) -> (String, u32, usize, usize) {
    (text.to_string(), size, count, sample_page)
}

fn document(pages: &[&str]) -> Document {
    let mut doc = Document::with_version("1.5");
    let pages_id = doc.new_object_id();
    let mut kids: Vec<Object> = Vec::new();
    for page in pages {
        let content = doc.add_object(Stream::new(Dictionary::new(), page.as_bytes().to_vec()));
        let mut dict = Dictionary::new();
        dict.set("Type", "Page");
        dict.set("Parent", pages_id);
        dict.set("Contents", content);
        kids.push(Object::Reference(doc.add_object(dict)));
    }
    let mut tree = Dictionary::new();
    tree.set("Type", "Pages");
    tree.set("Count", kids.len() as i64);
    tree.set("Kids", kids);
    doc.objects.insert(pages_id, Object::Dictionary(tree));
    let mut catalog = Dictionary::new();
    catalog.set("Type", "Catalog");
    catalog.set("Pages", pages_id);
    let catalog_id = doc.add_object(catalog);
    doc.trailer.set("Root", catalog_id);
    doc
}

fn first_page(doc: &Document) -> ObjectId {
    *doc.get_pages().values().next().unwrap()
}

#[test]
fn pages_are_counted_once() {
    let pages = vec![
        vec![block("Draft", 12), block("Draft", 12), block("one", 12)],
        vec![block(" Draft ", 12), block("two", 12)],
        vec![block("three", 12)],
    ];
    assert_eq!(summary(&repeated_texts(&pages, 2)), vec![line("Draft", 120, 2, 0)]);
}

#[test]
fn candidates_are_ordered_by_count_text_and_size() {
    let pages = vec![
        vec![block("bb", 9), block("aa", 12), block("aa", 9), block("zz", 9)],
        vec![block("zz", 9), block("aa", 9), block("bb", 9), block("aa", 12)],
        vec![block("zz", 9)],
    ];
    assert_eq!(
        summary(&repeated_texts(&pages, 2)),
        vec![line("zz", 90, 3, 0), line("aa", 90, 2, 0), line("aa", 120, 2, 0), line("bb", 90, 2, 0)]
    );
}

#[test]
fn sizes_tell_texts_apart() {
    let mut other = block("Draft", 0);
    other.size = FontSize::Real(12.04f32.to_bits());
    let pages = vec![vec![block("Draft", 12)], vec![block("Draft", 11)], vec![other]];
    assert_eq!(
        summary(&repeated_texts(&pages, 1)),
        vec![line("Draft", 120, 2, 0), line("Draft", 110, 1, 1)]
    );
}

#[test]
fn short_texts_do_not_count() {
    let pages = vec![
        vec![block("x", 1), block(" ", 1), block("水", 1), block("ab", 1)],
        vec![block("x", 1), block("水", 1), block("ab", 1)],
    ];
    assert_eq!(summary(&repeated_texts(&pages, 2)), vec![line("ab", 10, 2, 0), line("水", 10, 2, 0)]);
}

#[test]
fn more_pages_asked_for_leave_fewer_candidates() {
    let pages = vec![
        vec![block("all", 1), block("some", 1), block("once", 1)],
        vec![block("all", 1)],
        vec![block("some", 1), block("all", 1)],
    ];
    let texts = |n: usize| repeated_texts(&pages, n).iter().map(|c| c.text.clone()).collect::<Vec<String>>();
    assert_eq!(texts(0), vec!["all", "some", "once"]);
    assert_eq!(texts(1), vec!["all", "some", "once"]);
    assert_eq!(texts(2), vec!["all", "some"]);
    assert_eq!(texts(3), vec!["all"]);
    assert!(texts(4).is_empty());
    assert!(repeated_texts(&[], 0).is_empty());
}

#[test]
fn sample_page_is_the_first_one() {
    let pages = vec![vec![], vec![block("late", 1)], vec![block("late", 1)]];
    assert_eq!(summary(&repeated_texts(&pages, 2)), vec![line("late", 10, 2, 1)]);
}

#[test]
fn many_texts_are_kept_in_order() {
    let names: Vec<String> = (0..200).map(|i| format!("text {:03}", (i * 37) % 200)).collect();
    let page: Vec<TextBlock> = names.iter().map(|name| block(name, 10)).collect();
    let found = repeated_texts(&[page.clone(), page], 2);
    let mut sorted = names.clone();
    sorted.sort();
    assert_eq!(found.iter().map(|c| c.text.clone()).collect::<Vec<String>>(), sorted);
    assert!(found.iter().all(|c| c.count == 2 && c.sample_page == 0 && c.size == 100));
}

#[test]
fn analyze_reads_all_pages() {
    let doc = document(&[
        "BT /F1 10 Tf (Secret) Tj ET BT (page one) Tj ET",
        "BT /F1 10 Tf (page two) Tj ET q BT /F1 10 Tf (Se) Tj (cret) Tj ET Q",
        "BT (page three) Tj ET",
    ]);
    assert_eq!(summary(&analyze(&doc, 0, 2).unwrap()), vec![line("Secret", 100, 2, 0)]);
    assert_eq!(analyze(&doc, 0, 1).unwrap().len(), 4);
    assert_eq!(summary(&analyze(&doc, 2, 1).unwrap()), vec![line("Secret", 100, 2, 0)]);
    assert!(analyze(&doc, 3, 2).unwrap().is_empty());
    assert!(analyze(&doc, 2, 3).unwrap().is_empty());
}

#[test]
fn candidates_are_on_their_sample_pages() {
    let doc = document(&[
        "BT (page one) Tj ET",
        "BT /F1 10 Tf ( Top   SECRET) Tj ET BT (Draft) Tj ET",
        "BT /F1 10 Tf (Top SECRET ) Tj ET BT (Draft) Tj ET BT (page one) Tj ET",
    ]);
    let ids: Vec<ObjectId> = doc.get_pages().into_values().collect();
    let found = analyze(&doc, 0, 2).unwrap();
    assert_eq!(found.len(), 3);
    for candidate in &found {
        assert!(page_has_keyword(&doc, ids[candidate.sample_page], &candidate.text), "{}", candidate.text);
    }
}

#[test]
fn analyze_of_an_empty_document() {
    assert!(analyze(&document(&[]), 0, 0).unwrap().is_empty());
    assert!(analyze(&Document::new(), 0, 0).unwrap().is_empty());
}

#[test]
fn analyze_fails_on_a_missing_stream() {
    let mut doc = document(&["BT (x) Tj ET"]);
    let page = first_page(&doc);
    doc.get_dictionary_mut(page).unwrap().set("Contents", Object::Reference((77, 0)));
    assert!(matches!(analyze(&doc, 0, 1), Err(PdfError::ObjectNotFound((77, 0)))));
}

#[test]
fn unreadable_content_has_no_candidates() {
    let doc = document(&["BT (x) Tj ET BI /W 1 /H 1 /BPC 8 ID x EI", "BI /W 1"]);
    assert!(analyze(&doc, 0, 1).unwrap().is_empty());
}
