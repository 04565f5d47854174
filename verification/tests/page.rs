use lopdf::{Dictionary, Document, Object, ObjectId, Stream};
use pdf_wm_remover::page::{content_contains_keyword, page_content_bytes, shows_nothing};
use pdf_wm_remover::{page_has_keyword, remove_watermarks_from_page, PdfError};

fn strings(items: &[&str]) -> Vec<String> {
    items.iter().map(|item| item.to_string()).collect()
}

fn stream(text: &str) -> Stream {
    Stream::new(Dictionary::new(), text.as_bytes().to_vec())
}

fn compressed(text: &str) -> Stream {
    let long = format!("{text}{}", " ".repeat(400));
    let mut stream = stream(&long);
    stream.compress().unwrap();
    assert!(stream.dict.has(b"Filter"));
    stream
}

fn page(doc: &mut Document, contents: Object) -> ObjectId {
    let mut dict = Dictionary::new();
    dict.set("Type", "Page");
    dict.set("Contents", contents);
    dict.set("Rotate", 90);
    doc.add_object(dict)
}

fn contents(doc: &Document, page: ObjectId) -> Option<Object> {
    doc.get_dictionary(page).unwrap().get(b"Contents").ok().cloned()
}

fn plain(doc: &Document, id: ObjectId) -> String {
    let bytes = doc.get_object(id).unwrap().as_stream().unwrap().get_plain_content().unwrap();
    String::from_utf8(bytes).unwrap()
}

const MARKED: &str = "q\nBT (C2 - Confidential) Tj ET\nQ\nBT (Body) Tj ET";

#[test]
fn block_is_removed_from_a_single_stream() {
    let mut doc = Document::new();
    let id = doc.add_object(stream(MARKED));
    let page = page(&mut doc, Object::Reference(id));
    assert!(page_has_keyword(&doc, page, "CONFIDENTIAL"));
    assert_eq!(remove_watermarks_from_page(&mut doc, page, &strings(&["c2 - CONFIDENTIAL"])).unwrap(), 1);
    assert_eq!(plain(&doc, id), "q\nQ\nBT\n(Body) Tj\nET");
    assert_eq!(contents(&doc, page), Some(Object::Reference(id)));
    assert!(!page_has_keyword(&doc, page, "confidential"));
    assert!(page_has_keyword(&doc, page, "BODY"));
    assert_eq!(doc.get_dictionary(page).unwrap().get(b"Rotate").unwrap().as_i64().unwrap(), 90);
}

#[test]
fn compressed_stream_can_be_read_after_removal() {
    let mut doc = Document::new();
    let id = doc.add_object(compressed(MARKED));
    let page = page(&mut doc, Object::Reference(id));
    assert_eq!(remove_watermarks_from_page(&mut doc, page, &strings(&["confidential"])).unwrap(), 1);
    let written = doc.get_object(id).unwrap().as_stream().unwrap();
    assert!(!written.dict.has(b"Filter"));
    assert_eq!(written.dict.get(b"Length").unwrap().as_i64().unwrap(), written.content.len() as i64);
    assert_eq!(plain(&doc, id), "q\nQ\nBT\n(Body) Tj\nET");
    assert_eq!(page_content_bytes(&doc, page).unwrap(), b"q\nQ\nBT\n(Body) Tj\nET");
}

#[test]
fn stream_without_a_match_is_left_alone() {
    let mut doc = Document::new();
    let id = doc.add_object(compressed(MARKED));
    let before = doc.get_object(id).unwrap().clone();
    let page = page(&mut doc, Object::Reference(id));
    for keywords in [strings(&["other"]), strings(&[""]), strings(&[])] {
        assert_eq!(remove_watermarks_from_page(&mut doc, page, &keywords).unwrap(), 0);
        assert_eq!(doc.get_object(id).unwrap(), &before);
        assert_eq!(contents(&doc, page), Some(Object::Reference(id)));
    }
}

#[test]
fn empty_streams_are_dropped_from_an_array() {
    let mut doc = Document::new();
    let first = doc.add_object(stream("BT (Body one) Tj ET"));
    let second = doc.add_object(stream("q BT (MARK) Tj ET Q"));
    let third = doc.add_object(stream("BT (Body two) Tj ET BT (mark) Tj ET"));
    let items = vec![Object::Reference(first), Object::Reference(second), Object::Reference(third)];
    let page = page(&mut doc, Object::Array(items));
    assert_eq!(remove_watermarks_from_page(&mut doc, page, &strings(&["mark"])).unwrap(), 2);
    assert_eq!(
        contents(&doc, page),
        Some(Object::Array(vec![Object::Reference(first), Object::Reference(third)]))
    );
    assert_eq!(plain(&doc, third), "BT\n(Body two) Tj\nET");
}

#[test]
fn one_stream_that_is_left_is_referred_to_directly() {
    let mut doc = Document::new();
    let first = doc.add_object(stream("BT (mark) Tj ET"));
    let second = doc.add_object(stream("BT (Body) Tj ET"));
    let page = page(&mut doc, Object::Array(vec![Object::Reference(first), Object::Reference(second)]));
    assert_eq!(remove_watermarks_from_page(&mut doc, page, &strings(&["Mark"])).unwrap(), 1);
    assert_eq!(contents(&doc, page), Some(Object::Reference(second)));
}

#[test]
fn contents_go_with_the_last_stream() {
    let mut doc = Document::new();
    let id = doc.add_object(stream("q BT (mark) Tj ET Q"));
    let page = page(&mut doc, Object::Reference(id));
    assert_eq!(remove_watermarks_from_page(&mut doc, page, &strings(&["mark"])).unwrap(), 1);
    assert_eq!(contents(&doc, page), None);
    assert!(page_content_bytes(&doc, page).unwrap().is_empty());
    assert!(!page_has_keyword(&doc, page, "mark"));
}

#[test]
fn array_by_reference_is_cleaned() {
    let mut doc = Document::new();
    let first = doc.add_object(stream("BT (mark) Tj ET n "));
    let second = doc.add_object(stream("BT (Body) Tj ET"));
    let array = doc.add_object(Object::Array(vec![Object::Reference(first), Object::Reference(second)]));
    let page = page(&mut doc, Object::Reference(array));
    assert!(page_has_keyword(&doc, page, "mark"));
    assert_eq!(remove_watermarks_from_page(&mut doc, page, &strings(&["mark"])).unwrap(), 1);
    assert_eq!(plain(&doc, first), "n");
    assert!(!page_has_keyword(&doc, page, "mark"));
}

#[test]
fn stream_that_occurs_twice_is_cleaned_once() {
    let mut doc = Document::new();
    let id = doc.add_object(stream(MARKED));
    let page = page(&mut doc, Object::Array(vec![Object::Reference(id), Object::Null, Object::Reference(id)]));
    assert_eq!(remove_watermarks_from_page(&mut doc, page, &strings(&["confidential"])).unwrap(), 1);
    assert_eq!(contents(&doc, page), Some(Object::Array(vec![Object::Reference(id), Object::Reference(id)])));
}

#[test]
fn second_removal_from_a_page_finds_nothing() {
    let mut doc = Document::new();
    let id = doc.add_object(stream(MARKED));
    let page = page(&mut doc, Object::Reference(id));
    let keywords = strings(&["confidential"]);
    assert_eq!(remove_watermarks_from_page(&mut doc, page, &keywords).unwrap(), 1);
    let before = doc.objects.clone();
    assert_eq!(remove_watermarks_from_page(&mut doc, page, &keywords).unwrap(), 0);
    assert_eq!(doc.objects, before);
}

#[test]
fn page_without_its_stream_stays_clean() {
    let mut doc = Document::new();
    let id = doc.add_object(stream("q BT (mark) Tj ET Q"));
    let page = page(&mut doc, Object::Reference(id));
    let keywords = strings(&["Mark"]);
    assert_eq!(remove_watermarks_from_page(&mut doc, page, &keywords).unwrap(), 1);
    let before = doc.objects.clone();
    assert!(!page_has_keyword(&doc, page, "Mark"));
    assert_eq!(remove_watermarks_from_page(&mut doc, page, &keywords).unwrap(), 0);
    assert_eq!(doc.objects, before);
}

#[test]
fn pages_with_inline_images_are_cleaned() {
    let mut doc = Document::new();
    let image = "BI /W 2 /H 1 /CS /Gray /BPC 8 ID ab EI";
    let id = doc.add_object(stream(&format!("BT (mark) Tj ET {image} BT (Body) Tj ET")));
    let page = page(&mut doc, Object::Reference(id));
    assert_eq!(remove_watermarks_from_page(&mut doc, page, &strings(&["mark"])).unwrap(), 1);
    assert!(!page_has_keyword(&doc, page, "mark"));
    assert!(page_has_keyword(&doc, page, "body"));
    let before = doc.objects.clone();
    assert_eq!(remove_watermarks_from_page(&mut doc, page, &strings(&["mark"])).unwrap(), 0);
    assert_eq!(doc.objects, before);
}

#[test]
fn text_split_over_streams_is_shown_by_the_page() {
    let mut doc = Document::new();
    let first = doc.add_object(stream("BT (ma) Tj "));
    let second = doc.add_object(stream("(rk) Tj ET"));
    let page = page(&mut doc, Object::Array(vec![Object::Reference(first), Object::Reference(second)]));
    assert!(page_has_keyword(&doc, page, "mark"));
    assert_eq!(remove_watermarks_from_page(&mut doc, page, &strings(&["mark"])).unwrap(), 0);
    assert!(page_has_keyword(&doc, page, "mark"));
}

#[test]
fn other_objects_stay_as_they_are() {
    let mut doc = Document::new();
    let id = doc.add_object(stream(MARKED));
    let other = doc.add_object(stream(MARKED));
    let page = page(&mut doc, Object::Reference(id));
    let before = doc.objects.clone();
    remove_watermarks_from_page(&mut doc, page, &strings(&["confidential"])).unwrap();
    assert_eq!(doc.objects.len(), before.len());
    assert_eq!(doc.objects[&other], before[&other]);
    assert_ne!(doc.objects[&id], before[&id]);
}

#[test]
fn references_are_followed() {
    let mut doc = Document::new();
    let id = doc.add_object(stream(MARKED));
    let link = doc.add_object(Object::Reference(id));
    let real = page(&mut doc, Object::Reference(link));
    let page = doc.add_object(Object::Reference(real));
    assert_eq!(remove_watermarks_from_page(&mut doc, page, &strings(&["confidential"])).unwrap(), 1);
    assert_eq!(plain(&doc, id), "q\nQ\nBT\n(Body) Tj\nET");
    assert_eq!(contents(&doc, real), Some(Object::Reference(link)));
}

#[test]
fn pages_without_contents_have_nothing_to_remove() {
    let mut doc = Document::new();
    let none = doc.add_object(Dictionary::new());
    let number = page(&mut doc, Object::Integer(3));
    let no_page = doc.add_object(Object::Integer(4));
    for id in [none, number, no_page] {
        assert_eq!(remove_watermarks_from_page(&mut doc, id, &strings(&["mark"])).unwrap(), 0);
        assert!(page_content_bytes(&doc, id).unwrap().is_empty());
        assert!(!page_has_keyword(&doc, id, "mark"));
    }
    assert_eq!(contents(&doc, number), Some(Object::Integer(3)));
}

#[test]
fn contents_that_are_no_stream_are_dropped() {
    let mut doc = Document::new();
    let id = doc.add_object(Object::Integer(1));
    let page = page(&mut doc, Object::Reference(id));
    assert_eq!(remove_watermarks_from_page(&mut doc, page, &strings(&["mark"])).unwrap(), 0);
    assert_eq!(contents(&doc, page), None);
}

#[test]
fn missing_objects_are_reported() {
    let mut doc = Document::new();
    let page = page(&mut doc, Object::Reference((9, 1)));
    let keywords = strings(&["mark"]);
    assert!(matches!(
        remove_watermarks_from_page(&mut doc, page, &keywords),
        Err(PdfError::ObjectNotFound((9, 1)))
    ));
    assert!(matches!(page_content_bytes(&doc, page), Err(PdfError::ObjectNotFound((9, 1)))));
    assert!(matches!(
        remove_watermarks_from_page(&mut doc, (50, 0), &keywords),
        Err(PdfError::ObjectNotFound((50, 0)))
    ));
    assert_eq!(remove_watermarks_from_page(&mut doc, (50, 0), &[]).unwrap(), 0);
    assert!(!page_has_keyword(&doc, (50, 0), "mark"));
}

#[test]
fn references_in_a_circle_are_reported() {
    let mut doc = Document::new();
    doc.objects.insert((1, 0), Object::Reference((2, 0)));
    doc.objects.insert((2, 0), Object::Reference((1, 0)));
    doc.max_id = 2;
    let page = page(&mut doc, Object::Reference((1, 0)));
    assert!(matches!(page_content_bytes(&doc, page), Err(PdfError::ReferenceLimit)));
    assert!(matches!(
        remove_watermarks_from_page(&mut doc, page, &strings(&["mark"])),
        Err(PdfError::ReferenceLimit)
    ));
}

#[test]
fn long_chains_of_references_end() {
    let mut doc = Document::new();
    let mut last = doc.add_object(stream(MARKED));
    for _ in 0..128 {
        last = doc.add_object(Object::Reference(last));
    }
    let good = page(&mut doc, Object::Reference(last));
    assert!(page_has_keyword(&doc, good, "body"));
    let longer = doc.add_object(Object::Reference(last));
    let bad = page(&mut doc, Object::Reference(longer));
    assert!(matches!(page_content_bytes(&doc, bad), Err(PdfError::ReferenceLimit)));
}

#[test]
fn filters_that_cannot_be_undone_are_reported() {
    let mut doc = Document::new();
    let mut odd = stream(MARKED);
    odd.dict.set("Filter", Object::Name(b"JBIG2Decode".to_vec()));
    let id = doc.add_object(odd);
    let single = page(&mut doc, Object::Reference(id));
    assert!(matches!(page_content_bytes(&doc, single), Err(PdfError::Undecodable(_))));
    assert_eq!(remove_watermarks_from_page(&mut doc, single, &strings(&["confidential"])).unwrap(), 0);
    let rest = doc.add_object(stream("n"));
    let array = page(&mut doc, Object::Array(vec![Object::Reference(id), Object::Reference(rest)]));
    assert_eq!(page_content_bytes(&doc, array).unwrap(), b"n");
}

#[test]
fn filters_that_cannot_be_told_are_reported() {
    let no_name = Object::Array(vec![Object::Name(b"FlateDecode".to_vec()), Object::Integer(1)]);
    for filter in [Object::Integer(3), Object::Null, Object::Reference((1, 0)), no_name] {
        let mut doc = Document::new();
        let mut odd = stream(MARKED);
        odd.dict.set("Filter", filter.clone());
        let id = doc.add_object(odd);
        let single = page(&mut doc, Object::Reference(id));
        assert!(matches!(page_content_bytes(&doc, single), Err(PdfError::Undecodable(_))));
        assert!(!page_has_keyword(&doc, single, "confidential"));
        let before = doc.objects.clone();
        assert_eq!(remove_watermarks_from_page(&mut doc, single, &strings(&["confidential"])).unwrap(), 0);
        assert_eq!(doc.objects, before);
        let rest = doc.add_object(stream("n"));
        let array = page(&mut doc, Object::Array(vec![Object::Reference(id), Object::Reference(rest)]));
        assert_eq!(page_content_bytes(&doc, array).unwrap(), b"n");
    }
}

#[test]
fn contents_of_an_array_are_joined() {
    let mut doc = Document::new();
    let first = doc.add_object(compressed("BT (one) Tj ET"));
    let second = doc.add_object(stream("BT (two) Tj ET"));
    let items = vec![
        Object::Reference(first),
        Object::Stream(stream("n ")),
        Object::Null,
        Object::Reference(second),
    ];
    let page = page(&mut doc, Object::Array(items));
    let text = String::from_utf8(page_content_bytes(&doc, page).unwrap()).unwrap();
    assert!(text.starts_with("BT (one) Tj ET   "));
    assert!(text.ends_with("  n BT (two) Tj ET"));
    assert!(page_has_keyword(&doc, page, "ONE") && page_has_keyword(&doc, page, "Two"));
    assert!(!page_has_keyword(&doc, page, "three"));
}

#[test]
fn filter_arrays_are_undone() {
    let mut doc = Document::new();
    let mut inner = compressed(MARKED);
    inner.dict.set("Filter", Object::Array(vec![Object::Name(b"FlateDecode".to_vec())]));
    let id = doc.add_object(inner);
    let one = page(&mut doc, Object::Reference(id));
    assert!(page_has_keyword(&doc, one, "body"));
    let mut none = stream(MARKED);
    none.dict.set("Filter", Object::Array(vec![]));
    let id = doc.add_object(none);
    let two = page(&mut doc, Object::Reference(id));
    assert_eq!(page_content_bytes(&doc, two).unwrap(), MARKED.as_bytes());
}

#[test]
fn keyword_is_found_in_content() {
    assert!(content_contains_keyword(b"BT (Top  Secret) Tj ET", "top secret"));
    assert!(!content_contains_keyword(b"BT (Top Secret) Tj ET", ""));
    assert!(!content_contains_keyword(b"(Top Secret) Tj", "secret"));
}

#[test]
fn shells_show_nothing() {
    assert!(shows_nothing(""));
    assert!(shows_nothing(" q\nQ\tq "));
    assert!(!shows_nothing("q n Q"));
    assert!(!shows_nothing("q 1"));
}
