use lopdf::{
    Dictionary, Document, EncryptionState, EncryptionVersion, Object, ObjectId, Permissions, Stream, StringFormat,
};
use pdf_wm_remover::analysis::page_blocks;
use pdf_wm_remover::document::remove_watermarks_from_pages;
use pdf_wm_remover::{analyze, page_has_keyword, remove_watermarks, unlock, PdfError};

fn strings(items: &[&str]) -> Vec<String> {
    items.iter().map(|item| item.to_string()).collect()
}

fn document(pages: &[&str]) -> Document {
    let mut doc = Document::with_version("1.5");
    let pages_id = doc.new_object_id();
    let mut kids: Vec<Object> = Vec::new();
    for page in pages {
        let content = doc.add_object(Stream::new(Dictionary::new(), page.as_bytes().to_vec()));
        let mut dict = Dictionary::new();
        dict.set("Type", "Page");
        dict.set("Parent", pages_id);
        dict.set("Contents", content);
        kids.push(Object::Reference(doc.add_object(dict)));
    }
    let mut tree = Dictionary::new();
    tree.set("Type", "Pages");
    tree.set("Count", kids.len() as i64);
    tree.set("Kids", kids);
    doc.objects.insert(pages_id, Object::Dictionary(tree));
    let mut catalog = Dictionary::new();
    catalog.set("Type", "Catalog");
    catalog.set("Pages", pages_id);
    let catalog_id = doc.add_object(catalog);
    doc.trailer.set("Root", catalog_id);
    let id = Object::String(b"0123456789abcdef".to_vec(), StringFormat::Literal);
    doc.trailer.set("ID", Object::Array(vec![id.clone(), id]));
    doc
}

fn pages(doc: &Document) -> Vec<ObjectId> {
    doc.get_pages().into_values().collect()
}

fn add_form(doc: &mut Document, page: ObjectId, text: &str) -> ObjectId {
    let mut dict = Dictionary::new();
    dict.set("Subtype", "Form");
    let form = doc.add_object(Stream::new(dict, text.as_bytes().to_vec()));
    let mut names = Dictionary::new();
    names.set("Fm0", form);
    let mut resources = Dictionary::new();
    resources.set("XObject", Object::Dictionary(names));
    doc.get_dictionary_mut(page).unwrap().set("Resources", Object::Dictionary(resources));
    form
}

fn encrypted(user_password: &str) -> Document {
    let mut doc = document(&["BT (mark) Tj ET BT (body) Tj ET"]);
    let state = EncryptionState::try_from(EncryptionVersion::V2 {
        document: &doc,
        owner_password: "owner",
        user_password,
        key_length: 128,
        permissions: Permissions::PRINTABLE,
    })
    .unwrap();
    doc.encrypt(&state).unwrap();
    assert!(doc.is_encrypted());
    doc
}

#[test]
fn removal_covers_pages_and_forms() {
    let mut doc = document(&[
        "BT (C2 - Confidential) Tj ET BT (one) Tj ET",
        "BT (two) Tj ET",
        "BT (confidential) Tj ET q BT (CONFIDENTIAL) Tj ET Q BT (three) Tj ET",
    ]);
    let ids = pages(&doc);
    let form = add_form(&mut doc, ids[1], "BT (Confidential form) Tj ET n");
    let report = remove_watermarks(&mut doc, &strings(&["confidential"])).unwrap();
    assert_eq!(report.removed_blocks, 4);
    assert_eq!(report.pages_touched, 2);
    assert_eq!(report.total_pages, 3);
    assert!(!report.was_encrypted);
    for id in &ids {
        assert!(!page_has_keyword(&doc, *id, "Confidential"));
    }
    assert!(page_has_keyword(&doc, ids[0], "one"));
    assert!(page_has_keyword(&doc, ids[1], "two"));
    assert!(page_has_keyword(&doc, ids[2], "three"));
    assert_eq!(doc.get_object(form).unwrap().as_stream().unwrap().content, b"n");
    assert_eq!(pages(&doc), ids);
}

#[test]
fn resources_by_reference_are_cleaned() {
    let mut doc = document(&["BT (one) Tj ET"]);
    let page = pages(&doc)[0];
    let form = add_form(&mut doc, page, "BT (mark) Tj ET n");
    let resources = doc.get_dictionary(page).unwrap().get(b"Resources").unwrap().clone();
    let id = doc.add_object(resources);
    doc.get_dictionary_mut(page).unwrap().set("Resources", id);
    let report = remove_watermarks(&mut doc, &strings(&["MARK"])).unwrap();
    assert_eq!((report.removed_blocks, report.pages_touched, report.total_pages), (1, 0, 1));
    assert_eq!(doc.get_object(form).unwrap().as_stream().unwrap().content, b"n");
}

#[test]
fn external_objects_by_reference_are_cleaned_in_a_document() {
    let mut doc = document(&["BT (mark) Tj ET BT (one) Tj ET"]);
    let page = pages(&doc)[0];
    let form = add_form(&mut doc, page, "BT (mark) Tj ET n");
    let mut names = Dictionary::new();
    names.set("Fm0", form);
    let names = doc.add_object(names);
    let mut resources = Dictionary::new();
    resources.set("XObject", names);
    doc.get_dictionary_mut(page).unwrap().set("Resources", Object::Dictionary(resources));
    let report = remove_watermarks(&mut doc, &strings(&["mark"])).unwrap();
    assert_eq!((report.removed_blocks, report.pages_touched, report.total_pages), (2, 1, 1));
    assert!(report.pages_touched <= report.removed_blocks);
    assert_eq!(doc.get_object(form).unwrap().as_stream().unwrap().content, b"n");
}

#[test]
fn case_of_keywords_does_not_matter() {
    let source = document(&["BT (Draft) Tj ET BT (x) Tj ET", "BT (dRAFT) Tj ET"]);
    let mut upper = source.clone();
    let mut lower = source;
    let first = remove_watermarks(&mut upper, &strings(&["DRAFT"])).unwrap();
    let second = remove_watermarks(&mut lower, &strings(&["draft"])).unwrap();
    assert_eq!(first.removed_blocks, 2);
    assert_eq!(second.removed_blocks, 2);
    assert_eq!(upper.objects, lower.objects);
}

#[test]
fn without_keywords_nothing_is_removed() {
    let mut doc = document(&["BT (mark) Tj ET"]);
    let before = doc.objects.clone();
    let report = remove_watermarks(&mut doc, &[]).unwrap();
    assert_eq!((report.removed_blocks, report.pages_touched, report.total_pages), (0, 0, 1));
    assert_eq!(doc.objects, before);
}

#[test]
fn candidates_can_be_removed() {
    let mut doc = document(&[
        "BT /F 9 Tf (Top  Secret) Tj ET BT (one) Tj ET",
        "BT /F 9 Tf (Top Secret ) Tj ET BT (two) Tj ET",
    ]);
    let found = analyze(&doc, 0, 2).unwrap();
    assert_eq!(found.len(), 1);
    assert_eq!((found[0].text.as_str(), found[0].count, found[0].size), ("Top Secret", 2, 90));
    let report = remove_watermarks(&mut doc, &[found[0].text.clone()]).unwrap();
    assert_eq!(report.removed_blocks, 2);
    assert!(analyze(&doc, 0, 2).unwrap().is_empty());
}

#[test]
fn encryption_entry_is_dropped() {
    let mut doc = document(&["BT (x) Tj ET"]);
    let id = doc.add_object(Dictionary::new());
    doc.trailer.set("Encrypt", id);
    assert!(doc.is_encrypted());
    remove_watermarks(&mut doc, &strings(&["mark"])).unwrap();
    assert!(!doc.is_encrypted());
    assert!(!doc.trailer.has(b"Encrypt"));
    assert!(doc.trailer.has(b"Root") && doc.trailer.has(b"ID"));
}

#[test]
fn encryption_is_dropped_whatever_it_is() {
    for value in [Object::Integer(1), Object::Null, Object::Reference((99, 0))] {
        let mut doc = document(&["BT (x) Tj ET"]);
        doc.trailer.set("Encrypt", value);
        remove_watermarks(&mut doc, &[]).unwrap();
        assert!(!doc.trailer.has(b"Encrypt"));
    }
}

#[test]
fn faults_stop_the_removal() {
    let mut doc = document(&["BT (mark) Tj ET n", "BT (mark) Tj ET n", "BT (mark) Tj ET n"]);
    let ids = pages(&doc);
    doc.get_dictionary_mut(ids[1]).unwrap().set("Contents", Object::Reference((99, 0)));
    let id = doc.add_object(Dictionary::new());
    doc.trailer.set("Encrypt", id);
    assert!(matches!(
        remove_watermarks(&mut doc, &strings(&["mark"])),
        Err(PdfError::ObjectNotFound((99, 0)))
    ));
    assert!(doc.trailer.has(b"Encrypt"));
    assert!(!page_has_keyword(&doc, ids[0], "mark"));
    assert!(page_has_keyword(&doc, ids[2], "mark"));
}

#[test]
fn faults_of_forms_stop_the_removal() {
    let mut doc = document(&["n"]);
    let page = pages(&doc)[0];
    let form = add_form(&mut doc, page, "n");
    doc.objects.remove(&form);
    assert!(matches!(remove_watermarks(&mut doc, &[]), Err(PdfError::ObjectNotFound(id)) if id == form));
}

#[test]
fn password_unlocks_a_document() {
    let mut doc = encrypted("user");
    let page = pages(&doc)[0];
    assert!(!page_has_keyword(&doc, page, "mark"));
    unlock(&mut doc, Some("user")).unwrap();
    assert!(!doc.is_encrypted());
    assert!(page_has_keyword(&doc, page, "mark"));
    assert_eq!(remove_watermarks(&mut doc, &strings(&["mark"])).unwrap().removed_blocks, 1);
    unlock(&mut doc, Some("user")).unwrap();
}

#[test]
fn wrong_password_is_reported() {
    let mut doc = encrypted("user");
    assert!(matches!(unlock(&mut doc, Some("wrong")), Err(PdfError::Locked(_))));
    assert!(doc.is_encrypted());
    unlock(&mut doc, None).unwrap();
    assert!(doc.is_encrypted());
}

#[test]
fn saved_documents_are_clean_and_open() {
    let mut doc = document(&["BT (mark) Tj ET BT (body) Tj ET", "BT (mark) Tj ET"]);
    remove_watermarks(&mut doc, &strings(&["mark"])).unwrap();
    let mut bytes: Vec<u8> = Vec::new();
    doc.save_to(&mut bytes).unwrap();
    let again = Document::load_mem(&bytes).unwrap();
    assert!(!again.is_encrypted());
    let ids = pages(&again);
    assert_eq!(ids.len(), 2);
    assert!(page_has_keyword(&again, ids[0], "body"));
    assert!(!page_has_keyword(&again, ids[0], "mark"));
    assert!(!page_has_keyword(&again, ids[1], "mark"));
}

#[test]
fn nested_page_trees_are_walked() {
    let mut doc = document(&["BT (mark) Tj ET n", "BT (mark) Tj ET n"]);
    let ids = pages(&doc);
    let mut inner = Dictionary::new();
    inner.set("Type", "Pages");
    inner.set("Count", i64::MAX);
    inner.set("Kids", Object::Array(vec![Object::Reference(ids[1])]));
    let inner_id = doc.add_object(inner);
    let root = doc.catalog().unwrap().get(b"Pages").unwrap().as_reference().unwrap();
    let kids = vec![Object::Reference(ids[0]), Object::Reference(inner_id)];
    doc.get_dictionary_mut(root).unwrap().set("Kids", Object::Array(kids));
    let report = remove_watermarks(&mut doc, &strings(&["mark"])).unwrap();
    assert_eq!((report.removed_blocks, report.pages_touched, report.total_pages), (2, 2, 2));
}

#[test]
fn second_removal_from_a_document_finds_nothing() {
    let mut doc = document(&["BT (mark) Tj ET BT (one) Tj ET", "BT (two) Tj ET BT (a Mark) Tj ET"]);
    let page = pages(&doc)[0];
    add_form(&mut doc, page, "BT (mark) Tj ET n");
    let keywords = strings(&["MARK"]);
    assert_eq!(remove_watermarks(&mut doc, &keywords).unwrap().removed_blocks, 3);
    let before = doc.objects.clone();
    let report = remove_watermarks(&mut doc, &keywords).unwrap();
    assert_eq!((report.removed_blocks, report.pages_touched, report.total_pages), (0, 0, 2));
    assert_eq!(doc.objects, before);
}

#[test]
fn removal_can_be_limited_to_pages() {
    let mut doc = document(&["BT (mark) Tj ET n", "BT (mark) Tj ET n", "BT (mark) Tj ET n"]);
    let ids = pages(&doc);
    let report = remove_watermarks_from_pages(&mut doc, &ids[1..], &strings(&["mark"])).unwrap();
    assert_eq!((report.removed_blocks, report.pages_touched, report.total_pages), (2, 2, 2));
    assert!(page_has_keyword(&doc, ids[0], "mark"));
    assert!(!page_has_keyword(&doc, ids[1], "mark") && !page_has_keyword(&doc, ids[2], "mark"));
}

#[test]
fn blocks_are_found_page_by_page() {
    let doc = document(&["BT (one) Tj ET BT (two) Tj ET", "n", "BT (three) Tj ET"]);
    let ids = pages(&doc);
    let found: Vec<Vec<String>> = page_blocks(&doc, &ids)
        .unwrap()
        .into_iter()
        .map(|page| page.into_iter().map(|block| block.text).collect())
        .collect();
    assert_eq!(found, vec![strings(&["one", "two"]), strings(&[]), strings(&["three"])]);
    assert!(matches!(page_blocks(&doc, &[(88, 0)]), Err(PdfError::ObjectNotFound((88, 0)))));
}

#[test]
fn what_is_left_is_shown() {
    let mut doc = document(&[
        "q 1 0 0 1 5 5 cm BT /F 9.5 Tf (one \\(a\\)) Tj ET Q BT (mark) Tj ET",
        "BT [(tw) -20 (o)] TJ ET BT (Mark) Tj ET f BT (three) ' ET",
    ]);
    let ids = pages(&doc);
    let shown = |doc: &Document| -> Vec<Vec<String>> {
        let found = page_blocks(doc, &ids).unwrap();
        found.into_iter().map(|page| page.into_iter().map(|block| block.text).collect()).collect()
    };
    let before = shown(&doc);
    remove_watermarks(&mut doc, &strings(&["mark"])).unwrap();
    let left: Vec<Vec<String>> = before
        .into_iter()
        .map(|page| page.into_iter().filter(|text| !text.eq_ignore_ascii_case("mark")).collect())
        .collect();
    assert_eq!(shown(&doc), left);
    assert_eq!(left, vec![strings(&["one (a)"]), strings(&["two", "three"])]);
    assert!(!page_has_keyword(&doc, ids[0], ""));
}
