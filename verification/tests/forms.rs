use lopdf::{Dictionary, Document, Object, ObjectId, Stream};
use pdf_wm_remover::{remove_watermarks_from_resources, PdfError};

fn strings(items: &[&str]) -> Vec<String> {
    items.iter().map(|item| item.to_string()).collect()
}

fn resources(objects: &[(&str, Object)]) -> Dictionary {
    let mut names = Dictionary::new();
    for (name, object) in objects {
        names.set(*name, object.clone());
    }
    let mut dict = Dictionary::new();
    dict.set("XObject", Object::Dictionary(names));
    dict
}

fn form(text: &str, inner: Option<Object>) -> Stream {
    let mut dict = Dictionary::new();
    dict.set("Type", "XObject");
    dict.set("Subtype", "Form");
    if let Some(inner) = inner {
        dict.set("Resources", inner);
    }
    Stream::new(dict, text.as_bytes().to_vec())
}

fn content(doc: &Document, id: ObjectId) -> String {
    let bytes = doc.get_object(id).unwrap().as_stream().unwrap().get_plain_content().unwrap();
    String::from_utf8(bytes).unwrap()
}

#[test]
fn forms_are_cleaned_whatever_the_case() {
    let mut doc = Document::new();
    let id = doc.add_object(form("BT (My Mark) Tj ET n", None));
    let dict = resources(&[("F", Object::Reference(id))]);
    assert_eq!(remove_watermarks_from_resources(&mut doc, Some(&dict), &strings(&["MARK"])).unwrap(), 1);
    assert_eq!(content(&doc, id), "n");
    assert_eq!(remove_watermarks_from_resources(&mut doc, Some(&dict), &strings(&["MARK"])).unwrap(), 0);
}

#[test]
fn compressed_forms_can_be_read_after_removal() {
    let mut doc = Document::new();
    let mut stream = form(&format!("BT (mark) Tj ET n{}", " ".repeat(400)), None);
    stream.compress().unwrap();
    assert!(stream.dict.has(b"Filter"));
    let id = doc.add_object(stream);
    let dict = resources(&[("F", Object::Reference(id))]);
    assert_eq!(remove_watermarks_from_resources(&mut doc, Some(&dict), &strings(&["mark"])).unwrap(), 1);
    let written = doc.get_object(id).unwrap().as_stream().unwrap();
    assert!(!written.dict.has(b"Filter"));
    assert_eq!(written.dict.get(b"Subtype").unwrap().as_name().unwrap(), b"Form");
    assert_eq!(content(&doc, id), "n");
}

#[test]
fn forms_that_show_nothing_any_more_stay() {
    let mut doc = Document::new();
    let id = doc.add_object(form("BT (mark) Tj ET", None));
    let dict = resources(&[("F", Object::Reference(id))]);
    assert_eq!(remove_watermarks_from_resources(&mut doc, Some(&dict), &strings(&["mark"])).unwrap(), 1);
    assert_eq!(content(&doc, id), "");
}

#[test]
fn nested_forms_are_cleaned() {
    let mut doc = Document::new();
    let deepest = doc.add_object(form("BT (mark 3) Tj ET", None));
    let by_reference = doc.add_object(resources(&[("D", Object::Reference(deepest))]));
    let deeper = doc.add_object(form("BT (mark 2) Tj ET BT (mark 2) Tj ET", Some(Object::Reference(by_reference))));
    let direct = resources(&[("E", Object::Reference(deeper))]);
    let outer = doc.add_object(form("BT (body) Tj ET", Some(Object::Dictionary(direct))));
    let dict = resources(&[("F", Object::Reference(outer))]);
    assert_eq!(remove_watermarks_from_resources(&mut doc, Some(&dict), &strings(&["Mark"])).unwrap(), 3);
    assert_eq!(content(&doc, outer), "BT (body) Tj ET");
    assert_eq!(content(&doc, deeper), "");
    assert_eq!(content(&doc, deepest), "");
}

#[test]
fn external_objects_by_reference_are_cleaned() {
    let mut doc = Document::new();
    let deeper = doc.add_object(form("BT (mark) Tj ET n", None));
    let mut names = Dictionary::new();
    names.set("D", deeper);
    let inner_names = doc.add_object(names);
    let mut inner = Dictionary::new();
    inner.set("XObject", inner_names);
    let outer = doc.add_object(form("BT (mark) Tj ET q", Some(Object::Dictionary(inner))));
    let mut names = Dictionary::new();
    names.set("F", outer);
    let outer_names = doc.add_object(names);
    let mut dict = Dictionary::new();
    dict.set("XObject", outer_names);
    let before = doc.objects[&outer_names].clone();
    assert_eq!(remove_watermarks_from_resources(&mut doc, Some(&dict), &strings(&["mark"])).unwrap(), 2);
    assert_eq!(content(&doc, outer), "q");
    assert_eq!(content(&doc, deeper), "n");
    assert_eq!(doc.objects[&outer_names], before);
    assert_eq!(remove_watermarks_from_resources(&mut doc, Some(&dict), &strings(&["mark"])).unwrap(), 0);
    let number = doc.add_object(Object::Integer(1));
    for odd in [number, (90, 0)] {
        dict.set("XObject", odd);
        assert_eq!(remove_watermarks_from_resources(&mut doc, Some(&dict), &strings(&["mark"])).unwrap(), 0);
    }
}

#[test]
fn form_that_is_drawn_twice_is_counted_once() {
    let mut doc = Document::new();
    let id = doc.add_object(form("BT (mark) Tj ET", None));
    let dict = resources(&[("A", Object::Reference(id)), ("B", Object::Reference(id))]);
    assert_eq!(remove_watermarks_from_resources(&mut doc, Some(&dict), &strings(&["mark"])).unwrap(), 1);
}

#[test]
fn what_is_no_form_is_left_alone() {
    let mut doc = Document::new();
    let mut image = form("BT (mark) Tj ET", None);
    image.dict.set("Subtype", "Image");
    let image = doc.add_object(image);
    let mut untyped = form("BT (mark) Tj ET", None);
    untyped.dict.remove(b"Subtype");
    let untyped = doc.add_object(untyped);
    let number = doc.add_object(Object::Integer(1));
    let dict = resources(&[
        ("A", Object::Reference(image)),
        ("B", Object::Reference(untyped)),
        ("C", Object::Reference(number)),
        ("D", Object::Null),
    ]);
    let before = doc.objects.clone();
    assert_eq!(remove_watermarks_from_resources(&mut doc, Some(&dict), &strings(&["mark"])).unwrap(), 0);
    assert_eq!(doc.objects, before);
}

#[test]
fn resources_without_forms_have_nothing_to_remove() {
    let mut doc = Document::new();
    let keywords = strings(&["mark"]);
    assert_eq!(remove_watermarks_from_resources(&mut doc, None, &keywords).unwrap(), 0);
    assert_eq!(remove_watermarks_from_resources(&mut doc, Some(&Dictionary::new()), &keywords).unwrap(), 0);
    let mut odd = Dictionary::new();
    odd.set("XObject", 1);
    assert_eq!(remove_watermarks_from_resources(&mut doc, Some(&odd), &keywords).unwrap(), 0);
}

#[test]
fn form_with_missing_resources_is_cleaned() {
    let mut doc = Document::new();
    let id = doc.add_object(form("BT (mark) Tj ET", Some(Object::Reference((90, 0)))));
    let dict = resources(&[("F", Object::Reference(id))]);
    assert_eq!(remove_watermarks_from_resources(&mut doc, Some(&dict), &strings(&["mark"])).unwrap(), 1);
}

#[test]
fn missing_forms_are_reported() {
    let mut doc = Document::new();
    let dict = resources(&[("F", Object::Reference((7, 0)))]);
    assert!(matches!(
        remove_watermarks_from_resources(&mut doc, Some(&dict), &[]),
        Err(PdfError::ObjectNotFound((7, 0)))
    ));
}

#[test]
fn forms_that_draw_themselves_are_reported() {
    let mut doc = Document::new();
    let id = doc.new_object_id();
    let other = doc.add_object(form("n", Some(Object::Dictionary(resources(&[("A", Object::Reference(id))])))));
    let inner = resources(&[("B", Object::Reference(other))]);
    doc.objects.insert(id, Object::Stream(form("BT (mark) Tj ET", Some(Object::Dictionary(inner)))));
    let dict = resources(&[("A", Object::Reference(id))]);
    match remove_watermarks_from_resources(&mut doc, Some(&dict), &strings(&["mark"])) {
        Err(PdfError::FormCycle(found)) => assert_eq!(found, id),
        other => panic!("{other:?}"),
    }
}
