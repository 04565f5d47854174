use lopdf::content::Operation;
use lopdf::{Object, StringFormat};
use pdf_wm_remover::blocks::{text_segments, FontSize};
use pdf_wm_remover::extract_text_blocks;
use pdf_wm_remover::strip::{remove_spans, strip_operations};

fn text(value: &str) -> Object {
    Object::String(value.as_bytes().to_vec(), StringFormat::Literal)
}

fn op(operator: &str, operands: Vec<Object>) -> Operation {
    Operation::new(operator, operands)
}

fn block(value: &str) -> Vec<Operation> {
    vec![op("BT", vec![]), op("Tj", vec![text(value)]), op("ET", vec![])]
}

fn operators(ops: &[Operation]) -> Vec<String> {
    ops.iter().map(|op| op.operator.clone()).collect()
}

fn strings(items: &[&str]) -> Vec<String> {
    items.iter().map(|item| item.to_string()).collect()
}

#[test]
fn blocks_of_nothing() {
    assert!(extract_text_blocks(&[]).is_empty());
    assert!(extract_text_blocks(&[op("q", vec![]), op("Q", vec![])]).is_empty());
}

#[test]
fn block_shows_strings_of_all_operators() {
    let ops = vec![
        op("q", vec![]),
        op("BT", vec![]),
        op("Tf", vec![Object::Name(b"F1".to_vec()), Object::Integer(12)]),
        op("Tj", vec![text("a")]),
        op("TJ", vec![Object::Array(vec![text("b"), Object::Integer(-20), text("c"), Object::Real(1.5)])]),
        op("'", vec![text("d")]),
        op("\"", vec![Object::Integer(1), Object::Integer(2), text("e")]),
        op("ET", vec![]),
        op("Q", vec![]),
    ];
    let blocks = extract_text_blocks(&ops);
    assert_eq!(blocks.len(), 1);
    assert_eq!(blocks[0].text, "abcde");
    assert_eq!(blocks[0].size, FontSize::Integer(12));
    assert_eq!((blocks[0].op_start, blocks[0].op_end), (1, 8));
}

#[test]
fn operands_of_other_kinds_show_nothing() {
    let ops = vec![
        op("BT", vec![]),
        op("Tj", vec![]),
        op("Tj", vec![Object::Integer(1)]),
        op("TJ", vec![text("x")]),
        op("TJ", vec![]),
        op("'", vec![Object::Null]),
        op("\"", vec![text("x"), text("y")]),
        op("Tm", vec![text("z")]),
        op("ET", vec![]),
    ];
    assert!(extract_text_blocks(&ops).is_empty());
}

#[test]
fn last_font_size_before_the_text_counts() {
    let ops = vec![
        op("BT", vec![]),
        op("Tf", vec![Object::Name(b"F1".to_vec()), Object::Integer(9)]),
        op("Tj", vec![text("x")]),
        op("Tf", vec![Object::Name(b"F1".to_vec()), Object::Real(10.5)]),
        op("Tf", vec![Object::Name(b"F1".to_vec())]),
        op("Tf", vec![Object::Name(b"F1".to_vec()), Object::Null]),
        op("Tj", vec![text("y")]),
        op("Tf", vec![Object::Name(b"F1".to_vec()), Object::Integer(8)]),
        op("ET", vec![]),
    ];
    assert_eq!(extract_text_blocks(&ops)[0].size, FontSize::Real(10.5f32.to_bits()));
    assert_eq!(extract_text_blocks(&ops[..4])[0].size, FontSize::Integer(9));
    assert_eq!(extract_text_blocks(&block("x"))[0].size, FontSize::Unset);
}

#[test]
fn font_size_behind_the_text_does_not_count() {
    let font = |size: i64| op("Tf", vec![Object::Name(b"F1".to_vec()), Object::Integer(size)]);
    let shown = op("Tj", vec![text("x")]);
    let ops = vec![op("BT", vec![]), font(12), shown.clone(), font(8), op("ET", vec![])];
    assert_eq!(extract_text_blocks(&ops)[0].size, FontSize::Integer(12));
    let ops = vec![op("BT", vec![]), shown.clone(), font(8), op("ET", vec![])];
    assert_eq!(extract_text_blocks(&ops)[0].size, FontSize::Unset);
    let empty = op("Tj", vec![text("")]);
    let ops = vec![op("BT", vec![]), font(12), shown, font(8), empty, font(6), op("ET", vec![])];
    assert_eq!(extract_text_blocks(&ops)[0].size, FontSize::Integer(8));
}

#[test]
fn unfinished_block_runs_to_the_end() {
    let ops = vec![op("BT", vec![]), op("Tj", vec![text("x")]), op("BT", vec![]), op("Tj", vec![text("y")])];
    let blocks = extract_text_blocks(&ops);
    assert_eq!(blocks.len(), 1);
    assert_eq!(blocks[0].text, "xy");
    assert_eq!((blocks[0].op_start, blocks[0].op_end), (0, 4));
    assert!(extract_text_blocks(&[op("Tj", vec![text("x")]), op("ET", vec![])]).is_empty());
}

#[test]
fn blocks_that_show_nothing_are_skipped() {
    let mut ops = vec![op("BT", vec![]), op("ET", vec![])];
    ops.extend(block("x"));
    ops.push(op("BT", vec![]));
    let blocks = extract_text_blocks(&ops);
    assert_eq!(blocks.len(), 1);
    assert_eq!((blocks[0].op_start, blocks[0].op_end), (2, 5));
}

#[test]
fn bytes_that_are_no_text_are_replaced() {
    let ops = vec![
        op("BT", vec![]),
        op("Tj", vec![Object::String(vec![b'a', 0xff, b'b'], StringFormat::Hexadecimal)]),
        op("ET", vec![]),
    ];
    assert_eq!(extract_text_blocks(&ops)[0].text, "a\u{fffd}b");
    assert_eq!(text_segments(&ops)[0].bytes, vec![b'a', 0xff, b'b']);
    assert_eq!(extract_text_blocks(&block("水印"))[0].text, "水印");
}

#[test]
fn characters_may_be_split_over_strings() {
    let bytes = "水".as_bytes();
    let ops = vec![
        op("BT", vec![]),
        op("Tj", vec![Object::String(bytes[..1].to_vec(), StringFormat::Literal)]),
        op("Tj", vec![Object::String(bytes[1..].to_vec(), StringFormat::Literal)]),
        op("ET", vec![]),
    ];
    assert_eq!(extract_text_blocks(&ops)[0].text, "水");
}

#[test]
fn spans_are_cut_out() {
    let items = vec![0, 1, 2, 3, 4, 5, 6, 7];
    assert_eq!(remove_spans(items.clone(), &[(1, 3), (3, 4), (6, 8)]), vec![0, 4, 5]);
    assert_eq!(remove_spans(items.clone(), &[]), items);
    assert_eq!(remove_spans(items.clone(), &[(0, 8)]), Vec::<i32>::new());
}

#[test]
fn only_matching_blocks_are_removed() {
    let mut ops = vec![op("q", vec![])];
    ops.extend(block("Body text"));
    ops.push(op("re", vec![Object::Integer(1)]));
    ops.extend(block("C2 - CONFIDENTIAL"));
    ops.push(op("f", vec![]));
    ops.extend(block("confidential again"));
    ops.push(op("Q", vec![]));
    let (left, removed) = strip_operations(ops, &strings(&["confidential"]));
    assert_eq!(removed, 2);
    assert_eq!(operators(&left), strings(&["q", "BT", "Tj", "ET", "re", "f", "Q"]));
    let blocks = extract_text_blocks(&left);
    assert_eq!(blocks.len(), 1);
    assert_eq!(blocks[0].text, "Body text");
}

#[test]
fn second_removal_finds_nothing() {
    let mut ops = block("mark");
    ops.push(op("n", vec![]));
    ops.extend(block("rest"));
    let keywords = strings(&["mark"]);
    let (once, removed) = strip_operations(ops, &keywords);
    assert_eq!(removed, 1);
    let names = operators(&once);
    let (twice, again) = strip_operations(once, &keywords);
    assert_eq!(again, 0);
    assert_eq!(operators(&twice), names);
}

#[test]
fn no_match_leaves_everything() {
    let mut ops = block("one");
    ops.push(op("W", vec![]));
    let names = operators(&ops);
    for keywords in [strings(&["two"]), strings(&[]), strings(&[""])] {
        let (left, removed) = strip_operations(ops.clone(), &keywords);
        assert_eq!(removed, 0);
        assert_eq!(operators(&left), names);
    }
}

#[test]
fn other_blocks_move_up() {
    let mut ops = block("one");
    ops.push(op("q", vec![]));
    ops.extend(block("mark"));
    ops.push(op("Q", vec![]));
    ops.extend(block("two"));
    let before = extract_text_blocks(&ops);
    let (left, removed) = strip_operations(ops, &strings(&["mark"]));
    assert_eq!(removed, 1);
    let after = extract_text_blocks(&left);
    assert_eq!(after.len(), 2);
    assert_eq!(after[0], before[0]);
    assert_eq!(after[1].text, before[2].text);
    assert_eq!((after[1].op_start, after[1].op_end), (before[2].op_start - 3, before[2].op_end - 3));
}
