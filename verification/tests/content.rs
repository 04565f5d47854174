use lopdf::content::{Content, Operation};
use lopdf::{Dictionary, Object, Stream, StringFormat};
use pdf_wm_remover::content::{decode_content_or_empty, encode_operations};
use pdf_wm_remover::extract_text_blocks;
use pdf_wm_remover::inline_image::contains_bad_image;
use pdf_wm_remover::strip::strip_operations;

fn operators(ops: &[Operation]) -> Vec<String> {
    ops.iter().map(|op| op.operator.clone()).collect()
}

#[test]
fn operations_are_read() {
    let ops = decode_content_or_empty(b"q 1 0 0 1 5 5 cm BT /F1 12 Tf (Hi) Tj ET Q");
    assert_eq!(operators(&ops), ["q", "cm", "BT", "Tf", "Tj", "ET", "Q"]);
    assert_eq!(ops[4].operands, vec![Object::String(b"Hi".to_vec(), StringFormat::Literal)]);
}

#[test]
fn nothing_is_read_from_nothing() {
    assert!(decode_content_or_empty(b"").is_empty());
    assert!(decode_content_or_empty(b"  \n").is_empty());
}

#[test]
fn unreadable_images_make_content_unreadable() {
    let data = b"BT (x) Tj ET BI /W 1 /H 1 /BPC 8 ID x EI";
    assert!(contains_bad_image(data));
    assert!(decode_content_or_empty(data).is_empty());
    assert!(decode_content_or_empty(b"BT (x) Tj ET BI /W 1 /F /Fl ID x EI").is_empty());
}

#[test]
fn images_with_a_color_space_are_read() {
    let data = b"BI /W 2 /H 1 /CS /Gray /BPC 8 ID ab EI BT (x) Tj ET";
    assert!(!contains_bad_image(data));
    let ops = decode_content_or_empty(data);
    assert_eq!(operators(&ops), ["BI", "BT", "Tj", "ET"]);
}

#[test]
fn masks_need_no_color_space() {
    let data = b"BI /W 8 /H 1 /IM true /BPC 1 ID a EI BT (x) Tj ET";
    assert!(!contains_bad_image(data));
    assert_eq!(operators(&decode_content_or_empty(data)), ["BI", "BT", "Tj", "ET"]);
    assert!(contains_bad_image(b"BI /W 8 /H 1 /IM false /BPC 1 ID a EI"));
    assert!(contains_bad_image(b"BI /W 8 /H 1 /IM true /#49M false /BPC 1 ID a EI"));
    assert!(!contains_bad_image(b"BI /ImageMask true ID a EI"));
}

#[test]
fn entries_of_all_kinds_are_skipped() {
    for entry in [
        "/D [1 0 (])]",
        "/X (a\\) ID (b) c)",
        "/X <</K -1/L <AB> /M [1 2] % comment >> \n >>",
        "/X <41 42>",
        "/X null",
        "/X -1.5",
        "/X 1 0 R",
        "/X /Name#20x",
        "/X % ID\n 3",
        "/X[]",
    ] {
        let good = format!("BI {entry} /CS /G /W 1 ID a EI");
        assert!(!contains_bad_image(good.as_bytes()), "{good}");
        let bad = format!("BI {entry} /W 1 /H 1 /BPC 8 ID a EI");
        assert!(contains_bad_image(bad.as_bytes()), "{bad}");
    }
}

#[test]
fn words_in_text_are_no_images() {
    for text in [
        "(Power BI/Tableau (cloud)) Tj",
        "(BI) Tj",
        "(BI ID) Tj",
        "(BIID) Tj",
        "(RABBI IDAHO) Tj",
        "(BI /W 1 /H 1 /BPC 8 ID x EI) Tj",
        "% BI /W 1 /H 1 /BPC 8 ID x EI\n(a) Tj",
        "1 BI",
        "/BI /x gs",
        "(BI /W 1 ) Tj",
    ] {
        assert!(!contains_bad_image(text.as_bytes()), "{text}");
        let ops = decode_content_or_empty(text.as_bytes());
        assert_eq!(ops.len(), 1, "{text}");
        assert_eq!(operators(&ops), operators(&Content::decode(text.as_bytes()).unwrap().operations));
    }
    for text in ["BI", "BI /W", "BI /W (x"] {
        assert!(!contains_bad_image(text.as_bytes()), "{text}");
        assert!(decode_content_or_empty(text.as_bytes()).is_empty());
    }
}

#[test]
fn images_without_a_size_are_no_panic() {
    for data in ["BI ID x EI", "BI /W 1 /H 1 ID x EI", "BI /W 1 /BPC 8 ID x EI", "BI /H 1 /BPC 8 ID x EI"] {
        assert!(!contains_bad_image(data.as_bytes()), "{data}");
        assert!(decode_content_or_empty(data.as_bytes()).is_empty());
    }
    assert!(contains_bad_image(b"BI /Width 1 /Height 1 /BitsPerComponent 8 ID x EI"));
}

#[test]
fn bad_images_are_found_behind_operations() {
    for data in [
        "BI /W 1 /H 1 /BPC 8 ID x EI",
        " q Q BI /W 1 /H 1 /BPC 8 ID x EI",
        "BT (BI) Tj ET\n%x\r\n%y\nBI/W 1/H 1/BPC 8 ID x EI",
        "BI /W 2 /H 1 /CS /Gray /BPC 8 ID ab EI BI /W 1 /H 1 /BPC 8 ID x EI",
    ] {
        assert!(contains_bad_image(data.as_bytes()), "{data}");
        assert!(decode_content_or_empty(data.as_bytes()).is_empty());
    }
}

#[test]
fn images_that_are_not_come_to_do_no_harm() {
    let hidden = b"BI /W 27 /H 1 /CS /Gray /BPC 8 ID BI /W 1 /H 1 /BPC 8 ID x EI EI (a) Tj";
    assert!(!contains_bad_image(hidden));
    assert_eq!(operators(&decode_content_or_empty(hidden)), ["BI", "Tj"]);
    let behind = b"q <XY> n BI /W 1 /H 1 /BPC 8 ID x EI";
    assert!(!contains_bad_image(behind));
    assert_eq!(operators(&decode_content_or_empty(behind)), ["q"]);
}

#[test]
fn written_operations_are_read_again() {
    let source = b"q BT /F1 10.5 Tf 72 712.25 Td [(a\\(b) -20 <AB> (c\\\\)] TJ (\\) \\r \\n) ' 1 2 (e) \" ET \
        /P <</MCID 0/X[true null]>> BDC EMC Q";
    let ops = decode_content_or_empty(source);
    let shown = extract_text_blocks(&ops)[0].text.clone();
    let data = encode_operations(ops.clone()).unwrap();
    let again = decode_content_or_empty(&data);
    assert_eq!(operators(&again), operators(&ops));
    assert_eq!(extract_text_blocks(&again)[0].text, shown);
    for (before, after) in ops.iter().zip(&again) {
        assert_eq!(before.operands, after.operands);
    }
}

#[test]
fn operations_are_written_as_lopdf_does() {
    let ops = decode_content_or_empty(b"q 1 0 0 1 5 5 cm BT /F1 12 Tf (Hi) Tj ET Q");
    let expected = Content { operations: ops.clone() }.encode().unwrap();
    assert_eq!(encode_operations(ops).unwrap(), expected);
    assert!(encode_operations(vec![]).unwrap().is_empty());
}

#[test]
fn inline_images_survive_a_removal() {
    let source = b"q BT (Mark) Tj ET BI /W 2 /H 1 /CS /Gray /BPC 8 ID ab EI BT (Body) Tj ET Q";
    let (left, removed) = strip_operations(decode_content_or_empty(source), &["mark".to_string()]);
    assert_eq!(removed, 1);
    let data = encode_operations(left).unwrap();
    let again = decode_content_or_empty(&data);
    assert_eq!(operators(&again), ["q", "BI", "BT", "Tj", "ET", "Q"]);
    match &again[1].operands[0] {
        Object::Stream(stream) => {
            assert_eq!(stream.content, b"ab");
            assert_eq!(stream.dict.get(b"W").unwrap().as_i64().unwrap(), 2);
            assert_eq!(stream.dict.get(b"CS").unwrap().as_name().unwrap(), b"Gray");
        }
        other => panic!("{other:?}"),
    }
}

#[test]
fn several_images_are_written() {
    let mut dict = Dictionary::new();
    dict.set("W", 1);
    let image = |data: &[u8]| {
        let mut stream = Stream::new(Dictionary::new(), data.to_vec());
        stream.dict = dict.clone();
        Operation::new("BI", vec![Object::Stream(stream)])
    };
    let ops = vec![Operation::new("q", vec![]), image(b"x"), image(b"yz"), Operation::new("Q", vec![])];
    assert_eq!(encode_operations(ops).unwrap(), b"q\nBI\n/W 1 ID\nx\nEI\nBI\n/W 1 ID\nyz\nEI\nQ");
}

struct Source(u64);

impl Source {
    fn below(&mut self, n: u64) -> u64 {
        self.0 = self.0.wrapping_mul(6_364_136_223_846_793_005).wrapping_add(1_442_695_040_888_963_407);
        (self.0 >> 33) % n
    }

    fn bytes(&mut self, alphabet: &[u8], longest: u64) -> Vec<u8> {
        let n = self.below(longest + 1);
        (0..n)
            .map(|_| match self.below(3) {
                0 => self.below(256) as u8,
                _ => alphabet[self.below(alphabet.len() as u64) as usize],
            })
            .collect()
    }

    fn object(&mut self, depth: u64) -> Object {
        match self.below(if depth == 0 { 7 } else { 9 }) {
            0 => Object::Null,
            1 => Object::Boolean(self.below(2) == 0),
            2 => Object::Integer((self.below(1 << 30) as i64 - (1 << 29)) << self.below(20)),
            3 => {
                let number = f32::from_bits((self.below(1 << 31) << 1) as u32);
                Object::Real(if number.abs() < 9.0e18 { number } else { 0.5 })
            }
            4 => Object::Name(self.bytes(b"ABab019#/ ()<>[]{}%", 6)),
            5 => Object::String(self.bytes(b"()\\\r\nabc019", 20), StringFormat::Literal),
            6 => Object::String(self.bytes(b"()<>ab", 8), StringFormat::Hexadecimal),
            7 => Object::Array((0..self.below(5)).map(|_| self.object(depth - 1)).collect()),
            _ => {
                let mut dict = Dictionary::new();
                for _ in 0..self.below(4) {
                    let name = self.bytes(b"ABab019#/ ", 4);
                    dict.set(name, self.object(depth - 1));
                }
                Object::Dictionary(dict)
            }
        }
    }
}

#[test]
fn random_operations_are_read_as_they_were_written() {
    let names = [
        "BT", "ET", "Tj", "TJ", "'", "\"", "Tf", "q", "Q", "T*", "BDC", "n", "f", "t", "R", "stream", "ID", "EI",
    ];
    let mut source = Source(7);
    for _ in 0..3_000 {
        let ops: Vec<Operation> = (0..source.below(8))
            .map(|_| {
                let operator = names[source.below(names.len() as u64) as usize];
                Operation::new(operator, (0..source.below(4)).map(|_| source.object(3)).collect())
            })
            .collect();
        let data = encode_operations(ops.clone()).unwrap();
        assert!(!contains_bad_image(&data));
        let again = decode_content_or_empty(&data);
        assert_eq!(operators(&again), operators(&ops), "{:?}", String::from_utf8_lossy(&data));
        let shown = |ops: &[Operation]| -> Vec<String> {
            extract_text_blocks(ops).iter().map(|block| block.text.clone()).collect()
        };
        assert_eq!(shown(&again), shown(&ops));
        for (before, after) in ops.iter().zip(&again) {
            assert_eq!(before.operands.len(), after.operands.len());
        }
    }
}

#[test]
fn random_images_are_read_or_refused() {
    let parts = [
        "BI", "ID", "EI", " ", "\n", "/W", "/H", "/BPC", "/CS", "/ColorSpace", "/IM", "/ImageMask", "/F", "/#43S",
        "/#49M", "/Gray", "/RGB", " 1", " 8", " 2 0 R", " true", " false", " null", "[1 0]", "(BI)", "<41>", "<</K 1>>",
        "%x\n", "%", "BT", "ET", "(x) Tj", "/", "-1", ".5", "[", "]", "(", ")", "<<", ">>", "\0", "\x0c",
    ];
    let mut source = Source(11);
    let mut read = 0;
    for round in 0..60_000 {
        let mut data = String::new();
        if round % 2 == 0 {
            data.push_str("BI /W 1 /H 1 /BPC 8 ");
        }
        for _ in 0..source.below(14) {
            data.push_str(parts[source.below(parts.len() as u64) as usize]);
            if source.below(2) == 0 {
                data.push(' ');
            }
        }
        if round % 3 == 0 {
            data.push_str(" ID x EI");
        }
        let ops = decode_content_or_empty(data.as_bytes());
        if !contains_bad_image(data.as_bytes()) {
            let expected = Content::decode(data.as_bytes()).map(|content| content.operations).unwrap_or_default();
            assert_eq!(operators(&ops), operators(&expected));
        }
        read += ops.len();
    }
    assert!(read > 0);
}
