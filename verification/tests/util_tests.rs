use ted::geom::{new_rect, Rect};
use ted::gon::{parse_gon, tokenize, GonValue, Token};
use ted::idx::Idx;
use ted::istring::{IString, StringU8};
use ted::kids::Kids;
use ted::large_text::BufferInfo;
use ted::info::BTreeInfo;
use ted::lisp::Interp;
use ted::pod::Pod;

fn bytes(s: &str) -> Vec<u8> {
    s.as_bytes().to_vec()
}

#[test]
fn gon_tokens_drop_separators_and_comments() {
    let toks = tokenize("a = b, c: [x] # note\n{ \"q r\" }");
    let shapes: Vec<String> = toks
        .iter()
        .map(|t| match t {
            Token::Str(s) => format!("S{}", String::from_utf8(s.clone()).unwrap()),
            Token::String(s) => format!("Q{}", String::from_utf8(s.clone()).unwrap()),
            Token::OpenBrace => "{".to_string(),
            Token::CloseBrace => "}".to_string(),
            Token::OpenBracket => "[".to_string(),
            Token::CloseBracket => "]".to_string(),
            other => format!("{:?}", other),
        })
        .collect();
    assert_eq!(shapes, vec!["Sa", "Sb", "Sc", "[", "Sx", "]", "{", "Sq r", "}"]);
    let toks = tokenize("\"q\\\"\"");
    // an escaped quote is kept and the string goes on
    assert!(matches!(toks.as_slice(), [Token::String(s)] if *s == bytes("q\"")), "{:?}", toks);
    let toks = tokenize("\"a\\nb\\\\c\" d");
    assert!(
        matches!(toks.as_slice(), [Token::String(s), Token::Str(d)] if *s == bytes("a\nb\\c") && *d == bytes("d")),
        "{:?}",
        toks
    );
}

#[test]
fn gon_object_fields_name_their_values() {
    match parse_gon("{ name x other \"y z\" }") {
        GonValue::Object { values, fields } => {
            assert_eq!(values.len(), 2);
            assert!(matches!(&values[0], GonValue::Str(s) if *s == bytes("x")));
            assert!(matches!(&values[1], GonValue::Str(s) if *s == bytes("y z")));
            assert_eq!(fields, vec![(bytes("name"), 0), (bytes("other"), 1)]);
        }
        other => panic!("{:?}", other),
    }
}

#[test]
fn gon_array_closes_at_a_bracket() {
    match parse_gon("{ color [254 254 0] }") {
        GonValue::Object { values, .. } => match &values[0] {
            GonValue::Array(vals) => {
                assert_eq!(vals.len(), 3);
                assert!(matches!(&vals[2], GonValue::Str(s) if *s == bytes("0")));
            }
            other => panic!("{:?}", other),
        },
        other => panic!("{:?}", other),
    }
    match parse_gon("[ p q ]") {
        GonValue::Array(values) => {
            assert_eq!(values.len(), 2);
            assert!(matches!(&values[1], GonValue::Str(s) if *s == bytes("q")));
        }
        other => panic!("{:?}", other),
    }
}

#[test]
fn gon_bare_word_and_empty_text() {
    assert!(matches!(parse_gon("hello"), GonValue::Str(s) if s == bytes("hello")));
    assert!(matches!(parse_gon(""), GonValue::Str(s) if s.is_empty()));
}

#[test]
fn lisp_atoms_are_numbered_from_minus_one() {
    let mut interp = Interp::new();
    assert_eq!(interp.atoms.len(), 7);
    let (b, e) = interp.atoms[2];
    assert_eq!(&interp.atom_data[b as usize..e as usize], b"cons");
    let id = interp.add_atom("hello");
    assert_eq!(id, -8);
    let (b, e) = interp.atoms[7];
    assert_eq!(&interp.atom_data[b as usize..e as usize], b"hello");
    interp.memory = vec![-1, 5, -2];
    assert_eq!(interp.car(0), -1);
    assert_eq!(interp.cdr(0), 5);
    assert_eq!(interp.car(2), -2);
}

#[test]
fn pod_splice_overwrites_removes_and_inserts() {
    let mut p: Pod<u32> = Pod::new();
    for i in 0..6 {
        p.push(i);
    }
    p.splice(1, 3, vec![10, 11, 12, 13]);
    assert_eq!(p.data, vec![0, 10, 11, 12, 13, 3, 4, 5]);
    p.splice(2, 6, vec![20]);
    assert_eq!(p.data, vec![0, 10, 20, 4, 5]);
    p.splice(5, 5, vec![]);
    assert_eq!(p.data, vec![0, 10, 20, 4, 5]);
}

#[test]
fn pod_pop_takes_the_last_value() {
    let mut p: Pod<u8> = Pod::with_capacity(4);
    assert_eq!(p.pop(), None);
    p.push(1);
    p.push(2);
    assert_eq!(p.pop(), Some(2));
    assert_eq!(p.len(), 1);
    assert_eq!(p.data, vec![1]);
    p.push(2);
    assert_eq!(p.len(), 2);
    p.insert(0, 9);
    assert_eq!(p.remove(1), 1);
    assert_eq!(p.data, vec![9, 2]);
    p.push_repeat(7, 3);
    assert_eq!(p.data, vec![9, 2, 7, 7, 7]);
    assert_eq!(p.get(4), Some(&7));
    assert_eq!(p.get(5), None);
    assert_eq!(p.get_slice(1, 3), Some(&[2u8, 7][..]));
    assert_eq!(p.get_slice(3, 6), None);
    assert_eq!(p.get_slice(3, 2), None);
    p.clear();
    assert_eq!(p.len(), 0);
}

#[test]
fn istring_starts_empty() {
    let s: IString<StringU8> = IString::new();
    assert!(s.as_bytes().is_empty());
}

#[test]
fn buffer_info_adds_fieldwise() {
    let a = BufferInfo { content_size: 10, newline_count: 2 };
    let b = BufferInfo { content_size: 5, newline_count: 1 };
    let c = a.add(b);
    assert_eq!((c.content(), c.newlines()), (15, 3));
    assert_eq!(BufferInfo::zero().add(a), a);
}

#[test]
fn kids_split_when_full() {
    let mut k = Kids::new();
    for i in 0..6 {
        assert!(k.insert(i, Idx::new(i)).is_none());
    }
    assert_eq!(k.count(), 6);
    let other = k.insert(0, Idx::new(100)).unwrap();
    assert_eq!(k.count(), 4);
    assert_eq!(other.count(), 3);
    assert_eq!(k.get(0).get(), 100);
    assert_eq!(other.get(0).get(), 3);
    let back: Vec<usize> = other.rev().iter().map(|i| i.get()).collect();
    assert_eq!(back, vec![5, 4, 3]);
    assert_eq!(k.position(Idx::new(1)), Some(2));
    assert_eq!(k.position(Idx::new(5)), None);
    assert!(k.slot(5).is_none());
}

#[test]
fn idx_and_rect_round_trip() {
    assert_eq!(Idx::new(42).get(), 42);
    assert_eq!(new_rect(3, 4), Rect { x: 3, y: 4 });
}

use ted::atlas::{pack_glyphs, Glyph, Metrics};

#[test]
fn glyphs_stand_at_the_bottom_left_of_their_cells() {
    let glyphs = [Glyph { width: 2, height: 1, offset: 0 }, Glyph { width: 1, height: 2, offset: 2 }];
    let data = [7u8, 8, 9, 10];
    let (buffer, w, h) = pack_glyphs(&glyphs, &data);
    // cells are 2 + 5 wide and 2 + 10 high, a hundred to a row
    assert_eq!((w, h), (700, 12));
    assert_eq!(buffer.len(), 700 * 12);
    let row = |y: usize| &buffer[y * 700..(y + 1) * 700];
    assert!(buffer[..700 * 10].iter().all(|b| *b == 0));
    assert_eq!(&row(10)[0..8], &[0, 0, 0, 0, 0, 0, 0, 9]);
    assert_eq!(&row(11)[0..8], &[7, 8, 0, 0, 0, 0, 0, 10]);
    assert!(row(11)[8..].iter().all(|b| *b == 0));
}

#[test]
fn packing_starts_a_new_band_after_a_hundred_glyphs() {
    let glyphs: Vec<Glyph> = (0..101).map(|i| Glyph { width: 1, height: 1, offset: i }).collect();
    let data: Vec<u8> = (1..=101).collect();
    let (buffer, w, h) = pack_glyphs(&glyphs, &data);
    assert_eq!((w, h), (600, 22));
    // the last row of the first band holds glyphs 0..100, one per cell
    let last = &buffer[10 * 600..11 * 600];
    assert_eq!(last[0], 1);
    assert_eq!(last[6], 2);
    assert_eq!(last[594], 100);
    // the second band holds glyph 100 alone
    let second = &buffer[21 * 600..22 * 600];
    assert_eq!(second[0], 101);
    assert!(second[1..].iter().all(|b| *b == 0));
}

#[test]
fn metrics_give_width_and_height() {
    let m = Metrics { l: -2, t: -10, r: 5, b: 3 };
    assert_eq!((m.width(), m.height()), (7, 13));
}

#[test]
fn pod_get_mut_changes_in_place() {
    let mut p: Pod<i64> = Pod::new();
    p.push_repeat(1, 3);
    p.reserve(10);
    *p.get_mut(1).unwrap() = 5;
    assert!(p.get_mut(3).is_none());
    p.shrink_to_fit();
    assert_eq!(p.data, vec![1, 5, 1]);
}

#[test]
fn kids_from_two_indices() {
    let k = Kids::from([Idx::new(4), Idx::new(9)]);
    assert_eq!(k.count(), 2);
    assert_eq!((k.get(0).get(), k.get(1).get()), (4, 9));
    let p = Kids::from_pair(Idx::new(4), Idx::new(9));
    assert_eq!(p.position(Idx::new(9)), Some(1));
}
