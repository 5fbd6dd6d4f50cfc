use immutable_text::text::{Text, TextError};

fn chars(s: &str) -> Vec<char> {
    s.chars().collect()
}

fn text_of(s: &str) -> Text {
    Text::create(chars(s))
}

fn materialized(t: &Text) -> String {
    t.materialize().into_iter().collect()
}

#[test]
fn create_and_length() {
    let t = text_of("hello");
    assert_eq!(t.length(), 5);
    assert_eq!(materialized(&t), "hello");
}

#[test]
fn empty_text() {
    let e = Text::empty();
    assert_eq!(e.length(), 0);
    assert_eq!(materialized(&e), "");
    assert_eq!(e.char_at(0), Err(TextError::IndexOutOfRange));
}

#[test]
fn insert_into_hello() {
    let t = text_of("hello");
    let bang = text_of("!");
    let u = t.insert(5, &bang).unwrap();
    assert_eq!(materialized(&u), "hello!");
    assert_eq!(u.length(), 6);
    assert_eq!(materialized(&t), "hello");
}

#[test]
fn sub_text_of_hello_world() {
    let t = text_of("hello world");
    let u = t.sub_text(6).unwrap();
    assert_eq!(materialized(&u), "world");
}

#[test]
fn remove_from_abcdef() {
    let t = text_of("abcdef");
    let u = t.remove(1, 2).unwrap();
    assert_eq!(materialized(&u), "adef");
}

#[test]
fn concat_adds_lengths_and_contents() {
    let a = text_of("immutable ");
    let b = text_of("text");
    let c = a.concat(&b);
    assert_eq!(c.length(), a.length() + b.length());
    assert_eq!(materialized(&c), "immutable text");
}

#[test]
fn concat_with_empty_is_identity() {
    let a = text_of("persistent");
    let e = Text::empty();
    assert_eq!(materialized(&e.concat(&a)), "persistent");
    assert_eq!(materialized(&a.concat(&e)), "persistent");
    assert_eq!(a.concat(&e).length(), a.length());
}

#[test]
fn char_at_matches_materialize() {
    let t = text_of("some ropes share their unchanged subtrees across versions");
    let flat = t.materialize();
    for i in 0..t.length() {
        assert_eq!(t.char_at(i), Ok(flat[i]));
    }
    assert_eq!(t.char_at(t.length()), Err(TextError::IndexOutOfRange));
}

#[test]
fn every_slice_matches_materialize() {
    // Built by concatenation, so the tree has composites to slice across.
    let mut t = Text::empty();
    for piece in ["alpha beta ", "gamma delta ", "epsilon zeta ", "eta theta"] {
        t = t.concat(&text_of(piece));
    }
    let flat: String = materialized(&t);
    let n = t.length();
    for start in 0..=n {
        for end in start..=n {
            let s = t.slice(start, end - start).unwrap();
            assert_eq!(materialized(&s), &flat[start..end]);
        }
    }
}

#[test]
fn slice_of_whole_range_and_zero_width() {
    let t = text_of("whole");
    let whole = t.slice(0, 5).unwrap();
    assert_eq!(materialized(&whole), "whole");
    let none = t.slice(3, 0).unwrap();
    assert_eq!(none.length(), 0);
    assert_eq!(materialized(&none), "");
}

#[test]
fn slice_out_of_range() {
    let t = text_of("short");
    assert!(t.slice(4, 2).is_err());
    assert!(matches!(t.slice(6, 0), Err(TextError::IndexOutOfRange)));
    assert!(matches!(t.slice(0, 6), Err(TextError::IndexOutOfRange)));
}

#[test]
fn sub_text_out_of_range() {
    let t = text_of("short");
    assert_eq!(t.sub_text(5).unwrap().length(), 0);
    assert!(t.sub_text(6).is_err());
}

#[test]
fn insert_out_of_range() {
    let t = text_of("short");
    let s = text_of("x");
    assert!(t.insert(6, &s).is_err());
}

#[test]
fn remove_out_of_range_or_nothing() {
    let t = text_of("short");
    assert!(t.remove(3, 3).is_err());
    assert!(t.remove(6, 0).is_err());
    let same = t.remove(2, 0).unwrap();
    assert_eq!(materialized(&same), "short");
}

#[test]
fn insert_then_remove_round_trip() {
    let base = text_of("abc").concat(&text_of("defghi"));
    let patch = text_of("XYZ");
    for i in 0..=base.length() {
        let grown = base.insert(i, &patch).unwrap();
        let back = grown.remove(i, patch.length()).unwrap();
        assert_eq!(materialized(&back), "abcdefghi");
    }
}

#[test]
fn long_flat_text_is_chunked_and_still_reads_back() {
    // One flat leaf far over the block size; concatenation forces the
    // chunked splitting path.
    let long: String = "abcdefghij".repeat(50);
    let t = text_of(&long);
    let u = t.concat(&text_of("-tail"));
    let expected = format!("{long}-tail");
    assert_eq!(materialized(&u), expected);
    let mid = u.slice(123, 321).unwrap();
    assert_eq!(materialized(&mid), &expected[123..444]);
}

#[test]
fn edits_match_a_string_model() {
    let mut t = text_of("seed");
    let mut model = String::from("seed");
    for step in 0..200usize {
        let pos = (step * 7) % (t.length() + 1);
        let piece = ["one", "2", "", "four"][step % 4];
        t = t.insert(pos, &text_of(piece)).unwrap();
        model.insert_str(pos, piece);
        if step % 3 == 0 && t.length() > 5 {
            let cut = (step * 5) % 4 + 1;
            let at = (step * 11) % (t.length() - cut);
            t = t.remove(at, cut).unwrap();
            model.replace_range(at..at + cut, "");
        }
        assert_eq!(t.length(), model.len());
    }
    assert_eq!(materialized(&t), model);
}
