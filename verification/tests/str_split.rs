use playlist::str_split::StrSplit;

fn pieces<'a>(mut split: StrSplit<'a, &str>, at_most: usize) -> Vec<&'a str> {
    let mut out = Vec::new();
    while out.len() < at_most {
        match split.next() {
            Some(p) => out.push(p),
            None => break,
        }
    }
    out
}

#[test]
fn split_at_spaces() {
    let split = StrSplit::new("a b c d e", " ");
    assert_eq!(pieces(split, 100), vec!["a", "b", "c", "d", "e"]);
}

#[test]
fn split_with_trailing_delimiter() {
    let split = StrSplit::new("a b c d ", " ");
    assert_eq!(pieces(split, 100), vec!["a", "b", "c", "d", ""]);
}

#[test]
fn split_with_longer_delimiter() {
    let split = StrSplit::new("one, two,, three", ", ");
    assert_eq!(pieces(split, 100), vec!["one", "two,", "three"]);
}

#[test]
fn split_without_match() {
    let split = StrSplit::new("abc", "x");
    assert_eq!(pieces(split, 100), vec!["abc"]);
    let split = StrSplit::new("", "x");
    assert_eq!(pieces(split, 100), vec![""]);
}

#[test]
fn split_non_ascii() {
    let split = StrSplit::new("é→ü→ñ", "→");
    assert_eq!(pieces(split, 100), vec!["é", "ü", "ñ"]);
}

#[test]
fn split_joins_back() {
    let hay = "x--y----z--";
    let got = pieces(StrSplit::new(hay, "--"), 100);
    assert_eq!(got.join("--"), hay);
}

#[test]
fn split_empty_delimiter_never_ends() {
    let split = StrSplit::new("ab", "");
    assert_eq!(pieces(split, 4), vec!["", "", "", ""]);
}

#[test]
fn split_by_char_is_one_piece() {
    let mut split = StrSplit::new("a b c", ' ');
    assert_eq!(split.next(), Some("a b c"));
    assert_eq!(split.next(), None);
    assert_eq!(split.next(), None);
}

#[test]
fn split_pieces_are_consecutive_subslices() {
    let hay = "ab--cd----e";
    let base = hay.as_ptr() as usize;
    let got = pieces(StrSplit::new(hay, "--"), 100);
    assert_eq!(got, vec!["ab", "cd", "", "e"]);
    let mut expected_start = 0;
    for p in &got {
        let start = p.as_ptr() as usize - base;
        assert_eq!(start, expected_start);
        assert!(!p.contains("--"));
        expected_start = start + p.len() + 2;
    }
    assert_eq!(expected_start - 2, hay.len());
}
