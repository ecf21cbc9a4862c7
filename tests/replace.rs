use repgrep::encoding::{detect_encoding, Bom, EncodingHint, TextEncoding};
use repgrep::item::{Item, ItemKind};
use repgrep::message::{Duration, Message, Stats, SubMatch};
use repgrep::replace::{file_plans, rewrite_file, Edit, FileError, ReplacementCriteria};

fn stats() -> Stats {
    Stats {
        elapsed: Duration { secs: 0, nanos: 0 },
        searches: 0,
        searches_with_match: 0,
        bytes_searched: 0,
        bytes_printed: 0,
        matched_lines: 0,
        matches: 0,
    }
}

fn build(kind: ItemKind, path: &[u8], lines: &str, offset: usize, submatches: Vec<SubMatch>) -> Item {
    let path = path.to_vec();
    let lines = lines.as_bytes().to_vec();
    let message = match kind {
        ItemKind::Begin => Message::Begin { path },
        ItemKind::Match => Message::Match {
            path,
            lines,
            line_number: None,
            absolute_offset: offset,
            submatches,
        },
        ItemKind::Context => Message::Context { path, lines, line_number: None },
        ItemKind::End => Message::End { path },
        ItemKind::Summary => Message::Summary {
            stats: stats(),
            elapsed_total: Duration { secs: 0, nanos: 0 },
        },
    };
    Item::new(message)
}

fn match_item(path: &[u8], lines: &str, offset: usize, submatches: Vec<SubMatch>) -> Item {
    build(ItemKind::Match, path, lines, offset, submatches)
}

/// Runs a commit over in-memory files and returns each file's bytes after
/// it, with the total number of replacements.
fn commit(criteria: ReplacementCriteria, files: Vec<(Vec<u8>, Vec<u8>)>) -> (Vec<Vec<u8>>, usize) {
    let plans = criteria.as_map();
    let mut out: Vec<Vec<u8>> = files.iter().map(|f| f.1.clone()).collect();
    let mut total = 0;
    for plan in plans {
        let idx = files.iter().position(|f| f.0 == plan.path).expect("planned file exists");
        let rw = rewrite_file(&files[idx].1, criteria.encoding, &plan.edits, &criteria.text).unwrap();
        total += rw.count;
        out[idx] = rw.bytes;
    }
    (out, total)
}

fn text(b: &[u8]) -> String {
    String::from_utf8(b.to_vec()).unwrap()
}

#[test]
fn it_performs_replacements_only_on_match_items() {
    let t = "foo bar baz";
    let kinds = [ItemKind::Begin, ItemKind::Context, ItemKind::Match, ItemKind::End, ItemKind::Summary];
    let names: Vec<Vec<u8>> = (1..=5).map(|i| format!("f{}", i).into_bytes()).collect();
    let items: Vec<Item> = kinds
        .iter()
        .zip(names.iter())
        .map(|(k, n)| build(*k, n, t, 0, vec![SubMatch::new_text("foo", 0..3)]))
        .collect();
    let files = names.iter().map(|n| (n.clone(), t.as_bytes().to_vec())).collect();
    let (out, _) = commit(ReplacementCriteria::new("NEW_VALUE", items), files);
    assert_eq!(text(&out[0]), t);
    assert_eq!(text(&out[1]), t);
    assert_eq!(text(&out[2]), "NEW_VALUE bar baz");
    assert_eq!(text(&out[3]), t);
    assert_eq!(text(&out[4]), t);
}

fn three_files() -> (Vec<Item>, Vec<(Vec<u8>, Vec<u8>)>) {
    let items = vec![
        match_item(b"f1", "foo bar baz", 0, vec![SubMatch::new_text("foo", 0..3)]),
        match_item(b"f2", "baz foo bar", 0, vec![SubMatch::new_text("foo", 4..7)]),
        match_item(b"f3", "bar baz foo", 0, vec![SubMatch::new_text("foo", 8..11)]),
    ];
    let files = vec![
        (b"f1".to_vec(), b"foo bar baz".to_vec()),
        (b"f2".to_vec(), b"baz foo bar".to_vec()),
        (b"f3".to_vec(), b"bar baz foo".to_vec()),
    ];
    (items, files)
}

#[test]
fn it_performs_replacements_in_separate_files() {
    let (items, files) = three_files();
    let (out, count) = commit(ReplacementCriteria::new("NEW_VALUE", items), files);
    assert_eq!(text(&out[0]), "NEW_VALUE bar baz");
    assert_eq!(text(&out[1]), "baz NEW_VALUE bar");
    assert_eq!(text(&out[2]), "bar baz NEW_VALUE");
    assert_eq!(count, 3);
}

#[test]
fn it_does_not_replace_deselected_matches() {
    let (mut items, files) = three_files();
    items[0].set_should_replace(0, false);
    items[1].set_should_replace(0, true);
    items[2].set_should_replace(0, false);
    let criteria = ReplacementCriteria::new("NEW_VALUE", items);
    let plans = criteria.as_map();
    assert_eq!(plans.len(), 1);
    assert_eq!(plans[0].path, b"f2".to_vec());
    let (out, count) = commit(criteria, files);
    assert_eq!(text(&out[0]), "foo bar baz");
    assert_eq!(text(&out[1]), "baz NEW_VALUE bar");
    assert_eq!(text(&out[2]), "bar baz foo");
    assert_eq!(count, 1);
}

#[test]
fn it_performs_multiple_replacements_one_file() {
    let item = match_item(
        b"f",
        "foo bar baz",
        0,
        vec![
            SubMatch::new_text("foo", 0..3),
            SubMatch::new_text("bar", 4..7),
            SubMatch::new_text("baz", 8..11),
        ],
    );
    let files = vec![(b"f".to_vec(), b"foo bar baz".to_vec())];
    let (out, count) = commit(ReplacementCriteria::new("NEW_VALUE", vec![item]), files);
    assert_eq!(text(&out[0]), "NEW_VALUE NEW_VALUE NEW_VALUE");
    assert_eq!(count, 3);
}

#[test]
fn submatch_order_does_not_change_the_result() {
    let item = match_item(
        b"f",
        "foo bar baz",
        0,
        vec![
            SubMatch::new_text("baz", 8..11),
            SubMatch::new_text("foo", 0..3),
            SubMatch::new_text("bar", 4..7),
        ],
    );
    let files = vec![(b"f".to_vec(), b"foo bar baz".to_vec())];
    let (out, count) = commit(ReplacementCriteria::new("NEW_VALUE", vec![item]), files);
    assert_eq!(text(&out[0]), "NEW_VALUE NEW_VALUE NEW_VALUE");
    assert_eq!(count, 3);
}

#[test]
fn item_order_does_not_change_the_result() {
    let path = b"f";
    let items = vec![
        match_item(path, "bar baz foo", 32, vec![SubMatch::new_text("foo", 8..11)]),
        match_item(path, "foo bar baz\n", 0, vec![SubMatch::new_text("foo", 0..3)]),
        match_item(path, "baz foo bar\n", 16, vec![SubMatch::new_text("foo", 4..7)]),
    ];
    let files = vec![(path.to_vec(), b"foo bar baz\n...\nbaz foo bar\n...\nbar baz foo".to_vec())];
    let (out, _) = commit(ReplacementCriteria::new("NEW_VALUE", items), files);
    assert_eq!(
        text(&out[0]),
        "NEW_VALUE bar baz\n...\nbaz NEW_VALUE bar\n...\nbar baz NEW_VALUE"
    );
}

#[test]
fn it_performs_replacements_on_multiple_lines() {
    let path = b"f";
    let items = vec![
        match_item(path, "foo bar baz\n", 0, vec![SubMatch::new_text("foo", 0..3)]),
        match_item(path, "baz foo bar\n", 16, vec![SubMatch::new_text("foo", 4..7)]),
        match_item(path, "bar baz foo", 32, vec![SubMatch::new_text("foo", 8..11)]),
    ];
    let files = vec![(path.to_vec(), b"foo bar baz\n...\nbaz foo bar\n...\nbar baz foo".to_vec())];
    let (out, _) = commit(ReplacementCriteria::new("NEW_VALUE", items), files);
    assert_eq!(
        text(&out[0]),
        "NEW_VALUE bar baz\n...\nbaz NEW_VALUE bar\n...\nbar baz NEW_VALUE"
    );
}

#[test]
fn it_performs_replacements_files_with_non_utf8_paths_unix() {
    let path: Vec<u8> = vec![0x66, 0x6f, 0x80, 0x6f];
    let item = match_item(&path, "hello earth", 0, vec![SubMatch::new_text("o", 4..5)]);
    let files = vec![(path.clone(), b"hello earth".to_vec())];
    let (out, _) = commit(ReplacementCriteria::new(" on", vec![item]), files);
    assert_eq!(text(&out[0]), "hell on earth");
}

#[test]
fn nothing_selected_writes_nothing() {
    let (mut items, _) = three_files();
    for it in items.iter_mut() {
        it.set_should_replace(0, false);
    }
    let criteria = ReplacementCriteria::new("NEW_VALUE", items);
    assert_eq!(criteria.as_map().len(), 0);
    assert_eq!(file_plans(&criteria.items).len(), 0);
}

#[test]
fn stale_match_is_skipped_and_reported() {
    let edits = vec![
        Edit { start: 0, end: 3, expected: b"XXX".to_vec(), line_number: Some(3) },
        Edit { start: 8, end: 11, expected: b"baz".to_vec(), line_number: Some(3) },
    ];
    let rw = rewrite_file(b"foo bar baz", EncodingHint::Auto, &edits, "NEW").unwrap();
    assert_eq!(text(&rw.bytes), "foo bar NEW");
    assert_eq!(rw.count, 1);
    assert_eq!(rw.stale, vec![0]);
    assert_eq!(rw.removed.len(), 1);
    assert_eq!(rw.removed[0].start, 8);
    assert_eq!(rw.removed[0].line_number, Some(3));
    assert_eq!(rw.removed[0].text, b"baz".to_vec());
}

#[test]
fn out_of_range_and_split_character_matches_are_skipped() {
    let edits = vec![
        Edit { start: 9, end: 14, expected: b"rest!".to_vec(), line_number: None },
        Edit { start: 1, end: 2, expected: vec![0xA9], line_number: None },
    ];
    let contents = "\u{e9}t\u{e9} ok".as_bytes();
    let rw = rewrite_file(contents, EncodingHint::Auto, &edits, "X").unwrap();
    assert_eq!(rw.bytes, contents.to_vec());
    assert_eq!(rw.count, 0);
    assert_eq!(rw.stale, vec![9, 1]);
    assert!(rw.removed.is_empty());
}

#[test]
fn utf8_that_only_looks_like_utf16_is_read_as_utf8() {
    let contents: Vec<u8> = vec![0x61, 0x00, 0x61, 0x00, 0x61, 0x00, 0x61, 0xD8, 0x80, 0x61];
    assert_eq!(detect_encoding(&contents, EncodingHint::Auto), (None, TextEncoding::Utf16Le));
    let edits = vec![Edit { start: 9, end: 10, expected: b"a".to_vec(), line_number: None }];
    let rw = rewrite_file(&contents, EncodingHint::Auto, &edits, "b").unwrap();
    let mut expected = contents.clone();
    expected[9] = b'b';
    assert_eq!(rw.bytes, expected);
    assert_eq!(rw.count, 1);
    let fixed = rewrite_file(&contents, EncodingHint::Fixed(TextEncoding::Utf16Le), &edits, "b");
    assert!(matches!(fixed, Err(FileError::Decode)));
}

#[test]
fn undecodable_file_is_refused() {
    let edits: Vec<Edit> = Vec::new();
    let r = rewrite_file(&[0x66, 0xff, 0x6f], EncodingHint::Auto, &edits, "X");
    assert!(matches!(r, Err(FileError::Decode)));
    let r = rewrite_file(&[0xff, 0xfe, 0x00, 0xd8], EncodingHint::Auto, &edits, "X");
    assert!(matches!(r, Err(FileError::Decode)));
}

fn utf16(s: &str, big_endian: bool) -> Vec<u8> {
    let mut out = vec![];
    for u in s.encode_utf16() {
        let [hi, lo] = u.to_be_bytes();
        if big_endian {
            out.push(hi);
            out.push(lo);
        } else {
            out.push(lo);
            out.push(hi);
        }
    }
    out
}

#[test]
fn round_trip_without_edits_keeps_every_byte() {
    let s = "foo bar baz\n...\nbaz \u{1F600} bar";
    let mut variants: Vec<Vec<u8>> = vec![s.as_bytes().to_vec()];
    let mut bom8 = vec![0xEF, 0xBB, 0xBF];
    bom8.extend_from_slice(s.as_bytes());
    variants.push(bom8);
    let mut le = vec![0xFF, 0xFE];
    le.extend(utf16(s, false));
    variants.push(le);
    let mut be = vec![0xFE, 0xFF];
    be.extend(utf16(s, true));
    variants.push(be);
    variants.push(utf16("foo bar baz", false));
    variants.push(utf16("foo bar baz", true));
    let edits: Vec<Edit> = Vec::new();
    for v in variants {
        let rw = rewrite_file(&v, EncodingHint::Auto, &edits, "X").unwrap();
        assert_eq!(rw.bytes, v);
        assert_eq!(rw.count, 0);
    }
}

#[test]
fn detects_marks_and_sniffs_utf16() {
    assert_eq!(detect_encoding(&[0xEF, 0xBB, 0xBF, 0x61], EncodingHint::Auto), (Some(Bom::Utf8), TextEncoding::Utf8));
    assert_eq!(detect_encoding(&[0xFF, 0xFE, 0x61, 0x00], EncodingHint::Auto), (Some(Bom::Utf16Le), TextEncoding::Utf16Le));
    assert_eq!(detect_encoding(&[0xFE, 0xFF, 0x00, 0x61], EncodingHint::Auto), (Some(Bom::Utf16Be), TextEncoding::Utf16Be));
    assert_eq!(detect_encoding(&utf16("abcd", false), EncodingHint::Auto), (None, TextEncoding::Utf16Le));
    assert_eq!(detect_encoding(&utf16("abcd", true), EncodingHint::Auto), (None, TextEncoding::Utf16Be));
    assert_eq!(detect_encoding(b"abcd", EncodingHint::Auto), (None, TextEncoding::Utf8));
    assert_eq!(detect_encoding(b"", EncodingHint::Auto), (None, TextEncoding::Utf8));
    assert_eq!(
        detect_encoding(b"abcd", EncodingHint::Fixed(TextEncoding::Utf16Be)),
        (None, TextEncoding::Utf16Be)
    );
    assert_eq!(
        detect_encoding(&[0xFF, 0xFE, 0x61, 0x00], EncodingHint::Fixed(TextEncoding::Utf8)),
        (Some(Bom::Utf16Le), TextEncoding::Utf16Le)
    );
    assert_eq!(Bom::Utf16Le.bytes(), vec![0xFF, 0xFE]);
    assert_eq!(Bom::Utf8.len(), 3);
}

const UTF8_FOO: &str =
    "666f6f206261722062617a0a2e2e2e0a62617a20666f6f206261720a2e2e2e0a6261722062617a20666f6f";
const UTF8BOM_FOO: &str = "efbbbf666f6f206261722062617a0a2e2e2e0a62617a20666f6f206261720a2e2e2e0a6261722062617a20666f6f";
const UTF16BE_FOO: &str = "feff0066006f006f0020006200610072002000620061007a000a002e002e002e000a00620061007a00200066006f006f0020006200610072000a002e002e002e000a006200610072002000620061007a00200066006f006f";
const UTF16LE_FOO: &str = "fffe66006f006f0020006200610072002000620061007a000a002e002e002e000a00620061007a00200066006f006f0020006200610072000a002e002e002e000a006200610072002000620061007a00200066006f006f00";
const UTF8_RUST: &str = "52555354206261722062617a0a2e2e2e0a62617a2052555354206261720a2e2e2e0a6261722062617a2052555354";
const UTF8BOM_RUST: &str = "efbbbf52555354206261722062617a0a2e2e2e0a62617a2052555354206261720a2e2e2e0a6261722062617a2052555354";
const UTF16BE_RUST: &str = "feff00520055005300540020006200610072002000620061007a000a002e002e002e000a00620061007a002000520055005300540020006200610072000a002e002e002e000a006200610072002000620061007a00200052005500530054";
const UTF16LE_RUST: &str = "fffe520055005300540020006200610072002000620061007a000a002e002e002e000a00620061007a002000520055005300540020006200610072000a002e002e002e000a006200610072002000620061007a0020005200550053005400";
const UTF8_A: &str =
    "41206261722062617a0a2e2e2e0a62617a2041206261720a2e2e2e0a6261722062617a2041";
const UTF8BOM_A: &str =
    "efbbbf41206261722062617a0a2e2e2e0a62617a2041206261720a2e2e2e0a6261722062617a2041";
const UTF16BE_A: &str = "feff00410020006200610072002000620061007a000a002e002e002e000a00620061007a002000410020006200610072000a002e002e002e000a006200610072002000620061007a00200041";
const UTF16LE_A: &str = "fffe410020006200610072002000620061007a000a002e002e002e000a00620061007a002000410020006200610072000a002e002e002e000a006200610072002000620061007a0020004100";

fn encoded_case(src: &str, dst: &str, needle: &str, replace: &str, submatches: &[(usize, std::ops::Range<usize>)]) {
    let src_bytes = hex::decode(src).unwrap();
    let path = b"file".to_vec();
    let items: Vec<Item> = submatches
        .iter()
        .map(|(offset, range)| {
            match_item(&path, &format!("{}\n", needle), *offset, vec![SubMatch::new_text(needle, range.clone())])
        })
        .collect();
    let (out, _) = commit(ReplacementCriteria::new(replace, items), vec![(path.clone(), src_bytes)]);
    assert_eq!(out[0], hex::decode(dst).unwrap());
}

#[test]
fn multiline_longer_utf8() {
    encoded_case(UTF8_FOO, UTF8_RUST, "foo", "RUST", &[(0, 0..3), (16, 4..7), (32, 8..11)]);
}

#[test]
fn multiline_longer_utf8_bom() {
    encoded_case(UTF8BOM_FOO, UTF8BOM_RUST, "foo", "RUST", &[(0, 3..6), (19, 4..7), (35, 8..11)]);
}

#[test]
fn multiline_longer_utf16be() {
    encoded_case(UTF16BE_FOO, UTF16BE_RUST, "foo", "RUST", &[(0, 0..3), (16, 4..7), (32, 8..11)]);
}

#[test]
fn multiline_longer_utf16le() {
    encoded_case(UTF16LE_FOO, UTF16LE_RUST, "foo", "RUST", &[(0, 0..3), (16, 4..7), (32, 8..11)]);
}

#[test]
fn multiline_shorter_utf8() {
    encoded_case(UTF8_FOO, UTF8_A, "foo", "A", &[(0, 0..3), (16, 4..7), (32, 8..11)]);
}

#[test]
fn multiline_shorter_utf8_bom() {
    encoded_case(UTF8BOM_FOO, UTF8BOM_A, "foo", "A", &[(0, 3..6), (19, 4..7), (35, 8..11)]);
}

#[test]
fn multiline_shorter_utf16be() {
    encoded_case(UTF16BE_FOO, UTF16BE_A, "foo", "A", &[(0, 0..3), (16, 4..7), (32, 8..11)]);
}

#[test]
fn multiline_shorter_utf16le() {
    encoded_case(UTF16LE_FOO, UTF16LE_A, "foo", "A", &[(0, 0..3), (16, 4..7), (32, 8..11)]);
}

#[test]
fn non_ascii_replacement_in_utf16() {
    let mut src = vec![0xFF, 0xFE];
    src.extend(utf16("a foo b", false));
    let item = match_item(b"f", "a foo b", 0, vec![SubMatch::new_text("foo", 2..5)]);
    let (out, count) = commit(ReplacementCriteria::new("\u{e9}\u{1F600}", vec![item]), vec![(b"f".to_vec(), src)]);
    let mut expected = vec![0xFF, 0xFE];
    expected.extend(utf16("a \u{e9}\u{1F600} b", false));
    assert_eq!(out[0], expected);
    assert_eq!(count, 1);
}

#[test]
fn files_are_planned_once_in_first_seen_order() {
    let items = vec![
        match_item(b"b", "foo", 0, vec![SubMatch::new_text("foo", 0..3)]),
        match_item(b"a", "foo", 0, vec![SubMatch::new_text("foo", 0..3)]),
        match_item(b"b", "foo", 8, vec![SubMatch::new_text("foo", 0..3), SubMatch::new_text("oo", 1..3)]),
    ];
    let plans = file_plans(&items);
    assert_eq!(plans.len(), 2);
    assert_eq!(plans[0].path, b"b".to_vec());
    assert_eq!(plans[1].path, b"a".to_vec());
    let starts: Vec<(usize, usize)> = plans[0].edits.iter().map(|e| (e.start, e.end)).collect();
    assert_eq!(starts, vec![(0, 3), (8, 11), (9, 11)]);
    assert_eq!(plans[0].edits[2].expected, b"oo".to_vec());
}
