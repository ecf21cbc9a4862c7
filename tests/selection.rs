use repgrep::encoding::EncodingHint;
use repgrep::item::{Item, ItemKind};
use repgrep::message::{read_messages, Duration, Message, Stats, StreamError, SubMatch};
use repgrep::ui::{App, AppState, KeyCode, KeyEvent, Movement, Outcome};

fn stats(matches: u64) -> Stats {
    Stats {
        elapsed: Duration { secs: 1, nanos: 5 },
        searches: 1,
        searches_with_match: 1,
        bytes_searched: 10,
        bytes_printed: 10,
        matched_lines: matches,
        matches,
    }
}

fn begin(p: &str) -> Message {
    Message::Begin { path: p.as_bytes().to_vec() }
}

fn end(p: &str) -> Message {
    Message::End { path: p.as_bytes().to_vec() }
}

fn mat(p: &str, line: &str, offset: usize, n: usize) -> Message {
    let submatches = (0..n).map(|i| SubMatch::new(b"x".to_vec(), i, i + 1)).collect();
    Message::Match {
        path: p.as_bytes().to_vec(),
        lines: line.as_bytes().to_vec(),
        line_number: Some(1),
        absolute_offset: offset,
        submatches,
    }
}

fn ctx(p: &str) -> Message {
    Message::Context { path: p.as_bytes().to_vec(), lines: b"ctx".to_vec(), line_number: None }
}

fn summary() -> Message {
    Message::Summary { stats: stats(4), elapsed_total: Duration { secs: 1, nanos: 0 } }
}

fn key(code: KeyCode) -> KeyEvent {
    KeyEvent { code, ctrl: false }
}

fn ctrl(c: char) -> KeyEvent {
    KeyEvent { code: KeyCode::Char(c), ctrl: true }
}

fn app(messages: Vec<Message>) -> App {
    App::new("rg foo".to_string(), messages)
}

fn flags(a: &App, i: usize) -> Vec<bool> {
    a.list[i].should_replace.clone()
}

#[test]
fn app_takes_items_up_to_the_summary() {
    let a = app(vec![begin("a"), mat("a", "x", 0, 2), end("a"), summary(), begin("b")]);
    assert_eq!(a.list.len(), 3);
    assert_eq!(a.stats, stats(4));
    assert_eq!(a.curr_pos(), 0);
    assert!(matches!(a.state, AppState::SelectMatches));
    assert!(!a.should_quit);
    assert_eq!(flags(&a, 1), vec![true, true]);
    assert_eq!(a.list[1].match_count(), 2);
    assert_eq!(a.list[0].match_count(), 0);
    assert_eq!(a.rg_cmdline, "rg foo");
}

#[test]
fn group_toggle_deselects_then_reselects() {
    let mut a = app(vec![begin("a"), mat("a", "x", 0, 1), mat("a", "y", 2, 1), mat("a", "z", 4, 1), end("a"), summary()]);
    assert_eq!(a.on_event(10, key(KeyCode::Char(' '))), Outcome::Continue);
    for i in 1..4 {
        assert_eq!(flags(&a, i), vec![false]);
    }
    a.on_event(10, key(KeyCode::Char(' ')));
    for i in 1..4 {
        assert_eq!(flags(&a, i), vec![true]);
    }
}

#[test]
fn group_toggle_selects_all_when_some_are_deselected() {
    let mut a = app(vec![begin("a"), mat("a", "x", 0, 1), mat("a", "y", 2, 2), end("a"), begin("b"), mat("b", "w", 0, 1), end("b"), summary()]);
    a.list[2].set_should_replace(1, false);
    a.toggle_item();
    assert_eq!(flags(&a, 1), vec![true]);
    assert_eq!(flags(&a, 2), vec![true, true]);
    // The next file is not part of the group.
    a.list[5].set_should_replace(0, false);
    a.toggle_item();
    assert_eq!(flags(&a, 1), vec![false]);
    assert_eq!(flags(&a, 5), vec![false]);
}

#[test]
fn toggling_a_match_flips_only_it() {
    let mut a = app(vec![begin("a"), mat("a", "x", 0, 2), mat("a", "y", 2, 1), end("a"), summary()]);
    a.on_event(10, key(KeyCode::Down));
    assert_eq!(a.curr_pos(), 1);
    a.on_event(10, key(KeyCode::Char(' ')));
    assert_eq!(flags(&a, 1), vec![false, false]);
    assert_eq!(flags(&a, 2), vec![true]);
    a.list[1].toggle_submatch(0);
    assert_eq!(flags(&a, 1), vec![true, false]);
    a.toggle_item();
    assert_eq!(flags(&a, 1), vec![true, true]);
}

#[test]
fn prev_from_first_selectable_stays() {
    let mut a = app(vec![begin("a"), mat("a", "x", 0, 1), end("a"), summary()]);
    a.on_event(10, key(KeyCode::Up));
    assert_eq!(a.curr_pos(), 0);
    a.move_pos(Movement::Prev);
    assert_eq!(a.curr_pos(), 0);
    a.move_pos(Movement::Backward(5));
    assert_eq!(a.curr_pos(), 0);
}

#[test]
fn next_stops_at_the_last_selectable() {
    let mut a = app(vec![begin("a"), ctx("a"), mat("a", "x", 0, 1), ctx("a"), end("a"), summary()]);
    a.on_event(10, key(KeyCode::Char('j')));
    assert_eq!(a.curr_pos(), 2);
    a.on_event(10, key(KeyCode::Char('j')));
    assert_eq!(a.curr_pos(), 2);
    a.on_event(10, key(KeyCode::Char('k')));
    assert_eq!(a.curr_pos(), 0);
}

#[test]
fn file_moves_go_between_headers() {
    let mut a = app(vec![begin("a"), mat("a", "x", 0, 1), end("a"), begin("b"), mat("b", "y", 0, 1), mat("b", "z", 2, 1), end("b"), summary()]);
    a.on_event(10, key(KeyCode::Char('J')));
    assert_eq!(a.curr_pos(), 3);
    a.on_event(10, key(KeyCode::Down));
    assert_eq!(a.curr_pos(), 4);
    a.on_event(10, key(KeyCode::Char('K')));
    assert_eq!(a.curr_pos(), 3);
    a.on_event(10, key(KeyCode::Char('K')));
    assert_eq!(a.curr_pos(), 0);
    // Without a header before the cursor, the move clamps to the first
    // selectable item.
    a.on_event(10, key(KeyCode::Char('K')));
    assert_eq!(a.curr_pos(), 0);
}

#[test]
fn file_move_past_the_last_header_clamps_to_the_last_selectable() {
    let mut a = app(vec![begin("a"), mat("a", "x", 0, 1), end("a"), begin("b"), mat("b", "y", 0, 1), mat("b", "z", 2, 1), end("b"), summary()]);
    a.on_event(10, key(KeyCode::Char('J')));
    a.on_event(10, key(KeyCode::Down));
    assert_eq!(a.curr_pos(), 4);
    a.on_event(10, key(KeyCode::Char('J')));
    assert_eq!(a.curr_pos(), 5);
    a.on_event(10, key(KeyCode::Char('J')));
    assert_eq!(a.curr_pos(), 5);
}

#[test]
fn cursor_starts_on_the_first_item() {
    let a = app(vec![ctx("a"), mat("a", "x", 0, 1), ctx("a"), summary()]);
    assert_eq!(a.curr_pos(), 0);
    let a = app(vec![ctx("a"), summary()]);
    assert_eq!(a.curr_pos(), 0);
}

#[test]
fn moves_from_a_context_line_clamp_to_a_selectable_item() {
    let mut a = app(vec![ctx("a"), mat("a", "x", 0, 1), mat("a", "y", 2, 1), ctx("a"), summary()]);
    a.on_event(10, key(KeyCode::Up));
    assert_eq!(a.curr_pos(), 1);
    a.on_event(10, key(KeyCode::Down));
    assert_eq!(a.curr_pos(), 2);
    a.cursor = 3;
    a.on_event(10, key(KeyCode::Down));
    assert_eq!(a.curr_pos(), 2);
    a.cursor = 0;
    a.on_event(10, key(KeyCode::Char('J')));
    assert_eq!(a.curr_pos(), 2);
    a.cursor = 3;
    a.on_event(10, key(KeyCode::Char('K')));
    assert_eq!(a.curr_pos(), 1);
}

#[test]
fn paging_moves_by_the_height_and_clamps() {
    let mut msgs = vec![begin("a")];
    for i in 0..10 {
        msgs.push(mat("a", "x", i * 2, 1));
    }
    msgs.push(end("a"));
    msgs.push(summary());
    let mut a = app(msgs);
    a.on_event(4, ctrl('f'));
    assert_eq!(a.curr_pos(), 4);
    a.on_event(4, ctrl('f'));
    assert_eq!(a.curr_pos(), 8);
    a.on_event(4, ctrl('f'));
    assert_eq!(a.curr_pos(), 10);
    a.on_event(3, ctrl('b'));
    assert_eq!(a.curr_pos(), 7);
    a.on_event(30, ctrl('b'));
    assert_eq!(a.curr_pos(), 0);
}

#[test]
fn typing_and_editing_the_replacement() {
    let mut a = app(vec![begin("a"), mat("a", "x", 0, 1), end("a"), summary()]);
    assert_eq!(a.on_event(10, key(KeyCode::Enter)), Outcome::Continue);
    assert!(matches!(&a.state, AppState::InputReplacement(s) if s.is_empty()));
    a.on_event(10, key(KeyCode::Char('q')));
    a.on_event(10, key(KeyCode::Char('\u{e9}')));
    a.on_event(10, key(KeyCode::Char('z')));
    a.on_event(10, key(KeyCode::Backspace));
    assert!(matches!(&a.state, AppState::InputReplacement(s) if s == "q\u{e9}"));
    assert!(!a.should_quit);
    a.on_event(10, key(KeyCode::Delete));
    a.on_event(10, key(KeyCode::Delete));
    a.on_event(10, key(KeyCode::Delete));
    assert!(matches!(&a.state, AppState::InputReplacement(s) if s.is_empty()));
    a.on_event(10, key(KeyCode::Char('N')));
    assert_eq!(a.on_event(10, key(KeyCode::Enter)), Outcome::Commit);
    let c = a.into_criteria(EncodingHint::Auto).unwrap();
    assert_eq!(c.text, "N");
    assert_eq!(c.items.len(), 3);
}

#[test]
fn cancel_drops_the_text_and_quit_raises_the_flag() {
    let mut a = app(vec![begin("a"), mat("a", "x", 0, 1), end("a"), summary()]);
    a.on_event(10, key(KeyCode::Enter));
    a.on_event(10, key(KeyCode::Char('x')));
    a.on_event(10, key(KeyCode::Esc));
    assert!(matches!(a.state, AppState::SelectMatches));
    assert!(!a.should_quit);
    assert_eq!(a.on_event(10, key(KeyCode::Char('q'))), Outcome::Quit);
    assert!(a.should_quit);
    assert_eq!(flags(&a, 1), vec![true]);
    assert!(a.into_criteria(EncodingHint::Auto).is_none());
}

#[test]
fn item_kinds_and_selectability() {
    let kinds: Vec<(Message, ItemKind, bool)> = vec![
        (begin("a"), ItemKind::Begin, true),
        (mat("a", "x", 3, 1), ItemKind::Match, true),
        (ctx("a"), ItemKind::Context, false),
        (end("a"), ItemKind::End, false),
        (summary(), ItemKind::Summary, false),
    ];
    for (m, k, s) in kinds {
        let it = Item::new(m);
        assert_eq!(it.kind(), k);
        assert_eq!(it.is_selectable(), s);
    }
    let it = Item::new(mat("a", "x", 3, 2));
    assert_eq!(it.offset(), Some(3));
    assert_eq!(it.line_number(), Some(1));
    assert_eq!(it.sub_matches().len(), 2);
    assert_eq!(it.selected_count(), 2);
    assert!(it.is_all_selected());
}

#[test]
fn stream_without_summary_is_rejected() {
    let r = read_messages(vec![Some(begin("a")), Some(mat("a", "x", 0, 1)), Some(end("a"))]);
    assert_eq!(r.err(), Some(StreamError::MissingSummary));
}

#[test]
fn summary_must_be_the_single_last_record() {
    let r = read_messages(vec![Some(mat("a", "x", 0, 1)), Some(summary()), Some(summary())]);
    assert_eq!(r.err(), Some(StreamError::MissingSummary));
    let r = read_messages(vec![Some(mat("a", "x", 0, 1)), Some(summary()), Some(end("a"))]);
    assert_eq!(r.err(), Some(StreamError::MissingSummary));
    let r = read_messages(vec![Some(summary()), Some(mat("a", "x", 0, 1)), Some(summary())]);
    assert_eq!(r.err(), Some(StreamError::MissingSummary));
}

#[test]
fn stream_without_matches_is_rejected() {
    let r = read_messages(vec![Some(begin("a")), Some(ctx("a")), Some(end("a")), Some(summary())]);
    assert_eq!(r.err(), Some(StreamError::NoMatches));
}

#[test]
fn malformed_record_names_its_line() {
    let r = read_messages(vec![Some(begin("a")), None, Some(end("a")), None]);
    assert_eq!(r.err(), Some(StreamError::Parse { line: 1 }));
    let r = read_messages(vec![None]);
    assert_eq!(r.err(), Some(StreamError::Parse { line: 0 }));
}

#[test]
fn good_stream_is_kept_in_order() {
    let r = read_messages(vec![Some(begin("a")), Some(mat("a", "x", 7, 1)), Some(end("a")), Some(summary())]).unwrap();
    assert_eq!(r.len(), 4);
    assert!(matches!(r[0], Message::Begin { .. }));
    assert!(matches!(r[1], Message::Match { absolute_offset: 7, .. }));
    assert!(matches!(r[3], Message::Summary { .. }));
}

#[test]
fn display_text_of_each_kind() {
    assert_eq!(Item::new(begin("src/a.rs")).display_text(), b"file: src/a.rs".to_vec());
    assert_eq!(Item::new(mat("a", "let x = 1;", 0, 1)).display_text(), b"1:let x = 1;".to_vec());
    let m = Message::Match {
        path: b"a".to_vec(),
        lines: b"foo".to_vec(),
        line_number: Some(1204),
        absolute_offset: 0,
        submatches: vec![],
    };
    assert_eq!(Item::new(m).display_text(), b"1204:foo".to_vec());
    assert_eq!(Item::new(ctx("a")).display_text(), b"ctx".to_vec());
    assert_eq!(Item::new(end("a")).display_text(), Vec::<u8>::new());
}
