//! The review state machine: a cursor over the items, the toggles, and the
//! editing of the replacement text. One key event is handled per call.

use crate::item::{Item, ItemKind};
use crate::message::{Message, Stats};
use crate::replace::{all_wf, ReplacementCriteria};
use crate::encoding::EncodingHint;
use vstd::prelude::*;

verus! {

/// A move of the cursor.
#[derive(Clone, Copy, Debug, PartialEq, Eq, Structural)]
pub enum Movement {
    Prev,
    Next,
    PrevFile,
    NextFile,
    Forward(u16),
    Backward(u16),
}

/// Reviewing the matches, or typing the replacement text.
pub enum AppState {
    SelectMatches,
    InputReplacement(String),
}

/// The keys that the review reacts to.
#[derive(Clone, Copy, Debug, PartialEq, Eq, Structural)]
pub enum KeyCode {
    Up,
    Down,
    Char(char),
    Enter,
    Esc,
    Backspace,
    Delete,
    Other,
}

/// A key press, with whether Control was held.
#[derive(Clone, Copy, Debug, PartialEq, Eq, Structural)]
pub struct KeyEvent {
    pub code: KeyCode,
    pub ctrl: bool,
}

/// What the host loop does after an event.
#[derive(Clone, Copy, Debug, PartialEq, Eq, Structural)]
pub enum Outcome {
    Continue,
    Quit,
    Commit,
}

/// The review of one search's results.
pub struct App {
    pub should_quit: bool,
    pub rg_cmdline: String,
    pub stats: Stats,
    pub list: Vec<Item>,
    pub cursor: usize,
    pub state: AppState,
}

/// Relies on std's `String::push`: appends the character.
#[verifier::external_body]
fn push_char(s: &mut String, c: char)
    ensures
        final(s)@ == old(s)@.push(c),
{
    s.push(c);
}

/// Relies on std's `String::pop`: removes and returns the last character,
/// `None` on an empty string.
#[verifier::external_body]
fn pop_char(s: &mut String) -> (r: Option<char>)
    ensures
        old(s)@.len() == 0 ==> r is None && final(s)@ == old(s)@,
        old(s)@.len() > 0 ==> r == Some(old(s)@.last()) && final(s)@ == old(s)@.drop_last(),
{
    s.pop()
}

/// The item at `i` is one that the given move may stop on: a file header
/// for the file moves, any selectable item for the others.
pub open spec fn stop(list: Seq<Item>, i: int, files_only: bool) -> bool {
    if files_only {
        list[i].kind == ItemKind::Begin
    } else {
        list[i].spec_is_selectable()
    }
}

/// `i` is the first stop in `lo..hi`.
pub open spec fn first_stop(list: Seq<Item>, lo: int, hi: int, files_only: bool, i: int) -> bool {
    &&& lo <= i < hi
    &&& stop(list, i, files_only)
    &&& forall|k: int| lo <= k < i ==> !stop(list, k, files_only)
}

/// `i` is the last stop in `lo..hi`.
pub open spec fn last_stop(list: Seq<Item>, lo: int, hi: int, files_only: bool, i: int) -> bool {
    &&& lo <= i < hi
    &&& stop(list, i, files_only)
    &&& forall|k: int| i < k < hi ==> !stop(list, k, files_only)
}

pub open spec fn any_stop(list: Seq<Item>, lo: int, hi: int, files_only: bool) -> bool {
    exists|k: int| lo <= k < hi && stop(list, k, files_only)
}

pub open spec fn files_only(m: Movement) -> bool {
    m == Movement::PrevFile || m == Movement::NextFile
}

/// Where a move from `cur` ends. Forward moves take the nearest stop at or
/// after their target (one past the cursor for single steps); where there
/// is none they clamp to the last selectable item of the list. Backward
/// moves mirror this and clamp to the first selectable item. A list without
/// a selectable item leaves the cursor where it is. No move wraps.
pub open spec fn moved_to(list: Seq<Item>, cur: int, m: Movement, new: int) -> bool {
    let n = list.len() as int;
    let f = files_only(m);
    match m {
        Movement::Next | Movement::NextFile | Movement::Forward(_) => {
            let target = match m {
                Movement::Forward(k) => if k >= 1 { cur + k } else { cur + 1 },
                _ => cur + 1,
            };
            if any_stop(list, target, n, f) {
                first_stop(list, target, n, f, new)
            } else if any_stop(list, 0, n, false) {
                last_stop(list, 0, n, false, new)
            } else {
                new == cur
            }
        },
        Movement::Prev | Movement::PrevFile | Movement::Backward(_) => {
            let target = match m {
                Movement::Backward(k) => if k >= 1 { cur - k } else { cur - 1 },
                _ => cur - 1,
            };
            if any_stop(list, 0, target + 1, f) {
                last_stop(list, 0, target + 1, f, new)
            } else if any_stop(list, 0, n, false) {
                first_stop(list, 0, n, false, new)
            } else {
                new == cur
            }
        },
    }
}

/// The index of the first end marker after `c`, or the list's length.
pub open spec fn group_end(list: Seq<Item>, c: int, e: int) -> bool {
    &&& c < e <= list.len()
    &&& (e < list.len() ==> list[e].kind == ItemKind::End)
    &&& forall|k: int| c < k < e ==> list[k].kind != ItemKind::End
}

/// Every match between `c` and `e` is fully selected.
pub open spec fn group_selected(list: Seq<Item>, c: int, e: int) -> bool {
    forall|k: int| c < k < e && list[k].kind == ItemKind::Match ==> #[trigger] list[k].all_selected()
}

pub open spec fn same_item(a: Item, b: Item) -> bool {
    a.message == b.message && a.kind == b.kind && a.should_replace@ == b.should_replace@
}

pub open spec fn all_flags(it: Item, v: bool) -> bool {
    &&& forall|j: int| 0 <= j < it.should_replace@.len() ==> #[trigger] it.should_replace@[j] == v
}

pub open spec fn same_shape(a: Item, b: Item) -> bool {
    a.message == b.message && a.kind == b.kind && a.should_replace@.len() == b.should_replace@.len()
}

/// The list after a toggle at `c`. On a match, its submatches are all
/// deselected where all were selected, else all selected. On a file header,
/// the same holds of every match up to the file's end marker, taken as one
/// group. Every other item stays as it was.
pub open spec fn toggled(old: Seq<Item>, c: int, new: Seq<Item>) -> bool {
    &&& new.len() == old.len()
    &&& forall|k: int| 0 <= k < old.len() ==> same_shape(#[trigger] new[k], old[k])
    &&& if old[c].kind == ItemKind::Match {
        &&& all_flags(new[c], !old[c].all_selected())
        &&& forall|k: int| 0 <= k < old.len() && k != c ==> same_item(#[trigger] new[k], old[k])
    } else if old[c].kind == ItemKind::Begin {
        exists|e: int|
            group_end(old, c, e) && forall|k: int|
                0 <= k < old.len() ==> if c < k < e && old[k].kind == ItemKind::Match {
                    all_flags(#[trigger] new[k], !group_selected(old, c, e))
                } else {
                    same_item(new[k], old[k])
                }
    } else {
        forall|k: int| 0 <= k < old.len() ==> same_item(#[trigger] new[k], old[k])
    }
}

/// A move that leaves everything but the cursor as it was.
pub open spec fn moved(old: App, new: App, m: Movement) -> bool {
    &&& new.list == old.list
    &&& new.state == old.state
    &&& new.should_quit == old.should_quit
    &&& (old.list@.len() > 0 ==> moved_to(old.list@, old.cursor as int, m, new.cursor as int))
    &&& (old.list@.len() == 0 ==> new.cursor == old.cursor)
}

pub open spec fn unchanged(old: App, new: App) -> bool {
    &&& new.list == old.list
    &&& new.state == old.state
    &&& new.should_quit == old.should_quit
    &&& new.cursor == old.cursor
}

/// One event while reviewing. Control-b and Control-f page by the list's
/// height; Up or k, Down or j step; K and J move between files; space
/// toggles; Esc or q asks to quit; Enter starts the replacement text.
pub open spec fn select_step(old: App, h: u16, key: KeyEvent, new: App, r: Outcome) -> bool {
    if key.ctrl {
        r == Outcome::Continue && match key.code {
            KeyCode::Char('b') => moved(old, new, Movement::Backward(h)),
            KeyCode::Char('f') => moved(old, new, Movement::Forward(h)),
            _ => unchanged(old, new),
        }
    } else {
        match key.code {
            KeyCode::Up | KeyCode::Char('k') => r == Outcome::Continue && moved(
                old,
                new,
                Movement::Prev,
            ),
            KeyCode::Down | KeyCode::Char('j') => r == Outcome::Continue && moved(
                old,
                new,
                Movement::Next,
            ),
            KeyCode::Char('K') => r == Outcome::Continue && moved(old, new, Movement::PrevFile),
            KeyCode::Char('J') => r == Outcome::Continue && moved(old, new, Movement::NextFile),
            KeyCode::Char(' ') => {
                &&& r == Outcome::Continue
                &&& new.state == old.state
                &&& new.should_quit == old.should_quit
                &&& new.cursor == old.cursor
                &&& old.list@.len() > 0 ==> toggled(old.list@, old.cursor as int, new.list@)
                &&& old.list@.len() == 0 ==> new.list == old.list
            },
            KeyCode::Esc | KeyCode::Char('q') => {
                &&& r == (if old.should_quit { Outcome::Continue } else { Outcome::Quit })
                &&& new.should_quit
                &&& new.list == old.list
                &&& new.cursor == old.cursor
                &&& new.state == old.state
            },
            KeyCode::Enter => {
                &&& r == Outcome::Continue
                &&& new.list == old.list
                &&& new.cursor == old.cursor
                &&& new.should_quit == old.should_quit
                &&& new.state is InputReplacement
                &&& new.state->InputReplacement_0@.len() == 0
            },
            _ => r == Outcome::Continue && unchanged(old, new),
        }
    }
}

/// One event while typing the replacement text: a character is appended,
/// Backspace or Delete removes the last one, Esc returns to the review and
/// drops the text, Enter commits.
pub open spec fn input_step(old: App, key: KeyEvent, new: App, r: Outcome) -> bool {
    let buf = old.state->InputReplacement_0@;
    &&& new.list == old.list
    &&& new.cursor == old.cursor
    &&& new.should_quit == old.should_quit
    &&& match key.code {
        KeyCode::Char(c) => r == Outcome::Continue && new.state is InputReplacement
            && new.state->InputReplacement_0@ == buf.push(c),
        KeyCode::Backspace | KeyCode::Delete => r == Outcome::Continue && new.state
            is InputReplacement && new.state->InputReplacement_0@ == (if buf.len() == 0 {
            buf
        } else {
            buf.drop_last()
        }),
        KeyCode::Esc => r == Outcome::Continue && new.state is SelectMatches,
        KeyCode::Enter => r == Outcome::Commit && new.state == old.state,
        _ => r == Outcome::Continue && new.state == old.state,
    }
}

/// `s` is the position of the first summary record.
pub open spec fn first_summary(messages: Seq<Message>, s: int) -> bool {
    &&& 0 <= s < messages.len()
    &&& messages[s] is Summary
    &&& forall|k: int| 0 <= k < s ==> !(messages[k] is Summary)
}

impl App {
    /// Starts a review of a checked stream: one item per record before the
    /// first summary, every submatch selected, the cursor on the first item.
    pub fn new(rg_cmdline: String, messages: Vec<Message>) -> (r: App)
        requires
            exists|k: int| 0 <= k < messages@.len() && (#[trigger] messages@[k]) is Summary,
        ensures
            r.wf(),
            exists|s: int|
                first_summary(messages@, s) && r.list@.len() == s && r.stats
                    == messages@[s]->Summary_stats && forall|k: int|
                    0 <= k < s ==> (#[trigger] r.list@[k]).message == messages@[k] && all_flags(
                        r.list@[k],
                        true,
                    ),
            r.cursor == 0,
            r.state is SelectMatches,
            !r.should_quit,
            r.rg_cmdline@ == rg_cmdline@,
    {
        let ghost all = messages@;
        let mut rest = messages;
        let mut reversed: Vec<Message> = Vec::new();
        while rest.len() > 0
            invariant
                rest@ == all.subrange(0, rest@.len() as int),
                rest@.len() + reversed@.len() == all.len(),
                forall|j: int|
                    0 <= j < reversed@.len() ==> #[trigger] reversed@[j] == all[all.len() - 1 - j],
            decreases rest@.len(),
        {
            let last = rest.pop().unwrap();
            proof {
                assert(all[rest@.len() as int] == last);
            }
            reversed.push(last);
        }
        let mut list: Vec<Item> = Vec::new();
        loop
            invariant
                all == messages@,
                reversed@.len() + list@.len() == all.len(),
                forall|j: int|
                    0 <= j < reversed@.len() ==> #[trigger] reversed@[j] == all[all.len() - 1 - j],
                forall|k: int|
                    0 <= k < list@.len() ==> (#[trigger] list@[k]).message == all[k] && list@[k].wf()
                        && all_flags(list@[k], true) && !(all[k] is Summary),
                exists|k: int| 0 <= k < all.len() && (#[trigger] all[k]) is Summary,
            decreases reversed@.len(),
        {
            proof {
                let k = choose|k: int| 0 <= k < all.len() && (#[trigger] all[k]) is Summary;
                if k < list@.len() {
                    assert(list@[k].message == all[k]);
                }
            }
            let m = reversed.pop().unwrap();
            proof {
                assert(m == all[list@.len() as int]);
            }
            let ghost gm = m;
            match m {
                Message::Summary { stats, .. } => {
                    let ghost s = list@.len() as int;
                    proof {
                        assert forall|k: int| 0 <= k < s implies !(all[k] is Summary) by {
                            assert(list@[k].message == all[k]);
                        }
                        assert(gm == all[s]);
                        assert(first_summary(all, s));
                        assert(all[s]->Summary_stats == stats);
                        assert(list@.len() == s);
                        assert(forall|k: int|
                            0 <= k < s ==> (#[trigger] list@[k]).message == all[k] && all_flags(
                                list@[k],
                                true,
                            ));
                    }
                    let app = App {
                        should_quit: false,
                        rg_cmdline,
                        stats,
                        list,
                        cursor: 0,
                        state: AppState::SelectMatches,
                    };
                    proof {
                        assert(first_summary(messages@, s) && app.list@.len() == s && app.stats
                            == messages@[s]->Summary_stats && forall|k: int|
                            0 <= k < s ==> (#[trigger] app.list@[k]).message == messages@[k]
                                && all_flags(app.list@[k], true));
                    }
                    return app;
                },
                other => {
                    let it = Item::new(other);
                    list.push(it);
                },
            }
        }
    }

    /// Hands the review over for replacement: the typed text and the items.
    /// `None` while no replacement text is being entered.
    pub fn into_criteria(self, encoding: EncodingHint) -> (r: Option<ReplacementCriteria>)
        ensures
            self.state is SelectMatches ==> r is None,
            self.state matches AppState::InputReplacement(buf) ==> r matches Some(c) && c.text@
                == buf@ && c.items == self.list && c.encoding == encoding,
    {
        match self.state {
            AppState::SelectMatches => None,
            AppState::InputReplacement(buf) => Some(
                ReplacementCriteria { text: buf, items: self.list, encoding },
            ),
        }
    }

    pub open spec fn wf(&self) -> bool {
        &&& all_wf(self.list@)
        &&& (self.list@.len() > 0 ==> self.cursor < self.list@.len())
        &&& (self.list@.len() == 0 ==> self.cursor == 0)
    }

    /// The item under the cursor.
    pub fn curr_pos(&self) -> (r: usize)
        ensures
            r == self.cursor,
    {
        self.cursor
    }

    /// The first stop in `lo..hi`, if any.
    fn find_first(&self, lo: usize, hi: usize, files_only: bool) -> (r: Option<usize>)
        requires
            hi <= self.list@.len(),
        ensures
            r matches Some(i) ==> first_stop(self.list@, lo as int, hi as int, files_only, i as int),
            r is None ==> !any_stop(self.list@, lo as int, hi as int, files_only),
    {
        let mut i = lo;
        while i < hi
            invariant
                lo <= i,
                hi <= self.list@.len(),
                forall|k: int| lo <= k < i ==> !stop(self.list@, k, files_only),
            decreases hi - i,
        {
            let hit = if files_only {
                self.list[i].kind == ItemKind::Begin
            } else {
                self.list[i].is_selectable()
            };
            if hit {
                return Some(i);
            }
            i = i + 1;
        }
        None
    }

    /// The last stop in `lo..hi`, if any.
    fn find_last(&self, lo: usize, hi: usize, files_only: bool) -> (r: Option<usize>)
        requires
            hi <= self.list@.len(),
        ensures
            r matches Some(i) ==> last_stop(self.list@, lo as int, hi as int, files_only, i as int),
            r is None ==> !any_stop(self.list@, lo as int, hi as int, files_only),
    {
        let mut i = hi;
        while i > lo
            invariant
                i <= hi <= self.list@.len(),
                forall|k: int| i <= k < hi ==> !stop(self.list@, k, files_only),
            decreases i,
        {
            let hit = if files_only {
                self.list[i - 1].kind == ItemKind::Begin
            } else {
                self.list[i - 1].is_selectable()
            };
            if hit {
                return Some(i - 1);
            }
            i = i - 1;
        }
        None
    }

    /// Moves the cursor; see `moved_to`.
    pub fn move_pos(&mut self, direction: Movement)
        requires
            old(self).wf(),
        ensures
            final(self).wf(),
            final(self).list == old(self).list,
            final(self).state == old(self).state,
            final(self).should_quit == old(self).should_quit,
            final(self).stats == old(self).stats,
            old(self).list@.len() > 0 ==> moved_to(
                old(self).list@,
                old(self).cursor as int,
                direction,
                final(self).cursor as int,
            ),
            old(self).list@.len() == 0 ==> final(self).cursor == old(self).cursor,
    {
        let n = self.list.len();
        if n == 0 {
            return;
        }
        let cur = self.cursor;
        let f = direction == Movement::PrevFile || direction == Movement::NextFile;
        let found = match direction {
            Movement::Next | Movement::NextFile | Movement::Forward(_) => {
                let step: usize = match direction {
                    Movement::Forward(k) => if k >= 1 { k as usize } else { 1 },
                    _ => 1,
                };
                let first = if step <= n - cur {
                    self.find_first(cur + step, n, f)
                } else {
                    None
                };
                match first {
                    Some(i) => Some(i),
                    None => self.find_last(0, n, false),
                }
            },
            Movement::Prev | Movement::PrevFile | Movement::Backward(_) => {
                let step: usize = match direction {
                    Movement::Backward(k) => if k >= 1 { k as usize } else { 1 },
                    _ => 1,
                };
                let last = if step <= cur {
                    self.find_last(0, cur - step + 1, f)
                } else {
                    None
                };
                match last {
                    Some(i) => Some(i),
                    None => self.find_first(0, n, false),
                }
            },
        };
        match found {
            Some(i) => {
                self.cursor = i;
            },
            None => {},
        }
    }

    /// Sets every flag of the item at `i`.
    fn set_item_flags(&mut self, i: usize, value: bool)
        requires
            i < old(self).list@.len(),
        ensures
            final(self).list@.len() == old(self).list@.len(),
            same_shape(final(self).list@[i as int], old(self).list@[i as int]),
            all_flags(final(self).list@[i as int], value),
            forall|k: int|
                0 <= k < old(self).list@.len() && k != i ==> #[trigger] final(self).list@[k]
                    == old(self).list@[k],
            final(self).cursor == old(self).cursor,
            final(self).state == old(self).state,
            final(self).should_quit == old(self).should_quit,
            final(self).stats == old(self).stats,
    {
        let mut it = self.list.remove(i);
        it.set_all(value);
        self.list.insert(i, it);
    }

    /// Toggles the item under the cursor; see `toggled`.
    pub fn toggle_item(&mut self)
        requires
            old(self).wf(),
            old(self).list@.len() > 0,
        ensures
            final(self).wf(),
            final(self).cursor == old(self).cursor,
            final(self).state == old(self).state,
            final(self).should_quit == old(self).should_quit,
            final(self).stats == old(self).stats,
            toggled(old(self).list@, old(self).cursor as int, final(self).list@),
    {
        let c = self.cursor;
        let n = self.list.len();
        let ghost before = self.list@;
        if self.list[c].kind == ItemKind::Match {
            let all = self.list[c].is_all_selected();
            self.set_item_flags(c, !all);
            proof {
                assert forall|k: int| 0 <= k < before.len() implies same_shape(
                    #[trigger] self.list@[k],
                    before[k],
                ) by {}
                assert forall|k: int| 0 <= k < before.len() implies (#[trigger] self.list@[k]).wf() by {
                    assert(before[k].wf());
                }
            }
        } else if self.list[c].kind == ItemKind::Begin {
            // Find the group's end, and whether all of its matches are
            // selected.
            let mut e = c + 1;
            let mut all = true;
            while e < n && self.list[e].kind != ItemKind::End
                invariant
                    n == self.list@.len(),
                    self.list@ == before,
                    c < e <= n,
                    forall|k: int| c < k < e ==> self.list@[k].kind != ItemKind::End,
                    all == group_selected(before, c as int, e as int),
                decreases n - e,
            {
                if self.list[e].kind == ItemKind::Match && !self.list[e].is_all_selected() {
                    all = false;
                }
                e = e + 1;
            }
            proof {
                assert(group_end(before, c as int, e as int));
            }
            let mut k = c + 1;
            while k < e
                invariant
                    n == self.list@.len() == before.len(),
                    c < k <= e <= n,
                    group_end(before, c as int, e as int),
                    all == group_selected(before, c as int, e as int),
                    self.cursor == c,
                    self.state == old(self).state,
                    self.should_quit == old(self).should_quit,
                    self.stats == old(self).stats,
                    self.wf(),
                    forall|q: int|
                        0 <= q < n ==> if c < q < k && before[q].kind == ItemKind::Match {
                            same_shape(#[trigger] self.list@[q], before[q]) && all_flags(
                                self.list@[q],
                                !all,
                            )
                        } else {
                            self.list@[q] == before[q]
                        },
                decreases e - k,
            {
                if self.list[k].kind == ItemKind::Match {
                    let ghost mid = self.list@;
                    self.set_item_flags(k, !all);
                    proof {

                        assert(self.list@[k as int].wf()) by {
                            assert(mid[k as int] == before[k as int]);
                        }
                    }
                }
                k = k + 1;
            }
            proof {
                assert forall|q: int| 0 <= q < n implies same_shape(#[trigger] self.list@[q], before[q]) by {}
            }
        }
    }

    /// Handles one key event.
    pub fn on_event(&mut self, list_height: u16, key: KeyEvent) -> (r: Outcome)
        requires
            old(self).wf(),
        ensures
            final(self).wf(),
            final(self).stats == old(self).stats,
            old(self).state is SelectMatches ==> select_step(*old(self), list_height, key, *final(self), r),
            old(self).state is InputReplacement ==> input_step(*old(self), key, *final(self), r),
    {
        let mut outcome = Outcome::Continue;
        match self.state {
            AppState::SelectMatches => {
                if key.ctrl {
                    match key.code {
                        KeyCode::Char('b') => self.move_pos(Movement::Backward(list_height)),
                        KeyCode::Char('f') => self.move_pos(Movement::Forward(list_height)),
                        _ => {},
                    }
                } else {
                    match key.code {
                        KeyCode::Up | KeyCode::Char('k') => self.move_pos(Movement::Prev),
                        KeyCode::Down | KeyCode::Char('j') => self.move_pos(Movement::Next),
                        KeyCode::Char('K') => self.move_pos(Movement::PrevFile),
                        KeyCode::Char('J') => self.move_pos(Movement::NextFile),
                        KeyCode::Char(' ') => {
                            if self.list.len() > 0 {
                                self.toggle_item();
                            }
                        },
                        KeyCode::Esc | KeyCode::Char('q') => {
                            if !self.should_quit {
                                outcome = Outcome::Quit;
                            }
                            self.should_quit = true;
                        },
                        KeyCode::Enter => {
                            self.state = AppState::InputReplacement(String::new());
                        },
                        _ => {},
                    }
                }
            },
            AppState::InputReplacement(ref mut input) => {
                match key.code {
                    KeyCode::Char(c) => {
                        push_char(input, c);
                    },
                    KeyCode::Backspace | KeyCode::Delete => {
                        let _ = pop_char(input);
                    },
                    KeyCode::Esc => {
                        self.state = AppState::SelectMatches;
                    },
                    KeyCode::Enter => {
                        outcome = Outcome::Commit;
                    },
                    _ => {},
                }
            },
        }
        outcome
    }
}

proof fn lemma_group_end_unique(list: Seq<Item>, c: int, e1: int, e2: int)
    requires
        group_end(list, c, e1),
        group_end(list, c, e2),
    ensures
        e1 == e2,
{
    if e1 < e2 {
        assert(list[e1].kind == ItemKind::End);
    } else if e2 < e1 {
        assert(list[e2].kind == ItemKind::End);
    }
}

/// Toggling a file header whose matches are all selected deselects every
/// one of them.
pub proof fn lemma_group_toggle_deselects(old: Seq<Item>, c: int, e: int, new: Seq<Item>)
    requires
        0 <= c < old.len(),
        old[c].kind == ItemKind::Begin,
        group_end(old, c, e),
        group_selected(old, c, e),
        toggled(old, c, new),
    ensures
        forall|k: int| c < k < e && old[k].kind == ItemKind::Match ==> all_flags(#[trigger] new[k], false),
{
    let e2 = choose|e2: int|
        group_end(old, c, e2) && forall|k: int|
            0 <= k < old.len() ==> if c < k < e2 && old[k].kind == ItemKind::Match {
                all_flags(#[trigger] new[k], !group_selected(old, c, e2))
            } else {
                same_item(new[k], old[k])
            };
    lemma_group_end_unique(old, c, e, e2);
}

/// Toggling a file header whose matches are all deselected, one of them at
/// least with a submatch, selects every one of them.
pub proof fn lemma_group_toggle_selects(old: Seq<Item>, c: int, e: int, new: Seq<Item>)
    requires
        0 <= c < old.len(),
        old[c].kind == ItemKind::Begin,
        group_end(old, c, e),
        forall|k: int| c < k < e && old[k].kind == ItemKind::Match ==> all_flags(#[trigger] old[k], false),
        exists|k: int|
            c < k < e && (#[trigger] old[k]).kind == ItemKind::Match && old[k].should_replace@.len()
                > 0,
        toggled(old, c, new),
    ensures
        forall|k: int| c < k < e && old[k].kind == ItemKind::Match ==> all_flags(#[trigger] new[k], true),
{
    let e2 = choose|e2: int|
        group_end(old, c, e2) && forall|k: int|
            0 <= k < old.len() ==> if c < k < e2 && old[k].kind == ItemKind::Match {
                all_flags(#[trigger] new[k], !group_selected(old, c, e2))
            } else {
                same_item(new[k], old[k])
            };
    lemma_group_end_unique(old, c, e, e2);
    let w = choose|k: int|
        c < k < e && (#[trigger] old[k]).kind == ItemKind::Match && old[k].should_replace@.len() > 0;
    assert(all_flags(old[w], false));
    assert(!old[w].should_replace@[0]);
    assert(!old[w].all_selected());
    assert(!group_selected(old, c, e));
}

/// A step back from the first selectable item stays on it: the cursor
/// neither goes below zero nor wraps to the end.
pub proof fn lemma_prev_clamps(list: Seq<Item>, cur: int, new: int)
    requires
        0 <= cur < list.len(),
        list[cur].spec_is_selectable(),
        forall|k: int| 0 <= k < cur ==> !(#[trigger] list[k]).spec_is_selectable(),
        moved_to(list, cur, Movement::Prev, new),
    ensures
        new == cur,
{
    assert(stop(list, cur, false));
    assert(!any_stop(list, 0, cur, false));
    assert(any_stop(list, 0, list.len() as int, false));
    if new < cur {
        assert(!list[new].spec_is_selectable());
    }
}

/// Likewise, a step forward from the last selectable item stays on it.
pub proof fn lemma_next_clamps(list: Seq<Item>, cur: int, new: int)
    requires
        0 <= cur < list.len(),
        list[cur].spec_is_selectable(),
        forall|k: int| cur < k < list.len() ==> !(#[trigger] list[k]).spec_is_selectable(),
        moved_to(list, cur, Movement::Next, new),
    ensures
        new == cur,
{
    assert(stop(list, cur, false));
    assert(!any_stop(list, cur + 1, list.len() as int, false));
    assert(any_stop(list, 0, list.len() as int, false));
    if new > cur {
        assert(!list[new].spec_is_selectable());
    }
}

} // verus!
