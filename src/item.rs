//! One reviewable entry per record, with its selection state.

use crate::message::{Message, SubMatch};
use vstd::prelude::*;

verus! {

/// The kind of record an item wraps.
#[derive(Clone, Copy, Debug, PartialEq, Eq, Structural)]
pub enum ItemKind {
    Begin,
    Match,
    Context,
    End,
    Summary,
}

pub open spec fn kind_of(m: Message) -> ItemKind {
    match m {
        Message::Begin { .. } => ItemKind::Begin,
        Message::Match { .. } => ItemKind::Match,
        Message::Context { .. } => ItemKind::Context,
        Message::End { .. } => ItemKind::End,
        Message::Summary { .. } => ItemKind::Summary,
    }
}

/// The number of submatches of a match record; zero for the other kinds.
pub open spec fn submatch_count(m: Message) -> nat {
    match m {
        Message::Match { submatches, .. } => submatches@.len(),
        _ => 0,
    }
}

/// The decimal digits of `n`, as ASCII bytes.
pub open spec fn decimal(n: nat) -> Seq<u8>
    decreases n,
{
    if n < 10 {
        seq![(48 + n) as u8]
    } else {
        decimal(n / 10).push((48 + n % 10) as u8)
    }
}

/// A line's text, after its number and a colon where the number is known.
pub open spec fn numbered(lines: Seq<u8>, line_number: Option<u64>) -> Seq<u8> {
    match line_number {
        Some(n) => decimal(n as nat) + seq![58u8] + lines,
        None => lines,
    }
}

/// What is shown for a record: `file: ` and the path for a file header,
/// the numbered line for a match or a context line, nothing for an end
/// marker. A summary is never shown: it never stands in the list.
pub open spec fn display_of(m: Message) -> Seq<u8> {
    match m {
        Message::Begin { path } => seq![102u8, 105u8, 108u8, 101u8, 58u8, 32u8] + path@,
        Message::Match { lines, line_number, .. } => numbered(lines@, line_number),
        Message::Context { lines, line_number, .. } => numbered(lines@, line_number),
        Message::End { .. } => Seq::empty(),
        Message::Summary { .. } => Seq::empty(),
    }
}

fn decimal_bytes(n: u64) -> (r: Vec<u8>)
    ensures
        r@ == decimal(n as nat),
    decreases n,
{
    if n < 10 {
        vec![(48 + n) as u8]
    } else {
        let mut v = decimal_bytes(n / 10);
        v.push((48 + n % 10) as u8);
        v
    }
}

fn append(out: &mut Vec<u8>, b: &[u8])
    ensures
        final(out)@ == old(out)@ + b@,
{
    let ghost start = out@;
    let mut i: usize = 0;
    while i < b.len()
        invariant
            0 <= i <= b@.len(),
            out@ == start + b@.subrange(0, i as int),
        decreases b@.len() - i,
    {
        out.push(b[i]);
        i = i + 1;
        proof {
            assert(out@ =~= start + b@.subrange(0, i as int));
        }
    }
    proof {
        assert(b@.subrange(0, b@.len() as int) =~= b@);
    }
}

fn numbered_bytes(lines: &Vec<u8>, line_number: Option<u64>) -> (r: Vec<u8>)
    ensures
        r@ == numbered(lines@, line_number),
{
    let mut out: Vec<u8> = match line_number {
        Some(n) => {
            let mut d = decimal_bytes(n);
            d.push(58u8);
            d
        },
        None => Vec::new(),
    };
    append(&mut out, lines.as_slice());
    proof {
        if line_number is None {
            assert(out@ =~= lines@);
        }
    }
    out
}

/// A record under review. A match item holds one replace flag per
/// submatch; the other kinds hold none.
pub struct Item {
    pub message: Message,
    pub kind: ItemKind,
    pub should_replace: Vec<bool>,
}

impl Item {
    /// The item's kind agrees with its record and it has one flag per
    /// submatch.
    pub open spec fn wf(&self) -> bool {
        &&& self.kind == kind_of(self.message)
        &&& self.should_replace@.len() == submatch_count(self.message)
    }

    /// Every submatch of the item is selected (vacuously so for an item
    /// without submatches).
    pub open spec fn all_selected(&self) -> bool {
        forall|j: int| 0 <= j < self.should_replace@.len() ==> #[trigger] self.should_replace@[j]
    }

    pub open spec fn spec_is_selectable(&self) -> bool {
        self.kind == ItemKind::Begin || self.kind == ItemKind::Match
    }

    /// Wraps a record; every submatch of a match starts selected.
    pub fn new(message: Message) -> (r: Item)
        ensures
            r.wf(),
            r.message == message,
            forall|j: int| 0 <= j < r.should_replace@.len() ==> #[trigger] r.should_replace@[j],
    {
        let (kind, n) = match &message {
            Message::Begin { .. } => (ItemKind::Begin, 0),
            Message::Match { submatches, .. } => (ItemKind::Match, submatches.len()),
            Message::Context { .. } => (ItemKind::Context, 0),
            Message::End { .. } => (ItemKind::End, 0),
            Message::Summary { .. } => (ItemKind::Summary, 0),
        };
        let mut flags: Vec<bool> = Vec::new();
        let mut i: usize = 0;
        while i < n
            invariant
                0 <= i <= n,
                flags@.len() == i,
                forall|j: int| 0 <= j < i ==> #[trigger] flags@[j],
            decreases n - i,
        {
            flags.push(true);
            i = i + 1;
        }
        Item { message, kind, should_replace: flags }
    }

    /// Only file headers and matches can be selected.
    pub fn is_selectable(&self) -> (r: bool)
        ensures
            r == self.spec_is_selectable(),
    {
        self.kind == ItemKind::Begin || self.kind == ItemKind::Match
    }

    pub fn kind(&self) -> (r: ItemKind)
        ensures
            r == self.kind,
    {
        self.kind
    }

    /// The number of submatches: of a match item, zero for the others.
    pub fn match_count(&self) -> (r: usize)
        requires
            self.wf(),
        ensures
            r == submatch_count(self.message),
    {
        self.should_replace.len()
    }

    /// The number of submatches that are selected.
    pub fn selected_count(&self) -> (r: usize)
        ensures
            r == self.should_replace@.filter(|f: bool| f).len(),
    {
        let mut n: usize = 0;
        let mut i: usize = 0;
        while i < self.should_replace.len()
            invariant
                0 <= i <= self.should_replace@.len(),
                n == self.should_replace@.subrange(0, i as int).filter(|f: bool| f).len(),
                n <= i,
            decreases self.should_replace@.len() - i,
        {
            proof {
                let s = self.should_replace@;
                reveal(Seq::filter);
                assert(s.subrange(0, i + 1).drop_last() =~= s.subrange(0, i as int));
            }
            if self.should_replace[i] {
                n = n + 1;
            }
            i = i + 1;
        }
        proof {
            assert(self.should_replace@.subrange(0, i as int) =~= self.should_replace@);
        }
        n
    }

    /// Whether every submatch is selected.
    pub fn is_all_selected(&self) -> (r: bool)
        ensures
            r == self.all_selected(),
    {
        let mut i: usize = 0;
        while i < self.should_replace.len()
            invariant
                0 <= i <= self.should_replace@.len(),
                forall|j: int| 0 <= j < i ==> #[trigger] self.should_replace@[j],
            decreases self.should_replace@.len() - i,
        {
            if !self.should_replace[i] {
                return false;
            }
            i = i + 1;
        }
        true
    }

    /// The flag of one submatch.
    pub fn get_should_replace(&self, i: usize) -> (r: bool)
        requires
            i < self.should_replace@.len(),
        ensures
            r == self.should_replace@[i as int],
    {
        self.should_replace[i]
    }

    /// Sets the flag of one submatch.
    pub fn set_should_replace(&mut self, i: usize, value: bool)
        requires
            i < old(self).should_replace@.len(),
        ensures
            final(self).message == old(self).message,
            final(self).kind == old(self).kind,
            final(self).should_replace@ == old(self).should_replace@.update(i as int, value),
    {
        self.should_replace.set(i, value);
    }

    /// Flips the flag of one submatch.
    pub fn toggle_submatch(&mut self, i: usize)
        requires
            i < old(self).should_replace@.len(),
        ensures
            final(self).message == old(self).message,
            final(self).kind == old(self).kind,
            final(self).should_replace@ == old(self).should_replace@.update(
                i as int,
                !old(self).should_replace@[i as int],
            ),
    {
        let v = self.should_replace[i];
        self.should_replace.set(i, !v);
    }

    /// Sets every flag of the item to `value`.
    pub fn set_all(&mut self, value: bool)
        ensures
            final(self).message == old(self).message,
            final(self).kind == old(self).kind,
            final(self).should_replace@.len() == old(self).should_replace@.len(),
            forall|j: int|
                0 <= j < final(self).should_replace@.len()
                    ==> #[trigger] final(self).should_replace@[j] == value,
    {
        let n = self.should_replace.len();
        let mut i: usize = 0;
        while i < n
            invariant
                0 <= i <= n,
                n == self.should_replace@.len(),
                self.message == old(self).message,
                self.kind == old(self).kind,
                forall|j: int| 0 <= j < i ==> #[trigger] self.should_replace@[j] == value,
            decreases n - i,
        {
            self.should_replace.set(i, value);
            i = i + 1;
        }
    }

    /// Flips the item as a whole: deselects every submatch where all are
    /// selected, else selects them all.
    pub fn toggle_all(&mut self)
        ensures
            final(self).message == old(self).message,
            final(self).kind == old(self).kind,
            final(self).should_replace@.len() == old(self).should_replace@.len(),
            forall|j: int|
                0 <= j < final(self).should_replace@.len()
                    ==> #[trigger] final(self).should_replace@[j] == !old(self).all_selected(),
    {
        let all = self.is_all_selected();
        self.set_all(!all);
    }

    /// The absolute byte offset of a match's line in its file.
    pub fn offset(&self) -> (r: Option<usize>)
        ensures
            match self.message {
                Message::Match { absolute_offset, .. } => r == Some(absolute_offset),
                _ => r is None,
            },
    {
        match &self.message {
            Message::Match { absolute_offset, .. } => Some(*absolute_offset),
            _ => None,
        }
    }

    /// The line number of a match or context line, where it is known.
    pub fn line_number(&self) -> (r: Option<u64>)
        ensures
            match self.message {
                Message::Match { line_number, .. } => r == line_number,
                Message::Context { line_number, .. } => r == line_number,
                _ => r is None,
            },
    {
        match &self.message {
            Message::Match { line_number, .. } => *line_number,
            Message::Context { line_number, .. } => *line_number,
            _ => None,
        }
    }

    /// The text that shows the item in the list, as raw bytes.
    pub fn display_text(&self) -> (r: Vec<u8>)
        requires
            !(self.message is Summary),
        ensures
            r@ == display_of(self.message),
            self.message is End ==> r@.len() == 0,
    {
        match &self.message {
            Message::Begin { path } => {
                let mut out = vec![102u8, 105u8, 108u8, 101u8, 58u8, 32u8];
                append(&mut out, path.as_slice());
                out
            },
            Message::Match { lines, line_number, .. } => numbered_bytes(lines, *line_number),
            Message::Context { lines, line_number, .. } => numbered_bytes(lines, *line_number),
            _ => Vec::new(),
        }
    }

    /// The submatches of a match; empty for the other kinds.
    pub fn sub_matches(&self) -> (r: &[SubMatch])
        ensures
            match self.message {
                Message::Match { submatches, .. } => r@ == submatches@,
                _ => r@.len() == 0,
            },
    {
        match &self.message {
            Message::Match { submatches, .. } => submatches.as_slice(),
            _ => &[],
        }
    }
}

} // verus!
