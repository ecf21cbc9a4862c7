//! The replacement engine: applies the selected submatches to a file's
//! decoded text, last offset first, checking each against the bytes that
//! were recorded for it.

use crate::item::{submatch_count, Item};
use crate::message::Message;
use crate::encoding::{decode_contents, decodable, body_of, decoding_of, decodes_to, encode_contents, file_bytes_of, lemma_round_trip, EncodingHint};
use vstd::prelude::*;
use vstd::relations::*;
use vstd::seq_lib::*;
use vstd::string::*;
use vstd::utf8::*;

verus! {

broadcast use group_to_multiset_ensures;

/// One candidate replacement: an absolute byte range of the decoded text
/// and the bytes that the search recorded there.
pub struct Edit {
    pub start: usize,
    pub end: usize,
    pub expected: Vec<u8>,
    /// The number of the line the match was found on, where it is known.
    pub line_number: Option<u64>,
}

/// An edit as a value: start, end, recorded bytes and line number.
pub type EditView = (usize, usize, Seq<u8>, Option<u64>);

/// A replacement made: where, on which line, and the bytes it removed.
pub type RemovedView = (usize, Option<u64>, Seq<u8>);

/// A replacement made: where it starts, the line it was on where that is
/// known, and the bytes it removed.
pub struct Removal {
    pub start: usize,
    pub line_number: Option<u64>,
    pub text: Vec<u8>,
}

impl View for Removal {
    type V = RemovedView;

    open spec fn view(&self) -> RemovedView {
        (self.start, self.line_number, self.text@)
    }
}

pub open spec fn removals_view(r: Seq<Removal>) -> Seq<RemovedView> {
    r.map_values(|x: Removal| x@)
}

impl View for Edit {
    type V = EditView;

    open spec fn view(&self) -> EditView {
        (self.start, self.end, self.expected@, self.line_number)
    }
}

pub open spec fn edits_view(edits: Seq<Edit>) -> Seq<EditView> {
    edits.map_values(|e: Edit| e@)
}

/// `i` lies between two characters of `text` (or at its end).
pub open spec fn on_boundary(text: Seq<u8>, i: int) -> bool {
    i == text.len() || (0 <= i < text.len() && !is_continuation_byte(text[i]))
}

/// The text holds exactly the recorded bytes over the edit's range, and the
/// range starts and ends between characters.
pub open spec fn matches_at(text: Seq<u8>, e: EditView) -> bool {
    &&& e.0 <= e.1 <= text.len()
    &&& text.subrange(e.0 as int, e.1 as int) == e.2
    &&& on_boundary(text, e.0 as int)
    &&& on_boundary(text, e.1 as int)
}

pub open spec fn spliced(text: Seq<u8>, start: int, end: int, repl: Seq<u8>) -> Seq<u8> {
    text.subrange(0, start) + repl + text.subrange(end, text.len() as int)
}

/// The text, the number of replacements made, the starts of the edits
/// skipped as stale, and the replacements made (each with the bytes it
/// removed, which are the recorded ones), after the first `j` edits of
/// `order` were tried in turn.
pub open spec fn run(text: Seq<u8>, order: Seq<EditView>, repl: Seq<u8>, j: int) -> (
    Seq<u8>,
    nat,
    Seq<usize>,
    Seq<RemovedView>,
)
    decreases j,
{
    if j <= 0 {
        (text, 0, Seq::empty(), Seq::empty())
    } else {
        let prev = run(text, order, repl, j - 1);
        let e = order[j - 1];
        if matches_at(prev.0, e) {
            (
                spliced(prev.0, e.0 as int, e.1 as int, repl),
                prev.1 + 1,
                prev.2,
                prev.3.push((e.0, e.3, prev.0.subrange(e.0 as int, e.1 as int))),
            )
        } else {
            (prev.0, prev.1, prev.2.push(e.0), prev.3)
        }
    }
}

/// Orders edits by start, then by their position in the list.
pub open spec fn key_leq(a: (usize, usize), b: (usize, usize)) -> bool {
    a.0 < b.0 || (a.0 == b.0 && a.1 <= b.1)
}

pub open spec fn key_order() -> spec_fn((usize, usize), (usize, usize)) -> bool {
    |a: (usize, usize), b: (usize, usize)| key_leq(a, b)
}

pub open spec fn keys_of(edits: Seq<EditView>) -> Seq<(usize, usize)> {
    Seq::new(edits.len(), |i: int| (edits[i].0, i as usize))
}

/// The order in which edits are tried: descending start, and among equal
/// starts the later one in the list first.
pub open spec fn application_order(edits: Seq<EditView>) -> Seq<
    EditView,
> {
    let sorted = keys_of(edits).sort_by(key_order());
    Seq::new(edits.len(), |j: int| edits[sorted[edits.len() - 1 - j].1 as int])
}

/// The outcome of trying every edit, in application order, on `text`.
pub open spec fn replaced(text: Seq<u8>, edits: Seq<EditView>, repl: Seq<u8>) -> (
    Seq<u8>,
    nat,
    Seq<usize>,
    Seq<RemovedView>,
) {
    run(text, application_order(edits), repl, edits.len() as int)
}

proof fn lemma_key_order_total()
    ensures
        total_ordering(key_order()),
{
    let f = key_order();
    assert(reflexive(f));
    assert(antisymmetric(f));
    assert(transitive(f));
    assert(strongly_connected(f));
}

/// Relies on std's `sort_unstable` on a slice of integer pairs: it leaves
/// the same items in ascending lexicographic order.
#[verifier::external_body]
fn sort_keys(v: &mut Vec<(usize, usize)>)
    ensures
        final(v)@.to_multiset() == old(v)@.to_multiset(),
        sorted_by(final(v)@, key_order()),
{
    v.sort_unstable();
}

proof fn lemma_splice_valid(text: Seq<u8>, start: int, end: int, repl: Seq<u8>)
    requires
        valid_utf8(text),
        valid_utf8(repl),
        0 <= start <= end <= text.len(),
        on_boundary(text, start),
        on_boundary(text, end),
    ensures
        valid_utf8(spliced(text, start, end, repl)),
{
    is_char_boundary_start_end_of_seq(text);
    if start < text.len() {
        is_char_boundary_iff_not_is_continuation_byte(text, start);
    }
    if end < text.len() {
        is_char_boundary_iff_not_is_continuation_byte(text, end);
    }
    valid_utf8_split(text, start);
    valid_utf8_split(text, end);
    valid_utf8_concat(text.subrange(0, start), repl);
    valid_utf8_concat(text.subrange(0, start) + repl, text.subrange(end, text.len() as int));
}

proof fn lemma_run_bounds(text: Seq<u8>, order: Seq<EditView>, repl: Seq<u8>, j: int)
    requires
        0 <= j <= order.len(),
    ensures
        run(text, order, repl, j).1 + run(text, order, repl, j).2.len() == j,
        run(text, order, repl, j).3.len() == run(text, order, repl, j).1,
        run(text, order, repl, j).1 == 0 ==> run(text, order, repl, j).0 == text,
    decreases j,
{
    if j > 0 {
        lemma_run_bounds(text, order, repl, j - 1);
    }
}

/// At every step of a run, an edit whose recorded bytes are not those of the
/// text as it stands is skipped: the text, the count and the replacements
/// made stay as they were, and its start is added to the stale report.
pub proof fn lemma_stale_step(text: Seq<u8>, order: Seq<EditView>, repl: Seq<u8>, j: int)
    requires
        0 <= j < order.len(),
        !matches_at(run(text, order, repl, j).0, order[j]),
    ensures
        run(text, order, repl, j + 1) == (
            run(text, order, repl, j).0,
            run(text, order, repl, j).1,
            run(text, order, repl, j).2.push(order[j].0),
            run(text, order, repl, j).3,
        ),
{
}

/// A matching edit replaces exactly its range: the bytes before its start
/// and after its end are kept, and the bytes it removes are the recorded
/// ones.
pub proof fn lemma_match_step(text: Seq<u8>, order: Seq<EditView>, repl: Seq<u8>, j: int)
    requires
        0 <= j < order.len(),
        matches_at(run(text, order, repl, j).0, order[j]),
    ensures
        ({
            let before = run(text, order, repl, j).0;
            let after = run(text, order, repl, j + 1).0;
            let e = order[j];
            &&& after.subrange(0, e.0 as int) == before.subrange(0, e.0 as int)
            &&& after.subrange(e.0 + repl.len(), after.len() as int) == before.subrange(
                e.1 as int,
                before.len() as int,
            )
            &&& after.subrange(e.0 as int, e.0 + repl.len()) == repl
            &&& run(text, order, repl, j + 1).3.last().2 == e.2
        }),
{
    let before = run(text, order, repl, j).0;
    let after = run(text, order, repl, j + 1).0;
    let e = order[j];
    assert(after.subrange(0, e.0 as int) =~= before.subrange(0, e.0 as int));
    assert(after.subrange(e.0 + repl.len(), after.len() as int) =~= before.subrange(
        e.1 as int,
        before.len() as int,
    ));
    assert(after.subrange(e.0 as int, e.0 + repl.len()) =~= repl);
}

proof fn lemma_run_keeps_suffix(
    text: Seq<u8>,
    order: Seq<EditView>,
    repl: Seq<u8>,
    j: int,
    k: int,
)
    requires
        0 <= j < k <= order.len(),
        !matches_at(run(text, order, repl, j).0, order[j]),
        order[j].0 <= run(text, order, repl, j).0.len(),
        forall|t: int| j <= t < order.len() ==> order[t].0 <= #[trigger] order[t].1,
        forall|t: int, u: int| j <= t < u < order.len() ==> order[u].1 <= order[t].0,
    ensures
        run(text, order, repl, k).2.contains(order[j].0),
        exists|q: int|
            order[k - 1].0 <= q <= run(text, order, repl, k).0.len() && run(
                text,
                order,
                repl,
                k,
            ).0.subrange(q, run(text, order, repl, k).0.len() as int) == run(
                text,
                order,
                repl,
                j,
            ).0.subrange(order[j].0 as int, run(text, order, repl, j).0.len() as int),
    decreases k,
{
    let base = run(text, order, repl, j).0;
    let kept = base.subrange(order[j].0 as int, base.len() as int);
    if k == j + 1 {
        let r = run(text, order, repl, k);
        assert(r.2.last() == order[j].0);
        assert(r.2.contains(order[j].0));
        assert(r.0.subrange(order[j].0 as int, r.0.len() as int) == kept);
    } else {
        lemma_run_keeps_suffix(text, order, repl, j, k - 1);
        let prev = run(text, order, repl, k - 1);
        let cur = run(text, order, repl, k);
        let q = choose|q: int|
            order[k - 2].0 <= q <= prev.0.len() && prev.0.subrange(q, prev.0.len() as int)
                == kept;
        let e = order[k - 1];
        assert(e.1 <= order[k - 2].0);
        let i = choose|i: int| 0 <= i < prev.2.len() && prev.2[i] == order[j].0;
        assert(e.0 <= e.1);
        if matches_at(prev.0, e) {
            let q2 = q - e.1 + e.0 + repl.len();
            assert(cur.0.subrange(q2, cur.0.len() as int) =~= prev.0.subrange(
                q,
                prev.0.len() as int,
            ));
            assert(cur.2[i] == order[j].0);
            assert(order[k - 1].0 <= q2 <= cur.0.len() && cur.0.subrange(q2, cur.0.len() as int)
                == kept);
        } else {
            assert(cur.2[i] == order[j].0);
            assert(cur.0.subrange(q, cur.0.len() as int) == kept);
            assert(order[k - 1].0 <= q <= cur.0.len());
        }
    }
}

/// A stale match spoils nothing. Where an edit's recorded bytes are not
/// those of the text at its turn, its start is in the final stale report,
/// and every byte of the text from its start onward, the stale range
/// included, ends the final text unchanged, provided the edits tried from
/// it on have well-formed ranges and each ends before the start of the one
/// tried before it. The edits that
/// do match are made as `lemma_match_step` states.
pub proof fn lemma_stale_match_integrity(text: Seq<u8>, edits: Seq<EditView>, repl: Seq<u8>, j: int)
    requires
        0 <= j < edits.len(),
        !matches_at(run(text, application_order(edits), repl, j).0, application_order(edits)[j]),
        application_order(edits)[j].0 <= run(text, application_order(edits), repl, j).0.len(),
        forall|t: int|
            j <= t < edits.len() ==> application_order(edits)[t].0 <= #[trigger] application_order(
                edits,
            )[t].1,
        forall|t: int, u: int|
            j <= t < u < edits.len() ==> application_order(edits)[u].1 <= application_order(
                edits,
            )[t].0,
    ensures
        replaced(text, edits, repl).2.contains(application_order(edits)[j].0),
        exists|q: int|
            0 <= q <= replaced(text, edits, repl).0.len() && replaced(text, edits, repl).0.subrange(
                q,
                replaced(text, edits, repl).0.len() as int,
            ) == run(text, application_order(edits), repl, j).0.subrange(
                application_order(edits)[j].0 as int,
                run(text, application_order(edits), repl, j).0.len() as int,
            ),
{
    let order = application_order(edits);
    assert(order.len() == edits.len());
    let n = edits.len() as int;
    lemma_run_keeps_suffix(text, order, repl, j, n);
    let fin = run(text, order, repl, n).0;
    let base = run(text, order, repl, j).0;
    let q = choose|q: int|
        order[n - 1].0 <= q <= fin.len() && fin.subrange(q, fin.len() as int) == base.subrange(
            order[j].0 as int,
            base.len() as int,
        );
    assert(fin == replaced(text, edits, repl).0);
    assert(0 <= q <= fin.len());
}

/// An edit whose recorded bytes are not those of the text is skipped and
/// reported by its start; the text is left exactly as it was.
pub proof fn lemma_stale_edit_untouched(
    text: Seq<u8>,
    e: EditView,
    repl: Seq<u8>,
)
    requires
        !matches_at(text, e),
    ensures
        replaced(text, seq![e], repl) == (text, 0nat, seq![e.0], Seq::<RemovedView>::empty()),
{
    let edits = seq![e];
    let keys = keys_of(edits);
    lemma_key_order_total();
    keys.lemma_sort_by_ensures(key_order());
    let sorted = keys.sort_by(key_order());
    assert(sorted.to_multiset().len() == sorted.len());
    assert(keys.to_multiset().len() == keys.len());
    assert(sorted.len() == 1);
    assert(sorted.contains(sorted[0]));
    assert(keys.contains(sorted[0]));
    assert(sorted[0] == keys[0]);
    assert(application_order(edits) =~= edits);
    assert(run(text, edits, repl, 0) == (
        text,
        0nat,
        Seq::<usize>::empty(),
        Seq::<RemovedView>::empty(),
    ));
    assert(Seq::<usize>::empty().push(e.0) =~= seq![e.0]);
}

/// No two edits start at the same offset.
pub open spec fn distinct_starts(e: Seq<EditView>) -> bool {
    forall|i: int, j: int| 0 <= i < j < e.len() ==> e[i].0 != e[j].0
}

/// The starts strictly decrease along `o`.
pub open spec fn descending(o: Seq<EditView>) -> bool {
    forall|i: int, j: int| 0 <= i < j < o.len() ==> o[i].0 > o[j].0
}

proof fn lemma_application_order(e: Seq<EditView>)
    requires
        distinct_starts(e),
        e.len() <= usize::MAX,
    ensures
        application_order(e).len() == e.len(),
        descending(application_order(e)),
        forall|x: EditView| application_order(e).contains(x) <==> e.contains(x),
{
    let n = e.len() as int;
    let keys = keys_of(e);
    let sorted = keys.sort_by(key_order());
    let o = application_order(e);
    lemma_key_order_total();
    keys.lemma_sort_by_ensures(key_order());
    assert(sorted.to_multiset().len() == sorted.len());
    assert(keys.to_multiset().len() == keys.len());
    assert forall|p: int| 0 <= p < n implies #[trigger] sorted[p] == (
        e[sorted[p].1 as int].0,
        sorted[p].1,
    ) && sorted[p].1 < n by {
        assert(sorted.contains(sorted[p]));
        assert(sorted.to_multiset().count(sorted[p]) > 0);
        assert(keys.contains(sorted[p]));
        let i = choose|i: int| 0 <= i < keys.len() && keys[i] == sorted[p];
        assert(keys[i] == (e[i].0, i as usize));
        assert((i as usize) as int == i);
    }
    assert(keys.no_duplicates());
    keys.lemma_multiset_has_no_duplicates();
    sorted.lemma_multiset_has_no_duplicates_conv();
    assert forall|i: int, j: int| 0 <= i < j < o.len() implies o[i].0 > o[j].0 by {
        let p1 = n - 1 - i;
        let p2 = n - 1 - j;
        assert(sorted_by(sorted, key_order()));
        assert(key_order()(sorted[p2], sorted[p1]));
        assert(key_leq(sorted[p2], sorted[p1]));
        assert(sorted[p1] == (e[sorted[p1].1 as int].0, sorted[p1].1));
        assert(sorted[p2] == (e[sorted[p2].1 as int].0, sorted[p2].1));
        assert(sorted[p1] != sorted[p2]);
    }
    assert forall|x: EditView| o.contains(x) <==> e.contains(x) by {
        if o.contains(x) {
            let j = choose|j: int| 0 <= j < o.len() && o[j] == x;
            assert(sorted[n - 1 - j] == (e[sorted[n - 1 - j].1 as int].0, sorted[n - 1 - j].1));
        }
        if e.contains(x) {
            let i = choose|i: int| 0 <= i < e.len() && e[i] == x;
            assert(keys[i] == (e[i].0, i as usize));
            assert(keys.contains(keys[i]));
            assert(keys.to_multiset().count(keys[i]) > 0);
            assert(sorted.contains(keys[i]));
            let p = choose|p: int| 0 <= p < sorted.len() && sorted[p] == keys[i];
            assert(o[n - 1 - p] == x);
        }
    }
}

proof fn lemma_descending_unique(o1: Seq<EditView>, o2: Seq<EditView>)
    requires
        descending(o1),
        descending(o2),
        o1.len() == o2.len(),
        forall|x: EditView| o1.contains(x) <==> o2.contains(x),
    ensures
        o1 == o2,
    decreases o1.len(),
{
    if o1.len() > 0 {
        assert(o1.contains(o1[0]));
        assert(o2.contains(o2[0]));
        let k = choose|k: int| 0 <= k < o2.len() && o2[k] == o1[0];
        let m = choose|m: int| 0 <= m < o1.len() && o1[m] == o2[0];
        assert(o1[0] == o2[0]) by {
            if m != 0 {
                assert(o1[0].0 > o1[m].0);
            }
            if k != 0 {
                assert(o2[0].0 > o2[k].0);
            }
        }
        let r1 = o1.drop_first();
        let r2 = o2.drop_first();
        assert forall|x: EditView| r1.contains(x) <==> r2.contains(x) by {
            if r1.contains(x) {
                let i = choose|i: int| 0 <= i < r1.len() && r1[i] == x;
                assert(o1[i + 1] == x);
                assert(o1.contains(x));
                let j = choose|j: int| 0 <= j < o2.len() && o2[j] == x;
                assert(o1[0].0 > x.0);
                assert(j != 0);
                assert(r2[j - 1] == x);
            }
            if r2.contains(x) {
                let i = choose|i: int| 0 <= i < r2.len() && r2[i] == x;
                assert(o2[i + 1] == x);
                assert(o2.contains(x));
                let j = choose|j: int| 0 <= j < o1.len() && o1[j] == x;
                assert(o2[0].0 > x.0);
                assert(j != 0);
                assert(r1[j - 1] == x);
            }
        }
        lemma_descending_unique(r1, r2);
        assert(o1 =~= seq![o1[0]] + r1);
        assert(o2 =~= seq![o2[0]] + r2);
    } else {
        assert(o1 =~= o2);
    }
}

/// The order in which the edits are listed does not matter: two lists that
/// hold the same edits, no two of them at one start, give the same text,
/// count and stale report.
pub proof fn lemma_order_independent(
    text: Seq<u8>,
    e1: Seq<EditView>,
    e2: Seq<EditView>,
    repl: Seq<u8>,
)
    requires
        e1.to_multiset() == e2.to_multiset(),
        e1.len() <= usize::MAX,
        distinct_starts(e1),
        distinct_starts(e2),
    ensures
        replaced(text, e1, repl) == replaced(text, e2, repl),
{
    assert(e1.to_multiset().len() == e1.len());
    assert(e2.to_multiset().len() == e2.len());
    lemma_application_order(e1);
    lemma_application_order(e2);
    assert forall|x: EditView|
        application_order(e1).contains(x) <==> application_order(e2).contains(x) by {
        assert(e1.contains(x) <==> e1.to_multiset().count(x) > 0);
        assert(e2.contains(x) <==> e2.to_multiset().count(x) > 0);
    }
    lemma_descending_unique(application_order(e1), application_order(e2));
}

/// Whether the edit's range holds the recorded bytes and lies between
/// characters.
fn edit_matches(text: &Vec<u8>, e: &Edit) -> (r: bool)
    ensures
        r == matches_at(text@, e@),
{
    let n = text.len();
    if !(e.start <= e.end && e.end <= n) {
        return false;
    }
    if e.end - e.start != e.expected.len() {
        proof {
            assert(text@.subrange(e.start as int, e.end as int).len() != e.expected@.len());
        }
        return false;
    }
    if e.start < n && 0x80 <= text[e.start] && text[e.start] <= 0xBF {
        return false;
    }
    if e.end < n && 0x80 <= text[e.end] && text[e.end] <= 0xBF {
        return false;
    }
    let mut i: usize = 0;
    while i < e.expected.len()
        invariant
            e.start <= e.end <= n == text@.len(),
            e.end - e.start == e.expected@.len(),
            0 <= i <= e.expected@.len(),
            forall|k: int| 0 <= k < i ==> #[trigger] e.expected@[k] == text@[e.start + k],
        decreases e.expected@.len() - i,
    {
        if text[e.start + i] != e.expected[i] {
            proof {
                assert(text@.subrange(e.start as int, e.end as int)[i as int] != e.expected@[i as int]);
            }
            return false;
        }
        i = i + 1;
    }
    proof {
        assert(text@.subrange(e.start as int, e.end as int) =~= e.expected@);
    }
    true
}

/// `text` with the range `start..end` replaced by `repl`.
fn splice(text: &Vec<u8>, start: usize, end: usize, repl: &[u8]) -> (r: Vec<u8>)
    requires
        start <= end <= text@.len(),
    ensures
        r@ == spliced(text@, start as int, end as int, repl@),
{
    let mut out: Vec<u8> = Vec::new();
    let mut i: usize = 0;
    while i < start
        invariant
            0 <= i <= start <= end <= text@.len(),
            out@ == text@.subrange(0, i as int),
        decreases start - i,
    {
        out.push(text[i]);
        i = i + 1;
        proof {
            assert(out@ =~= text@.subrange(0, i as int));
        }
    }
    let ghost head = out@;
    let mut k: usize = 0;
    while k < repl.len()
        invariant
            0 <= k <= repl@.len(),
            out@ == head + repl@.subrange(0, k as int),
        decreases repl@.len() - k,
    {
        out.push(repl[k]);
        k = k + 1;
        proof {
            assert(out@ =~= head + repl@.subrange(0, k as int));
        }
    }
    proof {
        assert(repl@.subrange(0, repl@.len() as int) =~= repl@);
    }
    let ghost mid = out@;
    let mut i: usize = end;
    while i < text.len()
        invariant
            end <= i <= text@.len(),
            out@ == mid + text@.subrange(end as int, i as int),
        decreases text@.len() - i,
    {
        out.push(text[i]);
        i = i + 1;
        proof {
            assert(out@ =~= mid + text@.subrange(end as int, i as int));
        }
    }
    out
}

/// Tries every edit on `text`, last start first, and splices `repl` in
/// where the recorded bytes are still there. Returns the new text, the
/// number of replacements and the starts of the edits skipped as stale,
/// in the order tried.
pub fn replace_in_text(text: Vec<u8>, edits: &Vec<Edit>, repl: &[u8]) -> (r: (
    Vec<u8>,
    usize,
    Vec<usize>,
    Vec<Removal>,
))
    requires
        valid_utf8(text@),
        valid_utf8(repl@),
    ensures
        r.0@ == replaced(text@, edits_view(edits@), repl@).0,
        r.1 == replaced(text@, edits_view(edits@), repl@).1,
        r.2@ == replaced(text@, edits_view(edits@), repl@).2,
        removals_view(r.3@) == replaced(text@, edits_view(edits@), repl@).3,
        valid_utf8(r.0@),
{
    let n = edits.len();
    let ghost ev = edits_view(edits@);
    let mut keys: Vec<(usize, usize)> = Vec::new();
    let mut i: usize = 0;
    while i < n
        invariant
            n == edits@.len(),
            ev == edits_view(edits@),
            0 <= i <= n,
            keys@ == keys_of(ev).subrange(0, i as int),
        decreases n - i,
    {
        keys.push((edits[i].start, i));
        i = i + 1;
        proof {
            assert(keys@ =~= keys_of(ev).subrange(0, i as int));
        }
    }
    proof {
        assert(keys@ =~= keys_of(ev));
    }
    let ghost before = keys@;
    sort_keys(&mut keys);
    let ghost order = application_order(ev);
    proof {
        assert(keys@.len() == keys@.to_multiset().len());
        assert(before.len() == before.to_multiset().len());
        lemma_key_order_total();
        keys_of(ev).lemma_sort_by_ensures(key_order());
        lemma_sorted_unique(keys@, keys_of(ev).sort_by(key_order()), key_order());
        assert forall|k: int| 0 <= k < n implies (#[trigger] keys@[k]).1 < n by {
            assert(keys@.contains(keys@[k]));
            assert(keys@.to_multiset().count(keys@[k]) > 0);
            assert(keys_of(ev).contains(keys@[k]));
        }
    }
    let mut cur = text;
    let mut count: usize = 0;
    let mut stale: Vec<usize> = Vec::new();
    let mut removed: Vec<Removal> = Vec::new();
    let mut j: usize = 0;
    while j < n
        invariant
            n == edits@.len() == keys@.len() == order.len(),
            ev == edits_view(edits@),
            order == application_order(ev),
            keys@ == keys_of(ev).sort_by(key_order()),
            forall|k: int| 0 <= k < n ==> (#[trigger] keys@[k]).1 < n,
            valid_utf8(repl@),
            0 <= j <= n,
            cur@ == run(text@, order, repl@, j as int).0,
            count == run(text@, order, repl@, j as int).1,
            stale@ == run(text@, order, repl@, j as int).2,
            removals_view(removed@) == run(text@, order, repl@, j as int).3,
            valid_utf8(cur@),
        decreases n - j,
    {
        let idx = keys[n - 1 - j].1;
        let e = &edits[idx];
        proof {
            assert(order[j as int] == ev[idx as int]);
            assert(e@ == ev[idx as int]);
            lemma_run_bounds(text@, order, repl@, j as int);
        }
        if edit_matches(&cur, e) {
            proof {
                lemma_splice_valid(cur@, e.start as int, e.end as int, repl@);
            }
            let gone = Removal {
                start: e.start,
                line_number: e.line_number,
                text: copy_bytes(e.expected.as_slice()),
            };
            let ghost before = removals_view(removed@);
            removed.push(gone);
            proof {
                assert(removals_view(removed@) =~= before.push(gone@));
            }
            cur = splice(&cur, e.start, e.end, repl);
            count = count + 1;
        } else {
            stale.push(e.start);
        }
        j = j + 1;
    }
    (cur, count, stale, removed)
}

/// Why a file could not be rewritten.
#[derive(Clone, Copy, Debug, PartialEq, Eq, Structural)]
pub enum FileError {
    /// The file's bytes are not well formed in its detected encoding.
    Decode,
}

/// A file's new bytes, with the number of replacements made in it and the
/// offsets of the stale matches that were skipped.
pub struct Rewrite {
    pub bytes: Vec<u8>,
    pub count: usize,
    pub stale: Vec<usize>,
    /// The replacements made, in the order they were made.
    pub removed: Vec<Removal>,
    /// The file's text as it was decoded, before any edit.
    pub decoded: Ghost<Seq<u8>>,
}

/// Rewrites one file's raw bytes: detects its encoding, decodes it, applies
/// the edits last offset first, and encodes the result back with the same
/// mark. Fails only where the bytes do not decode.
pub fn rewrite_file(contents: &[u8], hint: EncodingHint, edits: &Vec<Edit>, replacement: &str) -> (r:
    Result<Rewrite, FileError>)
    ensures
        r is Ok <==> decodable(
            body_of(contents@, decoding_of(contents@, hint).0),
            decoding_of(contents@, hint).1,
        ),
        r matches Ok(rw) ==> {
            let out = replaced(rw.decoded@, edits_view(edits@), replacement.spec_bytes());
            &&& decodes_to(contents@, hint, rw.decoded@)
            &&& rw.bytes@ == file_bytes_of(
                decoding_of(contents@, hint).0,
                decoding_of(contents@, hint).1,
                out.0,
            )
            &&& rw.count == out.1
            &&& rw.stale@ == out.2
            &&& removals_view(rw.removed@) == out.3
            &&& rw.count == 0 ==> rw.bytes@ == contents@
        },
{
    let decoded = match decode_contents(contents, hint) {
        Some(d) => d,
        None => {
            return Err(FileError::Decode);
        },
    };
    let repl = replacement.as_bytes();
    proof {
        encode_utf8_valid_utf8(replacement@);
    }
    let ghost text = decoded.text@;
    let (out, count, stale, removed) = replace_in_text(decoded.text, edits, repl);
    let bytes = encode_contents(decoded.bom, decoded.encoding, out.as_slice());
    proof {
        lemma_run_bounds(text, application_order(edits_view(edits@)), repl@, edits@.len() as int);
        if count == 0 {
            lemma_round_trip(contents@, hint, text);
        }
    }
    Ok(Rewrite { bytes, count, stale, removed, decoded: Ghost(text) })
}

pub open spec fn sat_add(a: usize, b: usize) -> usize {
    if a + b > usize::MAX {
        usize::MAX
    } else {
        (a + b) as usize
    }
}

/// The edits of the first `j` submatches of a match record whose flag is
/// set, with ranges made absolute.
pub open spec fn selected_edits_upto(m: Message, flags: Seq<bool>, j: int) -> Seq<
    EditView,
>
    decreases j,
{
    match m {
        Message::Match { absolute_offset, submatches, line_number, .. } => {
            if j <= 0 {
                Seq::empty()
            } else {
                let prev = selected_edits_upto(m, flags, j - 1);
                let sm = submatches@[j - 1];
                if flags[j - 1] {
                    prev.push(
                        (
                            sat_add(absolute_offset, sm.start),
                            sat_add(absolute_offset, sm.end),
                            sm.text@,
                            line_number,
                        ),
                    )
                } else {
                    prev
                }
            }
        },
        _ => Seq::empty(),
    }
}

pub open spec fn selected_edits(it: Item) -> Seq<EditView> {
    selected_edits_upto(it.message, it.should_replace@, submatch_count(it.message) as int)
}

pub open spec fn match_path(m: Message) -> Option<Seq<u8>> {
    match m {
        Message::Match { path, .. } => Some(path@),
        _ => None,
    }
}

/// The selected edits of the first `n` items that are matches in `path`,
/// in item order.
pub open spec fn edits_for(items: Seq<Item>, path: Seq<u8>, n: int) -> Seq<EditView>
    decreases n,
{
    if n <= 0 {
        Seq::empty()
    } else if match_path(items[n - 1].message) == Some(path) {
        edits_for(items, path, n - 1) + selected_edits(items[n - 1])
    } else {
        edits_for(items, path, n - 1)
    }
}

pub open spec fn all_wf(items: Seq<Item>) -> bool {
    forall|i: int| 0 <= i < items.len() ==> (#[trigger] items[i]).wf()
}

/// The edits planned for one file.
pub struct FilePlan {
    pub path: Vec<u8>,
    pub edits: Vec<Edit>,
}

/// What a commit hands over: the replacement text, the reviewed items and
/// the encoding hint.
pub struct ReplacementCriteria {
    pub text: String,
    pub items: Vec<Item>,
    pub encoding: EncodingHint,
}

fn copy_bytes(v: &[u8]) -> (r: Vec<u8>)
    ensures
        r@ == v@,
{
    let mut out: Vec<u8> = Vec::new();
    let mut i: usize = 0;
    while i < v.len()
        invariant
            0 <= i <= v@.len(),
            out@ == v@.subrange(0, i as int),
        decreases v@.len() - i,
    {
        out.push(v[i]);
        i = i + 1;
        proof {
            assert(out@ =~= v@.subrange(0, i as int));
        }
    }
    proof {
        assert(out@ =~= v@);
    }
    out
}

fn bytes_eq(a: &[u8], b: &[u8]) -> (r: bool)
    ensures
        r == (a@ == b@),
{
    if a.len() != b.len() {
        return false;
    }
    let mut i: usize = 0;
    while i < a.len()
        invariant
            a@.len() == b@.len(),
            0 <= i <= a@.len(),
            forall|k: int| 0 <= k < i ==> a@[k] == b@[k],
        decreases a@.len() - i,
    {
        if a[i] != b[i] {
            return false;
        }
        i = i + 1;
    }
    proof {
        assert(a@ =~= b@);
    }
    true
}

/// Appends the selected edits of one item to `out`.
fn push_selected_edits(it: &Item, out: &mut Vec<Edit>)
    requires
        it.wf(),
    ensures
        edits_view(final(out)@) == edits_view(old(out)@) + selected_edits(*it),
{
    match &it.message {
        Message::Match { absolute_offset, submatches, line_number, .. } => {
            let n = submatches.len();
            let ghost start = edits_view(out@);
            let mut j: usize = 0;
            while j < n
                invariant
                    it.wf(),
                    it.message matches Message::Match {
                        submatches: s,
                        absolute_offset: o,
                        line_number: l,
                        ..
                    } && s@ == submatches@ && o == *absolute_offset && l == *line_number,
                    n == submatches@.len() == it.should_replace@.len(),
                    0 <= j <= n,
                    edits_view(out@) == start + selected_edits_upto(
                        it.message,
                        it.should_replace@,
                        j as int,
                    ),
                decreases n - j,
            {
                let sm = &submatches[j];
                let ghost prev = edits_view(out@);
                if it.should_replace[j] {
                    let e = Edit {
                        start: absolute_offset.saturating_add(sm.start),
                        end: absolute_offset.saturating_add(sm.end),
                        expected: copy_bytes(sm.text.as_slice()),
                        line_number: *line_number,
                    };
                    proof {
                        assert(e@ == (
                            sat_add(*absolute_offset, sm.start),
                            sat_add(*absolute_offset, sm.end),
                            sm.text@,
                            *line_number,
                        ));
                    }
                    out.push(e);
                    proof {
                        assert(edits_view(out@) =~= prev.push(e@));
                    }
                } else {
                    proof {
                        assert(edits_view(out@) =~= prev);
                    }
                }
                j = j + 1;
                proof {
                    assert(edits_view(out@) =~= start + selected_edits_upto(
                        it.message,
                        it.should_replace@,
                        j as int,
                    ));
                }
            }
        },
        _ => {
            proof {
                assert(edits_view(out@) =~= edits_view(out@) + selected_edits(*it));
            }
        },
    }
}

/// The selected edits of every match in `path`, in item order.
fn collect_edits(items: &Vec<Item>, path: &[u8]) -> (r: Vec<Edit>)
    requires
        all_wf(items@),
    ensures
        edits_view(r@) == edits_for(items@, path@, items@.len() as int),
{
    let mut out: Vec<Edit> = Vec::new();
    let mut i: usize = 0;
    while i < items.len()
        invariant
            all_wf(items@),
            0 <= i <= items@.len(),
            edits_view(out@) == edits_for(items@, path@, i as int),
        decreases items@.len() - i,
    {
        let it = &items[i];
        match &it.message {
            Message::Match { path: p, .. } => {
                if bytes_eq(p.as_slice(), path) {
                    push_selected_edits(it, &mut out);
                }
            },
            _ => {},
        }
        i = i + 1;
    }
    out
}

proof fn lemma_edits_for_has_match(items: Seq<Item>, path: Seq<u8>, n: int)
    requires
        edits_for(items, path, n).len() > 0,
    ensures
        exists|i: int| 0 <= i < n && #[trigger] match_path(items[i].message) == Some(path),
    decreases n,
{
    if n > 0 && match_path(items[n - 1].message) != Some(path) {
        lemma_edits_for_has_match(items, path, n - 1);
    }
}

pub open spec fn path_listed(paths: Seq<Vec<u8>>, p: Seq<u8>) -> bool {
    exists|k: int| 0 <= k < paths.len() && #[trigger] paths[k]@ == p
}

pub open spec fn planned(plans: Seq<FilePlan>, p: Seq<u8>) -> bool {
    exists|k: int| 0 <= k < plans.len() && #[trigger] plans[k].path@ == p
}

/// `p` occurs in a match before `q` first does.
pub open spec fn seen_before(items: Seq<Item>, p: Seq<u8>, q: Seq<u8>) -> bool {
    exists|i: int|
        0 <= i < items.len() && match_path(items[i].message) == Some(p) && forall|j: int|
            0 <= j <= i ==> match_path(items[j].message) != Some(q)
}

proof fn lemma_listed_push(paths: Seq<Vec<u8>>, x: Vec<u8>, p: Seq<u8>)
    requires
        path_listed(paths, p) || x@ == p,
    ensures
        path_listed(paths.push(x), p),
{
    if x@ == p {
        assert(paths.push(x)[paths.len() as int]@ == p);
    } else {
        let k = choose|k: int| 0 <= k < paths.len() && #[trigger] paths[k]@ == p;
        assert(paths.push(x)[k]@ == p);
    }
}

proof fn lemma_planned_push(plans: Seq<FilePlan>, x: FilePlan, p: Seq<u8>)
    requires
        planned(plans, p) || x.path@ == p,
    ensures
        planned(plans.push(x), p),
{
    if x.path@ == p {
        assert(plans.push(x)[plans.len() as int].path@ == p);
    } else {
        let k = choose|k: int| 0 <= k < plans.len() && #[trigger] plans[k].path@ == p;
        assert(plans.push(x)[k].path@ == p);
    }
}

/// Every path that some item matches in, once each, in the order first seen.
#[verifier::rlimit(40)]
fn match_paths(items: &Vec<Item>) -> (r: Vec<Vec<u8>>)
    ensures
        forall|a: int, b: int| 0 <= a < b < r@.len() ==> r@[a]@ != r@[b]@,
        forall|i: int|
            0 <= i < items@.len() && (#[trigger] match_path(items@[i].message)) is Some
                ==> path_listed(r@, match_path(items@[i].message)->0),
        forall|a: int, b: int| 0 <= a < b < r@.len() ==> seen_before(items@, r@[a]@, r@[b]@),
{
    let mut paths: Vec<Vec<u8>> = Vec::new();
    let mut i: usize = 0;
    while i < items.len()
        invariant
            0 <= i <= items@.len(),
            forall|a: int, b: int| 0 <= a < b < paths@.len() ==> paths@[a]@ != paths@[b]@,
            forall|t: int|
                0 <= t < i && (#[trigger] match_path(items@[t].message)) is Some
                    ==> path_listed(paths@, match_path(items@[t].message)->0),
            forall|k: int|
                0 <= k < paths@.len() ==> exists|t: int|
                    0 <= t < i && #[trigger] match_path(items@[t].message) == Some(
                        (#[trigger] paths@[k])@,
                    ),
            forall|a: int, b: int|
                0 <= a < b < paths@.len() ==> seen_before(items@, paths@[a]@, paths@[b]@),
        decreases items@.len() - i,
    {
        match &items[i].message {
            Message::Match { path, .. } => {
                let mut found = false;
                let mut k: usize = 0;
                while k < paths.len()
                    invariant
                        0 <= k <= paths@.len(),
                        found <==> exists|q: int| 0 <= q < k && #[trigger] paths@[q]@ == path@,
                    decreases paths@.len() - k,
                {
                    if bytes_eq(paths[k].as_slice(), path.as_slice()) {
                        found = true;
                    }
                    k = k + 1;
                }
                if !found {
                    let copy = copy_bytes(path.as_slice());
                    let ghost before = paths@;
                    proof {
                        assert forall|a: int| 0 <= a < before.len() implies seen_before(
                            items@,
                            before[a]@,
                            path@,
                        ) by {
                            let t = choose|t: int|
                                0 <= t < i && #[trigger] match_path(items@[t].message) == Some(
                                    before[a]@,
                                );
                            assert forall|j: int| 0 <= j <= t implies match_path(
                                items@[j].message,
                            ) != Some(path@) by {
                                if match_path(items@[j].message) == Some(path@) {
                                    assert(path_listed(before, path@));
                                    let q = choose|q: int|
                                        0 <= q < before.len() && #[trigger] before[q]@ == path@;
                                    assert(before[q]@ == path@);
                                }
                            }
                        }
                    }
                    paths.push(copy);
                    proof {
                        assert(match_path(items@[i as int].message) == Some(path@));
                        assert forall|a: int, b: int|
                            0 <= a < b < paths@.len() implies seen_before(
                            items@,
                            paths@[a]@,
                            paths@[b]@,
                        ) by {
                            if b < before.len() {
                                assert(paths@[a] == before[a]);
                                assert(paths@[b] == before[b]);
                            } else {
                                assert(paths@[a] == before[a]);
                            }
                        }
                        assert forall|t: int|
                            0 <= t <= i && (#[trigger] match_path(items@[t].message)) is Some
                                implies path_listed(paths@, match_path(items@[t].message)->0) by {
                            lemma_listed_push(before, copy, match_path(items@[t].message)->0);
                        }
                    }
                }
            },
            _ => {},
        }
        i = i + 1;
    }
    paths
}

/// No submatch of any item is selected.
pub open spec fn nothing_selected(items: Seq<Item>) -> bool {
    forall|i: int, j: int|
        0 <= i < items.len() && 0 <= j < items[i].should_replace@.len()
            ==> !(#[trigger] items[i].should_replace@[j])
}

proof fn lemma_no_flag_no_edits(m: Message, flags: Seq<bool>, j: int)
    requires
        forall|k: int| 0 <= k < flags.len() ==> !(#[trigger] flags[k]),
        j <= flags.len(),
    ensures
        selected_edits_upto(m, flags, j).len() == 0,
    decreases j,
{
    if j > 0 {
        lemma_no_flag_no_edits(m, flags, j - 1);
    }
}

/// Where nothing is selected, no file has an edit.
pub proof fn lemma_nothing_selected_no_edits(items: Seq<Item>, path: Seq<u8>, n: int)
    requires
        all_wf(items),
        nothing_selected(items),
        n <= items.len(),
    ensures
        edits_for(items, path, n).len() == 0,
    decreases n,
{
    if n > 0 {
        lemma_nothing_selected_no_edits(items, path, n - 1);
        let it = items[n - 1];
        assert(it.wf());
        assert forall|k: int| 0 <= k < it.should_replace@.len() implies !(
        #[trigger] it.should_replace@[k]) by {
            assert(!items[n - 1].should_replace@[k]);
        }
        lemma_no_flag_no_edits(it.message, it.should_replace@, submatch_count(it.message) as int);
    }
}

/// Groups the selected submatches by file, each file once, in the order
/// its first match came. A file without a selected submatch gets no plan,
/// so that it is never rewritten.
pub fn file_plans(items: &Vec<Item>) -> (r: Vec<FilePlan>)
    requires
        all_wf(items@),
    ensures
        forall|k: int|
            0 <= k < r@.len() ==> {
                &&& edits_view((#[trigger] r@[k]).edits@) == edits_for(
                    items@,
                    r@[k].path@,
                    items@.len() as int,
                )
                &&& r@[k].edits@.len() > 0
            },
        forall|a: int, b: int| 0 <= a < b < r@.len() ==> r@[a].path@ != r@[b].path@,
        forall|p: Seq<u8>|
            (#[trigger] edits_for(items@, p, items@.len() as int)).len() > 0 ==> planned(r@, p),
        forall|a: int, b: int|
            0 <= a < b < r@.len() ==> seen_before(items@, r@[a].path@, r@[b].path@),
        nothing_selected(items@) ==> r@.len() == 0,
{
    let paths = match_paths(items);
    let ghost mut idx: Seq<int> = Seq::empty();
    let mut plans: Vec<FilePlan> = Vec::new();
    let mut k: usize = 0;
    while k < paths.len()
        invariant
            all_wf(items@),
            0 <= k <= paths@.len(),
            forall|a: int, b: int| 0 <= a < b < paths@.len() ==> paths@[a]@ != paths@[b]@,
            forall|q: int|
                0 <= q < plans@.len() ==> {
                    &&& edits_view((#[trigger] plans@[q]).edits@) == edits_for(
                        items@,
                        plans@[q].path@,
                        items@.len() as int,
                    )
                    &&& plans@[q].edits@.len() > 0
                },
            idx.len() == plans@.len(),
            forall|q: int|
                0 <= q < plans@.len() ==> 0 <= #[trigger] idx[q] < k && plans@[q].path@
                    == paths@[idx[q]]@,
            forall|q1: int, q2: int| 0 <= q1 < q2 < idx.len() ==> idx[q1] < idx[q2],
            forall|a: int, b: int|
                0 <= a < b < paths@.len() ==> seen_before(items@, paths@[a]@, paths@[b]@),
            forall|a: int, b: int| 0 <= a < b < plans@.len() ==> plans@[a].path@ != plans@[b].path@,
            forall|t: int|
                0 <= t < k && edits_for(items@, (#[trigger] paths@[t])@, items@.len() as int).len()
                    > 0 ==> planned(plans@, paths@[t]@),
        decreases paths@.len() - k,
    {
        let edits = collect_edits(items, paths[k].as_slice());
        if edits.len() > 0 {
            let path = copy_bytes(paths[k].as_slice());
            proof {
                assert forall|q: int| 0 <= q < plans@.len() implies plans@[q].path@ != path@ by {
                    assert(idx[q] < k);
                    assert(paths@[idx[q]]@ != paths@[k as int]@);
                }
            }
            let ghost before = plans@;
            let plan = FilePlan { path, edits };
            plans.push(plan);
            proof {
                idx = idx.push(k as int);
                assert(plans@[plans@.len() - 1].path@ == paths@[k as int]@);
                assert forall|t: int|
                    0 <= t <= k && edits_for(items@, (#[trigger] paths@[t])@, items@.len() as int).len()
                        > 0 implies planned(plans@, paths@[t]@) by {
                    lemma_planned_push(before, plan, paths@[t]@);
                }
            }
        }
        k = k + 1;
    }
    proof {
        assert forall|p: Seq<u8>|
            (#[trigger] edits_for(items@, p, items@.len() as int)).len() > 0 implies planned(
                plans@,
                p,
            ) by {
            lemma_edits_for_has_match(items@, p, items@.len() as int);
            let i = choose|i: int|
                0 <= i < items@.len() && #[trigger] match_path(items@[i].message) == Some(p);
            assert(path_listed(paths@, p));
            let t = choose|t: int| 0 <= t < paths@.len() && #[trigger] paths@[t]@ == p;
            assert(edits_for(items@, paths@[t]@, items@.len() as int).len() > 0);
        }
    }
    proof {
        assert forall|a: int, b: int|
            0 <= a < b < plans@.len() implies seen_before(items@, plans@[a].path@, plans@[b].path@) by {
            assert(idx[a] < idx[b]);
        }
        if nothing_selected(items@) && plans@.len() > 0 {
            lemma_nothing_selected_no_edits(items@, plans@[0].path@, items@.len() as int);
        }
    }
    plans
}

impl ReplacementCriteria {
    pub fn new(text: &str, items: Vec<Item>) -> (r: ReplacementCriteria)
        ensures
            r.text@ == text@,
            r.items@ == items@,
            r.encoding == EncodingHint::Auto,
    {
        ReplacementCriteria { text: text.to_owned(), items, encoding: EncodingHint::Auto }
    }

    pub fn with_encoding(self, encoding: EncodingHint) -> (r: ReplacementCriteria)
        ensures
            r.text@ == self.text@,
            r.items@ == self.items@,
            r.encoding == encoding,
    {
        ReplacementCriteria { encoding, ..self }
    }

    /// The edits of the commit, grouped by file.
    pub fn as_map(&self) -> (r: Vec<FilePlan>)
        requires
            all_wf(self.items@),
        ensures
            forall|k: int|
                0 <= k < r@.len() ==> {
                    &&& edits_view((#[trigger] r@[k]).edits@) == edits_for(
                        self.items@,
                        r@[k].path@,
                        self.items@.len() as int,
                    )
                    &&& r@[k].edits@.len() > 0
                },
            forall|a: int, b: int| 0 <= a < b < r@.len() ==> r@[a].path@ != r@[b].path@,
            forall|p: Seq<u8>|
                (#[trigger] edits_for(self.items@, p, self.items@.len() as int)).len() > 0
                    ==> planned(r@, p),
            forall|a: int, b: int|
                0 <= a < b < r@.len() ==> seen_before(self.items@, r@[a].path@, r@[b].path@),
            nothing_selected(self.items@) ==> r@.len() == 0,
    {
        file_plans(&self.items)
    }
}

} // verus!
