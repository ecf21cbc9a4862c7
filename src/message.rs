//! The records of the search tool's structured output, and the check of the
//! stream's shape.

use vstd::prelude::*;
use vstd::string::*;

verus! {

/// One matched span within a matched line: a byte range relative to the
/// line, and the bytes that were matched there.
pub struct SubMatch {
    pub start: usize,
    pub end: usize,
    pub text: Vec<u8>,
}

impl SubMatch {
    pub fn new(text: Vec<u8>, start: usize, end: usize) -> (r: SubMatch)
        ensures
            r.start == start,
            r.end == end,
            r.text@ == text@,
    {
        SubMatch { start, end, text }
    }

    /// A submatch whose matched bytes are those of `text`.
    pub fn new_text(text: &str, range: std::ops::Range<usize>) -> (r: SubMatch)
        ensures
            r.start == range.start,
            r.end == range.end,
            r.text@ == text.spec_bytes(),
    {
        let bytes = text.as_bytes();
        let mut v: Vec<u8> = Vec::new();
        let mut i: usize = 0;
        while i < bytes.len()
            invariant
                bytes@ == text.spec_bytes(),
                0 <= i <= bytes@.len(),
                v@ == bytes@.subrange(0, i as int),
            decreases bytes@.len() - i,
        {
            v.push(bytes[i]);
            i = i + 1;
            proof {
                assert(v@ =~= bytes@.subrange(0, i as int));
            }
        }
        proof {
            assert(v@ =~= bytes@);
        }
        SubMatch { start: range.start, end: range.end, text: v }
    }
}

/// Elapsed time, as the search tool reports it.
#[derive(Clone, Copy, Debug, PartialEq, Eq, Structural)]
pub struct Duration {
    pub secs: u64,
    pub nanos: u32,
}

/// The aggregate statistics of one search.
#[derive(Clone, Copy, Debug, PartialEq, Eq, Structural)]
pub struct Stats {
    pub elapsed: Duration,
    pub searches: u64,
    pub searches_with_match: u64,
    pub bytes_searched: u64,
    pub bytes_printed: u64,
    pub matched_lines: u64,
    pub matches: u64,
}

/// One record of the stream. Paths and line text are raw bytes, which need
/// not be UTF-8.
pub enum Message {
    Begin { path: Vec<u8> },
    Match {
        path: Vec<u8>,
        lines: Vec<u8>,
        line_number: Option<u64>,
        absolute_offset: usize,
        submatches: Vec<SubMatch>,
    },
    Context { path: Vec<u8>, lines: Vec<u8>, line_number: Option<u64> },
    End { path: Vec<u8> },
    Summary { stats: Stats, elapsed_total: Duration },
}

/// Why a stream was refused.
#[derive(Clone, Copy, Debug, PartialEq, Eq, Structural)]
pub enum StreamError {
    /// The record on this line (counted from zero) could not be parsed.
    Parse { line: usize },
    /// The stream is well formed but holds no match.
    NoMatches,
    /// The stream does not end in its one summary record: there is none,
    /// more than one, or one before the end.
    MissingSummary,
}

pub open spec fn is_match_record(r: Option<Message>) -> bool {
    r is Some && r->0 is Match
}

pub open spec fn is_summary_record(r: Option<Message>) -> bool {
    r is Some && r->0 is Summary
}

/// Each record parsed.
pub open spec fn all_parsed(records: Seq<Option<Message>>) -> bool {
    forall|i: int| 0 <= i < records.len() ==> (#[trigger] records[i]) is Some
}

/// The first line whose record could not be parsed.
pub open spec fn is_first_unparsed(records: Seq<Option<Message>>, line: int) -> bool {
    &&& 0 <= line < records.len()
    &&& records[line] is None
    &&& forall|i: int| 0 <= i < line ==> (#[trigger] records[i]) is Some
}

pub open spec fn has_match(records: Seq<Option<Message>>) -> bool {
    exists|i: int| 0 <= i < records.len() && is_match_record(#[trigger] records[i])
}

/// Exactly one record is a summary, and it is the last.
pub open spec fn ends_in_summary(records: Seq<Option<Message>>) -> bool {
    &&& records.len() > 0
    &&& is_summary_record(records.last())
    &&& forall|i: int| 0 <= i < records.len() - 1 ==> !is_summary_record(#[trigger] records[i])
}

pub open spec fn unwrapped(records: Seq<Option<Message>>) -> Seq<Message> {
    records.map_values(|r: Option<Message>| r->0)
}

/// Checks the shape of a stream of records, one per input line, `None`
/// where a line did not parse. The first unparsed line aborts the whole
/// stream; a stream without a match is refused with its own error, and so
/// is one that does not end in its single summary record. The records come
/// back in stream order.
pub fn read_messages(records: Vec<Option<Message>>) -> (r: Result<Vec<Message>, StreamError>)
    ensures
        match r {
            Ok(v) => {
                &&& all_parsed(records@)
                &&& has_match(records@)
                &&& ends_in_summary(records@)
                &&& v@ == unwrapped(records@)
            },
            Err(StreamError::Parse { line }) => is_first_unparsed(records@, line as int),
            Err(StreamError::NoMatches) => all_parsed(records@) && !has_match(records@),
            Err(StreamError::MissingSummary) => {
                &&& all_parsed(records@)
                &&& has_match(records@)
                &&& !ends_in_summary(records@)
            },
        },
{
    let mut saw_match = false;
    let mut summaries: usize = 0;
    let mut i: usize = 0;
    while i < records.len()
        invariant
            0 <= i <= records@.len(),
            forall|j: int| 0 <= j < i ==> (#[trigger] records@[j]) is Some,
            saw_match <==> exists|j: int|
                0 <= j < i && is_match_record(#[trigger] records@[j]),
            summaries <= i,
            summaries == 0 <==> forall|j: int|
                0 <= j < i ==> !is_summary_record(#[trigger] records@[j]),
            summaries == 1 ==> exists|j: int|
                0 <= j < i && is_summary_record(#[trigger] records@[j]) && forall|k: int|
                    0 <= k < i && k != j ==> !is_summary_record(#[trigger] records@[k]),
            summaries >= 2 ==> exists|j: int, k: int|
                0 <= j < k < i && is_summary_record(#[trigger] records@[j])
                    && is_summary_record(#[trigger] records@[k]),
        decreases records@.len() - i,
    {
        match &records[i] {
            None => {
                return Err(StreamError::Parse { line: i });
            },
            Some(m) => {
                match m {
                    Message::Match { .. } => {
                        saw_match = true;
                    },
                    Message::Summary { .. } => {
                        if summaries < 2 {
                            summaries = summaries + 1;
                        }
                    },
                    _ => {},
                }
            },
        }
        i = i + 1;
    }
    if !saw_match {
        return Err(StreamError::NoMatches);
    }
    let n = records.len();
    let last_is_summary = match &records[n - 1] {
        Some(Message::Summary { .. }) => true,
        _ => false,
    };
    if summaries != 1 || !last_is_summary {
        return Err(StreamError::MissingSummary);
    }
    // Take the records off the end, then off the end again, which restores
    // stream order.
    let ghost all = records@;
    let mut rest = records;
    let mut reversed: Vec<Message> = Vec::new();
    while rest.len() > 0
        invariant
            all_parsed(all),
            rest@ == all.subrange(0, rest@.len() as int),
            rest@.len() + reversed@.len() == all.len(),
            forall|j: int|
                0 <= j < reversed@.len() ==> #[trigger] reversed@[j] == all[all.len() - 1 - j]->0,
        decreases rest@.len(),
    {
        let last = rest.pop().unwrap();
        proof {
            assert(all[rest@.len() as int] == last);
        }
        reversed.push(last.unwrap());
    }
    let mut out: Vec<Message> = Vec::new();
    while reversed.len() > 0
        invariant
            all_parsed(all),
            reversed@.len() + out@.len() == all.len(),
            forall|j: int|
                0 <= j < reversed@.len() ==> #[trigger] reversed@[j] == all[all.len() - 1 - j]->0,
            forall|j: int| 0 <= j < out@.len() ==> #[trigger] out@[j] == all[j]->0,
        decreases reversed@.len(),
    {
        let m = reversed.pop().unwrap();
        out.push(m);
    }
    proof {
        assert(out@ =~= unwrapped(all));
    }
    Ok(out)
}

} // verus!
