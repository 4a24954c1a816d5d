//! Content matching: a file's bytes are cut into lines, each line is held
//! against the pattern, and every matching line gives one [`Match`], which
//! tells where in the file the pattern first matched in that line. A NUL
//! byte anywhere in what was scanned marks the file as binary, and a binary
//! file has no matches.

use vstd::prelude::*;
use vstd::utf8::{decode_utf8, valid_utf8};
use crate::pattern::{line_first_span, LinePattern};

verus! {

/// The byte that ends a line.
pub const LINE_FEED: u8 = 10;

/// The byte that marks a file as binary.
pub const NUL: u8 = 0;

/// One matching line of a file.
#[derive(Clone, Debug)]
pub struct Match {
    /// Number of the line in the file, counted from 1.
    pub line_number: u64,
    /// Offset in the file of the first byte of the matched span: of the
    /// pattern's first match in the line.
    pub column_start: u64,
    /// Offset in the file just past the last byte of the matched span.
    pub column_end: u64,
    /// The line that holds the match, line feed included, decoded
    /// leniently.
    pub text: String,
}

/// What a [`Match`] says, in mathematical terms.
pub ghost struct MatchModel {
    pub line_number: nat,
    pub start: nat,
    pub end: nat,
    pub text: Seq<char>,
}

impl View for Match {
    type V = MatchModel;

    open spec fn view(&self) -> MatchModel {
        MatchModel {
            line_number: self.line_number as nat,
            start: self.column_start as nat,
            end: self.column_end as nat,
            text: self.text@,
        }
    }
}

/// The models of a sequence of matches, in order.
pub open spec fn models(ms: Seq<Match>) -> Seq<MatchModel> {
    Seq::new(ms.len(), |i: int| ms[i]@)
}

/// What `String::from_utf8_lossy` makes of `bytes`.
pub uninterp spec fn lossy_text(bytes: Seq<u8>) -> Seq<char>;

/// `String::from_utf8_lossy`: the text of `bytes`, with each invalid sequence
/// replaced by U+FFFD. The text depends on the bytes alone, and bytes that
/// are valid UTF-8 give the text they encode.
#[verifier::external_body]
fn decode_lossy(bytes: &[u8]) -> (r: String)
    ensures
        r@ == lossy_text(bytes@),
        valid_utf8(bytes@) ==> r@ == decode_utf8(bytes@),
{
    String::from_utf8_lossy(bytes).into_owned()
}

/// The largest line start at or before `i`: 0, or an index that follows a
/// line feed.
pub open spec fn line_start_at(bytes: Seq<u8>, i: int) -> int
    decreases i,
{
    if i <= 0 {
        0
    } else if bytes[i - 1] == LINE_FEED {
        i
    } else {
        line_start_at(bytes, i - 1)
    }
}

/// Where the last line of a non-empty byte string starts.
pub open spec fn last_line_start(bytes: Seq<u8>) -> int {
    line_start_at(bytes, bytes.len() - 1)
}

/// A line without the line feed that ends it: what the pattern is held against.
pub open spec fn line_body(line: Seq<u8>) -> Seq<u8> {
    if line.len() > 0 && line.last() == LINE_FEED {
        line.drop_last()
    } else {
        line
    }
}

/// The number of lines of `bytes`; a last line without a line feed counts.
pub open spec fn line_count(bytes: Seq<u8>) -> nat
    decreases bytes.len(),
{
    if bytes.len() == 0 {
        0
    } else {
        let s = last_line_start(bytes);
        if 0 <= s < bytes.len() {
            line_count(bytes.take(s)) + 1
        } else {
            0
        }
    }
}

/// The record of the line `line`, which is the line `number` of its file
/// and starts at the offset `start`: where the pattern first matched within
/// the line, at `span`, there is a match, whose offsets are those of the
/// span within the file; else there is none.
pub open spec fn record_of(span: Option<(nat, nat)>, number: nat, start: nat, line: Seq<u8>) -> Option<
    MatchModel,
> {
    match span {
        Some(found) => Some(
            MatchModel {
                line_number: number,
                start: start + found.0,
                end: start + found.1,
                text: lossy_text(line),
            },
        ),
        None => None,
    }
}

/// The matches of `bytes` line by line, in the file's line order.
pub open spec fn scan_lines(pattern: Seq<char>, bytes: Seq<u8>) -> Seq<MatchModel>
    decreases bytes.len(),
{
    if bytes.len() == 0 {
        Seq::empty()
    } else {
        let s = last_line_start(bytes);
        if 0 <= s < bytes.len() {
            let line = bytes.skip(s);
            let before = scan_lines(pattern, bytes.take(s));
            match record_of(
                line_first_span(pattern, line_body(line)),
                line_count(bytes),
                s as nat,
                line,
            ) {
                Some(m) => before.push(m),
                None => before,
            }
        } else {
            Seq::empty()
        }
    }
}

/// The matches of a file that holds `bytes`: none if a NUL byte occurs, else
/// one for each matching line.
pub open spec fn file_matches(pattern: Seq<char>, bytes: Seq<u8>) -> Seq<MatchModel> {
    if bytes.contains(NUL) {
        Seq::empty()
    } else {
        scan_lines(pattern, bytes)
    }
}

/// A line start is a position of the byte string before the asked index.
pub proof fn lemma_line_start_bounds(bytes: Seq<u8>, i: int)
    requires
        0 <= i,
    ensures
        0 <= line_start_at(bytes, i) <= i,
    decreases i,
{
    if i > 0 && bytes[i - 1] != LINE_FEED {
        lemma_line_start_bounds(bytes, i - 1);
    }
}

/// After a prefix that is empty or ends a line, a piece without a line feed
/// before its last byte is one line: it starts where the prefix ends.
pub proof fn lemma_line_start_after_prefix(prefix: Seq<u8>, line: Seq<u8>, i: int)
    requires
        prefix.len() == 0 || prefix.last() == LINE_FEED,
        forall|k: int| 0 <= k < line.len() - 1 ==> line[k] != LINE_FEED,
        prefix.len() <= i < prefix.len() + line.len(),
    ensures
        line_start_at(prefix + line, i) == prefix.len(),
    decreases i,
{
    let all = prefix + line;
    if i == prefix.len() {
        if i > 0 {
            assert(all[i - 1] == prefix.last());
        }
    } else {
        assert(all[i - 1] == line[i - 1 - prefix.len()]);
        lemma_line_start_after_prefix(prefix, line, i - 1);
    }
}

/// Scanning a file that gained one more line: the earlier matches stay, and
/// the new line adds its own if it matches.
pub proof fn lemma_scan_appended_line(pattern: Seq<char>, prefix: Seq<u8>, line: Seq<u8>)
    requires
        prefix.len() == 0 || prefix.last() == LINE_FEED,
        line.len() > 0,
        forall|k: int| 0 <= k < line.len() - 1 ==> line[k] != LINE_FEED,
    ensures
        line_count(prefix + line) == line_count(prefix) + 1,
        scan_lines(pattern, prefix + line) == match record_of(
            line_first_span(pattern, line_body(line)),
            line_count(prefix) + 1,
            prefix.len(),
            line,
        ) {
            Some(m) => scan_lines(pattern, prefix).push(m),
            None => scan_lines(pattern, prefix),
        },
{
    let all = prefix + line;
    lemma_line_start_after_prefix(prefix, line, all.len() - 1);
    assert(all.take(prefix.len() as int) =~= prefix);
    assert(all.skip(prefix.len() as int) =~= line);
}

/// A file has at most as many lines as bytes.
pub proof fn lemma_line_count_bound(bytes: Seq<u8>)
    ensures
        line_count(bytes) <= bytes.len(),
    decreases bytes.len(),
{
    if bytes.len() > 0 {
        let s = last_line_start(bytes);
        lemma_line_start_bounds(bytes, bytes.len() - 1);
        lemma_line_count_bound(bytes.take(s));
    }
}

/// Every match of a scan is on a line of the file, no line has two, and
/// the matches come in line order.
pub proof fn lemma_scan_in_order(pattern: Seq<char>, bytes: Seq<u8>)
    ensures
        scan_lines(pattern, bytes).len() <= line_count(bytes),
        forall|i: int|
            0 <= i < scan_lines(pattern, bytes).len() ==> 1 <= (#[trigger] scan_lines(
                pattern,
                bytes,
            )[i]).line_number <= line_count(bytes),
        forall|i: int, j: int|
            0 <= i < j < scan_lines(pattern, bytes).len() ==> (#[trigger] scan_lines(
                pattern,
                bytes,
            )[i]).line_number < (#[trigger] scan_lines(pattern, bytes)[j]).line_number,
    decreases bytes.len(),
{
    if bytes.len() > 0 {
        let s = last_line_start(bytes);
        lemma_line_start_bounds(bytes, bytes.len() - 1);
        lemma_scan_in_order(pattern, bytes.take(s));
    }
}

/// The span as it stands in specifications.
pub open spec fn span_of(span: Option<(usize, usize)>) -> Option<(nat, nat)> {
    match span {
        Some(found) => Some((found.0 as nat, found.1 as nat)),
        None => None,
    }
}

/// The record of one line: a match where the pattern matched, at `span`
/// within the line; nothing where it did not. `start` is the offset of the
/// line's first byte and `number` its line number. The match's offsets are
/// those of the span within the file.
pub fn line_record(span: Option<(usize, usize)>, number: u64, start: u64, line: &[u8]) -> (r: Option<
    Match,
>)
    requires
        start + line@.len() <= u64::MAX,
        span matches Some(found) ==> found.0 <= line@.len() && found.1 <= line@.len(),
    ensures
        match r {
            Some(m) => Some(m@) == record_of(span_of(span), number as nat, start as nat, line@),
            None => span is None,
        },
        r matches Some(m) ==> (valid_utf8(line@) ==> m.text@ == decode_utf8(line@)),
{
    match span {
        Some(found) => Some(
            Match {
                line_number: number,
                column_start: start + found.0 as u64,
                column_end: start + found.1 as u64,
                text: decode_lossy(line),
            },
        ),
        None => None,
    }
}

/// The part of `line` that the pattern is held against.
pub fn body_of(line: &[u8]) -> (r: &[u8])
    ensures
        r@ == line_body(line@),
{
    let n = line.len();
    if n > 0 && line[n - 1] == LINE_FEED {
        let r = vstd::slice::slice_subrange(line, 0, n - 1);
        assert(r@ =~= line@.drop_last());
        r
    } else {
        line
    }
}

/// Scans a file that arrives in pieces. The state after any number of pieces
/// is the state that one piece with all their bytes would have given.
pub struct ContentScanner<'a> {
    pattern: &'a LinePattern,
    /// The bytes of the line that is still open.
    carry: Vec<u8>,
    /// The number of bytes in closed lines.
    closed_len: u64,
    /// The number of closed lines.
    closed_lines: u64,
    /// The matches of the closed lines.
    matches: Vec<Match>,
    /// Whether a NUL byte was seen.
    binary: bool,
    /// The number of bytes fed so far.
    total: u64,
    /// All bytes fed so far.
    seen: Ghost<Seq<u8>>,
}

impl<'a> ContentScanner<'a> {
    /// All bytes that the scanner was fed, in order.
    pub closed spec fn consumed(&self) -> Seq<u8> {
        self.seen@
    }

    /// The text of the pattern that lines are held against.
    pub closed spec fn pattern_source(&self) -> Seq<char> {
        self.pattern.source()
    }

    /// The scanner's invariant.
    pub closed spec fn wf(&self) -> bool {
        let seen = self.seen@;
        let closed = seen.take(self.closed_len as int);
        &&& seen.len() == self.total
        &&& self.binary ==> seen.contains(NUL) && self.matches@.len() == 0
        &&& !self.binary ==> {
            &&& !seen.contains(NUL)
            &&& self.closed_len <= seen.len()
            &&& seen.skip(self.closed_len as int) == self.carry@
            &&& (self.closed_len == 0 || seen[self.closed_len - 1] == LINE_FEED)
            &&& forall|k: int| 0 <= k < self.carry@.len() ==> self.carry@[k] != LINE_FEED
            &&& models(self.matches@) == scan_lines(self.pattern.source(), closed)
            &&& self.closed_lines == line_count(closed)
        }
    }

    /// A scanner that has seen nothing yet.
    pub fn new(pattern: &'a LinePattern) -> (r: Self)
        ensures
            r.wf(),
            r.consumed() == Seq::<u8>::empty(),
            r.pattern_source() == pattern.source(),
    {
        let r = ContentScanner {
            pattern,
            carry: Vec::new(),
            closed_len: 0,
            closed_lines: 0,
            matches: Vec::new(),
            binary: false,
            total: 0,
            seen: Ghost(Seq::empty()),
        };
        proof {
            assert(r.seen@.skip(0) =~= r.carry@);
            assert(models(r.matches@) =~= scan_lines(pattern.source(), r.seen@.take(0)));
        }
        r
    }

    /// Whether a NUL byte was seen: nothing fed later can bring a match.
    pub fn is_binary(&self) -> (r: bool)
        requires
            self.wf(),
        ensures
            r == self.consumed().contains(NUL),
    {
        self.binary
    }

    /// The number of bytes that the scanner was fed.
    pub fn bytes_seen(&self) -> (r: u64)
        requires
            self.wf(),
        ensures
            r == self.consumed().len(),
    {
        self.total
    }

    /// Takes the next piece of the file. Returns whether reading on can
    /// still bring matches, that is, whether no NUL byte was seen so far.
    pub fn feed(&mut self, chunk: &[u8]) -> (more: bool)
        requires
            old(self).wf(),
            old(self).consumed().len() + chunk@.len() <= u64::MAX,
        ensures
            final(self).wf(),
            final(self).consumed() == old(self).consumed() + chunk@,
            final(self).pattern_source() == old(self).pattern_source(),
            more == !final(self).consumed().contains(NUL),
    {
        let ghost before = self.seen@;
        let mut i: usize = 0;
        while i < chunk.len()
            invariant
                i <= chunk@.len(),
                self.wf(),
                self.seen@ == before + chunk@.take(i as int),
                before.len() + chunk@.len() <= u64::MAX,
                self.pattern == old(self).pattern,
            decreases chunk@.len() - i,
        {
            let b = chunk[i];
            let ghost seen0 = self.seen@;
            let ghost seen1 = seen0.push(b);
            proof {
                assert(before + chunk@.take(i + 1) =~= seen1);
            }
            if self.binary {
                proof {
                    let w = choose|k: int| 0 <= k < seen0.len() && seen0[k] == NUL;
                    assert(seen1[w] == NUL);
                    self.seen@ = seen1;
                }
            } else if b == NUL {
                self.binary = true;
                self.matches = Vec::new();
                self.carry = Vec::new();
                proof {
                    assert(seen1[seen0.len() as int] == NUL);
                    self.seen@ = seen1;
                }
            } else {
                let ghost closed = seen0.take(self.closed_len as int);
                proof {
                    assert forall|k: int| 0 <= k < seen1.len() implies seen1[k] != NUL by {
                        if k < seen0.len() {
                            assert(seen0[k] == seen1[k]);
                        }
                    }
                    assert(seen1.take(self.closed_len as int) =~= closed);
                    assert(seen1.skip(self.closed_len as int) =~= self.carry@.push(b));
                }
                self.carry.push(b);
                if b == LINE_FEED {
                    proof {
                        assert(closed + self.carry@ =~= seen1);
                        lemma_scan_appended_line(self.pattern.source(), closed, self.carry@);
                        lemma_line_count_bound(seen1);
                    }
                    let span = self.pattern.first_span(body_of(self.carry.as_slice()));
                    let rec = line_record(
                        span,
                        self.closed_lines + 1,
                        self.closed_len,
                        self.carry.as_slice(),
                    );
                    let ghost old_matches = self.matches@;
                    match rec {
                        Some(m) => {
                            self.matches.push(m);
                            proof {
                                assert(models(self.matches@) =~= models(old_matches).push(m@));
                            }
                        },
                        None => {},
                    }
                    self.closed_len = self.closed_len + self.carry.len() as u64;
                    self.closed_lines = self.closed_lines + 1;
                    self.carry.clear();
                    proof {
                        self.seen@ = seen1;
                        assert(seen1.take(self.closed_len as int) =~= seen1);
                        assert(seen1.skip(self.closed_len as int) =~= self.carry@);
                    }
                } else {
                    proof {
                        self.seen@ = seen1;
                    }
                }
            }
            self.total = self.total + 1;
            i = i + 1;
        }
        proof {
            assert(chunk@.take(chunk@.len() as int) =~= chunk@);
        }
        !self.binary
    }

    /// Ends the file and gives its matches: those of all bytes fed, as if
    /// they had come in one piece.
    pub fn finish(self) -> (r: Vec<Match>)
        requires
            self.wf(),
        ensures
            models(r@) == file_matches(self.pattern_source(), self.consumed()),
    {
        let mut matches = self.matches;
        if self.binary {
            proof {
                assert(models(matches@) =~= Seq::<MatchModel>::empty());
            }
            return matches;
        }
        let ghost seen = self.seen@;
        let ghost closed = seen.take(self.closed_len as int);
        if self.carry.len() > 0 {
            proof {
                assert(closed + self.carry@ =~= seen);
                lemma_scan_appended_line(self.pattern.source(), closed, self.carry@);
                lemma_line_count_bound(seen);
            }
            let span = self.pattern.first_span(body_of(self.carry.as_slice()));
            let rec = line_record(
                span,
                self.closed_lines + 1,
                self.closed_len,
                self.carry.as_slice(),
            );
            let ghost old_matches = matches@;
            match rec {
                Some(m) => {
                    matches.push(m);
                    proof {
                        assert(models(matches@) =~= models(old_matches).push(m@));
                    }
                },
                None => {},
            }
        } else {
            proof {
                assert(closed =~= seen);
            }
        }
        matches
    }
}

/// The matches of a file whose whole content is `bytes`.
pub fn search_bytes(pattern: &LinePattern, bytes: &[u8]) -> (r: Vec<Match>)
    ensures
        models(r@) == file_matches(pattern.source(), bytes@),
{
    // No slice is longer than the scanner can count.
    let length = bytes.len();
    assert(length <= u64::MAX);
    let mut scanner = ContentScanner::new(pattern);
    let _ = scanner.feed(bytes);
    proof {
        assert(Seq::<u8>::empty() + bytes@ =~= bytes@);
    }
    scanner.finish()
}

} // verus!
