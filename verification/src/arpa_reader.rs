//! Reading the frame of a language model in ARPA form from a `FilePiece`: the counts of the
//! `\data\` section, the section headers and the `\end\` marker, with the decision taken on
//! each line.
use vstd::prelude::*;
use vstd::string::{StrSliceExecFns, StringExecFns, StringSliceAdditionalSpecFns};
use vstd::utf8::encode_utf8;
use crate::constant::WarningAction;
use crate::error::LMError;
use crate::types::WordIndex;
use crate::text::{find_char_from, first_char_at, is_white_space, parse_u64, parse_u64_spec, str_eq, trim, trim_white};
use crate::utils::pieces::file::{FilePiece, line_text, lines_from, next_line_start, lemma_line_advances};
pub use crate::text::is_entirely_whitespace;

verus! {

/// Decimal digits of `n`, without leading zeros ("0" for zero).
pub open spec fn decimal(n: nat) -> Seq<char>
    decreases n,
{
    if n < 10 {
        seq![(n + 48) as char]
    } else {
        decimal(n / 10).push(((n % 10) + 48) as char)
    }
}

/// Calls `ToString::to_string` on a `u64`. std documents that integers display in
/// decimal, without leading zeros.
#[verifier::external_body]
fn u64_decimal(n: u64) -> (r: String)
    ensures
        r@ == decimal(n as nat),
{
    n.to_string()
}

/// Whether `s` begins with `p`.
pub fn str_starts_with(s: &str, p: &str) -> (r: bool)
    ensures
        r == p@.is_prefix_of(s@),
{
    let n = s.unicode_len();
    let m = p.unicode_len();
    if m > n {
        return false;
    }
    let mut i: usize = 0;
    while i < m
        invariant
            n == s@.len(),
            m == p@.len(),
            m <= n,
            i <= m,
            forall|k: int| 0 <= k < i ==> s@[k] == p@[k],
        decreases m - i,
    {
        if s.get_char(i) != p.get_char(i) {
            return false;
        }
        i = i + 1;
    }
    assert(p@ =~= s@.subrange(0, m as int));
    true
}

/// Where the reading of the counts stands.
#[derive(Debug, Clone, Copy, PartialEq, Eq)]
pub enum CountsPhase {
    /// Looking for the `\data\` line.
    SeekingData,
    /// Reading the `ngram N=count` lines.
    ReadingCounts,
}

/// The state of reading the counts of an ARPA model.
#[derive(Debug)]
pub struct ArpaCounts {
    pub phase: CountsPhase,
    pub counts: Vec<u64>,
}

/// What to do after a line of the counts section.
#[derive(Debug)]
pub enum CountsStep {
    /// Hand over the next line.
    More,
    /// The counts are read: one per order, from the unigrams up.
    Done(Vec<u64>),
    /// The file is not in ARPA form.
    Failed(LMError),
}

/// The parts of a count line after `ngram `: the text before and after its only `=`, when
/// it has exactly one.
pub open spec fn count_line_parts(rem: Seq<char>) -> Option<(Seq<char>, Seq<char>)> {
    if exists|k: int| 0 <= k < rem.len() && rem[k] == '=' && forall|j: int|
        0 <= j < rem.len() && j != k ==> rem[j] != '=' {
        let k = choose|k: int|
            0 <= k < rem.len() && rem[k] == '=' && forall|j: int| 0 <= j < rem.len() && j != k ==> rem[j] != '=';
        Some((rem.take(k), rem.skip(k + 1)))
    } else {
        None
    }
}

/// The step taken on `line` in state `(phase, counts)`: the next phase, the next counts and
/// the step.
pub open spec fn counts_step(phase: CountsPhase, counts: Seq<u64>, line: Seq<char>) -> (
    CountsPhase,
    Seq<u64>,
    CountsOutcome,
) {
    let t = trim_white(line);
    match phase {
        CountsPhase::SeekingData => {
            if t.len() == 0 || t[0] == '#' {
                (phase, counts, CountsOutcome::More)
            } else if t == "\\data\\"@ {
                (CountsPhase::ReadingCounts, counts, CountsOutcome::More)
            } else {
                (phase, counts, CountsOutcome::Fail(ArpaFailure::NotData(t)))
            }
        },
        CountsPhase::ReadingCounts => {
            if t.len() == 0 {
                if counts.len() == 0 {
                    (phase, counts, CountsOutcome::Fail(ArpaFailure::NoCounts))
                } else {
                    (phase, Seq::empty(), CountsOutcome::Done(counts))
                }
            } else if !("ngram "@.is_prefix_of(t)) {
                (phase, counts, CountsOutcome::Fail(ArpaFailure::NotCountLine(t)))
            } else {
                match count_line_parts(t.skip(6)) {
                    None => (phase, counts, CountsOutcome::Fail(ArpaFailure::BadCountLine(t))),
                    Some((left, right)) => match parse_u64_spec(trim_white(left)) {
                        Some(order) if order <= usize::MAX => match parse_u64_spec(trim_white(right)) {
                            Some(count) => if order == counts.len() + 1 {
                                (phase, counts.push(count), CountsOutcome::More)
                            } else {
                                (phase, counts, CountsOutcome::Fail(ArpaFailure::OrderNotNext(order)))
                            },
                            None => (phase, counts, CountsOutcome::Fail(ArpaFailure::BadCount(right))),
                        },
                        _ => (phase, counts, CountsOutcome::Fail(ArpaFailure::BadOrder(left))),
                    },
                }
            }
        },
    }
}

/// The step taken on `line` in state `(phase, counts)`, with the checks for gzip and binary
/// files first: those see the line as read (its UTF-8 bytes), the other decisions its trimmed
/// text.
pub open spec fn counts_line(phase: CountsPhase, counts: Seq<u64>, line: Seq<char>) -> (
    CountsPhase,
    Seq<u64>,
    CountsOutcome,
) {
    let t = trim_white(line);
    let b = encode_utf8(line);
    let seeking = phase == CountsPhase::SeekingData;
    let skipped = t.len() == 0 || t[0] == '#' || t == "\\data\\"@;
    if seeking && !skipped && b.len() >= 2 && b[0] == 0x1f && b[1] == 0x8b {
        (phase, counts, CountsOutcome::Fail(ArpaFailure::Gzip))
    } else if seeking && !skipped && "mmap lm http://kheafield.com/code"@.is_prefix_of(line) {
        (phase, counts, CountsOutcome::Fail(ArpaFailure::Binary))
    } else {
        counts_step(phase, counts, line)
    }
}

/// The kinds of failure in the counts section, with what their messages quote.
pub enum ArpaFailure {
    Gzip,
    Binary,
    NotData(Seq<char>),
    NoCounts,
    NotCountLine(Seq<char>),
    BadCountLine(Seq<char>),
    BadOrder(Seq<char>),
    BadCount(Seq<char>),
    OrderNotNext(u64),
}

/// What a step of the counts section leads to.
pub enum CountsOutcome {
    More,
    Done(Seq<u64>),
    Fail(ArpaFailure),
}

/// The message of a failure.
pub open spec fn failure_message(f: ArpaFailure) -> Seq<char> {
    match f {
        ArpaFailure::Gzip => "Looks like a gzip file. Pipe through zcat first."@,
        ArpaFailure::Binary => "This looks like a binary file sent to ARPA parser."@,
        ArpaFailure::NotData(t) => "First non-empty line was '"@ + t + "' not \\data\\"@,
        ArpaFailure::NoCounts => "No ngram counts found in \\data\\ section"@,
        ArpaFailure::NotCountLine(t) => "Count line '"@ + t + "' doesn't begin with 'ngram '"@,
        ArpaFailure::BadCountLine(t) => "Invalid count line format: "@ + t,
        ArpaFailure::BadOrder(p) => "Invalid order number: "@ + p,
        ArpaFailure::BadCount(p) => "Invalid count: "@ + p,
        ArpaFailure::OrderNotNext(o) => "ngram orders should be consecutive starting with 1, got "@ + decimal(
            o as nat,
        ),
    }
}

/// Whether `step` is what `outcome` describes.
pub open spec fn step_matches(step: &CountsStep, outcome: CountsOutcome) -> bool {
    match outcome {
        CountsOutcome::More => step is More,
        CountsOutcome::Done(c) => step matches CountsStep::Done(v) && v@ == c,
        CountsOutcome::Fail(f) => step matches CountsStep::Failed(LMError::InvalidArpa(m)) && m@
            == failure_message(f),
    }
}

/// A message made of a text between two literals.
fn quoted(before: &str, middle: &str, after: &str) -> (r: String)
    ensures
        r@ == before@ + middle@ + after@,
{
    let mut m = String::from_str(before);
    m.append(middle);
    m.append(after);
    m
}

impl ArpaCounts {
    /// The state before the first line.
    pub fn new() -> (r: Self)
        ensures
            r.phase == CountsPhase::SeekingData,
            r.counts@.len() == 0,
    {
        ArpaCounts { phase: CountsPhase::SeekingData, counts: Vec::new() }
    }

    /// Takes the next line of the file (the gzip and binary checks see the line as read,
    /// the other decisions its trimmed text). Leading blank and comment lines are skipped
    /// until `\data\`; then each `ngram N=count` line adds the count of order `N`, which
    /// must be the next order; a blank line ends the counts.
    pub fn next_line(&mut self, line: &str) -> (r: CountsStep)
        ensures
            ({
                let (phase, counts, outcome) = counts_line(old(self).phase, old(self).counts@, line@);
                &&& final(self).phase == phase
                &&& final(self).counts@ == counts
                &&& step_matches(&r, outcome)
            }),
    {
        let t = trim(line);
        let n = t.unicode_len();
        match self.phase {
            CountsPhase::SeekingData => {
                if n == 0 || t.get_char(0) == '#' {
                    return CountsStep::More;
                }
                if str_eq(t, "\\data\\") {
                    self.phase = CountsPhase::ReadingCounts;
                    return CountsStep::More;
                }
                let bytes = line.as_bytes();
                if bytes.len() >= 2 && bytes[0] == 0x1f && bytes[1] == 0x8b {
                    return CountsStep::Failed(LMError::InvalidArpa("Looks like a gzip file. Pipe through zcat first.".to_owned()));
                }
                if str_starts_with(line, "mmap lm http://kheafield.com/code") {
                    return CountsStep::Failed(LMError::InvalidArpa("This looks like a binary file sent to ARPA parser.".to_owned()));
                }
                CountsStep::Failed(LMError::InvalidArpa(quoted("First non-empty line was '", t, "' not \\data\\")))
            },
            CountsPhase::ReadingCounts => {
                if n == 0 {
                    if self.counts.len() == 0 {
                        return CountsStep::Failed(LMError::InvalidArpa("No ngram counts found in \\data\\ section".to_owned()));
                    }
                    let mut done: Vec<u64> = Vec::new();
                    std::mem::swap(&mut done, &mut self.counts);
                    return CountsStep::Done(done);
                }
                if !str_starts_with(t, "ngram ") {
                    return CountsStep::Failed(LMError::InvalidArpa(quoted("Count line '", t, "' doesn't begin with 'ngram '")));
                }
                self.count_line(line, t)
            },
        }
    }

    /// Reads a count line, `t` being the trimmed `line`, which begins with `ngram `.
    fn count_line(&mut self, line: &str, t: &str) -> (r: CountsStep)
        requires
            old(self).phase == CountsPhase::ReadingCounts,
            t@ == trim_white(line@),
            t@.len() > 0,
            "ngram "@.is_prefix_of(t@),
        ensures
            ({
                let (phase, counts, outcome) = counts_step(old(self).phase, old(self).counts@, line@);
                &&& final(self).phase == phase
                &&& final(self).counts@ == counts
                &&& step_matches(&r, outcome)
            }),
    {
        proof {
            reveal_strlit("ngram ");
            reveal_strlit("");
            assert(t@ + ""@ =~= t@);
        }
        let n = t.unicode_len();
        let rem = t.substring_char(6, n);
        assert(rem@ =~= t@.skip(6));
        let (left, right) = match split_at_only_eq(rem) {
            Some(parts) => parts,
            None => {
                return CountsStep::Failed(LMError::InvalidArpa(quoted("Invalid count line format: ", t, "")));
            },
        };
        let order = match parse_u64(trim(left)) {
            Some(o) => o,
            None => {
                return CountsStep::Failed(LMError::InvalidArpa(quoted("Invalid order number: ", left, "")));
            },
        };
        if order > usize::MAX as u64 {
            return CountsStep::Failed(LMError::InvalidArpa(quoted("Invalid order number: ", left, "")));
        }
        let count = match parse_u64(trim(right)) {
            Some(c) => c,
            None => {
                return CountsStep::Failed(LMError::InvalidArpa(quoted("Invalid count: ", right, "")));
            },
        };
        if order == 0 || (order - 1) as usize != self.counts.len() {
            let digits = u64_decimal(order);
            return CountsStep::Failed(
                LMError::InvalidArpa(quoted("ngram orders should be consecutive starting with 1, got ", digits.as_str(), "")),
            );
        }
        self.counts.push(count);
        CountsStep::More
    }
}

/// How reading the counts section ends.
pub enum CountsEnd {
    /// The counts, one per order.
    Read(Seq<u64>),
    /// The file ended first.
    EndOfFile,
    /// The section is not in ARPA form.
    Invalid(ArpaFailure),
}

/// What reading the counts section from the line at `p` on gives, in state `(phase,
/// counts)`, and where the reading stops.
pub open spec fn counts_run(data: Seq<u8>, p: int, phase: CountsPhase, counts: Seq<u64>) -> (CountsEnd, int)
    decreases data.len() - p,
{
    if p < 0 || p >= data.len() {
        (CountsEnd::EndOfFile, p)
    } else {
        let line = line_text(data, p, '\n' as u8, true);
        let next = next_line_start(data, p, '\n' as u8);
        let (ph, cs, out) = counts_line(phase, counts, line);
        match out {
            CountsOutcome::More => {
                proof {
                    lemma_line_advances(data, p, '\n' as u8);
                }
                counts_run(data, next, ph, cs)
            },
            CountsOutcome::Done(c) => (CountsEnd::Read(c), next),
            CountsOutcome::Fail(f) => (CountsEnd::Invalid(f), next),
        }
    }
}

/// Whether `r` is what an end of the counts section gives.
pub open spec fn counts_result(r: &Result<Vec<u64>, LMError>, end: CountsEnd) -> bool {
    match end {
        CountsEnd::Read(c) => r matches Ok(v) && v@ == c,
        CountsEnd::EndOfFile => r matches Err(LMError::EndOfFile),
        CountsEnd::Invalid(f) => r matches Err(LMError::InvalidArpa(m)) && m@ == failure_message(f),
    }
}

/// Counts that are read list at least one order, and extend the counts read before: a
/// count is only ever added after the ones of the lower orders.
pub proof fn law_counts_read_extend(data: Seq<u8>, p: int, phase: CountsPhase, counts: Seq<u64>)
    ensures
        counts_run(data, p, phase, counts).0 matches CountsEnd::Read(v) ==> v.len() >= 1 && counts.is_prefix_of(v),
    decreases data.len() - p,
{
    if 0 <= p < data.len() {
        let line = line_text(data, p, '\n' as u8, true);
        let next = next_line_start(data, p, '\n' as u8);
        let (ph, cs, out) = counts_line(phase, counts, line);
        lemma_line_advances(data, p, '\n' as u8);
        if out is More {
            law_counts_read_extend(data, next, ph, cs);
            assert(counts.is_prefix_of(cs));
            if let CountsEnd::Read(v) = counts_run(data, next, ph, cs).0 {
                assert(cs.is_prefix_of(v));
                assert forall|i: int| 0 <= i < counts.len() implies counts[i] == v[i] by {
                    assert(counts[i] == cs[i]);
                }
            }
        }
    }
}

/// The order and count that a trimmed count line `ngram N=C` gives.
pub open spec fn parsed_count_line(t: Seq<char>) -> Option<(u64, u64)> {
    if "ngram "@.is_prefix_of(t) {
        match count_line_parts(t.skip(6)) {
            Some((left, right)) => match (parse_u64_spec(trim_white(left)), parse_u64_spec(trim_white(right))) {
                (Some(o), Some(c)) => if o <= usize::MAX {
                    Some((o, c))
                } else {
                    None
                },
                _ => None,
            },
            None => None,
        }
    } else {
        None
    }
}

/// Whether `lines` hold a counts section with counts `v`: lines that are blank or comments
/// up to line `i`, which is `\data\`, then one count line per order, from the unigrams up,
/// then a blank line.
pub open spec fn counts_section_at(lines: Seq<Seq<char>>, i: int, v: Seq<u64>) -> bool {
    &&& v.len() >= 1
    &&& 0 <= i
    &&& i + v.len() + 1 < lines.len()
    &&& forall|j: int| 0 <= j < i ==> trim_white(#[trigger] lines[j]).len() == 0 || trim_white(lines[j])[0] == '#'
    &&& trim_white(lines[i]) == "\\data\\"@
    &&& forall|q: int|
        0 <= q < v.len() ==> (parsed_count_line(trim_white(#[trigger] lines[i + 1 + q])) matches Some((o, c)) && o == q
            + 1 && c == v[q])
    &&& trim_white(lines[i + v.len() + 1]).len() == 0
}

/// What reading the counts section gives over the lines `lines`, in state `(phase, counts)`.
spec fn counts_over(lines: Seq<Seq<char>>, phase: CountsPhase, counts: Seq<u64>) -> CountsEnd
    decreases lines.len(),
{
    if lines.len() == 0 {
        CountsEnd::EndOfFile
    } else {
        let (ph, cs, out) = counts_line(phase, counts, lines[0]);
        match out {
            CountsOutcome::More => counts_over(lines.drop_first(), ph, cs),
            CountsOutcome::Done(c) => CountsEnd::Read(c),
            CountsOutcome::Fail(f) => CountsEnd::Invalid(f),
        }
    }
}

/// Reading the bytes from `p` reads their lines.
proof fn lemma_counts_run_over(data: Seq<u8>, p: int, phase: CountsPhase, counts: Seq<u64>)
    requires
        0 <= p,
    ensures
        counts_run(data, p, phase, counts).0 == counts_over(lines_from(data, p), phase, counts),
    decreases data.len() - p,
{
    if p < data.len() {
        lemma_line_advances(data, p, '\n' as u8);
        let next = next_line_start(data, p, '\n' as u8);
        let ls = lines_from(data, p);
        assert(ls[0] == line_text(data, p, '\n' as u8, true));
        assert(ls.drop_first() =~= lines_from(data, next));
        let (ph, cs, out) = counts_line(phase, counts, ls[0]);
        if out is More {
            lemma_counts_run_over(data, next, ph, cs);
        }
    }
}

/// While reading count lines after `cs`, the section ends with counts `v` exactly when the
/// next `v.len() - cs.len()` lines are the count lines of the next orders with the counts of
/// `v` past `cs`, and a blank line follows.
#[verifier::spinoff_prover]
proof fn lemma_reading_counts(lines: Seq<Seq<char>>, cs: Seq<u64>, v: Seq<u64>)
    ensures
        counts_over(lines, CountsPhase::ReadingCounts, cs) == CountsEnd::Read(v) <==> {
            &&& v.len() >= 1
            &&& cs.len() <= v.len()
            &&& v.take(cs.len() as int) == cs
            &&& v.len() - cs.len() < lines.len()
            &&& forall|q: int|
                0 <= q < v.len() - cs.len() ==> (parsed_count_line(trim_white(#[trigger] lines[q])) matches Some((o, c))
                    && o == cs.len() + q + 1 && c == v[cs.len() + q])
            &&& trim_white(lines[v.len() - cs.len()]).len() == 0
        },
    decreases lines.len(),
{
    let n = cs.len() as int;
    let rhs = {
        &&& v.len() >= 1
        &&& cs.len() <= v.len()
        &&& v.take(n) == cs
        &&& v.len() - n < lines.len()
        &&& forall|q: int|
            0 <= q < v.len() - n ==> (parsed_count_line(trim_white(#[trigger] lines[q])) matches Some((o, c)) && o == n
                + q + 1 && c == v[n + q])
        &&& trim_white(lines[v.len() - n]).len() == 0
    };
    reveal_strlit("ngram ");
    if lines.len() > 0 {
        let t = trim_white(lines[0]);
        let (ph, cs2, out) = counts_line(CountsPhase::ReadingCounts, cs, lines[0]);
        if t.len() == 0 {
            assert(!("ngram "@.is_prefix_of(t)));
            assert(parsed_count_line(t) is None);
            if rhs && v.len() > n {
                assert(parsed_count_line(trim_white(lines[0])) is Some);
            }
            if rhs {
                assert(v =~= cs);
            }
            if v == cs {
                assert(v.take(n) =~= cs);
            }
            assert((counts_over(lines, CountsPhase::ReadingCounts, cs) == CountsEnd::Read(v)) == rhs);
        } else if out is More {
            let (o, c) = parsed_count_line(t).unwrap();
            assert(cs2 == cs.push(c));
            assert(o == n + 1);
            let rest = lines.drop_first();
            lemma_reading_counts(rest, cs2, v);
            if rhs {
                assert(v.len() - n != 0);
                assert(parsed_count_line(trim_white(lines[0])) matches Some((o, c)) && o == n + 1 && c == v[n]);
                assert(v.take(n + 1) =~= cs2);
                assert forall|q: int| 0 <= q < v.len() - (n + 1) implies (parsed_count_line(trim_white(#[trigger] rest[q]))
                    matches Some((o, c)) && o == n + 1 + q + 1 && c == v[n + 1 + q]) by {
                    assert(rest[q] == lines[q + 1]);
                }
                assert(rest[v.len() - (n + 1)] == lines[v.len() - n]);
            }
            if counts_over(rest, ph, cs2) == CountsEnd::Read(v) {
                assert(v.take(n) =~= v.take(n + 1).take(n));
                assert(v.take(n + 1).take(n) =~= cs);
                assert(v[n] == cs2[n]);
                assert forall|q: int| 0 <= q < v.len() - n implies (parsed_count_line(trim_white(#[trigger] lines[q]))
                    matches Some((o, c)) && o == n + q + 1 && c == v[n + q]) by {
                    if q > 0 {
                        assert(rest[q - 1] == lines[q]);
                    }
                }
                assert(rest[v.len() - (n + 1)] == lines[v.len() - n]);
            }
            assert((counts_over(lines, CountsPhase::ReadingCounts, cs) == CountsEnd::Read(v)) == rhs);
        } else {
            if rhs {
                assert(v.len() != n) by {
                    if v.len() == n {
                        assert(trim_white(lines[0]).len() == 0);
                    }
                }
                assert(parsed_count_line(trim_white(lines[0])) matches Some((o, c)) && o == n + 1 && c == v[n]);
                assert("ngram "@.is_prefix_of(t));
                let (l, r) = count_line_parts(t.skip(6)).unwrap();
                assert(parse_u64_spec(trim_white(l)) matches Some(o) && o == n + 1);
                assert(parse_u64_spec(trim_white(r)) == Some(v[n]));
                assert(out is More);
            }
            assert((counts_over(lines, CountsPhase::ReadingCounts, cs) == CountsEnd::Read(v)) == rhs);
        }
    }
    assert((counts_over(lines, CountsPhase::ReadingCounts, cs) == CountsEnd::Read(v)) == rhs);
}

/// Before the `\data\` line, reading ends with counts `v` exactly when blank or comment lines
/// lead to a `\data\` line after which the count lines end with `v`.
#[verifier::spinoff_prover]
proof fn lemma_seeking_data(lines: Seq<Seq<char>>, v: Seq<u64>)
    ensures
        counts_over(lines, CountsPhase::SeekingData, Seq::empty()) == CountsEnd::Read(v) <==> exists|i: int|
            {
                &&& 0 <= i < lines.len()
                &&& forall|j: int| 0 <= j < i ==> trim_white(#[trigger] lines[j]).len() == 0 || trim_white(lines[j])[0] == '#'
                &&& trim_white(lines[i]) == "\\data\\"@
                &&& #[trigger] counts_over(lines.skip(i + 1), CountsPhase::ReadingCounts, Seq::empty()) == CountsEnd::Read(v)
            },
    decreases lines.len(),
{
    reveal_strlit("\\data\\");
    if lines.len() > 0 {
        let t = trim_white(lines[0]);
        let rest = lines.drop_first();
        assert(lines.skip(1) =~= rest);
        lemma_seeking_data(rest, v);
        if t.len() == 0 || t[0] == '#' {
            if counts_over(rest, CountsPhase::SeekingData, Seq::empty()) == CountsEnd::Read(v) {
                let i = choose|i: int|
                    {
                        &&& 0 <= i < rest.len()
                        &&& forall|j: int| 0 <= j < i ==> trim_white(#[trigger] rest[j]).len() == 0 || trim_white(rest[j])[0] == '#'
                        &&& trim_white(rest[i]) == "\\data\\"@
                        &&& #[trigger] counts_over(rest.skip(i + 1), CountsPhase::ReadingCounts, Seq::empty())
                            == CountsEnd::Read(v)
                    };
                assert(lines.skip(i + 2) =~= rest.skip(i + 1));
                assert forall|j: int| 0 <= j < i + 1 implies trim_white(#[trigger] lines[j]).len() == 0 || trim_white(
                    lines[j],
                )[0] == '#' by {
                    if j > 0 {
                        assert(lines[j] == rest[j - 1]);
                    }
                }
                assert(lines[i + 1] == rest[i]);
                assert(counts_over(lines.skip(i + 2), CountsPhase::ReadingCounts, Seq::empty()) == CountsEnd::Read(v));
            }
            if exists|i: int|
                {
                    &&& 0 <= i < lines.len()
                    &&& forall|j: int| 0 <= j < i ==> trim_white(#[trigger] lines[j]).len() == 0 || trim_white(lines[j])[0] == '#'
                    &&& trim_white(lines[i]) == "\\data\\"@
                    &&& #[trigger] counts_over(lines.skip(i + 1), CountsPhase::ReadingCounts, Seq::empty())
                        == CountsEnd::Read(v)
                } {
                let i = choose|i: int|
                    {
                        &&& 0 <= i < lines.len()
                        &&& forall|j: int| 0 <= j < i ==> trim_white(#[trigger] lines[j]).len() == 0 || trim_white(lines[j])[0] == '#'
                        &&& trim_white(lines[i]) == "\\data\\"@
                        &&& #[trigger] counts_over(lines.skip(i + 1), CountsPhase::ReadingCounts, Seq::empty())
                            == CountsEnd::Read(v)
                    };
                assert(i != 0);
                assert(rest.skip(i) =~= lines.skip(i + 1));
                assert forall|j: int| 0 <= j < i - 1 implies trim_white(#[trigger] rest[j]).len() == 0 || trim_white(
                    rest[j],
                )[0] == '#' by {
                    assert(rest[j] == lines[j + 1]);
                }
                assert(rest[i - 1] == lines[i]);
                assert(counts_over(rest.skip(i), CountsPhase::ReadingCounts, Seq::empty()) == CountsEnd::Read(v));
            }
        } else if t == "\\data\\"@ {
            if counts_over(rest, CountsPhase::ReadingCounts, Seq::empty()) == CountsEnd::Read(v) {
                assert(counts_over(lines.skip(0int + 1), CountsPhase::ReadingCounts, Seq::empty()) == CountsEnd::Read(v));
            }
        }
    }
}

/// Reading that ends with counts `v` read a counts section with counts `v`.
proof fn lemma_section_of_read(lines: Seq<Seq<char>>, v: Seq<u64>)
    requires
        counts_over(lines, CountsPhase::SeekingData, Seq::empty()) == CountsEnd::Read(v),
    ensures
        exists|i: int| counts_section_at(lines, i, v),
{
    lemma_seeking_data(lines, v);
    let i = choose|i: int|
        {
            &&& 0 <= i < lines.len()
            &&& forall|j: int| 0 <= j < i ==> trim_white(#[trigger] lines[j]).len() == 0 || trim_white(lines[j])[0] == '#'
            &&& trim_white(lines[i]) == "\\data\\"@
            &&& #[trigger] counts_over(lines.skip(i + 1), CountsPhase::ReadingCounts, Seq::empty()) == CountsEnd::Read(v)
        };
    let rest = lines.skip(i + 1);
    lemma_reading_counts(rest, Seq::empty(), v);
    assert forall|q: int| 0 <= q < v.len() implies (parsed_count_line(trim_white(#[trigger] lines[i + 1 + q]))
        matches Some((o, c)) && o == q + 1 && c == v[q]) by {
        assert(rest[q] == lines[i + 1 + q]);
    }
    assert(rest[v.len() as int] == lines[i + 1 + v.len()]);
    assert(counts_section_at(lines, i, v));
}

/// A counts section with counts `v` is read as `v`.
proof fn lemma_read_of_section(lines: Seq<Seq<char>>, i: int, v: Seq<u64>)
    requires
        counts_section_at(lines, i, v),
    ensures
        counts_over(lines, CountsPhase::SeekingData, Seq::empty()) == CountsEnd::Read(v),
{
    lemma_seeking_data(lines, v);
    let rest = lines.skip(i + 1);
    lemma_reading_counts(rest, Seq::empty(), v);
    assert(v.take(0) =~= Seq::<u64>::empty());
    assert forall|q: int| 0 <= q < v.len() - 0 implies (parsed_count_line(trim_white(#[trigger] rest[q]))
        matches Some((o, c)) && o == 0 + q + 1 && c == v[0 + q]) by {
        assert(rest[q] == lines[i + 1 + q]);
    }
    assert(rest[v.len() as int] == lines[i + 1 + v.len()]);
    assert(counts_over(rest, CountsPhase::ReadingCounts, Seq::empty()) == CountsEnd::Read(v));
}

/// Reading the counts section of the bytes from `p` gives the counts `v` exactly when their
/// lines hold a counts section with counts `v`: blank or comment lines, `\data\`, the
/// count lines `ngram 1=...`, `ngram 2=...` and so on, at least one, then a blank line.
pub proof fn law_counts_read_iff_section(data: Seq<u8>, p: int, v: Seq<u64>)
    requires
        0 <= p,
    ensures
        counts_run(data, p, CountsPhase::SeekingData, Seq::empty()).0 == CountsEnd::Read(v) <==> exists|i: int|
            counts_section_at(lines_from(data, p), i, v),
{
    let lines = lines_from(data, p);
    lemma_counts_run_over(data, p, CountsPhase::SeekingData, Seq::empty());
    if counts_over(lines, CountsPhase::SeekingData, Seq::empty()) == CountsEnd::Read(v) {
        lemma_section_of_read(lines, v);
    }
    if exists|i: int| counts_section_at(lines, i, v) {
        let i = choose|i: int| counts_section_at(lines, i, v);
        lemma_read_of_section(lines, i, v);
    }
}

/// Reads the `\data\` section of an ARPA file: the number of n-grams of each order, from the
/// unigrams up.
pub fn read_arpa_counts(f: &mut FilePiece) -> (r: Result<Vec<u64>, LMError>)
    requires
        old(f).wf(),
    ensures
        final(f).wf(),
        final(f).bytes() == old(f).bytes(),
        final(f).name() == old(f).name(),
        ({
            let (end, q) = counts_run(old(f).bytes(), old(f).pos(), CountsPhase::SeekingData, Seq::empty());
            &&& final(f).pos() == q
            &&& counts_result(&r, end)
        }),
{
    let mut state = ArpaCounts::new();
    assert(state.counts@ =~= Seq::<u64>::empty());
    loop
        invariant
            f.wf(),
            f.bytes() == old(f).bytes(),
            f.name() == old(f).name(),
            counts_run(old(f).bytes(), old(f).pos(), CountsPhase::SeekingData, Seq::empty()) == counts_run(
                f.bytes(),
                f.pos(),
                state.phase,
                state.counts@,
            ),
        decreases f.bytes().len() - f.pos(),
    {
        proof {
            f.lemma_pos_bounds();
            if f.pos() < f.bytes().len() {
                lemma_line_advances(f.bytes(), f.pos(), '\n' as u8);
            }
        }
        let line = match f.read_line('\n', true) {
            Ok(l) => l,
            Err(e) => {
                return Err(e);
            },
        };
        match state.next_line(line.as_str()) {
            CountsStep::More => {},
            CountsStep::Done(c) => {
                return Ok(c);
            },
            CountsStep::Failed(e) => {
                return Err(e);
            },
        }
    }
}

/// Whether every character of `cs` is white space.
pub open spec fn all_white(cs: Seq<char>) -> bool {
    forall|k: int| 0 <= k < cs.len() ==> is_white_space(#[trigger] cs[k])
}

/// The header line of the section of n-grams of order `length`.
pub open spec fn ngram_header(length: u32) -> Seq<char> {
    "\\"@ + decimal(length as nat) + "-grams:"@
}

/// How looking for a section header ends.
pub enum HeaderEnd {
    Found,
    EndOfFile,
    /// Another line came first (its trimmed text).
    Mismatch(Seq<char>),
}

/// What looking for the header of the `length`-grams from the line at `p` on gives (blank
/// lines are skipped), and where it stops.
pub open spec fn header_run(data: Seq<u8>, p: int, length: u32) -> (HeaderEnd, int)
    decreases data.len() - p,
{
    if p < 0 || p >= data.len() {
        (HeaderEnd::EndOfFile, p)
    } else {
        let line = line_text(data, p, '\n' as u8, true);
        let next = next_line_start(data, p, '\n' as u8);
        if all_white(line) {
            proof {
                lemma_line_advances(data, p, '\n' as u8);
            }
            header_run(data, next, length)
        } else if trim_white(line) == ngram_header(length) {
            (HeaderEnd::Found, next)
        } else {
            (HeaderEnd::Mismatch(trim_white(line)), next)
        }
    }
}

/// Reads the header line `\N-grams:` of the section of n-grams of order `length`, after any
/// blank lines.
pub fn read_ngram_header(f: &mut FilePiece, length: u32) -> (r: Result<(), LMError>)
    requires
        old(f).wf(),
    ensures
        final(f).wf(),
        final(f).bytes() == old(f).bytes(),
        final(f).name() == old(f).name(),
        ({
            let (end, q) = header_run(old(f).bytes(), old(f).pos(), length);
            &&& final(f).pos() == q
            &&& match end {
                HeaderEnd::Found => r is Ok,
                HeaderEnd::EndOfFile => r matches Err(LMError::EndOfFile),
                HeaderEnd::Mismatch(t) => r matches Err(LMError::InvalidArpa(m)) && m@ == "Expected n-gram header '"@
                    + ngram_header(length) + "' but got '"@ + t + "'"@,
            }
        }),
{
    let line: String;
    loop
        invariant
            f.wf(),
            f.bytes() == old(f).bytes(),
            f.name() == old(f).name(),
            header_run(old(f).bytes(), old(f).pos(), length) == header_run(f.bytes(), f.pos(), length),
        decreases f.bytes().len() - f.pos(),
    {
        proof {
            f.lemma_pos_bounds();
            if f.pos() < f.bytes().len() {
                lemma_line_advances(f.bytes(), f.pos(), '\n' as u8);
            }
        }
        let ghost p = f.pos();
        let l = match f.read_line('\n', true) {
            Ok(l) => l,
            Err(e) => {
                return Err(e);
            },
        };
        if !is_entirely_whitespace(l.as_str()) {
            let digits = u64_decimal(length as u64);
            let expected = quoted("\\", digits.as_str(), "-grams:");
            let actual = trim(l.as_str());
            assert(expected@ == ngram_header(length));
            if str_eq(actual, expected.as_str()) {
                return Ok(());
            }
            let mut m = quoted("Expected n-gram header '", expected.as_str(), "' but got '");
            m.append(actual);
            m.append("'");
            return Err(LMError::InvalidArpa(m));
        }
    }
}

/// How looking for the `\end\` marker ends.
pub enum EndRead {
    /// Found; the non-blank lines that follow it.
    Ended(Seq<Seq<char>>),
    EndOfFile,
    /// Another line came first (its trimmed text).
    Mismatch(Seq<char>),
}

/// The non-blank lines from the line at `p` to the end.
pub open spec fn trailing_lines(data: Seq<u8>, p: int) -> Seq<Seq<char>>
    decreases data.len() - p,
{
    if p < 0 || p >= data.len() {
        Seq::empty()
    } else {
        let line = line_text(data, p, '\n' as u8, true);
        proof {
            lemma_line_advances(data, p, '\n' as u8);
        }
        let rest = trailing_lines(data, next_line_start(data, p, '\n' as u8));
        if all_white(line) {
            rest
        } else {
            seq![line] + rest
        }
    }
}

/// What looking for `\end\` from the line at `p` on gives (blank lines are skipped; after the
/// marker the rest of the file is read), and where it stops.
pub open spec fn end_run(data: Seq<u8>, p: int) -> (EndRead, int)
    decreases data.len() - p,
{
    if p < 0 || p >= data.len() {
        (EndRead::EndOfFile, p)
    } else {
        let line = line_text(data, p, '\n' as u8, true);
        let next = next_line_start(data, p, '\n' as u8);
        if all_white(line) {
            proof {
                lemma_line_advances(data, p, '\n' as u8);
            }
            end_run(data, next)
        } else if trim_white(line) == "\\end\\"@ {
            (EndRead::Ended(trailing_lines(data, next)), data.len() as int)
        } else {
            (EndRead::Mismatch(trim_white(line)), next)
        }
    }
}

/// Reads the `\end\` marker after blank lines, then the rest of the file; gives the non-blank
/// lines after the marker, which deserve a warning.
pub fn read_end(f: &mut FilePiece) -> (r: Result<Vec<String>, LMError>)
    requires
        old(f).wf(),
    ensures
        final(f).wf(),
        final(f).bytes() == old(f).bytes(),
        final(f).name() == old(f).name(),
        ({
            let (end, q) = end_run(old(f).bytes(), old(f).pos());
            &&& final(f).pos() == q
            &&& match end {
                EndRead::Ended(ls) => r matches Ok(v) && v@.map_values(|s: String| s@) == ls,
                EndRead::EndOfFile => r matches Err(LMError::InvalidArpa(m)) && m@ == "Expected \\end\\ but got EOF"@,
                EndRead::Mismatch(t) => r matches Err(LMError::InvalidArpa(m)) && m@ == "Expected \\end\\ but got '"@
                    + t + "'"@,
            }
        }),
{
    loop
        invariant_except_break
            end_run(old(f).bytes(), old(f).pos()) == end_run(f.bytes(), f.pos()),
        invariant
            f.wf(),
            f.bytes() == old(f).bytes(),
            f.name() == old(f).name(),
        ensures
            f.wf(),
            f.bytes() == old(f).bytes(),
            f.name() == old(f).name(),
            end_run(old(f).bytes(), old(f).pos()) == (
            EndRead::Ended(trailing_lines(f.bytes(), f.pos())),
            f.bytes().len() as int,
            ),
        decreases f.bytes().len() - f.pos(),
    {
        if f.at_end() {
            return Err(LMError::InvalidArpa("Expected \\end\\ but got EOF".to_owned()));
        }
        proof {
            f.lemma_pos_bounds();
            lemma_line_advances(f.bytes(), f.pos(), '\n' as u8);
        }
        let l = match f.read_line('\n', true) {
            Ok(l) => l,
            Err(e) => {
                return Err(e);
            },
        };
        match end_line(l.as_str()) {
            EndStep::Blank => {},
            EndStep::End => {
                break;
            },
            EndStep::Failed(e) => {
                return Err(e);
            },
        }
    }
    let ghost start = f.pos();
    let mut trailing: Vec<String> = Vec::new();
    assert(trailing@.map_values(|s: String| s@) + trailing_lines(f.bytes(), f.pos()) =~= trailing_lines(f.bytes(), f.pos()));
    while !f.at_end()
        invariant
            f.wf(),
            f.bytes() == old(f).bytes(),
            f.name() == old(f).name(),
            start <= f.pos(),
            trailing_lines(f.bytes(), start) == trailing@.map_values(|s: String| s@) + trailing_lines(f.bytes(), f.pos()),
        decreases f.bytes().len() - f.pos(),
    {
        proof {
            f.lemma_pos_bounds();
            lemma_line_advances(f.bytes(), f.pos(), '\n' as u8);
        }
        let l = match f.read_line('\n', true) {
            Ok(l) => l,
            Err(e) => {
                return Err(e);
            },
        };
        let ghost before = trailing@.map_values(|s: String| s@);
        if !is_entirely_whitespace(l.as_str()) {
            trailing.push(l);
            assert(trailing@.map_values(|s: String| s@) =~= before.push(l@));
            assert(before.push(l@) + trailing_lines(f.bytes(), f.pos()) =~= before + (seq![l@] + trailing_lines(f.bytes(), f.pos())));
        }
    }
    proof {
        f.lemma_pos_bounds();
        assert(trailing@.map_values(|s: String| s@) + trailing_lines(f.bytes(), f.pos()) =~= trailing@.map_values(|s: String| s@));
    }
    Ok(trailing)
}

/// The bytes that separate the fields of an ARPA file: tab, line feed, carriage return and
/// space.
pub open spec fn is_arpa_space(i: int) -> bool {
    i == 9 || i == 10 || i == 13 || i == 32
}

/// The table of ARPA field separators, indexed by byte.
pub fn arpa_spaces() -> (r: [bool; 256])
    ensures
        forall|i: int| 0 <= i < 256 ==> r@[i] == is_arpa_space(i),
{
    let mut arr = [false; 256];
    arr[9] = true;
    arr[10] = true;
    arr[13] = true;
    arr[32] = true;
    arr
}

/// `ToString::to_string` on a `char`: std documents the result as the one-character string.
#[verifier::external_body]
fn char_text(c: char) -> (r: String)
    ensures
        r@ == seq![c],
{
    c.to_string()
}

/// The character that the byte at `p` reads as.
pub open spec fn byte_char_at(data: Seq<u8>, p: int) -> char {
    (data[p] as u32) as char
}

/// Reads the tab that follows the probability of an n-gram line.
pub fn expect_tab(f: &mut FilePiece) -> (r: Result<(), LMError>)
    requires
        old(f).wf(),
    ensures
        final(f).wf(),
        final(f).bytes() == old(f).bytes(),
        final(f).name() == old(f).name(),
        ({
            let b = old(f).bytes();
            let p = old(f).pos();
            &&& p >= b.len() ==> (r matches Err(LMError::EndOfFile) && final(f).pos() == p)
            &&& p < b.len() ==> final(f).pos() == p + 1
            &&& p < b.len() && b[p] == 9 ==> r is Ok
            &&& p < b.len() && b[p] != 9 ==> (r matches Err(LMError::InvalidArpa(m)) && m@
                == "Expected tab after probability, got '"@ + seq![byte_char_at(b, p)] + "'"@)
        }),
{
    let c = match f.get() {
        Ok(c) => c,
        Err(e) => {
            return Err(e);
        },
    };
    if c != '\t' {
        let got = char_text(c);
        return Err(LMError::InvalidArpa(quoted("Expected tab after probability, got '", got.as_str(), "'")));
    }
    Ok(())
}

/// Reads the end of a line: `\n` or `\r\n`.
fn expect_line_feed_after_cr(f: &mut FilePiece) -> (r: Result<(), LMError>)
    requires
        old(f).wf(),
    ensures
        final(f).wf(),
        final(f).bytes() == old(f).bytes(),
        final(f).name() == old(f).name(),
        ({
            let b = old(f).bytes();
            let p = old(f).pos();
            &&& p >= b.len() ==> (r matches Err(LMError::EndOfFile) && final(f).pos() == p)
            &&& p < b.len() ==> final(f).pos() == p + 1
            &&& p < b.len() && b[p] == 10 ==> r is Ok
            &&& p < b.len() && b[p] != 10 ==> (r matches Err(LMError::InvalidArpa(m)) && m@
                == "Expected newline after backoff"@)
        }),
{
    let c = match f.get() {
        Ok(c) => c,
        Err(e) => {
            return Err(e);
        },
    };
    if c != '\n' {
        return Err(LMError::InvalidArpa("Expected newline after backoff".to_owned()));
    }
    Ok(())
}

/// Reads what follows the words of an n-gram line: a tab, before a backoff weight (which the
/// caller reads), gives `true`; the end of the line (`\n` or `\r\n`), where the n-gram has no
/// backoff, gives `false`.
pub fn read_backoff_start(f: &mut FilePiece) -> (r: Result<bool, LMError>)
    requires
        old(f).wf(),
    ensures
        final(f).wf(),
        final(f).bytes() == old(f).bytes(),
        final(f).name() == old(f).name(),
        ({
            let b = old(f).bytes();
            let p = old(f).pos();
            &&& p >= b.len() ==> (r matches Err(LMError::EndOfFile) && final(f).pos() == p)
            &&& p < b.len() && b[p] == 9 ==> r == Ok::<bool, LMError>(true) && final(f).pos() == p + 1
            &&& p < b.len() && b[p] == 10 ==> r == Ok::<bool, LMError>(false) && final(f).pos() == p + 1
            &&& p < b.len() && b[p] == 13 && p + 1 >= b.len() ==> (r matches Err(LMError::EndOfFile)
                && final(f).pos() == p + 1)
            &&& p < b.len() && b[p] == 13 && p + 1 < b.len() ==> final(f).pos() == p + 2 && (if b[p + 1]
                == 10 {
                r == Ok::<bool, LMError>(false)
            } else {
                r matches Err(LMError::InvalidArpa(m)) && m@ == "Expected newline after backoff"@
            })
            &&& p < b.len() && b[p] != 9 && b[p] != 10 && b[p] != 13 ==> final(f).pos() == p + 1 && (
            r matches Err(LMError::InvalidArpa(m)) && m@ == "Expected tab or newline for backoff"@)
        }),
{
    let c = match f.get() {
        Ok(c) => c,
        Err(e) => {
            return Err(e);
        },
    };
    if c == '\t' {
        Ok(true)
    } else if c == '\r' {
        match expect_line_feed_after_cr(f) {
            Ok(()) => Ok(false),
            Err(e) => Err(e),
        }
    } else if c == '\n' {
        Ok(false)
    } else {
        Err(LMError::InvalidArpa("Expected tab or newline for backoff".to_owned()))
    }
}

/// Reads the end of the line after a backoff weight: `\n` or `\r\n`.
pub fn read_backoff_end(f: &mut FilePiece) -> (r: Result<(), LMError>)
    requires
        old(f).wf(),
    ensures
        final(f).wf(),
        final(f).bytes() == old(f).bytes(),
        final(f).name() == old(f).name(),
        ({
            let b = old(f).bytes();
            let p = old(f).pos();
            &&& p >= b.len() ==> (r matches Err(LMError::EndOfFile) && final(f).pos() == p)
            &&& p < b.len() && b[p] == 10 ==> r is Ok && final(f).pos() == p + 1
            &&& p < b.len() && b[p] == 13 && p + 1 >= b.len() ==> (r matches Err(LMError::EndOfFile)
                && final(f).pos() == p + 1)
            &&& p < b.len() && b[p] == 13 && p + 1 < b.len() ==> final(f).pos() == p + 2 && (if b[p + 1]
                == 10 {
                r is Ok
            } else {
                r matches Err(LMError::InvalidArpa(m)) && m@ == "Expected newline after backoff"@
            })
            &&& p < b.len() && b[p] != 10 && b[p] != 13 ==> final(f).pos() == p + 1 && (r matches Err(
                LMError::InvalidArpa(m),
            ) && m@ == "Expected newline after backoff, got '"@ + seq![byte_char_at(b, p)] + "'"@)
        }),
{
    let c = match f.get() {
        Ok(c) => c,
        Err(e) => {
            return Err(e);
        },
    };
    if c == '\r' {
        expect_line_feed_after_cr(f)
    } else if c == '\n' {
        Ok(())
    } else {
        let got = char_text(c);
        Err(LMError::InvalidArpa(quoted("Expected newline after backoff, got '", got.as_str(), "'")))
    }
}

/// The lenient reading of what follows the words, used when a trie is built: a tab, before a
/// backoff weight, is consumed and gives `true`; a line break byte (`\n` or `\r`) is consumed
/// and gives `false`; anything else is left in place and gives `false`.
pub fn peek_backoff_start(f: &mut FilePiece) -> (r: Result<bool, LMError>)
    requires
        old(f).wf(),
    ensures
        final(f).wf(),
        final(f).bytes() == old(f).bytes(),
        final(f).name() == old(f).name(),
        ({
            let b = old(f).bytes();
            let p = old(f).pos();
            &&& p >= b.len() ==> (r matches Err(LMError::EndOfFile) && final(f).pos() == p)
            &&& p < b.len() && b[p] == 9 ==> r == Ok::<bool, LMError>(true) && final(f).pos() == p + 1
            &&& p < b.len() && (b[p] == 10 || b[p] == 13) ==> r == Ok::<bool, LMError>(false) && final(f).pos()
                == p + 1
            &&& p < b.len() && b[p] != 9 && b[p] != 10 && b[p] != 13 ==> r == Ok::<bool, LMError>(false)
                && final(f).pos() == p
        }),
{
    let c = match f.peek() {
        Ok(c) => c,
        Err(e) => {
            return Err(e);
        },
    };
    if c == '\t' {
        let _ = f.get();
        Ok(true)
    } else if c == '\n' || c == '\r' {
        let _ = f.get();
        Ok(false)
    } else {
        Ok(false)
    }
}

/// Reads the line break byte (`\n` or `\r`) after a backoff weight, in the lenient reading.
pub fn expect_line_break(f: &mut FilePiece) -> (r: Result<(), LMError>)
    requires
        old(f).wf(),
    ensures
        final(f).wf(),
        final(f).bytes() == old(f).bytes(),
        final(f).name() == old(f).name(),
        ({
            let b = old(f).bytes();
            let p = old(f).pos();
            &&& p >= b.len() ==> (r matches Err(LMError::EndOfFile) && final(f).pos() == p)
            &&& p < b.len() ==> final(f).pos() == p + 1
            &&& p < b.len() && (b[p] == 10 || b[p] == 13) ==> r is Ok
            &&& p < b.len() && b[p] != 10 && b[p] != 13 ==> (r matches Err(LMError::InvalidArpa(m)) && m@
                == "Expected newline after backoff"@)
        }),
{
    let c = match f.get() {
        Ok(c) => c,
        Err(e) => {
            return Err(e);
        },
    };
    if c != '\n' && c != '\r' {
        return Err(LMError::InvalidArpa("Expected newline after backoff".to_owned()));
    }
    Ok(())
}

/// Checks a word of an n-gram line against the index it was given: a word that maps to the
/// unknown word (index 0) must be `<unk>` or `<UNK>`.
pub fn check_ngram_word(word: &str, index: WordIndex, n: u8) -> (r: Result<(), LMError>)
    ensures
        index == 0 && word@ != "<unk>"@ && word@ != "<UNK>"@ ==> (r matches Err(LMError::InvalidArpa(m))
            && m@ == "Word '"@ + word@ + "' was not seen in the unigrams but appears in "@ + decimal(n as nat)
            + "-gram"@),
        !(index == 0 && word@ != "<unk>"@ && word@ != "<UNK>"@) ==> r is Ok,
{
    if index == 0 && !str_eq(word, "<unk>") && !str_eq(word, "<UNK>") {
        let digits = u64_decimal(n as u64);
        let mut m = quoted("Word '", word, "' was not seen in the unigrams but appears in ");
        m.append(digits.as_str());
        m.append("-gram");
        return Err(LMError::InvalidArpa(m));
    }
    Ok(())
}

/// The text before and after the only `=` of `rem`, when it has exactly one.
fn split_at_only_eq<'a>(rem: &'a str) -> (r: Option<(&'a str, &'a str)>)
    ensures
        r is None <==> count_line_parts(rem@) is None,
        r matches Some((a, b)) ==> count_line_parts(rem@) == Some((a@, b@)),
{
    let m = rem.unicode_len();
    let k = match find_char_from(rem, '=', 0) {
        Some(k) => k,
        None => {
            return None;
        },
    };
    if let Some(k2) = find_char_from(rem, '=', k + 1) {
        proof {
            if exists|q: int| 0 <= q < rem@.len() && rem@[q] == '=' && forall|j: int|
                0 <= j < rem@.len() && j != q ==> rem@[j] != '=' {
                let q = choose|q: int| 0 <= q < rem@.len() && rem@[q] == '=' && forall|j: int|
                    0 <= j < rem@.len() && j != q ==> rem@[j] != '=';
                assert(rem@[k as int] == '=' && rem@[k2 as int] == '=');
            }
        }
        return None;
    }
    let left = rem.substring_char(0, k);
    let right = rem.substring_char(k + 1, m);
    proof {
        assert(forall|j: int| 0 <= j < rem@.len() && j != k ==> rem@[j] != '=');
        let q = choose|q: int| 0 <= q < rem@.len() && rem@[q] == '=' && forall|j: int|
            0 <= j < rem@.len() && j != q ==> rem@[j] != '=';
        assert(q == k);
        assert(left@ =~= rem@.take(k as int));
        assert(right@ =~= rem@.skip(k + 1));
    }
    Some((left, right))
}

/// How a line after the n-gram sections is taken while looking for `\end\`.
#[derive(Debug, PartialEq, Eq)]
pub enum EndStep {
    /// A blank line: hand over the next one.
    Blank,
    /// The `\end\` line.
    End,
    /// Anything else.
    Failed(LMError),
}

/// Takes a line while looking for the `\end\` marker: blank lines are skipped, the
/// trimmed line must then be `\end\`.
pub fn end_line(line: &str) -> (r: EndStep)
    ensures
        (forall|k: int| 0 <= k < line@.len() ==> crate::text::is_white_space(#[trigger] line@[k])) ==> r is Blank,
        !(forall|k: int| 0 <= k < line@.len() ==> crate::text::is_white_space(#[trigger] line@[k])) ==> if trim_white(line@)
            == "\\end\\"@ {
            r is End
        } else {
            r matches EndStep::Failed(LMError::InvalidArpa(m)) && m@ == "Expected \\end\\ but got '"@ + trim_white(
                line@,
            ) + "'"@
        },
{
    if is_entirely_whitespace(line) {
        return EndStep::Blank;
    }
    let t = trim(line);
    if str_eq(t, "\\end\\") {
        EndStep::End
    } else {
        EndStep::Failed(LMError::InvalidArpa(quoted("Expected \\end\\ but got '", t, "'")))
    }
}

/// Warns about positive log probabilities, as its action says.
#[derive(Debug)]
pub struct PositiveProbWarn {
    pub action: WarningAction,
    /// Whether the warning was given already.
    pub warned: bool,
}

impl PositiveProbWarn {
    pub fn new(action: WarningAction) -> (r: Self)
        ensures
            r.action == action,
            !r.warned,
    {
        PositiveProbWarn { action, warned: false }
    }
}


/// Whether every line of `ls` is blank.
pub open spec fn all_blank(ls: Seq<Seq<char>>) -> bool {
    forall|j: int| 0 <= j < ls.len() ==> all_white(#[trigger] ls[j])
}

/// Whether the first non-blank line of `ls` trims to `t`.
pub open spec fn first_nonblank_is(ls: Seq<Seq<char>>, t: Seq<char>) -> bool {
    exists|k: int|
        0 <= k < ls.len() && (forall|j: int| 0 <= j < k ==> all_white(#[trigger] ls[j])) && !all_white(
            #[trigger] ls[k],
        ) && trim_white(ls[k]) == t
}

proof fn lemma_blank_head(line: Seq<char>, rest: Seq<Seq<char>>, t: Seq<char>)
    requires
        all_white(line),
    ensures
        first_nonblank_is(seq![line] + rest, t) == first_nonblank_is(rest, t),
        all_blank(seq![line] + rest) == all_blank(rest),
{
    let ls = seq![line] + rest;
    assert(ls[0] == line);
    assert forall|j: int| 0 <= j < rest.len() implies ls[j + 1] == rest[j] by {}
    if first_nonblank_is(ls, t) {
        let k = choose|k: int|
            0 <= k < ls.len() && (forall|j: int| 0 <= j < k ==> all_white(#[trigger] ls[j])) && !all_white(
                #[trigger] ls[k],
            ) && trim_white(ls[k]) == t;
        assert(k >= 1);
        assert(ls[k] == rest[k - 1]);
        assert forall|j: int| 0 <= j < k - 1 implies all_white(#[trigger] rest[j]) by {
            assert(ls[j + 1] == rest[j]);
        }
        assert(first_nonblank_is(rest, t));
    }
    if first_nonblank_is(rest, t) {
        let k = choose|k: int|
            0 <= k < rest.len() && (forall|j: int| 0 <= j < k ==> all_white(#[trigger] rest[j])) && !all_white(
                #[trigger] rest[k],
            ) && trim_white(rest[k]) == t;
        assert(ls[k + 1] == rest[k]);
        assert forall|j: int| 0 <= j < k + 1 implies all_white(#[trigger] ls[j]) by {
            if j > 0 {
                assert(ls[j] == rest[j - 1]);
            }
        }
        assert(first_nonblank_is(ls, t));
    }
    if all_blank(rest) {
        assert forall|j: int| 0 <= j < ls.len() implies all_white(#[trigger] ls[j]) by {
            if j > 0 {
                assert(ls[j] == rest[j - 1]);
            }
        }
    }
    if all_blank(ls) {
        assert forall|j: int| 0 <= j < rest.len() implies all_white(#[trigger] rest[j]) by {
            assert(ls[j + 1] == rest[j]);
        }
    }
}

proof fn lemma_nonblank_head(line: Seq<char>, rest: Seq<Seq<char>>, t: Seq<char>)
    requires
        !all_white(line),
    ensures
        first_nonblank_is(seq![line] + rest, t) == (trim_white(line) == t),
        !all_blank(seq![line] + rest),
{
    let ls = seq![line] + rest;
    assert(ls[0] == line);
    if trim_white(line) == t {
        assert(forall|j: int| 0 <= j < 0 ==> all_white(#[trigger] ls[j]));
        assert(first_nonblank_is(ls, t));
    }
    if first_nonblank_is(ls, t) {
        let k = choose|k: int|
            0 <= k < ls.len() && (forall|j: int| 0 <= j < k ==> all_white(#[trigger] ls[j])) && !all_white(
                #[trigger] ls[k],
            ) && trim_white(ls[k]) == t;
        if k > 0 {
            assert(all_white(ls[0]));
        }
    }
}

/// Looking for the header of the `length`-grams succeeds exactly when the first non-blank
/// line from `p` on trims to `\N-grams:`, and meets the end of the file exactly when every
/// line left is blank.
pub proof fn law_ngram_header_is_first_nonblank_line(data: Seq<u8>, p: int, length: u32)
    requires
        0 <= p,
    ensures
        (header_run(data, p, length).0 is Found) == first_nonblank_is(lines_from(data, p), ngram_header(length)),
        (header_run(data, p, length).0 is EndOfFile) == all_blank(lines_from(data, p)),
    decreases data.len() - p,
{
    if p < data.len() {
        lemma_line_advances(data, p, '\n' as u8);
        let line = line_text(data, p, '\n' as u8, true);
        let next = next_line_start(data, p, '\n' as u8);
        assert(lines_from(data, p) == seq![line] + lines_from(data, next));
        if all_white(line) {
            law_ngram_header_is_first_nonblank_line(data, next, length);
            lemma_blank_head(line, lines_from(data, next), ngram_header(length));
        } else {
            lemma_nonblank_head(line, lines_from(data, next), ngram_header(length));
        }
    }
}

/// Looking for `\end\` succeeds exactly when the first non-blank line from `p` on trims to
/// `\end\`, and meets the end of the file exactly when every line left is blank.
pub proof fn law_end_is_first_nonblank_line(data: Seq<u8>, p: int)
    requires
        0 <= p,
    ensures
        (end_run(data, p).0 is Ended) == first_nonblank_is(lines_from(data, p), "\\end\\"@),
        (end_run(data, p).0 is EndOfFile) == all_blank(lines_from(data, p)),
    decreases data.len() - p,
{
    if p < data.len() {
        lemma_line_advances(data, p, '\n' as u8);
        let line = line_text(data, p, '\n' as u8, true);
        let next = next_line_start(data, p, '\n' as u8);
        assert(lines_from(data, p) == seq![line] + lines_from(data, next));
        if all_white(line) {
            law_end_is_first_nonblank_line(data, next);
            lemma_blank_head(line, lines_from(data, next), "\\end\\"@);
        } else {
            lemma_nonblank_head(line, lines_from(data, next), "\\end\\"@);
        }
    }
}
} // verus!
