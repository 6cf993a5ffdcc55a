//! Byte and string helpers shared by the text-handling modules.
use vstd::prelude::*;
use vstd::string::{StrSliceExecFns, StringSliceAdditionalSpecFns};
use vstd::utf8::{encode_utf8, encode_utf8_decode_utf8};

verus! {

/// Whether two byte slices hold the same bytes.
pub fn bytes_eq(a: &[u8], b: &[u8]) -> (r: bool)
    ensures
        r == (a@ == b@),
{
    if a.len() != b.len() {
        return false;
    }
    let mut i: usize = 0;
    while i < a.len()
        invariant
            a@.len() == b@.len(),
            i <= a@.len(),
            forall|k: int| 0 <= k < i ==> a@[k] == b@[k],
        decreases a@.len() - i,
    {
        if a[i] != b[i] {
            return false;
        }
        i = i + 1;
    }
    assert(a@ =~= b@);
    true
}

/// UTF-8 encoding is injective: strings with the same bytes have the same characters.
pub proof fn lemma_encode_utf8_injective(a: Seq<char>, b: Seq<char>)
    ensures
        (encode_utf8(a) == encode_utf8(b)) == (a == b),
{
    encode_utf8_decode_utf8(a);
    encode_utf8_decode_utf8(b);
}

/// Whether two strings hold the same characters.
pub fn str_eq(a: &str, b: &str) -> (r: bool)
    ensures
        r == (a@ == b@),
{
    let r = bytes_eq(a.as_bytes(), b.as_bytes());
    proof {
        lemma_encode_utf8_injective(a@, b@);
    }
    r
}

/// Whether `c` has the Unicode White_Space property, the characters that
/// `char::is_whitespace` accepts.
pub open spec fn is_white_space(c: char) -> bool {
    let u = c as u32;
    ||| 0x09 <= u <= 0x0D
    ||| u == 0x20
    ||| u == 0x85
    ||| u == 0xA0
    ||| u == 0x1680
    ||| 0x2000 <= u <= 0x200A
    ||| u == 0x2028
    ||| u == 0x2029
    ||| u == 0x202F
    ||| u == 0x205F
    ||| u == 0x3000
}

/// Whether `c` is a white-space character.
pub fn is_whitespace(c: char) -> (r: bool)
    ensures
        r == is_white_space(c),
{
    let u = c as u32;
    (0x09 <= u && u <= 0x0D) || u == 0x20 || u == 0x85 || u == 0xA0 || u == 0x1680 || (0x2000 <= u
        && u <= 0x200A) || u == 0x2028 || u == 0x2029 || u == 0x202F || u == 0x205F || u == 0x3000
}

/// Number of characters before the first white space of `cs` (all of them when there is
/// none).
pub open spec fn first_white(cs: Seq<char>) -> nat
    decreases cs.len(),
{
    if cs.len() == 0 || is_white_space(cs[0]) {
        0
    } else {
        1 + first_white(cs.drop_first())
    }
}

/// `first_white` counts at most all the characters.
pub proof fn lemma_first_white_bound(cs: Seq<char>)
    ensures
        first_white(cs) <= cs.len(),
    decreases cs.len(),
{
    if cs.len() > 0 && !is_white_space(cs[0]) {
        lemma_first_white_bound(cs.drop_first());
    }
}

/// The first white space of `cs` is at `m` when none comes before and one (or the end) is
/// at `m`.
pub proof fn lemma_first_white_at(cs: Seq<char>, m: int)
    requires
        0 <= m <= cs.len(),
        forall|k: int| 0 <= k < m ==> !is_white_space(cs[k]),
        m == cs.len() || is_white_space(cs[m]),
    ensures
        first_white(cs) == m,
    decreases m,
{
    if m > 0 {
        lemma_first_white_at(cs.drop_first(), m - 1);
    }
}

/// The maximal runs of characters other than white space, in order: what
/// `str::split_whitespace` yields.
pub open spec fn white_split(cs: Seq<char>) -> Seq<Seq<char>>
    decreases cs.len(),
{
    if cs.len() == 0 {
        Seq::empty()
    } else if is_white_space(cs[0]) {
        white_split(cs.drop_first())
    } else {
        let n = first_white(cs);
        proof {
            lemma_first_white_bound(cs);
        }
        seq![cs.take(n as int)] + white_split(cs.skip(n as int))
    }
}

/// The words of `s`: its maximal runs of characters other than white space.
pub fn split_whitespace<'a>(s: &'a str) -> (r: Vec<&'a str>)
    ensures
        r@.map_values(|t: &str| t@) == white_split(s@),
{
    let n = s.unicode_len();
    let mut out: Vec<&'a str> = Vec::new();
    let mut i: usize = 0;
    assert(s@.skip(0) =~= s@);
    while i < n
        invariant
            n == s@.len(),
            i <= n,
            out@.map_values(|t: &str| t@) + white_split(s@.skip(i as int)) == white_split(s@),
        decreases n - i,
    {
        let ghost rest = s@.skip(i as int);
        if is_whitespace(s.get_char(i)) {
            assert(rest.drop_first() =~= s@.skip(i + 1));
            i = i + 1;
        } else {
            let mut j: usize = i + 1;
            loop
                invariant
                    n == s@.len(),
                    i < j <= n,
                    forall|k: int| i <= k < j ==> !is_white_space(s@[k]),
                ensures
                    i < j <= n,
                    forall|k: int| i <= k < j ==> !is_white_space(s@[k]),
                    j == n || is_white_space(s@[j as int]),
                decreases n - j,
            {
                if j == n {
                    break;
                }
                if is_whitespace(s.get_char(j)) {
                    break;
                }
                j = j + 1;
            }
            let word = s.substring_char(i, j);
            let ghost before = out@;
            out.push(word);
            proof {
                lemma_first_white_at(rest, j - i);
                assert(rest.take(j - i) =~= word@);
                assert(rest.skip(j - i) =~= s@.skip(j as int));
                assert(out@.map_values(|t: &str| t@) =~= before.map_values(|t: &str| t@).push(word@));
                assert(white_split(rest) == seq![word@] + white_split(s@.skip(j as int)));
                assert(out@.map_values(|t: &str| t@) + white_split(s@.skip(j as int)) =~= before.map_values(
                    |t: &str| t@,
                ) + white_split(rest));
            }
            i = j;
        }
    }
    assert(s@.skip(n as int) =~= Seq::<char>::empty());
    assert(out@.map_values(|t: &str| t@) =~= white_split(s@));
    out
}

/// Number of white-space characters that begin `cs`.
pub open spec fn lead_white(cs: Seq<char>) -> nat
    decreases cs.len(),
{
    if cs.len() > 0 && is_white_space(cs[0]) {
        1 + lead_white(cs.drop_first())
    } else {
        0
    }
}

/// Length of `cs` without the white-space characters that end it.
pub open spec fn keep_before_trailing_white(cs: Seq<char>) -> nat
    decreases cs.len(),
{
    if cs.len() > 0 && is_white_space(cs.last()) {
        keep_before_trailing_white(cs.drop_last())
    } else {
        cs.len()
    }
}

/// `cs` without leading and trailing white space: what `str::trim` gives.
pub open spec fn trim_white(cs: Seq<char>) -> Seq<char> {
    let lo = lead_white(cs) as int;
    let hi = keep_before_trailing_white(cs) as int;
    if lo >= hi {
        Seq::empty()
    } else {
        cs.subrange(lo, hi)
    }
}

/// `cs` without leading white space: what `str::trim_start` gives.
pub open spec fn trim_white_start(cs: Seq<char>) -> Seq<char> {
    cs.skip(lead_white(cs) as int)
}

/// Leading white space ends at `m` when every character before `m` is white space and the
/// one at `m` (if any) is not.
proof fn lemma_lead_white_at(cs: Seq<char>, m: int)
    requires
        0 <= m <= cs.len(),
        forall|k: int| 0 <= k < m ==> is_white_space(cs[k]),
        m == cs.len() || !is_white_space(cs[m]),
    ensures
        lead_white(cs) == m,
    decreases m,
{
    if m > 0 {
        lemma_lead_white_at(cs.drop_first(), m - 1);
    }
}

/// Trailing white space begins at `m` when every character from `m` on is white space and
/// the one before `m` (if any) is not.
proof fn lemma_trailing_white_at(cs: Seq<char>, m: int)
    requires
        0 <= m <= cs.len(),
        forall|k: int| m <= k < cs.len() ==> is_white_space(cs[k]),
        m == 0 || !is_white_space(cs[m - 1]),
    ensures
        keep_before_trailing_white(cs) == m,
    decreases cs.len() - m,
{
    if m < cs.len() {
        lemma_trailing_white_at(cs.drop_last(), m);
    }
}

/// Number of white-space characters that begin `s`.
fn count_lead_white(s: &str) -> (r: usize)
    ensures
        r == lead_white(s@),
        r <= s@.len(),
{
    let n = s.unicode_len();
    let mut i: usize = 0;
    loop
        invariant
            n == s@.len(),
            i <= n,
            forall|k: int| 0 <= k < i ==> is_white_space(s@[k]),
        ensures
            i <= n,
            forall|k: int| 0 <= k < i ==> is_white_space(s@[k]),
            i == n || !is_white_space(s@[i as int]),
        decreases n - i,
    {
        if i == n {
            break;
        }
        if !is_whitespace(s.get_char(i)) {
            break;
        }
        i = i + 1;
    }
    proof {
        lemma_lead_white_at(s@, i as int);
    }
    i
}

/// `s` without leading and trailing white space.
pub fn trim<'a>(s: &'a str) -> (r: &'a str)
    ensures
        r@ == trim_white(s@),
{
    let n = s.unicode_len();
    let lo = count_lead_white(s);
    let mut hi: usize = n;
    loop
        invariant
            n == s@.len(),
            hi <= n,
            forall|k: int| hi <= k < n ==> is_white_space(s@[k]),
        ensures
            hi <= n,
            forall|k: int| hi <= k < n ==> is_white_space(s@[k]),
            hi == 0 || !is_white_space(s@[hi - 1]),
        decreases hi,
    {
        if hi == 0 {
            break;
        }
        if !is_whitespace(s.get_char(hi - 1)) {
            break;
        }
        hi = hi - 1;
    }
    proof {
        lemma_trailing_white_at(s@, hi as int);
    }
    if lo >= hi {
        let e = s.substring_char(0, 0);
        assert(e@ =~= Seq::<char>::empty());
        e
    } else {
        s.substring_char(lo, hi)
    }
}

/// `s` without leading white space.
pub fn trim_start<'a>(s: &'a str) -> (r: &'a str)
    ensures
        r@ == trim_white_start(s@),
{
    let n = s.unicode_len();
    let lo = count_lead_white(s);
    let r = s.substring_char(lo, n);
    assert(r@ =~= trim_white_start(s@));
    r
}

/// Whether every character of `s` is white space.
pub fn is_entirely_whitespace(s: &str) -> (r: bool)
    ensures
        r == forall|k: int| 0 <= k < s@.len() ==> is_white_space(s@[k]),
{
    let n = s.unicode_len();
    let lo = count_lead_white(s);
    proof {
        lemma_lead_white_stops(s@);
    }
    lo == n
}

/// The first character after the leading white space is not white space.
proof fn lemma_lead_white_stops(cs: Seq<char>)
    ensures
        lead_white(cs) <= cs.len(),
        forall|k: int| 0 <= k < lead_white(cs) ==> is_white_space(cs[k]),
        lead_white(cs) < cs.len() ==> !is_white_space(cs[lead_white(cs) as int]),
    decreases cs.len(),
{
    if cs.len() > 0 && is_white_space(cs[0]) {
        lemma_lead_white_stops(cs.drop_first());
        assert forall|k: int| 0 <= k < lead_white(cs) implies is_white_space(cs[k]) by {
            if k > 0 {
                assert(cs[k] == cs.drop_first()[k - 1]);
            }
        }
    }
}

/// Value of a string of decimal digits.
pub open spec fn digits_value(ds: Seq<char>) -> nat
    decreases ds.len(),
{
    if ds.len() == 0 {
        0
    } else {
        digits_value(ds.drop_last()) * 10 + ((ds.last() as u32) - ('0' as u32)) as nat
    }
}

/// Whether every character is a decimal digit.
pub open spec fn all_digits(ds: Seq<char>) -> bool {
    forall|k: int| 0 <= k < ds.len() ==> '0' <= #[trigger] ds[k] <= '9'
}

/// What parsing `cs` as a `u64` gives: an optional `+`, then at least one decimal digit, and
/// a value that fits.
pub open spec fn parse_u64_spec(cs: Seq<char>) -> Option<u64> {
    let ds = if cs.len() > 0 && cs[0] == '+' {
        cs.drop_first()
    } else {
        cs
    };
    if ds.len() > 0 && all_digits(ds) && digits_value(ds) <= u64::MAX {
        Some(digits_value(ds) as u64)
    } else {
        None
    }
}

/// Appending digits never lowers the value.
proof fn lemma_digits_value_prefix(ds: Seq<char>, k: int)
    requires
        0 <= k <= ds.len(),
        all_digits(ds),
    ensures
        digits_value(ds.take(k)) <= digits_value(ds),
    decreases ds.len() - k,
{
    if k < ds.len() {
        lemma_digits_value_prefix(ds, k + 1);
        assert(ds.take(k + 1).drop_last() =~= ds.take(k));
    } else {
        assert(ds.take(k) =~= ds);
    }
}

/// Parses `s` as a decimal `u64`, as `str::parse::<u64>` does.
pub fn parse_u64(s: &str) -> (r: Option<u64>)
    ensures
        r == parse_u64_spec(s@),
{
    let n = s.unicode_len();
    let mut i: usize = 0;
    if n > 0 && s.get_char(0) == '+' {
        i = 1;
    }
    let ghost ds = if s@.len() > 0 && s@[0] == '+' {
        s@.drop_first()
    } else {
        s@
    };
    assert(ds =~= s@.skip(i as int));
    if i == n {
        return None;
    }
    let start = i;
    let mut acc: u64 = 0;
    while i < n
        invariant
            n == s@.len(),
            start <= i <= n,
            ds =~= s@.skip(start as int),
            ds == (if s@.len() > 0 && s@[0] == '+' {
                s@.drop_first()
            } else {
                s@
            }),
            all_digits(ds.take(i - start)),
            acc == digits_value(ds.take(i - start)),
        decreases n - i,
    {
        let c = s.get_char(i);
        if c < '0' || c > '9' {
            assert(!all_digits(ds)) by {
                assert(ds[i - start] == c);
            }
            return None;
        }
        let d = (c as u32 - '0' as u32) as u64;
        proof {
            assert(ds.take(i + 1 - start).drop_last() =~= ds.take(i - start));
            assert(ds.take(i + 1 - start).last() == c);
        }
        let next = match acc.checked_mul(10) {
            Some(m) => m.checked_add(d),
            None => None,
        };
        match next {
            Some(v) => {
                acc = v;
            },
            None => {
                proof {
                    assert(digits_value(ds.take(i + 1 - start)) > u64::MAX);
                    let rest_digits = forall|k: int| 0 <= k < ds.len() ==> '0' <= #[trigger] ds[k] <= '9';
                    if rest_digits {
                        lemma_digits_value_prefix(ds, i + 1 - start);
                    }
                }
                return None;
            },
        }
        i = i + 1;
    }
    assert(ds.take(n - start) =~= ds);
    Some(acc)
}

/// Index of the first `c` in `cs` at or after `from`, or `None`.
pub open spec fn first_char_at(cs: Seq<char>, c: char, from: int, r: Option<usize>) -> bool {
    match r {
        Some(k) => from <= k < cs.len() && cs[k as int] == c && forall|j: int| from <= j < k ==> cs[j] != c,
        None => forall|j: int| from <= j < cs.len() ==> cs[j] != c,
    }
}

/// Character index of the first `c` in `s` at or after character `from`.
pub fn find_char_from(s: &str, c: char, from: usize) -> (r: Option<usize>)
    ensures
        first_char_at(s@, c, from as int, r),
{
    let n = s.unicode_len();
    let mut i = from;
    while i < n
        invariant
            n == s@.len(),
            from <= i,
            forall|j: int| from <= j < i ==> s@[j] != c,
        decreases n - i,
    {
        if s.get_char(i) == c {
            return Some(i);
        }
        i = i + 1;
    }
    None
}

/// The line that `cs` holds when it ends at a line feed or at the end of the text: without
/// the line feed, and then without a carriage return that ends it.
pub open spec fn strip_line_end(cs: Seq<char>, had_feed: bool) -> Seq<char> {
    if had_feed && cs.len() > 0 && cs.last() == '\r' {
        cs.drop_last()
    } else {
        cs
    }
}

/// The lines of `cs`, as `str::lines` yields them: split after each line feed, each line
/// without its line feed and without a carriage return just before it; no empty line after
/// a final line feed.
#[verifier::opaque]
pub open spec fn text_lines(cs: Seq<char>) -> Seq<Seq<char>>
    decreases cs.len(),
{
    if cs.len() == 0 {
        Seq::empty()
    } else if exists|k: int| 0 <= k < cs.len() && cs[k] == '\n' {
        let k = choose|k: int|
            0 <= k < cs.len() && cs[k] == '\n' && forall|j: int| 0 <= j < k ==> cs[j] != '\n';
        if 0 <= k < cs.len() {
            seq![strip_line_end(cs.take(k), true)] + text_lines(cs.skip(k + 1))
        } else {
            Seq::empty()
        }
    } else {
        seq![cs]
    }
}

/// The first line feed of `cs` is the one that `text_lines` cuts at.
proof fn lemma_first_feed(cs: Seq<char>, k: int)
    requires
        0 <= k < cs.len(),
        cs[k] == '\n',
        forall|j: int| 0 <= j < k ==> cs[j] != '\n',
    ensures
        text_lines(cs) == seq![strip_line_end(cs.take(k), true)] + text_lines(cs.skip(k + 1)),
{
    reveal(text_lines);
    let k2 = choose|k2: int|
        0 <= k2 < cs.len() && cs[k2] == '\n' && forall|j: int| 0 <= j < k2 ==> cs[j] != '\n';
    assert(0 <= k2 < cs.len() && cs[k2] == '\n' && forall|j: int| 0 <= j < k2 ==> cs[j] != '\n');
    if k2 < k {
        assert(cs[k2] != '\n');
    }
    if k < k2 {
        assert(cs[k] != '\n');
    }
}

/// A line that ends at the line feed `k` is followed by the lines after it.
proof fn lemma_lines_step(cs: Seq<char>, i: int, k: int, line: Seq<char>)
    requires
        0 <= i <= k < cs.len(),
        cs[k] == '\n',
        forall|j: int| i <= j < k ==> cs[j] != '\n',
        line == (if k > i && cs[k - 1] == '\r' {
            cs.subrange(i, k - 1)
        } else {
            cs.subrange(i, k)
        }),
    ensures
        text_lines(cs.skip(i)) == seq![line] + text_lines(cs.skip(k + 1)),
{
    let rest = cs.skip(i);
    lemma_first_feed(rest, k - i);
    assert(rest.skip(k - i + 1) =~= cs.skip(k + 1));
    assert(line =~= strip_line_end(rest.take(k - i), true));
}

/// Text without a line feed is one line.
proof fn lemma_lines_last(cs: Seq<char>, i: int)
    requires
        0 <= i < cs.len(),
        forall|j: int| i <= j < cs.len() ==> cs[j] != '\n',
    ensures
        text_lines(cs.skip(i)) == seq![cs.subrange(i, cs.len() as int)],
{
    reveal(text_lines);
    let rest = cs.skip(i);
    assert(!exists|k: int| 0 <= k < rest.len() && rest[k] == '\n') by {
        if exists|k: int| 0 <= k < rest.len() && rest[k] == '\n' {
            let k = choose|k: int| 0 <= k < rest.len() && rest[k] == '\n';
            assert(cs[i + k] == '\n');
        }
    }
    assert(rest =~= cs.subrange(i, cs.len() as int));
}

/// The lines of `s`.
pub fn lines<'a>(s: &'a str) -> (r: Vec<&'a str>)
    ensures
        r@.map_values(|t: &str| t@) == text_lines(s@),
{
    let n = s.unicode_len();
    let mut out: Vec<&'a str> = Vec::new();
    let mut i: usize = 0;
    assert(s@.skip(0) =~= s@);
    while i < n
        invariant
            n == s@.len(),
            i <= n,
            out@.map_values(|t: &str| t@) + text_lines(s@.skip(i as int)) == text_lines(s@),
        decreases n - i,
    {
        let ghost before = out@.map_values(|t: &str| t@);
        let found = find_char_from(s, '\n', i);
        let (line, next) = match found {
            Some(k) => {
                let end = if k > i && s.get_char(k - 1) == '\r' { k - 1 } else { k };
                (s.substring_char(i, end), k + 1)
            },
            None => (s.substring_char(i, n), n),
        };
        out.push(line);
        proof {
            match found {
                Some(k) => lemma_lines_step(s@, i as int, k as int, line@),
                None => {
                    lemma_lines_last(s@, i as int);
                    assert(s@.skip(n as int) =~= Seq::<char>::empty());
                    reveal(text_lines);
                },
            }
            assert(out@.map_values(|t: &str| t@) =~= before.push(line@));
            assert(before.push(line@) + text_lines(s@.skip(next as int)) =~= before + (seq![line@]
                + text_lines(s@.skip(next as int))));
        }
        i = next;
    }
    assert(s@.skip(n as int) =~= Seq::<char>::empty());
    assert(text_lines(Seq::<char>::empty()) == Seq::<Seq<char>>::empty()) by {
        reveal(text_lines);
    }
    assert(out@.map_values(|t: &str| t@) =~= text_lines(s@));
    out
}

} // verus!
