//! Filtering the n-grams of a model by vocabulary.
use vstd::prelude::*;
use vstd::string::{StrSliceExecFns, StringExecFns};
use crate::constant::FilterMode;
use crate::text::{find_char_from, first_char_at, lines, split_whitespace, str_eq, text_lines, trim_start, trim_white_start, white_split};

verus! {

/// The characters of each string.
pub open spec fn string_views(v: Seq<String>) -> Seq<Seq<char>> {
    v.map_values(|w: String| w@)
}

/// Decides whether an n-gram line passes.
pub trait Filter {
    /// Whether the line `ngram` passes.
    spec fn passes(&self, ngram: Seq<char>) -> bool;

    fn filter_ngram(&self, ngram: &str) -> (r: bool)
        ensures
            r == self.passes(ngram@),
    ;
}

/// Passes every line.
pub struct CopyFilter;

impl Filter for CopyFilter {
    open spec fn passes(&self, ngram: Seq<char>) -> bool {
        true
    }

    fn filter_ngram(&self, _ngram: &str) -> (r: bool) {
        true
    }
}

/// The characters of `cs` before the first `c` (all of them when there is none).
pub open spec fn take_until(cs: Seq<char>, c: char) -> Seq<char>
    decreases cs.len(),
{
    if cs.len() == 0 || cs[0] == c {
        Seq::empty()
    } else {
        seq![cs[0]] + take_until(cs.drop_first(), c)
    }
}

/// `take_until` stops at the first `c`.
pub proof fn lemma_take_until(cs: Seq<char>, c: char, k: int)
    requires
        0 <= k <= cs.len(),
        forall|j: int| 0 <= j < k ==> cs[j] != c,
        k == cs.len() || cs[k] == c,
    ensures
        take_until(cs, c) == cs.take(k),
    decreases k,
{
    if k > 0 {
        lemma_take_until(cs.drop_first(), c, k - 1);
        assert(seq![cs[0]] + cs.drop_first().take(k - 1) =~= cs.take(k));
    } else {
        assert(cs.take(0) =~= Seq::<char>::empty());
    }
}

/// The words part of an n-gram line: the text between the first and the second tab, or the
/// whole line when it has no tab.
pub open spec fn words_field(cs: Seq<char>) -> Seq<char> {
    if cs.contains('\t') {
        let before = take_until(cs, '\t');
        take_until(cs.skip(before.len() as int + 1), '\t')
    } else {
        cs
    }
}

/// Whether the words of an n-gram line are known: there is at least one word, and every
/// word (but the last, when only the context is checked and there are several) is in
/// `vocab`.
pub open spec fn vocab_passes(vocab: Set<Seq<char>>, context_only: bool, ngram: Seq<char>) -> bool {
    let ws = white_split(words_field(ngram));
    let checked = if context_only && ws.len() > 1 {
        ws.len() - 1
    } else {
        ws.len() as int
    };
    ws.len() > 0 && forall|i: int| 0 <= i < checked ==> vocab.contains(#[trigger] ws[i])
}

/// Passes the n-gram lines whose words are all in a vocabulary.
pub struct VocabFilter {
    vocab: Vec<String>,
    context_only: bool,
}

impl VocabFilter {
    /// The accepted words.
    pub closed spec fn words(&self) -> Set<Seq<char>> {
        string_views(self.vocab@).to_set()
    }

    /// Whether only the context words (all but the last) are checked.
    pub closed spec fn spec_context_only(&self) -> bool {
        self.context_only
    }

    /// A filter accepting `words`.
    pub fn new(words: Vec<String>, context_only: bool) -> (r: Self)
        ensures
            r.words() == string_views(words@).to_set(),
            r.spec_context_only() == context_only,
    {
        VocabFilter { vocab: words, context_only }
    }

    /// Whether `w` is an accepted word.
    fn knows(&self, w: &str) -> (r: bool)
        ensures
            r == self.words().contains(w@),
    {
        let mut k: usize = 0;
        while k < self.vocab.len()
            invariant
                k <= self.vocab@.len(),
                forall|j: int| 0 <= j < k ==> self.vocab@[j]@ != w@,
            decreases self.vocab@.len() - k,
        {
            if str_eq(self.vocab[k].as_str(), w) {
                assert(string_views(self.vocab@)[k as int] == w@);
                return true;
            }
            k = k + 1;
        }
        proof {
            if self.words().contains(w@) {
                let j = choose|j: int|
                    0 <= j < self.vocab@.len() && #[trigger] string_views(self.vocab@)[j] == w@;
                assert(self.vocab@[j]@ == w@);
            }
        }
        false
    }
}

/// The words part of `s`: between the first and the second tab, or all of `s`.
fn words_field_of<'a>(s: &'a str) -> (r: &'a str)
    ensures
        r@ == words_field(s@),
{
    let n = s.unicode_len();
    match find_char_from(s, '\t', 0) {
        Some(k) => {
            proof {
                lemma_take_until(s@, '\t', k as int);
                assert(s@.contains('\t')) by {
                    assert(s@[k as int] == '\t');
                }
            }
            let second = find_char_from(s, '\t', k + 1);
            let end = match second {
                Some(k2) => k2,
                None => n,
            };
            let field = s.substring_char(k + 1, end);
            proof {
                let rest = s@.skip(k + 1);
                let m = end - (k + 1);
                assert forall|j: int| 0 <= j < m implies rest[j] != '\t' by {
                    assert(rest[j] == s@[k + 1 + j]);
                }
                if end < n {
                    assert(rest[m as int] == s@[end as int]);
                }
                lemma_take_until(rest, '\t', m as int);
                assert(rest.take(m as int) =~= field@);
            }
            field
        },
        None => {
            assert(!s@.contains('\t'));
            s
        },
    }
}

impl Filter for VocabFilter {
    open spec fn passes(&self, ngram: Seq<char>) -> bool {
        vocab_passes(self.words(), self.spec_context_only(), ngram)
    }

    fn filter_ngram(&self, ngram: &str) -> (r: bool) {
        let words_str = words_field_of(ngram);
        let words = split_whitespace(words_str);
        let ghost ws = words@.map_values(|t: &str| t@);
        if words.len() == 0 {
            return false;
        }
        let checked = if self.context_only && words.len() > 1 {
            words.len() - 1
        } else {
            words.len()
        };
        let mut i: usize = 0;
        while i < checked
            invariant
                ws == words@.map_values(|t: &str| t@),
                ws == white_split(words_field(ngram@)),
                ws.len() > 0,
                checked == (if self.spec_context_only() && ws.len() > 1 {
                    ws.len() - 1
                } else {
                    ws.len() as int
                }),
                checked <= words@.len(),
                i <= checked,
                forall|j: int| 0 <= j < i ==> self.words().contains(#[trigger] ws[j]),
            decreases checked - i,
        {
            if !self.knows(words[i]) {
                assert(!self.words().contains(ws[i as int]));
                return false;
            }
            i = i + 1;
        }
        true
    }
}

/// The mark that begins the data of a model in ARPA form.
pub open spec fn data_mark() -> Seq<char> {
    seq!['\\', 'd', 'a', 't', 'a', '\\']
}

/// Whether `text`, after leading white space, begins with the data mark of the ARPA form.
pub fn is_arpa_format(text: &str) -> (r: bool)
    ensures
        r == data_mark().is_prefix_of(trim_white_start(text@)),
{
    let t = trim_start(text);
    let n = t.unicode_len();
    if n < 6 {
        return false;
    }
    let ok = t.get_char(0) == '\\' && t.get_char(1) == 'd' && t.get_char(2) == 'a' && t.get_char(3) == 't'
        && t.get_char(4) == 'a' && t.get_char(5) == '\\';
    proof {
        if ok {
            assert(data_mark() =~= t@.subrange(0, 6));
        } else {
            if data_mark().is_prefix_of(t@) {
                assert(data_mark() =~= t@.subrange(0, 6));
                assert(t@[0] == data_mark()[0] && t@[1] == data_mark()[1] && t@[2] == data_mark()[2]
                    && t@[3] == data_mark()[3] && t@[4] == data_mark()[4] && t@[5] == data_mark()[5]);
            }
        }
    }
    ok
}

/// The mark between the source and the target phrase of a phrase-table line.
pub open spec fn phrase_mark() -> Seq<char> {
    seq!['|', '|', '|']
}

/// Whether a phrase mark begins at `j`.
pub open spec fn mark_at(cs: Seq<char>, j: int) -> bool {
    0 <= j && j + 3 <= cs.len() && cs[j] == '|' && cs[j + 1] == '|' && cs[j + 2] == '|'
}

/// Whether `r` is where the first phrase mark begins (the length when there is none).
pub open spec fn before_phrase_mark(cs: Seq<char>, r: int) -> bool {
    &&& 0 <= r <= cs.len()
    &&& mark_at(cs, r) || r == cs.len()
    &&& forall|j: int| 0 <= j < r ==> !#[trigger] mark_at(cs, j)
}

/// The words `ws[0]`, ..., joined by single spaces.
pub open spec fn join_words(ws: Seq<Seq<char>>) -> Seq<char>
    decreases ws.len(),
{
    if ws.len() == 0 {
        Seq::empty()
    } else if ws.len() == 1 {
        ws[0]
    } else {
        join_words(ws.drop_last()) + seq![' '] + ws.last()
    }
}

/// Whether `x` joins a run of consecutive words of `ws`.
pub open spec fn is_phrase_of(ws: Seq<Seq<char>>, x: Seq<char>) -> bool {
    exists|s: int, e: int| 0 <= s < e <= ws.len() && x == join_words(#[trigger] ws.subrange(s, e))
}

/// Character index of the first phrase mark of `line`, or its length.
fn phrase_mark_index(line: &str) -> (r: usize)
    ensures
        before_phrase_mark(line@, r as int),
{
    let n = line.unicode_len();
    let mut i: usize = 0;
    while n - i >= 3
        invariant
            n == line@.len(),
            i <= n,
            forall|j: int| 0 <= j < i ==> !#[trigger] mark_at(line@, j),
        decreases n - i,
    {
        if line.get_char(i) == '|' && line.get_char(i + 1) == '|' && line.get_char(i + 2) == '|' {
            return i;
        }
        i = i + 1;
    }
    n
}

/// The phrases of the source side of a phrase-table line (the text before the first
/// `|||`): every run of consecutive words, joined by single spaces, each once.
pub fn parse_phrase_table_ngrams(line: &str) -> (r: Vec<String>)
    ensures
        ({
            let m = choose|m: int| before_phrase_mark(line@, m);
            let ws = white_split(line@.take(m));
            &&& forall|i: int, j: int| 0 <= i < j < r@.len() ==> r@[i]@ != r@[j]@
            &&& forall|x: Seq<char>| string_views(r@).contains(x) <==> is_phrase_of(ws, x)
        }),
{
    let mark = phrase_mark_index(line);
    let src = line.substring_char(0, mark);
    let words = split_whitespace(src);
    let ghost ws = words@.map_values(|t: &str| t@);
    proof {
        let m = choose|m: int| before_phrase_mark(line@, m);
        lemma_phrase_mark_unique(line@, m, mark as int);
        assert(src@ =~= line@.take(m));
    }
    let mut out: Vec<String> = Vec::new();
    let mut start: usize = 0;
    while start < words.len()
        invariant
            ws == words@.map_values(|t: &str| t@),
            start <= words@.len(),
            forall|i: int, j: int| 0 <= i < j < out@.len() ==> out@[i]@ != out@[j]@,
            forall|x: Seq<char>|
                string_views(out@).contains(x) <==> exists|s: int, e: int|
                    0 <= s < start && s < e <= ws.len() && x == join_words(#[trigger] ws.subrange(s, e)),
        decreases words@.len() - start,
    {
        let mut joined = String::new();
        let mut end: usize = start;
        let ghost out_before = out@;
        while end < words.len()
            invariant
                ws == words@.map_values(|t: &str| t@),
                start < words@.len(),
                start <= end <= words@.len(),
                end > start ==> joined@ == join_words(ws.subrange(start as int, end as int)),
                end == start ==> joined@.len() == 0,
                forall|i: int, j: int| 0 <= i < j < out@.len() ==> out@[i]@ != out@[j]@,
                forall|x: Seq<char>|
                    string_views(out@).contains(x) <==> (exists|s: int, e: int|
                        0 <= s < start && s < e <= ws.len() && x == join_words(#[trigger] ws.subrange(s, e)))
                        || (exists|e: int| start < e <= end && x == join_words(#[trigger] ws.subrange(start as int, e))),
            decreases words@.len() - end,
        {
            let ghost joined_before = joined@;
            if end > start {
                proof {
                    reveal_strlit(" ");
                }
                joined.append(" ");
                assert(joined@ =~= joined_before + seq![' ']);
            }
            joined.append(words[end]);
            proof {
                let sub = ws.subrange(start as int, end + 1);
                assert(sub.drop_last() =~= ws.subrange(start as int, end as int));
                assert(sub.last() == words@[end as int]@);
                if end == start {
                    assert(sub.len() == 1);
                    assert(joined@ =~= sub[0]);
                } else {
                    assert(joined@ =~= joined_before + seq![' '] + sub.last());
                }
            }
            end = end + 1;
            let ghost before = out@;
            let mut seen = false;
            let mut k: usize = 0;
            while k < out.len()
                invariant
                    k <= out@.len(),
                    seen == exists|j: int| 0 <= j < k && out@[j]@ == joined@,
                decreases out@.len() - k,
            {
                if out[k] == joined {
                    seen = true;
                }
                k = k + 1;
            }
            if !seen {
                out.push(joined.clone());
            }
            proof {
                assert forall|x: Seq<char>|
                    string_views(out@).contains(x) <==> (exists|s: int, e: int|
                        0 <= s < start && s < e <= ws.len() && x == join_words(#[trigger] ws.subrange(s, e)))
                        || (exists|e: int| start < e <= end && x == join_words(#[trigger] ws.subrange(start as int, e))) by {
                    if string_views(out@).contains(x) {
                        let j = choose|j: int| 0 <= j < out@.len() && string_views(out@)[j] == x;
                        if j < before.len() {
                            assert(string_views(before)[j] == x);
                            assert(string_views(before).contains(x));
                        } else {
                            assert(x == join_words(ws.subrange(start as int, end as int)));
                        }
                    }
                    if (exists|e: int| start < e <= end && x == join_words(#[trigger] ws.subrange(start as int, e)))
                        && !(exists|s: int, e: int| 0 <= s < start && s < e <= ws.len() && x == join_words(#[trigger] ws.subrange(s, e))) {
                        let e = choose|e: int| start < e <= end && x == join_words(#[trigger] ws.subrange(start as int, e));
                        if e < end {
                            assert(string_views(before).contains(x));
                            let j = choose|j: int| 0 <= j < before.len() && string_views(before)[j] == x;
                            assert(string_views(out@)[j] == x);
                        } else if seen {
                            let j = choose|j: int| 0 <= j < before.len() && before[j]@ == joined@;
                            assert(string_views(out@)[j] == x);
                        } else {
                            assert(string_views(out@)[out@.len() - 1] == x);
                        }
                    }
                    if exists|s: int, e: int| 0 <= s < start && s < e <= ws.len() && x == join_words(#[trigger] ws.subrange(s, e)) {
                        assert(string_views(before).contains(x));
                        let j = choose|j: int| 0 <= j < before.len() && string_views(before)[j] == x;
                        assert(string_views(out@)[j] == x);
                    }
                }
            }
        }
        proof {
            assert forall|x: Seq<char>|
                string_views(out@).contains(x) <==> exists|s: int, e: int|
                    0 <= s < start + 1 && s < e <= ws.len() && x == join_words(#[trigger] ws.subrange(s, e)) by {
                if exists|s: int, e: int| 0 <= s < start + 1 && s < e <= ws.len() && x == join_words(#[trigger] ws.subrange(s, e)) {
                    let (s, e) = choose|s: int, e: int| 0 <= s < start + 1 && s < e <= ws.len() && x == join_words(#[trigger] ws.subrange(s, e));
                    if s == start {
                        assert(start < e <= end && x == join_words(ws.subrange(start as int, e)));
                    }
                }
            }
        }
        start = start + 1;
    }
    out
}

/// Only one position is the first phrase mark.
proof fn lemma_phrase_mark_unique(cs: Seq<char>, a: int, b: int)
    requires
        before_phrase_mark(cs, a),
        before_phrase_mark(cs, b),
    ensures
        a == b,
{
    if a < b {
        assert(!mark_at(cs, a));
    }
    if b < a {
        assert(!mark_at(cs, b));
    }
}

/// The lines that pass, in order (empty lines never do).
pub open spec fn passing_lines<F: Filter>(f: &F, ls: Seq<Seq<char>>) -> Seq<Seq<char>>
    decreases ls.len(),
{
    if ls.len() == 0 {
        Seq::empty()
    } else {
        let rest = passing_lines(f, ls.drop_last());
        let l = ls.last();
        if l.len() > 0 && f.passes(l) {
            rest.push(l)
        } else {
            rest
        }
    }
}

/// The lines that pass, each the first time it occurs.
pub open spec fn union_lines<F: Filter>(f: &F, ls: Seq<Seq<char>>) -> Seq<Seq<char>>
    decreases ls.len(),
{
    if ls.len() == 0 {
        Seq::empty()
    } else {
        let rest = union_lines(f, ls.drop_last());
        let l = ls.last();
        if l.len() > 0 && f.passes(l) && !rest.contains(l) {
            rest.push(l)
        } else {
            rest
        }
    }
}

/// The output of the mode where each sentence is filtered on its own, with whether the
/// current sentence has no output yet: passing lines, and an empty line after each empty
/// input line that ends a sentence with output.
pub open spec fn sentence_lines<F: Filter>(f: &F, ls: Seq<Seq<char>>) -> (Seq<Seq<char>>, bool)
    decreases ls.len(),
{
    if ls.len() == 0 {
        (Seq::empty(), true)
    } else {
        let (out, first) = sentence_lines(f, ls.drop_last());
        let l = ls.last();
        if l.len() == 0 {
            (if first {
                out
            } else {
                out.push(Seq::empty())
            }, true)
        } else if f.passes(l) {
            (out.push(l), false)
        } else {
            (out, first)
        }
    }
}

/// The output of filtering `ls` in `mode`.
pub open spec fn mode_output<F: Filter>(mode: FilterMode, f: &F, ls: Seq<Seq<char>>) -> Seq<Seq<char>> {
    match mode {
        FilterMode::ModeMultiple => sentence_lines(f, ls).0,
        FilterMode::ModeUnion => union_lines(f, ls),
        _ => passing_lines(f, ls),
    }
}

/// The lines to write when the lines of `input` are filtered in `mode`: the passing
/// non-empty lines; in the sentence mode an empty line also ends each sentence that had
/// output; in the union mode each line once.
pub fn filter_output<F: Filter>(mode: FilterMode, input: &str, filter: &F) -> (r: Vec<String>)
    ensures
        string_views(r@) == mode_output(mode, filter, text_lines(input@)),
{
    let all = lines(input);
    let ghost ls = all@.map_values(|t: &str| t@);
    let mut out: Vec<String> = Vec::new();
    let mut first = true;
    let mut i: usize = 0;
    assert(ls.take(0) =~= Seq::<Seq<char>>::empty());
    assert(string_views(out@) =~= Seq::<Seq<char>>::empty());
    while i < all.len()
        invariant
            ls == all@.map_values(|t: &str| t@),
            i <= all@.len(),
            string_views(out@) == mode_output(mode, filter, ls.take(i as int)),
            mode == FilterMode::ModeMultiple ==> first == sentence_lines(filter, ls.take(i as int)).1,
        decreases all@.len() - i,
    {
        let line = all[i];
        let ghost before = string_views(out@);
        proof {
            assert(ls.take(i + 1).drop_last() =~= ls.take(i as int));
            assert(ls.take(i + 1).last() == line@);
        }
        let empty = line.unicode_len() == 0;
        match mode {
            FilterMode::ModeMultiple => {
                if empty {
                    if !first {
                        out.push(String::new());
                        assert(string_views(out@) =~= before.push(Seq::<char>::empty()));
                    }
                    first = true;
                } else if filter.filter_ngram(line) {
                    out.push(line.to_owned());
                    assert(string_views(out@) =~= before.push(line@));
                    first = false;
                }
            },
            FilterMode::ModeUnion => {
                if !empty && filter.filter_ngram(line) {
                    let mut seen = false;
                    let mut k: usize = 0;
                    while k < out.len()
                        invariant
                            k <= out@.len(),
                            seen == exists|j: int| 0 <= j < k && out@[j]@ == line@,
                        decreases out@.len() - k,
                    {
                        if str_eq(out[k].as_str(), line) {
                            seen = true;
                        }
                        k = k + 1;
                    }
                    proof {
                        if seen {
                            let j = choose|j: int| 0 <= j < out@.len() && out@[j]@ == line@;
                            assert(before[j] == line@);
                        }
                        if before.contains(line@) {
                            let j = choose|j: int| 0 <= j < before.len() && before[j] == line@;
                            assert(out@[j]@ == line@);
                        }
                    }
                    if !seen {
                        out.push(line.to_owned());
                        assert(string_views(out@) =~= before.push(line@));
                    }
                }
            },
            _ => {
                if !empty && filter.filter_ngram(line) {
                    out.push(line.to_owned());
                    assert(string_views(out@) =~= before.push(line@));
                }
            },
        }
        i = i + 1;
    }
    assert(ls.take(all@.len() as int) =~= ls);
    out
}

/// Outside the sentence and union modes, the lines written are exactly the non-empty lines
/// of the input that pass the filter, in input order.
pub proof fn law_copy_output_is_filter<F: Filter>(mode: FilterMode, f: &F, ls: Seq<Seq<char>>)
    requires
        mode != FilterMode::ModeMultiple,
        mode != FilterMode::ModeUnion,
    ensures
        mode_output(mode, f, ls) == ls.filter(|l: Seq<char>| l.len() > 0 && f.passes(l)),
    decreases ls.len(),
{
    reveal(Seq::filter);
    if ls.len() > 0 {
        law_copy_output_is_filter(mode, f, ls.drop_last());
    }
}

/// A vocabulary filter passes a line exactly when the words field of the line has a word and
/// every word it checks is in the vocabulary: in context-only mode with `n > 1` words, each
/// of the first `n - 1` words (every context word, the last word never); otherwise every
/// word.
pub proof fn law_vocab_filter_checks_words(f: VocabFilter, line: Seq<char>)
    ensures
        ({
            let ws = white_split(words_field(line));
            let n = ws.len() as int;
            &&& n == 0 ==> !f.passes(line)
            &&& n >= 1 && !(f.spec_context_only() && n > 1) ==> (f.passes(line) <==> forall|i: int|
                0 <= i < n ==> f.words().contains(#[trigger] ws[i]))
            &&& f.spec_context_only() && n > 1 ==> (f.passes(line) <==> forall|i: int|
                0 <= i < n - 1 ==> f.words().contains(#[trigger] ws[i]))
            &&& f.spec_context_only() && n > 1 && f.passes(line) ==> forall|i: int|
                0 <= i < n - 1 ==> f.words().contains(#[trigger] ws[i])
        }),
{
}

} // verus!
