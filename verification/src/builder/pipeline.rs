//! The estimation pipeline: its output and the parsing of its pruning options.
use vstd::prelude::*;
use crate::text::{parse_u64, parse_u64_spec, split_whitespace, white_split};
use crate::builder::count::words_eq;

verus! {

/// Where the pipeline writes the estimated model.
pub struct Output;

/// The words of each text of `ps`, one text after the other.
pub open spec fn words_of_all(ps: Seq<Seq<char>>) -> Seq<Seq<char>>
    decreases ps.len(),
{
    if ps.len() == 0 {
        Seq::empty()
    } else {
        words_of_all(ps.drop_last()) + white_split(ps.last())
    }
}

/// The values of the words of `ws` that parse as `u64`, in order; the others are dropped.
pub open spec fn parsed_numbers(ws: Seq<Seq<char>>) -> Seq<u64>
    decreases ws.len(),
{
    if ws.len() == 0 {
        Seq::empty()
    } else {
        let rest = parsed_numbers(ws.drop_last());
        match parse_u64_spec(ws.last()) {
            Some(v) => rest.push(v),
            None => rest,
        }
    }
}

/// `v` cut to `n` values, or padded with zeros up to `n`.
pub open spec fn resized(v: Seq<u64>, n: nat) -> Seq<u64> {
    if v.len() >= n {
        v.take(n as int)
    } else {
        v + Seq::new((n - v.len()) as nat, |i: int| 0u64)
    }
}

/// The pruning thresholds given as text: every word of every parameter that parses as a
/// number, in order, cut or padded with zeros to `order` values.
#[allow(non_snake_case)]
pub fn ParsePruning(param: &[String], order: i8) -> (r: Vec<u64>)
    requires
        order >= 0,
    ensures
        r@ == resized(parsed_numbers(words_of_all(param@.map_values(|s: String| s@))), order as nat),
{
    let ghost ps = param@.map_values(|s: String| s@);
    let mut values: Vec<u64> = Vec::new();
    let mut i: usize = 0;
    assert(ps.take(0) =~= Seq::<Seq<char>>::empty());
    while i < param.len()
        invariant
            ps == param@.map_values(|s: String| s@),
            i <= param@.len(),
            values@ == parsed_numbers(words_of_all(ps.take(i as int))),
        decreases param@.len() - i,
    {
        let words = split_whitespace(param[i].as_str());
        let ghost before = words_of_all(ps.take(i as int));
        let ghost ws = words@.map_values(|t: &str| t@);
        let mut j: usize = 0;
        assert(before + ws.take(0) =~= before);
        while j < words.len()
            invariant
                ws == words@.map_values(|t: &str| t@),
                j <= words@.len(),
                values@ == parsed_numbers(before + ws.take(j as int)),
            decreases words@.len() - j,
        {
            let parsed = parse_u64(words[j]);
            proof {
                assert((before + ws.take(j + 1)).drop_last() =~= before + ws.take(j as int));
                assert((before + ws.take(j + 1)).last() == words@[j as int]@);
            }
            if let Some(v) = parsed {
                values.push(v);
            }
            j = j + 1;
        }
        proof {
            assert(ws.take(ws.len() as int) =~= ws);
            assert(ps.take(i + 1).drop_last() =~= ps.take(i as int));
            assert(ps.take(i + 1).last() == param@[i as int]@);
        }
        i = i + 1;
    }
    assert(ps.take(param@.len() as int) =~= ps);
    let n = order as usize;
    if values.len() >= n {
        values.truncate(n);
    } else {
        let ghost got = values@;
        while values.len() < n
            invariant
                got.len() < n,
                got.len() <= values@.len() <= n,
                values@ == got + Seq::new((values@.len() - got.len()) as nat, |k: int| 0u64),
            decreases n - values@.len(),
        {
            values.push(0);
            assert(values@ =~= got + Seq::new((values@.len() - got.len()) as nat, |k: int| 0u64));
        }
    }
    assert(values@ =~= resized(parsed_numbers(words_of_all(ps)), order as nat));
    values
}

} // verus!

verus! {

/// The n-grams and counts of `v`, each n-gram by its words.
pub open spec fn count_views(v: Seq<(Vec<u32>, u64)>) -> Seq<(Seq<u32>, u64)> {
    v.map_values(|e: (Vec<u32>, u64)| (e.0@, e.1))
}

/// Whether n-gram `g` of `es` extends `s` by one word on the left.
pub open spec fn extends_left(g: Seq<u32>, s: Seq<u32>) -> bool {
    g.len() >= 2 && g.skip(1) == s
}

/// How many n-grams of `es` extend `s` by one word on the left.
pub open spec fn left_extensions(es: Seq<(Seq<u32>, u64)>, s: Seq<u32>) -> nat
    decreases es.len(),
{
    if es.len() == 0 {
        0
    } else {
        left_extensions(es.drop_last(), s) + if extends_left(es.last().0, s) {
            1nat
        } else {
            0nat
        }
    }
}

proof fn lemma_left_extensions_bound(es: Seq<(Seq<u32>, u64)>, s: Seq<u32>)
    ensures
        left_extensions(es, s) <= es.len(),
        left_extensions(es, s) > 0 <==> exists|i: int| 0 <= i < es.len() && extends_left(#[trigger] es[i].0, s),
    decreases es.len(),
{
    if es.len() > 0 {
        lemma_left_extensions_bound(es.drop_last(), s);
        if exists|i: int| 0 <= i < es.len() && extends_left(#[trigger] es[i].0, s) {
            let i = choose|i: int| 0 <= i < es.len() && extends_left(#[trigger] es[i].0, s);
            if i < es.len() - 1 {
                assert(es.drop_last()[i] == es[i]);
            }
        }
        assert forall|i: int| 0 <= i < es.len() - 1 && extends_left(#[trigger] es.drop_last()[i].0, s) implies exists|j: int|
            0 <= j < es.len() && extends_left(#[trigger] es[j].0, s) by {
            assert(es[i] == es.drop_last()[i]);
        }
    }
}

/// The continuation counts of Kneser-Ney smoothing: for each n-gram that some counted
/// n-gram extends by one word on the left, how many counted n-grams do so. With distinct
/// counted n-grams, that is its number of distinct left extensions. Each suffix appears
/// once, in the order in which it is first met.
pub fn continuation_counts(counts: &Vec<(Vec<u32>, u64)>) -> (r: Vec<(Vec<u32>, u64)>)
    ensures
        forall|k: int| 0 <= k < r@.len() ==> (#[trigger] count_views(r@)[k]).1 == left_extensions(
            count_views(counts@),
            count_views(r@)[k].0,
        ) && count_views(r@)[k].1 > 0,
        forall|i: int| 0 <= i < counts@.len() && (#[trigger] counts@[i]).0@.len() >= 2 ==> exists|k: int|
            0 <= k < r@.len() && count_views(r@)[k].0 == counts@[i].0@.skip(1),
        forall|a: int, b: int| 0 <= a < b < r@.len() ==> count_views(r@)[a].0 != count_views(r@)[b].0,
{
    let ghost es = count_views(counts@);
    let mut keys: Vec<Vec<u32>> = Vec::new();
    let mut tallies: Vec<u64> = Vec::new();
    let mut i: usize = 0;
    while i < counts.len()
        invariant
            es == count_views(counts@),
            i <= counts@.len(),
            keys@.len() == tallies@.len(),
            forall|k: int| 0 <= k < keys@.len() ==> #[trigger] tallies@[k] == left_extensions(es.take(i as int), keys@[k]@),
            forall|k: int| 0 <= k < keys@.len() ==> #[trigger] tallies@[k] > 0,
            forall|k: int| 0 <= k < keys@.len() ==> #[trigger] tallies@[k] <= i,
            forall|j: int| 0 <= j < i && (#[trigger] counts@[j]).0@.len() >= 2 ==> exists|k: int|
                0 <= k < keys@.len() && keys@[k]@ == counts@[j].0@.skip(1),
            forall|a: int, b: int| 0 <= a < b < keys@.len() ==> keys@[a]@ != keys@[b]@,
            forall|s: Seq<u32>| #[trigger] left_extensions(es.take(i as int), s) > 0 ==> exists|k: int|
                0 <= k < keys@.len() && keys@[k]@ == s,
        decreases counts@.len() - i,
    {
        assert(es.take(i + 1).drop_last() =~= es.take(i as int));
        assert(es.take(i + 1).last() == es[i as int]);
        let g = &counts[i].0;
        if g.len() >= 2 {
            let suffix = vstd::slice::slice_to_vec(vstd::slice::slice_subrange(g.as_slice(), 1, g.len()));
            assert(suffix@ =~= g@.skip(1));
            let mut k: usize = 0;
            let mut found = false;
            while k < keys.len()
                invariant_except_break
                    !found,
                invariant
                    k <= keys@.len(),
                    forall|j: int| 0 <= j < k ==> keys@[j]@ != suffix@,
                ensures
                    found ==> k < keys@.len() && keys@[k as int]@ == suffix@,
                    !found ==> forall|j: int| 0 <= j < keys@.len() ==> keys@[j]@ != suffix@,
                decreases keys@.len() - k,
            {
                if words_eq(keys[k].as_slice(), suffix.as_slice()) {
                    found = true;
                    break;
                }
                k = k + 1;
            }
            let ghost old_keys = keys@;
            let ghost old_tallies = tallies@;
            if found {
                let t = tallies[k] + 1;
                tallies.set(k, t);
            } else {
                keys.push(suffix);
                tallies.push(1);
            }
            proof {
                assert forall|q: int| 0 <= q < keys@.len() implies #[trigger] tallies@[q] == left_extensions(
                    es.take(i + 1),
                    keys@[q]@,
                ) by {
                    if q < old_keys.len() {
                        assert(keys@[q] == old_keys[q]);
                    } else {
                        lemma_left_extensions_bound(es.take(i as int), suffix@);
                    }
                }
                assert forall|s: Seq<u32>| #[trigger] left_extensions(es.take(i + 1), s) > 0 implies exists|q: int|
                    0 <= q < keys@.len() && keys@[q]@ == s by {
                    if left_extensions(es.take(i as int), s) > 0 {
                        let q = choose|q: int| 0 <= q < old_keys.len() && old_keys[q]@ == s;
                        assert(keys@[q] == old_keys[q]);
                    } else {
                        if found {
                            assert(keys@[k as int]@ == s);
                        } else {
                            assert(keys@[old_keys.len() as int]@ == s);
                        }
                    }
                }
                assert forall|j: int| 0 <= j < i + 1 && (#[trigger] counts@[j]).0@.len() >= 2 implies exists|q: int|
                    0 <= q < keys@.len() && keys@[q]@ == counts@[j].0@.skip(1) by {
                    if j < i {
                        let q = choose|q: int| 0 <= q < old_keys.len() && old_keys[q]@ == counts@[j].0@.skip(1);
                        assert(keys@[q] == old_keys[q]);
                    } else if found {
                        assert(keys@[k as int]@ == counts@[j].0@.skip(1));
                    } else {
                        assert(keys@[old_keys.len() as int]@ == counts@[j].0@.skip(1));
                    }
                }
            }
        } else {
            proof {
                assert forall|q: int| 0 <= q < keys@.len() implies #[trigger] tallies@[q] == left_extensions(
                    es.take(i + 1),
                    keys@[q]@,
                ) by {}
                assert forall|s: Seq<u32>| #[trigger] left_extensions(es.take(i + 1), s) > 0 implies exists|q: int|
                    0 <= q < keys@.len() && keys@[q]@ == s by {
                    assert(left_extensions(es.take(i + 1), s) == left_extensions(es.take(i as int), s));
                }
            }
        }
        i = i + 1;
    }
    assert(es.take(counts@.len() as int) =~= es);
    let mut r: Vec<(Vec<u32>, u64)> = Vec::new();
    let mut k: usize = 0;
    while k < keys.len()
        invariant
            k <= keys@.len(),
            keys@.len() == tallies@.len(),
            r@.len() == k,
            forall|q: int| 0 <= q < k ==> (#[trigger] count_views(r@)[q]) == (keys@[q]@, tallies@[q]),
        decreases keys@.len() - k,
    {
        let w = vstd::slice::slice_to_vec(keys[k].as_slice());
        let t = tallies[k];
        let ghost before = r@;
        assert(w@ == keys@[k as int]@);
        r.push((w, t));
        proof {
            assert forall|q: int| 0 <= q < k + 1 implies (#[trigger] count_views(r@)[q]) == (keys@[q]@, tallies@[q]) by {
                assert(count_views(r@)[q] == (r@[q].0@, r@[q].1));
                if q < k {
                    assert(r@[q] == before[q]);
                    assert(count_views(before)[q] == (before[q].0@, before[q].1));
                }
            }
        }
        k = k + 1;
    }
    proof {
        assert forall|j: int| 0 <= j < counts@.len() && (#[trigger] counts@[j]).0@.len() >= 2 implies exists|q: int|
            0 <= q < r@.len() && count_views(r@)[q].0 == counts@[j].0@.skip(1) by {
            let q = choose|q: int| 0 <= q < keys@.len() && keys@[q]@ == counts@[j].0@.skip(1);
            assert(count_views(r@)[q] == (keys@[q]@, tallies@[q]));
        }
        assert forall|q: int| 0 <= q < r@.len() implies (#[trigger] count_views(r@)[q]).1 == left_extensions(
            count_views(counts@),
            count_views(r@)[q].0,
        ) && count_views(r@)[q].1 > 0 by {
            assert(count_views(r@)[q] == (keys@[q]@, tallies@[q]));
        }
        assert forall|a: int, b: int| 0 <= a < b < r@.len() implies count_views(r@)[a].0 != count_views(r@)[b].0 by {
            assert(count_views(r@)[a] == (keys@[a]@, tallies@[a]));
            assert(count_views(r@)[b] == (keys@[b]@, tallies@[b]));
        }
    }
    r
}

} // verus!
