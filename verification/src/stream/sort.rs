//! The computing part of an external sort: cutting records into sorted runs and merging
//! sorted runs back into one ascending list without repeats.
use vstd::prelude::*;
use vstd::slice::slice_to_vec;
use crate::sorting::{bytes_le_exec, bytes_lt, lemma_bytes_lt_transitive, lemma_bytes_trichotomy,
    lemma_strictly_sorted_unique, sort_byte_strings, strictly_sorted};
use crate::stream::chain::{dedup_sorted, record_views, sorted_listing};
use crate::text::bytes_eq;

verus! {

/// A strictly sorted list is the sorted listing of its elements.
proof fn lemma_is_sorted_listing(s: Seq<Seq<u8>>)
    requires
        strictly_sorted(s),
    ensures
        sorted_listing(s.to_set()) == s,
{
    let d = sorted_listing(s.to_set());
    assert(strictly_sorted(d) && d.to_set() == s.to_set());
    lemma_strictly_sorted_unique(d, s);
}

/// The records in ascending byte order, each once.
pub fn sort_dedup(records: Vec<Vec<u8>>) -> (d: Vec<Vec<u8>>)
    ensures
        strictly_sorted(record_views(d@)),
        record_views(d@).to_set() == record_views(records@).to_set(),
        record_views(d@) == sorted_listing(record_views(records@).to_set()),
{
    let mut all = records;
    let ghost before = record_views(all@);
    sort_byte_strings(&mut all);
    proof {
        broadcast use vstd::seq_lib::group_to_multiset_ensures;

        assert(record_views(all@).to_multiset() == before.to_multiset());
        assert forall|x: Seq<u8>| record_views(all@).contains(x) == before.contains(x) by {
            assert(record_views(all@).to_multiset().count(x) == before.to_multiset().count(x));
        }
        assert(record_views(all@).to_set() =~= before.to_set());
    }
    let d = dedup_sorted(&all);
    proof {
        lemma_is_sorted_listing(record_views(d@));
    }
    d
}

/// Merges two ascending lists without repeats into one: the ascending listing of the
/// records of both.
pub fn merge_two(a: &Vec<Vec<u8>>, b: &Vec<Vec<u8>>) -> (r: Vec<Vec<u8>>)
    requires
        strictly_sorted(record_views(a@)),
        strictly_sorted(record_views(b@)),
    ensures
        strictly_sorted(record_views(r@)),
        record_views(r@).to_set() == record_views(a@).to_set().union(record_views(b@).to_set()),
        record_views(r@) == sorted_listing(record_views(a@).to_set().union(record_views(b@).to_set())),
{
    let ghost av = record_views(a@);
    let ghost bv = record_views(b@);
    let la = a.len();
    let lb = b.len();
    let mut out: Vec<Vec<u8>> = Vec::new();
    let mut i: usize = 0;
    let mut j: usize = 0;
    assert(record_views(out@).to_set() =~= av.take(0).to_set().union(bv.take(0).to_set()));
    while i < la || j < lb
        invariant
            av == record_views(a@),
            bv == record_views(b@),
            la == a@.len(),
            lb == b@.len(),
            strictly_sorted(av),
            strictly_sorted(bv),
            i <= la,
            j <= lb,
            strictly_sorted(record_views(out@)),
            record_views(out@).to_set() == av.take(i as int).to_set().union(bv.take(j as int).to_set()),
            out@.len() > 0 ==> forall|k: int| i <= k < la ==> bytes_lt(record_views(out@).last(), #[trigger] av[k]),
            out@.len() > 0 ==> forall|k: int| j <= k < lb ==> bytes_lt(record_views(out@).last(), #[trigger] bv[k]),
        decreases (la - i) + (lb - j),
    {
        let ghost ov = record_views(out@);
        let take_a: bool;
        let take_b: bool;
        if j == lb {
            take_a = true;
            take_b = false;
        } else if i == la {
            take_a = false;
            take_b = true;
        } else {
            let x = a[i].as_slice();
            let y = b[j].as_slice();
            proof {
                assert(av[i as int] == x@ && bv[j as int] == y@);
                lemma_bytes_trichotomy(x@, y@);
            }
            if bytes_eq(x, y) {
                take_a = true;
                take_b = true;
            } else if bytes_le_exec(x, y) {
                take_a = true;
                take_b = false;
            } else {
                take_a = false;
                take_b = true;
            }
        }
        let next: &Vec<u8> = if take_a { &a[i] } else { &b[j] };
        let ghost h = next@;
        let copy = slice_to_vec(next.as_slice());
        out.push(copy);
        proof {
            assert(record_views(out@) =~= ov.push(h));
            let nv = ov.push(h);
            assert forall|p: int, q: int| 0 <= p < q < nv.len() implies bytes_lt(nv[p], nv[q]) by {
                if q == ov.len() && p < ov.len() - 1 {
                    assert(bytes_lt(ov[p], ov.last()));
                    if take_a {
                        assert(bytes_lt(ov.last(), av[i as int]));
                    } else {
                        assert(bytes_lt(ov.last(), bv[j as int]));
                    }
                    lemma_bytes_lt_transitive(ov[p], ov.last(), h);
                } else if q == ov.len() {
                    if take_a {
                        assert(bytes_lt(ov.last(), av[i as int]));
                    } else {
                        assert(bytes_lt(ov.last(), bv[j as int]));
                    }
                } else {
                    assert(nv[p] == ov[p] && nv[q] == ov[q]);
                }
            }
        }
        let ghost i0 = i as int;
        let ghost j0 = j as int;
        if take_a {
            i = i + 1;
        }
        if take_b {
            j = j + 1;
        }
        proof {
            let nv = record_views(out@);
            if take_a {
                assert(av.take(i as int) =~= av.take(i0).push(h));
                av.take(i0).lemma_push_to_set_commute(h);
            } else {
                assert(av.take(i as int) =~= av.take(i0));
            }
            if take_b {
                assert(bv.take(j as int) =~= bv.take(j0).push(bv[j0]));
                bv.take(j0).lemma_push_to_set_commute(bv[j0]);
            } else {
                assert(bv.take(j as int) =~= bv.take(j0));
            }
            ov.lemma_push_to_set_commute(h);
            assert(nv.to_set() =~= av.take(i as int).to_set().union(bv.take(j as int).to_set()));
            assert forall|k: int| i <= k < la implies bytes_lt(nv.last(), #[trigger] av[k]) by {
                if take_a {
                    assert(bytes_lt(av[i0], av[k]));
                } else {
                    assert(bytes_lt(bv[j0], av[i0]) || i0 == la);
                    if i0 < la {
                        if k > i0 {
                            assert(bytes_lt(av[i0], av[k]));
                            lemma_bytes_lt_transitive(bv[j0], av[i0], av[k]);
                        }
                    }
                }
            }
            assert forall|k: int| j <= k < lb implies bytes_lt(nv.last(), #[trigger] bv[k]) by {
                if take_b {
                    assert(bytes_lt(bv[j0], bv[k]));
                    assert(take_a ==> av[i0] == bv[j0]);
                } else {
                    assert(bytes_lt(av[i0], bv[j0]) || j0 == lb);
                    if j0 < lb {
                        if k > j0 {
                            assert(bytes_lt(bv[j0], bv[k]));
                            lemma_bytes_lt_transitive(av[i0], bv[j0], bv[k]);
                        }
                    }
                }
            }
        }
    }
    proof {
        assert(av.take(la as int) =~= av);
        assert(bv.take(lb as int) =~= bv);
        lemma_is_sorted_listing(record_views(out@));
    }
    out
}

/// The sets of records of the runs that cut `rv` into pieces of `rs` records (the last one
/// shorter).
pub open spec fn chunk_sets(rv: Seq<Seq<u8>>, rs: nat) -> Seq<Set<Seq<u8>>>
    decreases rv.len(),
{
    if rv.len() == 0 || rs == 0 {
        Seq::empty()
    } else {
        let k = if rs < rv.len() {
            rs as int
        } else {
            rv.len() as int
        };
        seq![rv.take(k).to_set()] + chunk_sets(rv.skip(k), rs)
    }
}

/// The union of a sequence of sets.
pub open spec fn union_all(ss: Seq<Set<Seq<u8>>>) -> Set<Seq<u8>>
    decreases ss.len(),
{
    if ss.len() == 0 {
        Set::empty()
    } else {
        ss[0].union(union_all(ss.drop_first()))
    }
}

/// The records of each run.
pub open spec fn run_sets(runs: Seq<Vec<Vec<u8>>>) -> Seq<Set<Seq<u8>>> {
    runs.map_values(|run: Vec<Vec<u8>>| record_views(run@).to_set())
}

/// Cuts `records` into runs of `run_size` records (the last one shorter) and sorts each run,
/// dropping repeats within it.
pub fn sorted_runs(records: &Vec<Vec<u8>>, run_size: usize) -> (r: Vec<Vec<Vec<u8>>>)
    requires
        run_size > 0,
    ensures
        run_sets(r@) == chunk_sets(record_views(records@), run_size as nat),
        forall|k: int| 0 <= k < r@.len() ==> strictly_sorted(#[trigger] record_views(r@[k]@)),
{
    let ghost rv = record_views(records@);
    let n = records.len();
    let mut out: Vec<Vec<Vec<u8>>> = Vec::new();
    let mut i: usize = 0;
    assert(rv.skip(0) =~= rv);
    assert(run_sets(out@) =~= Seq::<Set<Seq<u8>>>::empty());
    while i < n
        invariant
            rv == record_views(records@),
            n == records@.len(),
            run_size > 0,
            i <= n,
            run_sets(out@) + chunk_sets(rv.skip(i as int), run_size as nat) == chunk_sets(rv, run_size as nat),
            forall|k: int| 0 <= k < out@.len() ==> strictly_sorted(#[trigger] record_views(out@[k]@)),
        decreases n - i,
    {
        let end = if n - i > run_size { i + run_size } else { n };
        let mut chunk: Vec<Vec<u8>> = Vec::new();
        let mut p: usize = i;
        assert(record_views(chunk@) =~= rv.subrange(i as int, p as int));
        while p < end
            invariant
                rv == record_views(records@),
                n == records@.len(),
                i <= p <= end <= n,
                record_views(chunk@) == rv.subrange(i as int, p as int),
            decreases end - p,
        {
            let copy = slice_to_vec(records[p].as_slice());
            assert(copy@ == rv[p as int]);
            let ghost before = record_views(chunk@);
            chunk.push(copy);
            assert(record_views(chunk@) =~= before.push(copy@));
            assert(record_views(chunk@) =~= rv.subrange(i as int, p + 1));
            p = p + 1;
        }
        let ghost chunk_view = record_views(chunk@);
        let run = sort_dedup(chunk);
        let ghost before = out@;
        out.push(run);
        proof {
            let rest = rv.skip(i as int);
            let k = (end - i) as int;
            assert(rest.take(k) =~= chunk_view);
            assert(rest.skip(k) =~= rv.skip(end as int));
            assert(chunk_sets(rest, run_size as nat) == seq![chunk_view.to_set()] + chunk_sets(
                rv.skip(end as int),
                run_size as nat,
            ));
            assert(run_sets(out@) =~= run_sets(before).push(chunk_view.to_set()));
            assert(run_sets(out@) + chunk_sets(rv.skip(end as int), run_size as nat) =~= run_sets(before) + (
            seq![chunk_view.to_set()] + chunk_sets(rv.skip(end as int), run_size as nat)));
        }
        i = end;
    }
    proof {
        assert(rv.skip(n as int).len() == 0);
        assert(run_sets(out@) + chunk_sets(rv.skip(n as int), run_size as nat) =~= run_sets(out@));
    }
    out
}

/// Merges sorted runs without repeats into one ascending list of all their records, each
/// once.
pub fn merge_runs(runs: &Vec<Vec<Vec<u8>>>) -> (r: Vec<Vec<u8>>)
    requires
        forall|k: int| 0 <= k < runs@.len() ==> strictly_sorted(#[trigger] record_views(runs@[k]@)),
    ensures
        strictly_sorted(record_views(r@)),
        record_views(r@).to_set() == union_all(run_sets(runs@)),
{
    let ghost sets = run_sets(runs@);
    let mut acc: Vec<Vec<u8>> = Vec::new();
    let mut k: usize = runs.len();
    assert(sets.skip(k as int).len() == 0);
    assert(record_views(acc@).to_set() =~= union_all(sets.skip(k as int)));
    while k > 0
        invariant
            sets == run_sets(runs@),
            k <= runs@.len(),
            forall|q: int| 0 <= q < runs@.len() ==> strictly_sorted(#[trigger] record_views(runs@[q]@)),
            strictly_sorted(record_views(acc@)),
            record_views(acc@).to_set() == union_all(sets.skip(k as int)),
        decreases k,
    {
        k = k - 1;
        let merged = merge_two(&runs[k], &acc);
        proof {
            let tail = sets.skip(k as int);
            assert(tail[0] == sets[k as int]);
            assert(tail.drop_first() =~= sets.skip(k + 1));
            assert(sets[k as int] == record_views(runs@[k as int]@).to_set());
        }
        acc = merged;
    }
    proof {
        assert(sets.skip(0) =~= sets);
    }
    acc
}

/// Cutting records into runs loses none and adds none: the runs together hold exactly the
/// records.
pub proof fn law_runs_cover_records(rv: Seq<Seq<u8>>, rs: nat)
    requires
        rs > 0,
    ensures
        union_all(chunk_sets(rv, rs)) == rv.to_set(),
    decreases rv.len(),
{
    if rv.len() == 0 {
        assert(rv.to_set() =~= Set::<Seq<u8>>::empty());
    } else {
        let k = if rs < rv.len() {
            rs as int
        } else {
            rv.len() as int
        };
        law_runs_cover_records(rv.skip(k), rs);
        let cs = chunk_sets(rv, rs);
        assert(cs[0] == rv.take(k).to_set());
        assert(cs.drop_first() =~= chunk_sets(rv.skip(k), rs));
        assert(rv =~= rv.take(k) + rv.skip(k));
        vstd::seq_lib::seq_to_set_distributes_over_add(rv.take(k), rv.skip(k));
        assert(rv.take(k).to_set().union(rv.skip(k).to_set()) == rv.to_set());
    }
}

/// Sorting through runs sorts: when `runs` cut the records `rv` into runs of `rs` records as
/// `sorted_runs` does, and `merged` is what `merge_runs` gives for them, `merged` is strictly
/// ascending and holds exactly the records of `rv`, each once.
pub proof fn law_runs_merge_to_sorted_records(
    rv: Seq<Seq<u8>>,
    rs: nat,
    runs: Seq<Vec<Vec<u8>>>,
    merged: Seq<Seq<u8>>,
)
    requires
        rs > 0,
        run_sets(runs) == chunk_sets(rv, rs),
        forall|k: int| 0 <= k < runs.len() ==> strictly_sorted(#[trigger] record_views(runs[k]@)),
        strictly_sorted(merged),
        merged.to_set() == union_all(run_sets(runs)),
    ensures
        merged.to_set() == rv.to_set(),
        strictly_sorted(merged),
{
    law_runs_cover_records(rv, rs);
}

/// How many records of `entry_size` bytes make a run of about 64 KiB: 65536 divided by the
/// record size (1 for empty records), and at least one record.
pub fn sort_run_size(entry_size: usize) -> (r: usize)
    ensures
        r == (if entry_size == 0 {
            65536
        } else if 65536usize / entry_size == 0 {
            1
        } else {
            65536usize / entry_size
        }),
        r > 0,
{
    let per = if entry_size == 0 { 65536 } else { 65536 / entry_size };
    if per == 0 { 1 } else { per }
}

} // verus!
