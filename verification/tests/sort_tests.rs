use kenlmrs::stream::sort::{merge_runs, merge_two, sort_dedup, sort_run_size, sorted_runs};

fn recs(items: &[&[u8]]) -> Vec<Vec<u8>> {
    items.iter().map(|r| r.to_vec()).collect()
}

#[test]
fn sort_dedup_orders_and_drops_repeats() {
    let d = sort_dedup(recs(&[b"cc", b"ab", b"cc", b"a", b"b"]));
    assert_eq!(d, recs(&[b"a", b"ab", b"b", b"cc"]));
}

#[test]
fn sorted_runs_cut_and_sort_each_run() {
    let records = recs(&[b"d", b"b", b"b", b"a", b"c", b"a", b"e"]);
    let runs = sorted_runs(&records, 3);
    assert_eq!(runs.len(), 3);
    assert_eq!(runs[0], recs(&[b"b", b"d"]));
    assert_eq!(runs[1], recs(&[b"a", b"c"]));
    assert_eq!(runs[2], recs(&[b"e"]));
    assert!(sorted_runs(&Vec::new(), 4).is_empty());
}

#[test]
fn merge_two_unions_in_order() {
    let a = recs(&[b"a", b"c", b"e"]);
    let b = recs(&[b"b", b"c", b"f"]);
    assert_eq!(merge_two(&a, &b), recs(&[b"a", b"b", b"c", b"e", b"f"]));
    assert_eq!(merge_two(&Vec::new(), &b), b);
}

#[test]
fn runs_then_merge_equals_sort() {
    let records = recs(&[b"zz", b"m", b"a", b"m", b"q", b"a", b"b", b"zz", b"c"]);
    for run_size in 1..=10 {
        let runs = sorted_runs(&records, run_size);
        let merged = merge_runs(&runs);
        assert_eq!(merged, sort_dedup(records.clone()));
    }
}

#[test]
fn run_size_for_record_sizes() {
    assert_eq!(sort_run_size(0), 65536);
    assert_eq!(sort_run_size(1), 65536);
    assert_eq!(sort_run_size(16), 4096);
    assert_eq!(sort_run_size(100000), 1);
}
