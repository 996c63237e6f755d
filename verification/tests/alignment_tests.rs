use slow_align::alignment::AlgnHard;
use slow_align::evaluator::{
    alignment_error_counts, alignment_error_counts_overlapping, alignment_reverse, sentence_counts, AerCounts,
};
use slow_align::optimizer::{intersect_algn, join_algn, merge_extracted, AlgnMergeAction};

fn sorted(a: &AlgnHard) -> Vec<(usize, usize)> {
    let mut v = a.to_vec();
    v.sort();
    v
}

fn algn(links: &[(usize, usize)]) -> AlgnHard {
    AlgnHard::from_links(links)
}

#[test]
fn algn_hard_is_a_set() {
    let mut a = AlgnHard::new();
    assert!(a.is_empty());
    a.insert((0, 1));
    a.insert((2, 3));
    a.insert((0, 1));
    assert_eq!(a.len(), 2);
    assert!(a.contains((0, 1)));
    assert!(!a.contains((1, 0)));
    assert_eq!(sorted(&a), vec![(0, 1), (2, 3)]);
    let b = algn(&[(5, 5), (5, 5), (1, 1)]);
    assert_eq!(b.len(), 2);
    let c = b.clone();
    assert_eq!(sorted(&c), sorted(&b));
}

#[test]
fn algn_hard_set_operations() {
    let a = algn(&[(0, 0), (1, 1), (2, 2)]);
    let b = algn(&[(1, 1), (2, 2), (3, 3)]);
    assert_eq!(sorted(&a.intersection(&b)), vec![(1, 1), (2, 2)]);
    assert_eq!(sorted(&a.union(&b)), vec![(0, 0), (1, 1), (2, 2), (3, 3)]);
    assert!(!a.is_disjoint(&b));
    assert!(a.is_disjoint(&algn(&[(9, 9)])));
    assert_eq!(sorted(&algn(&[(0, 3), (1, 2)]).reversed()), vec![(2, 1), (3, 0)]);
}

#[test]
fn alignment_reverse_swaps_and_is_an_involution() {
    let corpus = vec![algn(&[(0, 1), (2, 5)]), algn(&[]), algn(&[(3, 3)])];
    let rev = alignment_reverse(&corpus);
    assert_eq!(rev.len(), 3);
    assert_eq!(sorted(&rev[0]), vec![(1, 0), (5, 2)]);
    assert!(rev[1].is_empty());
    assert_eq!(sorted(&rev[2]), vec![(3, 3)]);
    let back = alignment_reverse(&rev);
    for (x, y) in corpus.iter().zip(back.iter()) {
        assert_eq!(sorted(x), sorted(y));
    }
}

#[test]
fn intersect_and_join_start_from_the_new_alignment() {
    let new = vec![algn(&[(0, 0)])];
    let r = intersect_algn(None, new).unwrap();
    assert_eq!(r.len(), 1);
    assert_eq!(sorted(&r[0]), vec![(0, 0)]);
    let r = join_algn(None, vec![algn(&[(1, 2)])]).unwrap();
    assert_eq!(sorted(&r[0]), vec![(1, 2)]);
}

#[test]
fn intersect_and_join_truncate_to_the_shorter_corpus() {
    let running = vec![algn(&[(0, 0), (1, 1)]), algn(&[(2, 2)]), algn(&[(4, 4)])];
    let new = vec![algn(&[(1, 1), (5, 5)]), algn(&[(3, 3)])];
    let r = intersect_algn(Some(running.clone()), new.clone()).unwrap();
    assert_eq!(r.len(), 2);
    assert_eq!(sorted(&r[0]), vec![(1, 1)]);
    assert!(r[1].is_empty());
    let r = join_algn(Some(running), new).unwrap();
    assert_eq!(r.len(), 2);
    assert_eq!(sorted(&r[0]), vec![(0, 0), (1, 1), (5, 5)]);
    assert_eq!(sorted(&r[1]), vec![(2, 2), (3, 3)]);
}

#[test]
fn merging_is_commutative_and_idempotent() {
    let a = vec![algn(&[(0, 0), (1, 2)])];
    let b = vec![algn(&[(1, 2), (3, 4)])];
    let ab = intersect_algn(Some(a.clone()), b.clone()).unwrap();
    let ba = intersect_algn(Some(b.clone()), a.clone()).unwrap();
    assert_eq!(sorted(&ab[0]), sorted(&ba[0]));
    let ab = join_algn(Some(a.clone()), b.clone()).unwrap();
    let ba = join_algn(Some(b), a.clone()).unwrap();
    assert_eq!(sorted(&ab[0]), sorted(&ba[0]));
    let aa = join_algn(Some(a.clone()), a.clone()).unwrap();
    assert_eq!(sorted(&aa[0]), sorted(&a[0]));
    let aa = intersect_algn(Some(a.clone()), a.clone()).unwrap();
    assert_eq!(sorted(&aa[0]), sorted(&a[0]));
}

#[test]
fn merge_extracted_follows_the_recipe() {
    let actions = [AlgnMergeAction::INTERSECT, AlgnMergeAction::INTERSECT, AlgnMergeAction::JOIN];
    let extracted = vec![
        vec![algn(&[(0, 0), (1, 1), (2, 2)])],
        vec![algn(&[(1, 1), (2, 2), (3, 3)])],
        vec![algn(&[(7, 7)])],
    ];
    let r = merge_extracted(&actions, extracted);
    assert_eq!(r.len(), 1);
    assert_eq!(sorted(&r[0]), vec![(1, 1), (2, 2), (7, 7)]);
}

#[test]
fn merge_extracted_stops_with_the_shorter_list() {
    let actions = [AlgnMergeAction::JOIN];
    let extracted = vec![vec![algn(&[(0, 0)])], vec![algn(&[(1, 1)])]];
    let r = merge_extracted(&actions, extracted);
    assert_eq!(sorted(&r[0]), vec![(0, 0)]);
}

#[test]
fn sentence_counts_of_a_perfect_alignment() {
    let sure = algn(&[(0, 0), (1, 1)]);
    let poss = algn(&[(2, 1)]);
    let c = sentence_counts(&sure.clone(), &(sure, poss));
    assert_eq!(c, AerCounts { a_intersect_s: 2, a_intersect_p: 0, a_len: 2, s_len: 2 });
}

#[test]
fn alignment_error_counts_per_sentence() {
    let proposed = vec![algn(&[(0, 0), (1, 2), (2, 1)]), algn(&[]), algn(&[(5, 5)])];
    let gold = vec![
        (algn(&[(0, 0), (1, 1)]), algn(&[(1, 2)])),
        (algn(&[]), algn(&[])),
    ];
    let counts = alignment_error_counts(&proposed, &gold);
    assert_eq!(counts.len(), 2);
    assert_eq!(counts[0], AerCounts { a_intersect_s: 1, a_intersect_p: 1, a_len: 3, s_len: 2 });
    assert_eq!(counts[1], AerCounts { a_intersect_s: 0, a_intersect_p: 0, a_len: 0, s_len: 0 });
    let c = counts[0];
    assert!(2 * c.a_intersect_s + c.a_intersect_p <= c.a_len + c.s_len);
}

#[test]
fn overlapping_counts_take_sure_links_as_possible() {
    let proposed = vec![algn(&[(0, 0), (1, 2), (2, 1)]), algn(&[(4, 4)])];
    let gold = vec![
        (algn(&[(0, 0), (1, 1)]), algn(&[(0, 0), (1, 2)])),
        (algn(&[(4, 4)]), algn(&[])),
        (algn(&[]), algn(&[])),
    ];
    let counts = alignment_error_counts_overlapping(&proposed, &gold);
    assert_eq!(counts.len(), 2);
    assert_eq!(counts[0], AerCounts { a_intersect_s: 1, a_intersect_p: 2, a_len: 3, s_len: 2 });
    assert_eq!(counts[1], AerCounts { a_intersect_s: 1, a_intersect_p: 1, a_len: 1, s_len: 1 });
}
