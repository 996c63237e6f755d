use vstd::prelude::*;

use crate::alignment::{AlgnHard, Link};

verus! {

/// The alignments of a corpus, sentence by sentence, as sets of links.
pub open spec fn link_sets(v: Seq<AlgnHard>) -> Seq<Set<Link>> {
    v.map_values(|a: AlgnHard| a@)
}

/// The smaller of two lengths.
pub open spec fn min_len(a: nat, b: nat) -> nat {
    if a <= b {
        a
    } else {
        b
    }
}

/// Sentence-wise intersection, truncated to the shorter corpus.
pub open spec fn intersect_sets(a: Seq<Set<Link>>, b: Seq<Set<Link>>) -> Seq<Set<Link>> {
    Seq::new(min_len(a.len(), b.len()), |i: int| a[i].intersect(b[i]))
}

/// Sentence-wise union, truncated to the shorter corpus.
pub open spec fn join_sets(a: Seq<Set<Link>>, b: Seq<Set<Link>>) -> Seq<Set<Link>> {
    Seq::new(min_len(a.len(), b.len()), |i: int| a[i].union(b[i]))
}

/// How the alignment of one extractor is merged into the running one.
#[allow(non_camel_case_types)]
#[derive(Clone, Copy, Debug, PartialEq, Eq, Structural)]
pub enum AlgnMergeAction {
    JOIN,
    INTERSECT,
}

/// One merge step: the first alignment is taken as it is, later ones are
/// intersected with or joined to the running alignment.
pub open spec fn merge_step(
    running: Option<Seq<Set<Link>>>,
    action: AlgnMergeAction,
    new: Seq<Set<Link>>,
) -> Option<Seq<Set<Link>>> {
    match running {
        None => Some(new),
        Some(run) => match action {
            AlgnMergeAction::INTERSECT => Some(intersect_sets(run, new)),
            AlgnMergeAction::JOIN => Some(join_sets(run, new)),
        },
    }
}

/// The running alignment after the first `k` merge steps.
pub open spec fn merged(
    actions: Seq<AlgnMergeAction>,
    extracted: Seq<Seq<Set<Link>>>,
    k: nat,
) -> Option<Seq<Set<Link>>>
    decreases k,
{
    if k == 0 {
        None
    } else {
        merge_step(merged(actions, extracted, (k - 1) as nat), actions[k - 1], extracted[k - 1])
    }
}

/// Intersect hard alignments sentence by sentence; with no running alignment
/// the new one is taken as it is.
pub fn intersect_algn(running: Option<Vec<AlgnHard>>, new: Vec<AlgnHard>) -> (r: Option<Vec<AlgnHard>>)
    ensures
        r is Some,
        running is None ==> r == Some(new),
        running matches Some(run) ==> link_sets(r->0@) == intersect_sets(link_sets(run@), link_sets(new@)),
{
    match running {
        None => Some(new),
        Some(run) => {
            let n = if run.len() <= new.len() { run.len() } else { new.len() };
            let mut out: Vec<AlgnHard> = Vec::new();
            let mut i: usize = 0;
            while i < n
                invariant
                    n == min_len(run@.len(), new@.len()),
                    i <= n,
                    out@.len() == i,
                    forall|k: int| 0 <= k < i ==> #[trigger] out@[k]@ == run@[k]@.intersect(new@[k]@),
                decreases n - i,
            {
                out.push(run[i].intersection(&new[i]));
                i = i + 1;
            }
            proof {
                assert(link_sets(out@) =~= intersect_sets(link_sets(run@), link_sets(new@)));
            }
            Some(out)
        },
    }
}

/// Join hard alignments sentence by sentence; with no running alignment
/// the new one is taken as it is.
pub fn join_algn(running: Option<Vec<AlgnHard>>, new: Vec<AlgnHard>) -> (r: Option<Vec<AlgnHard>>)
    ensures
        r is Some,
        running is None ==> r == Some(new),
        running matches Some(run) ==> link_sets(r->0@) == join_sets(link_sets(run@), link_sets(new@)),
{
    match running {
        None => Some(new),
        Some(run) => {
            let n = if run.len() <= new.len() { run.len() } else { new.len() };
            let mut out: Vec<AlgnHard> = Vec::new();
            let mut i: usize = 0;
            while i < n
                invariant
                    n == min_len(run@.len(), new@.len()),
                    i <= n,
                    out@.len() == i,
                    forall|k: int| 0 <= k < i ==> #[trigger] out@[k]@ == run@[k]@.union(new@[k]@),
                decreases n - i,
            {
                out.push(run[i].union(&new[i]));
                i = i + 1;
            }
            proof {
                assert(link_sets(out@) =~= join_sets(link_sets(run@), link_sets(new@)));
            }
            Some(out)
        },
    }
}


/// The link sets of an optional corpus alignment.
pub open spec fn opt_link_sets(o: Option<Vec<AlgnHard>>) -> Option<Seq<Set<Link>>> {
    match o {
        None => None,
        Some(v) => Some(link_sets(v@)),
    }
}

/// The link sets of the alignments produced by each extractor.
pub open spec fn extracted_sets(extracted: Seq<Vec<AlgnHard>>) -> Seq<Seq<Set<Link>>> {
    extracted.map_values(|v: Vec<AlgnHard>| link_sets(v@))
}

/// Combines the corpus alignments produced by a list of extractors into one hard
/// alignment: step `k` merges `extracted[k]` into the running alignment as
/// `actions[k]` says. Steps are taken while both lists last.
pub fn merge_extracted(actions: &[AlgnMergeAction], extracted: Vec<Vec<AlgnHard>>) -> (r: Vec<AlgnHard>)
    requires
        min_len(actions@.len(), extracted@.len()) > 0,
    ensures
        merged(actions@, extracted_sets(extracted@), min_len(actions@.len(), extracted@.len()))
            == Some(link_sets(r@)),
{
    let ghost orig = extracted@;
    let steps = if actions.len() <= extracted.len() { actions.len() } else { extracted.len() };
    let mut rest = extracted;
    let mut running: Option<Vec<AlgnHard>> = None;
    let mut k: usize = 0;
    while k < steps
        invariant
            steps == min_len(actions@.len(), orig.len()),
            k <= steps,
            rest@ == orig.skip(k as int),
            opt_link_sets(running) == merged(actions@, extracted_sets(orig), k as nat),
        decreases steps - k,
    {
        let new = rest.remove(0);
        proof {
            assert(new == orig[k as int]);
            assert(rest@ =~= orig.skip(k + 1));
        }
        running = match actions[k] {
            AlgnMergeAction::INTERSECT => intersect_algn(running, new),
            AlgnMergeAction::JOIN => join_algn(running, new),
        };
        k = k + 1;
    }
    running.unwrap()
}


/// The first extractor's alignment is taken as it is, whatever its action; each
/// later one is intersected with or joined to the running alignment by its own action.
pub proof fn lemma_merged_steps(actions: Seq<AlgnMergeAction>, extracted: Seq<Seq<Set<Link>>>, k: nat)
    requires
        0 < k < min_len(actions.len(), extracted.len()),
    ensures
        merged(actions, extracted, 1) == Some(extracted[0]),
        merged(actions, extracted, k) is Some,
        actions[k as int] == AlgnMergeAction::INTERSECT ==> merged(actions, extracted, k + 1) == Some(
            intersect_sets(merged(actions, extracted, k)->0, extracted[k as int]),
        ),
        actions[k as int] == AlgnMergeAction::JOIN ==> merged(actions, extracted, k + 1) == Some(
            join_sets(merged(actions, extracted, k)->0, extracted[k as int]),
        ),
    decreases k,
{
    assert(merged(actions, extracted, 0) is None);
    if k > 1 {
        lemma_merged_steps(actions, extracted, (k - 1) as nat);
    }
}

/// Sentence-wise merging covers the sentences both corpora have: a link is kept by
/// the intersection exactly when both alignments of its sentence hold it, and by the
/// join exactly when either does.
pub proof fn lemma_merge_members(a: Seq<Set<Link>>, b: Seq<Set<Link>>, i: int, p: Link)
    requires
        0 <= i < min_len(a.len(), b.len()),
    ensures
        intersect_sets(a, b).len() == min_len(a.len(), b.len()),
        join_sets(a, b).len() == min_len(a.len(), b.len()),
        intersect_sets(a, b)[i].contains(p) <==> a[i].contains(p) && b[i].contains(p),
        join_sets(a, b)[i].contains(p) <==> a[i].contains(p) || b[i].contains(p),
{
}

/// Sentence-wise intersection does not depend on the order of its arguments.
pub proof fn lemma_intersect_sets_commutative(a: Seq<Set<Link>>, b: Seq<Set<Link>>)
    ensures
        intersect_sets(a, b) == intersect_sets(b, a),
{
    assert forall|i: int| 0 <= i < intersect_sets(a, b).len() implies #[trigger] intersect_sets(a, b)[i]
        == intersect_sets(b, a)[i] by {
        assert(a[i].intersect(b[i]) =~= b[i].intersect(a[i]));
    }
    assert(intersect_sets(a, b) =~= intersect_sets(b, a));
}

/// Sentence-wise union does not depend on the order of its arguments.
pub proof fn lemma_join_sets_commutative(a: Seq<Set<Link>>, b: Seq<Set<Link>>)
    ensures
        join_sets(a, b) == join_sets(b, a),
{
    assert forall|i: int| 0 <= i < join_sets(a, b).len() implies #[trigger] join_sets(a, b)[i]
        == join_sets(b, a)[i] by {
        assert(a[i].union(b[i]) =~= b[i].union(a[i]));
    }
    assert(join_sets(a, b) =~= join_sets(b, a));
}

/// Merging an alignment with itself, by either action, gives it back.
pub proof fn lemma_merge_with_itself(a: Seq<Set<Link>>)
    ensures
        intersect_sets(a, a) == a,
        join_sets(a, a) == a,
{
    assert forall|i: int| 0 <= i < a.len() implies #[trigger] intersect_sets(a, a)[i] == a[i] by {
        assert(a[i].intersect(a[i]) =~= a[i]);
    }
    assert forall|i: int| 0 <= i < a.len() implies #[trigger] join_sets(a, a)[i] == a[i] by {
        assert(a[i].union(a[i]) =~= a[i]);
    }
    assert(intersect_sets(a, a) =~= a);
    assert(join_sets(a, a) =~= a);
}

/// Every link kept by an intersection is in both inputs, and every link of
/// either input is kept by a join.
pub proof fn lemma_intersect_within_join(a: Seq<Set<Link>>, b: Seq<Set<Link>>, i: int)
    requires
        0 <= i < min_len(a.len(), b.len()),
    ensures
        intersect_sets(a, b)[i].subset_of(a[i]),
        intersect_sets(a, b)[i].subset_of(b[i]),
        a[i].subset_of(join_sets(a, b)[i]),
        b[i].subset_of(join_sets(a, b)[i]),
{
}

} // verus!
