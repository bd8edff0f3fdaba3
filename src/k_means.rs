//! Iterative partitioning of samples into as many groups as there are initial
//! centroids, with pluggable distance, centroid and convergence functions.
use vstd::prelude::*;

verus! {

/// Class `g` is the first centroid at least distance from `t`, for distances
/// that `distance` may return.
pub open spec fn nearest<C, T, F: Fn(&C, &T) -> usize>(distance: F, centers: Seq<C>, t: T, g: int) -> bool {
    &&& 0 <= g < centers.len()
    &&& exists|ds: Seq<usize>|
        {
            &&& ds.len() == centers.len()
            &&& forall|j: int| 0 <= j < ds.len() ==> distance.ensures((&centers[j], &t), #[trigger] ds[j])
            &&& forall|j: int| 0 <= j < ds.len() ==> ds[g] <= #[trigger] ds[j]
            &&& forall|j: int| 0 <= j < g ==> ds[g] < #[trigger] ds[j]
        }
}

/// The samples among the first `n` that `assign` puts in group `g`, in order.
pub open spec fn group_upto<T>(samples: Seq<T>, assign: Seq<int>, g: int, n: nat) -> Seq<T>
    decreases n,
{
    if n == 0 {
        seq![]
    } else if assign[n - 1] == g {
        group_upto(samples, assign, g, (n - 1) as nat).push(samples[n - 1])
    } else {
        group_upto(samples, assign, g, (n - 1) as nat)
    }
}

/// `groups` is the partition of `samples` that gives each sample to its
/// nearest centroid, keeping the samples' order within each group.
pub open spec fn nearest_partition<C, T, F: Fn(&C, &T) -> usize>(
    distance: F,
    centers: Seq<C>,
    samples: Seq<T>,
    groups: Seq<Seq<T>>,
) -> bool {
    &&& groups.len() == centers.len()
    &&& exists|assign: Seq<int>|
        {
            &&& assign.len() == samples.len()
            &&& forall|k: int| 0 <= k < samples.len() ==> nearest(distance, centers, samples[k], #[trigger] assign[k])
            &&& forall|g: int| 0 <= g < groups.len() ==> #[trigger] groups[g] == group_upto(samples, assign, g, samples.len())
        }
}

pub open spec fn groups_view<T>(groups: Seq<Vec<T>>) -> Seq<Seq<T>> {
    Seq::new(groups.len(), |g: int| groups[g]@)
}

/// Assigns `t` to its nearest centroid (the first one on a tie).
fn nearest_center<C, T, F>(distance: &F, centers: &Vec<C>, t: &T) -> (g: usize)
    where
        F: Fn(&C, &T) -> usize,
    requires
        centers@.len() > 0,
        forall|c: &C, s: &T| distance.requires((c, s)),
    ensures
        nearest(*distance, centers@, *t, g as int),
{
    let mut best: usize = 0;
    let mut best_d = distance(&centers[0], t);
    let ghost mut ds: Seq<usize> = seq![best_d];
    for j in 1..centers.len()
        invariant
            forall|c: &C, s: &T| distance.requires((c, s)),
            ds.len() == j,
            best < j,
            ds[best as int] == best_d,
            forall|i: int| 0 <= i < j ==> distance.ensures((&centers@[i], t), #[trigger] ds[i]),
            forall|i: int| 0 <= i < j ==> best_d <= #[trigger] ds[i],
            forall|i: int| 0 <= i < best ==> best_d < #[trigger] ds[i],
    {
        let d = distance(&centers[j], t);
        proof {
            ds = ds.push(d);
        }
        if d < best_d {
            best = j;
            best_d = d;
        }
    }
    assert(ds.len() == centers@.len());
    best
}

/// Whether `converged` holds of every pair of groups at the same index, over
/// the groups that both partitions have.
fn all_converged<T, E>(converged: &E, previous: &Vec<Vec<T>>, candidate: &Vec<Vec<T>>) -> (r: bool)
    where
        E: Fn(&[T], &[T]) -> bool,
    requires
        forall|a: &[T], b: &[T]| converged.requires((a, b)),
    ensures
        previous@.len() == 0 ==> r,
{
    let mut i: usize = 0;
    while i < previous.len() && i < candidate.len()
        invariant
            forall|a: &[T], b: &[T]| converged.requires((a, b)),
        decreases previous@.len() - i,
    {
        if !converged(previous[i].as_slice(), candidate[i].as_slice()) {
            return false;
        }
        i = i + 1;
    }
    true
}

/// Partitions `lst` around the centroids `init_center`.
///
/// Each pass gives every sample to its nearest centroid (the first one on a
/// tie), then compares the new partition with the one before it, group by
/// group, through `calc_eq`. If every pair agrees the new partition is
/// returned; otherwise each centroid is recomputed with `calc_center` (an
/// empty group keeps its centroid) and another pass starts. The partition
/// before the first pass has no groups, so that comparison holds at once:
/// the result is the first pass's partition around `init_center`.
pub fn solve<T, C, F, G, E>(
    calc_distance: F,
    calc_center: G,
    calc_eq: E,
    init_center: Vec<C>,
    lst: &[T],
) -> (r: Vec<Vec<T>>)
    where
        T: Copy,
        C: Copy,
        F: Fn(&C, &T) -> usize,
        G: Fn(&[T]) -> Option<C>,
        E: Fn(&[T], &[T]) -> bool,
    requires
        init_center@.len() > 0,
        forall|c: &C, t: &T| calc_distance.requires((c, t)),
        forall|s: &[T]| calc_center.requires((s,)),
        forall|a: &[T], b: &[T]| calc_eq.requires((a, b)),
    ensures
        nearest_partition(calc_distance, init_center@, lst@, groups_view(r@)),
{
    let n = init_center.len();
    let ghost first_centers = init_center@;
    let mut previous: Vec<Vec<T>> = Vec::new();
    let mut center_lst: Vec<C> = init_center;
    // A pass ends the loop as soon as `all_converged` holds, which it does at
    // once against a previous partition with no groups: the loop never starts
    // a second pass, which is what the invariant and the measure record.
    loop
        invariant
            n == center_lst@.len(),
            n > 0,
            previous@.len() == 0,
            center_lst@ == first_centers,
            first_centers == init_center@,
            forall|c: &C, t: &T| calc_distance.requires((c, t)),
            forall|s: &[T]| calc_center.requires((s,)),
            forall|a: &[T], b: &[T]| calc_eq.requires((a, b)),
        decreases 1 - previous@.len(),
    {
        let mut candidate: Vec<Vec<T>> = Vec::new();
        for g in 0..n
            invariant
                candidate@.len() == g,
                forall|i: int| 0 <= i < g ==> (#[trigger] candidate@[i])@ == Seq::<T>::empty(),
        {
            candidate.push(Vec::new());
        }
        let ghost mut assign: Seq<int> = seq![];
        for k in 0..lst.len()
            invariant
                n == center_lst@.len(),
                n > 0,
                forall|c: &C, t: &T| calc_distance.requires((c, t)),
                candidate@.len() == n,
                assign.len() == k,
                forall|i: int| 0 <= i < k ==> nearest(calc_distance, center_lst@, lst@[i], #[trigger] assign[i]),
                forall|g: int| 0 <= g < n ==> (#[trigger] candidate@[g])@ == group_upto(lst@, assign, g, k as nat),
        {
            let data = &lst[k];
            let g = nearest_center(&calc_distance, &center_lst, data);
            let ghost before = assign;
            proof {
                assign = assign.push(g as int);
            }
            candidate[g].push(*data);
            proof {
                assert forall|h: int| 0 <= h < n implies (#[trigger] candidate@[h])@ == group_upto(
                    lst@,
                    assign,
                    h,
                    (k + 1) as nat,
                ) by {
                    lemma_group_upto_prefix(lst@, assign, before, h, k as nat);
                }
            }
        }
        if all_converged(&calc_eq, &previous, &candidate) {
            proof {
                let groups = groups_view(candidate@);
                assert forall|g: int| 0 <= g < groups.len() implies #[trigger] groups[g] == group_upto(
                    lst@,
                    assign,
                    g,
                    lst@.len(),
                ) by {}
                assert(assign.len() == lst@.len());
                assert(forall|k: int| 0 <= k < lst@.len() ==> nearest(calc_distance, first_centers, lst@[k], #[trigger] assign[k]));
                assert(nearest_partition(calc_distance, first_centers, lst@, groups));
            }
            return candidate;
        }
        let mut centers: Vec<C> = Vec::new();
        for i in 0..candidate.len()
            invariant
                forall|s: &[T]| calc_center.requires((s,)),
                candidate@.len() == center_lst@.len(),
                centers@.len() == i,
        {
            match calc_center(candidate[i].as_slice()) {
                Some(c) => centers.push(c),
                None => centers.push(center_lst[i]),
            }
        }
        center_lst = centers;
        previous = candidate;
    }
}

proof fn lemma_group_upto_prefix<T>(samples: Seq<T>, a: Seq<int>, b: Seq<int>, g: int, n: nat)
    requires
        a.len() >= n,
        b.len() >= n,
        forall|i: int| 0 <= i < n ==> a[i] == b[i],
    ensures
        group_upto(samples, a, g, n) == group_upto(samples, b, g, n),
    decreases n,
{
    if n > 0 {
        lemma_group_upto_prefix(samples, a, b, g, (n - 1) as nat);
    }
}

/// With a single centroid every sample is nearest to it, so the partition is
/// one group holding all the samples in their order.
pub proof fn lemma_single_centroid<C, T, F: Fn(&C, &T) -> usize>(
    distance: F,
    centers: Seq<C>,
    samples: Seq<T>,
    groups: Seq<Seq<T>>,
)
    requires
        centers.len() == 1,
        nearest_partition(distance, centers, samples, groups),
    ensures
        groups == seq![samples],
{
    let assign = choose|assign: Seq<int>|
        {
            &&& assign.len() == samples.len()
            &&& forall|k: int| 0 <= k < samples.len() ==> nearest(distance, centers, samples[k], #[trigger] assign[k])
            &&& forall|g: int| 0 <= g < groups.len() ==> #[trigger] groups[g] == group_upto(samples, assign, g, samples.len())
        };
    assert forall|k: int| 0 <= k < samples.len() implies assign[k] == 0 by {
        assert(nearest(distance, centers, samples[k], assign[k]));
    }
    lemma_group_upto_all(samples, assign, samples.len());
    assert(groups[0] == samples.take(samples.len() as int));
    assert(samples.take(samples.len() as int) =~= samples);
    assert(groups =~= seq![samples]);
}

proof fn lemma_group_upto_all<T>(samples: Seq<T>, assign: Seq<int>, n: nat)
    requires
        n <= samples.len(),
        n <= assign.len(),
        forall|k: int| 0 <= k < n ==> assign[k] == 0,
    ensures
        group_upto(samples, assign, 0, n) == samples.take(n as int),
    decreases n,
{
    if n > 0 {
        lemma_group_upto_all(samples, assign, (n - 1) as nat);
        assert(samples.take(n as int) =~= samples.take(n - 1).push(samples[n - 1]));
    }
}

} // verus!
