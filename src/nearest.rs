use vstd::prelude::*;

verus! {

// A ray parameter `t` is handed to this module as an order key: a `u64`
// whose unsigned order is the order of the parameters it stands for.

/// Which root of a ray-sphere quadratic a hit lies at.
#[derive(Clone, Copy, Debug, PartialEq, Eq, Structural)]
pub enum Root {
    /// The smaller root: the surface the ray reaches first.
    Near,
    /// The larger root: the ray leaves the sphere there.
    Far,
}

/// Whether `t` lies within `[t_min, t_max]`, bounds included.
pub open spec fn within(t: u64, t_min: u64, t_max: u64) -> bool {
    t_min <= t && t <= t_max
}

/// Picks the root that a sphere reports: the near one when it lies within the
/// bounds, else the far one when it does, else none.
pub fn pick_root(near: u64, far: u64, t_min: u64, t_max: u64) -> (r: Option<Root>)
    ensures
        r == Some(Root::Near) <==> within(near, t_min, t_max),
        r == Some(Root::Far) <==> !within(near, t_min, t_max) && within(far, t_min, t_max),
        r is None <==> !within(near, t_min, t_max) && !within(far, t_min, t_max),
{
    if near < t_min || t_max < near {
        if far < t_min || t_max < far {
            None
        } else {
            Some(Root::Far)
        }
    } else {
        Some(Root::Near)
    }
}

/// Whether some member of a scene reports a hit.
pub open spec fn any_hit(hits: Seq<Option<u64>>) -> bool {
    exists|j: int| 0 <= j < hits.len() && #[trigger] hits[j] is Some
}

/// Whether member `i` holds the closest hit of the scene: no member hits
/// nearer, and a later member that hits as near wins over it.
pub open spec fn is_closest(hits: Seq<Option<u64>>, i: int) -> bool {
    &&& 0 <= i < hits.len()
    &&& hits[i] is Some
    &&& forall|j: int|
        0 <= j < hits.len() && #[trigger] hits[j] is Some ==> hits[i]->0 <= hits[j]->0
    &&& forall|j: int|
        i < j < hits.len() && #[trigger] hits[j] is Some ==> hits[i]->0 < hits[j]->0
}

/// The member whose hit a scene reports, given what each member reports on its
/// own for the same ray and bounds (`None`: no hit).
pub fn closest_member(hits: &Vec<Option<u64>>) -> (r: Option<usize>)
    ensures
        r is None <==> !any_hit(hits@),
        r matches Some(i) ==> is_closest(hits@, i as int),
{
    let mut best: Option<usize> = None;
    let mut i: usize = 0;
    while i < hits.len()
        invariant
            i <= hits@.len(),
            best is None <==> !any_hit(hits@.subrange(0, i as int)),
            best matches Some(b) ==> is_closest(hits@.subrange(0, i as int), b as int),
        decreases hits@.len() - i,
    {
        let ghost before = hits@.subrange(0, i as int);
        let ghost after = hits@.subrange(0, i + 1);
        assert(forall|j: int| 0 <= j < i ==> after[j] == before[j]);
        match hits[i] {
            Some(t) => {
                let take = match best {
                    None => true,
                    Some(b) => match hits[b] {
                        Some(tb) => t <= tb,
                        None => true,
                    },
                };
                if take {
                    best = Some(i);
                }
                assert(after[i as int] == Some(t));
            },
            None => {
                assert(after[i as int] is None);
            },
        }
        i = i + 1;
    }
    assert(hits@.subrange(0, i as int) =~= hits@);
    best
}

/// A closest hit is the only one: at most one member holds it.
pub proof fn lemma_closest_unique(hits: Seq<Option<u64>>, i: int, k: int)
    requires
        is_closest(hits, i),
        is_closest(hits, k),
    ensures
        i == k,
{
    if i < k {
        assert(hits[k] is Some);
    } else if k < i {
        assert(hits[i] is Some);
    }
}

/// Whether member `m` has a place in the order `order`.
pub open spec fn listed(order: Seq<int>, m: int) -> bool {
    exists|j: int| 0 <= j < order.len() && #[trigger] order[j] == m
}

/// Reordering the members of a scene does not change which of them is hit
/// first, as long as no two members report hits at the same parameter:
/// `reordered[j]` is member `order[j]` of `hits`.
pub proof fn lemma_closest_order_independent(
    hits: Seq<Option<u64>>,
    reordered: Seq<Option<u64>>,
    order: Seq<int>,
    i: int,
    k: int,
)
    requires
        order.len() == hits.len(),
        reordered.len() == hits.len(),
        forall|j: int| 0 <= j < order.len() ==> 0 <= #[trigger] order[j] < hits.len(),
        forall|m: int| 0 <= m < hits.len() ==> #[trigger] listed(order, m),
        forall|j: int| 0 <= j < order.len() ==> #[trigger] reordered[j] == hits[order[j]],
        forall|a: int, b: int|
            0 <= a < hits.len() && 0 <= b < hits.len() && a != b && #[trigger] hits[a] is Some
                && #[trigger] hits[b] is Some ==> hits[a]->0 != hits[b]->0,
        is_closest(hits, i),
        is_closest(reordered, k),
    ensures
        order[k] == i,
{
    let m = order[k];
    assert(reordered[k] == hits[m]);
    assert forall|n: int| 0 <= n < hits.len() && #[trigger] hits[n] is Some implies hits[m]->0
        <= hits[n]->0 by {
        assert(listed(order, n));
        let j = choose|j: int| 0 <= j < order.len() && #[trigger] order[j] == n;
        assert(reordered[j] == hits[n]);
    }
    assert forall|n: int| m < n < hits.len() && #[trigger] hits[n] is Some implies hits[m]->0
        < hits[n]->0 by {
        assert(listed(order, n));
        let j = choose|j: int| 0 <= j < order.len() && #[trigger] order[j] == n;
        assert(reordered[j] == hits[n]);
    }
    lemma_closest_unique(hits, i, m);
}

/// No member is hit in one order exactly when none is hit in the other.
pub proof fn lemma_no_hit_order_independent(
    hits: Seq<Option<u64>>,
    reordered: Seq<Option<u64>>,
    order: Seq<int>,
)
    requires
        order.len() == hits.len(),
        reordered.len() == hits.len(),
        forall|j: int| 0 <= j < order.len() ==> 0 <= #[trigger] order[j] < hits.len(),
        forall|m: int| 0 <= m < hits.len() ==> #[trigger] listed(order, m),
        forall|j: int| 0 <= j < order.len() ==> #[trigger] reordered[j] == hits[order[j]],
    ensures
        any_hit(hits) <==> any_hit(reordered),
{
    if any_hit(hits) {
        let m = choose|m: int| 0 <= m < hits.len() && #[trigger] hits[m] is Some;
        assert(listed(order, m));
        let j = choose|j: int| 0 <= j < order.len() && #[trigger] order[j] == m;
        assert(reordered[j] is Some);
    }
    if any_hit(reordered) {
        let j = choose|j: int| 0 <= j < reordered.len() && #[trigger] reordered[j] is Some;
        assert(hits[order[j]] is Some);
    }
}

} // verus!
