use vstd::prelude::*;

verus! {

/// How a traced light path ends.
#[derive(Clone, Copy, Debug, PartialEq, Eq, Structural)]
pub enum Shade {
    /// The bounce budget ran out before the path escaped: it contributes black.
    Black,
    /// The path escaped to the sky after `bounces` diffuse bounces; the sky color
    /// it sees is halved once for each of them.
    Sky { bounces: u32 },
}

/// One more diffuse bounce in front of a path that ended with `s`.
pub open spec fn behind_bounce(s: Shade) -> Shade {
    match s {
        Shade::Black => Shade::Black,
        Shade::Sky { bounces } => Shade::Sky { bounces: (bounces + 1) as u32 },
    }
}

/// The color resolution rule, with `hits[k]` the answer of the scene to the
/// `k`-th query along the path (a query past the end of `hits` misses):
/// a spent budget gives black, a miss gives the sky, and a hit gives half of
/// what the bounced ray resolves to with one bounce less.
pub open spec fn resolve(depth: nat, hits: Seq<bool>) -> Shade
    decreases depth,
{
    if depth == 0 {
        Shade::Black
    } else if hits.len() > 0 && hits[0] {
        behind_bounce(resolve((depth - 1) as nat, hits.drop_first()))
    } else {
        Shade::Sky { bounces: 0 }
    }
}

/// The number of hits with which `hits` begins.
pub open spec fn leading_hits(hits: Seq<bool>) -> nat
    decreases hits.len(),
{
    if hits.len() > 0 && hits[0] {
        1 + leading_hits(hits.drop_first())
    } else {
        0
    }
}

/// Closed form of `resolve`: the path escapes after its leading hits, unless
/// they use up the whole budget.
pub proof fn lemma_resolve_closed_form(depth: nat, hits: Seq<bool>)
    requires
        depth <= u32::MAX,
    ensures
        resolve(depth, hits) == (if leading_hits(hits) >= depth {
            Shade::Black
        } else {
            Shade::Sky { bounces: leading_hits(hits) as u32 }
        }),
    decreases depth,
{
    if depth > 0 && hits.len() > 0 && hits[0] {
        lemma_resolve_closed_form((depth - 1) as nat, hits.drop_first());
    }
}

/// With no bounce left, a path is black whatever the ray and the scene.
pub proof fn lemma_spent_budget_is_black(hits: Seq<bool>)
    ensures
        resolve(0, hits) == Shade::Black,
{
}

/// A ray that misses the scene at its first query sees the sky without any
/// attenuation.
pub proof fn lemma_miss_sees_plain_sky(depth: nat, hits: Seq<bool>)
    requires
        depth > 0,
        hits.len() == 0 || !hits[0],
    ensures
        resolve(depth, hits) == (Shade::Sky { bounces: 0 }),
{
}

/// A path never bounces as often as its budget allows: the bounces it records
/// stay below the budget.
pub proof fn lemma_bounces_below_budget(depth: nat, hits: Seq<bool>)
    requires
        depth <= u32::MAX,
    ensures
        resolve(depth, hits) matches Shade::Sky { bounces } ==> bounces < depth,
{
    lemma_resolve_closed_form(depth, hits);
}

/// The state of the color resolution of one camera ray, advanced by the
/// answers of the scene to its queries.
pub struct Path {
    remaining: u32,
    bounces: u32,
    end: Option<Shade>,
}

/// What a caller does next for a path.
#[derive(Clone, Copy, Debug, PartialEq, Eq, Structural)]
pub enum Step {
    /// Query the scene with the current ray (after a hit: the bounced ray).
    Query,
    /// The path is resolved.
    Finish(Shade),
}

impl Path {
    /// Whether the path still waits for the answer to a query.
    pub closed spec fn is_open(&self) -> bool {
        self.end is None
    }

    /// The budget still left never overflows once the bounces made are added.
    pub closed spec fn wf(&self) -> bool {
        &&& self.bounces + self.remaining <= u32::MAX
        &&& self.end is None ==> self.remaining > 0
    }

    /// The shade this path resolves to when the rest of the queries answer
    /// `hits`.
    pub closed spec fn outcome(&self, hits: Seq<bool>) -> Shade {
        match self.end {
            Some(s) => s,
            None => {
                let rest = resolve(self.remaining as nat, hits);
                match rest {
                    Shade::Black => Shade::Black,
                    Shade::Sky { bounces } => Shade::Sky {
                        bounces: (bounces + self.bounces) as u32,
                    },
                }
            },
        }
    }

    /// A path for a camera ray with a budget of `depth_budget` bounces.
    pub fn new(depth_budget: u32) -> (r: Path)
        ensures
            r.wf(),
            r.is_open() <==> depth_budget > 0,
            forall|hits: Seq<bool>| #[trigger] r.outcome(hits) == resolve(depth_budget as nat, hits),
    {
        if depth_budget == 0 {
            Path { remaining: 0, bounces: 0, end: Some(Shade::Black) }
        } else {
            Path { remaining: depth_budget, bounces: 0, end: None }
        }
    }

    /// What to do next: query the scene while the path is unresolved.
    pub fn next_step(&self) -> (r: Step)
        ensures
            r is Query <==> self.is_open(),
            r matches Step::Finish(s) ==> forall|hits: Seq<bool>| #[trigger] self.outcome(hits) == s,
    {
        match self.end {
            Some(s) => Step::Finish(s),
            None => Step::Query,
        }
    }

    /// Takes the answer of the scene to the query of the current ray.
    pub fn record(&mut self, hit: bool)
        requires
            old(self).wf(),
            old(self).is_open(),
        ensures
            final(self).wf(),
            !hit ==> !final(self).is_open(),
            forall|hits: Seq<bool>| #[trigger]
                final(self).outcome(hits) == old(self).outcome(seq![hit] + hits),
    {
        if hit {
            if self.remaining == 1 {
                self.end = Some(Shade::Black);
            } else {
                self.remaining = self.remaining - 1;
                self.bounces = self.bounces + 1;
            }
        } else {
            self.end = Some(Shade::Sky { bounces: self.bounces });
        }
        assert forall|hits: Seq<bool>| #[trigger]
            self.outcome(hits) == old(self).outcome(seq![hit] + hits) by {
            let all = seq![hit] + hits;
            assert(all[0] == hit);
            assert(all.drop_first() =~= hits);
            if hit {
                lemma_bounces_below_budget((old(self).remaining - 1) as nat, hits);
                assert(resolve(old(self).remaining as nat, all) == behind_bounce(
                    resolve((old(self).remaining - 1) as nat, hits),
                ));
            }
        }
    }
}

/// The shade of a path whose queries are answered, in order, by `hits`; a
/// query past the end of `hits` misses.
pub fn shade_of_hits(depth_budget: u32, hits: &Vec<bool>) -> (r: Shade)
    ensures
        r == resolve(depth_budget as nat, hits@),
        depth_budget == 0 ==> r == Shade::Black,
        r matches Shade::Sky { bounces } ==> bounces < depth_budget,
{
    proof {
        lemma_bounces_below_budget(depth_budget as nat, hits@);
    }
    let mut path = Path::new(depth_budget);
    let mut i: usize = 0;
    while i < hits.len()
        invariant
            i <= hits@.len(),
            path.wf(),
            forall|t: Seq<bool>| #[trigger]
                path.outcome(t) == resolve(depth_budget as nat, hits@.subrange(0, i as int) + t),
        decreases hits@.len() - i,
    {
        if let Step::Finish(s) = path.next_step() {
            assert(hits@.subrange(0, i as int) + hits@.subrange(i as int, hits@.len() as int)
                =~= hits@);
            assert(path.outcome(hits@.subrange(i as int, hits@.len() as int)) == s);
            assert(s == resolve(depth_budget as nat, hits@));
            proof {
                lemma_bounces_below_budget(depth_budget as nat, hits@);
            }
            return s;
        }
        let ghost before = path;
        path.record(hits[i]);
        assert forall|t: Seq<bool>| #[trigger]
            path.outcome(t) == resolve(depth_budget as nat, hits@.subrange(0, i + 1) + t) by {
            assert(hits@.subrange(0, i + 1) + t =~= hits@.subrange(0, i as int) + (seq![hits@[i as int]] + t));
            assert(path.outcome(t) == before.outcome(seq![hits@[i as int]] + t));
        }
        i = i + 1;
    }
    assert(hits@.subrange(0, i as int) + Seq::<bool>::empty() =~= hits@);
    assert(path.outcome(Seq::<bool>::empty()) == resolve(depth_budget as nat, hits@));
    match path.next_step() {
        Step::Finish(s) => s,
        Step::Query => {
            let ghost before = path;
            path.record(false);
            assert(before.outcome(seq![false] + Seq::<bool>::empty()) == before.outcome(Seq::<bool>::empty()));
            match path.next_step() {
                Step::Finish(s) => {
                    assert(path.outcome(Seq::<bool>::empty()) == s);
                    s
                }
                Step::Query => {
                    assert(false);
                    Shade::Black
                }
            }
        }
    }
}

} // verus!
