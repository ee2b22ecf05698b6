//! The visited record shared by the strategies: for each state seen so far,
//! the best cost recorded for it, together with the order of first visits.
use vstd::hash_map::HashMapWithView;
use vstd::prelude::*;

verus! {

broadcast use vstd::std_specs::hash::group_hash_axioms;

/// Two to the 64th: one more than the number of distinct costs.
pub open spec fn cost_span() -> int {
    0x1_0000_0000_0000_0000int
}

/// Sum over `order` of each state's recorded cost, shifted to be non-negative.
pub open spec fn weight(order: Seq<u64>, costs: Map<u64, isize>) -> int
    decreases order.len(),
{
    if order.len() == 0 {
        0
    } else {
        weight(order.drop_last(), costs) + (costs[order.last()] - isize::MIN)
    }
}

/// Visited states with their best recorded cost; the order of first visits
/// is kept beside the map.
pub struct Visited {
    costs: HashMapWithView<u64, isize>,
    order: Vec<u64>,
}

impl Visited {
    /// Recorded best cost per visited state.
    pub closed spec fn costs(&self) -> Map<u64, isize> {
        self.costs@
    }

    /// Visited states, in the order of their first visit.
    pub closed spec fn order(&self) -> Seq<u64> {
        self.order@
    }

    pub open spec fn wf(&self) -> bool {
        &&& self.order().no_duplicates()
        &&& self.order().len() <= usize::MAX
        &&& forall|s: u64| #[trigger] self.costs().contains_key(s) <==> self.order().contains(s)
    }

    /// Shrinks strictly whenever a state is added or its cost is lowered;
    /// it bounds the work any search can do.
    pub open spec fn measure(&self) -> int {
        (usize::MAX - self.order().len()) * cost_span() + weight(self.order(), self.costs())
    }

    pub proof fn lemma_measure_nonneg(&self)
        requires
            self.wf(),
        ensures
            self.measure() >= 0,
    {
        lemma_weight_bounds(self.order(), self.costs());
    }

    /// The recorded states, as a set.
    pub proof fn lemma_order_set(&self)
        requires
            self.wf(),
        ensures
            self.order().to_set() == self.costs().dom(),
    {
        assert(self.order().to_set() =~= self.costs().dom());
    }

    pub fn new() -> (r: Visited)
        ensures
            r.wf(),
            r.costs() == Map::<u64, isize>::empty(),
            r.order() == Seq::<u64>::empty(),
    {
        Visited { costs: HashMapWithView::new(), order: Vec::new() }
    }

    pub fn contains(&self, s: u64) -> (r: bool)
        ensures
            r == self.costs().contains_key(s),
    {
        self.costs.contains_key(&s)
    }

    pub fn get(&self, s: u64) -> (r: Option<isize>)
        ensures
            match r {
                Some(c) => self.costs().contains_key(s) && c == self.costs()[s],
                None => !self.costs().contains_key(s),
            },
    {
        match self.costs.get(&s) {
            Some(c) => Some(*c),
            None => None,
        }
    }

    /// Records `c` as the cost of state `s`.
    pub fn record(&mut self, s: u64, c: isize)
        requires
            old(self).wf(),
        ensures
            final(self).wf(),
            final(self).costs() == old(self).costs().insert(s, c),
            final(self).order() == if old(self).costs().contains_key(s) {
                old(self).order()
            } else {
                old(self).order().push(s)
            },
            !old(self).costs().contains_key(s) || c < old(self).costs()[s] ==> final(self).measure()
                < old(self).measure(),
    {
        proof {
            lemma_weight_bounds(self.order(), self.costs());
        }
        let fresh = !self.costs.contains_key(&s);
        if fresh {
            proof {
                lemma_weight_agree(self.order(), self.costs(), self.costs().insert(s, c));
            }
            self.order.push(s);
            assert(self.order@.drop_last() == old(self).order());
            assert(self.order@.len() == self.order.len());
        } else {
            proof {
                lemma_weight_update(self.order(), self.costs(), s, c);
            }
        }
        self.costs.insert(s, c);
        proof {
            assert forall|t: u64| #[trigger] self.costs().contains_key(t) <==> self.order().contains(
                t,
            ) by {
                if fresh && t != s {
                    if self.order().contains(t) {
                        let i = choose|i: int| 0 <= i < self.order().len() && self.order()[i] == t;
                        assert(old(self).order()[i] == t);
                    }
                }
                if fresh && t == s {
                    assert(self.order().last() == s);
                }
            }
            if fresh {
                assert forall|i: int, j: int|
                    0 <= i < j < self.order().len() implies self.order()[i] != self.order()[j] by {
                    if j == self.order().len() - 1 {
                        assert(old(self).order().contains(old(self).order()[i]));
                    }
                }
            }
        }
    }

    /// The visited states in the order of their first visit.
    pub fn states(&self) -> (r: Vec<u64>)
        ensures
            r@ == self.order(),
    {
        let mut r: Vec<u64> = Vec::new();
        let mut i: usize = 0;
        while i < self.order.len()
            invariant
                i <= self.order@.len(),
                r@ == self.order@.subrange(0, i as int),
            decreases self.order@.len() - i,
        {
            r.push(self.order[i]);
            i += 1;
        }
        assert(r@ == self.order@);
        r
    }
}

proof fn lemma_weight_bounds(order: Seq<u64>, costs: Map<u64, isize>)
    ensures
        0 <= weight(order, costs) <= order.len() * (cost_span() - 1),
    decreases order.len(),
{
    if order.len() > 0 {
        let n = order.len() as int;
        lemma_weight_bounds(order.drop_last(), costs);
        assert((n - 1) * (cost_span() - 1) + (cost_span() - 1) == n * (cost_span() - 1))
            by (nonlinear_arith);
    }
}

/// The weight only reads the costs of the states in `order`.
proof fn lemma_weight_agree(order: Seq<u64>, a: Map<u64, isize>, b: Map<u64, isize>)
    requires
        forall|i: int| 0 <= i < order.len() ==> a[#[trigger] order[i]] == b[order[i]],
    ensures
        weight(order, a) == weight(order, b),
    decreases order.len(),
{
    if order.len() > 0 {
        let prefix = order.drop_last();
        assert forall|i: int| 0 <= i < prefix.len() implies a[#[trigger] prefix[i]] == b[prefix[i]] by {
            assert(prefix[i] == order[i]);
        }
        lemma_weight_agree(prefix, a, b);
        assert(a[order[order.len() - 1]] == b[order[order.len() - 1]]);
    }
}

/// Changing the cost of one listed state changes the weight by the difference.
proof fn lemma_weight_update(order: Seq<u64>, costs: Map<u64, isize>, s: u64, c: isize)
    requires
        order.no_duplicates(),
        order.contains(s),
    ensures
        weight(order, costs.insert(s, c)) == weight(order, costs) + (c - costs[s]),
    decreases order.len(),
{
    let prefix = order.drop_last();
    assert forall|i: int, j: int| 0 <= i < j < prefix.len() implies prefix[i] != prefix[j] by {
        assert(prefix[i] == order[i] && prefix[j] == order[j]);
    }
    if order.last() == s {
        assert forall|i: int| 0 <= i < prefix.len() implies costs[#[trigger] prefix[i]] == costs.insert(
            s,
            c,
        )[prefix[i]] by {
            assert(prefix[i] == order[i]);
            assert(order[i] != order[order.len() - 1]);
        }
        lemma_weight_agree(prefix, costs, costs.insert(s, c));
    } else {
        let i = choose|i: int| 0 <= i < order.len() && order[i] == s;
        assert(prefix[i] == s);
        lemma_weight_update(prefix, costs, s, c);
    }
}

} // verus!
