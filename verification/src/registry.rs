//! The session registry: which user ids currently have a delivery sink.
//!
//! The sinks themselves (sockets, channels) are owned by the caller, keyed by
//! the same ids; the coordinator only decides who a broadcast reaches.
use vstd::prelude::*;

verus! {

/// The ids that have a registered delivery sink, each at most once.
pub struct SessionRegistry {
    pub ids: Vec<usize>,
}

/// Registry well-formedness: no id is registered twice.
pub open spec fn registry_wf(ids: Seq<usize>) -> bool {
    forall|i: int, j: int| 0 <= i < ids.len() && 0 <= j < ids.len() && i != j ==> ids[i] != ids[j]
}

impl SessionRegistry {
    /// A registry with no sessions.
    pub fn new() -> (r: SessionRegistry)
        ensures
            r.ids@ =~= Seq::<usize>::empty(),
            registry_wf(r.ids@),
    {
        SessionRegistry { ids: Vec::new() }
    }

    /// Whether `id` has a registered sink.
    pub fn is_registered(&self, id: usize) -> (r: bool)
        ensures
            r == self.ids@.contains(id),
    {
        let n = self.ids.len();
        let mut i: usize = 0;
        while i < n
            invariant
                n == self.ids.len(),
                i <= n,
                forall|k: int| 0 <= k < i ==> self.ids@[k] != id,
            decreases n - i,
        {
            if self.ids[i] == id {
                return true;
            }
            i += 1;
        }
        false
    }

    /// Record that `id` now has a sink. Replacing an existing sink changes
    /// nothing here: registration is idempotent.
    pub fn register(&mut self, id: usize)
        requires
            registry_wf(old(self).ids@),
        ensures
            registry_wf(final(self).ids@),
            if old(self).ids@.contains(id) {
                final(self).ids@ == old(self).ids@
            } else {
                final(self).ids@ == old(self).ids@.push(id)
            },
            forall|x: usize| final(self).ids@.contains(x) <==> old(self).ids@.contains(x) || x == id,
    {
        if !self.is_registered(id) {
            self.ids.push(id);
            proof {
                assert(forall|x: usize| old(self).ids@.contains(x)
                    ==> final(self).ids@.contains(x)) by {
                    assert(forall|k: int| 0 <= k < old(self).ids@.len()
                        ==> final(self).ids@[k] == old(self).ids@[k]);
                }
                assert(final(self).ids@[final(self).ids@.len() - 1] == id);
            }
        }
    }

    /// The ids a broadcast over `roster` actually reaches: exactly the roster
    /// members that have a registered sink, in roster order. An id without a
    /// sink is skipped and never keeps the rest from being reached.
    pub fn delivery_targets(&self, roster: &Vec<(usize, crate::room::User)>) -> (r: Vec<usize>)
        ensures
            r@ == targets_spec(roster@, self.ids@),
            forall|x: usize| r@.contains(x)
                <==> (exists|i: int| 0 <= i < roster@.len() && #[trigger] roster@[i].0 == x)
                    && self.ids@.contains(x),
    {
        let mut out: Vec<usize> = Vec::new();
        let n = roster.len();
        proof {
            assert(roster@.subrange(0, 0) =~= Seq::<(usize, crate::room::User)>::empty());
        }
        let mut i: usize = 0;
        while i < n
            invariant
                n == roster@.len(),
                i <= n,
                out@ == targets_spec(roster@.subrange(0, i as int), self.ids@),
            decreases n - i,
        {
            let ghost pre = roster@.subrange(0, i as int);
            let ghost cur = roster@.subrange(0, i + 1);
            proof {
                assert(cur.drop_last() =~= pre);
                assert(cur.last() == roster@[i as int]);
            }
            let id = roster[i].0;
            if self.is_registered(id) {
                out.push(id);
            }
            i += 1;
        }
        proof {
            assert(roster@.subrange(0, n as int) =~= roster@);
            assert forall|x: usize| out@.contains(x)
                <==> (exists|i: int| 0 <= i < roster@.len() && #[trigger] roster@[i].0 == x)
                    && self.ids@.contains(x) by {
                lemma_targets_contains(roster@, self.ids@, x);
            }
        }
        out
    }
}

/// The roster positions with a registered sink, in roster order.
pub open spec fn targets_spec(roster: Seq<(usize, crate::room::User)>, ids: Seq<usize>) -> Seq<usize>
    decreases roster.len(),
{
    if roster.len() == 0 {
        Seq::empty()
    } else {
        let front = targets_spec(roster.drop_last(), ids);
        if ids.contains(roster.last().0) {
            front.push(roster.last().0)
        } else {
            front
        }
    }
}

/// A broadcast reaches an id exactly when the roster holds it and a sink is
/// registered for it; one roster member without a sink never keeps the
/// others from being reached.
pub proof fn lemma_targets_contains(
    roster: Seq<(usize, crate::room::User)>,
    ids: Seq<usize>,
    x: usize,
)
    ensures
        targets_spec(roster, ids).contains(x)
            <==> (exists|i: int| 0 <= i < roster.len() && #[trigger] roster[i].0 == x)
                && ids.contains(x),
    decreases roster.len(),
{
    if roster.len() > 0 {
        lemma_targets_contains(roster.drop_last(), ids, x);
        let front = targets_spec(roster.drop_last(), ids);
        let all = targets_spec(roster, ids);
        if all.contains(x) {
            if front.contains(x) {
                let i = choose|i: int|
                    0 <= i < roster.drop_last().len() && #[trigger] roster.drop_last()[i].0 == x;
                assert(roster[i].0 == roster.drop_last()[i].0);
            } else {
                let k = choose|k: int| 0 <= k < all.len() && all[k] == x;
                assert(x == roster.last().0);
                assert(roster[roster.len() - 1].0 == x);
            }
        }
        if (exists|i: int| 0 <= i < roster.len() && #[trigger] roster[i].0 == x)
            && ids.contains(x) {
            let i = choose|i: int| 0 <= i < roster.len() && #[trigger] roster[i].0 == x;
            if i < roster.len() - 1 {
                assert(roster.drop_last()[i].0 == x);
                assert(front.contains(x));
                let k = choose|k: int| 0 <= k < front.len() && front[k] == x;
                if ids.contains(roster.last().0) {
                    assert(all[k] == front[k]);
                }
                assert(all.contains(x));
            } else {
                assert(all.last() == x);
            }
        }
    }
}

} // verus!
