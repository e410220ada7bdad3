//! The feed registry: the set of currently registered client subscription
//! sets plus the dirty flag that tells the upstream connector that the
//! union may have changed.

use vstd::prelude::*;
use crate::FeedId;

verus! {

/// The deduplicated union of a collection of identifier sequences: an
/// identifier belongs to it exactly when some registered sequence holds it.
pub open spec fn union_of(sets: Seq<Seq<FeedId>>) -> Set<FeedId> {
    Set::new(|id: FeedId| exists|i: int| 0 <= i < sets.len() && #[trigger] sets[i].contains(id))
}

/// Membership in a pushed sequence is membership in the sequence or
/// equality with the new element.
proof fn lemma_push_contains<A>(s: Seq<A>, a: A)
    ensures
        forall|x: A| #[trigger] s.push(a).contains(x) <==> s.contains(x) || x == a,
{
    assert forall|x: A| #[trigger] s.push(a).contains(x) implies s.contains(x) || x == a by {
        let j = choose|j: int| 0 <= j < s.push(a).len() && s.push(a)[j] == x;
        if j < s.len() {
            assert(s[j] == x);
        }
    }
    assert forall|x: A| s.contains(x) || x == a implies #[trigger] s.push(a).contains(x) by {
        if s.contains(x) {
            let j = choose|j: int| 0 <= j < s.len() && s[j] == x;
            assert(s.push(a)[j] == x);
        } else {
            assert(s.push(a)[s.len() as int] == x);
        }
    }
}

/// Extending the registered collection by one more set extends the union
/// by exactly that set's identifiers.
proof fn lemma_union_of_take_succ(sets: Seq<Seq<FeedId>>, i: int)
    requires
        0 <= i < sets.len(),
    ensures
        union_of(sets.take(i + 1)) =~= union_of(sets.take(i)).union(sets[i].to_set()),
{
    assert(sets.take(i + 1) =~= sets.take(i).push(sets[i]));
    assert forall|x: FeedId| union_of(sets.take(i + 1)).contains(x) implies (union_of(
        sets.take(i),
    ).contains(x) || sets[i].to_set().contains(x)) by {
        let j = choose|j: int|
            0 <= j < sets.take(i + 1).len() && #[trigger] sets.take(i + 1)[j].contains(x);
        if j < i {
            assert(sets.take(i)[j].contains(x));
        } else {
            assert(sets[i].contains(x));
        }
    }
    assert forall|x: FeedId| union_of(sets.take(i)).contains(x) implies union_of(
        sets.take(i + 1),
    ).contains(x) by {
        let j = choose|j: int| 0 <= j < sets.take(i).len() && #[trigger] sets.take(i)[j].contains(x);
        assert(sets.take(i + 1)[j].contains(x));
    }
    assert forall|x: FeedId| sets[i].contains(x) implies union_of(sets.take(i + 1)).contains(x) by {
        assert(sets.take(i + 1)[i].contains(x));
    }
}

/// Registry of the subscription sets of all live client connections.
///
/// One entry is registered per connection when its handshake completes and
/// removed when its handler exits; the dirty flag is raised by every
/// successful change and consumed by the connector.
pub struct Feeds {
    sets: Vec<Vec<FeedId>>,
    modified: bool,
}

impl Feeds {
    /// The registered subscription sets, in registration order.
    pub closed spec fn sets(self) -> Seq<Seq<FeedId>> {
        self.sets@.map_values(|v: Vec<FeedId>| v@)
    }

    /// The dirty flag.
    pub closed spec fn dirty(self) -> bool {
        self.modified
    }

    /// A fresh registry: no sets, dirty flag down.
    pub fn new() -> (r: Feeds)
        ensures
            r.sets() =~= Seq::<Seq<FeedId>>::empty(),
            !r.dirty(),
    {
        Feeds { sets: Vec::new(), modified: false }
    }

    /// Registers one client's subscription set and raises the dirty flag.
    pub fn add(&mut self, ids: Vec<FeedId>)
        ensures
            final(self).sets() =~= old(self).sets().push(ids@),
            final(self).dirty(),
    {
        self.sets.push(ids);
        self.modified = true;
        proof {
            assert(self.sets() =~= old(self).sets().push(ids@));
        }
    }

    /// Removes the first registered entry value-equal to `ids` and raises
    /// the dirty flag; when no entry matches, the registry — other entries
    /// and dirty flag alike — is left exactly as it was.
    pub fn remove(&mut self, ids: &Vec<FeedId>)
        ensures
            old(self).sets().index_of_first(ids@) matches Some(i) ==> final(self).sets() =~= old(
                self,
            ).sets().remove(i) && final(self).dirty(),
            old(self).sets().index_of_first(ids@) is None ==> *final(self) == *old(self),
    {
        let ghost gsets = self.sets();
        let mut i: usize = 0;
        while i < self.sets.len()
            invariant
                i <= self.sets.len(),
                gsets == self.sets(),
                *self == *old(self),
                forall|j: int| 0 <= j < i ==> gsets[j] != ids@,
            decreases self.sets.len() - i,
        {
            if ids_equal(&self.sets[i], ids) {
                proof {
                    assert(gsets[i as int] == ids@);
                    assert(gsets.contains(ids@));
                    gsets.index_of_first_ensures(ids@);
                    assert(gsets.index_of_first(ids@) == Some(i as int));
                }
                self.sets.remove(i);
                self.modified = true;
                proof {
                    assert(self.sets() =~= gsets.remove(i as int));
                }
                return;
            }
            i += 1;
        }
        proof {
            assert(forall|j: int| 0 <= j < gsets.len() ==> gsets[j] != ids@);
            gsets.index_of_first_ensures(ids@);
        }
    }

    /// True exactly when no subscription set is registered.
    pub fn is_empty(&self) -> (r: bool)
        ensures
            r == (self.sets().len() == 0),
    {
        self.sets.len() == 0
    }

    /// The deduplicated union of all registered sets, used as the single
    /// upstream subscription.
    pub fn union(&self) -> (r: Vec<FeedId>)
        ensures
            r@.to_set() == union_of(self.sets()),
            r@.no_duplicates(),
    {
        let mut out: Vec<FeedId> = Vec::new();
        let mut i: usize = 0;
        while i < self.sets.len()
            invariant
                i <= self.sets.len(),
                out@.no_duplicates(),
                out@.to_set() =~= union_of(self.sets().take(i as int)),
            decreases self.sets.len() - i,
        {
            let ghost si = self.sets()[i as int];
            let mut k: usize = 0;
            while k < self.sets[i].len()
                invariant
                    i < self.sets.len(),
                    k <= self.sets[i as int]@.len(),
                    si == self.sets()[i as int],
                    out@.no_duplicates(),
                    out@.to_set() =~= union_of(self.sets().take(i as int)).union(
                        si.take(k as int).to_set(),
                    ),
                decreases self.sets[i as int]@.len() - k,
            {
                let id = self.sets[i][k];
                let ghost out_pre = out@;
                let had = contains_id(&out, &id);
                if !had {
                    out.push(id);
                    proof {
                        lemma_push_contains(out_pre, id);
                        assert(out@.no_duplicates()) by {
                            assert(forall|a: int, b: int|
                                0 <= a < out@.len() && 0 <= b < out@.len() && a != b ==> out@[a]
                                    != out@[b]);
                        }
                    }
                }
                proof {
                    assert(si.take(k + 1) =~= si.take(k as int).push(si[k as int]));
                    lemma_push_contains(si.take(k as int), si[k as int]);
                    assert(forall|x: FeedId| out@.contains(x) <==> out_pre.contains(x) || x == id);
                    assert forall|x: FeedId|
                        out@.to_set().contains(x) <==> union_of(self.sets().take(i as int)).union(
                            si.take(k + 1).to_set(),
                        ).contains(x) by {
                        assert(out@.to_set().contains(x) == out@.contains(x));
                        assert(out_pre.to_set().contains(x) == out_pre.contains(x));
                        assert(si.take(k + 1).to_set().contains(x) == si.take(k + 1).contains(x));
                        assert(si.take(k as int).to_set().contains(x) == si.take(k as int).contains(
                            x,
                        ));
                        assert(si.take(k + 1).contains(x) <==> si.take(k as int).contains(x) || x
                            == si[k as int]);
                        assert(out_pre.to_set().contains(x) <==> union_of(
                            self.sets().take(i as int),
                        ).contains(x) || si.take(k as int).to_set().contains(x));
                    }
                    assert(out@.to_set() =~= union_of(self.sets().take(i as int)).union(
                        si.take(k + 1).to_set(),
                    ));
                }
                k += 1;
            }
            proof {
                assert(si.take(si.len() as int) =~= si);
                lemma_union_of_take_succ(self.sets(), i as int);
                assert(union_of(self.sets().take(i as int)).union(si.to_set()) =~= union_of(
                    self.sets().take(i + 1),
                ));
            }
            i += 1;
        }
        proof {
            assert(self.sets().take(self.sets().len() as int) =~= self.sets());
        }
        out
    }

    /// Reads and clears the dirty flag in one step.
    pub fn consume_dirty(&mut self) -> (r: bool)
        ensures
            r == old(self).dirty(),
            !final(self).dirty(),
            final(self).sets() == old(self).sets(),
    {
        let r = self.modified;
        self.modified = false;
        r
    }

    /// Lowers the dirty flag, as the connector does on leaving its
    /// poll-wait state, right before a connection attempt.
    pub fn clear_dirty(&mut self)
        ensures
            !final(self).dirty(),
            final(self).sets() == old(self).sets(),
    {
        self.modified = false;
    }
}

impl Default for Feeds {
    /// A fresh registry, as `new` builds it.
    fn default() -> (r: Feeds)
        ensures
            r.sets() =~= Seq::<Seq<FeedId>>::empty(),
            !r.dirty(),
    {
        Feeds::new()
    }
}

/// True exactly when the two identifier sequences are value-equal.
pub fn ids_equal(a: &Vec<FeedId>, b: &Vec<FeedId>) -> (r: bool)
    ensures
        r == (a@ == b@),
{
    if a.len() != b.len() {
        return false;
    }
    let mut i: usize = 0;
    while i < a.len()
        invariant
            i <= a.len(),
            a@.len() == b@.len(),
            forall|j: int| 0 <= j < i ==> a@[j] == b@[j],
        decreases a.len() - i,
    {
        if a[i] != b[i] {
            return false;
        }
        i += 1;
    }
    proof {
        assert(a@ =~= b@);
    }
    true
}

/// True exactly when `v` holds `id`.
pub fn contains_id(v: &Vec<FeedId>, id: &FeedId) -> (r: bool)
    ensures
        r == v@.contains(*id),
{
    let mut i: usize = 0;
    while i < v.len()
        invariant
            i <= v.len(),
            forall|j: int| 0 <= j < i ==> v@[j] != *id,
        decreases v.len() - i,
    {
        if v[i] == *id {
            return true;
        }
        i += 1;
    }
    false
}

/// The union is a function of which sets are registered, not of the order
/// they were registered in nor of duplicate identifiers across sets: two
/// registries holding the same sets — in any order — have the same union.
pub proof fn lemma_union_permutation(s1: Seq<Seq<FeedId>>, s2: Seq<Seq<FeedId>>)
    requires
        s1.to_multiset() == s2.to_multiset(),
    ensures
        union_of(s1) == union_of(s2),
{
    s1.to_multiset_ensures();
    s2.to_multiset_ensures();
    assert forall|id: FeedId| union_of(s1).contains(id) implies union_of(s2).contains(id) by {
        let i = choose|i: int| 0 <= i < s1.len() && #[trigger] s1[i].contains(id);
        assert(s1.contains(s1[i]));
        assert(s2.to_multiset().count(s1[i]) > 0);
        assert(s2.contains(s1[i]));
        let j = choose|j: int| 0 <= j < s2.len() && s2[j] == s1[i];
        assert(s2[j].contains(id));
    }
    assert forall|id: FeedId| union_of(s2).contains(id) implies union_of(s1).contains(id) by {
        let i = choose|i: int| 0 <= i < s2.len() && #[trigger] s2[i].contains(id);
        assert(s2.contains(s2[i]));
        assert(s1.to_multiset().count(s2[i]) > 0);
        assert(s1.contains(s2[i]));
        let j = choose|j: int| 0 <= j < s1.len() && s1[j] == s2[i];
        assert(s1[j].contains(id));
    }
    assert(union_of(s1) =~= union_of(s2));
}

} // verus!
