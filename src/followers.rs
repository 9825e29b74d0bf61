use vstd::prelude::*;

use crate::servers::{ids_of, Servers};
use crate::Index;

verus! {

/// What a leader knows of one peer's replication progress.
#[derive(Debug)]
pub struct FollowerState {
    pub identifier: String,
    pub next_index: Index,
    pub match_index: Index,
}

impl FollowerState {
    /// The peer is known to hold the entry at `n`.
    pub fn has_item_at_index(&self, n: Index) -> (r: bool)
        ensures
            r == (self.match_index >= n),
    {
        self.match_index >= n
    }

    /// A field-for-field copy.
    pub fn duplicate(&self) -> (r: FollowerState)
        ensures
            r == *self,
    {
        FollowerState {
            identifier: self.identifier.clone(),
            next_index: self.next_index,
            match_index: self.match_index,
        }
    }
}

/// How many of `n` peers must agree for a strict majority: of the `n + 1`
/// voters when the leader's own voice counts (`⌈n/2⌉` peers), of the `n`
/// peers alone when it does not (`⌊n/2⌋ + 1`).
pub open spec fn quorum_size(n: nat, include_self: bool) -> nat {
    if include_self {
        (n + 1) / 2
    } else {
        n / 2 + 1
    }
}

/// `k` agreeing peers out of `n` (plus the leader's own voice when it counts)
/// make a strict majority of the voters exactly when `k` reaches the quorum size.
pub proof fn lemma_quorum_is_strict_majority(n: nat, k: nat, include_self: bool)
    ensures
        (k >= quorum_size(n, include_self)) == (2 * (k + if include_self { 1nat } else { 0nat }) > n + if include_self {
            1nat
        } else {
            0nat
        }),
{
}

/// How many of the outcomes are `true`.
pub open spec fn count_true(s: Seq<bool>) -> nat
    decreases s.len(),
{
    if s.len() == 0 {
        0
    } else {
        count_true(s.drop_last()) + if s.last() {
            1nat
        } else {
            0nat
        }
    }
}

/// How many followers hold the entry at `n`.
pub open spec fn count_holding(s: Seq<FollowerState>, n: Index) -> nat
    decreases s.len(),
{
    if s.len() == 0 {
        0
    } else {
        count_holding(s.drop_last(), n) + if s.last().match_index >= n {
            1nat
        } else {
            0nat
        }
    }
}

/// The identifiers of the followers.
pub open spec fn follower_ids(s: Seq<FollowerState>) -> Set<Seq<char>> {
    Set::new(|x: Seq<char>| exists|i: int| 0 <= i < s.len() && #[trigger] s[i].identifier@ == x)
}

/// No peer is listed twice.
pub open spec fn distinct_followers(s: Seq<FollowerState>) -> bool {
    forall|i: int, j: int|
        0 <= i < s.len() && 0 <= j < s.len() && i != j ==> (#[trigger] s[i]).identifier@
            != (#[trigger] s[j]).identifier@
}

/// The follower with the given identifier, when there is one.
pub open spec fn holds_follower(s: Seq<FollowerState>, f: FollowerState) -> bool {
    exists|i: int| 0 <= i < s.len() && #[trigger] s[i] == f
}

proof fn lemma_count_holding(s: Seq<FollowerState>, n: Index, outcomes: Seq<bool>)
    requires
        outcomes.len() == s.len(),
        forall|k: int| 0 <= k < s.len() ==> #[trigger] outcomes[k] == (s[k].match_index >= n),
    ensures
        count_true(outcomes) == count_holding(s, n),
    decreases s.len(),
{
    if s.len() > 0 {
        lemma_count_holding(s.drop_last(), n, outcomes.drop_last());
    }
}

proof fn lemma_count_true_push(s: Seq<bool>, b: bool)
    ensures
        count_true(s.push(b)) == count_true(s) + if b {
            1nat
        } else {
            0nat
        },
{
    assert(s.push(b).drop_last() =~= s);
}

/// The leader's bookkeeping: one entry per peer, identifiers distinct.
#[derive(Debug, Default)]
pub struct Followers(Vec<FollowerState>);

impl View for Followers {
    type V = Seq<FollowerState>;

    closed spec fn view(&self) -> Seq<FollowerState> {
        self.0@
    }
}

impl Followers {
    /// No peer is listed twice.
    pub open spec fn wf(&self) -> bool {
        distinct_followers(self@)
    }

    /// The members with their identifiers as the set of followers.
    pub open spec fn ids(&self) -> Set<Seq<char>> {
        follower_ids(self@)
    }

    pub fn new() -> (r: Self)
        ensures
            r@ == Seq::<FollowerState>::empty(),
            r.wf(),
    {
        Followers(Vec::new())
    }

    fn position(&self, identifier: &String) -> (r: Option<usize>)
        ensures
            r matches Some(k) ==> k < self@.len() && self@[k as int].identifier@ == identifier@,
            r is None ==> !self.ids().contains(identifier@),
    {
        let mut k: usize = 0;
        while k < self.0.len()
            invariant
                k <= self@.len(),
                forall|i: int| 0 <= i < k ==> (#[trigger] self@[i]).identifier@ != identifier@,
            decreases self@.len() - k,
        {
            if self.0[k].identifier == *identifier {
                return Some(k);
            }
            k = k + 1;
        }
        None
    }

    /// Every member but `own_id`, each with the given next index and nothing matched.
    pub fn from_servers(servers: &Servers, own_id: &str, next_index: Index) -> (r: Self)
        requires
            servers.wf(),
        ensures
            r.wf(),
            r.ids() == servers@.remove(own_id@),
            forall|i: int| 0 <= i < r@.len() ==> (#[trigger] r@[i]).next_index == next_index && r@[i].match_index == 0,
    {
        let mut followers = Followers::new();
        followers.update_from_servers(servers, own_id, next_index);
        assert(followers.ids() =~= servers@.remove(own_id@));
        followers
    }

    /// Drops the peers that are no longer members and enrols the members
    /// (but `own_id`) that are not followers yet; the others keep their progress.
    pub fn update_from_servers(&mut self, servers: &Servers, own_id: &str, next_index: Index)
        requires
            old(self).wf(),
            servers.wf(),
        ensures
            final(self).wf(),
            final(self).ids() == old(self).ids().intersect(servers@).union(servers@.remove(own_id@)),
            forall|i: int|
                0 <= i < final(self)@.len() ==> {
                    let f = #[trigger] final(self)@[i];
                    if old(self).ids().contains(f.identifier@) {
                        holds_follower(old(self)@, f)
                    } else {
                        f.next_index == next_index && f.match_index == 0
                    }
                },
    {
        let ghost old_s = self@;
        let mut kept: Vec<FollowerState> = Vec::new();
        let mut k: usize = 0;
        while k < self.0.len()
            invariant
                k <= self@.len(),
                self@ == old_s,
                old(self).wf(),
                old(self)@ == old_s,
                servers.wf(),
                distinct_followers(kept@),
                follower_ids(kept@) == follower_ids(old_s.take(k as int)).intersect(servers@),
                forall|i: int| 0 <= i < kept@.len() ==> holds_follower(old_s.take(k as int), #[trigger] kept@[i]),
            decreases self@.len() - k,
        {
            let ghost pre = old_s.take(k as int);
            let ghost nxt = old_s.take(k + 1);
            assert forall|i: int| 0 <= i < k implies #[trigger] nxt[i] == pre[i] by {}
            assert(nxt[k as int] == old_s[k as int]);
            let ghost before = kept@;
            if servers.contains(self.0[k].identifier.as_str()) {
                kept.push(self.0[k].duplicate());
                assert forall|i: int, j: int|
                    0 <= i < kept@.len() && 0 <= j < kept@.len() && i != j implies (#[trigger] kept@[i]).identifier@
                        != (#[trigger] kept@[j]).identifier@ by {
                    if i == before.len() || j == before.len() {
                        let o = if i == before.len() { j } else { i };
                        assert(before[o] == kept@[o]);
                        assert(holds_follower(pre, before[o]));
                        let q = choose|q: int| 0 <= q < pre.len() && #[trigger] pre[q] == before[o];
                        assert(old_s[q] == pre[q]);
                        assert(kept@[before.len() as int] == old_s[k as int]);
                        assert(old(self)@[q] == old_s[q]);
                        assert(old(self)@[k as int] == old_s[k as int]);
                    } else {
                        assert(before[i] == kept@[i]);
                        assert(before[j] == kept@[j]);
                    }
                }
            }
            assert(follower_ids(kept@) =~= follower_ids(nxt).intersect(servers@)) by {
                assert forall|x: Seq<char>| follower_ids(kept@).contains(x) implies follower_ids(nxt).intersect(servers@).contains(x) by {
                    let i = choose|i: int| 0 <= i < kept@.len() && #[trigger] kept@[i].identifier@ == x;
                    if i < before.len() {
                        assert(before[i] == kept@[i]);
                        assert(follower_ids(before).contains(x));
                        let q = choose|q: int| 0 <= q < pre.len() && #[trigger] pre[q].identifier@ == x;
                        assert(nxt[q].identifier@ == x);
                    } else {
                        assert(nxt[k as int].identifier@ == x);
                    }
                }
                assert forall|x: Seq<char>| follower_ids(nxt).intersect(servers@).contains(x) implies follower_ids(kept@).contains(x) by {
                    let q = choose|q: int| 0 <= q < nxt.len() && #[trigger] nxt[q].identifier@ == x;
                    if q < k {
                        assert(pre[q].identifier@ == x);
                        assert(follower_ids(before).contains(x));
                        let i = choose|i: int| 0 <= i < before.len() && #[trigger] before[i].identifier@ == x;
                        assert(kept@[i] == before[i]);
                    } else {
                        assert(kept@[before.len() as int].identifier@ == x);
                    }
                }
            }
            assert forall|i: int| 0 <= i < kept@.len() implies holds_follower(nxt, #[trigger] kept@[i]) by {
                if i < before.len() {
                    assert(before[i] == kept@[i]);
                    let q = choose|q: int| 0 <= q < pre.len() && #[trigger] pre[q] == before[i];
                    assert(nxt[q] == pre[q]);
                } else {
                    assert(nxt[k as int] == kept@[i]);
                }
            }
            k = k + 1;
        }
        assert(old_s.take(k as int) =~= old_s);
        self.0 = kept;
        let members = servers.members();
        let own = String::from_str(own_id);
        let ghost mid = self@;
        let mut m: usize = 0;
        while m < members.len()
            invariant
                m <= members@.len(),
                own@ == own_id@,
                ids_of(members@) == servers@,
                self.wf(),
                self.ids() == follower_ids(mid).union(ids_of(members@.take(m as int)).remove(own_id@)),
                forall|i: int|
                    0 <= i < self@.len() ==> {
                        let f = #[trigger] self@[i];
                        if follower_ids(mid).contains(f.identifier@) {
                            holds_follower(mid, f)
                        } else {
                            f.next_index == next_index && f.match_index == 0
                        }
                    },
            decreases members@.len() - m,
        {
            let ghost pre = members@.take(m as int);
            let ghost nxt = members@.take(m + 1);
            assert forall|i: int| 0 <= i < m implies #[trigger] nxt[i] == pre[i] by {}
            assert(nxt[m as int] == members@[m as int]);
            if members[m] != own {
                self.add_follower(members[m].as_str(), next_index);
            }
            assert(ids_of(nxt).remove(own_id@) =~= ids_of(pre).remove(own_id@).union(
                if members@[m as int]@ == own_id@ { Set::empty() } else { set![members@[m as int]@] },
            )) by {
                assert forall|x: Seq<char>| ids_of(nxt).contains(x) implies ids_of(pre).insert(members@[m as int]@).contains(x) by {
                    let i = choose|i: int| 0 <= i < nxt.len() && #[trigger] nxt[i]@ == x;
                    if i < m {
                        assert(pre[i]@ == x);
                    }
                }
                assert forall|x: Seq<char>| ids_of(pre).contains(x) implies ids_of(nxt).contains(x) by {
                    let i = choose|i: int| 0 <= i < pre.len() && #[trigger] pre[i]@ == x;
                    assert(nxt[i]@ == x);
                }
                assert(ids_of(nxt).contains(members@[m as int]@)) by {
                    assert(nxt[m as int]@ == members@[m as int]@);
                }
            }
            assert(self.ids() =~= follower_ids(mid).union(ids_of(nxt).remove(own_id@)));
            m = m + 1;
        }
        assert(members@.take(m as int) =~= members@);
        assert(follower_ids(mid) == old(self).ids().intersect(servers@));
        assert(self.ids() =~= old(self).ids().intersect(servers@).union(servers@.remove(own_id@)));
        assert forall|i: int| 0 <= i < self@.len() implies {
            let f = #[trigger] self@[i];
            if old(self).ids().contains(f.identifier@) {
                holds_follower(old(self)@, f)
            } else {
                f.next_index == next_index && f.match_index == 0
            }
        } by {
            let f = self@[i];
            if follower_ids(mid).contains(f.identifier@) {
                let q = choose|q: int| 0 <= q < mid.len() && #[trigger] mid[q] == f;
                let p = choose|p: int| 0 <= p < old_s.len() && #[trigger] old_s[p] == mid[q];
            } else if old(self).ids().contains(f.identifier@) {
                // a kept follower has its identifier among the members
                let p = choose|p: int| 0 <= p < old_s.len() && #[trigger] old_s[p].identifier@ == f.identifier@;
                assert(self.ids().contains(f.identifier@));
                assert(servers@.contains(f.identifier@));
                assert(follower_ids(mid).contains(f.identifier@));
            }
        }
    }

    pub fn is_empty(&self) -> (r: bool)
        ensures
            r == (self@.len() == 0),
    {
        self.0.len() == 0
    }

    pub fn len(&self) -> (r: usize)
        ensures
            r == self@.len(),
    {
        self.0.len()
    }

    /// The followers, in no particular order.
    pub fn iter(&self) -> (r: &[FollowerState])
        ensures
            r@ == self@,
    {
        self.0.as_slice()
    }

    /// The follower at position `k`.
    pub fn get(&self, k: usize) -> (r: &FollowerState)
        requires
            k < self@.len(),
        ensures
            *r == self@[k as int],
    {
        &self.0[k]
    }

    /// Records new replication progress for the follower at position `k`.
    pub fn set_progress(&mut self, k: usize, next_index: Index, match_index: Index)
        requires
            old(self).wf(),
            k < old(self)@.len(),
        ensures
            final(self).wf(),
            final(self)@ == old(self)@.update(
                k as int,
                FollowerState { identifier: old(self)@[k as int].identifier, next_index, match_index },
            ),
    {
        let ghost s = self@;
        let identifier = self.0[k].identifier.clone();
        self.0[k] = FollowerState { identifier, next_index, match_index };
        assert(forall|i: int| 0 <= i < self@.len() ==> (#[trigger] self@[i]).identifier == s[i].identifier);
    }

    /// Enrols a peer with the given next index and nothing matched, unless it is
    /// enrolled already.
    pub fn add_follower(&mut self, identifier: &str, next_index: Index)
        requires
            old(self).wf(),
        ensures
            final(self).wf(),
            old(self).ids().contains(identifier@) ==> final(self)@ == old(self)@,
            !old(self).ids().contains(identifier@) ==> final(self)@ == old(self)@.push(
                FollowerState { identifier: final(self)@.last().identifier, next_index, match_index: 0 },
            ) && final(self)@.last().identifier@ == identifier@,
            final(self).ids() == old(self).ids().insert(identifier@),
    {
        let id = String::from_str(identifier);
        match self.position(&id) {
            Some(k) => {
                assert(self.ids().contains(identifier@)) by {
                    assert(self@[k as int].identifier@ == identifier@);
                }
                assert(self.ids() =~= self.ids().insert(identifier@));
            },
            None => {
                let ghost before = self@;
                self.0.push(FollowerState { identifier: id, next_index, match_index: 0 });
                assert forall|i: int, j: int|
                    0 <= i < self@.len() && 0 <= j < self@.len() && i != j implies (#[trigger] self@[i]).identifier@
                        != (#[trigger] self@[j]).identifier@ by {
                    if i == before.len() {
                        assert(follower_ids(before).contains(self@[j].identifier@)) by {
                            assert(before[j] == self@[j]);
                        }
                    } else if j == before.len() {
                        assert(follower_ids(before).contains(self@[i].identifier@)) by {
                            assert(before[i] == self@[i]);
                        }
                    }
                }
                assert(self.ids() =~= follower_ids(before).insert(identifier@)) by {
                    assert forall|x: Seq<char>| self.ids().contains(x) implies follower_ids(before).insert(identifier@).contains(x) by {
                        let i = choose|i: int| 0 <= i < self@.len() && #[trigger] self@[i].identifier@ == x;
                        if i < before.len() {
                            assert(before[i] == self@[i]);
                        }
                    }
                    assert forall|x: Seq<char>| follower_ids(before).insert(identifier@).contains(x) implies self.ids().contains(x) by {
                        if x == identifier@ {
                            assert(self@[before.len() as int].identifier@ == x);
                        } else {
                            let i = choose|i: int| 0 <= i < before.len() && #[trigger] before[i].identifier@ == x;
                            assert(self@[i] == before[i]);
                        }
                    }
                }
            },
        }
    }

    /// Drops the peer with the given identifier, if it is enrolled.
    pub fn remove_follower(&mut self, identifier: &str)
        requires
            old(self).wf(),
        ensures
            final(self).wf(),
            final(self).ids() == old(self).ids().remove(identifier@),
            forall|i: int| 0 <= i < final(self)@.len() ==> holds_follower(old(self)@, #[trigger] final(self)@[i]),
    {
        let id = String::from_str(identifier);
        match self.position(&id) {
            Some(k) => {
                let ghost before = self@;
                self.0.remove(k);
                assert(self@ == before.remove(k as int));
                assert forall|i: int| 0 <= i < self@.len() implies holds_follower(before, #[trigger] self@[i]) by {
                    if i < k {
                        assert(self@[i] == before[i]);
                    } else {
                        assert(self@[i] == before[i + 1]);
                    }
                }
                assert forall|i: int, j: int|
                    0 <= i < self@.len() && 0 <= j < self@.len() && i != j implies (#[trigger] self@[i]).identifier@
                        != (#[trigger] self@[j]).identifier@ by {
                    let oi = if i < k { i } else { i + 1 };
                    let oj = if j < k { j } else { j + 1 };
                    assert(self@[i] == before[oi]);
                    assert(self@[j] == before[oj]);
                }
                assert(self.ids() =~= follower_ids(before).remove(identifier@)) by {
                    assert forall|x: Seq<char>| self.ids().contains(x) implies follower_ids(before).remove(identifier@).contains(x) by {
                        let i = choose|i: int| 0 <= i < self@.len() && #[trigger] self@[i].identifier@ == x;
                        let oi = if i < k { i } else { i + 1 };
                        assert(self@[i] == before[oi]);
                        assert(oi != k);
                    }
                    assert forall|x: Seq<char>| follower_ids(before).remove(identifier@).contains(x) implies self.ids().contains(x) by {
                        let q = choose|q: int| 0 <= q < before.len() && #[trigger] before[q].identifier@ == x;
                        assert(q != k);
                        if q < k {
                            assert(self@[q] == before[q]);
                        } else {
                            assert(self@[q - 1] == before[q]);
                        }
                    }
                }
            },
            None => {
                assert(self.ids() =~= self.ids().remove(identifier@));
                assert forall|i: int| 0 <= i < self@.len() implies holds_follower(self@, #[trigger] self@[i]) by {}
            },
        }
    }

    /// How many peers, besides the leader, make a majority.
    pub fn others_needed_for_quorum(&self, include_self: bool) -> (r: usize)
        ensures
            r == quorum_size(self@.len(), include_self),
    {
        let count = self.0.len();
        if include_self {
            count / 2 + count % 2
        } else {
            count / 2 + 1
        }
    }

    /// Asks the predicate of every follower; true when at least a quorum of
    /// them answered true.
    pub fn meets_quorum<P: Fn(&FollowerState) -> bool>(&self, include_self: bool, predicate: P) -> (r: bool)
        requires
            forall|f: &FollowerState| predicate.requires((f,)),
        ensures
            exists|outcomes: Seq<bool>|
                {
                    &&& outcomes.len() == self@.len()
                    &&& forall|k: int| 0 <= k < self@.len() ==> predicate.ensures((&self@[k],), #[trigger] outcomes[k])
                    &&& r == (count_true(outcomes) >= quorum_size(self@.len(), include_self))
                },
    {
        let quorum = self.others_needed_for_quorum(include_self);
        let mut count: usize = 0;
        let mut k: usize = 0;
        let ghost mut outcomes: Seq<bool> = Seq::empty();
        while k < self.0.len()
            invariant
                k <= self@.len(),
                forall|f: &FollowerState| predicate.requires((f,)),
                outcomes.len() == k,
                count == count_true(outcomes),
                count <= k,
                forall|q: int| 0 <= q < k ==> predicate.ensures((&self@[q],), #[trigger] outcomes[q]),
            decreases self@.len() - k,
        {
            let answer = predicate(&self.0[k]);
            proof {
                lemma_count_true_push(outcomes, answer);
                outcomes = outcomes.push(answer);
            }
            if answer {
                count = count + 1;
            }
            k = k + 1;
        }
        count >= quorum
    }

    /// A majority of the cluster, the leader included, holds the entry at `n`.
    pub fn quorum_has_item_at_index(&self, n: Index) -> (r: bool)
        ensures
            r == (count_holding(self@, n) >= quorum_size(self@.len(), true)),
    {
        let pred = move |f: &FollowerState| -> (b: bool)
            ensures
                b == (f.match_index >= n),
            { f.has_item_at_index(n) };
        let r = self.meets_quorum(true, pred);
        proof {
            let outcomes = choose|outcomes: Seq<bool>|
                {
                    &&& outcomes.len() == self@.len()
                    &&& forall|k: int| 0 <= k < self@.len() ==> pred.ensures((&self@[k],), #[trigger] outcomes[k])
                    &&& r == (count_true(outcomes) >= quorum_size(self@.len(), true))
                };
            lemma_count_holding(self@, n, outcomes);
        }
        r
    }
}

} // verus!
