use vstd::prelude::*;

verus! {

/// The identifiers that a list holds.
pub open spec fn ids_of(v: Seq<String>) -> Set<Seq<char>> {
    Set::new(|x: Seq<char>| exists|i: int| 0 <= i < v.len() && #[trigger] v[i]@ == x)
}

/// No identifier occurs twice in the list.
pub open spec fn distinct(v: Seq<String>) -> bool {
    forall|i: int, j: int| 0 <= i < v.len() && 0 <= j < v.len() && i != j ==> #[trigger] v[i]@ != #[trigger] v[j]@
}

/// Whether the list holds the identifier.
pub fn list_contains(v: &Vec<String>, id: &String) -> (r: bool)
    ensures
        r == ids_of(v@).contains(id@),
{
    let mut k: usize = 0;
    while k < v.len()
        invariant
            k <= v@.len(),
            forall|i: int| 0 <= i < k ==> #[trigger] v@[i]@ != id@,
        decreases v@.len() - k,
    {
        if v[k] == *id {
            assert(ids_of(v@).contains(id@)) by {
                assert(v@[k as int]@ == id@);
            }
            return true;
        }
        k = k + 1;
    }
    false
}

/// Appends the identifier unless the list holds it already.
fn push_unique(v: &mut Vec<String>, id: &String)
    requires
        distinct(old(v)@),
    ensures
        distinct(final(v)@),
        ids_of(final(v)@) == ids_of(old(v)@).insert(id@),
        ids_of(old(v)@).contains(id@) ==> final(v)@ == old(v)@,
{
    if !list_contains(v, id) {
        let ghost before = v@;
        v.push(id.clone());
        assert(ids_of(v@) =~= ids_of(before).insert(id@)) by {
            assert forall|x: Seq<char>| ids_of(v@).contains(x) implies ids_of(before).insert(id@).contains(x) by {
                let i = choose|i: int| 0 <= i < v@.len() && #[trigger] v@[i]@ == x;
                if i < before.len() {
                    assert(before[i]@ == x);
                }
            }
            assert forall|x: Seq<char>| ids_of(before).insert(id@).contains(x) implies ids_of(v@).contains(x) by {
                if x == id@ {
                    assert(v@[before.len() as int]@ == x);
                } else {
                    let i = choose|i: int| 0 <= i < before.len() && #[trigger] before[i]@ == x;
                    assert(v@[i]@ == x);
                }
            }
        }
        assert forall|i: int, j: int|
            0 <= i < v@.len() && 0 <= j < v@.len() && i != j implies #[trigger] v@[i]@ != #[trigger] v@[j]@ by {
            if i == before.len() {
                assert(ids_of(before).contains(v@[j]@)) by {
                    assert(before[j]@ == v@[j]@);
                }
            } else if j == before.len() {
                assert(ids_of(before).contains(v@[i]@)) by {
                    assert(before[i]@ == v@[i]@);
                }
            }
        }
    }
}

/// The identifiers of `v`, each once, in the order of first occurrence.
pub fn distinct_ids(v: &Vec<String>) -> (r: Vec<String>)
    ensures
        distinct(r@),
        ids_of(r@) == ids_of(v@),
{
    let mut out: Vec<String> = Vec::new();
    let mut k: usize = 0;
    while k < v.len()
        invariant
            k <= v@.len(),
            distinct(out@),
            ids_of(out@) == ids_of(v@.take(k as int)),
        decreases v@.len() - k,
    {
        push_unique(&mut out, &v[k]);
        assert(ids_of(v@.take(k + 1)) =~= ids_of(v@.take(k as int)).insert(v@[k as int]@)) by {
            assert forall|x: Seq<char>| ids_of(v@.take(k + 1)).contains(x) implies ids_of(v@.take(k as int)).insert(
                v@[k as int]@,
            ).contains(x) by {
                let i = choose|i: int| 0 <= i < k + 1 && #[trigger] v@.take(k + 1)[i]@ == x;
                if i < k {
                    assert(v@.take(k as int)[i]@ == x);
                }
            }
            assert forall|x: Seq<char>| ids_of(v@.take(k as int)).insert(v@[k as int]@).contains(x) implies ids_of(
                v@.take(k + 1),
            ).contains(x) by {
                if x == v@[k as int]@ {
                    assert(v@.take(k + 1)[k as int]@ == x);
                } else {
                    let i = choose|i: int| 0 <= i < k && #[trigger] v@.take(k as int)[i]@ == x;
                    assert(v@.take(k + 1)[i]@ == x);
                }
            }
        }
        k = k + 1;
    }
    assert(v@.take(k as int) =~= v@);
    out
}

/// A membership change carried by the log: the members before the change and,
/// while it is under way, the members after it.
#[derive(Debug, Default)]
pub struct ServerConfigChange {
    current: Vec<String>,
    new: Option<Vec<String>>,
}

/// The abstract value of a membership change.
pub struct ConfigChangeView {
    pub current: Set<Seq<char>>,
    pub new: Option<Set<Seq<char>>>,
}

impl View for ServerConfigChange {
    type V = ConfigChangeView;

    closed spec fn view(&self) -> ConfigChangeView {
        ConfigChangeView {
            current: ids_of(self.current@),
            new: match self.new {
                Some(n) => Some(ids_of(n@)),
                None => None,
            },
        }
    }
}

impl ServerConfigChange {
    /// Neither side lists a member twice.
    #[verifier::type_invariant]
    spec fn inv(&self) -> bool {
        &&& distinct(self.current@)
        &&& self.new matches Some(n) ==> distinct(n@)
    }

    /// A change from two lists of identifiers; repeated identifiers count once.
    pub fn from_lists(current: Vec<String>, new: Option<Vec<String>>) -> (r: Self)
        ensures
            r@.current == ids_of(current@),
            r@.new == match new {
                Some(n) => Some(ids_of(n@)),
                None => None::<Set<Seq<char>>>,
            },
    {
        let current = distinct_ids(&current);
        let new = match new {
            Some(n) => Some(distinct_ids(&n)),
            None => None,
        };
        ServerConfigChange { current, new }
    }

    /// The members before the change, each once.
    pub fn current(&self) -> (r: &Vec<String>)
        ensures
            ids_of(r@) == self@.current,
            distinct(r@),
    {
        proof {
            use_type_invariant(self);
        }
        &self.current
    }

    /// The members after the change, while it is under way.
    pub fn new_members(&self) -> (r: &Option<Vec<String>>)
        ensures
            r matches Some(n) ==> self@.new == Some(ids_of(n@)) && distinct(n@),
            r is None ==> self@.new is None,
    {
        proof {
            use_type_invariant(self);
        }
        &self.new
    }
}

impl Clone for ServerConfigChange {
    fn clone(&self) -> (r: Self) {
        proof {
            use_type_invariant(self);
        }
        let current = self.current.clone();
        assert(current@ =~= self.current@);
        let new = match &self.new {
            Some(n) => {
                let c = n.clone();
                assert(c@ =~= n@);
                Some(c)
            },
            None => None,
        };
        ServerConfigChange { current, new }
    }
}

/// What a log entry carries: a membership change, a command for the user state
/// machine, or nothing (the entry a new leader appends).
#[derive(Debug, Clone, Default)]
pub enum RaftMessage<MT> {
    ServerConfigChange(ServerConfigChange),
    StateMachineMessage(MT),
    #[default]
    Blank,
}

/// What a log entry carries, named by its two kinds of payload.
pub type ServerMessageOrStateMachineMessage<MT> = RaftMessage<MT>;

/// The authoritative membership, and the follow-up change that a committed
/// change asks the leader to append.
#[derive(Debug, Default)]
pub struct Servers {
    set: Vec<String>,
    pub new_config: Option<ServerConfigChange>,
}

impl View for Servers {
    type V = Set<Seq<char>>;

    closed spec fn view(&self) -> Set<Seq<char>> {
        ids_of(self.set@)
    }
}

/// `a ∪ b` as the result of a membership visit.
pub open spec fn visited_members(scc: ConfigChangeView) -> Set<Seq<char>> {
    match scc.new {
        Some(n) => scc.current.union(n),
        None => scc.current,
    }
}

impl Servers {
    /// The follow-up change waiting to be appended.
    pub closed spec fn pending(&self) -> Option<ServerConfigChange> {
        self.new_config
    }

    pub closed spec fn wf(&self) -> bool {
        distinct(self.set@)
    }

    /// No members and no pending change.
    pub fn new() -> (r: Self)
        ensures
            r.wf(),
            r@ == Set::<Seq<char>>::empty(),
            r.pending() is None,
    {
        let r = Servers { set: Vec::new(), new_config: None };
        assert(r@ =~= Set::<Seq<char>>::empty());
        r
    }

    /// The members, each once.
    pub fn members(&self) -> (r: &Vec<String>)
        requires
            self.wf(),
        ensures
            ids_of(r@) == self@,
            distinct(r@),
    {
        &self.set
    }

    /// The change that adds `id` to the current members.
    pub fn member_add(&self, id: &str) -> (r: Option<ServerConfigChange>)
        requires
            self.wf(),
        ensures
            r matches Some(c) && c@.current == self@ && c@.new == Some(self@.insert(id@)),
    {
        let mut new = self.set.clone();
        assert(new@ =~= self.set@);
        push_unique(&mut new, &String::from_str(id));
        let current = self.set.clone();
        assert(current@ =~= self.set@);
        Some(ServerConfigChange { current, new: Some(new) })
    }

    /// The change that removes `id` from the current members.
    pub fn member_remove(&self, id: &str) -> (r: Option<ServerConfigChange>)
        requires
            self.wf(),
        ensures
            r matches Some(c) && c@.current == self@ && c@.new == Some(self@.remove(id@)),
    {
        let target = String::from_str(id);
        let mut new: Vec<String> = Vec::new();
        let mut k: usize = 0;
        while k < self.set.len()
            invariant
                k <= self.set@.len(),
                target@ == id@,
                distinct(self.set@),
                distinct(new@),
                ids_of(new@) == ids_of(self.set@.take(k as int)).remove(id@),
            decreases self.set@.len() - k,
        {
            let ghost before = new@;
            let ghost pre = self.set@.take(k as int);
            let ghost nxt = self.set@.take(k + 1);
            assert forall|i: int| 0 <= i < k implies #[trigger] nxt[i] == pre[i] by {}
            assert(nxt[k as int] == self.set@[k as int]);
            if self.set[k] != target {
                assert(!ids_of(before).contains(self.set@[k as int]@)) by {
                    if ids_of(before).contains(self.set@[k as int]@) {
                        let i = choose|i: int| 0 <= i < k && #[trigger] pre[i]@ == self.set@[k as int]@;
                        assert(self.set@[i]@ == self.set@[k as int]@);
                    }
                }
                push_unique(&mut new, &self.set[k]);
            }
            assert(ids_of(new@) =~= ids_of(nxt).remove(id@)) by {
                assert forall|x: Seq<char>| ids_of(nxt).remove(id@).contains(x) implies ids_of(new@).contains(x) by {
                    let i = choose|i: int| 0 <= i < k + 1 && #[trigger] nxt[i]@ == x;
                    if i < k {
                        assert(pre[i]@ == x);
                    }
                }
                assert forall|x: Seq<char>| ids_of(new@).contains(x) implies ids_of(nxt).remove(id@).contains(x) by {
                    if ids_of(before).contains(x) {
                        let i = choose|i: int| 0 <= i < k && #[trigger] pre[i]@ == x;
                        assert(nxt[i]@ == x);
                    } else {
                        assert(nxt[k as int]@ == x);
                    }
                }
            }
            k = k + 1;
        }
        assert(self.set@.take(k as int) =~= self.set@);
        let current = self.set.clone();
        assert(current@ =~= self.set@);
        Some(ServerConfigChange { current, new: Some(new) })
    }

    pub fn contains(&self, id: &str) -> (r: bool)
        ensures
            r == self@.contains(id@),
    {
        list_contains(&self.set, &String::from_str(id))
    }

    pub fn is_empty(&self) -> (r: bool)
        ensures
            r == (self@ == Set::<Seq<char>>::empty()),
    {
        if self.set.len() == 0 {
            assert(self@ =~= Set::<Seq<char>>::empty());
            true
        } else {
            assert(self@.contains(self.set@[0]@));
            false
        }
    }

    /// Seeing a change in the log makes the union of both sides the active
    /// membership (the current side alone when nothing new is proposed).
    pub fn visit(&mut self, scc: &ServerConfigChange)
        requires
            old(self).wf(),
        ensures
            final(self).wf(),
            final(self)@ == visited_members(scc@),
            final(self).pending() == old(self).pending(),
    {
        proof {
            use_type_invariant(scc);
        }
        let mut set = scc.current.clone();
        assert(set@ =~= scc.current@);
        if let Some(new) = &scc.new {
            let mut k: usize = 0;
            while k < new.len()
                invariant
                    k <= new@.len(),
                    distinct(set@),
                    ids_of(set@) == ids_of(scc.current@).union(ids_of(new@.take(k as int))),
                decreases new@.len() - k,
            {
                let ghost pre = new@.take(k as int);
                let ghost nxt = new@.take(k + 1);
                push_unique(&mut set, &new[k]);
                assert(ids_of(nxt) =~= ids_of(pre).insert(new@[k as int]@)) by {
                    assert forall|x: Seq<char>| ids_of(nxt).contains(x) implies ids_of(pre).insert(new@[k as int]@).contains(x) by {
                        let i = choose|i: int| 0 <= i < k + 1 && #[trigger] nxt[i]@ == x;
                        if i < k {
                            assert(pre[i]@ == x);
                        }
                    }
                    assert forall|x: Seq<char>| ids_of(pre).insert(new@[k as int]@).contains(x) implies ids_of(nxt).contains(x) by {
                        if x == new@[k as int]@ {
                            assert(nxt[k as int]@ == x);
                        } else {
                            let i = choose|i: int| 0 <= i < k && #[trigger] pre[i]@ == x;
                            assert(nxt[i]@ == x);
                        }
                    }
                }
                assert(ids_of(set@) =~= ids_of(scc.current@).union(ids_of(nxt)));
                k = k + 1;
            }
            assert(new@.take(k as int) =~= new@);
        }
        self.set = set;
    }

    /// Committing a change that proposes new members asks for the follow-up
    /// change that makes them the only members; committing that follow-up asks
    /// for nothing.
    pub fn apply(&mut self, scc: &ServerConfigChange)
        requires
            old(self).wf(),
        ensures
            final(self).wf(),
            final(self)@ == old(self)@,
            match scc@.new {
                Some(n) => final(self).pending() matches Some(c) && c@.current == n && c@.new is None,
                None => final(self).pending() is None,
            },
    {
        proof {
            use_type_invariant(scc);
        }
        self.new_config = match &scc.new {
            Some(new) => {
                let current = new.clone();
                assert(current@ =~= new@);
                Some(ServerConfigChange { current, new: None })
            },
            None => None,
        };
    }

    /// Whether a follow-up change waits to be appended.
    pub fn has_pending(&self) -> (r: bool)
        ensures
            r == self.pending() is Some,
    {
        self.new_config.is_some()
    }

    /// Hands out the pending follow-up change, leaving none.
    pub fn take_new_config(&mut self) -> (r: Option<ServerConfigChange>)
        requires
            old(self).wf(),
        ensures
            final(self).wf(),
            final(self)@ == old(self)@,
            r == old(self).pending(),
            final(self).pending() is None,
    {
        self.new_config.take()
    }
}

} // verus!
