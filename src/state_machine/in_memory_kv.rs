use vstd::prelude::*;

use crate::state_machine::{Message, StateMachine};

verus! {

/// A key/value store kept in memory, keys in order of first insertion.
pub struct InMemoryKV {
    inner: Vec<(String, String)>,
    history: Ghost<Seq<KVMessage>>,
}

/// A command of the key/value store.
#[derive(Debug, Clone)]
pub enum KVMessage {
    Put(String, String),
    Get(String),
    Del(String),
    Keys(Option<String>),
}

/// The pairs of the store as text.
pub open spec fn pairs_view(s: Seq<(String, String)>) -> Seq<(Seq<char>, Seq<char>)> {
    s.map_values(|p: (String, String)| (p.0@, p.1@))
}

/// No key occurs twice.
pub open spec fn keys_distinct(s: Seq<(Seq<char>, Seq<char>)>) -> bool {
    forall|i: int, j: int| 0 <= i < s.len() && 0 <= j < s.len() && i != j ==> #[trigger] s[i].0 != #[trigger] s[j].0
}

/// The store as a map from key to value.
pub open spec fn as_map(s: Seq<(Seq<char>, Seq<char>)>) -> Map<Seq<char>, Seq<char>> {
    Map::new(
        |k: Seq<char>| exists|i: int| 0 <= i < s.len() && #[trigger] s[i].0 == k,
        |k: Seq<char>| s[choose|i: int| 0 <= i < s.len() && #[trigger] s[i].0 == k].1,
    )
}

/// `p` is a prefix of `s`.
pub open spec fn has_prefix(s: Seq<char>, p: Seq<char>) -> bool {
    p.len() <= s.len() && s.take(p.len() as int) == p
}

/// The keys, in order, that start with `p`.
pub open spec fn keys_with_prefix(s: Seq<(Seq<char>, Seq<char>)>, p: Seq<char>) -> Seq<Seq<char>>
    decreases s.len(),
{
    if s.len() == 0 {
        Seq::empty()
    } else {
        keys_with_prefix(s.drop_last(), p) + if has_prefix(s.last().0, p) {
            seq![s.last().0]
        } else {
            Seq::<Seq<char>>::empty()
        }
    }
}

/// The lines joined with newlines.
pub open spec fn join_lines(lines: Seq<Seq<char>>) -> Seq<char>
    decreases lines.len(),
{
    if lines.len() == 0 {
        Seq::empty()
    } else if lines.len() == 1 {
        lines[0]
    } else {
        join_lines(lines.drop_last()) + seq!['\n'] + lines.last()
    }
}

/// The reply a command owes on a store: none for `Put` and `Del`, the value
/// for `Get`, the matching keys one per line for `Keys`.
pub open spec fn kv_reply(s: Seq<(Seq<char>, Seq<char>)>, m: KVMessage, r: Option<String>) -> bool {
    match m {
        KVMessage::Put(_, _) => r is None,
        KVMessage::Del(_) => r is None,
        KVMessage::Get(k) => match r {
            Some(v) => as_map(s).contains_key(k@) && v@ == as_map(s)[k@],
            None => !as_map(s).contains_key(k@),
        },
        KVMessage::Keys(p) => r matches Some(v) && v@ == join_lines(
            keys_with_prefix(
                s,
                match p {
                    Some(p) => p@,
                    None => Seq::<char>::empty(),
                },
            ),
        ),
    }
}

/// What a command does to the store, given as its new map.
pub open spec fn kv_after(m: Map<Seq<char>, Seq<char>>, c: KVMessage) -> Map<Seq<char>, Seq<char>> {
    match c {
        KVMessage::Put(k, v) => m.insert(k@, v@),
        KVMessage::Del(k) => m.remove(k@),
        _ => m,
    }
}

/// The command that command-line words spell, if any.
pub open spec fn kv_command(input: Seq<String>) -> Option<KVMessage> {
    if input.len() == 2 && input[0]@ == "get"@ {
        Some(KVMessage::Get(input[1]))
    } else if input.len() == 3 && input[0]@ == "set"@ {
        Some(KVMessage::Put(input[1], input[2]))
    } else if input.len() == 2 && input[0]@ == "del"@ {
        Some(KVMessage::Del(input[1]))
    } else if input.len() == 1 && input[0]@ == "keys"@ {
        Some(KVMessage::Keys(None))
    } else if input.len() == 2 && input[0]@ == "keys"@ {
        Some(KVMessage::Keys(Some(input[1])))
    } else {
        None
    }
}

fn text(s: &str) -> (r: String)
    ensures
        r@ == s@,
{
    String::from_str(s)
}

/// Whether `s` starts with `p`.
fn starts_with(s: &String, p: &String) -> (r: bool)
    ensures
        r == has_prefix(s@, p@),
{
    let n = s.as_str().unicode_len();
    let m = p.as_str().unicode_len();
    if m > n {
        return false;
    }
    let mut i: usize = 0;
    while i < m
        invariant
            m <= n,
            n == s@.len(),
            m == p@.len(),
            i <= m,
            forall|j: int| 0 <= j < i ==> s@[j] == p@[j],
        decreases m - i,
    {
        if s.as_str().get_char(i) != p.as_str().get_char(i) {
            assert(s@.take(m as int)[i as int] != p@[i as int]);
            return false;
        }
        i = i + 1;
    }
    assert(s@.take(m as int) =~= p@);
    true
}

impl KVMessage {
    /// Reads a command from command-line words: `get k`, `set k v`, `del k`,
    /// `keys` or `keys prefix`; anything else is an error.
    pub fn parse_words(input: &Vec<String>) -> (r: Result<KVMessage, String>)
        ensures
            match kv_command(input@) {
                Some(c) => r == Ok::<KVMessage, String>(c),
                None => r is Err,
            },
    {
        let n = input.len();
        if n == 0 {
            return Err(text("no command provided"));
        }
        let command = &input[0];
        let get = text("get");
        let set = text("set");
        let del = text("del");
        let keys = text("keys");
        proof {
            reveal_strlit("get");
            reveal_strlit("set");
            reveal_strlit("del");
            reveal_strlit("keys");
        }
        if n == 2 && *command == get {
            Ok(KVMessage::Get(input[1].clone()))
        } else if n == 3 && *command == set {
            Ok(KVMessage::Put(input[1].clone(), input[2].clone()))
        } else if n == 2 && *command == del {
            Ok(KVMessage::Del(input[1].clone()))
        } else if n == 1 && *command == keys {
            Ok(KVMessage::Keys(None))
        } else if n == 2 && *command == keys {
            Ok(KVMessage::Keys(Some(input[1].clone())))
        } else {
            let mut message = command.clone();
            message.append(" with ");
            message.append((n - 1).to_string().as_str());
            message.append(" arguments not recognized as a command.\n");
            message.append("try get @key, set @key, del @key, or keys (optional @prefix)");
            Err(message)
        }
    }
}

impl Message for KVMessage {
    fn from_cli(input: Vec<String>) -> (r: Result<Option<Self>, String>) {
        match KVMessage::parse_words(&input) {
            Ok(c) => Ok(Some(c)),
            Err(e) => Err(e),
        }
    }
}

impl View for InMemoryKV {
    type V = Seq<(Seq<char>, Seq<char>)>;

    closed spec fn view(&self) -> Seq<(Seq<char>, Seq<char>)> {
        pairs_view(self.inner@)
    }
}

impl Default for InMemoryKV {
    fn default() -> (r: Self)
        ensures
            r.wf(),
            r@ == Seq::<(Seq<char>, Seq<char>)>::empty(),
            r.applied() == Seq::<KVMessage>::empty(),
    {
        InMemoryKV::new()
    }
}

impl InMemoryKV {
    /// No key is stored twice; every constructor gives it and every command keeps it.
    pub open spec fn wf(&self) -> bool {
        keys_distinct(self@)
    }

    pub fn new() -> (r: Self)
        ensures
            r.wf(),
            r@ == Seq::<(Seq<char>, Seq<char>)>::empty(),
            r.applied() == Seq::<KVMessage>::empty(),
    {
        let r = InMemoryKV { inner: Vec::new(), history: Ghost(Seq::empty()) };
        assert(r@ =~= Seq::<(Seq<char>, Seq<char>)>::empty());
        r
    }

    fn position(&self, key: &String) -> (r: Option<usize>)
        ensures
            r matches Some(i) ==> i < self@.len() && self@[i as int].0 == key@,
            r is None ==> forall|i: int| 0 <= i < self@.len() ==> #[trigger] self@[i].0 != key@,
    {
        let mut i: usize = 0;
        while i < self.inner.len()
            invariant
                i <= self@.len(),
                self@ == pairs_view(self.inner@),
                forall|j: int| 0 <= j < i ==> #[trigger] self@[j].0 != key@,
            decreases self@.len() - i,
        {
            if self.inner[i].0 == *key {
                return Some(i);
            }
            i = i + 1;
        }
        None
    }

    /// Runs a command: `Put` and `Del` change the store and return none, `Get`
    /// returns the value, `Keys` returns the matching keys one per line.
    pub fn do_apply(&mut self, m: &KVMessage) -> (r: Option<String>)
        ensures
            old(self).wf() ==> final(self).wf(),
            old(self).wf() ==> as_map(final(self)@) == kv_after(as_map(old(self)@), *m),
            old(self).wf() ==> kv_reply(old(self)@, *m, r),
            final(self).applied() == old(self).applied().push(*m),
    {
        self.history = Ghost(self.history@.push(*m));
        let ghost s = self@;
        assert(s == old(self)@);
        match m {
            KVMessage::Put(k, v) => {
                match self.position(k) {
                    Some(i) => {
                        self.inner[i] = (k.clone(), v.clone());
                        proof {
                            assert(self@ =~= s.update(i as int, (k@, v@)));
                            if keys_distinct(s) {
                                lemma_map_update(s, i as int, v@);
                            }
                        }
                    },
                    None => {
                        self.inner.push((k.clone(), v.clone()));
                        proof {
                            assert(self@ =~= s.push((k@, v@)));
                            if keys_distinct(s) {
                                lemma_map_push(s, k@, v@);
                            }
                        }
                    },
                }
                None
            },
            KVMessage::Get(k) => {
                match self.position(k) {
                    Some(i) => {
                        proof {
                            if keys_distinct(s) {
                                lemma_map_at(s, i as int);
                            }
                        }
                        Some(self.inner[i].1.clone())
                    },
                    None => {
                        assert(!as_map(s).contains_key(k@));
                        None
                    },
                }
            },
            KVMessage::Del(k) => {
                match self.position(k) {
                    Some(i) => {
                        self.inner.remove(i);
                        proof {
                            assert(self@ =~= s.remove(i as int));
                            if keys_distinct(s) {
                                lemma_map_remove(s, i as int);
                            }
                        }
                    },
                    None => {
                        assert(as_map(s) =~= as_map(s).remove(k@));
                    },
                }
                None
            },
            KVMessage::Keys(p) => {
                let prefix = match p {
                    Some(p) => p.clone(),
                    None => String::new(),
                };
                Some(self.keys_starting_with(&prefix))
            },
        }
    }

    fn keys_starting_with(&self, prefix: &String) -> (r: String)
        ensures
            r@ == join_lines(keys_with_prefix(self@, prefix@)),
    {
        let mut out = String::new();
        let mut none_yet = true;
        let mut i: usize = 0;
        while i < self.inner.len()
            invariant
                i <= self@.len(),
                self@ == pairs_view(self.inner@),
                none_yet == (keys_with_prefix(self@.take(i as int), prefix@).len() == 0),
                out@ == join_lines(keys_with_prefix(self@.take(i as int), prefix@)),
            decreases self@.len() - i,
        {
            proof {
                reveal_strlit("\n");
            }
            assert(self@.take(i + 1).drop_last() =~= self@.take(i as int));
            assert(self@.take(i + 1).last() == self@[i as int]);
            let ghost before = keys_with_prefix(self@.take(i as int), prefix@);
            if starts_with(&self.inner[i].0, prefix) {
                if !none_yet {
                    out.append("\n");
                }
                none_yet = false;
                out.append(self.inner[i].0.as_str());
                let ghost after = before + seq![self@[i as int].0];
                assert(after.drop_last() =~= before);
            } else {
                assert(keys_with_prefix(self@.take(i + 1), prefix@) =~= before);
            }
            i = i + 1;
        }
        assert(self@.take(i as int) =~= self@);
        out
    }
}

proof fn lemma_map_at(s: Seq<(Seq<char>, Seq<char>)>, i: int)
    requires
        keys_distinct(s),
        0 <= i < s.len(),
    ensures
        as_map(s).contains_key(s[i].0),
        as_map(s)[s[i].0] == s[i].1,
{
    let k = s[i].0;
    assert(exists|j: int| 0 <= j < s.len() && #[trigger] s[j].0 == k) by {
        assert(s[i].0 == k);
    }
    let j = choose|j: int| 0 <= j < s.len() && #[trigger] s[j].0 == k;
    assert(j == i);
}

proof fn lemma_map_update(s: Seq<(Seq<char>, Seq<char>)>, i: int, v: Seq<char>)
    requires
        keys_distinct(s),
        0 <= i < s.len(),
    ensures
        keys_distinct(s.update(i, (s[i].0, v))),
        as_map(s.update(i, (s[i].0, v))) == as_map(s).insert(s[i].0, v),
{
    let t = s.update(i, (s[i].0, v));
    assert forall|a: int, b: int| 0 <= a < t.len() && 0 <= b < t.len() && a != b implies #[trigger] t[a].0 != #[trigger] t[b].0 by {
        assert(t[a].0 == s[a].0 && t[b].0 == s[b].0);
    }
    assert forall|k: Seq<char>| #[trigger] as_map(t).contains_key(k) == as_map(s).insert(s[i].0, v).contains_key(k) by {
        if as_map(s).contains_key(k) {
            let j = choose|j: int| 0 <= j < s.len() && #[trigger] s[j].0 == k;
            assert(t[j].0 == k);
        }
        if as_map(t).contains_key(k) {
            let j = choose|j: int| 0 <= j < t.len() && #[trigger] t[j].0 == k;
            assert(s[j].0 == k);
        }
    }
    assert forall|k: Seq<char>| #[trigger] as_map(t).contains_key(k) implies as_map(t)[k] == as_map(s).insert(s[i].0, v)[k] by {
        let j = choose|j: int| 0 <= j < t.len() && #[trigger] t[j].0 == k;
        lemma_map_at(t, j);
        if j != i {
            lemma_map_at(s, j);
        }
    }
    assert(as_map(t) =~= as_map(s).insert(s[i].0, v));
}

proof fn lemma_map_push(s: Seq<(Seq<char>, Seq<char>)>, k: Seq<char>, v: Seq<char>)
    requires
        keys_distinct(s),
        forall|i: int| 0 <= i < s.len() ==> #[trigger] s[i].0 != k,
    ensures
        keys_distinct(s.push((k, v))),
        as_map(s.push((k, v))) == as_map(s).insert(k, v),
{
    let t = s.push((k, v));
    assert forall|a: int, b: int| 0 <= a < t.len() && 0 <= b < t.len() && a != b implies #[trigger] t[a].0 != #[trigger] t[b].0 by {
        if a < s.len() {
            assert(t[a] == s[a]);
        }
        if b < s.len() {
            assert(t[b] == s[b]);
        }
    }
    assert forall|x: Seq<char>| #[trigger] as_map(t).contains_key(x) == as_map(s).insert(k, v).contains_key(x) by {
        if as_map(s).contains_key(x) {
            let j = choose|j: int| 0 <= j < s.len() && #[trigger] s[j].0 == x;
            assert(t[j].0 == x);
        }
        if x == k {
            assert(t[s.len() as int].0 == x);
        }
        if as_map(t).contains_key(x) {
            let j = choose|j: int| 0 <= j < t.len() && #[trigger] t[j].0 == x;
            if j < s.len() {
                assert(s[j].0 == x);
            }
        }
    }
    assert forall|x: Seq<char>| #[trigger] as_map(t).contains_key(x) implies as_map(t)[x] == as_map(s).insert(k, v)[x] by {
        let j = choose|j: int| 0 <= j < t.len() && #[trigger] t[j].0 == x;
        lemma_map_at(t, j);
        if j < s.len() {
            assert(t[j] == s[j]);
            lemma_map_at(s, j);
        }
    }
    assert(as_map(t) =~= as_map(s).insert(k, v));
}

proof fn lemma_map_remove(s: Seq<(Seq<char>, Seq<char>)>, i: int)
    requires
        keys_distinct(s),
        0 <= i < s.len(),
    ensures
        keys_distinct(s.remove(i)),
        as_map(s.remove(i)) == as_map(s).remove(s[i].0),
{
    let t = s.remove(i);
    let k = s[i].0;
    assert forall|a: int| 0 <= a < t.len() implies #[trigger] t[a] == s[if a < i { a } else { a + 1 }] by {}
    assert forall|a: int, b: int| 0 <= a < t.len() && 0 <= b < t.len() && a != b implies #[trigger] t[a].0 != #[trigger] t[b].0 by {
        assert(t[a] == s[if a < i { a } else { a + 1 }]);
        assert(t[b] == s[if b < i { b } else { b + 1 }]);
    }
    assert forall|x: Seq<char>| #[trigger] as_map(t).contains_key(x) == as_map(s).remove(k).contains_key(x) by {
        if as_map(t).contains_key(x) {
            let j = choose|j: int| 0 <= j < t.len() && #[trigger] t[j].0 == x;
            let o = if j < i { j } else { j + 1 };
            assert(t[j] == s[o]);
            assert(s[o].0 == x);
            assert(o != i);
        }
        if as_map(s).remove(k).contains_key(x) {
            let j = choose|j: int| 0 <= j < s.len() && #[trigger] s[j].0 == x;
            assert(j != i);
            let a = if j < i { j } else { j - 1 };
            assert(t[a] == s[j]);
            assert(t[a].0 == x);
        }
    }
    assert forall|x: Seq<char>| #[trigger] as_map(t).contains_key(x) implies as_map(t)[x] == as_map(s).remove(k)[x] by {
        let j = choose|j: int| 0 <= j < t.len() && #[trigger] t[j].0 == x;
        let o = if j < i { j } else { j + 1 };
        assert(t[j] == s[o]);
        lemma_map_at(t, j);
        lemma_map_at(s, o);
    }
    assert(as_map(t) =~= as_map(s).remove(k));
}

impl StateMachine for InMemoryKV {
    type MessageType = KVMessage;
    type ApplyResult = Option<String>;

    closed spec fn applied(&self) -> Seq<KVMessage> {
        self.history@
    }

    fn visit(&mut self, m: &KVMessage) {
    }

    fn apply(&mut self, m: &KVMessage) -> (r: Option<String>)
        ensures
            old(self).wf() ==> final(self).wf(),
            old(self).wf() ==> as_map(final(self)@) == kv_after(as_map(old(self)@), *m),
            old(self).wf() ==> kv_reply(old(self)@, *m, r),
    {
        self.do_apply(m)
    }
}

} // verus!
