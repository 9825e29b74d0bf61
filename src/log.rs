use vstd::prelude::*;

use crate::rpc::AppendRequest;
use crate::{Index, Term, TermIndex};

verus! {

/// One record of the replicated log.
#[derive(Debug, Clone, Default)]
pub struct LogEntry<M> {
    pub index: Index,
    pub term: Term,
    pub message: M,
}

/// Entries are identified by their term and index; the payload takes no part.
impl<M> PartialEq for LogEntry<M> {
    fn eq(&self, other: &Self) -> (r: bool) {
        self.index == other.index && self.term == other.term
    }
}

impl<M> vstd::std_specs::cmp::PartialEqSpecImpl for LogEntry<M> {
    open spec fn obeys_eq_spec() -> bool {
        true
    }

    open spec fn eq_spec(&self, other: &Self) -> bool {
        self.index == other.index && self.term == other.term
    }
}

impl<M> LogEntry<M> {
    /// The (term, index) identity of this entry.
    pub fn term_index(&self) -> (r: TermIndex)
        ensures
            r == TermIndex(self.term, self.index),
    {
        TermIndex(self.term, self.index)
    }
}

/// Entry `i` (0-based) of a well-formed log carries index `i + 1`.
pub open spec fn entries_wf<M>(s: Seq<LogEntry<M>>) -> bool {
    &&& s.len() < usize::MAX
    &&& forall|i: int| 0 <= i < s.len() ==> #[trigger] s[i].index == i + 1
}

/// The previous-entry predicate of AppendEntries: `(None, None)` always holds,
/// `(Some(t), Some(i))` holds when the entry at `i` has term `t`.
pub open spec fn has_term_at<M>(s: Seq<LogEntry<M>>, term: Option<Term>, index: Option<Index>) -> bool {
    match (term, index) {
        (None, None) => true,
        (Some(t), Some(i)) => 1 <= i <= s.len() && s[i - 1].term == t,
        _ => false,
    }
}

/// An incoming entry conflicts when the log holds its index with another term.
pub open spec fn conflicts<M>(s: Seq<LogEntry<M>>, e: LogEntry<M>) -> bool {
    1 <= e.index <= s.len() && s[e.index - 1].term != e.term
}

/// The index of the first entry of the batch, in batch order, that conflicts.
pub open spec fn first_conflict<M>(s: Seq<LogEntry<M>>, batch: Seq<LogEntry<M>>) -> Option<Index>
    decreases batch.len(),
{
    if batch.len() == 0 {
        None
    } else if conflicts(s, batch[0]) {
        Some(batch[0].index)
    } else {
        first_conflict(s, batch.drop_first())
    }
}

/// The indices of the batch run on without gaps from `first`.
pub open spec fn contiguous_from<M>(batch: Seq<LogEntry<M>>, first: int) -> bool {
    forall|j: int| 0 <= j < batch.len() ==> #[trigger] batch[j].index == first + j
}

/// The batch continues right after the previous entry `prev` (0 for none),
/// and its last index fits below `usize::MAX`.
pub open spec fn batch_fits<M>(prev: Option<Index>, batch: Seq<LogEntry<M>>) -> bool {
    let p = match prev {
        Some(i) => i as int,
        None => 0,
    };
    &&& p + batch.len() < usize::MAX
    &&& contiguous_from(batch, p + 1)
}

/// The entries of the batch whose index lies beyond `last`.
pub open spec fn beyond<M>(batch: Seq<LogEntry<M>>, last: int) -> Seq<LogEntry<M>> {
    batch.filter(|e: LogEntry<M>| e.index > last)
}

/// The log after an accepted batch: cut at the first conflict, then extended
/// by the entries that lie beyond its end.
pub open spec fn appended<M>(s: Seq<LogEntry<M>>, batch: Seq<LogEntry<M>>) -> Seq<LogEntry<M>> {
    let kept = match first_conflict(s, batch) {
        Some(c) => s.take(c - 1),
        None => s,
    };
    kept + beyond(batch, kept.len() as int)
}

/// Whether AppendEntries accepts the request on log `s`.
pub open spec fn accepts<M>(
    s: Seq<LogEntry<M>>,
    prev_term: Option<Term>,
    prev_index: Option<Index>,
    batch: Seq<LogEntry<M>>,
) -> bool {
    has_term_at(s, prev_term, prev_index) && batch_fits(prev_index, batch)
}

/// The log after AppendEntries: changed only when accepted.
pub open spec fn append_outcome<M>(
    s: Seq<LogEntry<M>>,
    prev_term: Option<Term>,
    prev_index: Option<Index>,
    batch: Seq<LogEntry<M>>,
) -> Seq<LogEntry<M>> {
    if accepts(s, prev_term, prev_index, batch) {
        appended(s, batch)
    } else {
        s
    }
}

/// The entries an optional batch holds.
pub open spec fn batch_of<M>(o: Option<Vec<LogEntry<M>>>) -> Seq<LogEntry<M>> {
    match o {
        Some(v) => v@,
        None => Seq::empty(),
    }
}

/// `b` is a copy of `a`: same identity, cloned payload.
pub open spec fn copied<M: Clone>(a: LogEntry<M>, b: LogEntry<M>) -> bool {
    a.index == b.index && a.term == b.term && cloned(a.message, b.message)
}

/// The index of the last entry of the log, none when it is empty.
pub open spec fn last_index_of<M>(s: Seq<LogEntry<M>>) -> Option<Index> {
    if s.len() == 0 {
        None
    } else {
        Some(s.last().index)
    }
}

/// The term of the last entry of the log, none when it is empty.
pub open spec fn last_term_of<M>(s: Seq<LogEntry<M>>) -> Option<Term> {
    if s.len() == 0 {
        None
    } else {
        Some(s.last().term)
    }
}

proof fn lemma_first_conflict<M>(s: Seq<LogEntry<M>>, batch: Seq<LogEntry<M>>)
    ensures
        first_conflict(s, batch) is None <==> forall|j: int|
            0 <= j < batch.len() ==> !conflicts(s, #[trigger] batch[j]),
        first_conflict(s, batch) matches Some(c) ==> exists|j: int|
            0 <= j < batch.len() && #[trigger] batch[j].index == c && conflicts(s, batch[j])
                && forall|k: int| 0 <= k < j ==> !conflicts(s, #[trigger] batch[k]),
    decreases batch.len(),
{
    if batch.len() > 0 {
        let rest = batch.drop_first();
        lemma_first_conflict(s, rest);
        assert forall|j: int| 0 < j < batch.len() implies batch[j] == rest[j - 1] by {}
        if !conflicts(s, batch[0]) {
            if let Some(c) = first_conflict(s, rest) {
                let j = choose|j: int|
                    0 <= j < rest.len() && #[trigger] rest[j].index == c && conflicts(s, rest[j])
                        && forall|k: int| 0 <= k < j ==> !conflicts(s, #[trigger] rest[k]);
                assert(batch[j + 1] == rest[j]);
                assert forall|k: int| 0 <= k < j + 1 implies !conflicts(s, #[trigger] batch[k]) by {
                    if k > 0 {
                        assert(batch[k] == rest[k - 1]);
                    }
                }
            } else {
                assert forall|j: int| 0 <= j < batch.len() implies !conflicts(s, #[trigger] batch[j]) by {
                    if j > 0 {
                        assert(batch[j] == rest[j - 1]);
                    }
                }
            }
        }
    }
}

/// For a batch that runs on from `first` (with `first <= last + 1`), the
/// entries beyond `last` are a suffix of it.
proof fn lemma_beyond_contiguous<M>(batch: Seq<LogEntry<M>>, first: int, last: int)
    requires
        contiguous_from(batch, first),
        first <= last + 1,
    ensures
        beyond(batch, last) == batch.subrange(
            if last + 1 - first < batch.len() { last + 1 - first } else { batch.len() as int },
            batch.len() as int,
        ),
    decreases batch.len(),
{
    reveal(Seq::filter);
    let pred = |e: LogEntry<M>| e.index > last;
    if batch.len() > 0 {
        let init = batch.drop_last();
        assert(contiguous_from(init, first)) by {
            assert forall|j: int| 0 <= j < init.len() implies #[trigger] init[j].index == first + j by {
                assert(init[j] == batch[j]);
            }
        }
        lemma_beyond_contiguous(init, first, last);
        assert(batch.filter(pred) == init.filter(pred) || batch.filter(pred) == init.filter(pred).push(batch.last()));
        assert(beyond(batch, last) =~= batch.subrange(
            if last + 1 - first < batch.len() { last + 1 - first } else { batch.len() as int },
            batch.len() as int,
        ));
    }
}

/// The index of the entry before a batch, 0 when there is none.
pub open spec fn prev_of(prev_index: Option<Index>) -> int {
    match prev_index {
        Some(i) => i as int,
        None => 0,
    }
}

/// The shape of an accepted append: the log up to the previous entry is kept,
/// then it agrees with the batch on every index the batch covers, and no entry
/// of the batch conflicts any more.
proof fn lemma_appended_shape<M>(
    s: Seq<LogEntry<M>>,
    prev_term: Option<Term>,
    prev_index: Option<Index>,
    batch: Seq<LogEntry<M>>,
)
    requires
        entries_wf(s),
        accepts(s, prev_term, prev_index, batch),
    ensures
        ({
            let s1 = appended(s, batch);
            let p = prev_of(prev_index);
            &&& entries_wf(s1)
            &&& s1.len() >= p + batch.len()
            &&& s1.take(p) == s.take(p)
            &&& forall|j: int|
                0 <= j < batch.len() ==> (#[trigger] s1[p + j]).term == batch[j].term && s1[p + j].index
                    == batch[j].index
            &&& first_conflict(s1, batch) is None
        }),
{
    let p = prev_of(prev_index);
    let k = batch.len() as int;
    lemma_first_conflict(s, batch);
    let kept = match first_conflict(s, batch) {
        Some(c) => s.take(c - 1),
        None => s,
    };
    let mut j0: int = k;
    if let Some(c) = first_conflict(s, batch) {
        let j = choose|j: int|
            0 <= j < batch.len() && #[trigger] batch[j].index == c && conflicts(s, batch[j])
                && forall|q: int| 0 <= q < j ==> !conflicts(s, #[trigger] batch[q]);
        assert(batch[j].index == p + 1 + j);
        j0 = j;
        assert(kept.len() == p + j);
    }
    assert(kept.len() >= p);
    assert(forall|j: int| 0 <= j < j0 ==> !conflicts(s, #[trigger] batch[j]));
    let st: int = if kept.len() - p < k { kept.len() - p } else { k };
    lemma_beyond_contiguous(batch, p + 1, kept.len() as int);
    let tail = beyond(batch, kept.len() as int);
    assert(tail == batch.subrange(st, k));
    let s1 = appended(s, batch);
    assert(s1 == kept + tail);
    assert forall|j: int| 0 <= j < batch.len() implies (#[trigger] s1[p + j]).term == batch[j].term
        && s1[p + j].index == batch[j].index by {
        assert(batch[j].index == p + 1 + j);
        if p + j < kept.len() {
            assert(s1[p + j] == s[p + j]);
            assert(j < j0);
            assert(!conflicts(s, batch[j]));
        } else {
            assert(s1[p + j] == batch[st + p + j - kept.len()]);
        }
    }
    assert forall|i: int| 0 <= i < s1.len() implies #[trigger] s1[i].index == i + 1 by {
        if i >= kept.len() {
            assert(s1[i] == batch[st + i - kept.len()]);
        } else {
            assert(s1[i] == s[i]);
        }
    }
    assert(s1.take(p) =~= s.take(p));
    assert forall|j: int| 0 <= j < batch.len() implies !conflicts(s1, #[trigger] batch[j]) by {
        assert(s1[p + j].term == batch[j].term);
        assert(batch[j].index == p + 1 + j);
    }
    lemma_first_conflict(s1, batch);
}

/// AppendEntries is idempotent: applying the same request a second time leaves
/// the log as the first application left it.
pub proof fn lemma_append_idempotent<M>(
    s: Seq<LogEntry<M>>,
    prev_term: Option<Term>,
    prev_index: Option<Index>,
    batch: Seq<LogEntry<M>>,
)
    requires
        entries_wf(s),
    ensures
        append_outcome(append_outcome(s, prev_term, prev_index, batch), prev_term, prev_index, batch)
            == append_outcome(s, prev_term, prev_index, batch),
{
    if accepts(s, prev_term, prev_index, batch) {
        lemma_appended_shape(s, prev_term, prev_index, batch);
        let s1 = appended(s, batch);
        let p = prev_of(prev_index);
        if let (Some(t), Some(i)) = (prev_term, prev_index) {
            assert(s1[i - 1] == s1.take(p)[i - 1]);
            assert(s[i - 1] == s.take(p)[i - 1]);
        }
        assert(accepts(s1, prev_term, prev_index, batch));
        lemma_beyond_contiguous(batch, p + 1, s1.len() as int);
        assert(beyond(batch, s1.len() as int) =~= Seq::<LogEntry<M>>::empty());
        assert(appended(s1, batch) =~= s1);
    }
}

/// The consistency step of log matching: once a receiver accepts a batch, its
/// log keeps everything up to the previous entry and holds, at each index the
/// batch covers, an entry with the batch's term and index.
pub proof fn lemma_append_matches_sender<M>(
    s: Seq<LogEntry<M>>,
    prev_term: Option<Term>,
    prev_index: Option<Index>,
    batch: Seq<LogEntry<M>>,
)
    requires
        entries_wf(s),
        accepts(s, prev_term, prev_index, batch),
    ensures
        ({
            let s1 = append_outcome(s, prev_term, prev_index, batch);
            let p = prev_of(prev_index);
            &&& entries_wf(s1)
            &&& s1.take(p) == s.take(p)
            &&& forall|j: int|
                0 <= j < batch.len() ==> (#[trigger] s1[p + j]).term == batch[j].term && s1[p + j].index
                    == batch[j].index
        }),
{
    lemma_appended_shape(s, prev_term, prev_index, batch);
}

/// Log matching between two logs: wherever both hold an entry of the same
/// term at the same index, they hold the same entries (messages included)
/// up to that index.
pub open spec fn log_matching<M>(a: Seq<LogEntry<M>>, b: Seq<LogEntry<M>>) -> bool {
    forall|i: int|
        0 <= i < a.len() && i < b.len() && (#[trigger] a[i]).term == b[i].term ==> a.take(i + 1) == b.take(i + 1)
}

/// The previous-entry fields of a request that sends `l`'s entries from
/// index `p + 1` on: none for `p == 0`, else the index and term of entry `p`.
pub open spec fn prev_term_of<M>(l: Seq<LogEntry<M>>, p: int) -> Option<Term> {
    if p == 0 {
        None
    } else {
        Some(l[p - 1].term)
    }
}

pub open spec fn prev_index_of(p: int) -> Option<Index> {
    if p == 0 {
        None
    } else {
        Some(p as Index)
    }
}

/// Log matching is kept by AppendEntries. A receiver whose log matches the
/// sender's log `l` gets the entries of `l` from `p + 1` to `q`, with the
/// entry at `p` as the previous one. It accepts exactly when it holds that
/// previous entry with the same term, and then its log holds the sender's
/// first `q` entries, messages included, and still matches the sender's log.
pub proof fn lemma_append_keeps_log_matching<M>(s: Seq<LogEntry<M>>, l: Seq<LogEntry<M>>, p: int, q: int)
    requires
        entries_wf(s),
        entries_wf(l),
        log_matching(s, l),
        0 <= p <= q <= l.len(),
    ensures
        ({
            let pt = prev_term_of(l, p);
            let pi = prev_index_of(p);
            let batch = l.subrange(p, q);
            let s1 = append_outcome(s, pt, pi, batch);
            &&& accepts(s, pt, pi, batch) == has_term_at(s, pt, pi)
            &&& (p == 0 || (p <= s.len() && s[p - 1].term == l[p - 1].term)) ==> accepts(s, pt, pi, batch)
            &&& accepts(s, pt, pi, batch) ==> s1.take(q) == l.take(q) && log_matching(s1, l) && entries_wf(s1)
        }),
{
    let pt = prev_term_of(l, p);
    let pi = prev_index_of(p);
    let batch = l.subrange(p, q);
    let k = batch.len() as int;
    assert(batch_fits(pi, batch)) by {
        assert forall|j: int| 0 <= j < batch.len() implies #[trigger] batch[j].index == p + 1 + j by {
            assert(batch[j] == l[p + j]);
        }
    }
    if accepts(s, pt, pi, batch) {
        lemma_appended_shape(s, pt, pi, batch);
        lemma_first_conflict(s, batch);
        let kept = match first_conflict(s, batch) {
            Some(c) => s.take(c - 1),
            None => s,
        };
        let mut j0: int = k;
        if let Some(c) = first_conflict(s, batch) {
            let j = choose|j: int|
                0 <= j < batch.len() && #[trigger] batch[j].index == c && conflicts(s, batch[j])
                    && forall|x: int| 0 <= x < j ==> !conflicts(s, #[trigger] batch[x]);
            assert(batch[j].index == p + 1 + j);
            j0 = j;
            assert(kept.len() == p + j);
        }
        assert(kept.len() >= p);
        assert(forall|j: int| 0 <= j < j0 ==> !conflicts(s, #[trigger] batch[j]));
        let st: int = if kept.len() - p < k { kept.len() - p } else { k };
        lemma_beyond_contiguous(batch, p + 1, kept.len() as int);
        let s1 = appended(s, batch);
        assert(s1 == kept + batch.subrange(st, k));
        if p > 0 {
            assert(s.take(p) == l.take(p));
        }
        assert forall|i: int| 0 <= i < q implies s1[i] == l[i] by {
            if i < kept.len() {
                assert(s1[i] == s[i]);
                if i < p {
                    assert(s.take(p)[i] == l.take(p)[i]);
                } else {
                    let j = i - p;
                    assert(batch[j] == l[i]);
                    assert(j < j0);
                    assert(!conflicts(s, batch[j]));
                    assert(s[i].term == l[i].term);
                    assert(s.take(i + 1) == l.take(i + 1));
                    assert(s.take(i + 1)[i] == l.take(i + 1)[i]);
                }
            } else {
                assert(s1[i] == batch[st + i - kept.len()]);
                assert(batch[st + i - kept.len()] == l[i]);
            }
        }
        assert(s1.take(q) =~= l.take(q));
        assert forall|i: int|
            0 <= i < s1.len() && i < l.len() && (#[trigger] s1[i]).term == l[i].term implies s1.take(i + 1) == l.take(
            i + 1,
        ) by {
            if i < q {
                assert(s1.take(i + 1) =~= l.take(i + 1)) by {
                    assert forall|x: int| 0 <= x < i + 1 implies #[trigger] s1.take(i + 1)[x] == l.take(i + 1)[x] by {
                        assert(s1[x] == l[x]);
                    }
                }
            } else {
                assert(i < kept.len());
                assert(s1[i] == s[i]);
                assert(s.take(i + 1) == l.take(i + 1));
                assert(s1.take(i + 1) =~= s.take(i + 1)) by {
                    assert forall|x: int| 0 <= x < i + 1 implies #[trigger] s1.take(i + 1)[x] == s.take(i + 1)[x] by {
                        assert(s1[x] == s[x]);
                    }
                }
            }
        }
    }
    if p == 0 || (p <= s.len() && s[p - 1].term == l[p - 1].term) {
        assert(has_term_at(s, pt, pi));
    }
}

/// The replicated log: an ordered sequence of entries with indices 1, 2, ...
#[derive(Debug)]
pub struct Log<M> {
    entries: Vec<LogEntry<M>>,
}

impl<M> View for Log<M> {
    type V = Seq<LogEntry<M>>;

    closed spec fn view(&self) -> Seq<LogEntry<M>> {
        self.entries@
    }
}

impl<M> Default for Log<M> {
    fn default() -> (r: Self)
        ensures
            r@ == Seq::<LogEntry<M>>::empty(),
            r.wf(),
    {
        Log { entries: Vec::new() }
    }
}

impl<M> Log<M> {
    /// Indices are contiguous from 1.
    pub open spec fn wf(&self) -> bool {
        entries_wf(self@)
    }

    /// The empty log.
    pub fn new() -> (r: Self)
        ensures
            r@ == Seq::<LogEntry<M>>::empty(),
            r.wf(),
    {
        Log { entries: Vec::new() }
    }

    /// Builds a log from a sequence of entries that is already well formed.
    pub fn from_entries(entries: Vec<LogEntry<M>>) -> (r: Self)
        requires
            entries_wf(entries@),
        ensures
            r@ == entries@,
            r.wf(),
    {
        Log { entries }
    }

    /// The entries, in order.
    pub fn entries(&self) -> (r: &Vec<LogEntry<M>>)
        ensures
            r@ == self@,
    {
        &self.entries
    }

    pub fn is_empty(&self) -> (r: bool)
        ensures
            r == (self@.len() == 0),
    {
        self.entries.len() == 0
    }

    pub fn len(&self) -> (r: usize)
        ensures
            r == self@.len(),
    {
        self.entries.len()
    }

    /// The entry at a 1-based index; index 0 and indices past the end give none.
    pub fn get(&self, index: Index) -> (r: Option<&LogEntry<M>>)
        ensures
            r is Some == (1 <= index <= self@.len()),
            r matches Some(e) ==> *e == self@[index - 1],
    {
        if index >= 1 && index <= self.entries.len() {
            Some(&self.entries[index - 1])
        } else {
            None
        }
    }

    /// The previous-entry predicate of AppendEntries.
    pub fn contains_term_at_index(&self, expected_term: Option<Term>, index: Option<Index>) -> (r: bool)
        ensures
            r == has_term_at(self@, expected_term, index),
    {
        match (expected_term, index) {
            (None, None) => true,
            (Some(t), Some(i)) => match self.get(i) {
                Some(e) => e.term == t,
                None => false,
            },
            _ => false,
        }
    }

    /// The highest index whose entry has the given term.
    pub fn last_index_in_term(&self, term: Term) -> (r: Option<Index>)
        requires
            self.wf(),
        ensures
            r matches Some(i) ==> 1 <= i <= self@.len() && self@[i - 1].term == term && forall|j: int|
                i <= j < self@.len() ==> #[trigger] self@[j].term != term,
            r is None ==> forall|j: int| 0 <= j < self@.len() ==> #[trigger] self@[j].term != term,
    {
        let mut k: usize = self.entries.len();
        while k > 0
            invariant
                k <= self@.len(),
                self.wf(),
                forall|j: int| k <= j < self@.len() ==> #[trigger] self@[j].term != term,
            decreases k,
        {
            if self.entries[k - 1].term == term {
                return Some(self.entries[k - 1].index);
            }
            k = k - 1;
        }
        None
    }

    /// The entry just before `index`, none for indices 0 and 1.
    pub fn previous_entry_to(&self, index: Index) -> (r: Option<&LogEntry<M>>)
        ensures
            r is Some == (2 <= index <= self@.len() + 1),
            r matches Some(e) ==> *e == self@[index - 2],
    {
        if index >= 1 {
            self.get(index - 1)
        } else {
            None
        }
    }

    /// Removes the entries from `index` on.
    pub fn truncate(&mut self, index: Index)
        requires
            index >= 1,
        ensures
            final(self)@ == if index - 1 <= old(self)@.len() {
                old(self)@.take(index - 1)
            } else {
                old(self)@
            },
    {
        self.entries.truncate(index - 1);
    }

    pub fn last_index(&self) -> (r: Option<Index>)
        requires
            self.wf(),
        ensures
            r == last_index_of(self@),
            r == if self@.len() == 0 {
                None::<Index>
            } else {
                Some(self@.len() as Index)
            },
    {
        let n = self.entries.len();
        if n == 0 {
            None
        } else {
            Some(self.entries[n - 1].index)
        }
    }

    /// The index the next appended entry receives.
    pub fn next_index(&self) -> (r: Index)
        requires
            self.wf(),
        ensures
            r == self@.len() + 1,
    {
        match self.last_index() {
            Some(i) => i + 1,
            None => 1,
        }
    }

    pub fn last_term(&self) -> (r: Option<Term>)
        ensures
            r == last_term_of(self@),
    {
        let n = self.entries.len();
        if n == 0 {
            None
        } else {
            Some(self.entries[n - 1].term)
        }
    }

    /// The index of the first incoming entry that the log holds with another term.
    pub fn first_conflicting_index(&self, new_entries: &Option<Vec<LogEntry<M>>>) -> (r: Option<Index>)
        ensures
            r == first_conflict(self@, batch_of(*new_entries)),
    {
        match new_entries {
            None => None,
            Some(batch) => {
                let mut j: usize = 0;
                assert(batch@.subrange(0, batch@.len() as int) =~= batch@);
                while j < batch.len()
                    invariant
                        j <= batch@.len(),
                        batch_of(*new_entries) == batch@,
                        first_conflict(self@, batch@) == first_conflict(
                            self@,
                            batch@.subrange(j as int, batch@.len() as int),
                        ),
                    decreases batch@.len() - j,
                {
                    let ghost rest = batch@.subrange(j as int, batch@.len() as int);
                    assert(rest[0] == batch@[j as int]);
                    let e = &batch[j];
                    let there = match self.get(e.index) {
                        Some(found) => found.term != e.term,
                        None => false,
                    };
                    if there {
                        assert(conflicts(self@, rest[0]));
                        assert(first_conflict(self@, rest) == Some(rest[0].index));
                        return Some(e.index);
                    }
                    assert(rest.drop_first() =~= batch@.subrange(j + 1, batch@.len() as int));
                    j = j + 1;
                }
                assert(batch@.subrange(j as int, batch@.len() as int) =~= Seq::<LogEntry<M>>::empty());
                None
            },
        }
    }

    /// Appends the incoming entries whose index lies beyond the last index.
    pub fn append_new_entries_not_in_log(&mut self, new_entries: Option<Vec<LogEntry<M>>>)
        requires
            old(self).wf(),
            batch_of(new_entries).len() > 0 ==> {
                let b = batch_of(new_entries);
                &&& 1 <= b[0].index <= old(self)@.len() + 1
                &&& contiguous_from(b, b[0].index as int)
                &&& b[0].index + b.len() <= usize::MAX
            },
        ensures
            final(self)@ == old(self)@ + beyond(batch_of(new_entries), old(self)@.len() as int),
            final(self).wf(),
    {
        if let Some(mut batch) = new_entries {
            if batch.len() > 0 {
                let n = self.entries.len();
                let first = batch[0].index;
                let ghost b = batch@;
                proof {
                    lemma_beyond_contiguous(batch@, first as int, n as int);
                }
                let start: usize = if n + 1 - first < batch.len() {
                    n + 1 - first
                } else {
                    batch.len()
                };
                let mut tail = batch.split_off(start);
                self.entries.append(&mut tail);
                assert forall|i: int| 0 <= i < self@.len() implies #[trigger] self@[i].index == i + 1 by {
                    if i >= n {
                        assert(self@[i] == b[start + i - n]);
                    }
                }
            } else {
                proof {
                    reveal(Seq::filter);
                }
                assert(self@ =~= old(self)@ + beyond(batch@, old(self)@.len() as int));
            }
        } else {
            proof {
                reveal(Seq::filter);
            }
            assert(self@ =~= old(self)@ + beyond(Seq::<LogEntry<M>>::empty(), old(self)@.len() as int));
        }
    }

    /// Appends a new entry at the next index and returns its identity.
    pub fn client_append(&mut self, term: Term, message: M) -> (r: TermIndex)
        requires
            old(self).wf(),
            old(self)@.len() + 1 < usize::MAX,
        ensures
            r == TermIndex(term, (old(self)@.len() + 1) as Index),
            final(self)@ == old(self)@.push(LogEntry { index: (old(self)@.len() + 1) as Index, term, message }),
            final(self).wf(),
    {
        let index = self.next_index();
        let term_index = TermIndex(term, index);
        let log_entry = LogEntry { index, term, message };
        self.entries.push(log_entry);
        term_index
    }

    /// AppendEntries on the log: accepted iff the previous-entry predicate holds
    /// and the batch continues right after that entry; on acceptance the log is
    /// cut at the first conflicting index and extended by the new entries.
    /// A batch whose indices do not run on from the previous entry (a gap, a
    /// repeat, or a last index at `usize::MAX`) is refused and leaves the log
    /// as it is: appending it would break the log's contiguous indices.
    pub fn append(&mut self, request: AppendRequest<M>) -> (r: bool)
        requires
            old(self).wf(),
        ensures
            r == accepts(
                old(self)@,
                request.previous_log_term,
                request.previous_log_index,
                request.batch(),
            ),
            final(self)@ == append_outcome(
                old(self)@,
                request.previous_log_term,
                request.previous_log_index,
                request.batch(),
            ),
            final(self).wf(),
    {
        let ok = self.contains_term_at_index(request.previous_log_term, request.previous_log_index)
            && batch_follows(request.previous_log_index, &request.entries);
        if ok {
            let ghost s = self@;
            let ghost batch = request.batch();
            let ghost p: int = match request.previous_log_index {
                Some(i) => i as int,
                None => 0,
            };
            proof {
                lemma_first_conflict(s, batch);
            }
            if let Some(index) = self.first_conflicting_index(&request.entries) {
                proof {
                    let j = choose|j: int|
                        0 <= j < batch.len() && #[trigger] batch[j].index == index && conflicts(s, batch[j])
                            && forall|k: int| 0 <= k < j ==> !conflicts(s, #[trigger] batch[k]);
                    assert(batch[j].index == p + 1 + j);
                }
                self.truncate(index);
            }
            self.append_new_entries_not_in_log(request.entries);
            true
        } else {
            false
        }
    }
}

impl<M: Clone> Log<M> {
    /// Copies of the entries from `index` to the end; none when `index` is 0 or
    /// past the last index.
    pub fn entries_starting_at(&self, index: Index) -> (r: Option<Vec<LogEntry<M>>>)
        ensures
            r is Some == (1 <= index <= self@.len()),
            r matches Some(v) ==> {
                &&& v@.len() == self@.len() - index + 1
                &&& forall|j: int| 0 <= j < v@.len() ==> copied(self@[index - 1 + j], #[trigger] v@[j])
            },
    {
        if index >= 1 && index <= self.entries.len() {
            let mut out: Vec<LogEntry<M>> = Vec::new();
            let mut k: usize = index - 1;
            while k < self.entries.len()
                invariant
                    index - 1 <= k <= self@.len(),
                    out@.len() == k - (index - 1),
                    forall|j: int| 0 <= j < out@.len() ==> copied(self@[index - 1 + j], #[trigger] out@[j]),
                decreases self@.len() - k,
            {
                let e = &self.entries[k];
                let c = LogEntry { index: e.index, term: e.term, message: e.message.clone() };
                out.push(c);
                k = k + 1;
            }
            Some(out)
        } else {
            None
        }
    }
}

/// Checks that a batch continues right after the previous entry.
fn batch_follows<M>(prev: Option<Index>, entries: &Option<Vec<LogEntry<M>>>) -> (r: bool)
    ensures
        r == batch_fits(prev, batch_of(*entries)),
{
    let p: usize = match prev {
        Some(i) => i,
        None => 0,
    };
    match entries {
        None => p < usize::MAX,
        Some(batch) => {
            if batch.len() >= usize::MAX - p {
                assert(!batch_fits(prev, batch@));
                return false;
            }
            let mut j: usize = 0;
            while j < batch.len()
                invariant
                    j <= batch@.len(),
                    batch_of(*entries) == batch@,
                    p == match prev {
                        Some(i) => i as int,
                        None => 0,
                    },
                    p + batch@.len() < usize::MAX,
                    forall|k: int| 0 <= k < j ==> #[trigger] batch@[k].index == p + 1 + k,
                decreases batch@.len() - j,
            {
                if batch[j].index != p + 1 + j {
                    assert(batch@[j as int].index != p + 1 + j);
                    assert(!contiguous_from(batch@, p + 1));
                    assert(!batch_fits(prev, batch@));
                    return false;
                }
                j = j + 1;
            }
            true
        },
    }
}

} // verus!
