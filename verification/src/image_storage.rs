use vstd::prelude::*;
use poll_promise::Promise;
use crate::task::promise_ready;
use crate::task::promise_take;

verus! {

/// True when no key occurs twice in `keys`.
pub open spec fn distinct_keys<A>(keys: Seq<A>) -> bool {
    forall|i: int, j: int| 0 <= i < j < keys.len() ==> keys[i] != keys[j]
}

/// True when `k` occurs in `keys`.
pub open spec fn has_key<A>(keys: Seq<A>, k: A) -> bool {
    exists|i: int| 0 <= i < keys.len() && keys[i] == k
}

/// True when `sub` can be had from `sup` by deleting elements without
/// disturbing the order of those that remain.
pub open spec fn subseq_of<A>(sub: Seq<A>, sup: Seq<A>) -> bool
    decreases sub.len() + sup.len(),
{
    if sub.len() == 0 {
        true
    } else if sup.len() == 0 {
        false
    } else if sub.last() == sup.last() {
        subseq_of(sub.drop_last(), sup.drop_last()) || subseq_of(sub, sup.drop_last())
    } else {
        subseq_of(sub, sup.drop_last())
    }
}

/// Every sequence is a subsequence of itself.
pub proof fn lemma_subseq_refl<A>(s: Seq<A>)
    ensures
        subseq_of(s, s),
    decreases s.len(),
{
    if s.len() > 0 {
        lemma_subseq_refl(s.drop_last());
    }
}

/// A subsequence of a prefix is a subsequence of the whole.
pub proof fn lemma_subseq_widen<A>(sub: Seq<A>, sup: Seq<A>)
    requires
        sup.len() > 0,
        subseq_of(sub, sup.drop_last()),
    ensures
        subseq_of(sub, sup),
{
}

/// Dropping the last element of a subsequence keeps it one.
pub proof fn lemma_subseq_drop_last<A>(sub: Seq<A>, sup: Seq<A>)
    requires
        sub.len() > 0,
        subseq_of(sub, sup),
    ensures
        subseq_of(sub.drop_last(), sup),
    decreases sup.len(),
{
    if sub.last() == sup.last() && subseq_of(sub.drop_last(), sup.drop_last()) {
        lemma_subseq_widen(sub.drop_last(), sup);
    } else {
        lemma_subseq_drop_last(sub, sup.drop_last());
        lemma_subseq_widen(sub.drop_last(), sup);
    }
}

/// Deleting any one element of a subsequence keeps it one.
pub proof fn lemma_subseq_remove<A>(sub: Seq<A>, sup: Seq<A>, i: int)
    requires
        0 <= i < sub.len(),
        subseq_of(sub, sup),
    ensures
        subseq_of(sub.remove(i), sup),
    decreases sup.len(),
{
    if i == sub.len() - 1 {
        assert(sub.remove(i) =~= sub.drop_last());
        lemma_subseq_drop_last(sub, sup);
    } else if sub.last() == sup.last() && subseq_of(sub.drop_last(), sup.drop_last()) {
        lemma_subseq_remove(sub.drop_last(), sup.drop_last(), i);
        assert(sub.remove(i).drop_last() =~= sub.drop_last().remove(i));
        assert(sub.remove(i).last() == sub.last());
    } else {
        lemma_subseq_remove(sub, sup.drop_last(), i);
        lemma_subseq_widen(sub.remove(i), sup);
    }
}

/// An element of a sequence with one deleted is an element of the whole.
proof fn lemma_has_key_remove<A>(s: Seq<A>, i: int, k: A)
    requires
        0 <= i < s.len(),
        has_key(s.remove(i), k),
    ensures
        has_key(s, k),
{
    let j = choose|j: int| 0 <= j < s.remove(i).len() && s.remove(i)[j] == k;
    s.remove_ensures(i);
    if j < i {
        assert(s[j] == k);
    } else {
        assert(s[j + 1] == k);
    }
}

/// Deleting an element keeps the remaining ones pairwise distinct.
proof fn lemma_distinct_remove<A>(s: Seq<A>, i: int)
    requires
        0 <= i < s.len(),
        distinct_keys(s),
    ensures
        distinct_keys(s.remove(i)),
{
    s.remove_ensures(i);
    assert forall|p: int, q: int| 0 <= p < q < s.remove(i).len() implies s.remove(i)[p]
        != s.remove(i)[q] by {
        let p0: int = if p < i { p } else { p + 1 };
        let q0: int = if q < i { q } else { q + 1 };
        assert(s.remove(i)[p] == s[p0]);
        assert(s.remove(i)[q] == s[q0]);
    }
}

/// With pairwise distinct elements, the element deleted is gone.
proof fn lemma_removed_key_gone<A>(s: Seq<A>, i: int)
    requires
        0 <= i < s.len(),
        distinct_keys(s),
    ensures
        !has_key(s.remove(i), s[i]),
{
    s.remove_ensures(i);
    assert forall|j: int| 0 <= j < s.remove(i).len() implies s.remove(i)[j] != s[i] by {
        let j0: int = if j < i { j } else { j + 1 };
        assert(s.remove(i)[j] == s[j0]);
    }
}

/// Relies on str's PartialEq: two string slices are equal exactly when
/// their characters are.
#[verifier::external_body]
fn str_eq(a: &str, b: &str) -> (r: bool)
    ensures
        r == (a@ == b@),
{
    a == b
}

/// A keyed cache of resolved resources, fronted by an insertion-ordered
/// queue of in-flight fetches: at most one outstanding fetch per key, and a
/// non-blocking drain that moves completed fetches into the lookup table.
#[verifier::reject_recursive_types(R)]
#[verifier::reject_recursive_types(E)]
pub struct ImageStorage<R: Send + 'static, E: Send + 'static> {
    storage: Vec<(String, R)>,
    request_queue: Vec<(String, Promise<Result<R, E>>)>,
}

impl<R: Send + 'static, E: Send + 'static> ImageStorage<R, E> {
    /// The resolved entries, as key/value pairs in insertion order.
    pub closed spec fn resolved(self) -> Seq<(Seq<char>, R)> {
        self.storage@.map_values(|p: (String, R)| (p.0@, p.1))
    }

    /// The keys of the resolved entries, in insertion order.
    pub open spec fn resolved_keys(self) -> Seq<Seq<char>> {
        self.resolved().map_values(|p: (Seq<char>, R)| p.0)
    }

    /// The in-flight queue as key/handle pairs, in insertion order. The
    /// handles are opaque; the view serves to pin that a slot that survives
    /// a drain keeps its own handle, never another slot's.
    pub closed spec fn queued_pairs(self) -> Seq<(Seq<char>, Promise<Result<R, E>>)> {
        self.request_queue@.map_values(|p: (String, Promise<Result<R, E>>)| (p.0@, p.1))
    }

    /// The keys of the in-flight queue, in insertion order.
    pub open spec fn queued(self) -> Seq<Seq<char>> {
        self.queued_pairs().map_values(|p: (Seq<char>, Promise<Result<R, E>>)| p.0)
    }

    /// Whether `k` has a resolved entry.
    pub open spec fn contains_key(self, k: Seq<char>) -> bool {
        has_key(self.resolved_keys(), k)
    }

    /// Whether a fetch for `k` is in flight.
    pub open spec fn is_queued(self, k: Seq<char>) -> bool {
        has_key(self.queued(), k)
    }

    /// An index of a resolved entry with key `k`, where one exists.
    pub closed spec fn index_of(self, k: Seq<char>) -> int {
        choose|i: int| 0 <= i < self.resolved().len() && self.resolved()[i].0 == k
    }

    /// The resolved value for `k`, where one exists.
    pub closed spec fn value_for(self, k: Seq<char>) -> R {
        self.resolved()[self.index_of(k)].1
    }

    /// The cache's invariant: each key at most once among the resolved
    /// entries, at most once in the queue, and never in both at once.
    pub open spec fn wf(self) -> bool {
        &&& distinct_keys(self.resolved_keys())
        &&& distinct_keys(self.queued())
        &&& forall|k: Seq<char>| self.is_queued(k) ==> !self.contains_key(k)
    }

    /// An empty cache: nothing resolved, nothing in flight.
    pub fn new() -> (s: Self)
        ensures
            s.wf(),
            s.resolved() == Seq::<(Seq<char>, R)>::empty(),
            s.queued() == Seq::<Seq<char>>::empty(),
    {
        let s = ImageStorage { storage: Vec::new(), request_queue: Vec::new() };
        proof {
            assert(s.resolved() =~= Seq::<(Seq<char>, R)>::empty());
            assert(s.queued() =~= Seq::<Seq<char>>::empty());
        }
        s
    }

    /// Deduplication law: in a well-formed cache, a key occupies at most
    /// one slot of the in-flight queue, so at most one fetch task is
    /// outstanding for it.
    pub proof fn lemma_dedup(self, i: int, j: int)
        requires
            self.wf(),
            0 <= i < j < self.queued().len(),
        ensures
            self.queued()[i] != self.queued()[j],
    {
    }

    /// Persistence law: a key with a resolved entry is not in flight, so a
    /// completed fetch never has a second task racing it.
    pub proof fn lemma_resolved_not_in_flight(self, k: Seq<char>)
        requires
            self.wf(),
            self.contains_key(k),
        ensures
            !self.is_queued(k),
    {
    }

    /// Where an entry with key `k` stands at index `i`, and keys are
    /// distinct, that entry's value is the resolved value for `k`.
    pub proof fn lemma_value_at(self, k: Seq<char>, i: int)
        requires
            distinct_keys(self.resolved_keys()),
            0 <= i < self.resolved().len(),
            self.resolved()[i].0 == k,
        ensures
            self.contains_key(k),
            self.value_for(k) == self.resolved()[i].1,
    {
        assert(self.resolved_keys()[i] == k);
        assert(exists|i: int| 0 <= i < self.resolved().len() && self.resolved()[i].0 == k);
        let j = self.index_of(k);
        assert(0 <= j < self.resolved().len() && self.resolved()[j].0 == k);
        if i != j {
            assert(self.resolved_keys()[j] == k);
            if i < j {
                assert(self.resolved_keys()[i] != self.resolved_keys()[j]);
            } else {
                assert(self.resolved_keys()[j] != self.resolved_keys()[i]);
            }
            assert(false);
        }
        assert(self.value_for(k) == self.resolved()[j].1);
    }

    /// Non-blocking read of the resolved map. Never triggers a fetch.
    pub fn get(&self, id: &str) -> (r: Option<&R>)
        requires
            self.wf(),
        ensures
            match r {
                Option::Some(v) => self.contains_key(id@) && *v == self.value_for(id@),
                Option::None => !self.contains_key(id@),
            },
    {
        let mut i: usize = 0;
        while i < self.storage.len()
            invariant
                i <= self.storage.len(),
                self.wf(),
                forall|j: int| 0 <= j < i ==> self.resolved_keys()[j] != id@,
            decreases self.storage.len() - i,
        {
            let entry = &self.storage[i];
            if str_eq(entry.0.as_str(), id) {
                proof {
                    self.lemma_value_at(id@, i as int);
                }
                return Option::Some(&entry.1);
            }
            i += 1;
        }
        Option::None
    }

    /// Whether a fetch for `id` is in the in-flight queue.
    pub fn in_queue(&self, id: &str) -> (r: bool)
        ensures
            r == self.is_queued(id@),
    {
        let mut i: usize = 0;
        while i < self.request_queue.len()
            invariant
                i <= self.request_queue.len(),
                forall|j: int| 0 <= j < i ==> self.queued()[j] != id@,
            decreases self.request_queue.len() - i,
        {
            if str_eq(self.request_queue[i].0.as_str(), id) {
                proof {
                    assert(self.queued()[i as int] == id@);
                }
                return true;
            }
            i += 1;
        }
        false
    }

    /// The keys of the in-flight queue, oldest first.
    pub fn queued_keys(&self) -> (r: Vec<String>)
        ensures
            r@.map_values(|s: String| s@) == self.queued(),
    {
        let mut keys: Vec<String> = Vec::new();
        let mut i: usize = 0;
        while i < self.request_queue.len()
            invariant
                i <= self.request_queue.len(),
                keys@.map_values(|s: String| s@) =~= self.queued().take(i as int),
            decreases self.request_queue.len() - i,
        {
            let ghost before = keys@.map_values(|s: String| s@);
            let key = self.request_queue[i].0.clone();
            keys.push(key);
            proof {
                assert(keys@.map_values(|s: String| s@) =~= before.push(
                    self.queued()[i as int],
                ));
                assert(before.push(self.queued()[i as int]) =~= self.queued().take(
                    i as int + 1,
                ));
            }
            i += 1;
        }
        proof {
            assert(self.queued().take(self.request_queue@.len() as int) =~= self.queued());
        }
        keys
    }

    /// Records the outcome a completed fetch for `id` handed back: a success
    /// is inserted into the resolved map; a failure is dropped, so `id`
    /// stays absent and a later `request` for it is accepted again. The
    /// queue is untouched either way.
    pub fn store_result(&mut self, id: String, outcome: Result<R, E>)
        requires
            old(self).wf(),
            !old(self).contains_key(id@),
            !old(self).is_queued(id@),
        ensures
            final(self).wf(),
            final(self).queued_pairs() == old(self).queued_pairs(),
            final(self).queued() == old(self).queued(),
            match outcome {
                Result::Ok(v) => {
                    &&& final(self).resolved() == old(self).resolved().push((id@, v))
                    &&& final(self).contains_key(id@)
                    &&& final(self).value_for(id@) == v
                },
                Result::Err(_) => *final(self) == *old(self),
            },
            forall|k: Seq<char>| old(self).contains_key(k) ==> final(self).contains_key(k)
                && final(self).value_for(k) == old(self).value_for(k),
            forall|k: Seq<char>| final(self).contains_key(k) ==> old(self).contains_key(k)
                || k == id@,
    {
        match outcome {
            Result::Ok(v) => {
                let ghost prev = *self;
                self.storage.push((id, v));
                proof {
                    assert(self.resolved() =~= prev.resolved().push((id@, v)));
                    assert(self.resolved_keys() =~= prev.resolved_keys().push(id@));
                    assert(self.queued() =~= prev.queued());
                    let n = prev.resolved().len() as int;
                    self.lemma_value_at(id@, n);
                    assert forall|k: Seq<char>| prev.contains_key(k) implies self.contains_key(
                        k,
                    ) && self.value_for(k) == prev.value_for(k) by {
                        let j = choose|j: int|
                            0 <= j < prev.resolved().len() && prev.resolved_keys()[j] == k;
                        assert(prev.resolved()[j].0 == k);
                        assert(self.resolved()[j].0 == k);
                        prev.lemma_value_at(k, j);
                        self.lemma_value_at(k, j);
                    }
                    assert forall|k: Seq<char>| self.contains_key(k) implies prev.contains_key(
                        k,
                    ) || k == id@ by {
                        let j = choose|j: int|
                            0 <= j < self.resolved_keys().len() && self.resolved_keys()[j] == k;
                        assert(0 <= j < self.resolved_keys().len()
                            && self.resolved_keys()[j] == k);
                        if j < n {
                            assert(prev.resolved_keys()[j] == k);
                        }
                    }
                    assert forall|p: int, q: int|
                        0 <= p < q < self.resolved_keys().len() implies self.resolved_keys()[p]
                        != self.resolved_keys()[q] by {
                        if q < n {
                            assert(prev.resolved_keys()[p] != prev.resolved_keys()[q]);
                        } else {
                            assert(self.resolved_keys()[q] == id@);
                            if self.resolved_keys()[p] == id@ {
                                assert(prev.resolved_keys()[p] == id@);
                                assert(prev.contains_key(id@));
                            }
                        }
                    }
                    assert forall|k: Seq<char>| self.is_queued(k) implies !self.contains_key(
                        k,
                    ) by {
                        assert(prev.is_queued(k));
                        assert(!prev.contains_key(k));
                        assert(k != id@);
                    }
                }
            },
            Result::Err(_) => {},
        }
    }

    /// Requests the resource for `id`. A key already resolved or already in
    /// flight is left alone, so at most one fetch task is ever outstanding
    /// per key. Otherwise `fetch` is invoked once with the key to spawn the
    /// asynchronous fetch, and its handle is appended to the end of the
    /// in-flight queue. Fetch initiation never blocks the caller.
    ///
    /// Obligation on the caller: every task `fetch` spawns must eventually
    /// deliver its `Result` — a failure as `Err`, never a tear-down.
    /// poll_promise panics when a handle is polled after its sender was
    /// dropped without sending, so an aborted task would crash
    /// `update_state`. No contract can carry this: the condition lives
    /// inside the opaque handle, and the crate offers no non-panicking
    /// probe.
    pub fn request<F: FnOnce(String) -> Promise<Result<R, E>>>(&mut self, id: &str, fetch: F)
        requires
            old(self).wf(),
            forall|s: String| s@ == id@ ==> call_requires(fetch, (s,)),
        ensures
            final(self).wf(),
            final(self).resolved() == old(self).resolved(),
            old(self).is_queued(id@) || old(self).contains_key(id@) ==> *final(self) == *old(
                self,
            ),
            !old(self).is_queued(id@) && !old(self).contains_key(id@) ==> final(self).queued()
                == old(self).queued().push(id@),
            // Prior slots keep their own handles.
            !old(self).is_queued(id@) && !old(self).contains_key(id@) ==> forall|j: int|
                0 <= j < old(self).queued_pairs().len() ==> final(self).queued_pairs()[j]
                == old(self).queued_pairs()[j],
            // The appended slot's handle is what `fetch` returned for the key.
            !old(self).is_queued(id@) && !old(self).contains_key(id@)
                ==> exists|s: String, t: Promise<Result<R, E>>|
                    s@ == id@ && #[trigger] call_ensures(fetch, (s,), t)
                    && final(self).queued_pairs() == old(self).queued_pairs().push(
                    (id@, t),
                ),
    {
        if self.in_queue(id) {
            return;
        }
        if self.get(id).is_some() {
            return;
        }
        let ghost prev = *self;
        let key_for_fetch: String = id.to_owned();
        let key_for_queue: String = id.to_owned();
        let ghost fetch_fn = fetch;
        let ghost fetch_key = key_for_fetch;
        let task = fetch(key_for_fetch);
        let ghost handle = task;
        self.request_queue.push((key_for_queue, task));
        proof {
            assert(self.queued_pairs() =~= prev.queued_pairs().push((id@, handle)));
            assert(call_ensures(fetch_fn, (fetch_key,), handle));
            assert(fetch_key@ == id@);
            assert(self.queued() =~= prev.queued().push(id@));
            let n = prev.queued().len() as int;
            assert forall|p: int, q: int|
                0 <= p < q < self.queued().len() implies self.queued()[p]
                != self.queued()[q] by {
                if q < n {
                    assert(prev.queued()[p] != prev.queued()[q]);
                } else {
                    assert(self.queued()[q] == id@);
                    if self.queued()[p] == id@ {
                        assert(prev.queued()[p] == id@);
                        assert(prev.is_queued(id@));
                    }
                }
            }
            assert forall|k: Seq<char>| self.is_queued(k) implies !self.contains_key(k) by {
                let j = choose|j: int|
                    0 <= j < self.queued().len() && self.queued()[j] == k;
                assert(0 <= j < self.queued().len() && self.queued()[j] == k);
                if j < n {
                    assert(prev.queued()[j] == k);
                    assert(prev.is_queued(k));
                } else {
                    assert(k == id@);
                }
            }
        }
    }

    /// Performed once per consumer cycle. Polls every queued fetch without
    /// blocking; each completed one is removed from the queue, its result
    /// consumed exactly once and recorded by `store_result`: a success
    /// enters the resolved map, a failure is dropped. Fetches still pending
    /// are left untouched, in their original relative order, and resolved
    /// entries are never lost.
    pub fn update_state(&mut self)
        requires
            old(self).wf(),
        ensures
            final(self).wf(),
            forall|k: Seq<char>| old(self).contains_key(k) ==> final(self).contains_key(k)
                && final(self).value_for(k) == old(self).value_for(k),
            forall|k: Seq<char>| final(self).contains_key(k) && !old(self).contains_key(k)
                ==> old(self).is_queued(k) && !final(self).is_queued(k),
            subseq_of(final(self).queued_pairs(), old(self).queued_pairs()),
            subseq_of(final(self).queued(), old(self).queued()),
            forall|k: Seq<char>| final(self).is_queued(k) ==> old(self).is_queued(k),
            // An empty queue leaves everything exactly as it was.
            old(self).queued_pairs().len() == 0 ==> *final(self) == *old(self),
            // The resolved entries only ever grow, by appending.
            final(self).resolved().len() >= old(self).resolved().len(),
            final(self).resolved().take(old(self).resolved().len() as int) == old(
                self,
            ).resolved(),
    {
        proof {
            lemma_subseq_refl(self.queued_pairs());
            lemma_subseq_refl(self.queued());
            assert(self.resolved().take(self.resolved().len() as int) =~= self.resolved());
        }
        let mut i: usize = 0;
        while i < self.request_queue.len()
            invariant
                self.wf(),
                i <= self.request_queue.len(),
                subseq_of(self.queued_pairs(), old(self).queued_pairs()),
                subseq_of(self.queued(), old(self).queued()),
                old(self).queued_pairs().len() == 0 ==> *self == *old(self),
                self.resolved().len() >= old(self).resolved().len(),
                self.resolved().take(old(self).resolved().len() as int) == old(
                    self,
                ).resolved(),
                forall|k: Seq<char>| old(self).contains_key(k) ==> self.contains_key(k)
                    && self.value_for(k) == old(self).value_for(k),
                forall|k: Seq<char>| self.contains_key(k) && !old(self).contains_key(k)
                    ==> old(self).is_queued(k),
                forall|k: Seq<char>| self.is_queued(k) ==> old(self).is_queued(k),
            decreases self.request_queue.len() - i,
        {
            let is_ready = promise_ready(&self.request_queue[i].1);
            if is_ready {
                let ghost prev = *self;
                let ghost q0 = prev.queued();
                let ghost p0 = prev.queued_pairs();
                let (id, task) = self.request_queue.remove(i);
                proof {
                    prev.request_queue@.remove_ensures(i as int);
                    q0.remove_ensures(i as int);
                    p0.remove_ensures(i as int);
                    assert forall|n: int|
                        0 <= n < self.queued_pairs().len() implies self.queued_pairs()[n]
                        == p0.remove(i as int)[n] by {
                        if n < i {
                            assert(self.request_queue@[n] == prev.request_queue@[n]);
                        } else {
                            assert(self.request_queue@[n] == prev.request_queue@[n + 1]);
                        }
                    }
                    assert(self.queued_pairs() =~= p0.remove(i as int));
                    assert forall|n: int|
                        0 <= n < self.queued().len() implies self.queued()[n] == q0.remove(
                        i as int,
                    )[n] by {
                        if n < i {
                            assert(self.request_queue@[n] == prev.request_queue@[n]);
                        } else {
                            assert(self.request_queue@[n] == prev.request_queue@[n + 1]);
                        }
                    }
                    assert(self.queued() =~= q0.remove(i as int));
                    assert(id@ == q0[i as int]);
                    lemma_distinct_remove(q0, i as int);
                    lemma_removed_key_gone(q0, i as int);
                    assert(prev.is_queued(id@));
                    assert forall|k: Seq<char>| self.is_queued(k) implies !self.contains_key(
                        k,
                    ) by {
                        lemma_has_key_remove(q0, i as int, k);
                        assert(prev.is_queued(k));
                    }
                    lemma_subseq_remove(p0, old(self).queued_pairs(), i as int);
                    lemma_subseq_remove(q0, old(self).queued(), i as int);
                }
                let outcome = promise_take(task);
                let ghost mid = *self;
                self.store_result(id, outcome);
                proof {
                    let n0: int = old(self).resolved().len() as int;
                    assert(self.resolved().take(n0) =~= mid.resolved().take(n0));
                    assert forall|k: Seq<char>| self.is_queued(k) implies old(
                        self,
                    ).is_queued(k) by {
                        lemma_has_key_remove(q0, i as int, k);
                        assert(prev.is_queued(k));
                    }
                    assert forall|k: Seq<char>|
                        self.contains_key(k) && !old(self).contains_key(k) implies old(
                        self,
                    ).is_queued(k) by {
                        if mid.contains_key(k) {
                            assert(prev.contains_key(k));
                        } else {
                            assert(k == id@);
                        }
                    }
                }
            } else {
                i += 1;
            }
        }
    }
}

impl<R: Send + 'static, E: Send + 'static> Default for ImageStorage<R, E> {
    /// Same as `new`: an empty cache.
    fn default() -> (s: Self)
        ensures
            s.wf(),
            s.resolved() == Seq::<(Seq<char>, R)>::empty(),
            s.queued() == Seq::<Seq<char>>::empty(),
    {
        ImageStorage::new()
    }
}

} // verus!
