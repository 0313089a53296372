use vstd::prelude::*;
use vstd::multiset::Multiset;

verus! {

/// One record of the stack's node store. `value` is `None` once the node has
/// been unlinked and its value handed to the popping caller.
struct Node<T> {
    value: Option<T>,
    next: Option<usize>,
}

/// What one pop attempt of a thread came to.
pub enum Attempt<T> {
    /// The stack was empty when the attempt looked at it.
    Empty,
    /// The attempt unlinked the top node and took its value.
    Popped(T),
    /// The head moved since the thread protected it; the thread must protect
    /// the new head and try again.
    Retry,
}

/// A Treiber stack: one head link changed only by compare-and-set, nodes
/// addressed by their index in a node store, and hazard-slot reclamation.
///
/// Each worker thread owns one context, numbered from 0: a hazard slot and a
/// push slot. A push makes its node, links it above the head it read, and
/// swings the head to it with a compare-and-set, reading the head again when
/// that fails. A pop first publishes the current head in the thread's hazard
/// slot, then unlinks it with a compare-and-set. Unlinked nodes are retired; a
/// scan frees every retired node that no hazard slot protects. A freed address is reused by a later
/// push, so the guarantee that a protected node is never freed is also what
/// keeps a stale head from matching a recycled node.
pub struct LockFreeStack<T> {
    store: Vec<Node<T>>,
    head: Option<usize>,
    free: Vec<usize>,
    hazards: Vec<Option<usize>>,
    /// Per thread context, the node that its push has made but not linked yet.
    pending: Vec<Option<usize>>,
    retired: Vec<usize>,
    /// The linked addresses, from the bottom node up to the head.
    chain: Ghost<Seq<usize>>,
}

impl<T> View for LockFreeStack<T> {
    type V = Seq<T>;

    /// The stored values, from bottom to top.
    closed spec fn view(&self) -> Seq<T> {
        Seq::new(self.chain@.len(), |i: int| self.store@[self.chain@[i] as int].value->0)
    }
}

/// The stack that pushing each of `vs` in turn makes from `s`.
pub open spec fn push_all<T>(s: Seq<T>, vs: Seq<T>) -> Seq<T>
    decreases vs.len(),
{
    if vs.len() == 0 {
        s
    } else {
        push_all(s, vs.drop_last()).push(vs.last())
    }
}

/// The values that popping `s` until it is empty returns, in order.
pub open spec fn pop_all<T>(s: Seq<T>) -> Seq<T>
    decreases s.len(),
{
    if s.len() == 0 {
        Seq::empty()
    } else {
        seq![s.last()] + pop_all(s.drop_last())
    }
}

/// All the values of several batches, counted with their repetitions.
pub open spec fn union_of<T>(batches: Seq<Seq<T>>) -> Multiset<T>
    decreases batches.len(),
{
    if batches.len() == 0 {
        Multiset::empty()
    } else {
        union_of(batches.drop_last()).add(batches.last().to_multiset())
    }
}

impl<T> LockFreeStack<T> {
    /// The node store, links, free list, hazard slots, push slots and retired
    /// list agree, and the retired list holds at most twice as many nodes as
    /// there are thread contexts.
    pub closed spec fn wf(&self) -> bool {
        &&& self.wf_except_backlog()
        &&& self.hazards@.len() >= 1
        &&& self.pending@.len() == self.hazards@.len()
        &&& self.retired@.len() <= 2 * self.hazards@.len()
    }

    /// The number of thread contexts, one hazard slot each.
    pub closed spec fn spec_threads(&self) -> nat {
        self.hazards@.len()
    }

    /// Thread `tid` has published the address that the head holds now.
    pub closed spec fn protects(&self, tid: int) -> bool {
        self.hazards@[tid] == self.head
    }

    /// The number of unlinked nodes that wait to be freed.
    pub closed spec fn spec_retired(&self) -> nat {
        self.retired@.len()
    }

    /// No operation is in flight: no hazard slot publishes an address and no
    /// push has a node waiting to be linked.
    pub open spec fn quiescent(&self) -> bool {
        forall|j: int|
            #![trigger self.published(j)]
            #![trigger self.staged(j)]
            0 <= j < self.spec_threads() ==> self.published(j) is None && self.staged(j) is None
    }

    /// The node that thread `tid`'s push has made and not linked yet.
    pub open spec fn staged(&self, tid: int) -> Option<usize> {
        self.pushes()[tid]
    }

    /// The value of the node that thread `tid`'s push has made.
    pub closed spec fn staged_value(&self, tid: int) -> T {
        self.store@[self.pending@[tid]->0 as int].value->0
    }

    /// Thread `tid`'s unlinked node links to the node the head holds now, so
    /// its compare-and-set will succeed.
    pub closed spec fn ready(&self, tid: int) -> bool {
        &&& self.pending@[tid] is Some
        &&& self.store@[self.pending@[tid]->0 as int].next == self.head
    }

    /// Every context's push slot.
    pub closed spec fn pushes(&self) -> Seq<Option<usize>> {
        self.pending@
    }

    /// An empty stack with one thread context.
    pub fn new() -> (s: Self)
        ensures
            s.wf(),
            s@ == Seq::<T>::empty(),
            s.spec_threads() == 1,
            s.quiescent(),
            s.spec_retired() == 0,
    {
        Self::with_threads(1)
    }

    /// An empty stack with `threads` thread contexts (at least one).
    pub fn with_threads(threads: usize) -> (s: Self)
        ensures
            s.wf(),
            s@ == Seq::<T>::empty(),
            s.spec_threads() == if threads == 0 {
                1
            } else {
                threads as nat
            },
            s.quiescent(),
            s.spec_retired() == 0,
    {
        reveal(LockFreeStack::wf_except_backlog);
        let count: usize = if threads == 0 {
            1
        } else {
            threads
        };
        let mut hazards: Vec<Option<usize>> = Vec::new();
        let mut pending: Vec<Option<usize>> = Vec::new();
        let mut i: usize = 0;
        while i < count
            invariant
                i <= count,
                hazards@.len() == i,
                pending@.len() == i,
                forall|j: int| 0 <= j < i ==> #[trigger] hazards@[j] is None,
                forall|j: int| 0 <= j < i ==> #[trigger] pending@[j] is None,
            decreases count - i,
        {
            hazards.push(None);
            pending.push(None);
            i = i + 1;
        }
        let s = LockFreeStack {
            store: Vec::new(),
            head: None,
            free: Vec::new(),
            hazards,
            pending,
            retired: Vec::new(),
            chain: Ghost(Seq::empty()),
        };
        assert(s@ =~= Seq::<T>::empty());
        s
    }

    /// The number of thread contexts.
    pub fn threads(&self) -> (r: usize)
        ensures
            r == self.spec_threads(),
    {
        self.hazards.len()
    }

    /// The number of retired nodes that are not freed yet.
    pub fn retired_count(&self) -> (r: usize)
        ensures
            r == self.spec_retired(),
    {
        self.retired.len()
    }

    /// Thread `tid` makes a node for `value` (reusing a freed one if there is
    /// one) and links it to the current head; the node is not reachable yet.
    #[verifier::rlimit(40)]
    pub fn prepare_push(&mut self, tid: usize, value: T)
        requires
            old(self).wf(),
            tid < old(self).spec_threads(),
            old(self).staged(tid as int) is None,
        ensures
            final(self).wf(),
            final(self)@ == old(self)@,
            final(self).spec_threads() == old(self).spec_threads(),
            final(self).spec_retired() == old(self).spec_retired(),
            final(self).ready(tid as int),
            final(self).staged(tid as int) is Some,
            final(self).staged_value(tid as int) == value,
            forall|j: int| 0 <= j < old(self).spec_threads() ==> final(self).published(j) == old(self).published(j),
            forall|j: int|
                0 <= j < old(self).spec_threads() && j != tid ==> final(self).staged(j) == old(self).staged(j),
            forall|j: int|
                0 <= j < old(self).spec_threads() && j != tid && old(self).staged(j) is Some
                    ==> final(self).staged_value(j) == old(self).staged_value(j),
    {
        reveal(LockFreeStack::wf_except_backlog);
        let ghost old_store = self.store@;
        let node = Node { value: Some(value), next: self.head };
        let addr: usize;
        if self.free.len() > 0 {
            let a = self.free.pop().unwrap();
            proof {
                assert(old(self).free@.last() == a);
                assert(self.free@ =~= old(self).free@.drop_last());
                assert(old(self).free@.contains(a));
                assert(old_store[a as int].value is None);
            }
            self.store.set(a, node);
            addr = a;
        } else {
            addr = self.store.len();
            self.store.push(node);
        }
        self.pending.set(tid, Some(addr));
        proof {
            let c = self.chain@;
            assert forall|x: usize| #[trigger] c.contains(x) implies x != addr && (x as int) < old_store.len()
                && old_store[x as int].value is Some by {
                let k = choose|k: int| 0 <= k < c.len() && c[k] == x;
                assert(old_store[c[k] as int].value is Some);
            }
            assert forall|i: int| 0 <= i < c.len() implies {
                &&& (#[trigger] c[i] as int) < self.store@.len()
                &&& self.store@[c[i] as int].value is Some
                &&& self.store@[c[i] as int].next == (if i == 0 {
                    None::<usize>
                } else {
                    Some(c[i - 1])
                })
            } by {
                assert(c.contains(c[i]));
            }
            assert forall|i: int| 0 <= i < self.free@.len() implies {
                &&& (#[trigger] self.free@[i] as int) < self.store@.len()
                &&& self.store@[self.free@[i] as int].value is None
                &&& !self.retired@.contains(self.free@[i])
            } by {
                assert(old(self).free@[i] == self.free@[i]);
                assert(self.free@[i] != addr);
            }
            assert forall|i: int| 0 <= i < self.retired@.len() implies {
                &&& (#[trigger] self.retired@[i] as int) < self.store@.len()
                &&& self.store@[self.retired@[i] as int].value is None
            } by {
                if self.retired@[i] == addr {
                    assert(old(self).free@.contains(addr));
                }
            }
            assert forall|j: int| 0 <= j < self.hazards@.len() implies (#[trigger] self.hazards@[j] matches Some(
                a,
            ) ==> (a as int) < self.store@.len() && !self.free@.contains(a)) by {
                if let Some(a) = self.hazards@[j] {
                    if self.free@.contains(a) {
                        let k = choose|k: int| 0 <= k < self.free@.len() && self.free@[k] == a;
                        assert(old(self).free@[k] == a);
                    }
                }
            }
            assert forall|j: int| 0 <= j < self.pending@.len() && j != tid implies (#[trigger] self.pending@[j] matches Some(
                a,
            ) ==> a != addr && (a as int) < self.store@.len() && self.store@[a as int].value is Some
                && !c.contains(a)) by {
                assert(self.pending@[j] == old(self).pending@[j]);
            }
            assert forall|j: int, k: int|
                #![trigger self.pending@[j], self.pending@[k]]
                0 <= j < self.pending@.len() && 0 <= k < self.pending@.len() && j != k
                    && self.pending@[j] is Some implies self.pending@[j] != self.pending@[k] by {
                if j != tid && k != tid {
                    assert(self.pending@[j] == old(self).pending@[j]);
                    assert(self.pending@[k] == old(self).pending@[k]);
                } else if j == tid {
                    assert(self.pending@[k] == old(self).pending@[k]);
                } else {
                    assert(self.pending@[j] == old(self).pending@[j]);
                }
            }
            assert(self@ =~= old(self)@) by {
                assert forall|i: int| 0 <= i < c.len() implies self@[i] == old(self)@[i] by {
                    assert(c.contains(c[i]));
                }
            }
        }
    }

    /// Thread `tid` tries to swing the head to its prepared node: the
    /// compare-and-set succeeds only if the head still holds the node that the
    /// prepared node links to. When it fails the node is linked to the new
    /// head, ready for the next try.
    #[verifier::rlimit(40)]
    pub fn try_push(&mut self, tid: usize) -> (r: bool)
        requires
            old(self).wf(),
            tid < old(self).spec_threads(),
            old(self).staged(tid as int) is Some,
        ensures
            final(self).wf(),
            final(self).spec_threads() == old(self).spec_threads(),
            final(self).spec_retired() == old(self).spec_retired(),
            r == old(self).ready(tid as int),
            r ==> final(self)@ == old(self)@.push(old(self).staged_value(tid as int)),
            r ==> (final(self).staged(tid as int) is None),
            !r ==> final(self)@ == old(self)@,
            !r ==> final(self).ready(tid as int),
            !r ==> (final(self).staged(tid as int) is Some),
            !r ==> final(self).staged_value(tid as int) == old(self).staged_value(tid as int),
            forall|j: int| 0 <= j < old(self).spec_threads() ==> final(self).published(j) == old(self).published(j),
            forall|j: int|
                0 <= j < old(self).spec_threads() && j != tid ==> final(self).staged(j) == old(self).staged(j),
            forall|j: int|
                0 <= j < old(self).spec_threads() && j != tid && old(self).staged(j) is Some
                    ==> final(self).staged_value(j) == old(self).staged_value(j),
    {
        reveal(LockFreeStack::wf_except_backlog);
        let ghost old_chain = self.chain@;
        let p = self.pending[tid].unwrap();
        proof {
            assert(self.pending@[tid as int] == Some(p));
        }
        if self.store[p].next == self.head {
            self.head = Some(p);
            self.chain = Ghost(old_chain.push(p));
            self.pending.set(tid, None);
            proof {
                let c = self.chain@;
                assert forall|i: int| 0 <= i < c.len() implies {
                    &&& (#[trigger] c[i] as int) < self.store@.len()
                    &&& self.store@[c[i] as int].value is Some
                    &&& self.store@[c[i] as int].next == (if i == 0 {
                        None::<usize>
                    } else {
                        Some(c[i - 1])
                    })
                } by {
                    if i < old_chain.len() {
                        assert(c[i] == old_chain[i]);
                    }
                }
                assert forall|j: int| 0 <= j < self.pending@.len() implies (#[trigger] self.pending@[j] matches Some(
                    a,
                ) ==> (a as int) < self.store@.len() && self.store@[a as int].value is Some && !c.contains(a)) by {
                    if j != tid {
                        assert(self.pending@[j] == old(self).pending@[j]);
                        if let Some(a) = self.pending@[j] {
                            assert(old(self).pending@[j] != old(self).pending@[tid as int]);
                            assert(!old_chain.contains(a));
                            if c.contains(a) {
                                let k = choose|k: int| 0 <= k < c.len() && c[k] == a;
                                if k < old_chain.len() {
                                    assert(old_chain[k] == a);
                                }
                            }
                        }
                    }
                }
                assert forall|j: int, k: int|
                    #![trigger self.pending@[j], self.pending@[k]]
                    0 <= j < self.pending@.len() && 0 <= k < self.pending@.len() && j != k
                        && self.pending@[j] is Some implies self.pending@[j] != self.pending@[k] by {
                    assert(self.pending@[j] == old(self).pending@[j]);
                    if k != tid {
                        assert(self.pending@[k] == old(self).pending@[k]);
                    }
                }
                assert forall|i: int| 0 <= i < self.free@.len() implies {
                    &&& (#[trigger] self.free@[i] as int) < self.store@.len()
                    &&& self.store@[self.free@[i] as int].value is None
                    &&& !self.retired@.contains(self.free@[i])
                } by {}
                assert(self@ =~= old(self)@.push(old(self).staged_value(tid as int)));
            }
            true
        } else {
            let h = self.head;
            self.store[p].next = h;
            proof {
                let c = self.chain@;
                assert forall|i: int| 0 <= i < c.len() implies {
                    &&& (#[trigger] c[i] as int) < self.store@.len()
                    &&& self.store@[c[i] as int].value is Some
                    &&& self.store@[c[i] as int].next == (if i == 0 {
                        None::<usize>
                    } else {
                        Some(c[i - 1])
                    })
                } by {
                    assert(c[i] != p);
                }
                assert forall|i: int| 0 <= i < self.free@.len() implies {
                    &&& (#[trigger] self.free@[i] as int) < self.store@.len()
                    &&& self.store@[self.free@[i] as int].value is None
                    &&& !self.retired@.contains(self.free@[i])
                } by {}
                assert forall|i: int| 0 <= i < self.retired@.len() implies {
                    &&& (#[trigger] self.retired@[i] as int) < self.store@.len()
                    &&& self.store@[self.retired@[i] as int].value is None
                } by {}
                assert forall|j: int| 0 <= j < self.pending@.len() implies (#[trigger] self.pending@[j] matches Some(
                    a,
                ) ==> (a as int) < self.store@.len() && self.store@[a as int].value is Some && !c.contains(a)) by {}
                assert(self@ =~= old(self)@) by {
                    assert forall|i: int| 0 <= i < c.len() implies self@[i] == old(self)@[i] by {
                        assert(c[i] != p);
                    }
                }
            }
            false
        }
    }

    /// Pushes `value` on behalf of thread context 0.
    pub fn push(&mut self, value: T)
        requires
            old(self).wf(),
            old(self).staged(0) is None,
        ensures
            final(self).wf(),
            final(self)@ == old(self)@.push(value),
            final(self).spec_threads() == old(self).spec_threads(),
            final(self).spec_retired() == old(self).spec_retired(),
            final(self).pushes() == old(self).pushes(),
            forall|j: int| 0 <= j < old(self).spec_threads() ==> final(self).published(j) == old(self).published(j),
            forall|j: int|
                0 <= j < old(self).spec_threads() && old(self).staged(j) is Some
                    ==> final(self).staged_value(j) == old(self).staged_value(j),
            final(self).quiescent() == old(self).quiescent(),
    {
        self.prepare_push(0, value);
        let ghost mid = *self;
        let linked = self.try_push(0);
        proof {
            assert(linked);
            assert(self.pushes().len() == old(self).pushes().len());
            assert(self.staged(0) is None);
            assert(old(self).staged(0) is None);
            assert forall|j: int| 0 <= j < self.pushes().len() implies self.pushes()[j] == old(self).pushes()[j] by {
                if j != 0 {
                    assert(mid.staged(j) == old(self).staged(j));
                    assert(self.staged(j) == mid.staged(j));
                }
            }
            assert(self.pushes() =~= old(self).pushes());
            assert(self.hazards@ =~= old(self).hazards@) by {
                assert forall|j: int| 0 <= j < self.hazards@.len() implies self.hazards@[j] == old(self).hazards@[j] by {
                    assert(self.published(j) == old(self).published(j));
                }
            }
        }
    }

    /// Thread `tid` publishes the current head in its hazard slot.
    pub fn protect_head(&mut self, tid: usize)
        requires
            old(self).wf(),
            tid < old(self).spec_threads(),
        ensures
            final(self).wf(),
            final(self)@ == old(self)@,
            final(self).protects(tid as int),
            forall|j: int| 0 <= j < old(self).spec_threads() && j != tid ==> final(self).published(j) == old(self).published(j),
            final(self).spec_threads() == old(self).spec_threads(),
            final(self).spec_retired() == old(self).spec_retired(),
            final(self).pushes() == old(self).pushes(),
            forall|j: int|
                0 <= j < old(self).spec_threads() && old(self).staged(j) is Some
                    ==> final(self).staged_value(j) == old(self).staged_value(j),
    {
        reveal(LockFreeStack::wf_except_backlog);
        let h = self.head;
        self.hazards.set(tid, h);
        proof {
            if let Some(a) = h {
                let c = self.chain@;
                assert(c[c.len() - 1] == a);
                if self.free@.contains(a) {
                    let k = choose|k: int| 0 <= k < self.free@.len() && self.free@[k] == a;
                    assert(self.store@[self.free@[k] as int].value is None);
                }
            }
            assert forall|j: int| 0 <= j < self.hazards@.len() implies (#[trigger] self.hazards@[j] matches Some(
                a,
            ) ==> (a as int) < self.store@.len() && !self.free@.contains(a)) by {
                if j != tid {
                    assert(self.hazards@[j] == old(self).hazards@[j]);
                }
            }
        }
    }

    /// Thread `tid`'s hazard slot publishes nothing.
    pub open spec fn released(&self, tid: int) -> bool {
        self.published(tid) is None
    }

    /// Thread `tid` tries to unlink the node that it protected: the
    /// compare-and-set of the head succeeds only if the head still holds that
    /// node. Either way the thread's hazard slot is cleared; an unlinked node
    /// is retired, and a scan runs once the retired list outgrows twice the
    /// number of thread contexts.
    pub fn try_pop(&mut self, tid: usize) -> (r: Attempt<T>)
        requires
            old(self).wf(),
            tid < old(self).spec_threads(),
        ensures
            final(self).wf(),
            final(self).spec_threads() == old(self).spec_threads(),
            final(self).released(tid as int),
            final(self).pushes() == old(self).pushes(),
            forall|j: int|
                0 <= j < old(self).spec_threads() && old(self).staged(j) is Some
                    ==> final(self).staged_value(j) == old(self).staged_value(j),
            forall|j: int|
                0 <= j < old(self).spec_threads() && j != tid && old(self).released(j)
                    ==> final(self).released(j),
            old(self).protects(tid as int) && old(self)@.len() == 0 ==> r is Empty && final(self)@
                == old(self)@,
            old(self).protects(tid as int) && old(self)@.len() > 0 ==> r == Attempt::Popped(
                old(self)@.last(),
            ) && final(self)@ == old(self)@.drop_last(),
            !old(self).protects(tid as int) ==> r is Retry && final(self)@ == old(self)@,
    {
        reveal(LockFreeStack::wf_except_backlog);
        let p = self.hazards[tid];
        match p {
            None => {
                if self.head.is_none() {
                    Attempt::Empty
                } else {
                    Attempt::Retry
                }
            },
            Some(a) => {
                if self.head != Some(a) {
                    self.hazards.set(tid, None);
                    proof {
                        self.lemma_release_keeps_wf(*old(self), tid as int);
                    }
                    return Attempt::Retry;
                }
                let ghost old_chain = self.chain@;
                let ghost top = old_chain.len() - 1;
                proof {
                    assert(old_chain[top] == a);
                }
                let next = self.store[a].next;
                self.head = next;
                let v = self.store[a].value.take();
                self.chain = Ghost(old_chain.drop_last());
                self.hazards.set(tid, None);
                proof {
                    self.lemma_unlink_keeps_wf(*old(self), tid as int, a);
                    assert forall|j: int|
                        0 <= j < old(self).spec_threads() && old(self).staged(j) is Some implies self.staged_value(j)
                            == old(self).staged_value(j) by {
                        assert(self.pending@[j]->0 != a);
                    }
                    assert(self@ =~= old(self)@.drop_last()) by {
                        assert forall|i: int| 0 <= i < self.chain@.len() implies self@[i] == old(self)@[i] by {
                            assert(old_chain[i] != a);
                        }
                    }
                }
                let ghost unlinked = *self;
                self.retire(a);
                proof {
                    assert(self.pending == unlinked.pending);
                    assert forall|j: int|
                        0 <= j < old(self).spec_threads() && old(self).staged(j) is Some implies self.staged_value(j)
                            == old(self).staged_value(j) by {
                        assert(unlinked.staged_value(j) == old(self).staged_value(j));
                    }
                }
                Attempt::Popped(v.unwrap())
            },
        }
    }

    /// Clearing one hazard slot keeps the invariant.
    proof fn lemma_release_keeps_wf(&self, before: Self, tid: int)
        requires
            before.wf(),
            0 <= tid < before.hazards@.len(),
            self.hazards@ == before.hazards@.update(tid, None),
            self.store == before.store,
            self.head == before.head,
            self.free == before.free,
            self.retired == before.retired,
            self.chain == before.chain,
            self.pending == before.pending,
        ensures
            self.wf(),
    {
        reveal(LockFreeStack::wf_except_backlog);
        assert forall|j: int| 0 <= j < self.hazards@.len() implies (#[trigger] self.hazards@[j] matches Some(
            x,
        ) ==> (x as int) < self.store@.len() && !self.free@.contains(x)) by {
            if j != tid {
                assert(self.hazards@[j] == before.hazards@[j]);
            }
        }
    }

    /// Unlinking the head node `a` and clearing slot `tid` keeps everything but
    /// `a`'s retirement in order.
    proof fn lemma_unlink_keeps_wf(&self, before: Self, tid: int, a: usize)
        requires
            before.wf(),
            0 <= tid < before.hazards@.len(),
            before.chain@.len() > 0,
            before.chain@.last() == a,
            self.hazards@ == before.hazards@.update(tid, None),
            self.store@ == before.store@.update(a as int, Node { value: None, next: before.store@[a as int].next }),
            self.head == before.store@[a as int].next,
            self.free == before.free,
            self.retired == before.retired,
            self.chain@ == before.chain@.drop_last(),
            self.pending == before.pending,
        ensures
            self.wf(),
            (a as int) < self.store@.len(),
            self.store@[a as int].value is None,
            !self.chain@.contains(a),
            !self.free@.contains(a),
            !self.retired@.contains(a),
    {
        reveal(LockFreeStack::wf_except_backlog);
        let c = self.chain@;
        let bc = before.chain@;
        let top = bc.len() - 1;
        assert(bc[top] == a);
        assert(!c.contains(a)) by {
            if c.contains(a) {
                let k = choose|k: int| 0 <= k < c.len() && c[k] == a;
                assert(bc[k] == bc[top]);
            }
        }
        assert(!before.free@.contains(a)) by {
            if before.free@.contains(a) {
                let k = choose|k: int| 0 <= k < before.free@.len() && before.free@[k] == a;
                assert(before.store@[before.free@[k] as int].value is None);
            }
        }
        assert(!before.retired@.contains(a)) by {
            if before.retired@.contains(a) {
                let k = choose|k: int| 0 <= k < before.retired@.len() && before.retired@[k] == a;
                assert(before.store@[before.retired@[k] as int].value is None);
            }
        }
        assert forall|i: int| 0 <= i < c.len() implies {
            &&& (#[trigger] c[i] as int) < self.store@.len()
            &&& self.store@[c[i] as int].value is Some
            &&& self.store@[c[i] as int].next == (if i == 0 {
                None::<usize>
            } else {
                Some(c[i - 1])
            })
        } by {
            assert(c[i] == bc[i]);
            assert(bc[i] != bc[top]);
        }
        assert forall|i: int| 0 <= i < self.free@.len() implies {
            &&& (#[trigger] self.free@[i] as int) < self.store@.len()
            &&& self.store@[self.free@[i] as int].value is None
            &&& !self.retired@.contains(self.free@[i])
        } by {
        }
        assert forall|j: int| 0 <= j < self.hazards@.len() implies (#[trigger] self.hazards@[j] matches Some(
            x,
        ) ==> (x as int) < self.store@.len() && !self.free@.contains(x)) by {
            if j != tid {
                assert(self.hazards@[j] == before.hazards@[j]);
            }
        }
        assert forall|j: int| 0 <= j < self.pending@.len() implies (#[trigger] self.pending@[j] matches Some(
            x,
        ) ==> (x as int) < self.store@.len() && self.store@[x as int].value is Some && !c.contains(x)) by {
            if let Some(x) = self.pending@[j] {
                assert(before.pending@[j] == Some(x));
                assert(!bc.contains(x));
                assert(x != a);
                if c.contains(x) {
                    let k = choose|k: int| 0 <= k < c.len() && c[k] == x;
                    assert(bc[k] == x);
                }
            }
        }
        if bc.len() == 1 {
            assert(before.store@[a as int].next == None::<usize>);
        } else {
            assert(before.store@[bc[top] as int].next == Some(bc[top - 1]));
        }
    }

    /// Queues the unlinked node `a` for freeing, and scans once the retired
    /// list outgrows twice the number of thread contexts.
    fn retire(&mut self, a: usize)
        requires
            old(self).wf(),
            (a as int) < old(self).store@.len(),
            old(self).store@[a as int].value is None,
            !old(self).chain@.contains(a),
            !old(self).free@.contains(a),
            !old(self).retired@.contains(a),
        ensures
            final(self).wf(),
            final(self)@ == old(self)@,
            final(self).hazards == old(self).hazards,
            final(self).head == old(self).head,
            final(self).pending == old(self).pending,
            final(self).store == old(self).store,
    {
        reveal(LockFreeStack::wf_except_backlog);
        self.retired.push(a);
        proof {
            assert(self.retired@.no_duplicates());
            assert forall|i: int| 0 <= i < self.free@.len() implies !self.retired@.contains(
                #[trigger] self.free@[i],
            ) by {
                assert(!old(self).retired@.contains(self.free@[i]));
                assert(self.free@[i] != a);
            }
        }
        let h = self.hazards.len();
        if self.retired.len() > h && self.retired.len() - h > h {
            self.scan();
        }
    }

    /// The address that thread `tid`'s hazard slot publishes, if any.
    pub closed spec fn published(&self, tid: int) -> Option<usize> {
        self.hazards@[tid]
    }

    /// The node at `addr` has been freed and may be reused by a push.
    pub closed spec fn freed(&self, addr: usize) -> bool {
        self.free@.contains(addr)
    }

    /// The node at `addr` is reachable from the head.
    pub closed spec fn linked(&self, addr: usize) -> bool {
        self.chain@.contains(addr)
    }

    /// The node at `addr` has been unlinked and waits to be freed.
    pub closed spec fn awaits_freeing(&self, addr: usize) -> bool {
        self.retired@.contains(addr)
    }

    /// How often `addr` stands on the retired list.
    pub closed spec fn times_retired(&self, addr: usize) -> nat {
        self.retired@.to_multiset().count(addr)
    }

    /// How often `addr` stands on the free list.
    pub closed spec fn times_freed(&self, addr: usize) -> nat {
        self.free@.to_multiset().count(addr)
    }

    /// Pops on behalf of thread `tid`: protects the head, then unlinks it.
    pub fn pop_with(&mut self, tid: usize) -> (r: Option<T>)
        requires
            old(self).wf(),
            tid < old(self).spec_threads(),
        ensures
            final(self).wf(),
            final(self).spec_threads() == old(self).spec_threads(),
            final(self).released(tid as int),
            final(self).pushes() == old(self).pushes(),
            forall|j: int|
                0 <= j < old(self).spec_threads() && old(self).staged(j) is Some
                    ==> final(self).staged_value(j) == old(self).staged_value(j),
            forall|j: int|
                0 <= j < old(self).spec_threads() && j != tid && old(self).released(j)
                    ==> final(self).released(j),
            old(self)@.len() == 0 ==> r is None && final(self)@ == old(self)@,
            old(self)@.len() > 0 ==> r == Some(old(self)@.last()) && final(self)@ == old(
                self,
            )@.drop_last(),
    {
        self.protect_head(tid);
        let ghost mid = *self;
        let attempt = self.try_pop(tid);
        proof {
            assert forall|j: int|
                0 <= j < old(self).spec_threads() && j != tid && old(self).released(j) implies final(self).released(j) by {
                assert(mid.published(j) == old(self).published(j));
                assert(mid.released(j));
            }
        }
        match attempt {
            Attempt::Popped(v) => Some(v),
            _ => None,
        }
    }

    /// Pops on behalf of thread context 0.
    pub fn pop(&mut self) -> (r: Option<T>)
        requires
            old(self).wf(),
        ensures
            final(self).wf(),
            final(self).spec_threads() == old(self).spec_threads(),
            old(self).quiescent() ==> final(self).quiescent(),
            final(self).pushes() == old(self).pushes(),
            forall|j: int|
                0 <= j < old(self).spec_threads() && old(self).staged(j) is Some
                    ==> final(self).staged_value(j) == old(self).staged_value(j),
            old(self)@.len() == 0 ==> r is None && final(self)@ == old(self)@,
            old(self)@.len() > 0 ==> r == Some(old(self)@.last()) && final(self)@ == old(
                self,
            )@.drop_last(),
    {
        let r = self.pop_with(0);
        proof {
            if old(self).quiescent() {
                assert forall|j: int| 0 <= j < final(self).spec_threads() implies final(self).published(j) is None
                    && final(self).staged(j) is None by {
                    assert(final(self).released(j));
                    assert(old(self).staged(j) is None);
                }
            }
        }
        r
    }

    /// The top value, without removing it.
    pub fn peek(&self) -> (r: Option<&T>)
        requires
            self.wf(),
        ensures
            self@.len() == 0 ==> r is None,
            self@.len() > 0 ==> r == Some(&self@.last()),
    {
        reveal(LockFreeStack::wf_except_backlog);
        match self.head {
            None => None,
            Some(a) => {
                proof {
                    assert(self.chain@[self.chain@.len() - 1] == a);
                }
                self.store[a].value.as_ref()
            },
        }
    }

    /// Whether the head links no node.
    pub fn is_empty(&self) -> (r: bool)
        requires
            self.wf(),
        ensures
            r == (self@.len() == 0),
    {
        reveal(LockFreeStack::wf_except_backlog);
        self.head.is_none()
    }

    /// The number of linked nodes, counted by one walk from the head. Under
    /// concurrent use such a count is only a snapshot; here it is exact.
    pub fn len(&self) -> (r: usize)
        requires
            self.wf(),
        ensures
            r == self@.len(),
    {
        reveal(LockFreeStack::wf_except_backlog);
        let ghost c = self.chain@;
        let mut cur = self.head;
        let mut count: usize = 0;
        let stored = self.store.len();
        proof {
            if c.len() > 0 {
                self.lemma_link(0);
            }
        }
        while cur.is_some()
            invariant
                self.wf(),
                c.len() <= stored,
                c == self.chain@,
                count <= c.len(),
                cur == (if count < c.len() {
                    Some(c[c.len() - 1 - count])
                } else {
                    None::<usize>
                }),
            decreases c.len() - count,
        {
            let a = cur.unwrap();
            proof {
                self.lemma_link((c.len() - 1 - count) as int);
            }
            cur = self.store[a].next;
            count = count + 1;
        }
        count
    }

    /// What the invariant says of the link at position `k` of the chain.
    proof fn lemma_link(&self, k: int)
        requires
            self.wf(),
            0 <= k < self.chain@.len(),
        ensures
            (self.chain@[k] as int) < self.store@.len(),
            self.store@[self.chain@[k] as int].next == (if k == 0 {
                None::<usize>
            } else {
                Some(self.chain@[k - 1])
            }),
            self.chain@.len() <= self.store@.len(),
    {
        reveal(LockFreeStack::wf_except_backlog);
        lemma_distinct_bounded(self.chain@, self.store@.len());
    }

    /// Pops every value on behalf of thread context 0, top first.
    pub fn drain(&mut self) -> (r: Vec<T>)
        requires
            old(self).wf(),
        ensures
            final(self).wf(),
            final(self)@ == Seq::<T>::empty(),
            final(self).spec_threads() == old(self).spec_threads(),
            old(self).quiescent() ==> final(self).quiescent(),
            final(self).pushes() == old(self).pushes(),
            r@ == pop_all(old(self)@),
    {
        let mut out: Vec<T> = Vec::new();
        while !self.is_empty()
            invariant
                self.wf(),
                self.spec_threads() == old(self).spec_threads(),
                old(self).quiescent() ==> self.quiescent(),
                self.pushes() == old(self).pushes(),
                out@ + pop_all(self@) == pop_all(old(self)@),
            decreases self@.len(),
        {
            let ghost before = self@;
            let v = self.pop().unwrap();
            proof {
                assert(pop_all(before) == seq![v] + pop_all(self@));
                assert(out@.push(v) + pop_all(self@) =~= out@ + (seq![v] + pop_all(self@)));
            }
            out.push(v);
        }
        proof {
            assert(pop_all(self@) =~= Seq::<T>::empty());
            assert(out@ + Seq::<T>::empty() =~= out@);
        }
        out
    }

    /// Whether some hazard slot publishes `addr`.
    fn is_protected(&self, addr: usize) -> (r: bool)
        ensures
            r == self.hazards@.contains(Some(addr)),
    {
        let mut j: usize = 0;
        while j < self.hazards.len()
            invariant
                j <= self.hazards@.len(),
                forall|k: int| 0 <= k < j ==> self.hazards@[k] != Some(addr),
            decreases self.hazards@.len() - j,
        {
            if self.hazards[j] == Some(addr) {
                assert(self.hazards@[j as int] == Some(addr));
                return true;
            }
            j = j + 1;
        }
        false
    }

    /// Frees every retired node that no hazard slot protects; the protected
    /// ones stay retired.
    #[verifier::rlimit(60)]
    fn scan(&mut self)
        requires
            old(self).wf_except_backlog(),
        ensures
            final(self).wf(),
            final(self)@ == old(self)@,
            final(self).hazards == old(self).hazards,
            final(self).head == old(self).head,
            final(self).pending == old(self).pending,
            final(self).store == old(self).store,
            final(self).retired@.len() <= old(self).hazards@.len(),
    {
        reveal(LockFreeStack::wf_except_backlog);
        let ghost start = *self;
        let mut waiting: Vec<usize> = Vec::new();
        std::mem::swap(&mut waiting, &mut self.retired);
        proof {
            assert forall|x: usize| #[trigger] start.free@.contains(x) implies !start.retired@.contains(x) by {
                let k = choose|k: int| 0 <= k < start.free@.len() && start.free@[k] == x;
                assert(!start.retired@.contains(start.free@[k]));
            }
        }
        let mut i: usize = 0;
        while i < waiting.len()
            invariant
                start.retired@.no_duplicates(),
                forall|x: usize| #[trigger] start.free@.contains(x) ==> !start.retired@.contains(x),
                i <= waiting@.len(),
                waiting@ == start.retired@,
                self.store == start.store,
                self.head == start.head,
                self.hazards == start.hazards,
                self.chain == start.chain,
                self.pending == start.pending,
                self.free@.no_duplicates(),
                self.retired@.no_duplicates(),
                forall|k: int|
                    0 <= k < self.retired@.len() ==> self.hazards@.contains(
                        Some(#[trigger] self.retired@[k]),
                    ),
                forall|x: usize|
                    self.retired@.contains(x) ==> exists|k: int|
                        0 <= k < i && #[trigger] waiting@[k] == x,
                forall|x: usize|
                    self.free@.contains(x) ==> start.free@.contains(x) || exists|k: int|
                        0 <= k < i && #[trigger] waiting@[k] == x,
                forall|x: usize|
                    #[trigger] self.free@.contains(x) ==> !self.hazards@.contains(Some(x)),
                forall|k: int|
                    0 <= k < i ==> self.free@.contains(#[trigger] waiting@[k])
                        || self.retired@.contains(waiting@[k]),
                forall|x: usize| start.free@.contains(x) ==> #[trigger] self.free@.contains(x),
            decreases waiting@.len() - i,
        {
            let a = waiting[i];
            proof {
                assert(waiting@.no_duplicates());
                assert forall|k: int| 0 <= k < i implies waiting@[k] != a by {}
                assert(start.retired@.contains(a));
                assert(!start.free@.contains(a));
            }
            let ghost before_free = self.free@;
            let ghost before_retired = self.retired@;
            proof {
                assert(!self.retired@.contains(a));
                assert(!self.free@.contains(a));
            }
            if self.is_protected(a) {
                self.retired.push(a);
                proof {
                    assert(self.free@ == before_free);
                    assert forall|x: usize| before_retired.contains(x) implies self.retired@.contains(x) by {
                        let m = choose|m: int| 0 <= m < before_retired.len() && before_retired[m] == x;
                        assert(self.retired@[m] == x);
                    }
                    assert(self.retired@[self.retired@.len() - 1] == a);
                }
            } else {
                self.free.push(a);
                proof {
                    assert(self.retired@ == before_retired);
                    assert forall|x: usize| before_free.contains(x) implies self.free@.contains(x) by {
                        let m = choose|m: int| 0 <= m < before_free.len() && before_free[m] == x;
                        assert(self.free@[m] == x);
                    }
                    assert(self.free@[self.free@.len() - 1] == a);
                    assert forall|x: usize| #[trigger] self.free@.contains(x) implies !self.hazards@.contains(Some(x)) by {
                        if x != a {
                            assert(before_free.contains(x));
                        }
                    }
                }
            }
            proof {
                assert forall|x: usize| self.retired@.contains(x) implies exists|k: int|
                    0 <= k < i + 1 && #[trigger] waiting@[k] == x by {
                    if x == a {
                        assert(waiting@[i as int] == x);
                    } else {
                        assert(before_retired.contains(x));
                    }
                }
                assert forall|x: usize| self.free@.contains(x) implies start.free@.contains(x) || exists|k: int|
                    0 <= k < i + 1 && #[trigger] waiting@[k] == x by {
                    if x == a {
                        assert(waiting@[i as int] == x);
                    } else {
                        assert(before_free.contains(x));
                    }
                }
                assert forall|x: usize| start.free@.contains(x) implies #[trigger] self.free@.contains(x) by {
                    assert(before_free.contains(x));
                }
                assert forall|k: int| 0 <= k <= i implies self.free@.contains(#[trigger] waiting@[k])
                    || self.retired@.contains(waiting@[k]) by {
                    if k < i {
                        if before_free.contains(waiting@[k]) {
                        } else {
                            assert(before_retired.contains(waiting@[k]));
                        }
                    }
                }
            }
            i = i + 1;
        }
        proof {
            lemma_protected_bound(self.retired@, self.hazards@);
            let n = self.store@.len();
            assert forall|k: int| 0 <= k < self.free@.len() implies {
                &&& (#[trigger] self.free@[k] as int) < n
                &&& self.store@[self.free@[k] as int].value is None
                &&& !self.retired@.contains(self.free@[k])
            } by {
                let a = self.free@[k];
                assert(self.free@.contains(a));
                if start.free@.contains(a) {
                    let m = choose|m: int| 0 <= m < start.free@.len() && start.free@[m] == a;
                    assert(start.free@[m] == a);
                } else {
                    let m = choose|m: int| 0 <= m < i && waiting@[m] == a;
                    assert(start.retired@[m] == a);
                }
                if self.retired@.contains(a) {
                    let m = choose|m: int| 0 <= m < self.retired@.len() && self.retired@[m] == a;
                    assert(self.hazards@.contains(Some(self.retired@[m])));
                }
            }
            assert forall|k: int| 0 <= k < self.retired@.len() implies {
                &&& (#[trigger] self.retired@[k] as int) < n
                &&& self.store@[self.retired@[k] as int].value is None
            } by {
                let a = self.retired@[k];
                assert(self.retired@.contains(a));
                let m = choose|m: int| 0 <= m < i && waiting@[m] == a;
                assert(start.retired@[m] == a);
            }
            assert forall|j: int| 0 <= j < self.hazards@.len() implies (#[trigger] self.hazards@[j] matches Some(
                a,
            ) ==> (a as int) < n && !self.free@.contains(a)) by {
                if let Some(a) = self.hazards@[j] {
                    assert(start.hazards@[j] == Some(a));
                    assert(self.hazards@.contains(Some(a)));
                }
            }
        }
    }

    /// What `wf` asks of the nodes and the slots, leaving out the bound on the
    /// retired list.
    #[verifier::opaque]
    closed spec fn wf_except_backlog(&self) -> bool {
        let c = self.chain@;
        let n = self.store@.len();
        &&& self.hazards@.len() >= 1
        &&& c.no_duplicates()
        &&& self.free@.no_duplicates()
        &&& self.retired@.no_duplicates()
        &&& self.head == (if c.len() == 0 {
            None::<usize>
        } else {
            Some(c.last())
        })
        &&& forall|i: int|
            0 <= i < c.len() ==> {
                &&& (#[trigger] c[i] as int) < n
                &&& self.store@[c[i] as int].value is Some
                &&& self.store@[c[i] as int].next == (if i == 0 {
                    None::<usize>
                } else {
                    Some(c[i - 1])
                })
            }
        &&& forall|i: int|
            0 <= i < self.free@.len() ==> {
                &&& (#[trigger] self.free@[i] as int) < n
                &&& self.store@[self.free@[i] as int].value is None
                &&& !self.retired@.contains(self.free@[i])
            }
        &&& forall|i: int|
            0 <= i < self.retired@.len() ==> {
                &&& (#[trigger] self.retired@[i] as int) < n
                &&& self.store@[self.retired@[i] as int].value is None
            }
        &&& forall|j: int|
            0 <= j < self.hazards@.len() ==> (#[trigger] self.hazards@[j] matches Some(a) ==> (a as int)
                < n && !self.free@.contains(a))
        &&& self.pending@.len() == self.hazards@.len()
        &&& forall|j: int|
            0 <= j < self.pending@.len() ==> (#[trigger] self.pending@[j] matches Some(a) ==> (a as int)
                < n && self.store@[a as int].value is Some && !c.contains(a))
        &&& forall|j: int, k: int|
            #![trigger self.pending@[j], self.pending@[k]]
            0 <= j < self.pending@.len() && 0 <= k < self.pending@.len() && j != k
                && self.pending@[j] is Some ==> self.pending@[j] != self.pending@[k]
    }
}

/// Distinct addresses below `n` are at most `n`.
proof fn lemma_distinct_bounded(c: Seq<usize>, n: nat)
    requires
        c.no_duplicates(),
        forall|i: int| 0 <= i < c.len() ==> (#[trigger] c[i] as int) < n,
    ensures
        c.len() <= n,
{
    let f = |a: usize| a as int;
    let cs = c.to_set();
    c.unique_seq_to_set();
    assert(cs.map(f).subset_of(vstd::set_lib::set_int_range(0, n as int))) by {
        assert forall|x: int| #[trigger] cs.map(f).contains(x) implies vstd::set_lib::set_int_range(0, n as int).contains(x) by {
            let a = choose|a: usize| cs.contains(a) && f(a) == x;
            let k = choose|k: int| 0 <= k < c.len() && c[k] == a;
            assert((c[k] as int) < n);
        }
    }
    assert(vstd::relations::injective_on(f, cs));
    vstd::set_lib::lemma_map_size(cs, cs.map(f), f);
    vstd::set_lib::lemma_int_range(0, n as int);
    vstd::set_lib::lemma_len_subset(cs.map(f), vstd::set_lib::set_int_range(0, n as int));
}

/// Distinct addresses that each stand in some hazard slot are no more than
/// the slots.
proof fn lemma_protected_bound(kept: Seq<usize>, hazards: Seq<Option<usize>>)
    requires
        kept.no_duplicates(),
        forall|k: int| 0 <= k < kept.len() ==> hazards.contains(Some(#[trigger] kept[k])),
    ensures
        kept.len() <= hazards.len(),
{
    let f = |a: usize| Some(a);
    let ks = kept.to_set();
    kept.unique_seq_to_set();
    assert(ks.map(f).subset_of(hazards.to_set())) by {
        assert forall|o: Option<usize>| #[trigger] ks.map(f).contains(o) implies hazards.to_set().contains(o) by {
            let a = choose|a: usize| ks.contains(a) && f(a) == o;
            let k = choose|k: int| 0 <= k < kept.len() && kept[k] == a;
            assert(hazards.contains(Some(kept[k])));
        }
    }
    assert(vstd::relations::injective_on(f, ks));
    vstd::set_lib::lemma_map_size(ks, ks.map(f), f);
    hazards.lemma_cardinality_of_set();
    vstd::set_lib::lemma_len_subset(ks.map(f), hazards.to_set());
}

/// Pushing each of `vs` onto an empty stack stacks them in order.
proof fn lemma_push_all_empty<T>(vs: Seq<T>)
    ensures
        push_all(Seq::<T>::empty(), vs) == vs,
    decreases vs.len(),
{
    if vs.len() > 0 {
        lemma_push_all_empty(vs.drop_last());
        assert(vs.drop_last().push(vs.last()) =~= vs);
    }
}

/// Popping a stack until it is empty returns its values top first.
proof fn lemma_pop_all_reverse<T>(s: Seq<T>)
    ensures
        pop_all(s) == s.reverse(),
    decreases s.len(),
{
    if s.len() > 0 {
        lemma_pop_all_reverse(s.drop_last());
        assert(seq![s.last()] + s.drop_last().reverse() =~= s.reverse());
    }
}

/// Last in, first out: after pushes of `v1, ..., vn` onto an empty stack,
/// popping until the stack is empty returns `vn, ..., v1`, and then the
/// stack is empty.
pub proof fn lemma_lifo<T>(vs: Seq<T>)
    ensures
        pop_all(push_all(Seq::<T>::empty(), vs)) == vs.reverse(),
{
    lemma_push_all_empty(vs);
    lemma_pop_all_reverse(vs);
}

/// Conservation: whatever order the pushes of several threads' batches take
/// effect in, draining the stack afterwards returns exactly the values pushed,
/// each as often as it was pushed.
pub proof fn lemma_conservation<T>(batches: Seq<Seq<T>>, order: Seq<T>)
    requires
        order.to_multiset() == union_of(batches),
    ensures
        pop_all(push_all(Seq::<T>::empty(), order)).to_multiset() == union_of(batches),
{
    lemma_push_all_empty(order);
    lemma_pop_all_reverse(order);
    order.lemma_reverse_to_multiset();
}

/// Reclamation safety: no node that is reachable from the head, that some
/// thread's hazard slot publishes, or that some thread's push has made is
/// freed; a node that waits to be freed is neither reachable nor freed; and
/// no node is retired twice or freed twice.
pub proof fn lemma_reclamation_safe<T>(s: &LockFreeStack<T>, tid: int, addr: usize)
    requires
        s.wf(),
        0 <= tid < s.spec_threads(),
    ensures
        s.published(tid) == Some(addr) ==> !s.freed(addr),
        s.linked(addr) ==> !s.freed(addr),
        s.staged(tid) == Some(addr) ==> !s.freed(addr),
        s.awaits_freeing(addr) ==> !s.linked(addr) && !s.freed(addr),
        s.times_retired(addr) <= 1,
        s.times_freed(addr) <= 1,
{
    reveal(LockFreeStack::wf_except_backlog);
    if s.linked(addr) && s.freed(addr) {
        let k = choose|k: int| 0 <= k < s.chain@.len() && s.chain@[k] == addr;
        let m = choose|m: int| 0 <= m < s.free@.len() && s.free@[m] == addr;
        assert(s.store@[s.chain@[k] as int].value is Some);
        assert(s.store@[s.free@[m] as int].value is None);
    }
    if s.staged(tid) == Some(addr) && s.freed(addr) {
        let m = choose|m: int| 0 <= m < s.free@.len() && s.free@[m] == addr;
        assert(s.store@[s.free@[m] as int].value is None);
    }
    s.free@.lemma_multiset_has_no_duplicates();
    s.retired@.lemma_multiset_has_no_duplicates();
    if s.awaits_freeing(addr) {
        let m = choose|m: int| 0 <= m < s.retired@.len() && s.retired@[m] == addr;
        assert(s.store@[s.retired@[m] as int].value is None);
        if s.linked(addr) {
            let k = choose|k: int| 0 <= k < s.chain@.len() && s.chain@[k] == addr;
            assert(s.store@[s.chain@[k] as int].value is Some);
        }
        if s.freed(addr) {
            let k = choose|k: int| 0 <= k < s.free@.len() && s.free@[k] == addr;
            assert(!s.retired@.contains(s.free@[k]));
        }
    }
    broadcast use vstd::multiset::group_multiset_axioms;
}

/// Bounded backlog: the nodes that wait to be freed are never more than twice
/// the number of thread contexts.
pub proof fn lemma_backlog_bounded<T>(s: &LockFreeStack<T>)
    requires
        s.wf(),
    ensures
        s.spec_retired() <= 2 * s.spec_threads(),
{
}

} // verus!
