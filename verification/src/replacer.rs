//! The LRU-K replacer: picks the read slot to evict. Each tracked slot
//! carries an append-only history of logical access timestamps and a pin
//! counter; a slot is evictable exactly when its pin counter is zero.
//! Eviction prefers the evictable slot with the largest k-distance (the gap
//! between the most recent and the k-th most recent access), ties broken by
//! the larger slot id; when no evictable slot has k recorded accesses, the
//! evictable slot with the earliest latest access is taken instead.

use vstd::prelude::*;

verus! {

/// Per-slot bookkeeping: the slot id, the access history (oldest first)
/// and the pin counter.
#[derive(Debug)]
pub struct LRUKNode {
    i: usize,
    history: Vec<u64>,
    pin: u64,
}

/// The k-distance of a history with at least `k` accesses: the gap between
/// the latest access and the k-th most recent one.
pub open spec fn spec_k_distance(h: Seq<u64>, k: int) -> int
    recommends
        1 <= k <= h.len(),
{
    h.last() - h[h.len() - k]
}

impl LRUKNode {
    pub closed spec fn spec_slot(self) -> usize {
        self.i
    }

    pub closed spec fn spec_history(self) -> Seq<u64> {
        self.history@
    }

    pub closed spec fn spec_pin(self) -> u64 {
        self.pin
    }

    /// The history is non-empty and its timestamps never decrease.
    pub open spec fn wf(self) -> bool {
        &&& self.spec_history().len() >= 1
        &&& forall|a: int, b: int|
            0 <= a <= b < self.spec_history().len() ==> self.spec_history()[a]
                <= self.spec_history()[b]
    }

    pub fn new(i: usize, ts: u64) -> (r: LRUKNode)
        ensures
            r.spec_slot() == i,
            r.spec_history() == seq![ts],
            r.spec_pin() == 0,
            r.wf(),
    {
        let mut history: Vec<u64> = Vec::new();
        history.push(ts);
        proof {
            assert(history@ =~= seq![ts]);
        }
        LRUKNode { i, history, pin: 0 }
    }

    /// The slot's k-distance, or `None` when fewer than `k` accesses are
    /// recorded.
    pub fn get_k_distance(&self, k: usize) -> (r: Option<u64>)
        requires
            self.wf(),
            k >= 1,
        ensures
            match r {
                Some(d) => {
                    &&& self.spec_history().len() >= k
                    &&& d == spec_k_distance(self.spec_history(), k as int)
                },
                None => self.spec_history().len() < k,
            },
    {
        let len = self.history.len();
        if len < k {
            return None;
        }
        let latest = self.history[len - 1];
        let kth = self.history[len - k];
        Some(latest - kth)
    }
}

pub open spec fn slots_unique(s: Seq<LRUKNode>) -> bool {
    forall|a: int, b: int|
        0 <= a < b < s.len() ==> s[a].spec_slot() != s[b].spec_slot()
}

pub open spec fn seq_has(s: Seq<LRUKNode>, i: usize) -> bool {
    exists|j: int| 0 <= j < s.len() && s[j].spec_slot() == i
}

pub open spec fn seq_node_of(s: Seq<LRUKNode>, i: usize) -> LRUKNode
    recommends
        seq_has(s, i),
{
    s[choose|j: int| 0 <= j < s.len() && s[j].spec_slot() == i]
}

/// With unique slot ids, the node found at any index is the node that the
/// slot-indexed view returns for its id.
pub proof fn lemma_node_lookup(s: Seq<LRUKNode>, j: int)
    requires
        slots_unique(s),
        0 <= j < s.len(),
    ensures
        seq_has(s, s[j].spec_slot()),
        seq_node_of(s, s[j].spec_slot()) == s[j],
{
    let i = s[j].spec_slot();
    assert(seq_has(s, i));
    let j2 = choose|j2: int| 0 <= j2 < s.len() && s[j2].spec_slot() == i;
    if j2 != j {
        if j2 < j {
            assert(s[j2].spec_slot() != s[j].spec_slot());
        } else {
            assert(s[j].spec_slot() != s[j2].spec_slot());
        }
    }
}

pub open spec fn full_at(s: Seq<LRUKNode>, k: int, j: int) -> bool {
    s[j].spec_pin() == 0 && s[j].spec_history().len() >= k
}

pub open spec fn short_at(s: Seq<LRUKNode>, k: int, j: int) -> bool {
    s[j].spec_pin() == 0 && s[j].spec_history().len() < k
}

/// Candidate `a` does not beat candidate `b` for the k-distance rule:
/// its k-distance is smaller, or equal with a slot id that is not larger.
pub open spec fn full_no_better(s: Seq<LRUKNode>, k: int, a: int, b: int) -> bool {
    ||| spec_k_distance(s[a].spec_history(), k) < spec_k_distance(s[b].spec_history(), k)
    ||| (spec_k_distance(s[a].spec_history(), k) == spec_k_distance(s[b].spec_history(), k)
        && s[a].spec_slot() <= s[b].spec_slot())
}

/// Candidate `b` is accessed no later than candidate `a`: its latest
/// access is earlier, or equal with a slot id that is not larger.
pub open spec fn short_no_later(s: Seq<LRUKNode>, k: int, b: int, a: int) -> bool {
    ||| s[b].spec_history().last() < s[a].spec_history().last()
    ||| (s[b].spec_history().last() == s[a].spec_history().last() && s[b].spec_slot()
        <= s[a].spec_slot())
}

/// Victim selection, pinning and access history for the read slots.
#[derive(Debug)]
pub struct LRUKReplacer {
    nodes: Vec<LRUKNode>,
    current_ts: u64,
    k: usize,
}

impl LRUKReplacer {
    pub closed spec fn spec_nodes(self) -> Seq<LRUKNode> {
        self.nodes@
    }

    pub closed spec fn spec_ts(self) -> u64 {
        self.current_ts
    }

    pub closed spec fn spec_k(self) -> int {
        self.k as int
    }

    /// Whether the replacer tracks slot `i`.
    pub open spec fn has(self, i: usize) -> bool {
        seq_has(self.spec_nodes(), i)
    }

    pub open spec fn node_of(self, i: usize) -> LRUKNode {
        seq_node_of(self.spec_nodes(), i)
    }

    pub open spec fn history_of(self, i: usize) -> Seq<u64> {
        self.node_of(i).spec_history()
    }

    pub open spec fn pin_of(self, i: usize) -> u64 {
        self.node_of(i).spec_pin()
    }

    /// A tracked slot whose pin counter is zero may be evicted.
    pub open spec fn evictable(self, i: usize) -> bool {
        self.has(i) && self.pin_of(i) == 0
    }

    pub open spec fn wf(self) -> bool {
        &&& self.spec_k() >= 1
        &&& slots_unique(self.spec_nodes())
        &&& forall|j: int| 0 <= j < self.spec_nodes().len() ==> (#[trigger] self.spec_nodes()[j]).wf()
        &&& forall|j: int, t: int|
            0 <= j < self.spec_nodes().len() && 0 <= t
                < self.spec_nodes()[j].spec_history().len() ==> #[trigger] self.spec_nodes()[j].spec_history()[t] <= self.spec_ts()
    }

    pub fn new(k: usize) -> (r: LRUKReplacer)
        requires
            k >= 1,
        ensures
            r.wf(),
            r.spec_k() == k,
            r.spec_ts() == 0,
            forall|i: usize| !r.has(i),
    {
        LRUKReplacer { nodes: Vec::new(), current_ts: 0, k }
    }

    /// Find the index of the node for slot `i`.
    fn find_index(&self, i: usize) -> (r: Option<usize>)
        ensures
            match r {
                Some(j) => j < self.spec_nodes().len() && self.spec_nodes()[j as int].spec_slot()
                    == i,
                None => !self.has(i),
            },
    {
        let mut j: usize = 0;
        while j < self.nodes.len()
            invariant
                j <= self.spec_nodes().len(),
                forall|j2: int| 0 <= j2 < j ==> (#[trigger] self.spec_nodes()[j2]).spec_slot() != i,
            decreases self.spec_nodes().len() - j,
        {
            if self.nodes[j].i == i {
                return Some(j);
            }
            j += 1;
        }
        None
    }

    /// The slot that the LRU-K policy prefers: when some evictable slot has
    /// at least k recorded accesses, the one among those with the largest
    /// k-distance, ties broken by the larger slot id; otherwise the
    /// evictable slot whose latest access is earliest, ties broken by the
    /// smaller slot id.
    pub open spec fn is_preferred_victim(self, v: usize) -> bool {
        if exists|i: usize|
            #[trigger] self.evictable(i) && self.history_of(i).len() >= self.spec_k() {
            &&& self.history_of(v).len() >= self.spec_k()
            &&& forall|i: usize|
                #[trigger] self.evictable(i) && self.history_of(i).len() >= self.spec_k()
                    ==> spec_k_distance(self.history_of(i), self.spec_k()) < spec_k_distance(
                    self.history_of(v),
                    self.spec_k(),
                ) || (spec_k_distance(self.history_of(i), self.spec_k()) == spec_k_distance(
                    self.history_of(v),
                    self.spec_k(),
                ) && i <= v)
        } else {
            &&& self.history_of(v).len() < self.spec_k()
            &&& forall|i: usize|
                #[trigger] self.evictable(i) && self.history_of(i).len() < self.spec_k()
                    ==> self.history_of(v).last() < self.history_of(i).last() || (self.history_of(
                    v,
                ).last() == self.history_of(i).last() && v <= i)
        }
    }

    /// Pick the slot to evict, or return `None` when no tracked slot is
    /// unpinned. A pinned slot is never returned, and the choice follows
    /// the LRU-K preference.
    pub fn evict(&mut self) -> (r: Option<usize>)
        requires
            old(self).wf(),
        ensures
            *final(self) == *old(self),
            match r {
                Some(i) => old(self).evictable(i) && old(self).is_preferred_victim(i),
                None => forall|i: usize| !old(self).evictable(i),
            },
    {
        let ghost s = self.nodes@;
        let ghost kk = self.spec_k();
        let mut best_full: Option<usize> = None;
        let mut best_full_d: u64 = 0;
        let mut best_short: Option<usize> = None;
        let mut best_short_ts: u64 = 0;
        let k = self.k;
        let mut j: usize = 0;
        while j < self.nodes.len()
            invariant
                self.wf(),
                s == self.nodes@,
                kk == self.spec_k(),
                k == self.k,
                j <= s.len(),
                match best_full {
                    Some(bf) => {
                        &&& bf < j
                        &&& full_at(s, kk, bf as int)
                        &&& best_full_d == spec_k_distance(s[bf as int].spec_history(), kk)
                        &&& forall|j2: int|
                            0 <= j2 < j && #[trigger] full_at(s, kk, j2) ==> full_no_better(
                                s,
                                kk,
                                j2,
                                bf as int,
                            )
                    },
                    None => forall|j2: int| 0 <= j2 < j ==> !#[trigger] full_at(s, kk, j2),
                },
                match best_short {
                    Some(bs) => {
                        &&& bs < j
                        &&& short_at(s, kk, bs as int)
                        &&& best_short_ts == s[bs as int].spec_history().last()
                        &&& forall|j2: int|
                            0 <= j2 < j && #[trigger] short_at(s, kk, j2) ==> short_no_later(
                                s,
                                kk,
                                bs as int,
                                j2,
                            )
                    },
                    None => forall|j2: int| 0 <= j2 < j ==> !#[trigger] short_at(s, kk, j2),
                },
            decreases s.len() - j,
        {
            if self.nodes[j].pin == 0 {
                match self.nodes[j].get_k_distance(k) {
                    Some(d) => {
                        let take = match best_full {
                            None => true,
                            Some(bf) => d > best_full_d || (d == best_full_d && self.nodes[j].i
                                > self.nodes[bf].i),
                        };
                        if take {
                            best_full = Some(j);
                            best_full_d = d;
                        }
                    },
                    None => {
                        let hlen = self.nodes[j].history.len();
                        let last = self.nodes[j].history[hlen - 1];
                        let take = match best_short {
                            None => true,
                            Some(bs) => last < best_short_ts || (last == best_short_ts
                                && self.nodes[j].i < self.nodes[bs].i),
                        };
                        if take {
                            best_short = Some(j);
                            best_short_ts = last;
                        }
                    },
                }
            }
            j += 1;
        }
        match best_full {
            Some(bf) => {
                let v = self.nodes[bf].i;
                proof {
                    lemma_node_lookup(s, bf as int);
                    assert(self.evictable(v));
                    assert(self.history_of(v).len() >= kk);
                    assert forall|i: usize|
                        #[trigger] self.evictable(i) && self.history_of(i).len() >= kk implies
                        spec_k_distance(self.history_of(i), kk) < spec_k_distance(
                            self.history_of(v),
                            kk,
                        ) || (spec_k_distance(self.history_of(i), kk) == spec_k_distance(
                            self.history_of(v),
                            kk,
                        ) && i <= v) by {
                        let j2 = choose|j2: int| 0 <= j2 < s.len() && s[j2].spec_slot() == i;
                        lemma_node_lookup(s, j2);
                        assert(full_at(s, kk, j2));
                    }
                }
                Some(v)
            },
            None => {
                match best_short {
                    Some(bs) => {
                        let v = self.nodes[bs].i;
                        proof {
                            lemma_node_lookup(s, bs as int);
                            assert(self.evictable(v));
                            assert(!exists|i: usize|
                                #[trigger] self.evictable(i) && self.history_of(i).len()
                                    >= kk) by {
                                if exists|i: usize|
                                    #[trigger] self.evictable(i) && self.history_of(i).len()
                                        >= kk {
                                    let i = choose|i: usize|
                                        #[trigger] self.evictable(i) && self.history_of(i).len()
                                            >= kk;
                                    let j2 = choose|j2: int|
                                        0 <= j2 < s.len() && s[j2].spec_slot() == i;
                                    lemma_node_lookup(s, j2);
                                    assert(full_at(s, kk, j2));
                                }
                            }
                            assert forall|i: usize|
                                #[trigger] self.evictable(i) && self.history_of(i).len()
                                    < kk implies self.history_of(v).last() < self.history_of(
                                i,
                            ).last() || (self.history_of(v).last() == self.history_of(i).last()
                                && v <= i) by {
                                let j2 = choose|j2: int|
                                    0 <= j2 < s.len() && s[j2].spec_slot() == i;
                                lemma_node_lookup(s, j2);
                                assert(short_at(s, kk, j2));
                            }
                        }
                        Some(v)
                    },
                    None => {
                        proof {
                            assert forall|i: usize| !self.evictable(i) by {
                                if self.evictable(i) {
                                    let j2 = choose|j2: int|
                                        0 <= j2 < s.len() && s[j2].spec_slot() == i;
                                    lemma_node_lookup(s, j2);
                                    assert(s[j2].spec_pin() == 0);
                                    if s[j2].spec_history().len() >= kk {
                                        assert(full_at(s, kk, j2));
                                    } else {
                                        assert(short_at(s, kk, j2));
                                    }
                                }
                            }
                        }
                        None
                    },
                }
            },
        }
    }

    /// Append the next logical timestamp to the slot's history, creating
    /// the node if the slot is not yet tracked. The timestamp counter
    /// advances, saturating at the largest value.
    pub fn record_access(&mut self, i: usize)
        requires
            old(self).wf(),
        ensures
            final(self).wf(),
            final(self).spec_k() == old(self).spec_k(),
            final(self).spec_ts() == if old(self).spec_ts() < u64::MAX {
                (old(self).spec_ts() + 1) as u64
            } else {
                u64::MAX
            },
            forall|x: usize| final(self).has(x) == (old(self).has(x) || x == i),
            final(self).history_of(i) == (if old(self).has(i) {
                old(self).history_of(i)
            } else {
                Seq::<u64>::empty()
            }).push(old(self).spec_ts()),
            final(self).pin_of(i) == if old(self).has(i) {
                old(self).pin_of(i)
            } else {
                0u64
            },
            forall|x: usize|
                x != i && old(self).has(x) ==> final(self).history_of(x) == old(self).history_of(
                    x,
                ) && final(self).pin_of(x) == old(self).pin_of(x),
    {
        let ghost pre = *self;
        let ts = self.current_ts;
        match self.find_index(i) {
            Some(idx) => {
                proof {
                    lemma_node_lookup(pre.spec_nodes(), idx as int);
                }
                let mut node = self.nodes.swap_remove(idx);
                node.history.push(ts);
                self.nodes.push(node);
                proof {
                    let s0 = pre.spec_nodes();
                    let s1 = self.spec_nodes();
                    let node1 = s1.last();
                    assert forall|j: int| 0 <= j < s1.len() implies #[trigger] s1[j] == (if j
                        == s1.len() - 1 {
                        node1
                    } else if j == idx {
                        s0[s0.len() - 1]
                    } else {
                        s0[j]
                    }) by {}
                    assert(slots_unique(s1));
                    assert forall|x: usize| self.has(x) == (pre.has(x) || x == i) by {
                        if self.has(x) {
                            let j = choose|j: int|
                                0 <= j < s1.len() && s1[j].spec_slot() == x;
                            if j == s1.len() - 1 {
                                assert(x == i);
                            } else if j == idx {
                                lemma_node_lookup(s0, s0.len() - 1);
                            } else {
                                lemma_node_lookup(s0, j);
                            }
                        }
                        if pre.has(x) {
                            let j = choose|j: int|
                                0 <= j < s0.len() && s0[j].spec_slot() == x;
                            if j == idx {
                                assert(s1[s1.len() - 1].spec_slot() == x);
                            } else if j == s0.len() - 1 {
                                if idx == j {
                                } else {
                                    assert(s1[idx as int].spec_slot() == x);
                                }
                            } else {
                                assert(s1[j].spec_slot() == x);
                            }
                        }
                        if x == i {
                            assert(s1[s1.len() - 1].spec_slot() == i);
                            assert(self.has(x));
                        }
                    }
                    lemma_node_lookup(s1, s1.len() - 1);
                    assert(self.history_of(i) =~= pre.history_of(i).push(pre.spec_ts()));
                    assert forall|x: usize| x != i && pre.has(x) implies self.history_of(x)
                        == pre.history_of(x) && self.pin_of(x) == pre.pin_of(x) by {
                        let j = choose|j: int| 0 <= j < s0.len() && s0[j].spec_slot() == x;
                        lemma_node_lookup(s0, j);
                        if j == idx {
                        } else if j == s0.len() - 1 {
                            if idx < s0.len() - 1 {
                                assert(s1[idx as int] == s0[j]);
                                lemma_node_lookup(s1, idx as int);
                            } else {
                                assert(s1[j] == s0[j]);
                                lemma_node_lookup(s1, j);
                            }
                        } else {
                            assert(s1[j] == s0[j]);
                            lemma_node_lookup(s1, j);
                        }
                    }
                }
            },
            None => {
                let node = LRUKNode::new(i, ts);
                self.nodes.push(node);
                proof {
                    let s0 = pre.spec_nodes();
                    let s1 = self.spec_nodes();
                    assert(slots_unique(s1)) by {
                        assert forall|a: int, b: int| 0 <= a < b < s1.len() implies s1[a].spec_slot()
                            != s1[b].spec_slot() by {
                            if b == s1.len() - 1 {
                                lemma_node_lookup(s0, a);
                            }
                        }
                    }
                    assert forall|x: usize| self.has(x) == (pre.has(x) || x == i) by {
                        if self.has(x) {
                            let j = choose|j: int|
                                0 <= j < s1.len() && s1[j].spec_slot() == x;
                            if j < s1.len() - 1 {
                                assert(s0[j].spec_slot() == x);
                            }
                        }
                        if pre.has(x) {
                            let j = choose|j: int|
                                0 <= j < s0.len() && s0[j].spec_slot() == x;
                            assert(s1[j].spec_slot() == x);
                        }
                        if x == i {
                            assert(s1[s1.len() - 1].spec_slot() == i);
                        }
                    }
                    lemma_node_lookup(s1, s1.len() - 1);
                    assert(self.history_of(i) =~= Seq::<u64>::empty().push(pre.spec_ts()));
                    assert forall|x: usize| x != i && pre.has(x) implies self.history_of(x)
                        == pre.history_of(x) && self.pin_of(x) == pre.pin_of(x) by {
                        let j = choose|j: int| 0 <= j < s0.len() && s0[j].spec_slot() == x;
                        lemma_node_lookup(s0, j);
                        assert(s1[j] == s0[j]);
                        lemma_node_lookup(s1, j);
                    }
                }
            },
        }
        if self.current_ts < u64::MAX {
            self.current_ts = self.current_ts + 1;
        }
    }

    /// Raise the slot's pin counter; a slot that is not tracked is left
    /// alone. The counter saturates at the largest value.
    pub fn pin(&mut self, i: usize)
        requires
            old(self).wf(),
        ensures
            final(self).wf(),
            final(self).spec_k() == old(self).spec_k(),
            final(self).spec_ts() == old(self).spec_ts(),
            forall|x: usize| final(self).has(x) == old(self).has(x),
            old(self).has(i) ==> final(self).pin_of(i) == if old(self).pin_of(i) < u64::MAX {
                (old(self).pin_of(i) + 1) as u64
            } else {
                u64::MAX
            },
            forall|x: usize|
                old(self).has(x) && x != i ==> final(self).pin_of(x) == old(self).pin_of(x),
            forall|x: usize|
                old(self).has(x) ==> final(self).history_of(x) == old(self).history_of(x),
    {
        self.adjust_pin(i, true);
    }

    /// Lower the slot's pin counter; a slot that is not tracked is left
    /// alone. The counter stops at zero.
    pub fn unpin(&mut self, i: usize)
        requires
            old(self).wf(),
        ensures
            final(self).wf(),
            final(self).spec_k() == old(self).spec_k(),
            final(self).spec_ts() == old(self).spec_ts(),
            forall|x: usize| final(self).has(x) == old(self).has(x),
            old(self).has(i) ==> final(self).pin_of(i) == if old(self).pin_of(i) > 0 {
                (old(self).pin_of(i) - 1) as u64
            } else {
                0u64
            },
            forall|x: usize|
                old(self).has(x) && x != i ==> final(self).pin_of(x) == old(self).pin_of(x),
            forall|x: usize|
                old(self).has(x) ==> final(self).history_of(x) == old(self).history_of(x),
    {
        self.adjust_pin(i, false);
    }

    /// Shared body of `pin` and `unpin`.
    fn adjust_pin(&mut self, i: usize, up: bool)
        requires
            old(self).wf(),
        ensures
            final(self).wf(),
            final(self).spec_k() == old(self).spec_k(),
            final(self).spec_ts() == old(self).spec_ts(),
            forall|x: usize| final(self).has(x) == old(self).has(x),
            old(self).has(i) ==> final(self).pin_of(i) == if up {
                if old(self).pin_of(i) < u64::MAX {
                    (old(self).pin_of(i) + 1) as u64
                } else {
                    u64::MAX
                }
            } else {
                if old(self).pin_of(i) > 0 {
                    (old(self).pin_of(i) - 1) as u64
                } else {
                    0u64
                }
            },
            forall|x: usize|
                old(self).has(x) && x != i ==> final(self).pin_of(x) == old(self).pin_of(x),
            forall|x: usize|
                old(self).has(x) ==> final(self).history_of(x) == old(self).history_of(x),
    {
        let ghost pre = *self;
        match self.find_index(i) {
            Some(idx) => {
                proof {
                    lemma_node_lookup(pre.spec_nodes(), idx as int);
                }
                let mut node = self.nodes.swap_remove(idx);
                if up {
                    if node.pin < u64::MAX {
                        node.pin = node.pin + 1;
                    }
                } else {
                    if node.pin > 0 {
                        node.pin = node.pin - 1;
                    }
                }
                self.nodes.push(node);
                proof {
                    let s0 = pre.spec_nodes();
                    let s1 = self.spec_nodes();
                    assert(slots_unique(s1));
                    assert forall|x: usize| self.has(x) == pre.has(x) by {
                        if self.has(x) {
                            let j = choose|j: int|
                                0 <= j < s1.len() && s1[j].spec_slot() == x;
                            if j == s1.len() - 1 {
                                lemma_node_lookup(s0, idx as int);
                            } else if j == idx {
                                lemma_node_lookup(s0, s0.len() - 1);
                            } else {
                                lemma_node_lookup(s0, j);
                            }
                        }
                        if pre.has(x) {
                            let j = choose|j: int|
                                0 <= j < s0.len() && s0[j].spec_slot() == x;
                            if j == idx {
                                assert(s1[s1.len() - 1].spec_slot() == x);
                            } else if j == s0.len() - 1 && idx < s0.len() - 1 {
                                assert(s1[idx as int].spec_slot() == x);
                            } else {
                                assert(s1[j].spec_slot() == x);
                            }
                        }
                    }
                    lemma_node_lookup(s1, s1.len() - 1);
                    assert forall|x: usize| pre.has(x) && x != i implies self.pin_of(x)
                        == pre.pin_of(x) && self.history_of(x) == pre.history_of(x) by {
                        let j = choose|j: int| 0 <= j < s0.len() && s0[j].spec_slot() == x;
                        lemma_node_lookup(s0, j);
                        if j == s0.len() - 1 && idx < s0.len() - 1 {
                            assert(s1[idx as int] == s0[j]);
                            lemma_node_lookup(s1, idx as int);
                        } else if j != idx {
                            assert(s1[j] == s0[j]);
                            lemma_node_lookup(s1, j);
                        }
                    }
                    assert(self.history_of(i) == pre.history_of(i));
                }
            },
            None => {},
        }
    }

    /// Drop the node for slot `i`; the slot must not be pinned. Removing a
    /// slot that is not tracked is a no-op.
    pub fn remove(&mut self, i: usize)
        requires
            old(self).wf(),
            old(self).has(i) ==> old(self).pin_of(i) == 0,
        ensures
            final(self).wf(),
            final(self).spec_k() == old(self).spec_k(),
            final(self).spec_ts() == old(self).spec_ts(),
            forall|x: usize| final(self).has(x) == (old(self).has(x) && x != i),
            forall|x: usize|
                old(self).has(x) && x != i ==> final(self).pin_of(x) == old(self).pin_of(x)
                    && final(self).history_of(x) == old(self).history_of(x),
    {
        let ghost pre = *self;
        match self.find_index(i) {
            Some(idx) => {
                proof {
                    lemma_node_lookup(pre.spec_nodes(), idx as int);
                }
                let _ = self.nodes.swap_remove(idx);
                proof {
                    let s0 = pre.spec_nodes();
                    let s1 = self.spec_nodes();
                    assert forall|j: int| 0 <= j < s1.len() implies #[trigger] s1[j] == (if j
                        == idx {
                        s0[s0.len() - 1]
                    } else {
                        s0[j]
                    }) by {}
                    assert(slots_unique(s1));
                    assert forall|x: usize| self.has(x) == (pre.has(x) && x != i) by {
                        if self.has(x) {
                            let j = choose|j: int|
                                0 <= j < s1.len() && s1[j].spec_slot() == x;
                            if j == idx {
                                lemma_node_lookup(s0, s0.len() - 1);
                            } else {
                                lemma_node_lookup(s0, j);
                            }
                        }
                        if pre.has(x) && x != i {
                            let j = choose|j: int|
                                0 <= j < s0.len() && s0[j].spec_slot() == x;
                            if j == s0.len() - 1 {
                                if idx < s1.len() {
                                    assert(s1[idx as int].spec_slot() == x);
                                } else {
                                    assert(j == idx && x == i);
                                }
                            } else {
                                assert(s1[j].spec_slot() == x);
                            }
                        }
                    }
                    assert forall|x: usize| pre.has(x) && x != i implies self.pin_of(x)
                        == pre.pin_of(x) && self.history_of(x) == pre.history_of(x) by {
                        let j = choose|j: int| 0 <= j < s0.len() && s0[j].spec_slot() == x;
                        lemma_node_lookup(s0, j);
                        if j == s0.len() - 1 {
                            assert(j != idx);
                            assert(s1[idx as int] == s0[j]);
                            lemma_node_lookup(s1, idx as int);
                        } else {
                            assert(s1[j] == s0[j]);
                            lemma_node_lookup(s1, j);
                        }
                    }
                }
            },
            None => {},
        }
    }
}

} // verus!
