//! Collatz chain lengths, memoised in a shared graph so that every walk can
//! stop as soon as it reaches a number whose chain length is already known.

use vstd::prelude::*;
use std::collections::HashMap;

verus! {

broadcast use vstd::std_specs::hash::group_hash_axioms;

/// One Collatz step: halve an even number, triple an odd one and add one.
pub open spec fn collatz_spec(n: nat) -> nat {
    if n % 2 == 0 {
        n / 2
    } else {
        3 * n + 1
    }
}

/// How many Collatz walk steps one traversal will attempt before giving up.
pub const TRAVERSE_LIMIT: u64 = 10_000_000;

/// The Collatz chain from `n` reaches one in exactly `l` numbers, counting
/// both ends.
pub open spec fn chain_len(n: nat, l: nat) -> bool
    decreases l,
{
    if n == 1 {
        l == 1
    } else if l == 0 {
        false
    } else {
        chain_len(collatz_spec(n), (l - 1) as nat)
    }
}

/// One recorded number's chain link: its Collatz successor fits, is
/// recorded, and is one step shorter. Kept opaque so that reasoning about
/// the memo does not chase links indefinitely.
#[verifier::opaque]
pub open spec fn link_ok(m: Map<u64, u64>, k: u64) -> bool {
    &&& collatz_spec(k as nat) <= u64::MAX
    &&& m.contains_key((collatz_spec(k as nat)) as u64)
    &&& m[k] as nat == m[(collatz_spec(k as nat)) as u64] as nat + 1
}

/// The memo's core invariant, over the bare map: one maps to one; every
/// other recorded number is at least one and holds its chain link; and every
/// recorded value is its number's true chain length.
pub open spec fn graph_wf(m: Map<u64, u64>) -> bool {
    &&& m.contains_key(1)
    &&& m[1] == 1
    &&& forall|k: u64| #[trigger] m.contains_key(k) ==> k >= 1
    &&& forall|k: u64| #[trigger] m.contains_key(k) && k > 1 ==> link_ok(m, k)
    &&& forall|k: u64| #[trigger] m.contains_key(k) ==> chain_len(k as nat, m[k] as nat)
}

/// The tracked best entry is recorded and dominates the memo.
pub open spec fn best_wf(m: Map<u64, u64>, best: (u64, u64)) -> bool {
    &&& m.contains_key(best.0)
    &&& m[best.0] == best.1
    &&& forall|k: u64| #[trigger] m.contains_key(k) ==> m[k] <= best.1
}

/// Recording a fresh number one step above a recorded successor preserves
/// the memo's invariant, with the best entry updated where the new chain is
/// longer.
proof fn lemma_record(m0: Map<u64, u64>, k: u64, v: u64, best: (u64, u64))
    requires
        graph_wf(m0),
        best_wf(m0, best),
        !m0.contains_key(k),
        k >= 2,
        collatz_spec(k as nat) <= u64::MAX,
        m0.contains_key((collatz_spec(k as nat)) as u64),
        v as nat == m0[(collatz_spec(k as nat)) as u64] as nat + 1,
    ensures
        graph_wf(m0.insert(k, v)),
        best_wf(
            m0.insert(k, v),
            if v > best.1 {
                (k, v)
            } else {
                best
            },
        ),
{
    let m1 = m0.insert(k, v);
    let c = (collatz_spec(k as nat)) as u64;
    assert(collatz_spec(k as nat) != k as nat) by {
        if k as nat % 2 == 0 {
            assert(collatz_spec(k as nat) == k as nat / 2);
            assert(k as nat / 2 < k as nat);
        } else {
            assert(collatz_spec(k as nat) == 3 * k as nat + 1);
        }
    }
    assert forall|kk: u64| #[trigger] m1.contains_key(kk) && kk > 1 implies link_ok(m1, kk) by {
        reveal(link_ok);
        if kk != k {
            assert(m0.contains_key(kk));
            assert(link_ok(m0, kk));
            assert((collatz_spec(kk as nat)) as u64 != k) by {
                if (collatz_spec(kk as nat)) as u64 == k {
                    assert(m0.contains_key(k));
                }
            }
        } else {
            assert(m1[c] == m0[c]);
        }
    }
    assert forall|kk: u64| #[trigger] m1.contains_key(kk) implies chain_len(
        kk as nat,
        m1[kk] as nat,
    ) by {
        if kk != k {
            assert(m0.contains_key(kk));
        } else {
            assert(chain_len(c as nat, m0[c] as nat));
            assert(chain_len(k as nat, v as nat));
        }
    }
}

/// A memo of Collatz chain lengths: every recorded number maps to one more
/// than the recorded length of its successor, with the chain of one defined
/// as one. The longest recorded chain is tracked alongside.
pub struct CollazGraph {
    graph: HashMap<u64, u64>,
    best: (u64, u64),
}

impl View for CollazGraph {
    type V = Map<u64, u64>;

    closed spec fn view(&self) -> Map<u64, u64> {
        self.graph@
    }
}

impl CollazGraph {
    /// The recorded number with the longest chain, and that chain's length.
    pub closed spec fn best_spec(&self) -> (u64, u64) {
        self.best
    }

    /// The memo's invariant: the chain links hold and the tracked best
    /// entry dominates the memo.
    pub open spec fn wf(&self) -> bool {
        graph_wf(self@) && best_wf(self@, self.best_spec())
    }

    /// A fresh memo holding only the chain of one.
    pub fn new() -> (r: CollazGraph)
        ensures
            r.wf(),
            r@ == Map::<u64, u64>::empty().insert(1, 1),
    {
        let mut graph: HashMap<u64, u64> = HashMap::new();
        graph.insert(1, 1);
        CollazGraph { graph, best: (1, 1) }
    }

    /// Record the chain length of `k`, one more than its already recorded
    /// successor's. Reports failure only when that length would overflow.
    fn record(&mut self, k: u64) -> (r: bool)
        requires
            old(self).wf(),
            k >= 2,
            collatz_spec(k as nat) <= u64::MAX,
            old(self)@.contains_key((collatz_spec(k as nat)) as u64),
        ensures
            final(self).wf(),
            forall|q: u64|
                old(self)@.contains_key(q) ==> final(self)@.contains_key(q) && final(self)@[q]
                    == old(self)@[q],
            r ==> final(self)@.contains_key(k),
            !r ==> final(self)@ == old(self)@,
    {
        let c = if k % 2 == 0 {
            k / 2
        } else {
            proof {
                assert(collatz_spec(k as nat) == 3 * k as nat + 1);
            }
            3 * k + 1
        };
        proof {
            assert(c as nat == collatz_spec(k as nat));
        }
        let l2 = match self.graph.get(&c) {
            Some(v) => *v,
            None => {
                proof {
                    assert(false);
                }
                0
            },
        };
        if l2 == u64::MAX {
            return false;
        }
        let v = l2 + 1;
        let already = self.graph.contains_key(&k);
        if !already {
            proof {
                lemma_record(self@, k, v, self.best_spec());
            }
            self.graph.insert(k, v);
            if v > self.best.1 {
                self.best = (k, v);
            }
        }
        true
    }

    /// Record, from the cached end backwards, the chain length of every
    /// number on a walked path whose final step reached `cur`, already
    /// recorded. Fails only when a chain length would overflow.
    #[verifier::rlimit(100)]
    fn fold_chain(&mut self, path: &Vec<u64>, cur: u64) -> (r: bool)
        requires
            old(self).wf(),
            old(self)@.contains_key(cur),
            forall|j: int| 0 <= j < path@.len() ==> (#[trigger] path@[j]) >= 2 && collatz_spec(
                path@[j] as nat,
            ) <= u64::MAX,
            forall|j: int|
                0 <= j < path@.len() - 1 ==> collatz_spec((#[trigger] path@[j]) as nat)
                    == path@[j + 1] as nat,
            path@.len() > 0 ==> collatz_spec(path@.last() as nat) == cur as nat,
        ensures
            final(self).wf(),
            forall|q: u64|
                old(self)@.contains_key(q) ==> final(self)@.contains_key(q) && final(self)@[q]
                    == old(self)@[q],
            r ==> final(self)@.contains_key(
                if path@.len() > 0 {
                    path@[0]
                } else {
                    cur
                },
            ),
            !r ==> path@.len() > 0,
    {
        let ghost g0 = self@;
        let mut i: usize = path.len();
        while i > 0
            invariant
                self.wf(),
                g0 == old(self)@,
                forall|q: u64|
                    #[trigger] g0.contains_key(q) ==> self@.contains_key(q) && self@[q] == g0[q],
                i <= path@.len(),
                self@.contains_key(
                    if i == path@.len() {
                        cur
                    } else {
                        path@[i as int]
                    },
                ),
                forall|j: int| 0 <= j < path@.len() ==> (#[trigger] path@[j]) >= 2 && collatz_spec(
                    path@[j] as nat,
                ) <= u64::MAX,
                forall|j: int|
                    0 <= j < path@.len() - 1 ==> collatz_spec((#[trigger] path@[j]) as nat)
                        == path@[j + 1] as nat,
                path@.len() > 0 ==> collatz_spec(path@.last() as nat) == cur as nat,
            decreases i,
        {
            i = i - 1;
            let k = path[i];
            let ghost mid = self@;
            proof {
                assert(collatz_spec(k as nat) == (if i + 1 == path@.len() {
                    cur
                } else {
                    path@[i + 1]
                }) as nat);
                assert(self@.contains_key((collatz_spec(k as nat)) as u64));
            }
            let ok = self.record(k);
            if !ok {
                return false;
            }
            proof {
                assert forall|q: u64| #[trigger]
                    g0.contains_key(q) implies self@.contains_key(q) && self@[q] == g0[q] by {
                    assert(mid.contains_key(q) && mid[q] == g0[q]);
                }
            }
        }
        true
    }

    /// The length of the Collatz chain from `n`, walking until a recorded
    /// number is reached and then recording the lengths of every number
    /// passed. `None` only for numbers not yet recorded, when the walk would
    /// overflow a word or exceed the step limit; the memo then still
    /// satisfies its invariant. A recorded number — one in particular — is
    /// always answered.
    #[verifier::rlimit(100)]
    #[verifier::spinoff_prover]
    pub fn traverse(&mut self, n: u64) -> (r: Option<u64>)
        requires
            old(self).wf(),
            n >= 1,
        ensures
            final(self).wf(),
            forall|k: u64|
                old(self)@.contains_key(k) ==> final(self)@.contains_key(k) && final(self)@[k]
                    == old(self)@[k],
            match r {
                Some(l) => final(self)@.contains_key(n) && l == final(self)@[n] && chain_len(
                    n as nat,
                    l as nat,
                ),
                None => !old(self)@.contains_key(n),
            },
    {
        let ghost g0 = self@;
        let mut path: Vec<u64> = Vec::new();
        let mut cur: u64 = n;
        let mut fuel: u64 = TRAVERSE_LIMIT;
        loop
            invariant_except_break
                self.wf(),
                self@ == g0,
                g0 == old(self)@,
                n >= 1,
                cur >= 1,
                path@.len() > 0 ==> path@[0] == n,
                path@.len() == 0 ==> cur == n,
                forall|j: int| 0 <= j < path@.len() ==> (#[trigger] path@[j]) >= 2
                    && !self@.contains_key(path@[j]) && collatz_spec(path@[j] as nat) <= u64::MAX,
                forall|j: int|
                    0 <= j < path@.len() - 1 ==> collatz_spec((#[trigger] path@[j]) as nat)
                        == path@[j + 1] as nat,
                path@.len() > 0 ==> collatz_spec(path@.last() as nat) == cur as nat,
            ensures
                self.wf(),
                self@ == g0,
                g0 == old(self)@,
                n >= 1,
                self@.contains_key(cur),
                path@.len() > 0 ==> path@[0] == n,
                path@.len() == 0 ==> cur == n,
                forall|j: int| 0 <= j < path@.len() ==> (#[trigger] path@[j]) >= 2
                    && !self@.contains_key(path@[j]) && collatz_spec(path@[j] as nat) <= u64::MAX,
                forall|j: int|
                    0 <= j < path@.len() - 1 ==> collatz_spec((#[trigger] path@[j]) as nat)
                        == path@[j + 1] as nat,
                path@.len() > 0 ==> collatz_spec(path@.last() as nat) == cur as nat,
            decreases fuel,
        {
            let found = self.graph.contains_key(&cur);
            if found {
                break ;
            }
            proof {
                if path@.len() == 0 {
                    assert(cur == n);
                    assert(!g0.contains_key(n));
                } else {
                    assert(!self@.contains_key(path@[0]));
                }
            }
            if fuel == 0 {
                return None;
            }
            fuel = fuel - 1;
            proof {
                assert(cur != 1);
            }
            if cur % 2 == 1 && cur > (u64::MAX - 1) / 3 {
                return None;
            }
            let nxt = if cur % 2 == 0 {
                cur / 2
            } else {
                proof {
                    vstd::arithmetic::div_mod::lemma_fundamental_div_mod(
                        (u64::MAX - 1) as int,
                        3,
                    );
                }
                3 * cur + 1
            };
            proof {
                assert(nxt as nat == collatz_spec(cur as nat));
                assert(nxt >= 1);
            }
            path.push(cur);
            cur = nxt;
        }
        let folded = self.fold_chain(&path, cur);
        if !folded {
            proof {
                assert(path@.len() > 0);
                assert(!g0.contains_key(path@[0]));
            }
            return None;
        }
        proof {
            if path@.len() == 0 {
                assert(self@.contains_key(n));
            } else {
                assert(self@.contains_key(path@[0]));
            }
        }
        match self.graph.get(&n) {
            Some(v) => Some(*v),
            None => {
                proof {
                    assert(false);
                }
                None
            },
        }
    }

    /// The recorded number whose chain is longest, with that length.
    pub fn longest_chain(&self) -> (r: (u64, u64))
        requires
            self.wf(),
        ensures
            self@.contains_key(r.0),
            self@[r.0] == r.1,
            forall|k: u64| #[trigger] self@.contains_key(k) ==> self@[k] <= r.1,
    {
        self.best
    }
}

/// One Collatz step on a machine word.
pub fn collatz(n: u64) -> (r: u64)
    requires
        n % 2 == 1 ==> n <= (u64::MAX - 1) / 3,
    ensures
        r as nat == collatz_spec(n as nat),
{
    if n % 2 == 0 {
        n / 2
    } else {
        proof {
            vstd::arithmetic::div_mod::lemma_fundamental_div_mod((u64::MAX - 1) as int, 3);
        }
        3 * n + 1
    }
}

} // verus!
