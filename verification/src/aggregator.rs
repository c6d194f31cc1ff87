//! The sliding-window aggregator itself: two buffers with parallel aggregate
//! stacks, so that the fold of the whole window is read in O(1) and each
//! value is moved from the front pair to the back pair at most once.

use vstd::prelude::*;

use crate::semigroup::associative;
use crate::semigroup::callable;
use crate::semigroup::combine_fold;
use crate::semigroup::computes;
use crate::semigroup::lemma_combine_fold_concat;
use crate::semigroup::lemma_combine_fold_push;

verus! {

/// A sliding-window aggregator over an associative combining closure `F`.
///
/// The window, oldest to newest, is the back buffer read last-to-first
/// followed by the front buffer read first-to-last. Appends push onto the
/// front pair; evictions pop the back pair, rebalancing the front into the
/// back only when the back is exhausted. Each aggregate stack caches, slot by
/// slot, the folds its buffer contributes, so `fold_all` never walks the
/// window.
///
/// The operator must be associative; commutativity and an identity element
/// are not required, so operand order is preserved everywhere. The contracts
/// speak of any mathematical operator `op` the closure computes (see
/// `computes`): with a non-associative operator the aggregate is unspecified,
/// while the window content itself is still tracked exactly. The structure is
/// single-owner and does no internal synchronization: callers that share it
/// across threads must lock it.
pub struct SWAg<T, F> {
    back: Vec<T>,
    back_agg: Vec<T>,
    front: Vec<T>,
    front_agg: Vec<T>,
    f: F,
}

impl<T: Copy, F: Fn(T, T) -> T> SWAg<T, F> {
    /// The stored combining closure.
    pub closed spec fn operator(self) -> F {
        self.f
    }

    /// The held window, oldest to newest.
    pub closed spec fn window(self) -> Seq<T> {
        self.back@.reverse() + self.front@
    }

    /// Well-formedness: the closure may be called on every pair, each
    /// aggregate stack runs in step with its buffer and caches folds of its
    /// buffer's values under every associative operator the closure computes:
    /// front slot `i` the fold of the front values pushed up to `i`, back
    /// slot `i` the fold, oldest to newest, of the back values stored at
    /// positions `i` down to `0`.
    pub closed spec fn wf(self) -> bool {
        &&& callable(self.f)
        &&& self.front_agg@.len() == self.front@.len()
        &&& self.back_agg@.len() == self.back@.len()
        &&& forall|op: spec_fn(T, T) -> T, i: int|
            computes(self.f, op) && associative(op) && 0 <= i < self.front@.len()
                ==> self.front_agg@[i] == #[trigger] combine_fold(op, self.front@.take(i + 1))
        &&& forall|op: spec_fn(T, T) -> T, i: int|
            computes(self.f, op) && associative(op) && 0 <= i < self.back@.len()
                ==> self.back_agg@[i] == #[trigger] combine_fold(
                op,
                self.back@.take(i + 1).reverse(),
            )
    }

    /// A fresh, empty aggregator around the given combining closure.
    pub fn new(f: F) -> (r: Self)
        requires
            callable(f),
        ensures
            r.wf(),
            r.window() == Seq::<T>::empty(),
            r.operator() == f,
    {
        let r = SWAg {
            back: Vec::new(),
            back_agg: Vec::new(),
            front: Vec::new(),
            front_agg: Vec::new(),
            f,
        };
        proof {
            assert(r.window() =~= Seq::<T>::empty());
        }
        r
    }

    /// The fold, oldest to newest, of every value in the window, read in
    /// O(1) from the two aggregate-stack tops; `None` exactly when the window
    /// is empty, since the operator need not have an identity element.
    pub fn fold_all(&self) -> (r: Option<T>)
        requires
            self.wf(),
        ensures
            self.window().len() == 0 ==> r is None,
            self.window().len() > 0 ==> r is Some,
            forall|op: spec_fn(T, T) -> T|
                computes(self.operator(), op) && associative(op) && self.window().len() > 0
                    ==> r == Some(#[trigger] combine_fold(op, self.window())),
    {
        let nb = self.back_agg.len();
        let nf = self.front_agg.len();
        if nb == 0 && nf == 0 {
            proof {
                assert(self.window() =~= Seq::<T>::empty());
            }
            None
        } else if nb == 0 {
            let v = self.front_agg[nf - 1];
            proof {
                assert(self.front@.take(nf as int) =~= self.front@);
                assert(self.window() =~= self.front@);
                assert forall|op: spec_fn(T, T) -> T|
                    computes(self.operator(), op) && associative(op) implies Some(v) == Some(
                    #[trigger] combine_fold(op, self.window()),
                ) by {
                    assert(v == combine_fold(op, self.front@.take(nf as int - 1 + 1)));
                }
            }
            Some(v)
        } else if nf == 0 {
            let v = self.back_agg[nb - 1];
            proof {
                assert(self.back@.take(nb as int) =~= self.back@);
                assert(self.window() =~= self.back@.reverse());
                assert forall|op: spec_fn(T, T) -> T|
                    computes(self.operator(), op) && associative(op) implies Some(v) == Some(
                    #[trigger] combine_fold(op, self.window()),
                ) by {
                    assert(v == combine_fold(op, self.back@.take(nb as int - 1 + 1).reverse()));
                }
            }
            Some(v)
        } else {
            let x = self.back_agg[nb - 1];
            let y = self.front_agg[nf - 1];
            let v = (self.f)(x, y);
            proof {
                assert(self.back@.take(nb as int) =~= self.back@);
                assert(self.front@.take(nf as int) =~= self.front@);
                assert forall|op: spec_fn(T, T) -> T|
                    computes(self.operator(), op) && associative(op) implies Some(v) == Some(
                    #[trigger] combine_fold(op, self.window()),
                ) by {
                    assert(x == combine_fold(op, self.back@.take(nb as int - 1 + 1).reverse()));
                    assert(y == combine_fold(op, self.front@.take(nf as int - 1 + 1)));
                    lemma_combine_fold_concat(op, self.back@.reverse(), self.front@);
                }
            }
            Some(v)
        }
    }

    /// Append a value at the newest end of the window. Only the front pair is
    /// touched: the value is pushed onto the front buffer and the cached fold
    /// of the front segment is extended by one combine, in O(1).
    pub fn push_back(&mut self, x: T)
        requires
            old(self).wf(),
        ensures
            final(self).wf(),
            final(self).operator() == old(self).operator(),
            final(self).window() == old(self).window().push(x),
    {
        let n = self.front_agg.len();
        let entry = if n == 0 {
            x
        } else {
            let y = self.front_agg[n - 1];
            (self.f)(y, x)
        };
        self.front.push(x);
        self.front_agg.push(entry);
        proof {
            let oldf = old(self).front@;
            let m = oldf.len() as int;
            assert forall|op: spec_fn(T, T) -> T, i: int|
                computes(self.f, op) && associative(op) && 0 <= i < self.front@.len()
                    implies self.front_agg@[i] == #[trigger] combine_fold(
                op,
                self.front@.take(i + 1),
            ) by {
                if i < m {
                    assert(self.front@.take(i + 1) =~= oldf.take(i + 1));
                    assert(self.front_agg@[i] == combine_fold(op, oldf.take(i + 1)));
                } else {
                    assert(self.front@.take(i + 1) =~= oldf.push(x));
                    if m > 0 {
                        assert(oldf.take(m) =~= oldf);
                        assert(self.front_agg@[m - 1] == combine_fold(op, oldf.take(m - 1 + 1)));
                        lemma_combine_fold_push(op, oldf, x);
                    }
                }
            }
            assert forall|op: spec_fn(T, T) -> T, i: int|
                computes(self.f, op) && associative(op) && 0 <= i < self.back@.len()
                    implies self.back_agg@[i] == #[trigger] combine_fold(
                op,
                self.back@.take(i + 1).reverse(),
            ) by {
                assert(self.back_agg@[i] == combine_fold(op, old(self).back@.take(i + 1).reverse()));
            }
            assert(self.window() =~= old(self).window().push(x));
        }
    }

    /// Evict and return the oldest value in the window, or `None` exactly
    /// when the window is empty. When the back pair still holds values, one
    /// pop of each of its stacks suffices; only when the back is exhausted is
    /// the whole front moved into the back (reversed) and the back aggregate
    /// stack rebuilt, which each value pays for at most once in its lifetime.
    pub fn pop_front(&mut self) -> (r: Option<T>)
        requires
            old(self).wf(),
        ensures
            final(self).wf(),
            final(self).operator() == old(self).operator(),
            old(self).window().len() == 0 ==> r is None && final(self).window() == old(self).window(),
            old(self).window().len() > 0 ==> r == Some(old(self).window()[0]) && final(self).window() == old(self).window().drop_first(),
    {
        let nb = self.back.len();
        if nb > 0 {
            let x = self.back.pop().unwrap();
            self.back_agg.pop();
            proof {
                let oldb = old(self).back@;
                assert(old(self).window()[0] == oldb.reverse()[0]);
                assert forall|op: spec_fn(T, T) -> T, i: int|
                    computes(self.f, op) && associative(op) && 0 <= i < self.back@.len()
                        implies self.back_agg@[i] == #[trigger] combine_fold(
                    op,
                    self.back@.take(i + 1).reverse(),
                ) by {
                    assert(self.back@.take(i + 1) =~= oldb.take(i + 1));
                    assert(self.back_agg@[i] == combine_fold(op, oldb.take(i + 1).reverse()));
                }
                assert forall|op: spec_fn(T, T) -> T, i: int|
                    computes(self.f, op) && associative(op) && 0 <= i < self.front@.len()
                        implies self.front_agg@[i] == #[trigger] combine_fold(
                    op,
                    self.front@.take(i + 1),
                ) by {
                    assert(self.front_agg@[i] == combine_fold(op, old(self).front@.take(i + 1)));
                }
                assert(self.window() =~= old(self).window().drop_first());
            }
            return Some(x);
        }
        if self.front.len() == 0 {
            proof {
                assert(self.window() =~= Seq::<T>::empty());
            }
            return None;
        }
        let n = self.front.len();
        let mut i: usize = n;
        while i > 0
            invariant
                0 <= i <= n,
                n == self.front@.len(),
                self.front@ == old(self).front@,
                self.front_agg@ == old(self).front_agg@,
                self.f == old(self).f,
                self.back_agg@.len() == 0,
                self.back@ =~= self.front@.skip(i as int).reverse(),
            decreases i,
        {
            i = i - 1;
            let v = self.front[i];
            self.back.push(v);
            proof {
                assert(self.front@.skip(i as int).reverse() =~= self.front@.skip(
                    i + 1,
                ).reverse().push(self.front@[i as int]));
            }
        }
        let x = self.back.pop().unwrap();
        self.back_agg = Vec::new();
        self.front = Vec::new();
        self.front_agg = Vec::new();
        proof {
            let oldf = old(self).front@;
            assert(oldf.reverse()[n - 1] == oldf[0]);
            assert(old(self).window() =~= oldf);
            assert(self.back@ =~= oldf.drop_first().reverse());
        }
        let len = self.back.len();
        if len > 0 {
            let mut cur = self.back[0];
            self.back_agg.push(cur);
            proof {
                assert(self.back@.take(1).reverse() =~= seq![self.back@[0]]);
            }
            let mut j: usize = 1;
            while j < len
                invariant
                    1 <= j <= len,
                    len == self.back@.len(),
                    self.back@ == old(self).front@.drop_first().reverse(),
                    self.f == old(self).f,
                    callable(self.f),
                    self.front@.len() == 0,
                    self.front_agg@.len() == 0,
                    self.back_agg@.len() == j,
                    forall|op: spec_fn(T, T) -> T, k: int|
                        computes(self.f, op) && associative(op) && 0 <= k < j
                            ==> self.back_agg@[k] == #[trigger] combine_fold(
                            op,
                            self.back@.take(k + 1).reverse(),
                        ),
                    forall|op: spec_fn(T, T) -> T|
                        computes(self.f, op) && associative(op) ==> cur == #[trigger] combine_fold(
                            op,
                            self.back@.take(j as int).reverse(),
                        ),
                decreases len - j,
            {
                let v = self.back[j];
                let next = (self.f)(v, cur);
                self.back_agg.push(next);
                proof {
                    assert forall|op: spec_fn(T, T) -> T|
                        computes(self.f, op) && associative(op) implies next
                        == #[trigger] combine_fold(op, self.back@.take(j + 1).reverse()) by {
                        assert(cur == combine_fold(op, self.back@.take(j as int).reverse()));
                        assert(self.back@.take(j + 1).reverse() =~= seq![self.back@[j as int]]
                            + self.back@.take(j as int).reverse());
                        lemma_combine_fold_concat(
                            op,
                            seq![self.back@[j as int]],
                            self.back@.take(j as int).reverse(),
                        );
                    }
                }
                cur = next;
                j = j + 1;
            }
        }
        proof {
            assert(self.window() =~= old(self).front@.drop_first());
            assert(old(self).window() =~= old(self).front@);
        }
        Some(x)
    }
}

} // verus!
