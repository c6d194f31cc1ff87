//! The mathematical side of the aggregator: what a combining operator is,
//! the fold of a sequence of values under one, and the regrouping laws that
//! associativity buys.

use vstd::prelude::*;

verus! {

/// An operator is associative when regrouping a combination never changes its
/// result. The order of the operands is untouched: commutativity is not asked.
pub open spec fn associative<T>(op: spec_fn(T, T) -> T) -> bool {
    forall|x: T, y: T, z: T| #[trigger] op(op(x, y), z) == op(x, op(y, z))
}

/// The left-to-right fold of a non-empty sequence under `op`:
/// `op(..op(op(s[0], s[1]), s[2]).., s[last])`.
pub open spec fn combine_fold<T>(op: spec_fn(T, T) -> T, s: Seq<T>) -> T
    recommends
        s.len() > 0,
    decreases s.len(),
{
    if s.len() <= 1 {
        s[0]
    } else {
        op(combine_fold(op, s.drop_last()), s.last())
    }
}

/// The closure may be called on every pair of values.
pub open spec fn callable<T, F: Fn(T, T) -> T>(f: F) -> bool {
    forall|x: T, y: T| #[trigger] call_requires(f, (x, y))
}

/// The closure computes the mathematical operator `op`: every value a call of
/// `f` on `(x, y)` may return equals `op(x, y)`.
pub open spec fn computes<T, F: Fn(T, T) -> T>(f: F, op: spec_fn(T, T) -> T) -> bool {
    forall|x: T, y: T, r: T| #[trigger] call_ensures(f, (x, y), r) ==> r == op(x, y)
}

/// Appending one more value to a non-empty sequence extends its fold on the
/// right: the fold takes the values exactly in sequence order.
pub proof fn lemma_combine_fold_push<T>(op: spec_fn(T, T) -> T, s: Seq<T>, x: T)
    requires
        s.len() > 0,
    ensures
        combine_fold(op, s.push(x)) == op(combine_fold(op, s), x),
{
    assert(s.push(x).drop_last() =~= s);
    assert(s.push(x).last() == x);
}

/// Folding two adjacent non-empty segments separately and combining the two
/// partial results equals folding the concatenation. Under an associative
/// operator only the parenthesization moves; the order of the values never
/// does, so this holds without commutativity.
pub proof fn lemma_combine_fold_concat<T>(op: spec_fn(T, T) -> T, s: Seq<T>, t: Seq<T>)
    requires
        associative(op),
        s.len() > 0,
        t.len() > 0,
    ensures
        combine_fold(op, s + t) == op(combine_fold(op, s), combine_fold(op, t)),
    decreases t.len(),
{
    if t.len() == 1 {
        assert((s + t).drop_last() =~= s);
        assert((s + t).last() == t[0]);
    } else {
        lemma_combine_fold_concat(op, s, t.drop_last());
        assert((s + t).drop_last() =~= s + t.drop_last());
        assert(combine_fold(op, s + t) == op(
            op(combine_fold(op, s), combine_fold(op, t.drop_last())),
            t.last(),
        ));
        assert(op(op(combine_fold(op, s), combine_fold(op, t.drop_last())), t.last()) == op(
            combine_fold(op, s),
            op(combine_fold(op, t.drop_last()), t.last()),
        ));
    }
}

} // verus!
