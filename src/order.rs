use core::cmp::Ordering;
use vstd::laws_cmp::{
    obeys_cmp, obeys_cmp_ord, obeys_cmp_partial_ord, obeys_partial_cmp_spec_properties,
};
use vstd::laws_eq::{obeys_concrete_eq, obeys_eq_spec_properties};
use vstd::prelude::*;
use vstd::std_specs::cmp::{OrdSpec, PartialEqSpec, PartialOrdSpec};

verus! {

/// The comparison operators of `T` form a strict total order, and two values
/// compare equal exactly when they are the same value.
pub open spec fn total_order<T: Ord>() -> bool {
    &&& obeys_cmp::<T>()
    &&& obeys_concrete_eq::<T>()
}

/// `a` sorts strictly before `b`.
pub open spec fn less<T: Ord>(a: T, b: T) -> bool {
    a.partial_cmp_spec(&b) == Some(Ordering::Less)
}

/// Every element of `s` sorts strictly before every later one.
pub open spec fn strictly_increasing<T: Ord>(s: Seq<T>) -> bool {
    forall|i: int, j: int| 0 <= i < j < s.len() ==> less(#[trigger] s[i], #[trigger] s[j])
}

/// Any two values are ordered in exactly one way, and the operators `<` and
/// `>` report that order.
pub proof fn lemma_compare<T: Ord>(a: T, b: T)
    requires
        total_order::<T>(),
    ensures
        T::obeys_partial_cmp_spec(),
        less(a, b) || a == b || less(b, a),
        !less(a, a),
        less(a, b) ==> !less(b, a),
        a.partial_cmp_spec(&b) == Some(Ordering::Greater) <==> less(b, a),
{
    reveal(obeys_cmp_partial_ord);
    reveal(obeys_cmp_ord);
    reveal(obeys_partial_cmp_spec_properties);
    reveal(obeys_concrete_eq);
    assert(a.partial_cmp_spec(&b) == Some(a.cmp_spec(&b)));
    assert(a.eq_spec(&a));
    assert(b.eq_spec(&b));
    assert(a.partial_cmp_spec(&b) == Some(Ordering::Less) <==> b.partial_cmp_spec(&a) == Some(
        Ordering::Greater,
    ));
    assert(b.partial_cmp_spec(&a) == Some(Ordering::Less) <==> a.partial_cmp_spec(&b) == Some(
        Ordering::Greater,
    ));
}

/// `less` is transitive.
pub proof fn lemma_less_transitive<T: Ord>(a: T, b: T, c: T)
    requires
        total_order::<T>(),
        less(a, b),
        less(b, c),
    ensures
        less(a, c),
{
    reveal(obeys_partial_cmp_spec_properties);
    assert(a.partial_cmp_spec(&b) == Some(Ordering::Less) && b.partial_cmp_spec(&c) == Some(
        Ordering::Less,
    ));
}

/// Two strictly increasing sequences that hold the same values are equal.
pub proof fn lemma_increasing_unique<T: Ord>(a: Seq<T>, b: Seq<T>)
    requires
        total_order::<T>(),
        strictly_increasing(a),
        strictly_increasing(b),
        forall|x: T| a.contains(x) <==> b.contains(x),
    ensures
        a == b,
    decreases a.len(),
{
    if a.len() == 0 {
        if b.len() > 0 {
            assert(b.contains(b[0]));
        }
        assert(a =~= b);
    } else {
        assert(a.contains(a[0]));
        assert(b.len() > 0);
        assert(b.contains(b[0]));
        let j = choose|j: int| 0 <= j < b.len() && b[j] == a[0];
        let k = choose|k: int| 0 <= k < a.len() && a[k] == b[0];
        if j > 0 {
            assert(less(b[0], b[j]));
            if k > 0 {
                assert(less(a[0], a[k]));
                lemma_compare(a[0], b[0]);
            } else {
                lemma_compare(b[0], b[0]);
            }
        }
        assert(a[0] == b[0]);
        let ta = a.drop_first();
        let tb = b.drop_first();
        assert forall|x: T| ta.contains(x) implies tb.contains(x) by {
            assert(exists|i: int| 0 <= i < ta.len() && ta[i] == x);
            let i = choose|i: int| 0 <= i < ta.len() && ta[i] == x;
            assert(a[i + 1] == x);
            assert(a.contains(x));
            assert(b.contains(x));
            assert(less(a[0], x));
            lemma_compare(a[0], x);
            let m = choose|m: int| 0 <= m < b.len() && b[m] == x;
            assert(m != 0);
            assert(tb[m - 1] == x);
        }
        assert forall|x: T| tb.contains(x) implies ta.contains(x) by {
            assert(exists|i: int| 0 <= i < tb.len() && tb[i] == x);
            let i = choose|i: int| 0 <= i < tb.len() && tb[i] == x;
            assert(b[i + 1] == x);
            assert(b.contains(x));
            assert(a.contains(x));
            assert(less(b[0], x));
            lemma_compare(b[0], x);
            let m = choose|m: int| 0 <= m < a.len() && a[m] == x;
            assert(m != 0);
            assert(ta[m - 1] == x);
        }
        assert(strictly_increasing(ta)) by {
            assert forall|i: int, j: int| 0 <= i < j < ta.len() implies less(ta[i], ta[j]) by {
                assert(ta[i] == a[i + 1] && ta[j] == a[j + 1]);
            }
        }
        assert(strictly_increasing(tb)) by {
            assert forall|i: int, j: int| 0 <= i < j < tb.len() implies less(tb[i], tb[j]) by {
                assert(tb[i] == b[i + 1] && tb[j] == b[j + 1]);
            }
        }
        lemma_increasing_unique(ta, tb);
        assert(a =~= seq![a[0]] + ta);
        assert(b =~= seq![b[0]] + tb);
    }
}

} // verus!
