use vstd::prelude::*;

verus! {

/// Sum of `f` over the elements of `keys`.
pub open spec fn sum_over(keys: Seq<usize>, f: spec_fn(usize) -> nat) -> nat
    decreases keys.len(),
{
    if keys.len() == 0 {
        0
    } else {
        sum_over(keys.drop_last(), f) + f(keys.last())
    }
}

/// Sum of `f` over the members of `among` below `n`.
pub open spec fn sum_below(among: Set<usize>, f: spec_fn(usize) -> nat, n: int) -> nat
    decreases n,
{
    if n <= 0 {
        0
    } else {
        sum_below(among, f, n - 1) + if among.contains((n - 1) as usize) {
            f((n - 1) as usize)
        } else {
            0
        }
    }
}

/// Taking an element out of a sequence takes its share out of the sum.
pub proof fn lemma_sum_without(keys: Seq<usize>, f: spec_fn(usize) -> nat, i: int)
    requires
        0 <= i < keys.len(),
    ensures
        sum_over(keys, f) == sum_over(keys.remove(i), f) + f(keys[i]),
    decreases keys.len(),
{
    if i == keys.len() - 1 {
        assert(keys.remove(i) =~= keys.drop_last());
    } else {
        lemma_sum_without(keys.drop_last(), f, i);
        assert(keys.remove(i).drop_last() =~= keys.drop_last().remove(i));
        assert(keys.remove(i).last() == keys.last());
    }
}

/// A sum over a sequence without repetition does not depend on the order:
/// it is the sum over the set of its elements.
pub proof fn lemma_sum_any_order(
    keys: Seq<usize>,
    among: Set<usize>,
    f: spec_fn(usize) -> nat,
    n: int,
)
    requires
        0 <= n <= usize::MAX,
        keys.no_duplicates(),
        forall|v: usize| keys.contains(v) <==> among.contains(v) && v < n,
    ensures
        sum_over(keys, f) == sum_below(among, f, n),
    decreases n,
{
    if n == 0 {
        if keys.len() > 0 {
            assert(keys.contains(keys[0]));
        }
    } else {
        let w = (n - 1) as usize;
        if keys.contains(w) {
            let i = choose|i: int| 0 <= i < keys.len() && keys[i] == w;
            let rest = keys.remove(i);
            assert forall|a: int, b: int| 0 <= a < rest.len() && 0 <= b < rest.len() && a != b implies rest[a]
                != rest[b] by {
                let a0 = if a < i {
                    a
                } else {
                    a + 1
                };
                let b0 = if b < i {
                    b
                } else {
                    b + 1
                };
                assert(rest[a] == keys[a0] && rest[b] == keys[b0]);
            }
            assert forall|v: usize| rest.contains(v) <==> among.contains(v) && v < n - 1 by {
                if rest.contains(v) {
                    let a = choose|a: int| 0 <= a < rest.len() && rest[a] == v;
                    let a0 = if a < i {
                        a
                    } else {
                        a + 1
                    };
                    assert(keys[a0] == v);
                    assert(keys.contains(v));
                    assert(a0 != i);
                }
                if among.contains(v) && v < n - 1 {
                    assert(keys.contains(v));
                    let a0 = choose|a0: int| 0 <= a0 < keys.len() && keys[a0] == v;
                    let a = if a0 < i {
                        a0
                    } else {
                        a0 - 1
                    };
                    assert(rest[a] == v);
                }
            }
            lemma_sum_any_order(rest, among, f, n - 1);
            lemma_sum_without(keys, f, i);
        } else {
            assert forall|v: usize| keys.contains(v) <==> among.contains(v) && v < n - 1 by {
                if keys.contains(v) {
                    assert(v != w);
                }
            }
            lemma_sum_any_order(keys, among, f, n - 1);
        }
    }
}

} // verus!
