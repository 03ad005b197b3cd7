//! Dictionary order on sequences of characters.

use vstd::prelude::*;

verus! {

/// `a` comes before `b` in dictionary order: at the first place where the two
/// differ `a` has the smaller character, or `a` ends there and `b` goes on.
pub open spec fn precedes(a: Seq<char>, b: Seq<char>) -> bool
    decreases a.len(),
{
    if b.len() == 0 {
        false
    } else if a.len() == 0 {
        true
    } else if a[0] != b[0] {
        a[0] < b[0]
    } else {
        precedes(a.drop_first(), b.drop_first())
    }
}

/// Each entry of `list` comes before all that follow it.
pub open spec fn ascending(list: Seq<Seq<char>>) -> bool {
    forall|i: int, j: int|
        0 <= i < j < list.len() ==> precedes(#[trigger] list[i], #[trigger] list[j])
}

/// What begins a longer sequence comes before it.
pub proof fn lemma_prefix_precedes(a: Seq<char>, b: Seq<char>)
    requires
        a.is_prefix_of(b),
        a.len() < b.len(),
    ensures
        precedes(a, b),
    decreases a.len(),
{
    if a.len() > 0 {
        lemma_prefix_precedes(a.drop_first(), b.drop_first());
    }
}

/// Of two sequences that agree on their first `n` characters, the one with
/// the smaller character at place `n` comes first.
pub proof fn lemma_first_difference(a: Seq<char>, b: Seq<char>, n: int)
    requires
        0 <= n < a.len(),
        n < b.len(),
        a.take(n) == b.take(n),
        a[n] < b[n],
    ensures
        precedes(a, b),
    decreases n,
{
    if n > 0 {
        assert(a[0] == a.take(n)[0]);
        assert(a.drop_first().take(n - 1) =~= a.take(n).drop_first());
        assert(b.drop_first().take(n - 1) =~= b.take(n).drop_first());
        lemma_first_difference(a.drop_first(), b.drop_first(), n - 1);
    }
}

/// Nothing comes before itself.
pub proof fn lemma_precedes_irreflexive(a: Seq<char>)
    ensures
        !precedes(a, a),
    decreases a.len(),
{
    if a.len() > 0 {
        lemma_precedes_irreflexive(a.drop_first());
    }
}

/// Dictionary order is transitive.
pub proof fn lemma_precedes_transitive(a: Seq<char>, b: Seq<char>, c: Seq<char>)
    requires
        precedes(a, b),
        precedes(b, c),
    ensures
        precedes(a, c),
    decreases a.len(),
{
    if a.len() > 0 && a[0] == b[0] && b[0] == c[0] {
        lemma_precedes_transitive(a.drop_first(), b.drop_first(), c.drop_first());
    }
}

/// Two ascending lists with the same entries are the same list.
pub proof fn lemma_ascending_unique(x: Seq<Seq<char>>, y: Seq<Seq<char>>)
    requires
        ascending(x),
        ascending(y),
        forall|k: Seq<char>| x.contains(k) <==> y.contains(k),
    ensures
        x == y,
    decreases x.len(),
{
    if x.len() == 0 {
        if y.len() > 0 {
            assert(y.contains(y[0]));
        }
    } else {
        assert(x.contains(x[0]));
        let j = choose|j: int| 0 <= j < y.len() && y[j] == x[0];
        assert(y.contains(y[0]));
        let i = choose|i: int| 0 <= i < x.len() && x[i] == y[0];
        if j > 0 {
            // y[0] comes before y[j], which is x[0]; yet y[0] is x[i], and
            // so does not come before x[0].
            if i > 0 {
                lemma_precedes_transitive(x[0], x[i], x[0]);
            }
            lemma_precedes_irreflexive(x[0]);
        }
        let xs = x.drop_first();
        let ys = y.drop_first();
        assert(ascending(xs));
        assert(ascending(ys));
        assert forall|k: Seq<char>| xs.contains(k) <==> ys.contains(k) by {
            if xs.contains(k) {
                let a = choose|a: int| 0 <= a < xs.len() && xs[a] == k;
                assert(x.contains(k));
                let b = choose|b: int| 0 <= b < y.len() && y[b] == k;
                if b == 0 {
                    lemma_precedes_irreflexive(k);
                }
                assert(ys[b - 1] == k);
            }
            if ys.contains(k) {
                let b = choose|b: int| 0 <= b < ys.len() && ys[b] == k;
                assert(y.contains(k));
                let a = choose|a: int| 0 <= a < x.len() && x[a] == k;
                if a == 0 {
                    lemma_precedes_irreflexive(k);
                }
                assert(xs[a - 1] == k);
            }
        }
        lemma_ascending_unique(xs, ys);
        assert(x =~= y) by {
            assert forall|a: int| 0 <= a < x.len() implies x[a] == y[a] by {
                if a > 0 {
                    assert(x[a] == xs[a - 1]);
                }
            }
        }
    }
}

} // verus!
