//! Facts about one sequence beginning another.

use vstd::prelude::*;

verus! {

/// What begins with `p` is `p` followed by the rest.
pub proof fn lemma_prefix_split<A>(p: Seq<A>, s: Seq<A>)
    requires
        p.is_prefix_of(s),
    ensures
        s == p + s.skip(p.len() as int),
{
}

/// `p` begins `p + t`, and what follows it there is `t`.
pub proof fn lemma_prefix_of_concat<A>(p: Seq<A>, t: Seq<A>)
    ensures
        p.is_prefix_of(p + t),
        (p + t).skip(p.len() as int) == t,
{
}

/// `p` with `a` after it begins `s` exactly when `p` begins `s` and `a` comes next.
pub proof fn lemma_longer_prefix<A>(p: Seq<A>, a: A, s: Seq<A>)
    ensures
        p.push(a).is_prefix_of(s) <==> p.is_prefix_of(s) && s.len() > p.len() && s[p.len() as int]
            == a,
{
    let q = p.push(a);
    if q.is_prefix_of(s) {
        assert(p =~= s.subrange(0, p.len() as int)) by {
            assert forall|i: int| 0 <= i < p.len() implies p[i] == s[i] by {
                assert(q[i] == s.subrange(0, q.len() as int)[i]);
            }
        }
        assert(q[p.len() as int] == s.subrange(0, q.len() as int)[p.len() as int]);
    }
    if p.is_prefix_of(s) && s.len() > p.len() && s[p.len() as int] == a {
        assert(q =~= s.subrange(0, q.len() as int));
    }
}

} // verus!
