//! Facts about tables held as sequences of rows.

use vstd::prelude::*;

verus! {

/// `rel` holds of every row and each row after it.
pub open spec fn pairwise<A>(s: Seq<A>, rel: spec_fn(A, A) -> bool) -> bool {
    forall|i: int, j: int| #![trigger s[i], s[j]] 0 <= i < j < s.len() ==> rel(s[i], s[j])
}

/// Dropping rows keeps a pairwise property.
pub proof fn lemma_filter_pairwise<A>(s: Seq<A>, p: spec_fn(A) -> bool, rel: spec_fn(A, A) -> bool)
    requires
        pairwise(s, rel),
    ensures
        pairwise(s.filter(p), rel),
    decreases s.len(),
{
    reveal(Seq::filter);
    if s.len() > 0 {
        let d = s.drop_last();
        assert(pairwise(d, rel)) by {
            assert forall|i: int, j: int| 0 <= i < j < d.len() implies rel(d[i], d[j]) by {
                assert(d[i] == s[i] && d[j] == s[j]);
            }
        }
        lemma_filter_pairwise(d, p, rel);
        let f = d.filter(p);
        if p(s.last()) {
            lemma_filter_members(d, p);
            let g = f.push(s.last());
            assert forall|i: int, j: int| 0 <= i < j < g.len() implies rel(g[i], g[j]) by {
                if j == f.len() {
                    assert(d.contains(f[i]));
                    let k = choose|k: int| 0 <= k < d.len() && d[k] == f[i];
                    assert(s[k] == f[i]);
                    assert(g[j] == s[s.len() - 1]);
                } else {
                    assert(g[i] == f[i] && g[j] == f[j]);
                }
            }
        }
    }
}

/// What a filter keeps: rows of the table that meet the predicate, and all of them.
pub proof fn lemma_filter_members<A>(s: Seq<A>, p: spec_fn(A) -> bool)
    ensures
        forall|i: int| 0 <= i < s.filter(p).len() ==> p(#[trigger] s.filter(p)[i]) && s.contains(s.filter(p)[i]),
        forall|i: int| 0 <= i < s.len() && p(#[trigger] s[i]) ==> s.filter(p).contains(s[i]),
{
    #[allow(deprecated)]
    s.filter_lemma(p);
    assert forall|i: int| 0 <= i < s.filter(p).len() implies s.contains(s.filter(p)[i]) by {
        lemma_filter_kept_in(s, p, i);
    }
}

proof fn lemma_filter_kept_in<A>(s: Seq<A>, p: spec_fn(A) -> bool, i: int)
    requires
        0 <= i < s.filter(p).len(),
    ensures
        s.contains(s.filter(p)[i]),
    decreases s.len(),
{
    reveal(Seq::filter);
    if s.len() > 0 {
        let d = s.drop_last();
        let f = d.filter(p);
        if i < f.len() {
            lemma_filter_kept_in(d, p, i);
            let k = choose|k: int| 0 <= k < d.len() && d[k] == f[i];
            assert(s[k] == d[k]);
            if p(s.last()) {
                assert(s.filter(p)[i] == f[i]);
            }
        } else {
            assert(s.filter(p)[i] == s[s.len() - 1]);
        }
    }
}

/// The rows of `rows` for which `keep` says yes, in their order.
pub fn keep_where<T, F: Fn(&T) -> bool>(rows: Vec<T>, keep: F, Ghost(p): Ghost<spec_fn(T) -> bool>) -> (r: Vec<T>)
    requires
        forall|x: &T| #[trigger] keep.requires((x,)),
        forall|x: &T, b: bool| keep.ensures((x,), b) ==> b == p(*x),
    ensures
        r@ == rows@.filter(p),
{
    let ghost all = rows@;
    let mut rest = rows;
    let mut kept: Vec<T> = Vec::new();
    let ghost mut n: int = 0;
    proof {
        assert(all.take(0) =~= Seq::<T>::empty());
        reveal(Seq::filter);
        assert(rest@ =~= all.skip(0));
    }
    while rest.len() > 0
        invariant
            0 <= n <= all.len(),
            rest@ == all.skip(n),
            kept@ == all.take(n).filter(p),
            forall|x: &T| #[trigger] keep.requires((x,)),
            forall|x: &T, b: bool| keep.ensures((x,), b) ==> b == p(*x),
        decreases rest.len(),
    {
        let x = rest.remove(0);
        proof {
            assert(x == all[n]);
            assert(all.take(n + 1) =~= all.take(n).push(x));
            all.take(n).lemma_filter_push(x, p);
            assert(rest@ =~= all.skip(n + 1));
        }
        let yes = keep(&x);
        if yes {
            kept.push(x);
        }
        proof {
            n = n + 1;
        }
    }
    proof {
        assert(all.take(n) =~= all);
    }
    kept
}

/// `b` holds the rows of `a`, in place, and perhaps more after them.
pub open spec fn grows<A>(a: Seq<A>, b: Seq<A>) -> bool {
    a.len() <= b.len() && forall|i: int| 0 <= i < a.len() ==> #[trigger] b[i] == a[i]
}

/// A new row that stands in relation to every row keeps a pairwise property.
pub proof fn lemma_push_pairwise<A>(s: Seq<A>, x: A, rel: spec_fn(A, A) -> bool)
    requires
        pairwise(s, rel),
        forall|i: int| 0 <= i < s.len() ==> rel(#[trigger] s[i], x),
    ensures
        pairwise(s.push(x), rel),
{
    let t = s.push(x);
    assert forall|i: int, j: int| 0 <= i < j < t.len() implies rel(t[i], t[j]) by {
        assert(t[i] == s[i]);
        if j < s.len() {
            assert(t[j] == s[j]);
        }
    }
}

/// A row is kept exactly when it was there and meets the predicate.
pub proof fn lemma_filter_contains_iff<A>(s: Seq<A>, p: spec_fn(A) -> bool)
    ensures
        forall|x: A| #[trigger] s.filter(p).contains(x) <==> s.contains(x) && p(x),
{
    lemma_filter_members(s, p);
    assert forall|x: A| #[trigger] s.filter(p).contains(x) <==> s.contains(x) && p(x) by {
        if s.filter(p).contains(x) {
            let i = choose|i: int| 0 <= i < s.filter(p).len() && s.filter(p)[i] == x;
        }
        if s.contains(x) && p(x) {
            let i = choose|i: int| 0 <= i < s.len() && s[i] == x;
        }
    }
}

/// Replacing one row keeps a pairwise property when the new row stands in
/// relation to every other row, either way round.
pub proof fn lemma_update_pairwise<A>(s: Seq<A>, k: int, x: A, rel: spec_fn(A, A) -> bool)
    requires
        pairwise(s, rel),
        0 <= k < s.len(),
        forall|i: int| 0 <= i < s.len() && i != k ==> rel(#[trigger] s[i], x) && rel(x, s[i]),
    ensures
        pairwise(s.update(k, x), rel),
{
    let t = s.update(k, x);
    assert forall|i: int, j: int| 0 <= i < j < t.len() implies rel(t[i], t[j]) by {
        if i != k && j != k {
            assert(t[i] == s[i] && t[j] == s[j]);
        } else if i == k {
            assert(t[j] == s[j]);
        } else {
            assert(t[i] == s[i]);
        }
    }
}

/// Growing twice is growing.
pub proof fn lemma_grows_trans<A>(a: Seq<A>, b: Seq<A>, c: Seq<A>)
    requires
        grows(a, b),
        grows(b, c),
    ensures
        grows(a, c),
{
    assert forall|i: int| 0 <= i < a.len() implies #[trigger] c[i] == a[i] by {
        assert(b[i] == a[i]);
        assert(c[i] == b[i]);
    }
}

/// Filtering by a weaker predicate first changes nothing.
pub proof fn lemma_filter_filter<A>(s: Seq<A>, p: spec_fn(A) -> bool, q: spec_fn(A) -> bool)
    requires
        forall|x: A| #[trigger] p(x) ==> q(x),
    ensures
        s.filter(q).filter(p) == s.filter(p),
    decreases s.len(),
{
    reveal(Seq::filter);
    if s.len() > 0 {
        lemma_filter_filter(s.drop_last(), p, q);
        let d = s.drop_last();
        if q(s.last()) {
            d.filter(q).lemma_filter_push(s.last(), p);
        }
    }
}

} // verus!
