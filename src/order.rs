//! Listings in a stated order: a total preorder on rows, and a sort that
//! keeps every row.

use vstd::prelude::*;
use vstd::multiset::Multiset;
use vstd::string::StrSliceExecFns;

verus! {

broadcast use vstd::seq_lib::group_to_multiset_ensures;

/// A row type with the order in which listings show it.
pub trait Ranked: Sized {
    /// `self` may be shown before `other`.
    spec fn goes_before(&self, other: &Self) -> bool;

    proof fn lemma_total(a: &Self, b: &Self)
        ensures
            a.goes_before(b) || b.goes_before(a),
    ;

    proof fn lemma_transitive(a: &Self, b: &Self, c: &Self)
        requires
            a.goes_before(b),
            b.goes_before(c),
        ensures
            a.goes_before(c),
    ;

    fn may_go_before(&self, other: &Self) -> (r: bool)
        ensures
            r == self.goes_before(other),
    ;
}

/// Every row may be shown before each later one.
pub open spec fn is_ranked<T: Ranked>(s: Seq<T>) -> bool {
    forall|i: int, j: int| 0 <= i < j < s.len() ==> #[trigger] s[i].goes_before(&s[j])
}

proof fn lemma_insert_keeps_rank<T: Ranked>(out: Seq<T>, k: int, x: T)
    requires
        is_ranked(out),
        0 <= k <= out.len(),
        forall|m: int| 0 <= m < k ==> #[trigger] out[m].goes_before(&x),
        k < out.len() ==> !out[k].goes_before(&x),
    ensures
        is_ranked(out.insert(k, x)),
{
    let n = out.insert(k, x);
    out.insert_ensures(k, x);
    assert forall|i: int, j: int| 0 <= i < j < n.len() implies #[trigger] n[i].goes_before(&n[j]) by {
        if j < k {
            assert(n[i] == out[i] && n[j] == out[j]);
        } else if j == k {
            assert(n[i] == out[i]);
        } else if i < k {
            assert(n[i] == out[i] && n[j] == out[j - 1]);
        } else if i == k {
            assert(n[j] == out[j - 1]);
            T::lemma_total(&out[k], &x);
            if j - 1 > k {
                assert(out[k].goes_before(&out[j - 1]));
                T::lemma_transitive(&x, &out[k], &out[j - 1]);
            }
        } else {
            assert(n[i] == out[i - 1] && n[j] == out[j - 1]);
        }
    }
}

/// Sorts rows into their listing order, keeping every row. Rows that rank
/// alike keep the order they came in.
pub fn sort_ranked<T: Ranked>(rows: Vec<T>) -> (r: Vec<T>)
    ensures
        r@.to_multiset() == rows@.to_multiset(),
        is_ranked(r@),
{
    let ghost all = rows@;
    let mut rest = rows;
    let mut out: Vec<T> = Vec::new();
    proof {
        assert(out@.to_multiset() =~= Multiset::empty());
        assert(out@.to_multiset().add(rest@.to_multiset()) =~= all.to_multiset());
    }
    while rest.len() > 0
        invariant
            out@.to_multiset().add(rest@.to_multiset()) == all.to_multiset(),
            is_ranked(out@),
        decreases rest.len(),
    {
        let ghost before = rest@;
        let x = rest.remove(0);
        let mut k: usize = 0;
        while k < out.len() && out[k].may_go_before(&x)
            invariant
                k <= out.len(),
                forall|m: int| 0 <= m < k ==> #[trigger] out@[m].goes_before(&x),
            decreases out.len() - k,
        {
            k = k + 1;
        }
        proof {
            lemma_insert_keeps_rank(out@, k as int, x);
            assert(before.contains(x)) by {
                assert(before[0] == x);
            }
        }
        let ghost old_out = out@;
        out.insert(k, x);
        proof {
            assert(out@.to_multiset() == old_out.to_multiset().insert(x));
            assert(rest@.to_multiset() == before.to_multiset().remove(x));
            assert(out@.to_multiset().add(rest@.to_multiset()) =~= old_out.to_multiset().add(
                before.to_multiset(),
            ));
        }
    }
    out
}

/// Text order: by code point, a prefix first. This is the order of the
/// UTF-8 bytes.
pub open spec fn text_at_or_before(a: Seq<char>, b: Seq<char>) -> bool
    decreases a.len(),
{
    if a.len() == 0 {
        true
    } else if b.len() == 0 {
        false
    } else if (a[0] as u32) != (b[0] as u32) {
        (a[0] as u32) < (b[0] as u32)
    } else {
        text_at_or_before(a.drop_first(), b.drop_first())
    }
}

/// Text order is total.
pub proof fn lemma_text_total(a: Seq<char>, b: Seq<char>)
    ensures
        text_at_or_before(a, b) || text_at_or_before(b, a),
    decreases a.len(),
{
    if a.len() > 0 && b.len() > 0 {
        lemma_text_total(a.drop_first(), b.drop_first());
    }
}

/// Text order is transitive.
pub proof fn lemma_text_transitive(a: Seq<char>, b: Seq<char>, c: Seq<char>)
    requires
        text_at_or_before(a, b),
        text_at_or_before(b, c),
    ensures
        text_at_or_before(a, c),
    decreases a.len(),
{
    if a.len() > 0 && b.len() > 0 && c.len() > 0 && (a[0] as u32) == (b[0] as u32) && (b[0] as u32) == (c[0] as u32) {
        lemma_text_transitive(a.drop_first(), b.drop_first(), c.drop_first());
    }
}

pub fn text_is_at_or_before(a: &str, b: &str) -> (r: bool)
    ensures
        r == text_at_or_before(a@, b@),
{
    let la = a.unicode_len();
    let lb = b.unicode_len();
    let mut i: usize = 0;
    assert(a@.skip(0) =~= a@);
    assert(b@.skip(0) =~= b@);
    while i < la && i < lb && (a.get_char(i) as u32) == (b.get_char(i) as u32)
        invariant
            i <= la,
            i <= lb,
            la == a@.len(),
            lb == b@.len(),
            text_at_or_before(a@, b@) == text_at_or_before(a@.skip(i as int), b@.skip(i as int)),
        decreases la - i,
    {
        assert(a@.skip(i as int).drop_first() =~= a@.skip(i + 1));
        assert(b@.skip(i as int).drop_first() =~= b@.skip(i + 1));
        i = i + 1;
    }
    if i == la {
        true
    } else if i == lb {
        false
    } else {
        let ca = a.get_char(i);
        let cb = b.get_char(i);
        (ca as u32) < (cb as u32)
    }
}

} // verus!
