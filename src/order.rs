use vstd::prelude::*;

verus! {

/// Inserts `x` into `s` after every element that may stay ahead of it, counted
/// from the end: on a list sorted by `ahead`, a stable insertion.
pub open spec fn insert_by<A>(s: Seq<A>, x: A, ahead: spec_fn(A, A) -> bool) -> Seq<A>
    decreases s.len(),
{
    if s.len() == 0 {
        seq![x]
    } else if ahead(s.last(), x) {
        s.push(x)
    } else {
        insert_by(s.drop_last(), x, ahead).push(s.last())
    }
}

/// The stable sort of `s` in which `a` stays ahead of `b` where `ahead(a, b)`.
pub open spec fn sort_by<A>(s: Seq<A>, ahead: spec_fn(A, A) -> bool) -> Seq<A>
    decreases s.len(),
{
    if s.len() == 0 {
        s
    } else {
        insert_by(sort_by(s.drop_last(), ahead), s.last(), ahead)
    }
}

/// Where no element from `p` on may stay ahead of `x`, the insertion happens
/// within the first `p` elements.
pub proof fn lemma_insert_by_split<A>(s: Seq<A>, x: A, ahead: spec_fn(A, A) -> bool, p: int)
    requires
        0 <= p <= s.len(),
        forall|j: int| p <= j < s.len() ==> !ahead(#[trigger] s[j], x),
    ensures
        insert_by(s, x, ahead) == insert_by(s.take(p), x, ahead) + s.skip(p),
    decreases s.len(),
{
    if p == s.len() {
        assert(s.take(p) =~= s);
        assert(s.skip(p) =~= Seq::<A>::empty());
        assert(insert_by(s, x, ahead) + Seq::<A>::empty() =~= insert_by(s, x, ahead));
    } else {
        let d = s.drop_last();
        assert(!ahead(s[s.len() - 1], x));
        assert forall|j: int| p <= j < d.len() implies !ahead(#[trigger] d[j], x) by {
            assert(d[j] == s[j]);
        }
        lemma_insert_by_split(d, x, ahead, p);
        assert(d.take(p) =~= s.take(p));
        assert(s.skip(p) =~= d.skip(p).push(s.last()));
        assert((insert_by(s.take(p), x, ahead) + d.skip(p)).push(s.last()) =~= insert_by(
            s.take(p),
            x,
            ahead,
        ) + s.skip(p));
    }
}

/// The insertion as a position: `x` goes in at `p`, after the elements that
/// may stay ahead of it.
pub proof fn lemma_insert_by_at<A>(s: Seq<A>, x: A, ahead: spec_fn(A, A) -> bool, p: int)
    requires
        0 <= p <= s.len(),
        forall|j: int| p <= j < s.len() ==> !ahead(#[trigger] s[j], x),
        p > 0 ==> ahead(s[p - 1], x),
    ensures
        insert_by(s, x, ahead) == s.insert(p, x),
{
    lemma_insert_by_split(s, x, ahead, p);
    let t = s.take(p);
    if p == 0 {
        assert(insert_by(t, x, ahead) == seq![x]);
    } else {
        assert(t.last() == s[p - 1]);
        assert(insert_by(t, x, ahead) == t.push(x));
    }
    assert(insert_by(t, x, ahead) + s.skip(p) =~= s.insert(p, x));
}

/// Each element of `s` may stay ahead of every later one.
pub open spec fn in_order<A>(s: Seq<A>, ahead: spec_fn(A, A) -> bool) -> bool {
    forall|i: int, j: int| 0 <= i < j < s.len() ==> ahead(#[trigger] s[i], #[trigger] s[j])
}

/// `ahead` is a total preorder: any two elements compare, and it is transitive.
pub open spec fn total_preorder<A>(ahead: spec_fn(A, A) -> bool) -> bool {
    &&& forall|a: A, b: A| #[trigger] ahead(a, b) || #[trigger] ahead(b, a)
    &&& forall|a: A, b: A, c: A|
        #[trigger] ahead(a, b) && #[trigger] ahead(b, c) ==> #[trigger] ahead(a, c)
}

pub proof fn lemma_insert_by_contains<A>(s: Seq<A>, x: A, ahead: spec_fn(A, A) -> bool, y: A)
    ensures
        insert_by(s, x, ahead).contains(y) <==> (s.contains(y) || y == x),
    decreases s.len(),
{
    if s.len() == 0 {
        assert(seq![x][0] == x);
        if seq![x].contains(y) {
            let i = choose|i: int| 0 <= i < 1 && seq![x][i] == y;
        }
    } else {
        let d = s.drop_last();
        assert(s =~= d.push(s.last()));
        lemma_contains_push(d, s.last(), y);
        if ahead(s.last(), x) {
            lemma_contains_push(s, x, y);
        } else {
            lemma_insert_by_contains(d, x, ahead, y);
            lemma_contains_push(insert_by(d, x, ahead), s.last(), y);
        }
    }
}

pub proof fn lemma_contains_push<A>(s: Seq<A>, x: A, t: A)
    ensures
        s.push(x).contains(t) <==> (s.contains(t) || x == t),
{
    if s.contains(t) {
        let i = choose|i: int| 0 <= i < s.len() && s[i] == t;
        assert(s.push(x)[i] == t);
    }
    if x == t {
        assert(s.push(x)[s.len() as int] == t);
    }
    if s.push(x).contains(t) {
        let i = choose|i: int| 0 <= i < s.len() + 1 && s.push(x)[i] == t;
        if i < s.len() {
            assert(s[i] == t);
        }
    }
}

proof fn lemma_insert_by_in_order<A>(s: Seq<A>, x: A, ahead: spec_fn(A, A) -> bool)
    requires
        in_order(s, ahead),
        total_preorder(ahead),
    ensures
        in_order(insert_by(s, x, ahead), ahead),
    decreases s.len(),
{
    if s.len() == 0 {
        assert(insert_by(s, x, ahead) == seq![x]);
    } else {
        let d = s.drop_last();
        let last = s.last();
        assert(s =~= d.push(last));
        assert(in_order(d, ahead)) by {
            assert forall|i: int, j: int| 0 <= i < j < d.len() implies ahead(
                #[trigger] d[i],
                #[trigger] d[j],
            ) by {
                assert(d[i] == s[i] && d[j] == s[j]);
            }
        }
        if ahead(last, x) {
            let r = s.push(x);
            assert forall|i: int, j: int| 0 <= i < j < r.len() implies ahead(
                #[trigger] r[i],
                #[trigger] r[j],
            ) by {
                if j == s.len() {
                    if i < s.len() - 1 {
                        assert(ahead(s[i], s[s.len() - 1]));
                    }
                } else {
                    assert(r[i] == s[i] && r[j] == s[j]);
                }
            }
        } else {
            lemma_insert_by_in_order(d, x, ahead);
            let m = insert_by(d, x, ahead);
            let r = m.push(last);
            assert(ahead(x, last));
            assert forall|i: int, j: int| 0 <= i < j < r.len() implies ahead(
                #[trigger] r[i],
                #[trigger] r[j],
            ) by {
                if j == m.len() {
                    let y = m[i];
                    assert(m.contains(y));
                    lemma_insert_by_contains(d, x, ahead, y);
                    if y != x {
                        let k = choose|k: int| 0 <= k < d.len() && d[k] == y;
                        assert(s[k] == y);
                        assert(ahead(s[k], s[s.len() - 1]));
                    }
                } else {
                    assert(r[i] == m[i] && r[j] == m[j]);
                }
            }
        }
    }
}

/// Sorting by a total preorder puts the elements in order.
pub proof fn lemma_sort_by_in_order<A>(s: Seq<A>, ahead: spec_fn(A, A) -> bool)
    requires
        total_preorder(ahead),
    ensures
        in_order(sort_by(s, ahead), ahead),
    decreases s.len(),
{
    if s.len() > 0 {
        lemma_sort_by_in_order(s.drop_last(), ahead);
        lemma_insert_by_in_order(sort_by(s.drop_last(), ahead), s.last(), ahead);
    }
}

} // verus!
