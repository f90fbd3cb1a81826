use vstd::prelude::*;

use crate::order::{
    in_order, insert_by, lemma_insert_by_at, lemma_sort_by_in_order, sort_by, total_preorder,
};
use crate::priority::{calculate_priority, priority_score};
use crate::search::Candidate;

verus! {

/// What ranks a candidate: its class weight, its score key, and its name.
pub type RankItem = (nat, nat, Seq<char>);

/// The ranking data of candidate `c` whose score key is `key`.
pub open spec fn rank_item(c: Candidate, key: u32) -> RankItem {
    (priority_score(c.priority), key as nat, c.name@)
}

/// The ranking data of each candidate, in order.
pub open spec fn rank_items(cs: Seq<Candidate>, keys: Seq<u32>) -> Seq<RankItem> {
    Seq::new(cs.len(), |i: int| rank_item(cs[i], keys[i]))
}

/// Holds where `a` may stay ahead of `b`: a better class, or the same class
/// and a score key at least as high.
pub open spec fn ranks_ahead() -> spec_fn(RankItem, RankItem) -> bool {
    |a: RankItem, b: RankItem| a.0 > b.0 || (a.0 == b.0 && a.1 >= b.1)
}

/// The names of the best `limit` candidates, best first; candidates that tie
/// keep their order.
pub open spec fn ranked(cs: Seq<Candidate>, keys: Seq<u32>, limit: nat) -> Seq<Seq<char>> {
    let s = sort_by(rank_items(cs, keys), ranks_ahead());
    let n = if limit < s.len() {
        limit as int
    } else {
        s.len() as int
    };
    s.take(n).map_values(|x: RankItem| x.2)
}

/// Sorting keeps the length.
pub proof fn lemma_sort_by_len<A>(s: Seq<A>, ahead: spec_fn(A, A) -> bool)
    ensures
        sort_by(s, ahead).len() == s.len(),
    decreases s.len(),
{
    if s.len() > 0 {
        lemma_sort_by_len(s.drop_last(), ahead);
        lemma_insert_by_len(sort_by(s.drop_last(), ahead), s.last(), ahead);
    }
}

proof fn lemma_insert_by_len<A>(s: Seq<A>, x: A, ahead: spec_fn(A, A) -> bool)
    ensures
        insert_by(s, x, ahead).len() == s.len() + 1,
    decreases s.len(),
{
    if s.len() > 0 && !ahead(s.last(), x) {
        lemma_insert_by_len(s.drop_last(), x, ahead);
    }
}

/// In the ranking, a candidate of a better class always comes ahead of one of
/// a worse class, whatever their scores.
pub proof fn lemma_ranked_by_class(cs: Seq<Candidate>, keys: Seq<u32>)
    ensures
        ({
            let s = sort_by(rank_items(cs, keys), ranks_ahead());
            forall|i: int, j: int| 0 <= i < j < s.len() ==> s[i].0 >= s[j].0
        }),
{
    let ahead = ranks_ahead();
    assert(total_preorder(ahead));
    lemma_sort_by_in_order(rank_items(cs, keys), ahead);
    let s = sort_by(rank_items(cs, keys), ahead);
    assert forall|i: int, j: int| 0 <= i < j < s.len() implies s[i].0 >= s[j].0 by {
        assert(ahead(s[i], s[j]));
    }
}

/// Ranks candidates by class, then by score key (higher first), keeping the
/// order of ties, and returns the names of the first `limit`. `keys[i]` is the
/// score key of `cands[i]`.
pub fn rank_candidates(cands: &Vec<Candidate>, keys: &Vec<u32>, limit: usize) -> (r: Vec<String>)
    requires
        keys@.len() == cands@.len(),
    ensures
        r@.map_values(|s: String| s@) == ranked(cands@, keys@, limit as nat),
{
    let ghost items = rank_items(cands@, keys@);
    let mut pr: Vec<u8> = Vec::new();
    let mut ks: Vec<u32> = Vec::new();
    let mut ix: Vec<usize> = Vec::new();
    let mut i: usize = 0;
    assert(Seq::<RankItem>::new(0, |j: int| (pr@[j] as nat, ks@[j] as nat, cands@[ix@[j] as int].name@))
        =~= sort_by(items.take(0), ranks_ahead()));
    while i < cands.len()
        invariant
            i <= cands@.len(),
            keys@.len() == cands@.len(),
            items == rank_items(cands@, keys@),
            pr@.len() == i,
            ks@.len() == i,
            ix@.len() == i,
            forall|j: int| 0 <= j < i ==> (#[trigger] ix@[j]) < cands@.len(),
            Seq::new(
                i as nat,
                |j: int| (pr@[j] as nat, ks@[j] as nat, cands@[ix@[j] as int].name@),
            ) == sort_by(items.take(i as int), ranks_ahead()),
        decreases cands@.len() - i,
    {
        let ghost s = Seq::new(
            i as nat,
            |j: int| (pr@[j] as nat, ks@[j] as nat, cands@[ix@[j] as int].name@),
        );
        let xp = calculate_priority(cands[i].priority);
        let xk = keys[i];
        let ghost x = items[i as int];
        assert(x == (xp as nat, xk as nat, cands@[i as int].name@));
        let mut p: usize = i;
        while p > 0 && !(pr[p - 1] > xp || (pr[p - 1] == xp && ks[p - 1] >= xk))
            invariant
                p <= i,
                i < cands@.len(),
                pr@.len() == i,
                ks@.len() == i,
                forall|j: int| p <= j < i ==> !(ranks_ahead())(#[trigger] s[j], x),
                s == Seq::new(
                    i as nat,
                    |j: int| (pr@[j] as nat, ks@[j] as nat, cands@[ix@[j] as int].name@),
                ),
                x == (xp as nat, xk as nat, cands@[i as int].name@),
            decreases p,
        {
            p = p - 1;
        }
        proof {
            lemma_insert_by_at(s, x, ranks_ahead(), p as int);
            assert(items.take(i + 1).drop_last() =~= items.take(i as int));
        }
        pr.insert(p, xp);
        ks.insert(p, xk);
        ix.insert(p, i);
        proof {
            assert(Seq::new(
                (i + 1) as nat,
                |j: int| (pr@[j] as nat, ks@[j] as nat, cands@[ix@[j] as int].name@),
            ) =~= s.insert(p as int, x));
        }
        i = i + 1;
    }
    let ghost sorted = sort_by(items, ranks_ahead());
    proof {
        assert(items.take(i as int) =~= items);
        lemma_sort_by_len(items, ranks_ahead());
    }
    let n: usize = if limit < i {
        limit
    } else {
        i
    };
    let mut out: Vec<String> = Vec::new();
    let mut j: usize = 0;
    while j < n
        invariant
            j <= n,
            n <= i,
            out@.len() == j,
            i == cands@.len(),
            ix@.len() == i,
            pr@.len() == i,
            ks@.len() == i,
            forall|k: int| 0 <= k < i ==> (#[trigger] ix@[k]) < cands@.len(),
            sorted.len() == i,
            Seq::new(
                i as nat,
                |k: int| (pr@[k] as nat, ks@[k] as nat, cands@[ix@[k] as int].name@),
            ) == sorted,
            out@.map_values(|s: String| s@) == sorted.take(j as int).map_values(
                |x: RankItem| x.2,
            ),
        decreases n - j,
    {
        let ghost before = out@;
        out.push(cands[ix[j]].name.clone());
        proof {
            assert(out@ == before.push(cands@[ix@[j as int] as int].name));
            let lhs = out@.map_values(|s: String| s@);
            let rhs = sorted.take(j + 1).map_values(|x: RankItem| x.2);
            let prev = sorted.take(j as int).map_values(|x: RankItem| x.2);
            assert(before.map_values(|s: String| s@) == prev);
            assert forall|k: int| 0 <= k < j + 1 implies lhs[k] == rhs[k] by {
                if k < j {
                    assert(before.map_values(|s: String| s@)[k] == prev[k]);
                    assert(out@[k] == before[k]);
                }
            }
            assert(lhs.len() == rhs.len());
            assert(sorted[j as int].2 == cands@[ix@[j as int] as int].name@);
            assert(out@.map_values(|s: String| s@) =~= sorted.take(j + 1).map_values(
                |x: RankItem| x.2,
            ));
        }
        j = j + 1;
    }
    out
}

} // verus!
