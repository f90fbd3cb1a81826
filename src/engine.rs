use vstd::prelude::*;

use crate::cache::StringCache;
use crate::index::{entries_of, names_unique, Document, Entry};
use crate::priority::MatchPriority;
use crate::order::lemma_contains_push;
use vstd::math::min;
use crate::text::{
    is_prefix, is_substring, lower_of, phonetic, phonetic_form, str_contains, str_starts_with,
    to_lowercase, views,
};

verus! {

/// At most the first `limit` elements of `s`.
pub open spec fn capped<A>(s: Seq<A>, limit: nat) -> Seq<A> {
    if limit < s.len() {
        s.take(limit as int)
    } else {
        s
    }
}

/// The views of a list of string slices.
pub open spec fn str_views(v: Seq<&str>) -> Seq<Seq<char>> {
    v.map_values(|s: &str| s@)
}

/// Keyword `kw` occurs in `text` with case ignored, or the keyword's phonetic
/// form occurs in the text's phonetic form (so a romanised keyword meets a
/// name in native script).
pub open spec fn keyword_in(text: Seq<char>, kw: Seq<char>) -> bool {
    ||| is_substring(lower_of(text), lower_of(kw))
    ||| is_substring(phonetic(text), phonetic(kw))
}

/// Every keyword occurs in the name.
pub open spec fn name_has_all(name: Seq<char>, kws: Seq<Seq<char>>) -> bool {
    forall|k: int| 0 <= k < kws.len() ==> keyword_in(name, #[trigger] kws[k])
}

/// Keyword `kw` occurs in the name or in some alias.
pub open spec fn doc_has(name: Seq<char>, aliases: Seq<Seq<char>>, kw: Seq<char>) -> bool {
    keyword_in(name, kw) || exists|a: int| 0 <= a < aliases.len() && keyword_in(#[trigger] aliases[a], kw)
}

/// Every keyword occurs in the name or in some alias.
pub open spec fn doc_has_all(name: Seq<char>, aliases: Seq<Seq<char>>, kws: Seq<Seq<char>>) -> bool {
    forall|k: int| 0 <= k < kws.len() ==> doc_has(name, aliases, #[trigger] kws[k])
}

/// The names of the documents whose name holds every keyword, in store order.
pub open spec fn name_pass(e: Seq<Entry>, kws: Seq<Seq<char>>) -> Seq<Seq<char>>
    decreases e.len(),
{
    if e.len() == 0 {
        Seq::empty()
    } else {
        let r = name_pass(e.drop_last(), kws);
        if name_has_all(e.last().0, kws) {
            r.push(e.last().0)
        } else {
            r
        }
    }
}

/// The names of the other documents whose name or aliases hold every keyword.
pub open spec fn alias_pass(e: Seq<Entry>, kws: Seq<Seq<char>>) -> Seq<Seq<char>>
    decreases e.len(),
{
    if e.len() == 0 {
        Seq::empty()
    } else {
        let r = alias_pass(e.drop_last(), kws);
        if !name_has_all(e.last().0, kws) && doc_has_all(e.last().0, e.last().1, kws) {
            r.push(e.last().0)
        } else {
            r
        }
    }
}

/// The result of an AND search: the name matches, then the other matches.
pub open spec fn and_results(e: Seq<Entry>, kws: Seq<Seq<char>>, limit: nat) -> Seq<Seq<char>> {
    capped(name_pass(e, kws) + alias_pass(e, kws), limit)
}

/// The lowercase text is query `q` or its phonetic form.
pub open spec fn exact_q(t: Seq<char>, q: Seq<char>) -> bool {
    lower_of(t) == q || lower_of(t) == phonetic(q)
}

/// The lowercase text begins with query `q` or its phonetic form.
pub open spec fn prefix_q(t: Seq<char>, q: Seq<char>) -> bool {
    is_prefix(lower_of(t), q) || is_prefix(lower_of(t), phonetic(q))
}

/// The lowercase text holds query `q` or its phonetic form, or the text's
/// phonetic form holds the query's.
pub open spec fn partial_q(t: Seq<char>, q: Seq<char>) -> bool {
    ||| is_substring(lower_of(t), q)
    ||| is_substring(lower_of(t), phonetic(q))
    ||| is_substring(phonetic(t), phonetic(q))
}

pub open spec fn exact_any(t: Seq<char>, qs: Seq<Seq<char>>) -> bool {
    exists|k: int| 0 <= k < qs.len() && exact_q(t, #[trigger] qs[k])
}

pub open spec fn prefix_any(t: Seq<char>, qs: Seq<Seq<char>>) -> bool {
    exists|k: int| 0 <= k < qs.len() && prefix_q(t, #[trigger] qs[k])
}

pub open spec fn partial_any(t: Seq<char>, qs: Seq<Seq<char>>) -> bool {
    exists|k: int| 0 <= k < qs.len() && partial_q(t, #[trigger] qs[k])
}

pub open spec fn exact_alias(al: Seq<Seq<char>>, qs: Seq<Seq<char>>) -> bool {
    exists|a: int| 0 <= a < al.len() && exact_any(#[trigger] al[a], qs)
}

pub open spec fn prefix_alias(al: Seq<Seq<char>>, qs: Seq<Seq<char>>) -> bool {
    exists|a: int| 0 <= a < al.len() && prefix_any(#[trigger] al[a], qs)
}

pub open spec fn partial_alias(al: Seq<Seq<char>>, qs: Seq<Seq<char>>) -> bool {
    exists|a: int| 0 <= a < al.len() && partial_any(#[trigger] al[a], qs)
}

/// The best class any query earns on a document.
pub open spec fn unified_class(name: Seq<char>, al: Seq<Seq<char>>, qs: Seq<Seq<char>>) -> Option<
    MatchPriority,
> {
    if exact_any(name, qs) {
        Some(MatchPriority::NameExact)
    } else if exact_alias(al, qs) {
        Some(MatchPriority::AliasExact)
    } else if prefix_any(name, qs) {
        Some(MatchPriority::NamePrefix)
    } else if prefix_alias(al, qs) {
        Some(MatchPriority::AliasPrefix)
    } else if partial_any(name, qs) {
        Some(MatchPriority::NamePartial)
    } else if partial_alias(al, qs) {
        Some(MatchPriority::AliasPartial)
    } else {
        None
    }
}

/// The matching documents in store order, each with the rank of its class.
pub open spec fn unified_matches(e: Seq<Entry>, qs: Seq<Seq<char>>) -> Seq<(Seq<char>, nat)>
    decreases e.len(),
{
    if e.len() == 0 {
        Seq::empty()
    } else {
        let r = unified_matches(e.drop_last(), qs);
        match unified_class(e.last().0, e.last().1, qs) {
            Some(c) => r.push((e.last().0, c.spec_rank())),
            None => r,
        }
    }
}

/// The names in `cs` whose rank is `rank`, in order.
pub open spec fn rank_group(cs: Seq<(Seq<char>, nat)>, rank: nat) -> Seq<Seq<char>>
    decreases cs.len(),
{
    if cs.len() == 0 {
        Seq::empty()
    } else {
        let r = rank_group(cs.drop_last(), rank);
        if cs.last().1 == rank {
            r.push(cs.last().0)
        } else {
            r
        }
    }
}

/// The names in `cs` of rank 1 up to `rank`, grouped by rank, best first.
pub open spec fn grouped(cs: Seq<(Seq<char>, nat)>, rank: nat) -> Seq<Seq<char>>
    decreases rank,
{
    if rank == 0 {
        Seq::empty()
    } else {
        grouped(cs, (rank - 1) as nat) + rank_group(cs, rank)
    }
}

/// The result of a unified search: the first `2 * limit` matching documents,
/// ordered by class, ties kept in store order, cut to `limit`.
pub open spec fn unified_results(e: Seq<Entry>, qs: Seq<Seq<char>>, limit: nat) -> Seq<Seq<char>> {
    capped(grouped(capped(unified_matches(e, qs), 2 * limit), 6), limit)
}

proof fn lemma_capped_push<A>(s: Seq<A>, x: A, limit: nat)
    ensures
        capped(s.push(x), limit) == (if s.len() < limit {
            capped(s, limit).push(x)
        } else {
            capped(s, limit)
        }),
        capped(s, limit).len() < limit <==> s.len() < limit,
{
    if s.len() >= limit {
        assert(s.push(x).take(limit as int) =~= s.take(limit as int));
    }
}

proof fn lemma_take_no_duplicates<A>(s: Seq<A>, n: int)
    requires
        s.no_duplicates(),
        0 <= n <= s.len(),
    ensures
        s.take(n).no_duplicates(),
{
    assert forall|i: int, j: int| 0 <= i < n && 0 <= j < n && i != j implies s.take(n)[i] != s.take(
        n,
    )[j] by {
        assert(s.take(n)[i] == s[i] && s.take(n)[j] == s[j]);
    }
}

proof fn lemma_concat_no_duplicates<A>(a: Seq<A>, b: Seq<A>)
    requires
        a.no_duplicates(),
        b.no_duplicates(),
        forall|x: A| a.contains(x) ==> !b.contains(x),
    ensures
        (a + b).no_duplicates(),
{
    let c = a + b;
    assert forall|i: int, j: int| 0 <= i < c.len() && 0 <= j < c.len() && i != j implies c[i]
        != c[j] by {
        if i < a.len() && j >= a.len() {
            assert(a.contains(c[i]));
            assert(b[j - a.len()] == c[j]);
        } else if j < a.len() && i >= a.len() {
            assert(a.contains(c[j]));
            assert(b[i - a.len()] == c[i]);
        } else if i >= a.len() {
            assert(c[i] == b[i - a.len()] && c[j] == b[j - a.len()]);
        }
    }
}

/// The first pass lists distinct names of documents whose name holds every
/// keyword.
proof fn lemma_name_pass(e: Seq<Entry>, kws: Seq<Seq<char>>)
    requires
        names_unique(e),
    ensures
        name_pass(e, kws).no_duplicates(),
        forall|x: Seq<char>|
            #[trigger] name_pass(e, kws).contains(x) ==> name_has_all(x, kws) && exists|i: int|
                0 <= i < e.len() && e[i].0 == x,
    decreases e.len(),
{
    if e.len() > 0 {
        let d = e.drop_last();
        let x = e.last();
        assert(names_unique(d)) by {
            assert forall|i: int, j: int| 0 <= i < j < d.len() implies d[i].0 != d[j].0 by {
                assert(d[i] == e[i] && d[j] == e[j]);
            }
        }
        lemma_name_pass(d, kws);
        let r = name_pass(d, kws);
        assert forall|y: Seq<char>| #[trigger] name_pass(e, kws).contains(y) implies name_has_all(
            y,
            kws,
        ) && exists|i: int| 0 <= i < e.len() && e[i].0 == y by {
            lemma_contains_push(r, x.0, y);
            if r.contains(y) {
                let i = choose|i: int| 0 <= i < d.len() && d[i].0 == y;
                assert(e[i] == d[i]);
            } else {
                assert(e[e.len() - 1] == x);
            }
        }
        if name_has_all(x.0, kws) {
            assert(!r.contains(x.0)) by {
                if r.contains(x.0) {
                    let i = choose|i: int| 0 <= i < d.len() && d[i].0 == x.0;
                    assert(e[i] == d[i] && e[e.len() - 1] == x);
                }
            }
            lemma_push_no_duplicates(r, x.0);
        }
    }
}

/// The second pass lists distinct names of documents whose name misses a
/// keyword.
proof fn lemma_alias_pass(e: Seq<Entry>, kws: Seq<Seq<char>>)
    requires
        names_unique(e),
    ensures
        alias_pass(e, kws).no_duplicates(),
        forall|x: Seq<char>|
            #[trigger] alias_pass(e, kws).contains(x) ==> !name_has_all(x, kws),
    decreases e.len(),
{
    if e.len() > 0 {
        let d = e.drop_last();
        let x = e.last();
        assert(names_unique(d)) by {
            assert forall|i: int, j: int| 0 <= i < j < d.len() implies d[i].0 != d[j].0 by {
                assert(d[i] == e[i] && d[j] == e[j]);
            }
        }
        lemma_alias_pass(d, kws);
        lemma_alias_pass_names(d, kws);
        let r = alias_pass(d, kws);
        assert forall|y: Seq<char>| #[trigger] alias_pass(e, kws).contains(y) implies !name_has_all(
            y,
            kws,
        ) by {
            lemma_contains_push(r, x.0, y);
        }
        if !name_has_all(x.0, kws) && doc_has_all(x.0, x.1, kws) {
            assert(!r.contains(x.0)) by {
                if r.contains(x.0) {
                    let i = choose|i: int| 0 <= i < d.len() && d[i].0 == x.0;
                    assert(e[i] == d[i] && e[e.len() - 1] == x);
                }
            }
            lemma_push_no_duplicates(r, x.0);
        }
    }
}

proof fn lemma_alias_pass_names(e: Seq<Entry>, kws: Seq<Seq<char>>)
    ensures
        forall|x: Seq<char>|
            #[trigger] alias_pass(e, kws).contains(x) ==> exists|i: int|
                0 <= i < e.len() && e[i].0 == x,
    decreases e.len(),
{
    if e.len() > 0 {
        let d = e.drop_last();
        let x = e.last();
        lemma_alias_pass_names(d, kws);
        let r = alias_pass(d, kws);
        assert forall|y: Seq<char>| #[trigger] alias_pass(e, kws).contains(y) implies exists|i: int|
            0 <= i < e.len() && e[i].0 == y by {
            lemma_contains_push(r, x.0, y);
            if r.contains(y) {
                let i = choose|i: int| 0 <= i < d.len() && d[i].0 == y;
                assert(e[i] == d[i]);
            } else {
                assert(e[e.len() - 1] == x);
            }
        }
    }
}

proof fn lemma_push_no_duplicates<A>(s: Seq<A>, x: A)
    requires
        s.no_duplicates(),
        !s.contains(x),
    ensures
        s.push(x).no_duplicates(),
{
    let t = s.push(x);
    assert forall|i: int, j: int| 0 <= i < t.len() && 0 <= j < t.len() && i != j implies t[i]
        != t[j] by {
        if i == s.len() {
            assert(s.contains(t[j]));
        } else if j == s.len() {
            assert(s.contains(t[i]));
        } else {
            assert(t[i] == s[i] && t[j] == s[j]);
        }
    }
}

/// An AND search over unique names returns distinct names.
pub proof fn lemma_and_results_distinct(e: Seq<Entry>, kws: Seq<Seq<char>>, limit: nat)
    requires
        names_unique(e),
    ensures
        and_results(e, kws, limit).no_duplicates(),
        and_results(e, kws, limit).len() <= limit,
{
    lemma_name_pass(e, kws);
    lemma_alias_pass(e, kws);
    let a = name_pass(e, kws);
    let b = alias_pass(e, kws);
    assert forall|x: Seq<char>| a.contains(x) implies !b.contains(x) by {
        assert(name_has_all(x, kws));
    }
    lemma_concat_no_duplicates(a, b);
    if limit < (a + b).len() {
        lemma_take_no_duplicates(a + b, limit as int);
    }
}

/// The names of a list of (name, rank) pairs.
pub open spec fn pair_names(cs: Seq<(Seq<char>, nat)>) -> Seq<Seq<char>> {
    cs.map_values(|x: (Seq<char>, nat)| x.0)
}

proof fn lemma_unified_matches(e: Seq<Entry>, qs: Seq<Seq<char>>)
    requires
        names_unique(e),
    ensures
        pair_names(unified_matches(e, qs)).no_duplicates(),
        forall|i: int|
            0 <= i < unified_matches(e, qs).len() ==> 1 <= #[trigger] unified_matches(e, qs)[i].1
                <= 6,
        forall|x: Seq<char>|
            #[trigger] pair_names(unified_matches(e, qs)).contains(x) ==> exists|i: int|
                0 <= i < e.len() && e[i].0 == x,
    decreases e.len(),
{
    if e.len() > 0 {
        let d = e.drop_last();
        let x = e.last();
        assert(names_unique(d)) by {
            assert forall|i: int, j: int| 0 <= i < j < d.len() implies d[i].0 != d[j].0 by {
                assert(d[i] == e[i] && d[j] == e[j]);
            }
        }
        lemma_unified_matches(d, qs);
        let r = unified_matches(d, qs);
        match unified_class(x.0, x.1, qs) {
            Some(c) => {
                let y = (x.0, c.spec_rank());
                assert(pair_names(r.push(y)) =~= pair_names(r).push(x.0));
                assert(!pair_names(r).contains(x.0)) by {
                    if pair_names(r).contains(x.0) {
                        let i = choose|i: int| 0 <= i < d.len() && d[i].0 == x.0;
                        assert(e[i] == d[i] && e[e.len() - 1] == x);
                    }
                }
                lemma_push_no_duplicates(pair_names(r), x.0);
                assert forall|z: Seq<char>| #[trigger]
                    pair_names(unified_matches(e, qs)).contains(z) implies exists|i: int|
                    0 <= i < e.len() && e[i].0 == z by {
                    lemma_contains_push(pair_names(r), x.0, z);
                    if pair_names(r).contains(z) {
                        let i = choose|i: int| 0 <= i < d.len() && d[i].0 == z;
                        assert(e[i] == d[i]);
                    } else {
                        assert(e[e.len() - 1] == x);
                    }
                }
                assert forall|i: int| 0 <= i < unified_matches(e, qs).len() implies 1
                    <= #[trigger] unified_matches(e, qs)[i].1 <= 6 by {
                    if i < r.len() {
                        assert(unified_matches(e, qs)[i] == r[i]);
                    }
                }
            },
            None => {
                assert forall|z: Seq<char>| #[trigger]
                    pair_names(unified_matches(e, qs)).contains(z) implies exists|i: int|
                    0 <= i < e.len() && e[i].0 == z by {
                    let i = choose|i: int| 0 <= i < d.len() && d[i].0 == z;
                    assert(e[i] == d[i]);
                }
            },
        }
    }
}

proof fn lemma_rank_group(cs: Seq<(Seq<char>, nat)>, rank: nat)
    requires
        pair_names(cs).no_duplicates(),
    ensures
        rank_group(cs, rank).no_duplicates(),
        forall|x: Seq<char>|
            #[trigger] rank_group(cs, rank).contains(x) ==> cs.contains((x, rank)),
    decreases cs.len(),
{
    if cs.len() > 0 {
        let d = cs.drop_last();
        let x = cs.last();
        assert(cs =~= d.push(x));
        assert(pair_names(cs) =~= pair_names(d).push(x.0));
        assert(pair_names(d).no_duplicates()) by {
            assert forall|i: int, j: int|
                0 <= i < d.len() && 0 <= j < d.len() && i != j implies pair_names(d)[i]
                != pair_names(d)[j] by {
                assert(pair_names(cs)[i] == pair_names(d)[i]);
                assert(pair_names(cs)[j] == pair_names(d)[j]);
            }
        }
        lemma_rank_group(d, rank);
        let r = rank_group(d, rank);
        assert forall|y: Seq<char>| #[trigger] rank_group(cs, rank).contains(y) implies cs.contains(
            (y, rank),
        ) by {
            lemma_contains_push(r, x.0, y);
            lemma_contains_push(d, x, (y, rank));
        }
        if x.1 == rank {
            assert(!r.contains(x.0)) by {
                if r.contains(x.0) {
                    assert(d.contains((x.0, rank)));
                    let i = choose|i: int| 0 <= i < d.len() && d[i] == (x.0, rank);
                    assert(pair_names(cs)[i] == x.0);
                    assert(pair_names(cs)[cs.len() - 1] == x.0);
                }
            }
            lemma_push_no_duplicates(r, x.0);
        }
    }
}

proof fn lemma_grouped(cs: Seq<(Seq<char>, nat)>, rank: nat)
    requires
        pair_names(cs).no_duplicates(),
    ensures
        grouped(cs, rank).no_duplicates(),
        forall|x: Seq<char>|
            #[trigger] grouped(cs, rank).contains(x) ==> exists|r: nat|
                1 <= r <= rank && cs.contains((x, r)),
    decreases rank,
{
    if rank > 0 {
        let prev = (rank - 1) as nat;
        lemma_grouped(cs, prev);
        lemma_rank_group(cs, rank);
        let a = grouped(cs, prev);
        let b = rank_group(cs, rank);
        assert forall|x: Seq<char>| a.contains(x) implies !b.contains(x) by {
            if b.contains(x) {
                let r = choose|r: nat| 1 <= r <= prev && cs.contains((x, r));
                let i = choose|i: int| 0 <= i < cs.len() && cs[i] == (x, r);
                let j = choose|j: int| 0 <= j < cs.len() && cs[j] == (x, rank);
                assert(pair_names(cs)[i] == x && pair_names(cs)[j] == x);
            }
        }
        lemma_concat_no_duplicates(a, b);
        assert forall|x: Seq<char>| #[trigger] grouped(cs, rank).contains(x) implies exists|r: nat|
            1 <= r <= rank && cs.contains((x, r)) by {
            let k = choose|k: int| 0 <= k < (a + b).len() && (a + b)[k] == x;
            if k < a.len() {
                assert(a.contains(x));
            } else {
                assert(b[k - a.len()] == x);
                assert(b.contains(x));
            }
        }
    }
}

/// How many pairs of `cs` have a rank from 1 to `rank`.
pub open spec fn ranked_count(cs: Seq<(Seq<char>, nat)>, rank: nat) -> nat
    decreases cs.len(),
{
    if cs.len() == 0 {
        0
    } else {
        ranked_count(cs.drop_last(), rank) + (if 1 <= cs.last().1 <= rank {
            1nat
        } else {
            0nat
        })
    }
}

proof fn lemma_rank_group_len(cs: Seq<(Seq<char>, nat)>, rank: nat)
    ensures
        grouped(cs, rank).len() == ranked_count(cs, rank),
    decreases rank, cs.len(),
{
    if rank > 0 {
        lemma_rank_group_len(cs, (rank - 1) as nat);
        lemma_group_count_step(cs, rank);
    } else {
        lemma_count_zero(cs);
    }
}

proof fn lemma_count_zero(cs: Seq<(Seq<char>, nat)>)
    ensures
        ranked_count(cs, 0) == 0,
    decreases cs.len(),
{
    if cs.len() > 0 {
        lemma_count_zero(cs.drop_last());
    }
}

proof fn lemma_group_count_step(cs: Seq<(Seq<char>, nat)>, rank: nat)
    requires
        rank > 0,
    ensures
        ranked_count(cs, rank) == ranked_count(cs, (rank - 1) as nat) + rank_group(cs, rank).len(),
    decreases cs.len(),
{
    if cs.len() > 0 {
        lemma_group_count_step(cs.drop_last(), rank);
    }
}

proof fn lemma_count_all(cs: Seq<(Seq<char>, nat)>)
    requires
        forall|i: int| 0 <= i < cs.len() ==> 1 <= #[trigger] cs[i].1 <= 6,
    ensures
        ranked_count(cs, 6) == cs.len(),
    decreases cs.len(),
{
    if cs.len() > 0 {
        let d = cs.drop_last();
        assert forall|i: int| 0 <= i < d.len() implies 1 <= #[trigger] d[i].1 <= 6 by {
            assert(d[i] == cs[i]);
        }
        lemma_count_all(d);
        assert(cs[cs.len() - 1] == cs.last());
    }
}

/// A unified search over unique names returns distinct names, as many as the
/// limit allows of the matches the scan keeps.
pub proof fn lemma_unified_results(e: Seq<Entry>, qs: Seq<Seq<char>>, limit: nat)
    requires
        names_unique(e),
    ensures
        unified_results(e, qs, limit).no_duplicates(),
        unified_results(e, qs, limit).len() == min(
            limit as int,
            min(2 * limit as int, unified_matches(e, qs).len() as int),
        ),
{
    let m = unified_matches(e, qs);
    lemma_unified_matches(e, qs);
    let cs = capped(m, 2 * limit);
    assert(pair_names(cs).no_duplicates()) by {
        if 2 * limit < m.len() {
            assert(pair_names(cs) =~= pair_names(m).take(2 * limit as int));
            lemma_take_no_duplicates(pair_names(m), 2 * limit as int);
        }
    }
    assert forall|i: int| 0 <= i < cs.len() implies 1 <= #[trigger] cs[i].1 <= 6 by {
        assert(cs[i] == m[i]);
    }
    lemma_grouped(cs, 6);
    lemma_rank_group_len(cs, 6);
    lemma_count_all(cs);
    let g = grouped(cs, 6);
    if limit < g.len() {
        lemma_take_no_duplicates(g, limit as int);
    }
}

/// A search over a list of documents that keeps its normalised forms in a cache.
pub struct SearchEngine<'a> {
    pub doc_aliases: &'a Vec<Document>,
    pub cache: &'a mut StringCache,
}

impl<'a> SearchEngine<'a> {
    /// Whether keyword `kw` occurs in `text`.
    fn keyword_matches(&mut self, text: &String, kw: &str) -> (r: bool)
        requires
            old(self).cache.wf(),
        ensures
            final(self).cache.wf(),
            final(self).doc_aliases == old(self).doc_aliases,
            *final(final(self).cache) == *final(old(self).cache),
            r == keyword_in(text@, kw@),
    {
        let lower = self.cache.get_lowercase(text);
        let kw_lower = to_lowercase(kw);
        if str_contains(lower.as_str(), kw_lower.as_str()) {
            return true;
        }
        let text_sound = match self.cache.get_hiragana(text) {
            Some(h) => h,
            None => text.clone(),
        };
        let kw_sound = phonetic_form(kw);
        str_contains(text_sound.as_str(), kw_sound.as_str())
    }

    /// Whether every keyword occurs in `name`.
    fn name_matches_all(&mut self, name: &String, kws: &Vec<&str>) -> (r: bool)
        requires
            old(self).cache.wf(),
        ensures
            final(self).cache.wf(),
            final(self).doc_aliases == old(self).doc_aliases,
            *final(final(self).cache) == *final(old(self).cache),
            r == name_has_all(name@, str_views(kws@)),
    {
        let ghost ks = str_views(kws@);
        let mut k: usize = 0;
        while k < kws.len()
            invariant
                self.cache.wf(),
                self.doc_aliases == old(self).doc_aliases,
                *final(self.cache) == *final(old(self).cache),
                ks == str_views(kws@),
                k <= kws@.len(),
                forall|j: int| 0 <= j < k ==> keyword_in(name@, #[trigger] ks[j]),
            decreases kws@.len() - k,
        {
            assert(ks[k as int] == kws@[k as int]@);
            if !self.keyword_matches(name, kws[k]) {
                return false;
            }
            k = k + 1;
        }
        true
    }

    /// Whether every keyword occurs in `name` or in one of `aliases`.
    fn doc_matches_all(&mut self, name: &String, aliases: &Vec<String>, kws: &Vec<&str>) -> (r: bool)
        requires
            old(self).cache.wf(),
        ensures
            final(self).cache.wf(),
            final(self).doc_aliases == old(self).doc_aliases,
            *final(final(self).cache) == *final(old(self).cache),
            r == doc_has_all(name@, views(aliases@), str_views(kws@)),
    {
        let ghost ks = str_views(kws@);
        let ghost al = views(aliases@);
        let mut k: usize = 0;
        while k < kws.len()
            invariant
                self.cache.wf(),
                self.doc_aliases == old(self).doc_aliases,
                *final(self.cache) == *final(old(self).cache),
                ks == str_views(kws@),
                al == views(aliases@),
                k <= kws@.len(),
                forall|j: int| 0 <= j < k ==> doc_has(name@, al, #[trigger] ks[j]),
            decreases kws@.len() - k,
        {
            assert(ks[k as int] == kws@[k as int]@);
            if !self.keyword_matches(name, kws[k]) {
                let mut a: usize = 0;
                let mut found = false;
                while a < aliases.len() && !found
                    invariant
                        self.cache.wf(),
                        self.doc_aliases == old(self).doc_aliases,
                    *final(self.cache) == *final(old(self).cache),
                        *final(self.cache) == *final(old(self).cache),
                *final(self.cache) == *final(old(self).cache),
                        al == views(aliases@),
                        k < kws@.len(),
                        ks[k as int] == kws@[k as int]@,
                        a <= aliases@.len(),
                        found ==> exists|b: int|
                            0 <= b < al.len() && keyword_in(#[trigger] al[b], ks[k as int]),
                        !found ==> forall|b: int|
                            0 <= b < a ==> !keyword_in(#[trigger] al[b], ks[k as int]),
                    decreases aliases@.len() - a + (if found { 0int } else { 1int }),
                {
                    assert(al[a as int] == aliases@[a as int]@);
                    if self.keyword_matches(&aliases[a], kws[k]) {
                        found = true;
                    } else {
                        a = a + 1;
                    }
                }
                if !found {
                    assert(!doc_has(name@, al, ks[k as int]));
                    return false;
                }
            }
            k = k + 1;
        }
        true
    }

    /// Whether some query matches `t` exactly, as a prefix, or in part.
    fn text_flags(&mut self, t: &String, qs: &Vec<String>) -> (r: (bool, bool, bool))
        requires
            old(self).cache.wf(),
        ensures
            final(self).cache.wf(),
            final(self).doc_aliases == old(self).doc_aliases,
            *final(final(self).cache) == *final(old(self).cache),
            r.0 == exact_any(t@, views(qs@)),
            r.1 == prefix_any(t@, views(qs@)),
            r.2 == partial_any(t@, views(qs@)),
    {
        let ghost v = views(qs@);
        let lower = self.cache.get_lowercase(t);
        let sound = match self.cache.get_hiragana(t) {
            Some(h) => h,
            None => t.clone(),
        };
        let mut exact = false;
        let mut prefix = false;
        let mut partial = false;
        let mut k: usize = 0;
        while k < qs.len()
            invariant
                self.cache.wf(),
                self.doc_aliases == old(self).doc_aliases,
                *final(self.cache) == *final(old(self).cache),
                v == views(qs@),
                lower@ == lower_of(t@),
                sound@ == phonetic(t@),
                k <= qs@.len(),
                exact == exists|j: int| 0 <= j < k && exact_q(t@, #[trigger] v[j]),
                prefix == exists|j: int| 0 <= j < k && prefix_q(t@, #[trigger] v[j]),
                partial == exists|j: int| 0 <= j < k && partial_q(t@, #[trigger] v[j]),
            decreases qs@.len() - k,
        {
            let q = &qs[k];
            assert(v[k as int] == q@);
            let qh = phonetic_form(q.as_str());
            let e = lower.eq(q) || lower.eq(&qh);
            let p = str_starts_with(lower.as_str(), q.as_str()) || str_starts_with(
                lower.as_str(),
                qh.as_str(),
            );
            let part = str_contains(lower.as_str(), q.as_str()) || str_contains(
                lower.as_str(),
                qh.as_str(),
            ) || str_contains(sound.as_str(), qh.as_str());
            assert(e == exact_q(t@, v[k as int]));
            assert(p == prefix_q(t@, v[k as int]));
            assert(part == partial_q(t@, v[k as int]));
            exact = exact || e;
            prefix = prefix || p;
            partial = partial || part;
            k = k + 1;
        }
        (exact, prefix, partial)
    }

    /// The best class any query earns on document `d`.
    fn unified_class_of(&mut self, d: &Document, qs: &Vec<String>) -> (r: Option<MatchPriority>)
        requires
            old(self).cache.wf(),
        ensures
            final(self).cache.wf(),
            final(self).doc_aliases == old(self).doc_aliases,
            *final(final(self).cache) == *final(old(self).cache),
            r == unified_class(d.name@, views(d.aliases@), views(qs@)),
    {
        let ghost al = views(d.aliases@);
        let ghost v = views(qs@);
        let (ne, np, npart) = self.text_flags(&d.name, qs);
        let mut ae = false;
        let mut ap = false;
        let mut apart = false;
        if !ne {
            let mut a: usize = 0;
            while a < d.aliases.len()
                invariant
                    self.cache.wf(),
                    self.doc_aliases == old(self).doc_aliases,
                    *final(self.cache) == *final(old(self).cache),
                *final(self.cache) == *final(old(self).cache),
                    al == views(d.aliases@),
                    v == views(qs@),
                    a <= d.aliases@.len(),
                    ae == exists|b: int| 0 <= b < a && exact_any(#[trigger] al[b], v),
                    ap == exists|b: int| 0 <= b < a && prefix_any(#[trigger] al[b], v),
                    apart == exists|b: int| 0 <= b < a && partial_any(#[trigger] al[b], v),
                decreases d.aliases@.len() - a,
            {
                assert(al[a as int] == d.aliases@[a as int]@);
                let (e, p, part) = self.text_flags(&d.aliases[a], qs);
                ae = ae || e;
                ap = ap || p;
                apart = apart || part;
                a = a + 1;
            }
        }
        if ne {
            Some(MatchPriority::NameExact)
        } else if ae {
            Some(MatchPriority::AliasExact)
        } else if np {
            Some(MatchPriority::NamePrefix)
        } else if ap {
            Some(MatchPriority::AliasPrefix)
        } else if npart {
            Some(MatchPriority::NamePartial)
        } else if apart {
            Some(MatchPriority::AliasPartial)
        } else {
            None
        }
    }

    /// Unified search: every document that some query matches, by the best
    /// class it earns; the scan stops at `2 * limit` matches, which are then
    /// ordered by class (store order within a class) and cut to `limit`.
    pub fn search_unified(&mut self, queries: &Vec<String>, limit: usize) -> (r: Vec<String>)
        requires
            old(self).cache.wf(),
            names_unique(entries_of(old(self).doc_aliases@)),
        ensures
            final(self).cache.wf(),
            final(self).doc_aliases == old(self).doc_aliases,
            *final(final(self).cache) == *final(old(self).cache),
            views(r@) == unified_results(
                entries_of(old(self).doc_aliases@),
                views(queries@),
                limit as nat,
            ),
            views(r@).no_duplicates(),
            r@.len() == min(
                limit as int,
                min(
                    2 * limit as int,
                    unified_matches(entries_of(old(self).doc_aliases@), views(queries@)).len() as int,
                ),
            ),
    {
        proof {
            lemma_unified_results(entries_of(self.doc_aliases@), views(queries@), limit as nat);
        }
        let qs = queries;
        let ghost e = entries_of(self.doc_aliases@);
        let ghost v = views(queries@);
        assert(views(qs@) =~= v);
        let docs = self.doc_aliases;
        let want: u128 = 2 * (limit as u128);
        let mut names: Vec<String> = Vec::new();
        let mut ranks: Vec<u8> = Vec::new();
        let mut i: usize = 0;
        assert(e.take(0) =~= Seq::<Entry>::empty());
        assert(Seq::new(0, |j: int| (names@[j]@, ranks@[j] as nat)) =~= capped(
            unified_matches(e.take(0), v),
            2 * limit as nat,
        ));
        while i < docs.len()
            invariant
                self.cache.wf(),
                self.doc_aliases == old(self).doc_aliases,
                *final(self.cache) == *final(old(self).cache),
                docs == self.doc_aliases,
                e == entries_of(docs@),
                v == views(qs@),
                want == 2 * limit,
                i <= docs@.len(),
                names@.len() == ranks@.len(),
                Seq::new(names@.len(), |j: int| (names@[j]@, ranks@[j] as nat)) == capped(
                    unified_matches(e.take(i as int), v),
                    2 * limit as nat,
                ),
            decreases docs@.len() - i,
        {
            let ghost s = unified_matches(e.take(i as int), v);
            let ghost before = Seq::new(names@.len(), |j: int| (names@[j]@, ranks@[j] as nat));
            proof {
                assert(e.take(i + 1).drop_last() =~= e.take(i as int));
                assert(e.take(i + 1).last() == e[i as int]);
                assert(e[i as int] == (docs@[i as int].name@, views(docs@[i as int].aliases@)));
            }
            if (names.len() as u128) < want {
                match self.unified_class_of(&docs[i], &qs) {
                    Some(c) => {
                        proof {
                            lemma_capped_push(s, (e[i as int].0, c.spec_rank()), 2 * limit as nat);
                        }
                        names.push(docs[i].name.clone());
                        ranks.push(c.rank());
                        assert(Seq::new(names@.len(), |j: int| (names@[j]@, ranks@[j] as nat))
                            =~= before.push((e[i as int].0, c.spec_rank())));
                    },
                    None => {},
                }
            } else {
                proof {
                    match unified_class(e[i as int].0, e[i as int].1, v) {
                        Some(c) => {
                            lemma_capped_push(s, (e[i as int].0, c.spec_rank()), 2 * limit as nat);
                        },
                        None => {},
                    }
                }
            }
            i = i + 1;
        }
        assert(e.take(docs@.len() as int) =~= e);
        let ghost cs = capped(unified_matches(e, v), 2 * limit as nat);
        let mut out: Vec<String> = Vec::new();
        let mut rank: u8 = 1;
        assert(views(out@) =~= capped(grouped(cs, 0), limit as nat));
        while rank <= 6
            invariant
                1 <= rank <= 7,
                names@.len() == ranks@.len(),
                Seq::new(names@.len(), |j: int| (names@[j]@, ranks@[j] as nat)) == cs,
                views(out@) == capped(grouped(cs, (rank - 1) as nat), limit as nat),
            decreases 7 - rank,
        {
            let mut j: usize = 0;
            let ghost g = grouped(cs, (rank - 1) as nat);
            assert(cs.take(0) =~= Seq::<(Seq<char>, nat)>::empty());
            assert(g + rank_group(cs.take(0), rank as nat) =~= g);
            while j < names.len()
                invariant
                    1 <= rank <= 6,
                    j <= names@.len(),
                    names@.len() == ranks@.len(),
                    Seq::new(names@.len(), |k: int| (names@[k]@, ranks@[k] as nat)) == cs,
                    g == grouped(cs, (rank - 1) as nat),
                    views(out@) == capped(g + rank_group(cs.take(j as int), rank as nat), limit as nat),
                decreases names@.len() - j,
            {
                let ghost s = g + rank_group(cs.take(j as int), rank as nat);
                let ghost before = views(out@);
                proof {
                    assert(cs.take(j + 1).drop_last() =~= cs.take(j as int));
                    assert(cs.take(j + 1).last() == cs[j as int]);
                    assert(cs[j as int] == (names@[j as int]@, ranks@[j as int] as nat));
                    lemma_capped_push(s, names@[j as int]@, limit as nat);
                    assert(g + rank_group(cs.take(j as int), rank as nat).push(names@[j as int]@)
                        =~= s.push(names@[j as int]@));
                }
                if ranks[j] == rank && out.len() < limit {
                    out.push(names[j].clone());
                    assert(views(out@) =~= before.push(names@[j as int]@));
                }
                j = j + 1;
            }
            assert(cs.take(names@.len() as int) =~= cs);
            rank = rank + 1;
        }
        out
    }

    /// AND search: the documents whose name holds every keyword, then the
    /// others whose name or aliases hold every keyword, at most `limit` of them.
    pub fn search_and(&mut self, keywords: Vec<&str>, limit: usize) -> (r: Vec<String>)
        requires
            old(self).cache.wf(),
            names_unique(entries_of(old(self).doc_aliases@)),
        ensures
            final(self).cache.wf(),
            final(self).doc_aliases == old(self).doc_aliases,
            *final(final(self).cache) == *final(old(self).cache),
            views(r@) == and_results(
                entries_of(old(self).doc_aliases@),
                str_views(keywords@),
                limit as nat,
            ),
            views(r@).no_duplicates(),
            r@.len() <= limit,
    {
        proof {
            lemma_and_results_distinct(
                entries_of(self.doc_aliases@),
                str_views(keywords@),
                limit as nat,
            );
        }
        let ghost e = entries_of(self.doc_aliases@);
        let ghost ks = str_views(keywords@);
        let docs = self.doc_aliases;
        let mut out: Vec<String> = Vec::new();
        let mut i: usize = 0;
        assert(e.take(0) =~= Seq::<Entry>::empty());
        while i < docs.len()
            invariant
                self.cache.wf(),
                self.doc_aliases == old(self).doc_aliases,
                *final(self.cache) == *final(old(self).cache),
                docs == self.doc_aliases,
                e == entries_of(docs@),
                ks == str_views(keywords@),
                i <= docs@.len(),
                views(out@) == capped(name_pass(e.take(i as int), ks), limit as nat),
            decreases docs@.len() - i,
        {
            let ghost s = name_pass(e.take(i as int), ks);
            let ghost before = views(out@);
            proof {
                assert(e.take(i + 1).drop_last() =~= e.take(i as int));
                assert(e.take(i + 1).last() == e[i as int]);
                lemma_capped_push(s, e[i as int].0, limit as nat);
            }
            if out.len() < limit && self.name_matches_all(&docs[i].name, &keywords) {
                out.push(docs[i].name.clone());
                assert(views(out@) =~= before.push(e[i as int].0));
            }
            i = i + 1;
        }
        let ghost named_first = name_pass(e, ks);
        assert(e.take(docs@.len() as int) =~= e);
        let mut i: usize = 0;
        assert(e.take(0) =~= Seq::<Entry>::empty());
        assert(named_first + alias_pass(e.take(0), ks) =~= named_first);
        while i < docs.len()
            invariant
                self.cache.wf(),
                self.doc_aliases == old(self).doc_aliases,
                *final(self.cache) == *final(old(self).cache),
                docs == self.doc_aliases,
                e == entries_of(docs@),
                ks == str_views(keywords@),
                named_first == name_pass(e, ks),
                i <= docs@.len(),
                views(out@) == capped(named_first + alias_pass(e.take(i as int), ks), limit as nat),
            decreases docs@.len() - i,
        {
            let ghost s = named_first + alias_pass(e.take(i as int), ks);
            let ghost before = views(out@);
            proof {
                assert(e.take(i + 1).drop_last() =~= e.take(i as int));
                assert(e.take(i + 1).last() == e[i as int]);
                lemma_capped_push(s, e[i as int].0, limit as nat);
                assert(named_first + alias_pass(e.take(i as int), ks).push(e[i as int].0) =~= s.push(
                    e[i as int].0,
                ));
            }
            if out.len() < limit && !self.name_matches_all(&docs[i].name, &keywords)
                && self.doc_matches_all(&docs[i].name, &docs[i].aliases, &keywords) {
                out.push(docs[i].name.clone());
                assert(views(out@) =~= before.push(e[i as int].0));
            }
            i = i + 1;
        }
        assert(e.take(docs@.len() as int) =~= e);
        out
    }
}

} // verus!
