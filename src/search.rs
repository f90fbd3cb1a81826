use vstd::prelude::*;

use crate::index::{
    alias_token, aliases_named, has_name, has_token, names_of, lemma_in_posting_list,
    lemma_posting_list_member, posting_list,
    Entry, Index,
};
use crate::order::{insert_by, lemma_contains_push, lemma_insert_by_contains, sort_by};
use crate::priority::{best, better, priority_score, rank_of, MatchPriority};
use crate::rank::{
    lemma_ranked_by_class, lemma_sort_by_len, rank_item, rank_items, ranked, ranks_ahead,
};
use crate::query::{
    add_new, expand, expand_query, holds, longer_or_equal, longest_first, sort_longest_first,
    term_tokens, transliteration,
};
use crate::text::{is_prefix, is_substring, str_contains, str_starts_with, views};

verus! {

/// A token no longer than this, in characters, is checked against the name.
pub const NAME_MATCH_MAX: usize = 50;

/// One token of the scan reaching one document: (token, document name).
pub type Visit = (Seq<char>, Seq<char>);

/// Every visit of a scan over `toks`, in order: for each token, each document
/// of its postings list.
pub open spec fn visits(e: Seq<Entry>, toks: Seq<Seq<char>>) -> Seq<Visit>
    decreases toks.len(),
{
    if toks.len() == 0 {
        Seq::empty()
    } else {
        visits(e, toks.drop_last()) + tagged(toks.last(), posting_list(e, toks.last()))
    }
}

/// The visits of one token.
pub open spec fn tagged(t: Seq<char>, names: Seq<Seq<char>>) -> Seq<Visit> {
    names.map_values(|n: Seq<char>| (t, n))
}

/// The documents visited, in the order of their first visit.
pub open spec fn visited_names(vs: Seq<Visit>) -> Seq<Seq<char>>
    decreases vs.len(),
{
    if vs.len() == 0 {
        Seq::empty()
    } else {
        let a = visited_names(vs.drop_last());
        if a.contains(vs.last().1) {
            a
        } else {
            a.push(vs.last().1)
        }
    }
}

/// The work budget is spent: more than ten visits per requested result, and
/// two candidates per requested result already.
pub open spec fn budget_spent(done: Seq<Visit>, limit: nat) -> bool {
    done.len() > 10 * limit && visited_names(done).len() >= 2 * limit
}

/// How many visits a scan makes, looking from visit `k` on: it stops before
/// the first visit at which the budget is spent.
pub open spec fn visits_made_from(vs: Seq<Visit>, limit: nat, k: int) -> int
    decreases vs.len() - k,
{
    if k < 0 || k >= vs.len() {
        vs.len() as int
    } else if budget_spent(vs.take(k), limit) {
        k
    } else {
        visits_made_from(vs, limit, k + 1)
    }
}

/// The visits a scan over `toks` makes before its budget is spent.
pub open spec fn scanned(e: Seq<Entry>, toks: Seq<Seq<char>>, limit: nat) -> Seq<Visit> {
    let vs = visits(e, toks);
    vs.take(visits_made_from(vs, limit, 0))
}

/// Some query term begins with token `t`.
pub open spec fn prefix_of_term(t: Seq<char>, q: Seq<Seq<char>>) -> bool {
    exists|k: int| 0 <= k < q.len() && is_prefix(#[trigger] q[k], t)
}

/// The class one visit earns: exact where the token is a raw query term, else
/// prefix or partial on the name, else, without knowing which alias holds
/// it, an alias prefix for a token taken from a query term and an alias
/// partial match for a short bigram.
pub open spec fn classify(t: Seq<char>, name: Seq<char>, q: Seq<Seq<char>>) -> Option<
    MatchPriority,
> {
    if q.contains(t) {
        if t == name {
            Some(MatchPriority::NameExact)
        } else {
            Some(MatchPriority::AliasExact)
        }
    } else if t.len() <= NAME_MATCH_MAX && is_prefix(name, t) {
        Some(MatchPriority::NamePrefix)
    } else if t.len() <= NAME_MATCH_MAX && is_substring(name, t) {
        Some(MatchPriority::NamePartial)
    } else if prefix_of_term(t, q) {
        Some(MatchPriority::AliasPrefix)
    } else if t.len() <= 2 {
        Some(MatchPriority::AliasPartial)
    } else {
        None
    }
}

/// The best class that the visits of document `name` earn.
pub open spec fn best_class(vs: Seq<Visit>, name: Seq<char>, q: Seq<Seq<char>>) -> Option<
    MatchPriority,
>
    decreases vs.len(),
{
    if vs.len() == 0 {
        None
    } else {
        let b = best_class(vs.drop_last(), name, q);
        if vs.last().1 == name {
            better(b, classify(vs.last().0, name, q))
        } else {
            b
        }
    }
}

/// What each visit of document `name` adds to its score: the length of the
/// token's postings list, and whether the token is a raw query term.
pub open spec fn hits_of(vs: Seq<Visit>, name: Seq<char>, e: Seq<Entry>, q: Seq<Seq<char>>) -> Seq<
    (nat, bool),
>
    decreases vs.len(),
{
    if vs.len() == 0 {
        Seq::empty()
    } else {
        let h = hits_of(vs.drop_last(), name, e, q);
        if vs.last().1 == name {
            h.push((posting_list(e, vs.last().0).len(), q.contains(vs.last().0)))
        } else {
            h
        }
    }
}

/// Some query term occurs in the name or in one of the aliases.
pub open spec fn query_contained(name: Seq<char>, aliases: Seq<Seq<char>>, q: Seq<Seq<char>>) -> bool {
    exists|k: int|
        0 <= k < q.len() && (is_substring(name, #[trigger] q[k]) || exists|a: int|
            0 <= a < aliases.len() && is_substring(#[trigger] aliases[a], q[k]))
}

/// One token reaching a candidate.
#[derive(Clone, Copy, Debug, PartialEq, Eq, Structural)]
pub struct Hit {
    /// The length of the token's postings list.
    pub df: usize,
    /// The token is one of the raw query terms.
    pub verbatim: bool,
}

/// A document that the scan reached, with what its score is computed from.
#[derive(Debug)]
pub struct Candidate {
    pub name: String,
    /// The number of aliases; the document's length is this plus one.
    pub n_aliases: usize,
    pub hits: Vec<Hit>,
    pub priority: Option<MatchPriority>,
    /// A raw query term equals the name.
    pub exact_bonus: bool,
    /// A raw query term occurs in the name or in an alias.
    pub containment_bonus: bool,
}

/// The hits of a candidate as plain values.
pub open spec fn hits_view(h: Seq<Hit>) -> Seq<(nat, bool)> {
    h.map_values(|x: Hit| (x.df as nat, x.verbatim))
}

/// Candidate `c` is what the visits `done` make of document `n`.
pub open spec fn candidate_is(
    c: Candidate,
    n: Seq<char>,
    done: Seq<Visit>,
    e: Seq<Entry>,
    q: Seq<Seq<char>>,
) -> bool {
    &&& c.name@ == n
    &&& hits_view(c.hits@) == hits_of(done, n, e, q)
    &&& c.priority == best_class(done, n, q)
    &&& c.n_aliases == aliases_named(e, n).len()
    &&& c.exact_bonus == q.contains(n)
    &&& c.containment_bonus == query_contained(n, aliases_named(e, n), q)
}

/// The candidates are those of the visits `done`, in the order of first visit.
pub open spec fn candidates_are(
    cs: Seq<Candidate>,
    done: Seq<Visit>,
    e: Seq<Entry>,
    q: Seq<Seq<char>>,
) -> bool {
    &&& cs.len() == visited_names(done).len()
    &&& forall|i: int|
        0 <= i < cs.len() ==> candidate_is(#[trigger] cs[i], visited_names(done)[i], done, e, q)
}

proof fn lemma_visits_push(e: Seq<Entry>, toks: Seq<Seq<char>>, i: int)
    requires
        0 <= i < toks.len(),
    ensures
        visits(e, toks.take(i + 1)) == visits(e, toks.take(i)) + tagged(
            toks[i],
            posting_list(e, toks[i]),
        ),
{
    assert(toks.take(i + 1).drop_last() =~= toks.take(i));
}

proof fn lemma_visits_prefix(e: Seq<Entry>, toks: Seq<Seq<char>>, i: int)
    requires
        0 <= i <= toks.len(),
    ensures
        visits(e, toks.take(i)).len() <= visits(e, toks).len(),
        visits(e, toks).take(visits(e, toks.take(i)).len() as int) == visits(e, toks.take(i)),
    decreases toks.len() - i,
{
    if i == toks.len() {
        assert(toks.take(i) =~= toks);
        assert(visits(e, toks).take(visits(e, toks).len() as int) =~= visits(e, toks));
    } else {
        lemma_visits_prefix(e, toks, i + 1);
        lemma_visits_push(e, toks, i);
        let a = visits(e, toks.take(i));
        let b = visits(e, toks.take(i + 1));
        assert(b.take(a.len() as int) =~= a);
        let all = visits(e, toks);
        assert(all.take(b.len() as int) == b);
        assert(all.take(a.len() as int) =~= all.take(b.len() as int).take(a.len() as int));
    }
}

/// Some query term begins with `t`.
fn is_prefix_of_term(t: &String, terms: &Vec<String>) -> (r: bool)
    ensures
        r == prefix_of_term(t@, views(terms@)),
{
    let mut k: usize = 0;
    while k < terms.len()
        invariant
            k <= terms@.len(),
            forall|j: int| 0 <= j < k ==> !is_prefix(#[trigger] views(terms@)[j], t@),
        decreases terms@.len() - k,
    {
        if str_starts_with(terms[k].as_str(), t.as_str()) {
            assert(views(terms@)[k as int] == terms@[k as int]@);
            return true;
        }
        assert(views(terms@)[k as int] == terms@[k as int]@);
        k = k + 1;
    }
    false
}

/// Some query term occurs in the name or in one of the aliases.
fn is_query_contained(name: &String, aliases: &Vec<String>, terms: &Vec<String>) -> (r: bool)
    ensures
        r == query_contained(name@, views(aliases@), views(terms@)),
{
    let ghost q = views(terms@);
    let ghost al = views(aliases@);
    let mut k: usize = 0;
    while k < terms.len()
        invariant
            k <= terms@.len(),
            q == views(terms@),
            al == views(aliases@),
            forall|j: int|
                0 <= j < k ==> !(is_substring(name@, #[trigger] q[j]) || exists|a: int|
                    0 <= a < al.len() && is_substring(#[trigger] al[a], q[j])),
        decreases terms@.len() - k,
    {
        assert(q[k as int] == terms@[k as int]@);
        if str_contains(name.as_str(), terms[k].as_str()) {
            return true;
        }
        let mut a: usize = 0;
        while a < aliases.len()
            invariant
                a <= aliases@.len(),
                k < terms@.len(),
                q == views(terms@),
                al == views(aliases@),
                q[k as int] == terms@[k as int]@,
                forall|b: int| 0 <= b < a ==> !is_substring(#[trigger] al[b], q[k as int]),
            decreases aliases@.len() - a,
        {
            assert(al[a as int] == aliases@[a as int]@);
            if str_contains(aliases[a].as_str(), terms[k].as_str()) {
                return true;
            }
            a = a + 1;
        }
        k = k + 1;
    }
    false
}

/// The class that token `t` earns on document `name`; `verbatim` says
/// whether `t` is a raw query term.
fn classify_visit(t: &String, name: &String, terms: &Vec<String>, verbatim: bool) -> (r: Option<
    MatchPriority,
>)
    requires
        verbatim == views(terms@).contains(t@),
    ensures
        r == classify(t@, name@, views(terms@)),
{
    let n = t.as_str().unicode_len();
    if verbatim {
        if t.eq(name) {
            Some(MatchPriority::NameExact)
        } else {
            Some(MatchPriority::AliasExact)
        }
    } else if n <= NAME_MATCH_MAX && str_starts_with(name.as_str(), t.as_str()) {
        Some(MatchPriority::NamePrefix)
    } else if n <= NAME_MATCH_MAX && str_contains(name.as_str(), t.as_str()) {
        Some(MatchPriority::NamePartial)
    } else if is_prefix_of_term(t, terms) {
        Some(MatchPriority::AliasPrefix)
    } else if n <= 2 {
        Some(MatchPriority::AliasPartial)
    } else {
        None
    }
}

proof fn lemma_unvisited(vs: Seq<Visit>, n: Seq<char>, e: Seq<Entry>, q: Seq<Seq<char>>)
    requires
        !visited_names(vs).contains(n),
    ensures
        hits_of(vs, n, e, q) == Seq::<(nat, bool)>::empty(),
        best_class(vs, n, q) == None::<MatchPriority>,
    decreases vs.len(),
{
    if vs.len() > 0 {
        let d = vs.drop_last();
        lemma_contains_push(visited_names(d), vs.last().1, n);
        lemma_unvisited(d, n, e, q);
    }
}

proof fn lemma_visited_names_distinct(vs: Seq<Visit>)
    ensures
        visited_names(vs).no_duplicates(),
    decreases vs.len(),
{
    if vs.len() > 0 {
        let d = vs.drop_last();
        lemma_visited_names_distinct(d);
        let a = visited_names(d);
        if !a.contains(vs.last().1) {
            assert forall|i: int, j: int|
                0 <= i < j < a.push(vs.last().1).len() implies a.push(vs.last().1)[i] != a.push(
                vs.last().1,
            )[j] by {
                if j == a.len() {
                    assert(a[i] != vs.last().1);
                }
            }
        }
    }
}

proof fn lemma_visits_of_empty_store(toks: Seq<Seq<char>>)
    ensures
        visits(Seq::<Entry>::empty(), toks).len() == 0,
    decreases toks.len(),
{
    if toks.len() > 0 {
        lemma_visits_of_empty_store(toks.drop_last());
        assert(posting_list(Seq::<Entry>::empty(), toks.last()).len() == 0);
    }
}

/// The position of the candidate called `name`, where there is one.
fn find_candidate(cands: &Vec<Candidate>, name: &String) -> (r: Option<usize>)
    ensures
        match r {
            Some(i) => i < cands@.len() && cands@[i as int].name@ == name@,
            None => forall|i: int| 0 <= i < cands@.len() ==> cands@[i].name@ != name@,
        },
{
    let mut i: usize = 0;
    while i < cands.len()
        invariant
            i <= cands@.len(),
            forall|j: int| 0 <= j < i ==> cands@[j].name@ != name@,
        decreases cands@.len() - i,
    {
        if cands[i].name.eq(name) {
            return Some(i);
        }
        i = i + 1;
    }
    None
}

/// A token of the scan visits each document of its postings list.
proof fn lemma_visit_present(e: Seq<Entry>, toks: Seq<Seq<char>>, t: Seq<char>, n: Seq<char>)
    requires
        toks.contains(t),
        posting_list(e, t).contains(n),
    ensures
        visits(e, toks).contains((t, n)),
    decreases toks.len(),
{
    let d = toks.drop_last();
    let here = tagged(toks.last(), posting_list(e, toks.last()));
    if toks.last() == t {
        let l = posting_list(e, t);
        let j = choose|j: int| 0 <= j < l.len() && l[j] == n;
        let all = visits(e, toks);
        assert(all[visits(e, d).len() + j] == here[j]);
    } else {
        let i = choose|i: int| 0 <= i < toks.len() && toks[i] == t;
        assert(d[i] == t);
        lemma_visit_present(e, d, t, n);
        let w = visits(e, d);
        let j = choose|j: int| 0 <= j < w.len() && w[j] == (t, n);
        assert(visits(e, toks)[j] == w[j]);
    }
}

/// A visit of document `n` makes it a candidate with a class at least as good
/// as the visit's.
proof fn lemma_visit_counts(vs: Seq<Visit>, t: Seq<char>, n: Seq<char>, q: Seq<Seq<char>>)
    requires
        vs.contains((t, n)),
    ensures
        visited_names(vs).contains(n),
        rank_of(best_class(vs, n, q)) <= rank_of(classify(t, n, q)),
    decreases vs.len(),
{
    let d = vs.drop_last();
    assert(vs =~= d.push(vs.last()));
    lemma_contains_push(visited_names(d), vs.last().1, n);
    if vs.last() != (t, n) {
        let i = choose|i: int| 0 <= i < vs.len() && vs[i] == (t, n);
        assert(d[i] == (t, n));
        lemma_visit_counts(d, t, n, q);
    } else if d.contains((t, n)) {
        lemma_visit_counts(d, t, n, q);
    }
}

proof fn lemma_add_new_keeps(acc: Seq<Seq<char>>, more: Seq<Seq<char>>, x: Seq<char>)
    requires
        acc.contains(x) || more.contains(x),
    ensures
        add_new(acc, more).contains(x),
    decreases more.len(),
{
    if more.len() > 0 {
        let d = more.drop_last();
        let a = add_new(acc, d);
        if acc.contains(x) || d.contains(x) {
            lemma_add_new_keeps(acc, d, x);
        }
        if more.last() == x {
            if !a.contains(x) {
                assert(a.push(x)[a.len() as int] == x);
            }
        } else if !(acc.contains(x) || d.contains(x)) {
            let i = choose|i: int| 0 <= i < more.len() && more[i] == x;
            assert(d[i] == x);
        }
        lemma_contains_push(a, more.last(), x);
    }
}

proof fn lemma_sort_by_contains<A>(s: Seq<A>, ahead: spec_fn(A, A) -> bool, y: A)
    ensures
        sort_by(s, ahead).contains(y) <==> s.contains(y),
    decreases s.len(),
{
    if s.len() > 0 {
        let d = s.drop_last();
        assert(s =~= d.push(s.last()));
        lemma_sort_by_contains(d, ahead, y);
        lemma_insert_by_contains(sort_by(d, ahead), s.last(), ahead, y);
        lemma_contains_push(d, s.last(), y);
    }
}

/// Searching for a document's alias reaches the document, as an alias-exact
/// match or better, wherever the work budget does not cut the scan short.
pub proof fn lemma_alias_query_reaches_document(e: Seq<Entry>, k: int, a: int, limit: nat)
    requires
        0 <= k < e.len(),
        0 <= a < e[k].1.len(),
        ({
            let vs = visits(e, longest_first(expand(seq![e[k].1[a]])));
            visits_made_from(vs, limit, 0) == vs.len()
        }),
    ensures
        ({
            let q = seq![e[k].1[a]];
            let done = scanned(e, longest_first(expand(q)), limit);
            &&& visited_names(done).contains(e[k].0)
            &&& rank_of(best_class(done, e[k].0, q)) <= MatchPriority::AliasExact.spec_rank()
        }),
{
    let t = e[k].1[a];
    let q = seq![t];
    let toks = longest_first(expand(q));
    let vs = visits(e, toks);
    assert(q.drop_last() =~= Seq::<Seq<char>>::empty());
    assert(term_tokens(t)[0] == t);
    lemma_add_new_keeps(Seq::empty(), term_tokens(t), t);
    assert(q.last() == t);
    assert(expand(q.drop_last()) == Seq::<Seq<char>>::empty());
    assert(expand(q) == add_new(Seq::empty(), term_tokens(t)));
    lemma_sort_by_contains(expand(q), longer_or_equal(), t);
    assert(toks.contains(t));
    assert(alias_token(e[k].1, a, t));
    lemma_in_posting_list(e, k, t);
    lemma_visit_present(e, toks, t, e[k].0);
    assert(vs.take(vs.len() as int) =~= vs);
    lemma_visit_counts(vs, t, e[k].0, q);
    assert(q.contains(t)) by {
        assert(q[0] == t);
    }
}

/// A romanised query reaches a document whose name is the query's
/// transliteration, as a name-prefix match or better, wherever the work
/// budget does not cut the scan short.
pub proof fn lemma_romanized_query_reaches_document(
    e: Seq<Entry>,
    k: int,
    t: Seq<char>,
    limit: nat,
)
    requires
        0 <= k < e.len(),
        transliteration(t) == Some(e[k].0),
        e[k].0.len() <= NAME_MATCH_MAX,
        ({
            let vs = visits(e, longest_first(expand(seq![t])));
            visits_made_from(vs, limit, 0) == vs.len()
        }),
    ensures
        ({
            let q = seq![t];
            let done = scanned(e, longest_first(expand(q)), limit);
            &&& visited_names(done).contains(e[k].0)
            &&& rank_of(best_class(done, e[k].0, q)) <= MatchPriority::NamePrefix.spec_rank()
        }),
{
    let h = e[k].0;
    let q = seq![t];
    let toks = longest_first(expand(q));
    let vs = visits(e, toks);
    assert(q.drop_last() =~= Seq::<Seq<char>>::empty());
    assert(term_tokens(t)[1] == h);
    lemma_add_new_keeps(Seq::empty(), term_tokens(t), h);
    assert(q.last() == t);
    assert(expand(q.drop_last()) == Seq::<Seq<char>>::empty());
    assert(expand(q) == add_new(Seq::empty(), term_tokens(t)));
    lemma_sort_by_contains(expand(q), longer_or_equal(), h);
    assert(toks.contains(h));
    lemma_in_posting_list(e, k, h);
    lemma_visit_present(e, toks, h, h);
    assert(vs.take(vs.len() as int) =~= vs);
    lemma_visit_counts(vs, h, h, q);
    assert(h.subrange(0, h.len() as int) =~= h);
    if q.contains(h) {
        let i = choose|i: int| 0 <= i < 1 && q[i] == h;
        assert(q[0] == t);
    }
}

/// A document searched by its own name earns the exact-name class wherever
/// the scan reaches it.
pub proof fn lemma_own_name_is_exact(e: Seq<Entry>, k: int, limit: nat)
    requires
        0 <= k < e.len(),
        ({
            let vs = visits(e, longest_first(expand(seq![e[k].0])));
            visits_made_from(vs, limit, 0) == vs.len()
        }),
    ensures
        ({
            let q = seq![e[k].0];
            let done = scanned(e, longest_first(expand(q)), limit);
            &&& visited_names(done).contains(e[k].0)
            &&& best_class(done, e[k].0, q) == Some(MatchPriority::NameExact)
        }),
{
    let t = e[k].0;
    let q = seq![t];
    let toks = longest_first(expand(q));
    let vs = visits(e, toks);
    assert(q.drop_last() =~= Seq::<Seq<char>>::empty());
    assert(term_tokens(t)[0] == t);
    lemma_add_new_keeps(Seq::empty(), term_tokens(t), t);
    assert(q.last() == t);
    assert(expand(q.drop_last()) == Seq::<Seq<char>>::empty());
    assert(expand(q) == add_new(Seq::empty(), term_tokens(t)));
    lemma_sort_by_contains(expand(q), longer_or_equal(), t);
    assert(toks.contains(t));
    lemma_in_posting_list(e, k, t);
    lemma_visit_present(e, toks, t, t);
    assert(vs.take(vs.len() as int) =~= vs);
    lemma_visit_counts(vs, t, t, q);
    assert(q[0] == t);
}

/// An empty query with a limit of zero, and any query on an empty store, make
/// no candidate, and ranking no candidate gives no result.
pub proof fn lemma_empty_searches(e: Seq<Entry>, terms: Seq<Seq<char>>, limit: nat)
    ensures
        visited_names(scanned(e, longest_first(expand(Seq::empty())), 0)).len() == 0,
        visited_names(scanned(Seq::empty(), longest_first(expand(terms)), limit)).len() == 0,
        ranked(Seq::empty(), Seq::empty(), limit).len() == 0,
{
    let no_items = rank_items(Seq::<Candidate>::empty(), Seq::<u32>::empty());
    assert(no_items.len() == 0);
    assert(sort_by(no_items, ranks_ahead()).len() == 0);
    let none = longest_first(expand(Seq::<Seq<char>>::empty()));
    assert(visits(e, none).len() == 0);
    lemma_visits_of_empty_store(longest_first(expand(terms)));
}

/// Every visit of a scan names a document of the store.
proof fn lemma_visit_member(e: Seq<Entry>, toks: Seq<Seq<char>>, v: Visit)
    requires
        visits(e, toks).contains(v),
    ensures
        has_name(e, v.1),
    decreases toks.len(),
{
    let d = toks.drop_last();
    let w = visits(e, d);
    let l = posting_list(e, toks.last());
    let here = tagged(toks.last(), l);
    let i = choose|i: int| 0 <= i < visits(e, toks).len() && visits(e, toks)[i] == v;
    if i < w.len() {
        assert(w[i] == v);
        lemma_visit_member(e, d, v);
    } else {
        assert(here[i - w.len()] == v);
        lemma_posting_list_member(e, toks.last(), i - w.len());
    }
}

proof fn lemma_visited_name_member(vs: Seq<Visit>, x: Seq<char>)
    requires
        visited_names(vs).contains(x),
    ensures
        exists|i: int| 0 <= i < vs.len() && vs[i].1 == x,
    decreases vs.len(),
{
    let d = vs.drop_last();
    lemma_contains_push(visited_names(d), vs.last().1, x);
    if visited_names(d).contains(x) {
        lemma_visited_name_member(d, x);
        let i = choose|i: int| 0 <= i < d.len() && d[i].1 == x;
        assert(vs[i] == d[i]);
    } else {
        assert(vs[vs.len() - 1] == vs.last());
    }
}

/// A scan never reaches more documents than the store holds.
proof fn lemma_visited_count(e: Seq<Entry>, toks: Seq<Seq<char>>, k: int)
    requires
        0 <= k <= visits(e, toks).len(),
    ensures
        visited_names(visits(e, toks).take(k)).len() <= e.len(),
{
    let vs = visits(e, toks);
    let done = vs.take(k);
    let names = visited_names(done);
    let all = names_of(e);
    lemma_visited_names_distinct(done);
    names.unique_seq_to_set();
    assert(names.to_set().subset_of(all.to_set())) by {
        assert forall|x: Seq<char>| names.to_set().contains(x) implies all.to_set().contains(x) by {
            assert(names.contains(x));
            lemma_visited_name_member(done, x);
            let i = choose|i: int| 0 <= i < done.len() && done[i].1 == x;
            assert(vs.contains(done[i])) by {
                assert(vs[i] == done[i]);
            }
            lemma_visit_member(e, toks, done[i]);
            let j = choose|j: int| #![trigger e[j]] 0 <= j < e.len() && e[j].0 == x;
            assert(all[j] == x);
        }
    }
    all.lemma_cardinality_of_set();
    vstd::set_lib::lemma_len_subset(names.to_set(), all.to_set());
}

/// Where the limit is at least the number of documents, the work budget is
/// never spent.
pub proof fn lemma_budget_unspent(e: Seq<Entry>, toks: Seq<Seq<char>>, limit: nat)
    requires
        e.len() <= limit,
        e.len() > 0,
    ensures
        visits_made_from(visits(e, toks), limit, 0) == visits(e, toks).len(),
{
    lemma_budget_unspent_from(e, toks, limit, 0);
}

proof fn lemma_budget_unspent_from(e: Seq<Entry>, toks: Seq<Seq<char>>, limit: nat, k: int)
    requires
        e.len() <= limit,
        e.len() > 0,
        0 <= k,
    ensures
        visits_made_from(visits(e, toks), limit, k) == visits(e, toks).len(),
    decreases visits(e, toks).len() - k,
{
    let vs = visits(e, toks);
    if k < vs.len() {
        lemma_visited_count(e, toks, k);
        assert(!budget_spent(vs.take(k), limit));
        lemma_budget_unspent_from(e, toks, limit, k + 1);
    }
}

/// A candidate of the scan is among the ranked names where the limit covers
/// every candidate.
proof fn lemma_candidate_ranked(
    cs: Seq<Candidate>,
    keys: Seq<u32>,
    limit: nat,
    i: int,
)
    requires
        keys.len() == cs.len(),
        cs.len() <= limit,
        0 <= i < cs.len(),
    ensures
        ranked(cs, keys, limit).contains(cs[i].name@),
        sort_by(rank_items(cs, keys), ranks_ahead()).contains(rank_item(cs[i], keys[i])),
{
    let items = rank_items(cs, keys);
    let sorted = sort_by(items, ranks_ahead());
    lemma_sort_by_len(items, ranks_ahead());
    assert(items[i] == rank_item(cs[i], keys[i]));
    lemma_sort_by_contains(items, ranks_ahead(), items[i]);
    let j = choose|j: int| 0 <= j < sorted.len() && sorted[j] == items[i];
    assert(sorted.take(sorted.len() as int) =~= sorted);
    let r = ranked(cs, keys, limit);
    assert(r[j] == cs[i].name@);
}

/// The candidate of the scan called `n`, where the scan reached it.
proof fn lemma_candidate_named(
    cs: Seq<Candidate>,
    done: Seq<Visit>,
    e: Seq<Entry>,
    q: Seq<Seq<char>>,
    n: Seq<char>,
) -> (i: int)
    requires
        candidates_are(cs, done, e, q),
        visited_names(done).contains(n),
    ensures
        0 <= i < cs.len(),
        cs[i].name@ == n,
        cs[i].priority == best_class(done, n, q),
{
    let i = choose|i: int| 0 <= i < visited_names(done).len() && visited_names(done)[i] == n;
    assert(candidate_is(cs[i], visited_names(done)[i], done, e, q));
    i
}

/// Searching for a document's alias, with a limit covering the store, ranks
/// the document among the results, as an alias-exact match or better.
pub proof fn lemma_alias_query_ranked(
    e: Seq<Entry>,
    k: int,
    a: int,
    limit: nat,
    cs: Seq<Candidate>,
    keys: Seq<u32>,
)
    requires
        0 <= k < e.len(),
        0 <= a < e[k].1.len(),
        e.len() <= limit,
        candidates_are(
            cs,
            scanned(e, longest_first(expand(seq![e[k].1[a]])), limit),
            e,
            seq![e[k].1[a]],
        ),
        keys.len() == cs.len(),
    ensures
        ranked(cs, keys, limit).contains(e[k].0),
        exists|i: int|
            0 <= i < cs.len() && cs[i].name@ == e[k].0 && rank_of(cs[i].priority)
                <= MatchPriority::AliasExact.spec_rank(),
{
    let q = seq![e[k].1[a]];
    let toks = longest_first(expand(q));
    lemma_budget_unspent(e, toks, limit);
    lemma_alias_query_reaches_document(e, k, a, limit);
    let done = scanned(e, toks, limit);
    let i = lemma_candidate_named(cs, done, e, q, e[k].0);
    lemma_visited_count(e, toks, visits(e, toks).len() as int);
    assert(visits(e, toks).take(visits(e, toks).len() as int) =~= done);
    lemma_candidate_ranked(cs, keys, limit, i);
}

/// A romanised query whose transliteration is a document's name, with a limit
/// covering the store, ranks the document among the results, as a
/// name-prefix match or better.
pub proof fn lemma_romanized_query_ranked(
    e: Seq<Entry>,
    k: int,
    t: Seq<char>,
    limit: nat,
    cs: Seq<Candidate>,
    keys: Seq<u32>,
)
    requires
        0 <= k < e.len(),
        transliteration(t) == Some(e[k].0),
        e[k].0.len() <= NAME_MATCH_MAX,
        e.len() <= limit,
        candidates_are(cs, scanned(e, longest_first(expand(seq![t])), limit), e, seq![t]),
        keys.len() == cs.len(),
    ensures
        ranked(cs, keys, limit).contains(e[k].0),
        exists|i: int|
            0 <= i < cs.len() && cs[i].name@ == e[k].0 && rank_of(cs[i].priority)
                <= MatchPriority::NamePrefix.spec_rank(),
{
    let q = seq![t];
    let toks = longest_first(expand(q));
    lemma_budget_unspent(e, toks, limit);
    lemma_romanized_query_reaches_document(e, k, t, limit);
    let done = scanned(e, toks, limit);
    let i = lemma_candidate_named(cs, done, e, q, e[k].0);
    lemma_visited_count(e, toks, visits(e, toks).len() as int);
    assert(visits(e, toks).take(visits(e, toks).len() as int) =~= done);
    lemma_candidate_ranked(cs, keys, limit, i);
}

/// Searching for a document's own name, with a limit covering the store,
/// ranks the document among the results and ahead of every document that
/// matches only in part (or by a prefix or an alias), whatever the scores.
pub proof fn lemma_own_name_ranked(
    e: Seq<Entry>,
    k: int,
    limit: nat,
    cs: Seq<Candidate>,
    keys: Seq<u32>,
)
    requires
        0 <= k < e.len(),
        e.len() <= limit,
        candidates_are(cs, scanned(e, longest_first(expand(seq![e[k].0])), limit), e, seq![e[k].0]),
        keys.len() == cs.len(),
    ensures
        ranked(cs, keys, limit).contains(e[k].0),
        ({
            let s = sort_by(rank_items(cs, keys), ranks_ahead());
            exists|i: int|
                0 <= i < s.len() && s[i].2 == e[k].0 && s[i].0 == priority_score(
                    Some(MatchPriority::NameExact),
                ) && forall|j: int|
                    0 <= j < s.len() && s[j].0 < s[i].0 ==> i < j
        }),
{
    let q = seq![e[k].0];
    let toks = longest_first(expand(q));
    lemma_budget_unspent(e, toks, limit);
    lemma_own_name_is_exact(e, k, limit);
    let done = scanned(e, toks, limit);
    let c = lemma_candidate_named(cs, done, e, q, e[k].0);
    lemma_visited_count(e, toks, visits(e, toks).len() as int);
    assert(visits(e, toks).take(visits(e, toks).len() as int) =~= done);
    lemma_candidate_ranked(cs, keys, limit, c);
    lemma_ranked_by_class(cs, keys);
    let s = sort_by(rank_items(cs, keys), ranks_ahead());
    let x = rank_item(cs[c], keys[c]);
    let i = choose|i: int| 0 <= i < s.len() && s[i] == x;
    assert forall|j: int| 0 <= j < s.len() && s[j].0 < s[i].0 implies i < j by {
        if j <= i {
            if j < i {
                assert(s[j].0 >= s[i].0);
            }
        }
    }
}

impl Index {
    /// Records that token `t` reached document `name`.
    fn record_visit(
        &self,
        cands: &mut Vec<Candidate>,
        t: &String,
        name: &String,
        terms: &Vec<String>,
        df: usize,
        verbatim: bool,
        Ghost(done): Ghost<Seq<Visit>>,
    )
        requires
            self.wf(),
            candidates_are(old(cands)@, done, self@, views(terms@)),
            has_name(self@, name@),
            df == posting_list(self@, t@).len(),
            verbatim == views(terms@).contains(t@),
        ensures
            candidates_are(final(cands)@, done.push((t@, name@)), self@, views(terms@)),
    {
        let ghost e = self@;
        let ghost q = views(terms@);
        let ghost nd = done.push((t@, name@));
        let ghost names = visited_names(done);
        let ghost before = cands@;
        assert(nd.drop_last() =~= done);
        let cls = classify_visit(t, name, terms, verbatim);
        let hit = Hit { df, verbatim };
        match find_candidate(cands, name) {
            Some(i) => {
                assert(candidate_is(before[i as int], names[i as int], done, e, q));
                assert(names.contains(name@)) by {
                    assert(names[i as int] == name@);
                }
                let mut slot = Candidate {
                    name: String::new(),
                    n_aliases: 0,
                    hits: Vec::new(),
                    priority: None,
                    exact_bonus: false,
                    containment_bonus: false,
                };
                cands.set_and_swap(i, &mut slot);
                let ghost old_hits = slot.hits@;
                slot.hits.push(hit);
                slot.priority = best(slot.priority, cls);
                assert(hits_view(slot.hits@) =~= hits_view(old_hits).push((df as nat, verbatim)));
                cands.set_and_swap(i, &mut slot);
                proof {
                    assert(visited_names(nd) == names);
                    assert forall|k: int| 0 <= k < cands@.len() implies candidate_is(
                        #[trigger] cands@[k],
                        visited_names(nd)[k],
                        nd,
                        e,
                        q,
                    ) by {
                        assert(candidate_is(before[k], names[k], done, e, q));
                        if k != i {
                            assert(cands@[k] == before[k]);
                            lemma_visited_names_distinct(done);
                            assert(names[k] != names[i as int]);
                        } else {
                            assert(names[k] == name@);
                        }
                    }
                }
            },
            None => {
                proof {
                    if names.contains(name@) {
                        let k = choose|k: int| 0 <= k < names.len() && names[k] == name@;
                        assert(candidate_is(before[k], names[k], done, e, q));
                    }
                    lemma_unvisited(done, name@, e, q);
                }
                let aliases = self.aliases_of(name).unwrap();
                let mut hits: Vec<Hit> = Vec::new();
                hits.push(hit);
                assert(hits_view(hits@) =~= Seq::<(nat, bool)>::empty().push((df as nat, verbatim)));
                let c = Candidate {
                    name: name.clone(),
                    n_aliases: aliases.len(),
                    hits,
                    priority: best(None, cls),
                    exact_bonus: holds(terms, name),
                    containment_bonus: is_query_contained(name, aliases, terms),
                };
                cands.push(c);
                proof {
                    assert(visited_names(nd) == names.push(name@));
                    assert forall|k: int| 0 <= k < cands@.len() implies candidate_is(
                        #[trigger] cands@[k],
                        visited_names(nd)[k],
                        nd,
                        e,
                        q,
                    ) by {
                        if k < before.len() {
                            assert(candidate_is(before[k], names[k], done, e, q));
                            assert(cands@[k] == before[k]);
                            assert(names[k] != name@);
                            assert(visited_names(nd)[k] == names[k]);
                            assert(hits_of(nd, names[k], e, q) == hits_of(done, names[k], e, q));
                            assert(best_class(nd, names[k], q) == best_class(done, names[k], q));
                            assert(candidate_is(cands@[k], names[k], nd, e, q));
                        } else {
                            assert(visited_names(nd)[k] == name@);
                            assert(hits_of(nd, name@, e, q) == hits_view(cands@[k].hits@));
                            assert(best_class(nd, name@, q) == cands@[k].priority);
                            assert(views(aliases@).len() == aliases@.len());
                            assert(cands@[k].n_aliases == aliases_named(e, name@).len());
                            assert(cands@[k].exact_bonus == q.contains(name@));
                            assert(cands@[k].containment_bonus == query_contained(name@, aliases_named(e, name@), q));
                            assert(cands@[k].name@ == name@);
                            assert(candidate_is(cands@[k], name@, nd, e, q));
                        }
                    }
                }
            },
        }
    }

    /// Walks the postings lists of `toks` in order and gathers the documents
    /// they reach, until the work budget is spent.
    fn scan(&self, toks: &Vec<String>, terms: &Vec<String>, limit: usize) -> (r: Vec<Candidate>)
        requires
            self.wf(),
        ensures
            candidates_are(r@, scanned(self@, views(toks@), limit as nat), self@, views(terms@)),
    {
        let ghost e = self@;
        let ghost q = views(terms@);
        let ghost ts = views(toks@);
        let ghost vs = visits(e, ts);
        let ghost mut done: Seq<Visit> = Seq::empty();
        let cap: u128 = 10 * (limit as u128) + 1;
        let want: u128 = 2 * (limit as u128);
        let mut made: u128 = 0;
        let mut cands: Vec<Candidate> = Vec::new();
        let mut halted = false;
        let mut ti: usize = 0;
        assert(ts.take(0) =~= Seq::<Seq<char>>::empty());
        assert(vs.take(0) =~= done);
        while ti < toks.len() && !halted
            invariant
                self.wf(),
                e == self@,
                q == views(terms@),
                ts == views(toks@),
                vs == visits(e, ts),
                cap == 10 * limit + 1,
                want == 2 * limit,
                ti <= toks@.len(),
                !halted ==> done == visits(e, ts.take(ti as int)),
                done.len() <= vs.len(),
                vs.take(done.len() as int) == done,
                made == if done.len() < cap { done.len() as int } else { cap as int },
                candidates_are(cands@, done, e, q),
                halted ==> visits_made_from(vs, limit as nat, 0) == done.len(),
                !halted ==> visits_made_from(vs, limit as nat, 0) == visits_made_from(
                    vs,
                    limit as nat,
                    done.len() as int,
                ),
            decreases toks@.len() - ti,
        {
            let ghost t = ts[ti as int];
            proof {
                lemma_visits_push(e, ts, ti as int);
                lemma_visits_prefix(e, ts, ti + 1);
                assert(toks@[ti as int]@ == t);
            }
            let ghost base = done;
            match self.postings_for(&toks[ti]) {
                None => {
                    assert(tagged(t, posting_list(e, t)) =~= Seq::<Visit>::empty());
                    assert(base + Seq::<Visit>::empty() =~= base);
                },
                Some(list) => {
                    let verbatim = holds(terms, &toks[ti]);
                    let df = list.len();
                    let ghost full = base + tagged(t, views(list@));
                    let mut j: usize = 0;
                    assert(views(list@).take(0) =~= Seq::<Seq<char>>::empty());
                    assert(base + tagged(t, Seq::<Seq<char>>::empty()) =~= base);
                    while j < list.len() && !halted
                        invariant
                            self.wf(),
                            e == self@,
                            q == views(terms@),
                            vs == visits(e, ts),
                            cap == 10 * limit + 1,
                            want == 2 * limit,
                            ti < toks@.len(),
                            ts.len() == toks@.len(),
                            t == ts[ti as int],
                            toks@[ti as int]@ == t,
                            views(list@) == posting_list(e, t),
                            df == list@.len(),
                            verbatim == q.contains(t),
                            base == visits(e, ts.take(ti as int)),
                            full == base + tagged(t, views(list@)),
                            full == visits(e, ts.take(ti + 1)),
                            full.len() <= vs.len(),
                            vs.take(full.len() as int) == full,
                            j <= list@.len(),
                            !halted ==> done == base + tagged(t, views(list@).take(j as int)),
                            halted ==> done.len() < vs.len(),
                            done.len() <= vs.len(),
                            vs.take(done.len() as int) == done,
                            made == if done.len() < cap { done.len() as int } else { cap as int },
                            candidates_are(cands@, done, e, q),
                            halted ==> visits_made_from(vs, limit as nat, 0) == done.len(),
                            !halted ==> visits_made_from(vs, limit as nat, 0) == visits_made_from(
                                vs,
                                limit as nat,
                                done.len() as int,
                            ),
                        decreases list@.len() - j + (if halted {
                            0int
                        } else {
                            1int
                        }),
                    {
                        proof {
                            assert(tagged(t, views(list@)).take(j as int) =~= tagged(
                                t,
                                views(list@).take(j as int),
                            ));
                            assert(done =~= full.take(done.len() as int));
                            assert(done.len() < full.len());
                            assert(vs.take(done.len() as int) =~= full.take(done.len() as int));
                        }
                        if made >= cap && (cands.len() as u128) >= want {
                            proof {
                                assert(budget_spent(vs.take(done.len() as int), limit as nat));
                            }
                            halted = true;
                        } else {
                            proof {
                                assert(!budget_spent(vs.take(done.len() as int), limit as nat));
                                assert(views(list@)[j as int] == list@[j as int]@);
                                lemma_posting_list_member(e, t, j as int);
                            }
                            self.record_visit(
                                &mut cands,
                                &toks[ti],
                                &list[j],
                                terms,
                                df,
                                verbatim,
                                Ghost(done),
                            );
                            proof {
                                let next = done.push((t, list@[j as int]@));
                                assert(views(list@).take(j + 1) =~= views(list@).take(
                                    j as int,
                                ).push(list@[j as int]@));
                                assert(tagged(t, views(list@).take(j + 1)) =~= tagged(
                                    t,
                                    views(list@).take(j as int),
                                ).push((t, list@[j as int]@)));
                                assert(next =~= full.take(next.len() as int));
                                assert(vs.take(next.len() as int) =~= full.take(
                                    next.len() as int,
                                ));
                                done = next;
                            }
                            made = if made < cap {
                                made + 1
                            } else {
                                made
                            };
                            j = j + 1;
                        }
                    }
                },
            }
            ti = ti + 1;
        }
        proof {
            if !halted {
                assert(ts.take(ts.len() as int) =~= ts);
            }
        }
        cands
    }

    /// The documents that a query reaches, with what their ranking is computed
    /// from: the query is expanded, its tokens are taken longest first, and
    /// their postings lists are walked until the work budget of `limit` is
    /// spent.
    pub fn search_candidates(&self, terms: &Vec<String>, limit: usize) -> (r: Vec<Candidate>)
        requires
            self.wf(),
        ensures
            candidates_are(
                r@,
                scanned(self@, longest_first(expand(views(terms@))), limit as nat),
                self@,
                views(terms@),
            ),
            self@.len() == 0 ==> r@.len() == 0,
    {
        let toks = sort_longest_first(expand_query(terms));
        let r = self.scan(&toks, terms, limit);
        proof {
            if self@.len() == 0 {
                assert(self@ =~= Seq::<Entry>::empty());
                lemma_visits_of_empty_store(longest_first(expand(views(terms@))));
            }
        }
        r
    }
}

} // verus!
