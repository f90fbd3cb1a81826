use vstd::prelude::*;

use vstd::hash_map::StringHashMap;

use crate::cache::StringCache;
use crate::engine::{and_results, str_views, unified_matches, unified_results, SearchEngine};
use vstd::math::min;
use crate::order::lemma_contains_push;
use crate::query::holds;
use crate::text::{same_text, views};
use crate::tokenize::{bigrams, tokenize_2gram};

verus! {

/// A document as the store sees it: its name and its aliases.
pub type Entry = (Seq<char>, Seq<Seq<char>>);

/// A named document with its list of aliases.
#[derive(Debug)]
pub struct Document {
    pub name: String,
    pub aliases: Vec<String>,
}

/// What a document holds, as plain sequences.
pub open spec fn entry_of(d: Document) -> Entry {
    (d.name@, views(d.aliases@))
}

/// What a list of documents holds, in order.
pub open spec fn entries_of(ds: Seq<Document>) -> Seq<Entry> {
    ds.map_values(|d: Document| entry_of(d))
}

/// No two entries share a name.
pub open spec fn names_unique(e: Seq<Entry>) -> bool {
    forall|i: int, j: int| 0 <= i < j < e.len() ==> e[i].0 != e[j].0
}

/// Token `t` is derived from the document: it is the name, an alias, or one of
/// their bigrams.
pub open spec fn has_token(e: Entry, t: Seq<char>) -> bool {
    ||| t == e.0
    ||| bigrams(e.0).contains(t)
    ||| exists|k: int| 0 <= k < e.1.len() && #[trigger] alias_token(e.1, k, t)
}

/// Token `t` is alias `k` itself or one of its bigrams.
pub open spec fn alias_token(aliases: Seq<Seq<char>>, k: int, t: Seq<char>) -> bool {
    aliases[k] == t || bigrams(aliases[k]).contains(t)
}

/// The postings list of token `t`: the names of the documents that hold it, in
/// store order.
pub open spec fn posting_list(e: Seq<Entry>, t: Seq<char>) -> Seq<Seq<char>>
    decreases e.len(),
{
    if e.len() == 0 {
        Seq::empty()
    } else {
        let rest = posting_list(e.drop_last(), t);
        if has_token(e.last(), t) {
            rest.push(e.last().0)
        } else {
            rest
        }
    }
}

/// The store without the document called `name`.
pub open spec fn without_name(e: Seq<Entry>, name: Seq<char>) -> Seq<Entry> {
    e.filter(not_named(name))
}

/// Holds of an entry with another name than `name`.
pub open spec fn not_named(name: Seq<char>) -> spec_fn(Entry) -> bool {
    |x: Entry| x.0 != name
}

/// Holds of a text other than `name`.
pub open spec fn other_than(name: Seq<char>) -> spec_fn(Seq<char>) -> bool {
    |x: Seq<char>| x != name
}

/// The store after adding a document: any earlier document of that name goes,
/// and the new one comes last.
pub open spec fn with_document(e: Seq<Entry>, name: Seq<char>, aliases: Seq<Seq<char>>) -> Seq<
    Entry,
> {
    without_name(e, name).push((name, aliases))
}

/// The store after adding each document of `ds` in turn.
pub open spec fn with_documents(e: Seq<Entry>, ds: Seq<Entry>) -> Seq<Entry>
    decreases ds.len(),
{
    if ds.len() == 0 {
        e
    } else {
        let prev = with_documents(e, ds.drop_last());
        with_document(prev, ds.last().0, ds.last().1)
    }
}

/// Some entry is called `name`.
pub open spec fn has_name(e: Seq<Entry>, name: Seq<char>) -> bool {
    exists|i: int| #![trigger e[i]] 0 <= i < e.len() && e[i].0 == name
}

/// The aliases of the entry called `name`.
pub open spec fn aliases_named(e: Seq<Entry>, name: Seq<char>) -> Seq<Seq<char>> {
    let i = choose|i: int| 0 <= i < e.len() && e[i].0 == name;
    e[i].1
}

/// The document store with its postings index.
///
/// The postings index keeps each list in a slot: `slots` maps a token to its
/// slot, `tokens[s]` names the token of slot `s` and `lists[s]` holds its
/// list. A slot whose token leaves the index is not reused.
pub struct Index {
    docs: Vec<Document>,
    slots: StringHashMap<usize>,
    tokens: Vec<String>,
    lists: Vec<Vec<String>>,
    n_docs: usize,
    cache: StringCache,
}

impl View for Index {
    type V = Seq<Entry>;

    closed spec fn view(&self) -> Seq<Entry> {
        entries_of(self.docs@)
    }
}

impl Index {
    /// The postings index is exactly the one derived from the store, and the
    /// count matches the store.
    pub closed spec fn wf(&self) -> bool {
        &&& self.n_docs == self.docs@.len()
        &&& self.cache.wf()
        &&& names_unique(self@)
        &&& self.tokens@.len() == self.lists@.len()
        &&& forall|t: Seq<char>| #[trigger]
            self.slots@.contains_key(t) ==> slot_holds(
                self.slots@[t],
                t,
                self.tokens@,
                self.lists@,
                posting_list(self@, t),
            )
        &&& forall|t: Seq<char>| #[trigger]
            posting_list(self@, t).len() > 0 ==> self.slots@.contains_key(t)
    }

    /// Some postings list of the index names `name`.
    pub closed spec fn references(&self, name: Seq<char>) -> bool {
        exists|t: Seq<char>|
            self.slots@.contains_key(t) && views(
                #[trigger] self.lists@[self.slots@[t] as int]@,
            ).contains(name)
    }

    /// The position of the document called `name`, where there is one.
    fn find_doc(&self, name: &String) -> (r: Option<usize>)
        ensures
            match r {
                Some(i) => i < self.docs@.len() && self.docs@[i as int].name@ == name@,
                None => forall|i: int| 0 <= i < self.docs@.len() ==> self.docs@[i].name@ != name@,
            },
    {
        let mut i: usize = 0;
        while i < self.docs.len()
            invariant
                i <= self.docs@.len(),
                forall|j: int| 0 <= j < i ==> self.docs@[j].name@ != name@,
            decreases self.docs@.len() - i,
        {
            if same_text(&self.docs[i].name, name) {
                return Some(i);
            }
            i = i + 1;
        }
        None
    }

    /// An empty index.
    pub fn new() -> (r: Index)
        ensures
            r.wf(),
            r@ == Seq::<Entry>::empty(),
    {
        let r = Index {
            docs: Vec::new(),
            slots: StringHashMap::new(),
            tokens: Vec::new(),
            lists: Vec::new(),
            n_docs: 0,
            cache: StringCache::new(),
        };
        assert(r@ =~= Seq::<Entry>::empty());
        r
    }

    /// The number of live documents.
    pub fn n_docs(&self) -> (r: usize)
        requires
            self.wf(),
        ensures
            r == self@.len(),
    {
        self.n_docs
    }

    /// The documents of the store, in the order they were added.
    pub fn documents(&self) -> (r: &Vec<Document>)
        ensures
            entries_of(r@) == self@,
    {
        &self.docs
    }

    /// Adds a document; one of the same name that the store held before goes
    /// first, from the store and from the postings index.
    pub fn add_document(&mut self, name: &str, aliases: Vec<String>)
        requires
            old(self).wf(),
        ensures
            final(self).wf(),
            final(self)@ == with_document(old(self)@, name@, views(aliases@)),
            final(self)@.len() == old(self)@.len() + (if has_name(old(self)@, name@) {
                0int
            } else {
                1int
            }),
    {
        let name = name.to_owned();
        let ghost e = self@;
        self.remove_doc(&name);
        proof {
            lemma_without_drops(e, name@);
            lemma_without_len(e, name@);
        }
        self.add_new_doc(name, aliases);
    }

    /// Adds each document in turn, as `add_document` does.
    pub fn add_documents(&mut self, documents: Vec<Document>)
        requires
            old(self).wf(),
        ensures
            final(self).wf(),
            final(self)@ == with_documents(old(self)@, entries_of(documents@)),
            names_of(final(self)@).to_set() == names_of(old(self)@).to_set() + names_of(
                entries_of(documents@),
            ).to_set(),
            final(self)@.len() == (names_of(old(self)@).to_set() + names_of(
                entries_of(documents@),
            ).to_set()).len(),
    {
        let ghost e = self@;
        let ghost ds = entries_of(documents@);
        for doc in it: documents.into_iter()
            invariant
                self.wf(),
                ds == entries_of(it.seq()),
                self@ == with_documents(e, ds.take(it.index() as int)),
        {
            let ghost k = it.index() as int;
            let Document { name, aliases } = doc;
            self.add_document(name.as_str(), aliases);
            proof {
                assert(ds.take(k + 1).drop_last() =~= ds.take(k));
                assert(ds[k] == entry_of(it.seq()[k]));
            }
        }
        proof {
            assert(ds.take(ds.len() as int) =~= ds);
            lemma_with_documents_names(e, ds);
            lemma_names_unique(self);
            lemma_count_is_distinct_names(self@);
        }
    }

    /// Removes the document called `name`; false, with nothing changed, where
    /// there is none.
    pub fn remove_document(&mut self, name: &str) -> (r: bool)
        requires
            old(self).wf(),
        ensures
            final(self).wf(),
            r == has_name(old(self)@, name@),
            final(self)@ == without_name(old(self)@, name@),
            !final(self).references(name@),
            r ==> final(self)@.len() == old(self)@.len() - 1,
            !r ==> final(self)@ == old(self)@,
    {
        let name = name.to_owned();
        let ghost e = self@;
        let r = self.remove_doc(&name);
        proof {
            if r {
                let k = choose|k: int| 0 <= k < e.len() && #[trigger] e[k].0 == name@;
                lemma_remove_is_without(e, k);
            } else {
                lemma_without_absent(e, name@);
            }
        }
        r
    }

    /// Replaces the aliases of the document called `name`; false, with
    /// nothing changed, where there is none.
    pub fn update_document(&mut self, name: &str, aliases: Vec<String>) -> (r: bool)
        requires
            old(self).wf(),
        ensures
            final(self).wf(),
            r == has_name(old(self)@, name@),
            r ==> final(self)@ == with_document(old(self)@, name@, views(aliases@)),
            r ==> final(self)@.len() == old(self)@.len(),
            !r ==> final(self)@ == old(self)@,
    {
        let key = name.to_owned();
        let found = self.find_doc(&key);
        match found {
            None => {
                proof {
                    assert forall|i: int| 0 <= i < self@.len() implies #[trigger] self@[i].0
                        != name@ by {
                        assert(self@[i] == entry_of(self.docs@[i]));
                    }
                    assert(!has_name(self@, name@));
                }
                false
            },
            Some(k) => {
                assert(self@[k as int] == entry_of(self.docs@[k as int]));
                assert(has_name(self@, name@));
                self.add_document(name, aliases);
                true
            },
        }
    }

    /// Empties the store and the postings index, then adds `documents`.
    pub fn replace_all_documents(&mut self, documents: Vec<Document>)
        requires
            old(self).wf(),
        ensures
            final(self).wf(),
            final(self)@ == with_documents(Seq::empty(), entries_of(documents@)),
    {
        self.clear_index();
        self.add_documents(documents);
    }

    /// Empties the store and the postings index.
    pub fn clear_index(&mut self)
        ensures
            final(self).wf(),
            final(self)@ == Seq::<Entry>::empty(),
    {
        self.docs = Vec::new();
        self.slots.clear();
        self.tokens = Vec::new();
        self.lists = Vec::new();
        self.n_docs = 0;
        self.cache.clear();
        assert(self@ =~= Seq::<Entry>::empty());
    }

    /// AND search over the store, as `SearchEngine::search_and` gives it; the
    /// normalised forms it computes stay in the index's cache.
    pub fn search_and(&mut self, keywords: Vec<&str>, limit: usize) -> (r: Vec<String>)
        requires
            old(self).wf(),
        ensures
            final(self).wf(),
            final(self)@ == old(self)@,
            views(r@) == and_results(old(self)@, str_views(keywords@), limit as nat),
            views(r@).no_duplicates(),
            r@.len() <= limit,
    {
        let mut engine = SearchEngine { doc_aliases: &self.docs, cache: &mut self.cache };
        let r = engine.search_and(keywords, limit);
        proof {
            assert(has_resolved(engine));
        }
        assert(self.lists@ == old(self).lists@);
        assert(self@ == old(self)@);
        r
    }

    /// Unified search over the store, as `SearchEngine::search_unified` gives
    /// it; the normalised forms it computes stay in the index's cache.
    pub fn search_unified(&mut self, queries: &Vec<String>, limit: usize) -> (r: Vec<String>)
        requires
            old(self).wf(),
        ensures
            final(self).wf(),
            final(self)@ == old(self)@,
            views(r@) == unified_results(old(self)@, views(queries@), limit as nat),
            views(r@).no_duplicates(),
            r@.len() == min(
                limit as int,
                min(2 * limit as int, unified_matches(old(self)@, views(queries@)).len() as int),
            ),
    {
        let mut engine = SearchEngine { doc_aliases: &self.docs, cache: &mut self.cache };
        let r = engine.search_unified(queries, limit);
        proof {
            assert(has_resolved(engine));
        }
        assert(self.lists@ == old(self).lists@);
        assert(self@ == old(self)@);
        r
    }

    /// Drops the document called `name`, if there is one, from the store and
    /// from the postings list of each of its tokens; lists left empty go.
    fn remove_doc(&mut self, name: &String) -> (r: bool)
        requires
            old(self).wf(),
        ensures
            final(self).wf(),
            r == has_name(old(self)@, name@),
            final(self)@ == without_name(old(self)@, name@),
            !final(self).references(name@),
    {
        let ghost e = self@;
        let found = self.find_doc(name);
        if found.is_none() {
            proof {
                assert forall|i: int| 0 <= i < e.len() implies #[trigger] e[i].0 != name@ by {
                    assert(e[i] == entry_of(self.docs@[i]));
                }
                lemma_without_absent(e, name@);
                assert forall|t: Seq<char>|
                    self.slots@.contains_key(t) implies !views(
                    #[trigger] self.lists@[self.slots@[t] as int]@,
                ).contains(name@) by {
                    let l = posting_list(e, t);
                    if l.contains(name@) {
                        let j = choose|j: int| 0 <= j < l.len() && l[j] == name@;
                        lemma_posting_list_member(e, t, j);
                    }
                }
            }
            return false;
        }
        let k = found.unwrap();
        let ghost x = e[k as int];
        assert(x == entry_of(self.docs@[k as int]));
        let doc_tokens = document_tokens(&self.docs[k].name, &self.docs[k].aliases);
        self.cache.remove_document(name, &self.docs[k].aliases);
        self.docs.remove(k);
        proof {
            assert(entries_of(self.docs@) =~= e.remove(k as int));
            lemma_remove_is_without(e, k as int);
            lemma_without_unique(e, name@);
        }
        let ghost ne = self@;
        let mut i: usize = 0;
        while i < doc_tokens.len()
            invariant
                i <= doc_tokens@.len(),
                self@ == ne,
                ne == without_name(e, name@),
                names_unique(e),
                names_unique(ne),
                0 <= k < e.len(),
                x == e[k as int],
                x.0 == name@,
                self.n_docs == old(self).n_docs,
                self.docs@.len() + 1 == old(self).docs@.len(),
                self.cache.wf(),
                views(doc_tokens@).no_duplicates(),
                forall|t: Seq<char>|
                    #![trigger views(doc_tokens@).contains(t)]
                    views(doc_tokens@).contains(t) <==> has_token(x, t),
                self.tokens@.len() == self.lists@.len(),
                forall|t: Seq<char>| #[trigger]
                    self.slots@.contains_key(t) ==> slot_holds(
                        self.slots@[t],
                        t,
                        self.tokens@,
                        self.lists@,
                        if done_upto(views(doc_tokens@), i as int, t) {
                            posting_list(ne, t)
                        } else {
                            posting_list(e, t)
                        },
                    ),
                forall|t: Seq<char>|
                    #[trigger] list_so_far(views(doc_tokens@), i as int, e, ne, t).len() > 0
                        ==> self.slots@.contains_key(t),
            decreases doc_tokens@.len() - i,
        {
            let ghost t = doc_tokens@[i as int]@;
            proof {
                assert(views(doc_tokens@)[i as int] == t);
                assert(views(doc_tokens@).contains(t));
                lemma_in_posting_list(e, k as int, t);
                lemma_done_step(views(doc_tokens@), i as int);
                assert(!done_upto(views(doc_tokens@), i as int, t));
                lemma_posting_list_without(e, name@, t);
                assert(list_so_far(views(doc_tokens@), i as int, e, ne, t).len() > 0);
            }
            let ghost old_slots = self.slots@;
            let ghost old_tokens = self.tokens@;
            let ghost old_lists = self.lists@;
            let s = *self.slots.get(doc_tokens[i].as_str()).unwrap();
            let mut list: Vec<String> = Vec::new();
            self.lists.set_and_swap(s, &mut list);
            assert(views(list@) == posting_list(e, t));
            let kept = strip_name(&list, name);
            assert(views(kept@) == posting_list(ne, t));
            if kept.len() == 0 {
                self.slots.remove(doc_tokens[i].as_str());
            } else {
                self.lists.set(s, kept);
            }
            proof {
                assert forall|u: Seq<char>|
                    u != t && #[trigger] old_slots.contains_key(u) implies self.slots@.contains_key(u)
                        && self.slots@[u] == old_slots[u] && self.lists@[old_slots[u] as int]
                        == old_lists[old_slots[u] as int] by {
                    assert(old_tokens[old_slots[u] as int]@ == u);
                    assert(old_tokens[s as int]@ == t);
                }
                assert forall|u: Seq<char>| #[trigger]
                    self.slots@.contains_key(u) implies slot_holds(
                    self.slots@[u],
                    u,
                    self.tokens@,
                    self.lists@,
                    if done_upto(views(doc_tokens@), i + 1, u) {
                        posting_list(ne, u)
                    } else {
                        posting_list(e, u)
                    },
                ) by {
                    if u != t {
                        assert(done_upto(views(doc_tokens@), i + 1, u) == done_upto(
                            views(doc_tokens@),
                            i as int,
                            u,
                        ));
                    }
                }
                assert forall|u: Seq<char>|
                    #[trigger] list_so_far(views(doc_tokens@), i + 1, e, ne, u).len() > 0
                        implies self.slots@.contains_key(u) by {
                    if u != t {
                        assert(list_so_far(views(doc_tokens@), i as int, e, ne, u).len() > 0);
                        assert(done_upto(views(doc_tokens@), i + 1, u) == done_upto(
                            views(doc_tokens@),
                            i as int,
                            u,
                        ));
                        assert(posting_list(e, u) == posting_list(e, u));
                        assert(old_slots.contains_key(u));
                    }
                }
            }
            i = i + 1;
        }
        proof {
            assert forall|u: Seq<char>|
                #![trigger posting_list(ne, u)]
                !done_upto(views(doc_tokens@), i as int, u) implies posting_list(ne, u)
                == posting_list(e, u) by {
                if views(doc_tokens@).contains(u) {
                    let j = choose|j: int|
                        0 <= j < views(doc_tokens@).len() && views(doc_tokens@)[j] == u;
                    assert(done_upto(views(doc_tokens@), i as int, u));
                }
                lemma_posting_list_without(e, name@, u);
                lemma_not_listed(e, k as int, u);
            }
            assert forall|t: Seq<char>| #[trigger]
                self.slots@.contains_key(t) implies slot_holds(
                self.slots@[t],
                t,
                self.tokens@,
                self.lists@,
                posting_list(self@, t),
            ) by {
                assert(posting_list(ne, t) == posting_list(ne, t));
            }
            assert forall|t: Seq<char>| #[trigger]
                posting_list(self@, t).len() > 0 implies self.slots@.contains_key(t) by {
                assert(posting_list(ne, t) == posting_list(ne, t));
                assert(list_so_far(views(doc_tokens@), i as int, e, ne, t).len() > 0);
            }
            assert forall|t: Seq<char>|
                self.slots@.contains_key(t) implies !views(
                #[trigger] self.lists@[self.slots@[t] as int]@,
            ).contains(name@) by {
                assert(posting_list(ne, t) == posting_list(ne, t));
                lemma_posting_list_without(e, name@, t);
                let l = posting_list(ne, t);
                if l.contains(name@) {
                    let j = choose|j: int| 0 <= j < l.len() && l[j] == name@;
                    posting_list(e, t).lemma_filter_pred(other_than(name@), j);
                }
            }
        }
        self.n_docs = self.docs.len();
        true
    }

    /// Adds a document whose name the store does not hold: it comes last in
    /// the store and in the postings list of each of its tokens.
    fn add_new_doc(&mut self, name: String, aliases: Vec<String>)
        requires
            old(self).wf(),
            !has_name(old(self)@, name@),
        ensures
            final(self).wf(),
            final(self)@ == old(self)@.push((name@, views(aliases@))),
    {
        let doc_tokens = document_tokens(&name, &aliases);
        let ghost e = self@;
        let ghost x: Entry = (name@, views(aliases@));
        let ghost ne = e.push(x);
        let mut a: usize = 0;
        while a < aliases.len()
            invariant
                self.cache.wf(),
                self@ == e,
                self.slots@ == old(self).slots@,
                self.tokens@ == old(self).tokens@,
                self.lists@ == old(self).lists@,
                self.n_docs == old(self).n_docs,
                a <= aliases@.len(),
            decreases aliases@.len() - a,
        {
            self.cache.add_alias_mapping(aliases[a].clone(), name.clone());
            a = a + 1;
        }
        self.docs.push(Document { name: name.clone(), aliases });
        assert(self@ =~= ne);
        self.n_docs = self.docs.len();
        proof {
            assert(names_unique(ne)) by {
                assert forall|a: int, b: int| 0 <= a < b < ne.len() implies ne[a].0 != ne[b].0 by {
                    if b == e.len() {
                        assert(e[a].0 != name@);
                    } else {
                        assert(ne[a] == e[a] && ne[b] == e[b]);
                    }
                }
            }
        }
        let mut i: usize = 0;
        while i < doc_tokens.len()
            invariant
                i <= doc_tokens@.len(),
                self@ == ne,
                ne == e.push(x),
                x.0 == name@,
                self.n_docs == self.docs@.len(),
                self.cache.wf(),
                names_unique(ne),
                views(doc_tokens@).no_duplicates(),
                forall|t: Seq<char>|
                    #![trigger views(doc_tokens@).contains(t)]
                    views(doc_tokens@).contains(t) <==> has_token(x, t),
                self.tokens@.len() == self.lists@.len(),
                forall|t: Seq<char>| #[trigger]
                    self.slots@.contains_key(t) ==> slot_holds(
                        self.slots@[t],
                        t,
                        self.tokens@,
                        self.lists@,
                        if done_upto(views(doc_tokens@), i as int, t) {
                            posting_list(ne, t)
                        } else {
                            posting_list(e, t)
                        },
                    ),
                forall|t: Seq<char>| #[trigger]
                    posting_list(e, t).len() > 0 ==> self.slots@.contains_key(t),
                forall|t: Seq<char>|
                    done_upto(views(doc_tokens@), i as int, t) ==> #[trigger] self.slots@.contains_key(t),
            decreases doc_tokens@.len() - i,
        {
            let ghost t = doc_tokens@[i as int]@;
            proof {
                assert(views(doc_tokens@)[i as int] == t);
                assert(views(doc_tokens@).contains(t));
                assert(has_token(x, t));
                lemma_posting_list_push(e, x, t);
                lemma_done_step(views(doc_tokens@), i as int);
                assert(!done_upto(views(doc_tokens@), i as int, t));
            }
            let ghost old_slots = self.slots@;
            let ghost old_tokens = self.tokens@;
            let ghost old_lists = self.lists@;
            match self.slots.get(doc_tokens[i].as_str()) {
                Some(sref) => {
                    let s = *sref;
                    let mut list: Vec<String> = Vec::new();
                    self.lists.set_and_swap(s, &mut list);
                    let ghost prev = list@;
                    assert(views(prev) == posting_list(e, t));
                    list.push(name.clone());
                    assert(views(list@) =~= views(prev).push(name@));
                    self.lists.set(s, list);
                    assert(views(self.lists@[s as int]@) == posting_list(ne, t));
                    proof {
                        assert(old_tokens[s as int]@ == t);
                        assert forall|u: Seq<char>|
                            u != t && #[trigger] old_slots.contains_key(u) implies self.slots@[u]
                                == old_slots[u] && self.lists@[old_slots[u] as int]
                                == old_lists[old_slots[u] as int] && self.tokens@[old_slots[u] as int]
                                == old_tokens[old_slots[u] as int] by {
                            assert(old_tokens[old_slots[u] as int]@ == u);
                        }
                    }
                },
                None => {
                    let s = self.lists.len();
                    let mut list: Vec<String> = Vec::new();
                    list.push(name.clone());
                    assert(views(list@) =~= Seq::<Seq<char>>::empty().push(name@));
                    assert(posting_list(e, t).len() == 0);
                    self.lists.push(list);
                    self.tokens.push(doc_tokens[i].clone());
                    self.slots.insert(doc_tokens[i].clone(), s);
                    assert(self.tokens@[s as int]@ == t);
                    assert(views(self.lists@[s as int]@) == posting_list(ne, t));
                    proof {
                        assert forall|u: Seq<char>|
                            u != t && #[trigger] old_slots.contains_key(u) implies self.slots@[u]
                                == old_slots[u] && self.lists@[old_slots[u] as int]
                                == old_lists[old_slots[u] as int] && self.tokens@[old_slots[u] as int]
                                == old_tokens[old_slots[u] as int] by {
                            assert(old_slots[u] < old_lists.len());
                        }
                    }
                },
            }
            proof {
                assert forall|u: Seq<char>| #[trigger]
                    self.slots@.contains_key(u) implies slot_holds(
                    self.slots@[u],
                    u,
                    self.tokens@,
                    self.lists@,
                    if done_upto(views(doc_tokens@), i + 1, u) {
                        posting_list(ne, u)
                    } else {
                        posting_list(e, u)
                    },
                ) by {
                    if u != t {
                        assert(done_upto(views(doc_tokens@), i + 1, u) == done_upto(
                            views(doc_tokens@),
                            i as int,
                            u,
                        ));
                        assert(old_slots.contains_key(u));
                    }
                }
                assert forall|u: Seq<char>|
                    done_upto(views(doc_tokens@), i + 1, u) implies #[trigger] self.slots@.contains_key(u) by {
                    if u != t {
                        assert(done_upto(views(doc_tokens@), i as int, u));
                    }
                }
            }
            i = i + 1;
        }
        proof {
            assert forall|u: Seq<char>|
                #![trigger posting_list(ne, u)]
                !done_upto(views(doc_tokens@), i as int, u) implies posting_list(ne, u)
                == posting_list(e, u) by {
                lemma_posting_list_push(e, x, u);
                if has_token(x, u) {
                    assert(views(doc_tokens@).contains(u));
                    let j = choose|j: int|
                        0 <= j < views(doc_tokens@).len() && views(doc_tokens@)[j] == u;
                    assert(done_upto(views(doc_tokens@), i as int, u));
                }
            }
            assert forall|t: Seq<char>| #[trigger]
                self.slots@.contains_key(t) implies slot_holds(
                self.slots@[t],
                t,
                self.tokens@,
                self.lists@,
                posting_list(self@, t),
            ) by {
                assert(posting_list(ne, t) == posting_list(ne, t));
            }
            assert forall|t: Seq<char>| #[trigger]
                posting_list(self@, t).len() > 0 implies self.slots@.contains_key(t) by {
                lemma_posting_list_push(e, x, t);
                if posting_list(e, t).len() == 0 {
                    assert(has_token(x, t));
                    assert(views(doc_tokens@).contains(t));
                    let j = choose|j: int|
                        0 <= j < views(doc_tokens@).len() && views(doc_tokens@)[j] == t;
                    assert(done_upto(views(doc_tokens@), i as int, t));
                }
            }
        }
    }

    /// The postings list of `token`, where it has one.
    pub fn postings_for(&self, token: &String) -> (r: Option<&Vec<String>>)
        requires
            self.wf(),
        ensures
            match r {
                Some(l) => views(l@) == posting_list(self@, token@) && l@.len() > 0,
                None => posting_list(self@, token@).len() == 0,
            },
    {
        match self.slots.get(token.as_str()) {
            Some(s) => Some(&self.lists[*s]),
            None => None,
        }
    }

    /// The aliases of the document called `name`, where there is one.
    pub fn aliases_of(&self, name: &String) -> (r: Option<&Vec<String>>)
        requires
            self.wf(),
        ensures
            match r {
                Some(a) => has_name(self@, name@) && views(a@) == aliases_named(self@, name@),
                None => !has_name(self@, name@),
            },
    {
        match self.find_doc(name) {
            Some(k) => {
                proof {
                    let e = self@;
                    assert(e[k as int] == entry_of(self.docs@[k as int]));
                    let i = choose|i: int| 0 <= i < e.len() && e[i].0 == name@;
                    assert(i == k);
                }
                Some(&self.docs[k].aliases)
            },
            None => {
                proof {
                    if has_name(self@, name@) {
                        let i = choose|i: int| 0 <= i < self@.len() && self@[i].0 == name@;
                        assert(self@[i] == entry_of(self.docs@[i]));
                    }
                }
                None
            },
        }
    }

}

/// The names of the entries, in order.
pub open spec fn names_of(e: Seq<Entry>) -> Seq<Seq<char>> {
    e.map_values(|x: Entry| x.0)
}

/// A well-formed index holds each name once.
pub proof fn lemma_names_unique(ix: &Index)
    requires
        ix.wf(),
    ensures
        names_unique(ix@),
{
}

/// In a store of unique names, the count of documents is the count of
/// distinct names.
pub proof fn lemma_count_is_distinct_names(e: Seq<Entry>)
    requires
        names_unique(e),
    ensures
        e.len() == names_of(e).to_set().len(),
{
    let n = names_of(e);
    assert(n.no_duplicates()) by {
        assert forall|i: int, j: int| 0 <= i < n.len() && 0 <= j < n.len() && i != j implies n[i]
            != n[j] by {
            if i < j {
                assert(e[i].0 != e[j].0);
            } else {
                assert(e[j].0 != e[i].0);
            }
        }
    }
    n.unique_seq_to_set();
}

proof fn lemma_without_len(e: Seq<Entry>, n: Seq<char>)
    requires
        names_unique(e),
    ensures
        without_name(e, n).len() == e.len() - (if has_name(e, n) {
            1int
        } else {
            0int
        }),
{
    if has_name(e, n) {
        let k = choose|k: int| #![trigger e[k]] 0 <= k < e.len() && e[k].0 == n;
        lemma_remove_is_without(e, k);
    } else {
        lemma_without_absent(e, n);
    }
}

proof fn lemma_names_without(e: Seq<Entry>, n: Seq<char>)
    ensures
        names_of(without_name(e, n)).to_set() == names_of(e).to_set().remove(n),
    decreases e.len(),
{
    if e.len() == 0 {
        lemma_filter_empty(e, not_named(n));
        assert(names_of(e).to_set() =~= Set::<Seq<char>>::empty());
        assert(names_of(e).to_set().remove(n) =~= Set::<Seq<char>>::empty());
    } else {
        let d = e.drop_last();
        let x = e.last();
        assert(e =~= d.push(x));
        lemma_names_without(d, n);
        lemma_filter_push(d, x, not_named(n));
        let w = without_name(d, n);
        assert(names_of(e) =~= names_of(d).push(x.0));
        assert(names_of(w.push(x)) =~= names_of(w).push(x.0));
        names_of(d).lemma_push_to_set_commute(x.0);
        names_of(w).lemma_push_to_set_commute(x.0);
        if x.0 == n {
            assert(names_of(e).to_set().remove(n) =~= names_of(d).to_set().remove(n));
        } else {
            assert(names_of(e).to_set().remove(n) =~= names_of(d).to_set().remove(n).insert(x.0));
        }
    }
}

proof fn lemma_with_documents_names(e: Seq<Entry>, ds: Seq<Entry>)
    ensures
        names_of(with_documents(e, ds)).to_set() == names_of(e).to_set() + names_of(ds).to_set(),
    decreases ds.len(),
{
    if ds.len() == 0 {
        assert(names_of(ds).to_set() =~= Set::<Seq<char>>::empty());
        assert(names_of(e).to_set() + Set::<Seq<char>>::empty() =~= names_of(e).to_set());
    } else {
        let d = ds.drop_last();
        let x = ds.last();
        assert(ds =~= d.push(x));
        lemma_with_documents_names(e, d);
        let prev = with_documents(e, d);
        lemma_names_without(prev, x.0);
        let w = without_name(prev, x.0);
        assert(names_of(w.push((x.0, x.1))) =~= names_of(w).push(x.0));
        names_of(w).lemma_push_to_set_commute(x.0);
        assert(names_of(ds) =~= names_of(d).push(x.0));
        names_of(d).lemma_push_to_set_commute(x.0);
        assert(names_of(with_documents(e, ds)).to_set() =~= names_of(e).to_set() + names_of(
            ds,
        ).to_set());
    }
}

/// Slot `s` belongs to token `t` and holds the list `l`, which is not empty.
pub open spec fn slot_holds(
    s: usize,
    t: Seq<char>,
    tokens: Seq<String>,
    lists: Seq<Vec<String>>,
    l: Seq<Seq<char>>,
) -> bool {
    &&& s < lists.len()
    &&& tokens[s as int]@ == t
    &&& views(lists[s as int]@) == l
    &&& lists[s as int]@.len() > 0
}

/// The postings list of `t` while the tokens `toks` are brought from store
/// `before` to store `after`: those among the first `i` are done.
pub open spec fn list_so_far(
    toks: Seq<Seq<char>>,
    i: int,
    before: Seq<Entry>,
    after: Seq<Entry>,
    t: Seq<char>,
) -> Seq<Seq<char>> {
    if done_upto(toks, i, t) {
        posting_list(after, t)
    } else {
        posting_list(before, t)
    }
}

/// Token `t` is among the first `i` tokens of `toks`.
pub open spec fn done_upto(toks: Seq<Seq<char>>, i: int, t: Seq<char>) -> bool {
    exists|j: int| 0 <= j < i && toks[j] == t
}

proof fn lemma_done_step(toks: Seq<Seq<char>>, i: int)
    requires
        0 <= i < toks.len(),
        toks.no_duplicates(),
    ensures
        !done_upto(toks, i, toks[i]),
        forall|u: Seq<char>|
            #![trigger done_upto(toks, i + 1, u)]
            done_upto(toks, i + 1, u) <==> (done_upto(toks, i, u) || u == toks[i]),
{
    assert forall|u: Seq<char>|
        #![trigger done_upto(toks, i + 1, u)]
        done_upto(toks, i + 1, u) <==> (done_upto(toks, i, u) || u == toks[i]) by {
        if done_upto(toks, i + 1, u) {
            let j = choose|j: int| 0 <= j < i + 1 && toks[j] == u;
        }
        if u == toks[i] {
            assert(toks[i] == u);
        }
    }
}

/// A document holding token `t` is in the token's postings list.
pub proof fn lemma_in_posting_list(e: Seq<Entry>, k: int, t: Seq<char>)
    requires
        0 <= k < e.len(),
        has_token(e[k], t),
    ensures
        posting_list(e, t).contains(e[k].0),
    decreases e.len(),
{
    let d = e.drop_last();
    assert(e =~= d.push(e.last()));
    if k == e.len() - 1 {
        let l = posting_list(e, t);
        assert(l[l.len() - 1] == e[k].0);
    } else {
        assert(d[k] == e[k]);
        lemma_in_posting_list(d, k, t);
        let l = posting_list(d, t);
        let j = choose|j: int| 0 <= j < l.len() && l[j] == e[k].0;
        if has_token(e.last(), t) {
            assert(l.push(e.last().0)[j] == e[k].0);
        }
    }
}

/// In a store of unique names, the postings list of a token the document at
/// `k` does not hold does not name that document.
proof fn lemma_not_listed(e: Seq<Entry>, k: int, t: Seq<char>)
    requires
        names_unique(e),
        0 <= k < e.len(),
        !has_token(e[k], t),
    ensures
        posting_list(e, t).filter(other_than(e[k].0)) == posting_list(e, t),
    decreases e.len(),
{
    let d = e.drop_last();
    let n = e[k].0;
    assert(e =~= d.push(e.last()));
    let l = posting_list(d, t);
    if e.len() == 1 {
        lemma_filter_empty(l, other_than(n));
        if has_token(e.last(), t) {
            lemma_filter_push(l, e.last().0, other_than(n));
        }
    } else if k == e.len() - 1 {
        lemma_none_named(d, t, n);
        if has_token(e.last(), t) {
            lemma_filter_push(l, e.last().0, other_than(n));
        }
    } else {
        assert(names_unique(d)) by {
            assert forall|i: int, j: int| 0 <= i < j < d.len() implies d[i].0 != d[j].0 by {
                assert(d[i] == e[i] && d[j] == e[j]);
            }
        }
        assert(d[k] == e[k]);
        lemma_not_listed(d, k, t);
        if has_token(e.last(), t) {
            assert(e[e.len() - 1].0 != n);
            lemma_filter_push(l, e.last().0, other_than(n));
        }
    }
}

/// Where no entry is called `n`, the filter dropping `n` keeps every list whole.
proof fn lemma_none_named(e: Seq<Entry>, t: Seq<char>, n: Seq<char>)
    requires
        forall|i: int| 0 <= i < e.len() ==> #[trigger] e[i].0 != n,
    ensures
        posting_list(e, t).filter(other_than(n)) == posting_list(e, t),
    decreases e.len(),
{
    let l = posting_list(e, t);
    if e.len() == 0 {
        lemma_filter_empty(l, other_than(n));
    } else {
        let d = e.drop_last();
        assert(e =~= d.push(e.last()));
        assert forall|i: int| 0 <= i < d.len() implies #[trigger] d[i].0 != n by {
            assert(d[i] == e[i]);
        }
        lemma_none_named(d, t, n);
        assert(e[e.len() - 1].0 != n);
        if has_token(e.last(), t) {
            lemma_filter_push(posting_list(d, t), e.last().0, other_than(n));
        }
    }
}

/// Appends each string of `more` that `seen` does not hold yet.
fn push_new(seen: &mut Vec<String>, more: Vec<String>)
    requires
        views(old(seen)@).no_duplicates(),
    ensures
        views(final(seen)@).no_duplicates(),
        forall|t: Seq<char>|
            #![trigger views(final(seen)@).contains(t)]
            views(final(seen)@).contains(t) <==> (views(old(seen)@).contains(t) || views(
                more@,
            ).contains(t)),
{
    let ghost start = views(seen@);
    let mut i: usize = 0;
    while i < more.len()
        invariant
            i <= more@.len(),
            views(seen@).no_duplicates(),
            forall|t: Seq<char>|
                #![trigger views(seen@).contains(t)]
                views(seen@).contains(t) <==> (start.contains(t) || views(
                    more@.subrange(0, i as int),
                ).contains(t)),
        decreases more@.len() - i,
    {
        let ghost before = views(seen@);
        let ghost x = more@[i as int]@;
        if !holds(seen, &more[i]) {
            seen.push(more[i].clone());
            assert(views(seen@) =~= before.push(x));
        } else {
            assert(views(seen@) =~= before);
        }
        proof {
            let prev = views(more@.subrange(0, i as int));
            assert(views(more@.subrange(0, i + 1)) =~= prev.push(x));
            assert forall|t: Seq<char>|
                #![trigger views(seen@).contains(t)]
                views(seen@).contains(t) <==> (start.contains(t) || views(
                    more@.subrange(0, i + 1),
                ).contains(t)) by {
                lemma_contains_push(before, x, t);
                lemma_contains_push(prev, x, t);
            }
        }
        i = i + 1;
    }
    assert(more@.subrange(0, more@.len() as int) =~= more@);
}

proof fn lemma_filter_push<A>(s: Seq<A>, a: A, p: spec_fn(A) -> bool)
    ensures
        s.push(a).filter(p) == (if p(a) {
            s.filter(p).push(a)
        } else {
            s.filter(p)
        }),
{
    reveal(Seq::filter);
    assert(s.push(a).drop_last() =~= s);
}

proof fn lemma_filter_empty<A>(s: Seq<A>, p: spec_fn(A) -> bool)
    ensures
        s.len() == 0 ==> s.filter(p) == s,
{
    reveal(Seq::filter);
}

proof fn lemma_posting_list_push(e: Seq<Entry>, x: Entry, t: Seq<char>)
    ensures
        posting_list(e.push(x), t) == (if has_token(x, t) {
            posting_list(e, t).push(x.0)
        } else {
            posting_list(e, t)
        }),
{
    assert(e.push(x).drop_last() =~= e);
}

/// Dropping a document from the store drops its name from every postings list.
proof fn lemma_posting_list_without(e: Seq<Entry>, n: Seq<char>, t: Seq<char>)
    ensures
        posting_list(without_name(e, n), t) == posting_list(e, t).filter(other_than(n)),
    decreases e.len(),
{
    if e.len() == 0 {
        lemma_filter_empty(e, not_named(n));
        lemma_filter_empty(posting_list(e, t), other_than(n));
    } else {
        let d = e.drop_last();
        let x = e.last();
        assert(e =~= d.push(x));
        lemma_posting_list_without(d, n, t);
        lemma_filter_push(d, x, not_named(n));
        lemma_posting_list_push(d, x, t);
        lemma_posting_list_push(without_name(d, n), x, t);
        lemma_filter_push(posting_list(d, t), x.0, other_than(n));
    }
}

pub proof fn lemma_without_absent(e: Seq<Entry>, n: Seq<char>)
    requires
        !has_name(e, n),
    ensures
        without_name(e, n) == e,
    decreases e.len(),
{
    if e.len() == 0 {
        lemma_filter_empty(e, not_named(n));
    } else {
        let d = e.drop_last();
        assert(e =~= d.push(e.last()));
        assert(e.last() == e[e.len() - 1]);
        assert forall|i: int| 0 <= i < d.len() implies #[trigger] d[i].0 != n by {
            assert(e[i] == d[i]);
        }
        lemma_without_absent(d, n);
        lemma_filter_push(d, e.last(), not_named(n));
    }
}

proof fn lemma_without_unique(e: Seq<Entry>, n: Seq<char>)
    requires
        names_unique(e),
    ensures
        names_unique(without_name(e, n)),
        !has_name(without_name(e, n), n),
        forall|y: Entry| without_name(e, n).contains(y) ==> e.contains(y),
    decreases e.len(),
{
    if e.len() == 0 {
        lemma_filter_empty(e, not_named(n));
    } else {
        let d = e.drop_last();
        let x = e.last();
        assert(e =~= d.push(x));
        assert(names_unique(d)) by {
            assert forall|i: int, j: int| 0 <= i < j < d.len() implies d[i].0 != d[j].0 by {
                assert(d[i] == e[i] && d[j] == e[j]);
            }
        }
        lemma_without_unique(d, n);
        lemma_filter_push(d, x, not_named(n));
        let w = without_name(d, n);
        assert forall|y: Entry| without_name(e, n).contains(y) implies e.contains(y) by {
            lemma_contains_push(w, x, y);
            lemma_contains_push(d, x, y);
        }
        if x.0 != n {
            assert forall|i: int| 0 <= i < w.len() implies #[trigger] w[i].0 != x.0 by {
                assert(w.contains(w[i]));
                assert(d.contains(w[i]));
                let k = choose|k: int| 0 <= k < d.len() && d[k] == w[i];
                assert(e[k] == d[k]);
                assert(e[e.len() - 1] == x);
            }
            assert(names_unique(w.push(x))) by {
                assert forall|i: int, j: int|
                    0 <= i < j < w.push(x).len() implies w.push(x)[i].0 != w.push(x)[j].0 by {
                    if j == w.len() {
                        assert(w[i].0 != x.0);
                    } else {
                        assert(w.push(x)[i] == w[i] && w.push(x)[j] == w[j]);
                    }
                }
            }
            assert(!has_name(w.push(x), n)) by {
                assert forall|i: int| 0 <= i < w.push(x).len() implies #[trigger] w.push(x)[i].0 != n by {
                    if i < w.len() {
                        assert(w.push(x)[i] == w[i]);
                    }
                }
            }
        }
    }
}

/// In a store whose names are unique, removing the entry at `k` is dropping its name.
proof fn lemma_remove_is_without(e: Seq<Entry>, k: int)
    requires
        names_unique(e),
        0 <= k < e.len(),
    ensures
        e.remove(k) == without_name(e, e[k].0),
{
    let n = e[k].0;
    let a = e.take(k);
    let b = e.skip(k + 1);
    assert(e =~= a + seq![e[k]] + b);
    assert(e.remove(k) =~= a + b);
    assert(!has_name(a, n)) by {
        assert forall|i: int| 0 <= i < a.len() implies #[trigger] a[i].0 != n by {
            assert(a[i] == e[i]);
        }
    }
    assert(!has_name(b, n)) by {
        assert forall|i: int| 0 <= i < b.len() implies #[trigger] b[i].0 != n by {
            assert(b[i] == e[k + 1 + i]);
        }
    }
    lemma_without_absent(a, n);
    lemma_without_absent(b, n);
    Seq::filter_distributes_over_add(a + seq![e[k]], b, not_named(n));
    Seq::filter_distributes_over_add(a, seq![e[k]], not_named(n));
    assert(seq![e[k]] =~= Seq::<Entry>::empty().push(e[k]));
    lemma_filter_push(Seq::<Entry>::empty(), e[k], not_named(n));
    lemma_filter_empty(Seq::<Entry>::empty(), not_named(n));
    assert(a + Seq::<Entry>::empty() =~= a);
}

/// A postings list holds only the names of entries of the store.
pub proof fn lemma_posting_list_member(e: Seq<Entry>, t: Seq<char>, j: int)
    requires
        0 <= j < posting_list(e, t).len(),
    ensures
        has_name(e, posting_list(e, t)[j]),
    decreases e.len(),
{
    let d = e.drop_last();
    assert(e =~= d.push(e.last()));
    if j < posting_list(d, t).len() {
        lemma_posting_list_member(d, t, j);
        let k = choose|k: int| 0 <= k < d.len() && #[trigger] d[k].0 == posting_list(d, t)[j];
        assert(e[k] == d[k]);
    } else {
        assert(e[e.len() - 1] == e.last());
    }
}

/// The strings of `list` other than `name`, in order.
fn strip_name(list: &Vec<String>, name: &String) -> (r: Vec<String>)
    ensures
        views(r@) == views(list@).filter(other_than(name@)),
{
    let mut out: Vec<String> = Vec::new();
    let mut i: usize = 0;
    while i < list.len()
        invariant
            i <= list@.len(),
            views(out@) == views(list@.subrange(0, i as int)).filter(other_than(name@)),
        decreases list@.len() - i,
    {
        let ghost before = views(out@);
        proof {
            assert(views(list@.subrange(0, i + 1)) =~= views(list@.subrange(0, i as int)).push(
                list@[i as int]@,
            ));
            lemma_filter_push(
                views(list@.subrange(0, i as int)),
                list@[i as int]@,
                other_than(name@),
            );
        }
        if !same_text(&list[i], name) {
            out.push(list[i].clone());
            assert(views(out@) =~= before.push(list@[i as int]@));
        }
        i = i + 1;
    }
    assert(list@.subrange(0, list@.len() as int) =~= list@);
    out
}

proof fn lemma_without_drops(e: Seq<Entry>, n: Seq<char>)
    ensures
        !has_name(without_name(e, n), n),
{
    let w = without_name(e, n);
    assert forall|i: int| 0 <= i < w.len() implies #[trigger] w[i].0 != n by {
        e.lemma_filter_pred(not_named(n), i);
    }
}

/// Updating a document with the aliases it was just added with leaves the
/// store as the single addition left it.
pub proof fn lemma_update_after_add(e: Seq<Entry>, name: Seq<char>, aliases: Seq<Seq<char>>)
    ensures
        with_document(with_document(e, name, aliases), name, aliases) == with_document(
            e,
            name,
            aliases,
        ),
{
    let w = without_name(e, name);
    lemma_without_drops(e, name);
    lemma_filter_push(w, (name, aliases), not_named(name));
    lemma_without_absent(w, name);
}

/// Removing a document leaves no document of that name, and removing it again
/// changes nothing.
pub proof fn lemma_remove_again(e: Seq<Entry>, name: Seq<char>)
    ensures
        !has_name(without_name(e, name), name),
        without_name(without_name(e, name), name) == without_name(e, name),
{
    lemma_without_drops(e, name);
    lemma_without_absent(without_name(e, name), name);
}

/// A list holding the one string `s`.
fn single(s: &String) -> (r: Vec<String>)
    ensures
        views(r@) == seq![s@],
{
    let mut v: Vec<String> = Vec::new();
    v.push(s.clone());
    assert(views(v@) =~= seq![s@]);
    v
}

/// The distinct tokens of a document: its name, its aliases, and their bigrams.
fn document_tokens(name: &String, aliases: &Vec<String>) -> (r: Vec<String>)
    ensures
        views(r@).no_duplicates(),
        forall|t: Seq<char>|
            #![trigger views(r@).contains(t)]
            views(r@).contains(t) <==> has_token((name@, views(aliases@)), t),
{
    let ghost al = views(aliases@);
    let mut seen: Vec<String> = single(name);
    push_new(&mut seen, tokenize_2gram(name.as_str()));
    proof {
        assert forall|t: Seq<char>|
            #![trigger views(seen@).contains(t)]
            views(seen@).contains(t) <==> (t == name@ || bigrams(name@).contains(t)) by {
            lemma_contains_push(Seq::<Seq<char>>::empty(), name@, t);
            assert(seq![name@] =~= Seq::<Seq<char>>::empty().push(name@));
        }
    }
    let mut k: usize = 0;
    while k < aliases.len()
        invariant
            k <= aliases@.len(),
            al == views(aliases@),
            views(seen@).no_duplicates(),
            forall|t: Seq<char>|
                #![trigger views(seen@).contains(t)]
                views(seen@).contains(t) <==> (t == name@ || bigrams(name@).contains(t) || exists|
                    j: int,
                | 0 <= j < k && #[trigger] alias_token(al, j, t)),
        decreases aliases@.len() - k,
    {
        let ghost before = views(seen@);
        push_new(&mut seen, single(&aliases[k]));
        push_new(&mut seen, tokenize_2gram(aliases[k].as_str()));
        proof {
            assert forall|t: Seq<char>|
                #![trigger views(seen@).contains(t)]
                views(seen@).contains(t) <==> (t == name@ || bigrams(name@).contains(t) || exists|
                    j: int,
                | 0 <= j < k + 1 && #[trigger] alias_token(al, j, t)) by {
                lemma_contains_push(Seq::<Seq<char>>::empty(), al[k as int], t);
                assert(seq![al[k as int]] =~= Seq::<Seq<char>>::empty().push(al[k as int]));
                if views(seen@).contains(t) && !before.contains(t) {
                    assert(alias_token(al, k as int, t));
                }
                if alias_token(al, k as int, t) {
                    assert(al[k as int] == t || bigrams(al[k as int]).contains(t));
                }
            }
        }
        k = k + 1;
    }
    proof {
        assert forall|t: Seq<char>|
            #![trigger views(seen@).contains(t)]
            views(seen@).contains(t) <==> has_token((name@, views(aliases@)), t) by {
            assert(al.len() == aliases@.len());
            if exists|j: int| 0 <= j < k && #[trigger] alias_token(al, j, t) {
                let j = choose|j: int| 0 <= j < k && #[trigger] alias_token(al, j, t);
                assert(alias_token((name@, views(aliases@)).1, j, t));
            }
        }
    }
    seen
}

} // verus!
