use vstd::hash_map::StringHashMap;
use vstd::prelude::*;

use crate::text::{
    all_ascii, is_all_ascii, lower_of, phonetic, phonetic_form, same_text, to_lowercase, views,
};

verus! {

/// Memoised lowercase and hiragana forms of the strings seen so far, and which
/// documents each alias belongs to.
pub struct StringCache {
    lowercase_cache: StringHashMap<String>,
    hiragana_cache: StringHashMap<String>,
    alias_to_doc: StringHashMap<Vec<String>>,
}

impl StringCache {
    /// Every cached form is the one its key has; no alias maps to an empty list.
    pub closed spec fn wf(&self) -> bool {
        &&& forall|k: Seq<char>| #[trigger]
            self.lowercase_cache@.contains_key(k) ==> self.lowercase_cache@[k]@ == lower_of(k)
        &&& forall|k: Seq<char>| #[trigger]
            self.hiragana_cache@.contains_key(k) ==> self.hiragana_cache@[k]@ == phonetic(k)
        &&& forall|k: Seq<char>| #[trigger]
            self.alias_to_doc@.contains_key(k) ==> self.alias_to_doc@[k]@.len() > 0
    }

    /// The documents of each alias.
    pub closed spec fn alias_index(&self) -> Map<Seq<char>, Seq<Seq<char>>> {
        Map::new(
            |k: Seq<char>| self.alias_to_doc@.contains_key(k),
            |k: Seq<char>| views(self.alias_to_doc@[k]@),
        )
    }

    /// The strings whose lowercase form is cached.
    pub closed spec fn lowercased(&self) -> Set<Seq<char>> {
        self.lowercase_cache@.dom()
    }

    /// The strings whose hiragana form is cached.
    pub closed spec fn transliterated(&self) -> Set<Seq<char>> {
        self.hiragana_cache@.dom()
    }

    /// An empty cache.
    pub fn new() -> (r: StringCache)
        ensures
            r.wf(),
            r.alias_index() == Map::<Seq<char>, Seq<Seq<char>>>::empty(),
            r.lowercased() == Set::<Seq<char>>::empty(),
            r.transliterated() == Set::<Seq<char>>::empty(),
    {
        let r = StringCache {
            lowercase_cache: StringHashMap::new(),
            hiragana_cache: StringHashMap::new(),
            alias_to_doc: StringHashMap::new(),
        };
        assert(r.alias_index() =~= Map::<Seq<char>, Seq<Seq<char>>>::empty());
        r
    }

    /// The lowercase form of `text`, computed once and then taken from the cache.
    pub fn get_lowercase(&mut self, text: &String) -> (r: String)
        requires
            old(self).wf(),
        ensures
            final(self).wf(),
            r@ == lower_of(text@),
            final(self).alias_index() == old(self).alias_index(),
            final(self).lowercased() == old(self).lowercased().insert(text@),
            final(self).transliterated() == old(self).transliterated(),
    {
        match self.lowercase_cache.get(text.as_str()) {
            Some(l) => {
                let r = l.clone();
                assert(self.lowercased().insert(text@) =~= self.lowercased());
                r
            },
            None => {
                let l = to_lowercase(text.as_str());
                self.lowercase_cache.insert(text.clone(), l.clone());
                l
            },
        }
    }

    /// The hiragana form of the lowercase of `text` where `text` is all ASCII
    /// (its phonetic form),
    /// computed once and then taken from the cache; `None` for any other text,
    /// which is taken to be in its native script already.
    pub fn get_hiragana(&mut self, text: &String) -> (r: Option<String>)
        requires
            old(self).wf(),
        ensures
            final(self).wf(),
            match r {
                Some(h) => all_ascii(text@) && h@ == phonetic(text@),
                None => !all_ascii(text@),
            },
            final(self).alias_index() == old(self).alias_index(),
            final(self).lowercased() == old(self).lowercased(),
            all_ascii(text@) ==> final(self).transliterated() == old(self).transliterated().insert(
                text@,
            ),
            !all_ascii(text@) ==> final(self).transliterated() == old(self).transliterated(),
    {
        if !is_all_ascii(text.as_str()) {
            return None;
        }
        match self.hiragana_cache.get(text.as_str()) {
            Some(h) => {
                let r = h.clone();
                assert(self.transliterated().insert(text@) =~= self.transliterated());
                Some(r)
            },
            None => {
                let h = phonetic_form(text.as_str());
                self.hiragana_cache.insert(text.clone(), h.clone());
                Some(h)
            },
        }
    }

    /// Drops every cached form and the alias index.
    pub fn clear(&mut self)
        ensures
            final(self).wf(),
            final(self).alias_index() == Map::<Seq<char>, Seq<Seq<char>>>::empty(),
            final(self).lowercased() == Set::<Seq<char>>::empty(),
            final(self).transliterated() == Set::<Seq<char>>::empty(),
    {
        self.lowercase_cache.clear();
        self.hiragana_cache.clear();
        self.alias_to_doc.clear();
        assert(self.alias_index() =~= Map::<Seq<char>, Seq<Seq<char>>>::empty());
    }

    /// Records that `alias` belongs to document `doc_name`.
    pub fn add_alias_mapping(&mut self, alias: String, doc_name: String)
        requires
            old(self).wf(),
        ensures
            final(self).wf(),
            final(self).alias_index() == old(self).alias_index().insert(
                alias@,
                if old(self).alias_index().contains_key(alias@) {
                    old(self).alias_index()[alias@].push(doc_name@)
                } else {
                    seq![doc_name@]
                },
            ),
            final(self).lowercased() == old(self).lowercased(),
            final(self).transliterated() == old(self).transliterated(),
    {
        let ghost before = self.alias_index();
        let mut docs: Vec<String> = match self.alias_to_doc.get(alias.as_str()) {
            Some(d) => d.clone(),
            None => Vec::new(),
        };
        let ghost prev = docs@;
        docs.push(doc_name);
        self.alias_to_doc.insert(alias, docs);
        proof {
            assert(views(docs@) =~= views(prev).push(docs@.last()@));
            if !before.contains_key(alias@) {
                assert(views(prev) =~= Seq::<Seq<char>>::empty());
            }
            assert(self.alias_index() =~= before.insert(
                alias@,
                if before.contains_key(alias@) {
                    before[alias@].push(docs@.last()@)
                } else {
                    seq![docs@.last()@]
                },
            ));
        }
    }

    /// Records that `alias` no longer belongs to document `doc_name`; an alias
    /// left with no document leaves the index.
    pub fn remove_alias_mapping(&mut self, alias: &str, doc_name: &str)
        requires
            old(self).wf(),
        ensures
            final(self).wf(),
            final(self).alias_index() == unlinked(old(self).alias_index(), alias@, doc_name@),
            final(self).lowercased() == old(self).lowercased(),
            final(self).transliterated() == old(self).transliterated(),
    {
        let ghost before = self.alias_index();
        let target = doc_name.to_owned();
        match self.alias_to_doc.get(alias) {
            None => {
                assert(self.alias_index() =~= unlinked(before, alias@, doc_name@));
            },
            Some(docs) => {
                let mut kept: Vec<String> = Vec::new();
                let mut i: usize = 0;
                while i < docs.len()
                    invariant
                        i <= docs@.len(),
                        views(kept@) == views(docs@.take(i as int)).filter(
                            |d: Seq<char>| d != target@,
                        ),
                    decreases docs@.len() - i,
                {
                    let ghost prevk = views(kept@);
                    proof {
                        let s = views(docs@.take(i as int));
                        assert(views(docs@.take(i + 1)) =~= s.push(docs@[i as int]@));
                        reveal(Seq::filter);
                        assert(s.push(docs@[i as int]@).drop_last() =~= s);
                    }
                    if !same_text(&docs[i], &target) {
                        kept.push(docs[i].clone());
                        assert(views(kept@) =~= prevk.push(docs@[i as int]@));
                    }
                    i = i + 1;
                }
                assert(docs@.take(docs@.len() as int) =~= docs@);
                if kept.len() == 0 {
                    self.alias_to_doc.remove(alias);
                } else {
                    self.alias_to_doc.insert(alias.to_owned(), kept);
                }
                assert(self.alias_index() =~= unlinked(before, alias@, doc_name@));
            },
        }
    }

    /// Forgets a document: the cached forms of its name and aliases go, and
    /// each alias is unlinked from it.
    pub fn remove_document(&mut self, doc_name: &String, aliases: &Vec<String>)
        requires
            old(self).wf(),
        ensures
            final(self).wf(),
            final(self).alias_index() == unlinked_all(
                old(self).alias_index(),
                views(aliases@),
                doc_name@,
            ),
            final(self).lowercased() == old(self).lowercased().remove(doc_name@).difference(
                views(aliases@).to_set(),
            ),
            final(self).transliterated() == old(self).transliterated().remove(
                doc_name@,
            ).difference(views(aliases@).to_set()),
    {
        let ghost al = views(aliases@);
        let ghost lc0 = self.lowercased();
        let ghost tr0 = self.transliterated();
        let ghost ai0 = self.alias_index();
        self.lowercase_cache.remove(doc_name.as_str());
        self.hiragana_cache.remove(doc_name.as_str());
        let mut i: usize = 0;
        assert(al.take(0).to_set() =~= Set::<Seq<char>>::empty());
        assert(al.take(0) =~= Seq::<Seq<char>>::empty());
        while i < aliases.len()
            invariant
                self.wf(),
                i <= aliases@.len(),
                al == views(aliases@),
                self.lowercased() == lc0.remove(doc_name@).difference(al.take(i as int).to_set()),
                self.transliterated() == tr0.remove(doc_name@).difference(
                    al.take(i as int).to_set(),
                ),
                self.alias_index() == unlinked_all(ai0, al.take(i as int), doc_name@),
            decreases aliases@.len() - i,
        {
            self.lowercase_cache.remove(aliases[i].as_str());
            self.hiragana_cache.remove(aliases[i].as_str());
            self.remove_alias_mapping(aliases[i].as_str(), doc_name.as_str());
            proof {
                let t = al.take(i + 1);
                assert(t.drop_last() =~= al.take(i as int));
                assert(t.last() == aliases@[i as int]@);
                assert(t.to_set() =~= al.take(i as int).to_set().insert(aliases@[i as int]@)) by {
                    assert(t =~= al.take(i as int).push(aliases@[i as int]@));
                    al.take(i as int).lemma_push_to_set_commute(aliases@[i as int]@);
                }
                assert(self.lowercased() =~= lc0.remove(doc_name@).difference(t.to_set()));
                assert(self.transliterated() =~= tr0.remove(doc_name@).difference(t.to_set()));
            }
            i = i + 1;
        }
        assert(al.take(al.len() as int) =~= al);
    }
}

/// The alias index after unlinking document `doc` from `alias`.
pub open spec fn unlinked(
    m: Map<Seq<char>, Seq<Seq<char>>>,
    alias: Seq<char>,
    doc: Seq<char>,
) -> Map<Seq<char>, Seq<Seq<char>>> {
    if !m.contains_key(alias) {
        m
    } else {
        let rest = m[alias].filter(|d: Seq<char>| d != doc);
        if rest.len() == 0 {
            m.remove(alias)
        } else {
            m.insert(alias, rest)
        }
    }
}

/// The alias index after unlinking document `doc` from each alias in turn.
pub open spec fn unlinked_all(
    m: Map<Seq<char>, Seq<Seq<char>>>,
    aliases: Seq<Seq<char>>,
    doc: Seq<char>,
) -> Map<Seq<char>, Seq<Seq<char>>>
    decreases aliases.len(),
{
    if aliases.len() == 0 {
        m
    } else {
        unlinked(unlinked_all(m, aliases.drop_last(), doc), aliases.last(), doc)
    }
}

} // verus!
