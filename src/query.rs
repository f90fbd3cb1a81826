use vstd::prelude::*;

use crate::order::{insert_by, lemma_insert_by_at, sort_by};
use crate::text::{
    all_ascii_alphabetic, is_ascii_alphabetic, phonetic, phonetic_form, same_text, views,
};
use crate::tokenize::{bigrams, tokenize_2gram};

verus! {

/// A term shorter than this, in characters, contributes its bigrams.
pub const BIGRAMS_BELOW: usize = 100;

/// `acc` followed by each element of `more` that is not already there.
pub open spec fn add_new(acc: Seq<Seq<char>>, more: Seq<Seq<char>>) -> Seq<Seq<char>>
    decreases more.len(),
{
    if more.len() == 0 {
        acc
    } else {
        let a = add_new(acc, more.drop_last());
        if a.contains(more.last()) {
            a
        } else {
            a.push(more.last())
        }
    }
}

/// The hiragana form of a purely alphabetic ASCII term, where it differs
/// from the term.
pub open spec fn transliteration(t: Seq<char>) -> Option<Seq<char>> {
    let h = phonetic(t);
    if all_ascii_alphabetic(t) && h != t {
        Some(h)
    } else {
        None
    }
}

/// The tokens one query term contributes, in order: the term, its
/// transliteration and that one's bigrams, then the term's own bigrams.
pub open spec fn term_tokens(t: Seq<char>) -> Seq<Seq<char>> {
    let translit = match transliteration(t) {
        Some(h) => seq![h] + bigrams(h),
        None => Seq::empty(),
    };
    let grams = if t.len() < BIGRAMS_BELOW {
        bigrams(t)
    } else {
        Seq::empty()
    };
    seq![t] + translit + grams
}

/// The expanded query: the tokens of each term in turn, without repeats.
pub open spec fn expand(terms: Seq<Seq<char>>) -> Seq<Seq<char>>
    decreases terms.len(),
{
    if terms.len() == 0 {
        Seq::empty()
    } else {
        add_new(expand(terms.drop_last()), term_tokens(terms.last()))
    }
}

/// Holds where `a` may stay ahead of `b` in a longest-first order.
pub open spec fn longer_or_equal() -> spec_fn(Seq<char>, Seq<char>) -> bool {
    |a: Seq<char>, b: Seq<char>| a.len() >= b.len()
}

/// The expanded query, longest tokens first; tokens of one length keep their order.
pub open spec fn longest_first(tokens: Seq<Seq<char>>) -> Seq<Seq<char>> {
    sort_by(tokens, longer_or_equal())
}

/// A word as a list: none where it is empty.
pub open spec fn piece(w: Seq<char>) -> Seq<Seq<char>> {
    if w.len() == 0 {
        Seq::empty()
    } else {
        seq![w]
    }
}

/// The space-separated words of `s` from position `i` on, where the current
/// word began at `start`; empty words are dropped.
pub open spec fn words_from(s: Seq<char>, start: int, i: int) -> Seq<Seq<char>>
    decreases s.len() - i,
{
    if i >= s.len() {
        piece(s.subrange(start, s.len() as int))
    } else if s[i] == ' ' {
        piece(s.subrange(start, i)) + words_from(s, i + 1, i + 1)
    } else {
        words_from(s, start, i + 1)
    }
}

/// The query is a single string holding a space: an AND search over its words.
pub open spec fn and_query(terms: Seq<Seq<char>>) -> bool {
    terms.len() == 1 && terms[0].contains(' ')
}

/// The keywords of an AND search, where the query asks for one: the words of
/// its single string. Only the ASCII space separates words; a full-width space
/// is part of a word.
pub fn and_keywords(terms: &Vec<String>) -> (r: Option<Vec<String>>)
    ensures
        match r {
            Some(k) => and_query(views(terms@)) && views(k@) == words_from(terms@[0]@, 0, 0),
            None => !and_query(views(terms@)),
    },
{
    if terms.len() != 1 {
        return None;
    }
    let s = terms[0].as_str();
    assert(views(terms@)[0] == s@);
    let n = s.unicode_len();
    let mut out: Vec<String> = Vec::new();
    let mut start: usize = 0;
    let mut i: usize = 0;
    let mut spaced = false;
    while i < n
        invariant
            n == s@.len(),
            start <= i <= n,
            views(out@) + words_from(s@, start as int, i as int) == words_from(s@, 0, 0),
            spaced == exists|j: int| 0 <= j < i && s@[j] == ' ',
        decreases n - i,
    {
        let c = s.get_char(i);
        if c == ' ' {
            let w = s.substring_char(start, i);
            let ghost before = views(out@);
            if w.unicode_len() > 0 {
                out.push(w.to_owned());
                assert(views(out@) =~= before + piece(w@));
            } else {
                assert(views(out@) =~= before + piece(w@));
            }
            assert(before + (piece(w@) + words_from(s@, i + 1, i + 1)) =~= views(out@)
                + words_from(s@, i + 1, i + 1));
            spaced = true;
            start = i + 1;
        }
        i = i + 1;
    }
    if !spaced {
        return None;
    }
    let w = s.substring_char(start, n);
    let ghost before = views(out@);
    if w.unicode_len() > 0 {
        out.push(w.to_owned());
    }
    assert(views(out@) =~= before + piece(w@));
    Some(out)
}

/// Whether `v` holds a string with the characters of `s`.
pub fn holds(v: &Vec<String>, s: &String) -> (r: bool)
    ensures
        r == views(v@).contains(s@),
{
    let mut i: usize = 0;
    while i < v.len()
        invariant
            i <= v@.len(),
            forall|j: int| 0 <= j < i ==> v@[j]@ != s@,
        decreases v@.len() - i,
    {
        if same_text(&v[i], s) {
            assert(views(v@)[i as int] == s@);
            return true;
        }
        i = i + 1;
    }
    proof {
        if views(v@).contains(s@) {
            let k = choose|k: int| 0 <= k < views(v@).len() && views(v@)[k] == s@;
            assert(v@[k]@ == s@);
        }
    }
    false
}

/// Appends each string of `more` that `acc` does not hold yet, in order.
pub fn append_new(acc: &mut Vec<String>, more: Vec<String>)
    ensures
        views(final(acc)@) == add_new(views(old(acc)@), views(more@)),
{
    let ghost start = views(acc@);
    let mut i: usize = 0;
    while i < more.len()
        invariant
            i <= more@.len(),
            views(acc@) == add_new(start, views(more@.take(i as int))),
        decreases more@.len() - i,
    {
        let ghost before = views(acc@);
        proof {
            let m = views(more@.take(i + 1));
            assert(m.drop_last() =~= views(more@.take(i as int)));
            assert(m.last() == more@[i as int]@);
        }
        if !holds(acc, &more[i]) {
            acc.push(more[i].clone());
            assert(views(acc@) =~= before.push(more@[i as int]@));
        }
        i = i + 1;
    }
    assert(more@.take(more@.len() as int) =~= more@);
}

/// The tokens one query term contributes.
fn term_expansion(term: &String) -> (r: Vec<String>)
    ensures
        views(r@) == term_tokens(term@),
{
    let mut out: Vec<String> = Vec::new();
    out.push(term.clone());
    let ghost first = views(out@);
    assert(first =~= seq![term@]);
    let n = term.as_str().unicode_len();
    if is_ascii_alphabetic(term.as_str()) {
        let h = phonetic_form(term.as_str());
        if !same_text(&h, term) {
            let mut grams = tokenize_2gram(h.as_str());
            out.push(h);
            out.append(&mut grams);
        }
    }
    let ghost second = views(out@);
    if n < BIGRAMS_BELOW {
        let mut grams = tokenize_2gram(term.as_str());
        out.append(&mut grams);
    }
    proof {
        let translit = match transliteration(term@) {
            Some(h) => seq![h] + bigrams(h),
            None => Seq::<Seq<char>>::empty(),
        };
        assert(second =~= seq![term@] + translit);
        let grams = if term@.len() < BIGRAMS_BELOW {
            bigrams(term@)
        } else {
            Seq::<Seq<char>>::empty()
        };
        assert(views(out@) =~= second + grams);
    }
    out
}

/// Expands the raw query terms: each term, its transliteration where it has
/// one, and the bigrams of both, without repeats.
pub fn expand_query(terms: &Vec<String>) -> (r: Vec<String>)
    ensures
        views(r@) == expand(views(terms@)),
{
    let mut out: Vec<String> = Vec::new();
    let mut i: usize = 0;
    assert(views(out@) =~= expand(views(terms@.take(0))));
    while i < terms.len()
        invariant
            i <= terms@.len(),
            views(out@) == expand(views(terms@.take(i as int))),
        decreases terms@.len() - i,
    {
        proof {
            let m = views(terms@.take(i + 1));
            assert(m.drop_last() =~= views(terms@.take(i as int)));
            assert(m.last() == terms@[i as int]@);
        }
        append_new(&mut out, term_expansion(&terms[i]));
        i = i + 1;
    }
    assert(terms@.take(terms@.len() as int) =~= terms@);
    out
}

/// Orders tokens longest first, keeping the order of tokens of one length.
pub fn sort_longest_first(tokens: Vec<String>) -> (r: Vec<String>)
    ensures
        views(r@) == longest_first(views(tokens@)),
{
    let mut out: Vec<String> = Vec::new();
    let mut lens: Vec<usize> = Vec::new();
    let mut i: usize = 0;
    assert(views(out@) =~= sort_by(views(tokens@.take(0)), longer_or_equal()));
    while i < tokens.len()
        invariant
            i <= tokens@.len(),
            lens@.len() == out@.len(),
            forall|j: int| 0 <= j < out@.len() ==> lens@[j] == (#[trigger] out@[j])@.len(),
            views(out@) == sort_by(views(tokens@.take(i as int)), longer_or_equal()),
        decreases tokens@.len() - i,
    {
        let x = tokens[i].clone();
        let lx = x.as_str().unicode_len();
        let ghost s = views(out@);
        let mut p: usize = out.len();
        while p > 0 && lens[p - 1] < lx
            invariant
                p <= out@.len(),
                s == views(out@),
                lens@.len() == out@.len(),
                forall|j: int| 0 <= j < out@.len() ==> lens@[j] == (#[trigger] out@[j])@.len(),
                forall|j: int| p <= j < s.len() ==> (#[trigger] s[j]).len() < lx,
            decreases p,
        {
            assert(s[p - 1] == out@[p - 1]@);
            p = p - 1;
        }
        proof {
            assert forall|j: int| p <= j < s.len() implies !(longer_or_equal())(
                #[trigger] s[j],
                x@,
            ) by {}
            if p > 0 {
                assert(s[p - 1] == out@[p - 1]@);
            }
            lemma_insert_by_at(s, x@, longer_or_equal(), p as int);
            let m = views(tokens@.take(i + 1));
            assert(m.drop_last() =~= views(tokens@.take(i as int)));
            assert(m.last() == x@);
        }
        let ghost prev_out = out@;
        let ghost prev_lens = lens@;
        out.insert(p, x);
        lens.insert(p, lx);
        proof {
            assert(views(out@) =~= s.insert(p as int, tokens@[i as int]@));
            assert forall|j: int| 0 <= j < out@.len() implies lens@[j] == (
            #[trigger] out@[j])@.len() by {
                if j < p {
                    assert(out@[j] == prev_out[j] && lens@[j] == prev_lens[j]);
                } else if j > p {
                    assert(out@[j] == prev_out[j - 1] && lens@[j] == prev_lens[j - 1]);
                }
            }
        }
        i = i + 1;
    }
    assert(tokens@.take(tokens@.len() as int) =~= tokens@);
    out
}

} // verus!
