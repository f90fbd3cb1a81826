use vstd::prelude::*;

verus! {

/// The tokens of a text: every overlapping pair of characters from left to
/// right, then the whole text. A text of one or two characters is its own
/// single token, and the empty text has none.
pub open spec fn bigrams(s: Seq<char>) -> Seq<Seq<char>> {
    if s.len() == 0 {
        Seq::empty()
    } else if s.len() <= 2 {
        seq![s]
    } else {
        Seq::new((s.len() - 1) as nat, |i: int| s.subrange(i, i + 2)).push(s)
    }
}

/// Splits `text` into its character bigrams followed by the whole text.
pub fn tokenize_2gram(text: &str) -> (r: Vec<String>)
    ensures
        r@.map_values(|t: String| t@) == bigrams(text@),
{
    let n = text.unicode_len();
    let mut tokens: Vec<String> = Vec::new();
    if n == 0 {
        proof {
            assert(tokens@.map_values(|t: String| t@) =~= bigrams(text@));
        }
        return tokens;
    }
    if n <= 2 {
        tokens.push(text.to_owned());
        proof {
            assert(tokens@.map_values(|t: String| t@) =~= bigrams(text@));
        }
        return tokens;
    }
    let mut i: usize = 0;
    while i + 1 < n
        invariant
            n == text@.len(),
            n >= 3,
            i + 1 <= n,
            tokens@.len() == i,
            forall|j: int| 0 <= j < i ==> #[trigger] tokens@[j]@ == text@.subrange(j, j + 2),
        decreases n - i,
    {
        let pair = text.substring_char(i, i + 2).to_owned();
        tokens.push(pair);
        i = i + 1;
    }
    tokens.push(text.to_owned());
    proof {
        assert(tokens@.map_values(|t: String| t@) =~= bigrams(text@));
    }
    tokens
}

} // verus!
