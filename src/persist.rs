use vstd::prelude::*;

use crate::index::{
    entries_of, lemma_names_unique, lemma_without_absent, names_unique, with_documents, Document,
    Entry, Index,
};
use crate::text::views;

verus! {

/// The schema version that `dump` writes.
pub const CURRENT_VERSION: u32 = 2;

/// An encoded store: (schema version, each document's name and aliases, count).
pub type CurrentData = (u32, Vec<(String, Vec<String>)>, u64);

/// The older encoding: (postings, per-document lengths, per-document aliases,
/// count, and the two ranking parameters as raw bytes).
pub type LegacyData = (
    Vec<(String, Vec<String>)>,
    Vec<(String, u64)>,
    Vec<(String, Vec<String>)>,
    u64,
    [u8; 4],
    [u8; 4],
);

/// What a list of (name, aliases) pairs holds.
pub open spec fn pairs_view(v: Seq<(String, Vec<String>)>) -> Seq<Entry> {
    v.map_values(|p: (String, Vec<String>)| (p.0@, views(p.1@)))
}

/// What bincode decodes from `bytes` as a current store, where it decodes one.
pub uninterp spec fn current_decoding(bytes: Seq<u8>) -> Option<(u32, Seq<Entry>, u64)>;

/// What bincode decodes from `bytes` as an older store, where it decodes one:
/// its postings, lengths, aliases and count.
pub uninterp spec fn legacy_decoding(bytes: Seq<u8>) -> Option<
    (Seq<Entry>, Seq<(Seq<char>, u64)>, Seq<Entry>, u64),
>;

#[verifier::external_type_specification]
#[verifier::external_body]
pub struct ExErrorKind(bincode::ErrorKind);

/// Relies on `bincode::serialize` of (version, [(name, aliases)], count): with
/// no size limit set and every sequence of known length it cannot fail, and it
/// writes what `bincode::deserialize` reads back as the same value.
#[verifier::external_body]
fn encode_current(version: u32, docs: &Vec<Document>, n: u64) -> (r: Result<
    Vec<u8>,
    Box<bincode::ErrorKind>,
>)
    ensures
        r is Ok,
        r is Ok ==> current_decoding(r->Ok_0@) == Some((version, entries_of(docs@), n)),
{
    let pairs: Vec<(&String, &Vec<String>)> = docs.iter().map(|d| (&d.name, &d.aliases)).collect();
    bincode::serialize(&(version, pairs, n))
}

/// Relies on `bincode::deserialize` into `CurrentData`: the outcome depends on
/// the bytes alone.
#[verifier::external_body]
fn decode_current(bytes: &[u8]) -> (r: Result<CurrentData, Box<bincode::ErrorKind>>)
    ensures
        match r {
            Ok(d) => current_decoding(bytes@) == Some((d.0, pairs_view(d.1@), d.2)),
            Err(_) => current_decoding(bytes@) is None,
        },
{
    bincode::deserialize(bytes)
}

/// Relies on `bincode::deserialize` into `LegacyData`: the outcome depends on
/// the bytes alone.
#[verifier::external_body]
fn decode_legacy(bytes: &[u8]) -> (r: Result<LegacyData, Box<bincode::ErrorKind>>)
    ensures
        match r {
            Ok(d) => legacy_decoding(bytes@) == Some(
                (
                    pairs_view(d.0@),
                    d.1@.map_values(|p: (String, u64)| (p.0@, p.1)),
                    pairs_view(d.2@),
                    d.3,
                ),
            ),
            Err(_) => legacy_decoding(bytes@) is None,
        },
{
    bincode::deserialize(bytes)
}

/// Relies on bincode's `Display` for its error: the text of the message.
#[verifier::external_body]
fn error_text(e: &bincode::ErrorKind) -> String {
    e.to_string()
}

/// Why a buffer could not be loaded: the message of each decoding tried.
#[derive(Debug)]
pub struct LoadError {
    pub current: String,
    pub legacy: String,
}

/// The store that `load` rebuilds from `bytes`: that of the current encoding
/// when it decodes with the current version, else that of the older one.
pub open spec fn load_result(bytes: Seq<u8>) -> Option<Seq<Entry>> {
    match current_decoding(bytes) {
        Some(d) => if d.0 == CURRENT_VERSION {
            Some(with_documents(Seq::empty(), d.1))
        } else {
            legacy_result(bytes)
        },
        None => legacy_result(bytes),
    }
}

/// The store rebuilt from the aliases of the older encoding.
pub open spec fn legacy_result(bytes: Seq<u8>) -> Option<Seq<Entry>> {
    match legacy_decoding(bytes) {
        Some(l) => Some(with_documents(Seq::empty(), l.2)),
        None => None,
    }
}

/// `bytes` encode store `e` with its count under the current version.
pub open spec fn dumped(e: Seq<Entry>, bytes: Seq<u8>) -> bool {
    current_decoding(bytes) == Some((CURRENT_VERSION, e, e.len() as u64))
}

/// Documents made of (name, aliases) pairs.
fn documents_from(pairs: Vec<(String, Vec<String>)>) -> (r: Vec<Document>)
    ensures
        entries_of(r@) == pairs_view(pairs@),
{
    let ghost pv = pairs_view(pairs@);
    let mut out: Vec<Document> = Vec::new();
    for p in it: pairs.into_iter()
        invariant
            pv == pairs_view(it.seq()),
            entries_of(out@) == pv.take(it.index() as int),
    {
        let ghost k = it.index() as int;
        let ghost before = out@;
        let (name, aliases) = p;
        out.push(Document { name, aliases });
        proof {
            assert(entries_of(out@) =~= entries_of(before).push(pv[k]));
            assert(pv.take(k + 1) =~= pv.take(k).push(pv[k]));
        }
    }
    assert(pv.take(pv.len() as int) =~= pv);
    out
}

/// Adding the documents of a store with unique names, in order, to an empty
/// store gives that store back.
proof fn lemma_rebuild(e: Seq<Entry>)
    requires
        names_unique(e),
    ensures
        with_documents(Seq::empty(), e) == e,
    decreases e.len(),
{
    if e.len() > 0 {
        let d = e.drop_last();
        assert(names_unique(d)) by {
            assert forall|i: int, j: int| 0 <= i < j < d.len() implies d[i].0 != d[j].0 by {
                assert(d[i] == e[i] && d[j] == e[j]);
            }
        }
        lemma_rebuild(d);
        assert forall|i: int| 0 <= i < d.len() implies #[trigger] d[i].0 != e.last().0 by {
            assert(d[i] == e[i]);
        }
        lemma_without_absent(d, e.last().0);
        assert(e =~= d.push(e.last()));
    }
}

/// Loading what `dump` wrote for an index gives back the same store, and so
/// the same count.
pub proof fn lemma_round_trip(ix: &Index, bytes: Seq<u8>)
    requires
        ix.wf(),
        dumped(ix@, bytes),
    ensures
        load_result(bytes) == Some(ix@),
{
    lemma_names_unique(ix);
    lemma_rebuild(ix@);
}

impl Index {
    /// An index holding `documents`, added in order.
    pub fn from_documents(documents: Vec<Document>) -> (r: Index)
        ensures
            r.wf(),
            r@ == with_documents(Seq::empty(), entries_of(documents@)),
    {
        let mut r = Index::new();
        r.add_documents(documents);
        r
    }

    /// Encodes the document store under the current schema version; the
    /// postings index is not written, being derived from the store.
    pub fn dump(&self) -> (r: Result<Vec<u8>, String>)
        requires
            self.wf(),
        ensures
            r is Ok,
            r is Ok ==> dumped(self@, r->Ok_0@),
    {
        let n = self.n_docs() as u64;
        match encode_current(CURRENT_VERSION, self.documents(), n) {
            Ok(bytes) => Ok(bytes),
            Err(e) => Err(error_text(&e)),
        }
    }

    /// Rebuilds an index from a buffer: under the current schema where it
    /// decodes with the current version, else under the older schema, whose
    /// postings, lengths and ranking parameters are dropped. Fails, with both
    /// decoding messages, where neither decodes.
    pub fn load(bytes: &[u8]) -> (r: Result<Index, LoadError>)
        ensures
            match r {
                Ok(ix) => ix.wf() && load_result(bytes@) == Some(ix@),
                Err(_) => load_result(bytes@) is None,
            },
    {
        let current_err: String;
        match decode_current(bytes) {
            Ok(data) => {
                let (version, pairs, _count) = data;
                if version == CURRENT_VERSION {
                    return Ok(Index::from_documents(documents_from(pairs)));
                }
                current_err = String::from_str("unsupported schema version");
            },
            Err(e) => {
                current_err = error_text(&e);
            },
        }
        match decode_legacy(bytes) {
            Ok(data) => {
                let (_postings, _lengths, aliases, _count, _k1, _b) = data;
                Ok(Index::from_documents(documents_from(aliases)))
            },
            Err(e) => Err(LoadError { current: current_err, legacy: error_text(&e) }),
        }
    }
}

} // verus!
