//! The structured persistence document: the exchange collection as
//! plain values, in the exact shape that is written to and read back
//! from disk (exchange name, per-category integer sequences, creation
//! timestamp, running total). Exporting produces the document;
//! rehydrating validates it against the configured category list and
//! rejects anything malformed, so that a reimported store is well
//! formed and identical to the exported one.

use vstd::prelude::*;
use crate::rating_in_range;
use crate::order::{lex_lt, lemma_lex_lt_trans, str_lt, str_eq};
use crate::store::{
    ExchangeData, ExchangeModel, Metadata, LevesonRatingSystem, StoreModel, store_wf, exchange_wf,
    sum_lens,
};

verus! {

/// Failure to rehydrate a persisted document.
#[derive(Clone, Copy, Debug, PartialEq, Eq, Structural)]
pub enum LoadError {
    CorruptData,
}

/// Model of the document produced by exporting a store: exactly its
/// exchange list.
pub open spec fn spec_to_document(m: StoreModel) -> Seq<(Seq<char>, ExchangeModel)> {
    m.exchanges
}

/// Model of rehydration: the store is rebuilt exactly when the
/// document, read against the given category list, satisfies every
/// store invariant.
pub open spec fn spec_from_document(
    d: Seq<(Seq<char>, ExchangeModel)>,
    cats: Seq<Seq<char>>,
) -> Option<StoreModel> {
    let m = StoreModel { categories: cats, exchanges: d };
    if store_wf(m) {
        Some(m)
    } else {
        None
    }
}

/// Exporting a well-formed store and rehydrating the document against
/// the same category list loses nothing: the store comes back
/// identical in every exchange, category, rating and metadata field.
pub proof fn lemma_document_round_trip(m: StoreModel)
    requires
        store_wf(m),
    ensures
        spec_from_document(spec_to_document(m), m.categories) == Some(m),
{
    assert(StoreModel { categories: m.categories, exchanges: m.exchanges } == m);
}

/// In a pairwise-ordered document the names are sorted throughout.
proof fn lemma_adjacent_sorted(d: Seq<(Seq<char>, ExchangeModel)>, i: int, j: int)
    requires
        forall|k: int| 0 <= k < d.len() - 1 ==> lex_lt((#[trigger] d[k]).0, d[k + 1].0),
        0 <= i < j < d.len(),
    ensures
        lex_lt(d[i].0, d[j].0),
    decreases j - i,
{
    if j == i + 1 {
        assert(lex_lt(d[i].0, d[i + 1].0));
    } else {
        lemma_adjacent_sorted(d, i, j - 1);
        assert(lex_lt(d[j - 1].0, d[j].0));
        lemma_lex_lt_trans(d[i].0, d[j - 1].0, d[j].0);
    }
}

fn copy_ratings(v: &Vec<i8>) -> (r: Vec<i8>)
    ensures
        r@ == v@,
{
    let mut out: Vec<i8> = Vec::new();
    let mut i: usize = 0;
    while i < v.len()
        invariant
            0 <= i <= v@.len(),
            out@ == v@.take(i as int),
        decreases v@.len() - i,
    {
        out.push(v[i]);
        proof {
            assert(v@.take(i + 1int) =~= v@.take(i as int).push(v@[i as int]));
        }
        i = i + 1;
    }
    proof {
        assert(v@.take(v@.len() as int) =~= v@);
    }
    out
}

fn copy_exchange(e: &ExchangeData) -> (r: ExchangeData)
    ensures
        r@ == e@,
{
    let mut cats: Vec<(String, Vec<i8>)> = Vec::new();
    let mut i: usize = 0;
    while i < e.categories.len()
        invariant
            0 <= i <= e.categories@.len(),
            cats@.len() == i,
            forall|k: int|
                0 <= k < i ==> (#[trigger] cats@[k]).0@ == e.categories@[k].0@ && cats@[k].1@
                    == e.categories@[k].1@,
        decreases e.categories@.len() - i,
    {
        let name: &String = &e.categories[i].0;
        let ratings: &Vec<i8> = &e.categories[i].1;
        cats.push((name.clone(), copy_ratings(ratings)));
        i = i + 1;
    }
    let r = ExchangeData {
        categories: cats,
        metadata: Metadata {
            created: e.metadata.created.clone(),
            total_ratings: e.metadata.total_ratings,
        },
    };
    proof {
        assert(r@.cats =~= e@.cats);
    }
    r
}

impl LevesonRatingSystem {
    /// The persistence document for this store: its exchange list as
    /// plain values, in sorted name order.
    pub fn export_to_document(&self) -> (d: Vec<(String, ExchangeData)>)
        ensures
            d@.map_values(|p: (String, ExchangeData)| (p.0@, p.1@)) == spec_to_document(self@),
    {
        let mut out: Vec<(String, ExchangeData)> = Vec::new();
        let mut i: usize = 0;
        while i < self.exchanges.len()
            invariant
                0 <= i <= self.exchanges@.len(),
                out@.len() == i,
                forall|k: int|
                    0 <= k < i ==> (#[trigger] out@[k]).0@ == self@.exchanges[k].0 && out@[k].1@
                        == self@.exchanges[k].1,
            decreases self.exchanges@.len() - i,
        {
            let name: &String = &self.exchanges[i].0;
            let data: &ExchangeData = &self.exchanges[i].1;
            out.push((name.clone(), copy_exchange(data)));
            i = i + 1;
        }
        proof {
            assert(out@.map_values(|p: (String, ExchangeData)| (p.0@, p.1@)) =~= self@.exchanges);
        }
        out
    }

    /// Rebuilds a store from a persistence document and a category
    /// list. The document is accepted exactly when it upholds every
    /// store invariant: names strictly sorted, per-category sequences
    /// matching the configured categories in order, all values in the
    /// valid rating range, and each running total equal to the sum of
    /// the sequence lengths. Anything else is corrupt data.
    #[verifier::loop_isolation(false)]
    pub fn from_document(doc: Vec<(String, ExchangeData)>, categories: Vec<String>) -> (r: Result<
        LevesonRatingSystem,
        LoadError,
    >)
        ensures
            ({
                let d = doc@.map_values(|p: (String, ExchangeData)| (p.0@, p.1@));
                let cats = categories@.map_values(|s: String| s@);
                match r {
                    Ok(s) => spec_from_document(d, cats) == Some(s@) && s.wf(),
                    Err(e) => spec_from_document(d, cats) is None && e == LoadError::CorruptData,
                }
            }),
    {
        let ghost d = doc@.map_values(|p: (String, ExchangeData)| (p.0@, p.1@));
        let ghost cats = categories@.map_values(|s: String| s@);
        let ghost m = StoreModel { categories: cats, exchanges: d };
        // names strictly sorted
        let mut i: usize = 1;
        while i < doc.len()
            invariant
                1 <= i,
                d.len() == doc@.len(),
                forall|k: int| 0 <= k < i - 1 ==> lex_lt((#[trigger] d[k]).0, d[k + 1].0),
            decreases doc@.len() - i,
        {
            proof {
                assert(d[i - 1] == (doc@[i - 1].0@, doc@[i - 1].1@));
                assert(d[i as int] == (doc@[i as int].0@, doc@[i as int].1@));
            }
            if !str_lt(doc[i - 1].0.as_str(), doc[i].0.as_str()) {
                proof {
                    assert(!lex_lt(d[i - 1].0, d[i as int].0));
                    assert(!lex_lt((m.exchanges[i - 1]).0, (m.exchanges[i as int]).0));
                    assert(!store_wf(m));
                }
                return Err(LoadError::CorruptData);
            }
            i = i + 1;
        }
        proof {
            assert forall|a: int, b: int| 0 <= a < b < d.len() implies lex_lt(
                (#[trigger] d[a]).0,
                (#[trigger] d[b]).0,
            ) by {
                lemma_adjacent_sorted(d, a, b);
            }
        }
        // each exchange well formed against the category list
        let mut x: usize = 0;
        while x < doc.len()
            invariant
                0 <= x <= d.len(),
                d.len() == doc@.len(),
                cats.len() == categories@.len(),
                forall|k: int| 0 <= k < x ==> exchange_wf((#[trigger] d[k]).1, cats),
            decreases doc@.len() - x,
        {
            let e: &ExchangeData = &doc[x].1;
            proof {
                assert(d[x as int] == (doc@[x as int].0@, doc@[x as int].1@));
                assert(e@ == d[x as int].1);
            }
            if e.categories.len() != categories.len() {
                proof {
                    assert(e@.cats.len() != cats.len());
                    assert(!exchange_wf(d[x as int].1, cats));
                    assert(!exchange_wf(m.exchanges[x as int].1, m.categories));
                    assert(!store_wf(m));
                }
                return Err(LoadError::CorruptData);
            }
            let mut c: usize = 0;
            let mut total: u128 = 0;
            while c < e.categories.len()
                invariant
                    0 <= c <= e@.cats.len(),
                    e@ == d[x as int].1,
                    e@.cats.len() == cats.len(),
                    cats.len() == categories@.len(),
                    total == sum_lens(e@.cats.take(c as int)),
                    total <= c * 0xffff_ffff_ffff_ffff,
                    forall|k: int| 0 <= k < c ==> (#[trigger] e@.cats[k]).0 == cats[k],
                    forall|k: int, l: int|
                        0 <= k < c && 0 <= l < e@.cats[k].1.len() ==> rating_in_range(
                            #[trigger] e@.cats[k].1[l],
                        ),
                decreases e@.cats.len() - c,
            {
                let cname: &String = &e.categories[c].0;
                let cvals: &Vec<i8> = &e.categories[c].1;
                proof {
                    assert(e@.cats[c as int] == (e.categories@[c as int].0@, e.categories@[c as int].1@));
                    assert(cats[c as int] == categories@[c as int]@);
                }
                if !str_eq(cname.as_str(), categories[c].as_str()) {
                    proof {
                        assert(e@.cats[c as int].0 != cats[c as int]);
                        assert(!exchange_wf(d[x as int].1, cats));
                        assert(!exchange_wf(m.exchanges[x as int].1, m.categories));
                        assert(!store_wf(m));
                    }
                    return Err(LoadError::CorruptData);
                }
                let mut v: usize = 0;
                while v < cvals.len()
                    invariant
                        0 <= v <= cvals@.len(),
                        forall|l: int| 0 <= l < v ==> rating_in_range(#[trigger] cvals@[l]),
                    decreases cvals@.len() - v,
                {
                    let val = cvals[v];
                    if val < -1 || val > 4 {
                        proof {
                            assert(!rating_in_range(cvals@[v as int]));
                            assert(e@.cats[c as int].1 == cvals@);
                            assert(e@.cats[c as int].1[v as int] == cvals@[v as int]);
                            assert(!exchange_wf(d[x as int].1, cats));
                            assert(!exchange_wf(m.exchanges[x as int].1, m.categories));
                            assert(!store_wf(m));
                        }
                        return Err(LoadError::CorruptData);
                    }
                    v = v + 1;
                }
                proof {
                    assert(e@.cats.take(c + 1int).drop_last() =~= e@.cats.take(c as int));
                    assert(e@.cats.take(c + 1int).last() == e@.cats[c as int]);
                    assert(e@.cats[c as int].1 == cvals@);
                    assert(cvals@.len() <= 0xffff_ffff_ffff_ffff);
                }
                total = total + cvals.len() as u128;
                c = c + 1;
            }
            proof {
                assert(e@.cats.take(e@.cats.len() as int) =~= e@.cats);
            }
            if total != e.metadata.total_ratings as u128 {
                proof {
                    assert(e@.total_ratings != sum_lens(e@.cats));
                    assert(!exchange_wf(d[x as int].1, cats));
                    assert(!exchange_wf(m.exchanges[x as int].1, m.categories));
                    assert(!store_wf(m));
                }
                return Err(LoadError::CorruptData);
            }
            x = x + 1;
        }
        let s = LevesonRatingSystem { categories: categories, exchanges: doc };
        proof {
            assert(s@.exchanges =~= d);
            assert(s@.categories =~= cats);
            assert(store_wf(m));
            assert(s@ == m);
        }
        Ok(s)
    }
}

} // verus!

