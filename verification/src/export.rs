//! The flat tabular view used for spreadsheet export: one row per
//! individual rating, carrying the exchange, the category, the value
//! and its 1-based position within that exchange and category,
//! enumerated in category-list order and then in append order.

use vstd::prelude::*;
use crate::store::{ExchangeData, ExchangeModel, LevesonRatingSystem};

verus! {

/// One exported row.
pub struct CsvRow {
    pub exchange: String,
    pub category: String,
    pub rating: i8,
    pub index: usize,
}

/// Rows of one category: the values in append order, 1-based.
pub open spec fn rows_of_cat(ex: Seq<char>, cat: Seq<char>, vals: Seq<i8>) -> Seq<
    (Seq<char>, Seq<char>, i8, int),
> {
    Seq::new(vals.len(), |i: int| (ex, cat, vals[i], i + 1))
}

/// Rows of one exchange, category by category in list order.
pub open spec fn rows_of_exchange(name: Seq<char>, cats: Seq<(Seq<char>, Seq<i8>)>) -> Seq<
    (Seq<char>, Seq<char>, i8, int),
>
    decreases cats.len(),
{
    if cats.len() == 0 {
        Seq::empty()
    } else {
        rows_of_exchange(name, cats.drop_last()) + rows_of_cat(
            name,
            cats.last().0,
            cats.last().1,
        )
    }
}

/// Every row of the store, exchange by exchange in sorted name order.
pub open spec fn all_rows(exs: Seq<(Seq<char>, ExchangeModel)>) -> Seq<
    (Seq<char>, Seq<char>, i8, int),
>
    decreases exs.len(),
{
    if exs.len() == 0 {
        Seq::empty()
    } else {
        all_rows(exs.drop_last()) + rows_of_exchange(exs.last().0, exs.last().1.cats)
    }
}

/// Views of an exported row list.
pub open spec fn row_views(s: Seq<CsvRow>) -> Seq<(Seq<char>, Seq<char>, i8, int)> {
    s.map_values(|r: CsvRow| (r.exchange@, r.category@, r.rating, r.index as int))
}

impl LevesonRatingSystem {
    /// The flat tabular view of the whole store, ready for an
    /// external tabular encoder (a header row is the encoder's
    /// business).
    #[verifier::loop_isolation(false)]
    pub fn csv_rows(&self) -> (r: Vec<CsvRow>)
        ensures
            row_views(r@) == all_rows(self@.exchanges),
    {
        let ghost exs = self@.exchanges;
        let mut out: Vec<CsvRow> = Vec::new();
        let mut x: usize = 0;
        proof {
            assert(exs.take(0int) =~= Seq::<(Seq<char>, ExchangeModel)>::empty());
        }
        while x < self.exchanges.len()
            invariant
                0 <= x <= exs.len(),
                row_views(out@) == all_rows(exs.take(x as int)),
            decreases exs.len() - x,
        {
            let ghost e = exs[x as int].1;
            let ghost name = exs[x as int].0;
            proof {
                assert(exs.take(x + 1int).drop_last() =~= exs.take(x as int));
                assert(exs.take(x + 1int).last() == exs[x as int]);
                assert(e.cats.take(0int) =~= Seq::<(Seq<char>, Seq<i8>)>::empty());
            }
            let ex_name: &String = &self.exchanges[x].0;
            let data: &ExchangeData = &self.exchanges[x].1;
            let mut c: usize = 0;
            while c < data.categories.len()
                invariant
                    0 <= c <= e.cats.len(),
                    data@ == e,
                    ex_name@ == name,
                    row_views(out@) == all_rows(exs.take(x as int)) + rows_of_exchange(
                        name,
                        e.cats.take(c as int),
                    ),
                decreases e.cats.len() - c,
            {
                proof {
                    assert(e.cats[c as int] == (data.categories@[c as int].0@,
                    data.categories@[c as int].1@));
                    assert(e.cats.take(c + 1int).drop_last() =~= e.cats.take(c as int));
                    assert(e.cats.take(c + 1int).last() == e.cats[c as int]);
                }
                let cat_name: &String = &data.categories[c].0;
                let cvals: &Vec<i8> = &data.categories[c].1;
                let ghost vals = e.cats[c as int].1;
                let mut v: usize = 0;
                proof {
                    assert(rows_of_cat(name, e.cats[c as int].0, vals.take(0int)) =~= Seq::<
                        (Seq<char>, Seq<char>, i8, int),
                    >::empty());
                }
                while v < cvals.len()
                    invariant
                        0 <= v <= vals.len(),
                        cvals@ == vals,
                        ex_name@ == name,
                        cat_name@ == e.cats[c as int].0,
                        row_views(out@) == all_rows(exs.take(x as int)) + rows_of_exchange(
                            name,
                            e.cats.take(c as int),
                        ) + rows_of_cat(name, e.cats[c as int].0, vals.take(v as int)),
                    decreases vals.len() - v,
                {
                    let row = CsvRow {
                        exchange: ex_name.clone(),
                        category: cat_name.clone(),
                        rating: cvals[v],
                        index: v + 1,
                    };
                    let ghost prev_rows = row_views(out@);
                    out.push(row);
                    proof {
                        let x_row = (name, e.cats[c as int].0, vals[v as int], v + 1int);
                        assert(row_views(out@) =~= prev_rows.push(x_row));
                        assert(rows_of_cat(name, e.cats[c as int].0, vals.take(v + 1int))
                            =~= rows_of_cat(name, e.cats[c as int].0, vals.take(v as int)).push(
                            x_row,
                        ));
                        assert(row_views(out@) =~= all_rows(exs.take(x as int))
                            + rows_of_exchange(name, e.cats.take(c as int)) + rows_of_cat(
                            name,
                            e.cats[c as int].0,
                            vals.take(v + 1int),
                        ));
                    }
                    v = v + 1;
                }
                proof {
                    assert(vals.take(vals.len() as int) =~= vals);
                    assert(row_views(out@) =~= all_rows(exs.take(x as int)) + rows_of_exchange(
                        name,
                        e.cats.take(c + 1int),
                    ));
                }
                c = c + 1;
            }
            proof {
                assert(e.cats.take(e.cats.len() as int) =~= e.cats);
                assert(row_views(out@) =~= all_rows(exs.take(x + 1int)));
            }
            x = x + 1;
        }
        proof {
            assert(exs.take(exs.len() as int) =~= exs);
        }
        out
    }
}

} // verus!
