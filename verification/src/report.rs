//! The aggregator: read-only statistics over a store snapshot.
//! Per-exchange averages are means of the per-category means (so each
//! category weighs equally however many ratings it holds); category
//! and system averages are flat means over individual ratings. All
//! averages are integer hundredths, rounded half away from zero.
//! Ranking sorts by average descending with ties broken by name
//! ascending, which makes reports reproducible.

use vstd::prelude::*;
use crate::rating_in_range;
use crate::arith::{
    seq_sum, rounded_div, mean_hundredths, lemma_rounded_div_bounds, rounded_div_i128,
    sum_ratings, mean_hundredths_of,
};
use crate::order::{lex_lt, str_lt};
use vstd::pervasive::VecAdditionalExecFns;
use crate::store::{ExchangeData, ExchangeModel, LevesonRatingSystem, sum_lens, exchange_wf};

verus! {

/// Sum of a sequence of integers.
pub open spec fn sum_ints(s: Seq<int>) -> int
    decreases s.len(),
{
    if s.len() == 0 {
        0
    } else {
        sum_ints(s.drop_last()) + s.last()
    }
}

/// Sum of every rating held in a category list.
pub open spec fn exch_sum(cats: Seq<(Seq<char>, Seq<i8>)>) -> int
    decreases cats.len(),
{
    if cats.len() == 0 {
        0
    } else {
        exch_sum(cats.drop_last()) + seq_sum(cats.last().1)
    }
}

/// The per-category means (in hundredths) of the categories that hold
/// at least one rating, in category order.
pub open spec fn nonempty_means(cats: Seq<(Seq<char>, Seq<i8>)>) -> Seq<int>
    decreases cats.len(),
{
    if cats.len() == 0 {
        Seq::empty()
    } else {
        nonempty_means(cats.drop_last()) + (if cats.last().1.len() > 0 {
            seq![mean_hundredths(cats.last().1)]
        } else {
            Seq::empty()
        })
    }
}

/// Per-exchange average in hundredths: the rounded mean of the
/// per-category means, counting only categories with ratings.
pub open spec fn exchange_average(e: ExchangeModel) -> int
    recommends
        nonempty_means(e.cats).len() > 0,
{
    rounded_div(sum_ints(nonempty_means(e.cats)), nonempty_means(e.cats).len() as int)
}

/// Number of individual ratings across all exchanges.
pub open spec fn total_count(exs: Seq<(Seq<char>, ExchangeModel)>) -> nat
    decreases exs.len(),
{
    if exs.len() == 0 {
        0
    } else {
        total_count(exs.drop_last()) + sum_lens(exs.last().1.cats)
    }
}

/// Sum of every individual rating across all exchanges.
pub open spec fn all_sum(exs: Seq<(Seq<char>, ExchangeModel)>) -> int
    decreases exs.len(),
{
    if exs.len() == 0 {
        0
    } else {
        all_sum(exs.drop_last()) + exch_sum(exs.last().1.cats)
    }
}

/// Number of ratings recorded for category `j` across all exchanges.
pub open spec fn cat_count(exs: Seq<(Seq<char>, ExchangeModel)>, j: int) -> nat
    decreases exs.len(),
{
    if exs.len() == 0 {
        0
    } else {
        cat_count(exs.drop_last(), j) + exs.last().1.cats[j].1.len()
    }
}

/// Sum of the ratings recorded for category `j` across all exchanges.
pub open spec fn cat_sum(exs: Seq<(Seq<char>, ExchangeModel)>, j: int) -> int
    decreases exs.len(),
{
    if exs.len() == 0 {
        0
    } else {
        cat_sum(exs.drop_last(), j) + seq_sum(exs.last().1.cats[j].1)
    }
}

/// Ranking order: higher average first, ties broken by name ascending.
pub open spec fn perf_before(a: (Seq<char>, int), b: (Seq<char>, int)) -> bool {
    a.1 > b.1 || (a.1 == b.1 && lex_lt(a.0, b.0))
}

/// Insertion into a ranked sequence, before the first entry that the
/// new one precedes.
pub open spec fn insert_perf(s: Seq<(Seq<char>, int)>, x: (Seq<char>, int)) -> Seq<
    (Seq<char>, int),
>
    decreases s.len(),
{
    if s.len() == 0 {
        seq![x]
    } else if perf_before(x, s[0]) {
        seq![x] + s
    } else {
        seq![s[0]] + insert_perf(s.drop_first(), x)
    }
}

/// The exchanges holding at least one rating, as (name, average)
/// pairs, ranked by [`perf_before`].
pub open spec fn ranked_performances(exs: Seq<(Seq<char>, ExchangeModel)>) -> Seq<
    (Seq<char>, int),
>
    decreases exs.len(),
{
    if exs.len() == 0 {
        Seq::empty()
    } else {
        let rest = ranked_performances(exs.drop_last());
        if sum_lens(exs.last().1.cats) > 0 {
            insert_perf(rest, (exs.last().0, exchange_average(exs.last().1)))
        } else {
            rest
        }
    }
}

/// System-wide flat mean in hundredths, `None` on an empty store.
pub open spec fn spec_system_average(exs: Seq<(Seq<char>, ExchangeModel)>) -> Option<i64> {
    if total_count(exs) == 0 {
        None
    } else {
        Some(rounded_div(100 * all_sum(exs), total_count(exs) as int) as i64)
    }
}

/// Flat mean of one category across all exchanges, in hundredths.
pub open spec fn spec_category_average(exs: Seq<(Seq<char>, ExchangeModel)>, j: int) -> Option<
    i64,
> {
    if cat_count(exs, j) == 0 {
        None
    } else {
        Some(rounded_div(100 * cat_sum(exs, j), cat_count(exs, j) as int) as i64)
    }
}

/// A ranked entry: exchange name and its average in hundredths.
pub struct ExchangePerformance {
    pub name: String,
    pub average_hundredths: i64,
}

/// Name/average views of a performance list.
pub open spec fn perf_views(s: Seq<ExchangePerformance>) -> Seq<(Seq<char>, int)> {
    s.map_values(|p: ExchangePerformance| (p.name@, p.average_hundredths as int))
}

/// The report: totals, system and per-category averages, and the top
/// and bottom five ranked exchanges (fewer when fewer qualify; both
/// lists run best to worst).
pub struct SystemReport {
    pub total_exchanges: usize,
    pub total_ratings: usize,
    pub system_average: Option<i64>,
    pub category_averages: Vec<(String, Option<i64>)>,
    pub top_performers: Vec<ExchangePerformance>,
    pub bottom_performers: Vec<ExchangePerformance>,
}

/// An aggregator run on an empty store reports no exchanges, no
/// ratings, no system average and empty performer lists.
pub proof fn lemma_report_on_empty(exs: Seq<(Seq<char>, ExchangeModel)>)
    requires
        exs.len() == 0,
    ensures
        total_count(exs) == 0,
        spec_system_average(exs) is None,
        ranked_performances(exs).len() == 0,
{
}

/// A prefix holds at most as many ratings as the whole collection.
proof fn lemma_total_count_take_le(exs: Seq<(Seq<char>, ExchangeModel)>, k: int)
    requires
        0 <= k <= exs.len(),
    ensures
        total_count(exs.take(k)) <= total_count(exs),
    decreases exs.len() - k,
{
    if k == exs.len() {
        assert(exs.take(k) =~= exs);
    } else {
        lemma_total_count_take_le(exs, k + 1);
        assert(exs.take(k + 1).drop_last() =~= exs.take(k));
        assert(exs.take(k + 1).last() == exs[k]);
    }
}

/// A category list has a nonempty sequence exactly when it holds any
/// rating at all.
proof fn lemma_nonempty_means_iff(cats: Seq<(Seq<char>, Seq<i8>)>)
    ensures
        (nonempty_means(cats).len() == 0) <==> (sum_lens(cats) == 0),
    decreases cats.len(),
{
    if cats.len() > 0 {
        lemma_nonempty_means_iff(cats.drop_last());
    }
}

/// Inserting at the first position whose entry the new pair precedes
/// is exactly [`insert_perf`].
proof fn lemma_insert_perf_at(s: Seq<(Seq<char>, int)>, x: (Seq<char>, int), pos: int)
    requires
        0 <= pos <= s.len(),
        forall|j: int| 0 <= j < pos ==> !perf_before(x, #[trigger] s[j]),
        pos < s.len() ==> perf_before(x, s[pos]),
    ensures
        insert_perf(s, x) == s.take(pos) + seq![x] + s.skip(pos),
    decreases s.len(),
{
    if s.len() == 0 {
        assert(insert_perf(s, x) =~= s.take(pos) + seq![x] + s.skip(pos));
    } else if pos == 0 {
        assert(s.take(0) =~= Seq::<(Seq<char>, int)>::empty());
        assert(s.skip(0) =~= s);
        assert(insert_perf(s, x) =~= s.take(0) + seq![x] + s.skip(0));
    } else {
        assert(!perf_before(x, s[0]));
        assert forall|j: int| 0 <= j < pos - 1 implies !perf_before(x, #[trigger] s.drop_first()[j]) by {
            assert(s.drop_first()[j] == s[j + 1]);
        }
        if pos - 1 < s.drop_first().len() {
            assert(s.drop_first()[pos - 1] == s[pos]);
        }
        lemma_insert_perf_at(s.drop_first(), x, pos - 1);
        assert(insert_perf(s, x) =~= s.take(pos) + seq![x] + s.skip(pos)) by {
            assert(insert_perf(s, x) == seq![s[0]] + insert_perf(s.drop_first(), x));
            assert(insert_perf(s.drop_first(), x) == s.drop_first().take(pos - 1) + seq![x]
                + s.drop_first().skip(pos - 1));
            assert forall|j: int| 0 <= j < pos implies (s.take(pos) + seq![x] + s.skip(pos))[j]
                == (seq![s[0]] + insert_perf(s.drop_first(), x))[j] by {
                if j > 0 {
                    assert(s.drop_first().take(pos - 1)[j - 1] == s[j]);
                }
            }
        }
    }
}

/// A prefix of a category list holds at most as many ratings as the
/// whole list.
proof fn lemma_sum_lens_take_le(cats: Seq<(Seq<char>, Seq<i8>)>, k: int)
    requires
        0 <= k <= cats.len(),
    ensures
        sum_lens(cats.take(k)) <= sum_lens(cats),
    decreases cats.len() - k,
{
    if k == cats.len() {
        assert(cats.take(k) =~= cats);
    } else {
        lemma_sum_lens_take_le(cats, k + 1);
        assert(cats.take(k + 1).drop_last() =~= cats.take(k));
        assert(cats.take(k + 1).last() == cats[k]);
    }
}

impl LevesonRatingSystem {
    /// The full report: exchange and rating totals, system and
    /// per-category averages, and the five best and five worst ranked
    /// exchanges (both lists best to worst; fewer entries when fewer
    /// exchanges hold ratings).
    #[verifier::loop_isolation(false)]
    #[verifier::rlimit(100)]
    pub fn generate_report(&self) -> (r: SystemReport)
        requires
            self.wf(),
            total_count(self@.exchanges) <= usize::MAX,
        ensures
            r.total_exchanges == self@.exchanges.len(),
            r.total_ratings == total_count(self@.exchanges),
            r.system_average == spec_system_average(self@.exchanges),
            r.category_averages@.len() == self@.categories.len(),
            forall|j: int|
                0 <= j < self@.categories.len() ==> (#[trigger] r.category_averages@[j]).0@
                    == self@.categories[j] && r.category_averages@[j].1 == spec_category_average(
                    self@.exchanges,
                    j,
                ),
            ({
                let ranked = ranked_performances(self@.exchanges);
                let topn = if ranked.len() < 5 {
                    ranked.len() as int
                } else {
                    5int
                };
                &&& perf_views(r.top_performers@) == ranked.take(topn)
                &&& perf_views(r.bottom_performers@) == ranked.skip(ranked.len() - topn)
            }),
    {
        let ghost exs = self@.exchanges;
        let ncats = self.categories.len();
        let mut cat_sums: Vec<i128> = Vec::new();
        let mut cat_counts: Vec<u128> = Vec::new();
        let mut z: usize = 0;
        while z < ncats
            invariant
                0 <= z <= ncats,
                cat_sums@.len() == z,
                cat_counts@.len() == z,
                forall|k: int| 0 <= k < z ==> cat_sums@[k] == 0,
                forall|k: int| 0 <= k < z ==> cat_counts@[k] == 0,
            decreases ncats - z,
        {
            cat_sums.push(0);
            cat_counts.push(0);
            z = z + 1;
        }
        let mut allsum: i128 = 0;
        let mut allcnt: u128 = 0;
        let mut perfs: Vec<ExchangePerformance> = Vec::new();
        let mut x: usize = 0;
        proof {
            assert(exs.take(0int) =~= Seq::<(Seq<char>, ExchangeModel)>::empty());
        }
        while x < self.exchanges.len()
            invariant
                0 <= x <= exs.len(),
                cat_sums@.len() == ncats,
                cat_counts@.len() == ncats,
                forall|k: int|
                    0 <= k < ncats ==> (#[trigger] cat_sums@[k]) as int == cat_sum(
                        exs.take(x as int),
                        k,
                    ),
                forall|k: int|
                    0 <= k < ncats ==> (#[trigger] cat_counts@[k]) as int == cat_count(
                        exs.take(x as int),
                        k,
                    ),
                forall|k: int|
                    0 <= k < ncats ==> (#[trigger] cat_counts@[k]) as int <= allcnt as int,
                forall|k: int|
                    0 <= k < ncats ==> -((#[trigger] cat_counts@[k]) as int) <= cat_sums@[k] as int
                        <= 4 * (cat_counts@[k] as int),
                allsum as int == all_sum(exs.take(x as int)),
                allcnt as int == total_count(exs.take(x as int)),
                allcnt as int <= total_count(exs),
                -(allcnt as int) <= allsum as int <= 4 * (allcnt as int),
                perf_views(perfs@) == ranked_performances(exs.take(x as int)),
            decreases exs.len() - x,
        {
            let ghost e = exs[x as int].1;
            proof {
                assert(exchange_wf(e, self@.categories));
                assert(e.cats.take(0int) =~= Seq::<(Seq<char>, Seq<i8>)>::empty());
                assert(exs.take(x + 1int).drop_last() =~= exs.take(x as int));
                assert(exs.take(x + 1int).last() == exs[x as int]);
                lemma_total_count_take_le(exs, x + 1int);
            }
            let data: &ExchangeData = &self.exchanges[x].1;
            let mut msum: i128 = 0;
            let mut mcnt: u128 = 0;
            let mut c: usize = 0;
            while c < data.categories.len()
                invariant
                    0 <= c <= ncats,
                    data@ == e,
                    e.cats.len() == ncats,
                    msum as int == sum_ints(nonempty_means(e.cats.take(c as int))),
                    mcnt as int == nonempty_means(e.cats.take(c as int)).len(),
                    mcnt as int <= c,
                    -100 * (mcnt as int) <= msum as int <= 400 * (mcnt as int),
                    cat_sums@.len() == ncats,
                    cat_counts@.len() == ncats,
                    forall|k: int|
                        0 <= k < ncats ==> (#[trigger] cat_sums@[k]) as int == cat_sum(
                            exs.take(x as int),
                            k,
                        ) + (if k < c {
                            seq_sum(e.cats[k].1)
                        } else {
                            0int
                        }),
                    forall|k: int|
                        0 <= k < ncats ==> (#[trigger] cat_counts@[k]) as int == cat_count(
                            exs.take(x as int),
                            k,
                        ) + (if k < c {
                            e.cats[k].1.len() as int
                        } else {
                            0int
                        }),
                    forall|k: int|
                        0 <= k < ncats ==> (#[trigger] cat_counts@[k]) as int <= allcnt as int,
                    forall|k: int|
                        0 <= k < ncats ==> -((#[trigger] cat_counts@[k]) as int) <= cat_sums@[k] as int
                            <= 4 * (cat_counts@[k] as int),
                    allsum as int == all_sum(exs.take(x as int)) + exch_sum(e.cats.take(c as int)),
                    allcnt as int == total_count(exs.take(x as int)) + sum_lens(
                        e.cats.take(c as int),
                    ),
                    allcnt as int <= total_count(exs),
                    -(allcnt as int) <= allsum as int <= 4 * (allcnt as int),
                decreases ncats - c,
            {
                let cvals: &Vec<i8> = &data.categories[c].1;
                proof {
                    assert(e.cats[c as int] == (data.categories@[c as int].0@,
                    data.categories@[c as int].1@));
                    assert(cvals@ == e.cats[c as int].1);
                    assert forall|l: int| 0 <= l < cvals@.len() implies rating_in_range(
                        #[trigger] cvals@[l],
                    ) by {
                        assert(rating_in_range(e.cats[c as int].1[l]));
                    }
                    assert(e.cats.take(c + 1int).drop_last() =~= e.cats.take(c as int));
                    assert(e.cats.take(c + 1int).last() == e.cats[c as int]);
                    lemma_sum_lens_take_le(e.cats, c + 1int);
                }
                if cvals.len() > 0 {
                    let s_c: i128 = sum_ratings(cvals);
                    let mh: i64 = mean_hundredths_of(cvals);
                    msum = msum + mh as i128;
                    mcnt = mcnt + 1;
                    let cur_s: i128 = cat_sums[c];
                    let cur_c: u128 = cat_counts[c];
                    cat_sums.set(c, cur_s + s_c);
                    cat_counts.set(c, cur_c + cvals.len() as u128);
                    allsum = allsum + s_c;
                    allcnt = allcnt + cvals.len() as u128;
                    proof {
                        assert(nonempty_means(e.cats.take(c + 1int)) =~= nonempty_means(
                            e.cats.take(c as int),
                        ).push(mean_hundredths(e.cats[c as int].1)));
                        assert(sum_ints(nonempty_means(e.cats.take(c + 1int)))
                            == sum_ints(nonempty_means(e.cats.take(c as int))) + mean_hundredths(
                            e.cats[c as int].1,
                        )) by {
                            assert(nonempty_means(e.cats.take(c + 1int)).drop_last()
                                =~= nonempty_means(e.cats.take(c as int)));
                        }
                    }
                } else {
                    proof {
                        assert(nonempty_means(e.cats.take(c + 1int)) =~= nonempty_means(
                            e.cats.take(c as int),
                        ));
                        assert(seq_sum(e.cats[c as int].1) == 0);
                    }
                }
                c = c + 1;
            }
            proof {
                assert(e.cats.take(ncats as int) =~= e.cats);
            }
            if mcnt > 0 {
                let avg_w: i128 = rounded_div_i128(msum, mcnt as i128);
                proof {
                    lemma_rounded_div_bounds(msum as int, mcnt as int, -100, 400);
                }
                let avg: i64 = avg_w as i64;
                proof {
                    lemma_nonempty_means_iff(e.cats);
                    assert(avg as int == exchange_average(e));
                }
                let pname: String = self.exchanges[x].0.clone();
                let ghost pv = perf_views(perfs@);
                let ghost newpair = (pname@, avg as int);
                let mut ppos: usize = 0;
                let mut pstop = false;
                while !pstop && ppos < perfs.len()
                    invariant
                        0 <= ppos <= perfs@.len(),
                        pv == perf_views(perfs@),
                        forall|k: int| 0 <= k < ppos ==> !perf_before(newpair, #[trigger] pv[k]),
                        pstop ==> ppos < perfs@.len() && perf_before(newpair, pv[ppos as int]),
                    decreases 2 * (perfs@.len() - ppos) + (if pstop {
                        0int
                    } else {
                        1int
                    }),
                {
                    let q: &ExchangePerformance = &perfs[ppos];
                    let goes_before: bool = if avg > q.average_hundredths {
                        true
                    } else if avg == q.average_hundredths {
                        str_lt(pname.as_str(), q.name.as_str())
                    } else {
                        false
                    };
                    proof {
                        assert(pv[ppos as int] == (q.name@, q.average_hundredths as int));
                        assert(goes_before == perf_before(newpair, pv[ppos as int]));
                    }
                    if goes_before {
                        pstop = true;
                    } else {
                        ppos = ppos + 1;
                    }
                }
                proof {
                    lemma_insert_perf_at(pv, newpair, ppos as int);
                }
                let newp = ExchangePerformance { name: pname, average_hundredths: avg };
                perfs.insert(ppos, newp);
                proof {
                    assert(perf_views(perfs@) =~= pv.take(ppos as int) + seq![newpair] + pv.skip(
                        ppos as int,
                    ));
                    assert(perf_views(perfs@) == ranked_performances(exs.take(x + 1int)));
                }
            } else {
                proof {
                    lemma_nonempty_means_iff(e.cats);
                    assert(ranked_performances(exs.take(x + 1int)) == perf_views(perfs@));
                }
            }
            x = x + 1;
        }
        proof {
            assert(exs.take(exs.len() as int) =~= exs);
        }
        // system-wide average
        let total_usize: usize = allcnt as usize;
        let system_average: Option<i64> = if allcnt == 0 {
            None
        } else {
            let q = rounded_div_i128(100 * allsum, allcnt as i128);
            proof {
                lemma_rounded_div_bounds(100 * (allsum as int), allcnt as int, -100, 400);
            }
            Some(q as i64)
        };
        // per-category averages
        let mut category_averages: Vec<(String, Option<i64>)> = Vec::new();
        let mut j: usize = 0;
        while j < ncats
            invariant
                0 <= j <= ncats,
                category_averages@.len() == j,
                forall|k: int|
                    0 <= k < j ==> (#[trigger] category_averages@[k]).0@ == self@.categories[k]
                        && category_averages@[k].1 == spec_category_average(exs, k),
            decreases ncats - j,
        {
            let cname: String = self.categories[j].clone();
            let entry: Option<i64> = if cat_counts[j] == 0 {
                None
            } else {
                let q = rounded_div_i128(100 * cat_sums[j], cat_counts[j] as i128);
                proof {
                    lemma_rounded_div_bounds(
                        100 * (cat_sums@[j as int] as int),
                        cat_counts@[j as int] as int,
                        -100,
                        400,
                    );
                }
                Some(q as i64)
            };
            category_averages.push((cname, entry));
            j = j + 1;
        }
        // top and bottom performers
        let ghost ranked = ranked_performances(exs);
        let take_n: usize = if perfs.len() < 5 {
            perfs.len()
        } else {
            5
        };
        let mut top_performers: Vec<ExchangePerformance> = Vec::new();
        let mut k: usize = 0;
        while k < take_n
            invariant
                0 <= k <= take_n,
                take_n <= perfs@.len(),
                top_performers@.len() == k,
                forall|l: int|
                    0 <= l < k ==> (#[trigger] top_performers@[l]).name@ == perfs@[l].name@
                        && top_performers@[l].average_hundredths == perfs@[l].average_hundredths,
            decreases take_n - k,
        {
            let p: &ExchangePerformance = &perfs[k];
            top_performers.push(
                ExchangePerformance {
                    name: p.name.clone(),
                    average_hundredths: p.average_hundredths,
                },
            );
            k = k + 1;
        }
        let start: usize = perfs.len() - take_n;
        let mut bottom_performers: Vec<ExchangePerformance> = Vec::new();
        let mut b: usize = 0;
        while b < take_n
            invariant
                0 <= b <= take_n,
                take_n <= perfs@.len(),
                start == perfs@.len() - take_n,
                bottom_performers@.len() == b,
                forall|l: int|
                    0 <= l < b ==> (#[trigger] bottom_performers@[l]).name@ == perfs@[start
                        + l].name@ && bottom_performers@[l].average_hundredths == perfs@[start
                        + l].average_hundredths,
            decreases take_n - b,
        {
            let p: &ExchangePerformance = &perfs[start + b];
            bottom_performers.push(
                ExchangePerformance {
                    name: p.name.clone(),
                    average_hundredths: p.average_hundredths,
                },
            );
            b = b + 1;
        }
        proof {
            let topn = if ranked.len() < 5 {
                ranked.len() as int
            } else {
                5int
            };
            assert(perfs@.len() == ranked.len());
            assert(perf_views(top_performers@) =~= ranked.take(topn));
            assert(perf_views(bottom_performers@) =~= ranked.skip(ranked.len() - topn));
        }
        SystemReport {
            total_exchanges: self.exchanges.len(),
            total_ratings: total_usize,
            system_average,
            category_averages,
            top_performers,
            bottom_performers,
        }
    }
}

} // verus!
