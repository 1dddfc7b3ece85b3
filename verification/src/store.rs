//! The rating store: named exchanges, each holding an ordered rating
//! sequence per configured category, together with the validation and
//! mutation rules. The exchange collection is kept sorted by name, so
//! listing and ranking are deterministic.

use vstd::prelude::*;
use std::collections::HashMap;
use crate::rating_in_range;
use crate::arith::{mean_hundredths, mean_hundredths_of};
use crate::order::{lex_lt, lemma_lex_lt_trans, lemma_lex_lt_connected, str_lt, str_eq};

verus! {

broadcast use vstd::std_specs::hash::group_hash_axioms;

/// Creation timestamp and the running count of accepted ratings.
pub struct Metadata {
    pub created: String,
    pub total_ratings: usize,
}

/// One exchange: a rating sequence per category, in the store's
/// category order, plus metadata.
pub struct ExchangeData {
    pub categories: Vec<(String, Vec<i8>)>,
    pub metadata: Metadata,
}

/// Validation failures of the mutating operations.
#[derive(Clone, Copy, Debug, PartialEq, Eq, Structural)]
pub enum StoreError {
    DuplicateExchange,
    UnknownExchange,
    InvalidCategory,
    RatingOutOfRange,
}

/// Mathematical model of an exchange.
pub ghost struct ExchangeModel {
    pub cats: Seq<(Seq<char>, Seq<i8>)>,
    pub created: Seq<char>,
    pub total_ratings: nat,
}

/// Mathematical model of a store.
pub ghost struct StoreModel {
    pub categories: Seq<Seq<char>>,
    pub exchanges: Seq<(Seq<char>, ExchangeModel)>,
}

impl View for ExchangeData {
    type V = ExchangeModel;

    open spec fn view(&self) -> ExchangeModel {
        ExchangeModel {
            cats: self.categories@.map_values(|p: (String, Vec<i8>)| (p.0@, p.1@)),
            created: self.metadata.created@,
            total_ratings: self.metadata.total_ratings as nat,
        }
    }
}

/// The rating store and statistics engine.
pub struct LevesonRatingSystem {
    pub categories: Vec<String>,
    pub exchanges: Vec<(String, ExchangeData)>,
}

impl View for LevesonRatingSystem {
    type V = StoreModel;

    open spec fn view(&self) -> StoreModel {
        StoreModel {
            categories: self.categories@.map_values(|s: String| s@),
            exchanges: self.exchanges@.map_values(|p: (String, ExchangeData)| (p.0@, p.1@)),
        }
    }
}

/// Total number of ratings held in a category list.
pub open spec fn sum_lens(s: Seq<(Seq<char>, Seq<i8>)>) -> nat
    decreases s.len(),
{
    if s.len() == 0 {
        0
    } else {
        sum_lens(s.drop_last()) + s.last().1.len()
    }
}

/// An exchange is well formed against a category list when its
/// per-category sequences carry exactly those names in that order, all
/// stored values are valid ratings, and the running counter equals the
/// sum of the sequence lengths.
pub open spec fn exchange_wf(e: ExchangeModel, cats: Seq<Seq<char>>) -> bool {
    &&& e.cats.len() == cats.len()
    &&& forall|i: int| 0 <= i < cats.len() ==> (#[trigger] e.cats[i]).0 == cats[i]
    &&& forall|i: int, j: int|
        0 <= i < e.cats.len() && 0 <= j < e.cats[i].1.len() ==> rating_in_range(
            #[trigger] e.cats[i].1[j],
        )
    &&& e.total_ratings == sum_lens(e.cats)
}

/// Store invariant: exchange names strictly sorted (hence unique) and
/// every exchange well formed against the configured category list.
pub open spec fn store_wf(m: StoreModel) -> bool {
    &&& forall|i: int, j: int|
        0 <= i < j < m.exchanges.len() ==> lex_lt(
            (#[trigger] m.exchanges[i]).0,
            (#[trigger] m.exchanges[j]).0,
        )
    &&& forall|i: int|
        0 <= i < m.exchanges.len() ==> exchange_wf((#[trigger] m.exchanges[i]).1, m.categories)
}

/// Index of the first category with the given name, `-1` if absent.
pub open spec fn find_name(s: Seq<Seq<char>>, x: Seq<char>) -> int
    decreases s.len(),
{
    if s.len() == 0 {
        -1
    } else if s[0] == x {
        0
    } else {
        let r = find_name(s.drop_first(), x);
        if r < 0 {
            -1
        } else {
            r + 1
        }
    }
}

/// Index of the first exchange with the given name, `-1` if absent.
pub open spec fn find_exchange(s: Seq<(Seq<char>, ExchangeModel)>, x: Seq<char>) -> int
    decreases s.len(),
{
    if s.len() == 0 {
        -1
    } else if s[0].0 == x {
        0
    } else {
        let r = find_exchange(s.drop_first(), x);
        if r < 0 {
            -1
        } else {
            r + 1
        }
    }
}

pub open spec fn has_exchange(m: StoreModel, name: Seq<char>) -> bool {
    find_exchange(m.exchanges, name) >= 0
}

pub open spec fn has_category(m: StoreModel, name: Seq<char>) -> bool {
    find_name(m.categories, name) >= 0
}

pub proof fn lemma_find_name_props(s: Seq<Seq<char>>, x: Seq<char>)
    ensures
        find_name(s, x) >= 0 ==> find_name(s, x) < s.len() && s[find_name(s, x)] == x,
        find_name(s, x) < 0 ==> forall|i: int| 0 <= i < s.len() ==> s[i] != x,
    decreases s.len(),
{
    if s.len() > 0 && s[0] != x {
        lemma_find_name_props(s.drop_first(), x);
        let r = find_name(s.drop_first(), x);
        if r < 0 {
            assert forall|i: int| 0 <= i < s.len() implies s[i] != x by {
                if i > 0 {
                    assert(s.drop_first()[i - 1] == s[i]);
                }
            }
        } else {
            assert(s.drop_first()[r] == s[r + 1]);
        }
    }
}

pub proof fn lemma_find_name_is(s: Seq<Seq<char>>, x: Seq<char>, i: int)
    requires
        0 <= i < s.len(),
        s[i] == x,
        forall|j: int| 0 <= j < i ==> s[j] != x,
    ensures
        find_name(s, x) == i,
    decreases s.len(),
{
    if s[0] != x {
        assert forall|j: int| 0 <= j < i - 1 implies s.drop_first()[j] != x by {
            assert(s.drop_first()[j] == s[j + 1]);
        }
        assert(s.drop_first()[i - 1] == s[i]);
        lemma_find_name_is(s.drop_first(), x, i - 1);
    }
}

pub proof fn lemma_find_exchange_props(s: Seq<(Seq<char>, ExchangeModel)>, x: Seq<char>)
    ensures
        find_exchange(s, x) >= 0 ==> find_exchange(s, x) < s.len() && s[find_exchange(s, x)].0 == x
            && (forall|i: int| 0 <= i < find_exchange(s, x) ==> (#[trigger] s[i]).0 != x),
        find_exchange(s, x) < 0 ==> forall|i: int| 0 <= i < s.len() ==> (#[trigger] s[i]).0 != x,
    decreases s.len(),
{
    if s.len() > 0 && s[0].0 != x {
        lemma_find_exchange_props(s.drop_first(), x);
        let r = find_exchange(s.drop_first(), x);
        if r < 0 {
            assert forall|i: int| 0 <= i < s.len() implies (#[trigger] s[i]).0 != x by {
                if i > 0 {
                    assert(s.drop_first()[i - 1] == s[i]);
                }
            }
        } else {
            assert(s.drop_first()[r] == s[r + 1]);
            assert forall|i: int| 0 <= i < find_exchange(s, x) implies (#[trigger] s[i]).0 != x by {
                if i > 0 {
                    assert(s.drop_first()[i - 1] == s[i]);
                }
            }
        }
    }
}

pub proof fn lemma_find_exchange_is(s: Seq<(Seq<char>, ExchangeModel)>, x: Seq<char>, i: int)
    requires
        0 <= i < s.len(),
        s[i].0 == x,
        forall|j: int| 0 <= j < i ==> (#[trigger] s[j]).0 != x,
    ensures
        find_exchange(s, x) == i,
    decreases s.len(),
{
    if s[0].0 != x {
        assert forall|j: int| 0 <= j < i - 1 implies (#[trigger] s.drop_first()[j]).0 != x by {
            assert(s.drop_first()[j] == s[j + 1]);
        }
        assert(s.drop_first()[i - 1] == s[i]);
        lemma_find_exchange_is(s.drop_first(), x, i - 1);
    }
}

/// Index of the first per-category sequence with the given name, `-1`
/// if absent.
pub open spec fn find_cat(s: Seq<(Seq<char>, Seq<i8>)>, x: Seq<char>) -> int
    decreases s.len(),
{
    if s.len() == 0 {
        -1
    } else if s[0].0 == x {
        0
    } else {
        let r = find_cat(s.drop_first(), x);
        if r < 0 {
            -1
        } else {
            r + 1
        }
    }
}

pub proof fn lemma_find_cat_props(s: Seq<(Seq<char>, Seq<i8>)>, x: Seq<char>)
    ensures
        find_cat(s, x) >= 0 ==> find_cat(s, x) < s.len() && s[find_cat(s, x)].0 == x,
        find_cat(s, x) < 0 ==> forall|i: int| 0 <= i < s.len() ==> (#[trigger] s[i]).0 != x,
    decreases s.len(),
{
    if s.len() > 0 && s[0].0 != x {
        lemma_find_cat_props(s.drop_first(), x);
        let r = find_cat(s.drop_first(), x);
        if r < 0 {
            assert forall|i: int| 0 <= i < s.len() implies (#[trigger] s[i]).0 != x by {
                if i > 0 {
                    assert(s.drop_first()[i - 1] == s[i]);
                }
            }
        } else {
            assert(s.drop_first()[r] == s[r + 1]);
        }
    }
}

pub proof fn lemma_find_cat_is(s: Seq<(Seq<char>, Seq<i8>)>, x: Seq<char>, i: int)
    requires
        0 <= i < s.len(),
        s[i].0 == x,
        forall|j: int| 0 <= j < i ==> (#[trigger] s[j]).0 != x,
    ensures
        find_cat(s, x) == i,
    decreases s.len(),
{
    if s[0].0 != x {
        assert forall|j: int| 0 <= j < i - 1 implies (#[trigger] s.drop_first()[j]).0 != x by {
            assert(s.drop_first()[j] == s[j + 1]);
        }
        assert(s.drop_first()[i - 1] == s[i]);
        lemma_find_cat_is(s.drop_first(), x, i - 1);
    }
}

/// Category list of a fresh exchange: one empty sequence per name.
pub open spec fn empty_cats(cats: Seq<Seq<char>>) -> Seq<(Seq<char>, Seq<i8>)> {
    cats.map_values(|c: Seq<char>| (c, Seq::<i8>::empty()))
}

/// Model of an exchange just created: empty sequences, counter zero.
pub open spec fn fresh_exchange(cats: Seq<Seq<char>>, created: Seq<char>) -> ExchangeModel {
    ExchangeModel { cats: empty_cats(cats), created, total_ratings: 0 }
}

pub proof fn lemma_sum_lens_empty(cats: Seq<Seq<char>>)
    ensures
        sum_lens(empty_cats(cats)) == 0,
    decreases cats.len(),
{
    if cats.len() > 0 {
        lemma_sum_lens_empty(cats.drop_last());
        assert(empty_cats(cats).drop_last() =~= empty_cats(cats.drop_last()));
    }
}

pub proof fn lemma_sum_lens_update(s: Seq<(Seq<char>, Seq<i8>)>, j: int, p: (Seq<char>, Seq<i8>))
    requires
        0 <= j < s.len(),
        p.1.len() == s[j].1.len() + 1,
    ensures
        sum_lens(s.update(j, p)) == sum_lens(s) + 1,
    decreases s.len(),
{
    if j == s.len() - 1 {
        assert(s.update(j, p).drop_last() =~= s.drop_last());
        assert(s.update(j, p).last() == p);
    } else {
        assert(s.update(j, p).drop_last() =~= s.drop_last().update(j, p));
        assert(s.update(j, p).last() == s.last());
        lemma_sum_lens_update(s.drop_last(), j, p);
    }
}

/// Position at which a new name belongs in the sorted exchange list:
/// the first index whose name is lexicographically greater.
pub open spec fn insert_position(s: Seq<(Seq<char>, ExchangeModel)>, name: Seq<char>) -> int
    decreases s.len(),
{
    if s.len() == 0 {
        0
    } else if lex_lt(name, s[0].0) {
        0
    } else {
        1 + insert_position(s.drop_first(), name)
    }
}

pub proof fn lemma_insert_position_is(s: Seq<(Seq<char>, ExchangeModel)>, name: Seq<char>, i: int)
    requires
        0 <= i <= s.len(),
        forall|j: int| 0 <= j < i ==> !lex_lt(name, (#[trigger] s[j]).0),
        i < s.len() ==> lex_lt(name, s[i].0),
    ensures
        insert_position(s, name) == i,
    decreases s.len(),
{
    if s.len() > 0 && !lex_lt(name, s[0].0) {
        assert forall|j: int| 0 <= j < i - 1 implies !lex_lt(name, (#[trigger] s.drop_first()[j]).0) by {
            assert(s.drop_first()[j] == s[j + 1]);
        }
        if i - 1 < s.drop_first().len() {
            assert(s.drop_first()[i - 1] == s[i]);
        }
        lemma_insert_position_is(s.drop_first(), name, i - 1);
    }
}

/// Model of `add_exchange` on success: the fresh exchange spliced in at
/// its sorted position.
pub open spec fn spec_add_exchange(m: StoreModel, name: Seq<char>, created: Seq<char>) -> StoreModel {
    let pos = insert_position(m.exchanges, name);
    StoreModel {
        categories: m.categories,
        exchanges: m.exchanges.take(pos) + seq![(name, fresh_exchange(m.categories, created))]
            + m.exchanges.skip(pos),
    }
}

/// Model of `add_rating` on success: the value appended to the matched
/// category sequence and the exchange counter incremented.
pub open spec fn spec_add_rating(m: StoreModel, name: Seq<char>, cat: Seq<char>, v: i8) -> StoreModel {
    let i = find_exchange(m.exchanges, name);
    let j = find_name(m.categories, cat);
    let e = m.exchanges[i].1;
    let e2 = ExchangeModel {
        cats: e.cats.update(j, (e.cats[j].0, e.cats[j].1.push(v))),
        created: e.created,
        total_ratings: (e.total_ratings + 1) as nat,
    };
    StoreModel {
        categories: m.categories,
        exchanges: m.exchanges.update(i, (m.exchanges[i].0, e2)),
    }
}

/// Default assessment dimensions, in display order.
pub open spec fn default_category_names() -> Seq<Seq<char>> {
    seq!["reliability"@, "usability"@, "performance"@, "support"@]
}

/// Relies on chrono's `Utc::now` and `DateTime::to_rfc3339` for the
/// creation timestamp of a new exchange. The text depends on the wall
/// clock, so nothing is assumed about it.
#[verifier::external_body]
fn now_rfc3339() -> String {
    chrono::Utc::now().to_rfc3339()
}

/// The six-point semantic scale, from "No Trust" at `-1` to "Delight"
/// at `4`.
pub fn rating_descriptions() -> (r: HashMap<i8, &'static str>)
    ensures
        r@.dom() =~= set![-1i8, 0i8, 1i8, 2i8, 3i8, 4i8],
        r@[-1i8]@ == "No Trust - User was harmed, exploited, or received a product or service with no discipline or malicious intent."@,
        r@[0i8]@ == "Cynical Satisfaction - Interaction fulfills a basic promise requiring little to no discipline toward user satisfaction."@,
        r@[1i8]@ == "Basic Promise - Interaction meets all articulated user demands, no more."@,
        r@[2i8]@ == "Basic Satisfaction - Interaction meets socially acceptable standards exceeding articulated user demands."@,
        r@[3i8]@ == "No Negative Consequences - Interaction designed to prevent loss, exceed basic quality."@,
        r@[4i8]@ == "Delight - Interaction anticipates the evolution of user practices and concerns post-transaction."@,
{
    let mut map: HashMap<i8, &'static str> = HashMap::new();
    map.insert(-1, "No Trust - User was harmed, exploited, or received a product or service with no discipline or malicious intent.");
    map.insert(0, "Cynical Satisfaction - Interaction fulfills a basic promise requiring little to no discipline toward user satisfaction.");
    map.insert(1, "Basic Promise - Interaction meets all articulated user demands, no more.");
    map.insert(2, "Basic Satisfaction - Interaction meets socially acceptable standards exceeding articulated user demands.");
    map.insert(3, "No Negative Consequences - Interaction designed to prevent loss, exceed basic quality.");
    map.insert(4, "Delight - Interaction anticipates the evolution of user practices and concerns post-transaction.");
    map
}

impl ExchangeData {
    /// A fresh exchange for the given category list: empty rating
    /// sequences, counter zero, creation timestamp taken from the
    /// clock.
    pub fn new(categories: &Vec<String>) -> (e: ExchangeData)
        ensures
            e@.cats =~= empty_cats(categories@.map_values(|s: String| s@)),
            e@.total_ratings == 0,
    {
        let mut cats: Vec<(String, Vec<i8>)> = Vec::new();
        let mut i: usize = 0;
        while i < categories.len()
            invariant
                0 <= i <= categories@.len(),
                cats@.len() == i,
                forall|j: int|
                    0 <= j < i ==> (#[trigger] cats@[j]).0@ == categories@[j]@
                        && cats@[j].1@ == Seq::<i8>::empty(),
            decreases categories@.len() - i,
        {
            let name: &String = &categories[i];
            cats.push((name.clone(), Vec::new()));
            i = i + 1;
        }
        let e = ExchangeData {
            categories: cats,
            metadata: Metadata { created: now_rfc3339(), total_ratings: 0 },
        };
        proof {
            assert(e@.cats =~= empty_cats(categories@.map_values(|s: String| s@)));
        }
        e
    }

    /// The rating sequence stored under the given category name, if
    /// any.
    pub fn get_category(&self, category: &str) -> (r: Option<&Vec<i8>>)
        ensures
            match r {
                Some(v) => {
                    let j = find_cat(self@.cats, category@);
                    j >= 0 && v@ == self@.cats[j].1
                },
                None => find_cat(self@.cats, category@) < 0,
            },
    {
        let mut i: usize = 0;
        while i < self.categories.len()
            invariant
                0 <= i <= self.categories@.len(),
                forall|j: int| 0 <= j < i ==> (#[trigger] self@.cats[j]).0 != category@,
            decreases self.categories@.len() - i,
        {
            if str_eq(self.categories[i].0.as_str(), category) {
                proof {
                    lemma_find_cat_is(self@.cats, category@, i as int);
                }
                return Some(&self.categories[i].1);
            }
            i = i + 1;
        }
        proof {
            lemma_find_cat_props(self@.cats, category@);
        }
        None
    }

    /// Position of the rating sequence stored under the given category
    /// name, for callers about to mutate it in place. (A mutable borrow
    /// cannot be handed out inside an `Option` here, so the position
    /// stands in for one.)
    pub fn get_category_mut(&mut self, category: &str) -> (r: Option<usize>)
        ensures
            *final(self) == *old(self),
            match r {
                Some(j) => j == find_cat(old(self)@.cats, category@) && j < old(
                    self,
                ).categories@.len(),
                None => find_cat(old(self)@.cats, category@) < 0,
            },
    {
        let mut i: usize = 0;
        while i < self.categories.len()
            invariant
                0 <= i <= self.categories@.len(),
                forall|j: int| 0 <= j < i ==> (#[trigger] self@.cats[j]).0 != category@,
            decreases self.categories@.len() - i,
        {
            if str_eq(self.categories[i].0.as_str(), category) {
                proof {
                    lemma_find_cat_is(self@.cats, category@, i as int);
                }
                return Some(i);
            }
            i = i + 1;
        }
        proof {
            lemma_find_cat_props(self@.cats, category@);
        }
        None
    }
}

/// Mean of a category sequence in hundredths, `None` when no rating
/// has been recorded.
pub open spec fn category_mean_i64(s: Seq<i8>) -> Option<i64> {
    if s.len() == 0 {
        None
    } else {
        Some(mean_hundredths(s) as i64)
    }
}

/// Per-category means of one exchange, reported in the store's
/// category order.
pub struct RatingSummary {
    pub ratings: Vec<(String, Option<i64>)>,
}

impl LevesonRatingSystem {
    /// The store invariant; established by `new` and preserved by
    /// every mutation.
    pub open spec fn wf(&self) -> bool {
        store_wf(self@)
    }

    /// An empty store with the given category list, or the default
    /// four assessment dimensions.
    pub fn new(categories: Option<Vec<String>>) -> (s: Self)
        ensures
            s.wf(),
            s@.exchanges.len() == 0,
            s@.categories == match categories {
                Some(c) => c@.map_values(|x: String| x@),
                None => default_category_names(),
            },
    {
        let cats: Vec<String> = match categories {
            Some(c) => c,
            None => {
                let mut v: Vec<String> = Vec::new();
                v.push(String::from_str("reliability"));
                v.push(String::from_str("usability"));
                v.push(String::from_str("performance"));
                v.push(String::from_str("support"));
                proof {
                    assert(v@.map_values(|x: String| x@) =~= default_category_names());
                }
                v
            },
        };
        LevesonRatingSystem { categories: cats, exchanges: Vec::new() }
    }

    /// Position of the named exchange in the sorted collection.
    fn find_exchange_index(&self, name: &str) -> (r: Option<usize>)
        ensures
            match r {
                Some(i) => i == find_exchange(self@.exchanges, name@) && i
                    < self.exchanges@.len(),
                None => find_exchange(self@.exchanges, name@) < 0,
            },
    {
        let mut i: usize = 0;
        while i < self.exchanges.len()
            invariant
                0 <= i <= self.exchanges@.len(),
                forall|j: int| 0 <= j < i ==> (#[trigger] self@.exchanges[j]).0 != name@,
            decreases self.exchanges@.len() - i,
        {
            if str_eq(self.exchanges[i].0.as_str(), name) {
                proof {
                    lemma_find_exchange_is(self@.exchanges, name@, i as int);
                }
                return Some(i);
            }
            i = i + 1;
        }
        proof {
            lemma_find_exchange_props(self@.exchanges, name@);
        }
        None
    }

    /// Position of the named category in the configured list.
    fn find_category_index(&self, name: &str) -> (r: Option<usize>)
        ensures
            match r {
                Some(j) => j == find_name(self@.categories, name@) && j
                    < self.categories@.len(),
                None => find_name(self@.categories, name@) < 0,
            },
    {
        let mut i: usize = 0;
        while i < self.categories.len()
            invariant
                0 <= i <= self.categories@.len(),
                forall|j: int| 0 <= j < i ==> self@.categories[j] != name@,
            decreases self.categories@.len() - i,
        {
            if str_eq(self.categories[i].as_str(), name) {
                proof {
                    lemma_find_name_is(self@.categories, name@, i as int);
                }
                return Some(i);
            }
            i = i + 1;
        }
        proof {
            lemma_find_name_props(self@.categories, name@);
        }
        None
    }

    /// The running rating count of the named exchange, if it exists.
    pub fn total_ratings_of(&self, name: &str) -> (r: Option<usize>)
        ensures
            match r {
                Some(t) => has_exchange(self@, name@) && t == self@.exchanges[find_exchange(
                    self@.exchanges,
                    name@,
                )].1.total_ratings,
                None => !has_exchange(self@, name@),
            },
    {
        match self.find_exchange_index(name) {
            Some(i) => Some(self.exchanges[i].1.metadata.total_ratings),
            None => None,
        }
    }

    /// Registers a new exchange under the given name, rejecting a
    /// duplicate; the fresh exchange starts with empty sequences and a
    /// counter of zero.
    pub fn add_exchange(&mut self, name: &str) -> (r: Result<(), StoreError>)
        requires
            old(self).wf(),
        ensures
            final(self).wf(),
            final(self)@.categories == old(self)@.categories,
            has_exchange(old(self)@, name@) ==> (r matches Err(e) && e
                == StoreError::DuplicateExchange && final(self)@ == old(self)@),
            !has_exchange(old(self)@, name@) ==> r is Ok && (exists|c: Seq<char>|
                final(self)@ == spec_add_exchange(old(self)@, name@, c)),
    {
        if let Some(_) = self.find_exchange_index(name) {
            return Err(StoreError::DuplicateExchange);
        }
        proof {
            lemma_find_exchange_props(self@.exchanges, name@);
        }
        let ghost m = self@;
        let mut pos: usize = 0;
        let mut stop = false;
        while !stop && pos < self.exchanges.len()
            invariant
                *self == *old(self),
                0 <= pos <= self.exchanges@.len(),
                forall|j: int| 0 <= j < pos ==> !lex_lt(name@, (#[trigger] self@.exchanges[j]).0),
                stop ==> pos < self.exchanges@.len() && lex_lt(name@, self@.exchanges[pos as int].0),
            decreases 2 * (self.exchanges@.len() - pos) + (if stop { 0int } else { 1int }),
        {
            if str_lt(name, self.exchanges[pos].0.as_str()) {
                stop = true;
            } else {
                pos = pos + 1;
            }
        }
        proof {
            lemma_insert_position_is(m.exchanges, name@, pos as int);
        }
        let fresh = ExchangeData::new(&self.categories);
        let ghost em = fresh@;
        self.exchanges.insert(pos, (String::from_str(name), fresh));
        proof {
            let t = m.exchanges.take(pos as int) + seq![(name@, fresh_exchange(m.categories, em.created))]
                + m.exchanges.skip(pos as int);
            let p = pos as int;
            assert(em.cats =~= empty_cats(m.categories));
            assert(em == fresh_exchange(m.categories, em.created));
            assert forall|i: int| 0 <= i < t.len() implies t[i] == (if i < p {
                m.exchanges[i]
            } else if i == p {
                (name@, fresh_exchange(m.categories, em.created))
            } else {
                m.exchanges[i - 1]
            }) by {
                if i < p {
                    assert(t[i] == m.exchanges.take(p)[i]);
                } else if i > p {
                    assert(t[i] == m.exchanges.skip(p)[i - p - 1]);
                }
            }
            assert(self@.exchanges =~= t);
            assert(self@.categories =~= m.categories);
            // the new collection is still strictly sorted and well formed
            lemma_sum_lens_empty(m.categories);
            assert forall|i: int, j: int| 0 <= i < j < t.len() implies lex_lt(
                (#[trigger] t[i]).0,
                (#[trigger] t[j]).0,
            ) by {
                if i < p && j == p {
                    assert(t[i].0 == m.exchanges[i].0);
                    lemma_lex_lt_connected(m.exchanges[i].0, name@);
                } else if i == p && j > p {
                    assert(t[j].0 == m.exchanges[j - 1].0);
                    if p < m.exchanges.len() {
                        if j - 1 > p {
                            lemma_lex_lt_trans(name@, m.exchanges[p].0, m.exchanges[j - 1].0);
                        }
                    }
                } else if i < p && j < p {
                    assert(t[i].0 == m.exchanges[i].0);
                    assert(t[j].0 == m.exchanges[j].0);
                } else if i < p && j > p {
                    assert(t[i].0 == m.exchanges[i].0);
                    assert(t[j].0 == m.exchanges[j - 1].0);
                } else {
                    assert(t[i].0 == m.exchanges[i - 1].0);
                    assert(t[j].0 == m.exchanges[j - 1].0);
                }
            }
            assert forall|i: int| 0 <= i < t.len() implies exchange_wf(
                (#[trigger] t[i]).1,
                m.categories,
            ) by {
                if i < p {
                    assert(t[i] == m.exchanges[i]);
                } else if i == p {
                    assert(t[i].1 == fresh_exchange(m.categories, em.created));
                } else {
                    assert(t[i] == m.exchanges[i - 1]);
                }
            }
            assert(spec_add_exchange(m, name@, em.created).exchanges == t);
            assert(self@.exchanges == t);
            assert(self@ == spec_add_exchange(m, name@, em.created));
        }
        Ok(())
    }

    /// Appends one rating. All three validations (exchange exists,
    /// category configured, value in range) happen in that order,
    /// before any mutation: the store changes exactly when `Ok` comes
    /// back.
    pub fn add_rating(&mut self, exchange_name: &str, criterion: &str, rating: i8) -> (r: Result<
        (),
        StoreError,
    >)
        requires
            old(self).wf(),
            has_exchange(old(self)@, exchange_name@) ==> old(self)@.exchanges[find_exchange(
                old(self)@.exchanges,
                exchange_name@,
            )].1.total_ratings < usize::MAX,
        ensures
            final(self).wf(),
            final(self)@.categories == old(self)@.categories,
            !has_exchange(old(self)@, exchange_name@) ==> (r matches Err(e) && e
                == StoreError::UnknownExchange && final(self)@ == old(self)@),
            has_exchange(old(self)@, exchange_name@) && !has_category(old(self)@, criterion@)
                ==> (r matches Err(e) && e == StoreError::InvalidCategory && final(self)@ == old(
                self,
            )@),
            has_exchange(old(self)@, exchange_name@) && has_category(old(self)@, criterion@)
                && !rating_in_range(rating) ==> (r matches Err(e) && e
                == StoreError::RatingOutOfRange && final(self)@ == old(self)@),
            has_exchange(old(self)@, exchange_name@) && has_category(old(self)@, criterion@)
                && rating_in_range(rating) ==> r is Ok && final(self)@ == spec_add_rating(
                old(self)@,
                exchange_name@,
                criterion@,
                rating,
            ),
    {
        let ghost m = self@;
        let i = match self.find_exchange_index(exchange_name) {
            Some(i) => i,
            None => {
                return Err(StoreError::UnknownExchange);
            },
        };
        let j = match self.find_category_index(criterion) {
            Some(j) => j,
            None => {
                return Err(StoreError::InvalidCategory);
            },
        };
        if rating < -1 || rating > 4 {
            return Err(StoreError::RatingOutOfRange);
        }
        let ghost e = m.exchanges[i as int].1;
        proof {
            assert(exchange_wf(e, m.categories));
        }
        let mut entry = self.exchanges.remove(i);
        let mut cat_entry = entry.1.categories.remove(j);
        cat_entry.1.push(rating);
        entry.1.categories.insert(j, cat_entry);
        entry.1.metadata.total_ratings = entry.1.metadata.total_ratings + 1;
        self.exchanges.insert(i, entry);
        proof {
            let e2 = ExchangeModel {
                cats: e.cats.update(j as int, (e.cats[j as int].0, e.cats[j as int].1.push(rating))),
                created: e.created,
                total_ratings: (e.total_ratings + 1) as nat,
            };
            let t = m.exchanges.update(i as int, (m.exchanges[i as int].0, e2));
            assert(entry.1@.cats =~= e2.cats);
            assert(entry.1@ == e2);
            assert(self@.exchanges =~= t);
            assert(self@.categories =~= m.categories);
            lemma_sum_lens_update(
                e.cats,
                j as int,
                (e.cats[j as int].0, e.cats[j as int].1.push(rating)),
            );
            assert(exchange_wf(e2, m.categories)) by {
                assert forall|a: int, b: int|
                    0 <= a < e2.cats.len() && 0 <= b < e2.cats[a].1.len() implies rating_in_range(
                    #[trigger] e2.cats[a].1[b],
                ) by {
                    if a == j as int && b == e.cats[a].1.len() {
                    } else {
                        assert(e2.cats[a].1[b] == e.cats[a].1[b]);
                    }
                }
            }
            assert forall|a: int, b: int| 0 <= a < b < t.len() implies lex_lt(
                (#[trigger] t[a]).0,
                (#[trigger] t[b]).0,
            ) by {
                assert(t[a].0 == m.exchanges[a].0);
                assert(t[b].0 == m.exchanges[b].0);
            }
            assert(self@ == spec_add_rating(m, exchange_name@, criterion@, rating));
        }
        Ok(())
    }

    /// Per-category means (in hundredths, rounded half away from zero)
    /// of the named exchange, in the store's category order; `None`
    /// stands for a category without ratings.
    pub fn view_ratings(&self, name: &str) -> (r: Result<RatingSummary, StoreError>)
        requires
            self.wf(),
        ensures
            !has_exchange(self@, name@) ==> (r matches Err(e) && e == StoreError::UnknownExchange),
            has_exchange(self@, name@) ==> (r matches Ok(s) && {
                let e = self@.exchanges[find_exchange(self@.exchanges, name@)].1;
                &&& s.ratings@.len() == self@.categories.len()
                &&& forall|j: int|
                    0 <= j < s.ratings@.len() ==> (#[trigger] s.ratings@[j]).0@
                        == self@.categories[j] && s.ratings@[j].1 == category_mean_i64(e.cats[j].1)
            }),
    {
        let i = match self.find_exchange_index(name) {
            Some(i) => i,
            None => {
                return Err(StoreError::UnknownExchange);
            },
        };
        let ghost e = self@.exchanges[i as int].1;
        proof {
            assert(exchange_wf(e, self@.categories));
        }
        let data: &ExchangeData = &self.exchanges[i].1;
        let mut out: Vec<(String, Option<i64>)> = Vec::new();
        let mut j: usize = 0;
        while j < data.categories.len()
            invariant
                0 <= j <= data.categories@.len(),
                data@ == e,
                exchange_wf(e, self@.categories),
                out@.len() == j,
                forall|k: int|
                    0 <= k < j ==> (#[trigger] out@[k]).0@ == self@.categories[k] && out@[k].1
                        == category_mean_i64(e.cats[k].1),
            decreases data.categories@.len() - j,
        {
            let cat_name: &String = &data.categories[j].0;
            let seq_ref: &Vec<i8> = &data.categories[j].1;
            if seq_ref.len() == 0 {
                out.push((cat_name.clone(), None));
            } else {
                proof {
                    assert(seq_ref@ == e.cats[j as int].1);
                    assert forall|k: int| 0 <= k < seq_ref@.len() implies rating_in_range(
                        #[trigger] seq_ref@[k],
                    ) by {
                        assert(rating_in_range(e.cats[j as int].1[k]));
                    }
                }
                let mh = mean_hundredths_of(seq_ref);
                out.push((cat_name.clone(), Some(mh)));
            }
            j = j + 1;
        }
        Ok(RatingSummary { ratings: out })
    }

    /// All exchange names; the sorted-store invariant makes the list
    /// come out in ascending lexicographic order.
    pub fn get_all_exchanges(&self) -> (r: Vec<String>)
        ensures
            r@.len() == self@.exchanges.len(),
            forall|i: int| 0 <= i < r@.len() ==> (#[trigger] r@[i])@ == self@.exchanges[i].0,
            self.wf() ==> forall|i: int, j: int|
                0 <= i < j < r@.len() ==> lex_lt((#[trigger] r@[i])@, (#[trigger] r@[j])@),
    {
        let mut out: Vec<String> = Vec::new();
        let mut i: usize = 0;
        while i < self.exchanges.len()
            invariant
                0 <= i <= self.exchanges@.len(),
                out@.len() == i,
                forall|k: int| 0 <= k < i ==> (#[trigger] out@[k])@ == self@.exchanges[k].0,
            decreases self.exchanges@.len() - i,
        {
            let name: &String = &self.exchanges[i].0;
            out.push(name.clone());
            i = i + 1;
        }
        out
    }
}

/// In a well-formed store, every exchange's running counter equals the
/// sum of the lengths of its per-category sequences; the mutating
/// operations keep stores well formed, so this holds after any
/// sequence of accepted operations.
pub proof fn lemma_total_matches_sequences(m: StoreModel, i: int)
    requires
        store_wf(m),
        0 <= i < m.exchanges.len(),
    ensures
        m.exchanges[i].1.total_ratings == sum_lens(m.exchanges[i].1.cats),
{
    assert(exchange_wf(m.exchanges[i].1, m.categories));
}

/// Accepting a rating is reflected in the viewed means: for any valid
/// rating in a configured category of an existing exchange, the store
/// after `add_rating` reports, for that category, exactly the rounded
/// mean of the old sequence extended by the new value (the view that
/// `view_ratings` returns for that exchange).
pub proof fn lemma_add_rating_reflected_in_view(
    m: StoreModel,
    name: Seq<char>,
    cat: Seq<char>,
    v: i8,
)
    requires
        store_wf(m),
        has_exchange(m, name),
        has_category(m, cat),
        rating_in_range(v),
    ensures
        ({
            let i = find_exchange(m.exchanges, name);
            let j = find_name(m.categories, cat);
            let m2 = spec_add_rating(m, name, cat, v);
            &&& find_exchange(m2.exchanges, name) == i
            &&& category_mean_i64(m2.exchanges[i].1.cats[j].1) == Some(
                mean_hundredths(m.exchanges[i].1.cats[j].1.push(v)) as i64,
            )
        }),
{
    let i = find_exchange(m.exchanges, name);
    let j = find_name(m.categories, cat);
    let m2 = spec_add_rating(m, name, cat, v);
    lemma_find_exchange_props(m.exchanges, name);
    lemma_find_name_props(m.categories, cat);
    assert(exchange_wf(m.exchanges[i].1, m.categories));
    assert forall|k: int| 0 <= k < i implies (#[trigger] m2.exchanges[k]).0 != name by {
        assert(m2.exchanges[k] == m.exchanges[k]);
    }
    assert(m2.exchanges[i].0 == name);
    lemma_find_exchange_is(m2.exchanges, name, i);
    assert(m2.exchanges[i].1.cats[j].1 == m.exchanges[i].1.cats[j].1.push(v));
}

} // verus!

