use vstd::prelude::*;

use crate::ranking::{Ranking, SortPriority};
use crate::table::CategoryTable;
use crate::text::{eq_ignore_case, str_eq_ignore_case};
use crate::topn::{
    admits, after_insert, is_top_selection, lemma_merge_tops, lemma_top_selection_unique, Ranked, TopList,
};

verus! {

/// Counters describing one search.
#[derive(Debug, Clone, Copy, PartialEq, Eq, Structural)]
pub struct CalculationStats {
    pub cores_considered: usize,
    pub cores_skipped_by_category: usize,
    pub combinations_evaluated: u64,
    pub combinations_filtered: u64,
    pub results_kept: usize,
}

impl CalculationStats {
    pub open spec fn spec_zero() -> CalculationStats {
        CalculationStats {
            cores_considered: 0,
            cores_skipped_by_category: 0,
            combinations_evaluated: 0,
            combinations_filtered: 0,
            results_kept: 0,
        }
    }

    /// All counters at zero.
    pub fn zero() -> (r: CalculationStats)
        ensures
            r == CalculationStats::spec_zero(),
    {
        CalculationStats {
            cores_considered: 0,
            cores_skipped_by_category: 0,
            combinations_evaluated: 0,
            combinations_filtered: 0,
            results_kept: 0,
        }
    }
}

impl Default for CalculationStats {
    fn default() -> (r: CalculationStats)
        ensures
            r == CalculationStats::spec_zero(),
    {
        CalculationStats::zero()
    }
}

/// Whether a core of this category is searched: every category is when the
/// list is empty, otherwise only those listed (ASCII case ignored).
pub open spec fn category_included(allowed: Seq<String>, category: Seq<char>) -> bool {
    allowed.len() == 0 || exists|i: int| 0 <= i < allowed.len() && eq_ignore_case(#[trigger] allowed[i]@, category)
}

pub fn include_category(allowed: &Vec<String>, category: &str) -> (r: bool)
    ensures
        r == category_included(allowed@, category@),
{
    if allowed.len() == 0 {
        return true;
    }
    let mut i: usize = 0;
    while i < allowed.len()
        invariant
            i <= allowed@.len(),
            forall|j: int| 0 <= j < i ==> !eq_ignore_case(#[trigger] allowed@[j]@, category@),
        decreases allowed@.len() - i,
    {
        if str_eq_ignore_case(allowed[i].as_str(), category) {
            return true;
        }
        i += 1;
    }
    false
}

/// What happens with one core.
#[derive(Debug, Clone, Copy, PartialEq, Eq, Structural)]
pub enum CorePlan {
    /// Its category is not among those asked for.
    SkippedByCategory,
    /// Its category has no row in the penalty matrix; it yields nothing.
    UnknownCategory,
    /// Searched, with this row of the penalty matrix.
    Search(usize),
}

pub fn core_plan(allowed: &Vec<String>, categories: &CategoryTable, category: &str) -> (r: CorePlan)
    requires
        categories.wf(),
    ensures
        r == (if !category_included(allowed@, category@) {
            CorePlan::SkippedByCategory
        } else if !categories@.contains_key(category@) {
            CorePlan::UnknownCategory
        } else {
            CorePlan::Search(categories@[category@])
        }),
{
    if !include_category(allowed, category) {
        return CorePlan::SkippedByCategory;
    }
    match categories.lookup(category) {
        Some(idx) => CorePlan::Search(idx),
        None => CorePlan::UnknownCategory,
    }
}

/// The state of the search over one core: its counters and its best builds.
pub struct CoreSearch<T> {
    pub stats: CalculationStats,
    pub results: TopList<T>,
}

impl<T> CoreSearch<T> {
    pub open spec fn wf(&self) -> bool {
        self.results.wf()
    }

    /// The search of one core, before any combination is tried; a core
    /// skipped by category counts as such and yields nothing.
    pub fn start(plan: CorePlan, top_n: usize, ranking: Ranking) -> (r: CoreSearch<T>)
        requires
            ranking.priority != SortPriority::Auto,
        ensures
            r.wf(),
            r.stats == (CalculationStats {
                cores_considered: 1,
                cores_skipped_by_category: if plan == CorePlan::SkippedByCategory {
                    1
                } else {
                    0
                },
                combinations_evaluated: 0,
                combinations_filtered: 0,
                results_kept: 0,
            }),
            r.results.offered() == Seq::<Ranked<T>>::empty(),
            r.results.limit() == top_n,
            r.results.priority() == ranking.priority,
    {
        let mut stats = CalculationStats::zero();
        stats.cores_considered = 1;
        if plan == CorePlan::SkippedByCategory {
            stats.cores_skipped_by_category = 1;
        }
        CoreSearch { stats, results: TopList::new(top_n, ranking.priority) }
    }

    /// A combination evaluated but not offered: its damage or fire rate is
    /// not positive, or it ranks too low to enter the full list.
    pub fn record_evaluated(&mut self)
        requires
            old(self).stats.combinations_evaluated < u64::MAX,
        ensures
            final(self).stats == (CalculationStats {
                combinations_evaluated: (old(self).stats.combinations_evaluated + 1) as u64,
                ..old(self).stats
            }),
            final(self).results == old(self).results,
    {
        self.stats.combinations_evaluated = self.stats.combinations_evaluated + 1;
    }

    /// A combination outside the requested ranges.
    pub fn record_filtered(&mut self)
        requires
            old(self).stats.combinations_evaluated < u64::MAX,
            old(self).stats.combinations_filtered < u64::MAX,
        ensures
            final(self).stats == (CalculationStats {
                combinations_evaluated: (old(self).stats.combinations_evaluated + 1) as u64,
                combinations_filtered: (old(self).stats.combinations_filtered + 1) as u64,
                ..old(self).stats
            }),
            final(self).results == old(self).results,
    {
        self.stats.combinations_evaluated = self.stats.combinations_evaluated + 1;
        self.stats.combinations_filtered = self.stats.combinations_filtered + 1;
    }

    /// Whether a combination ranked by `key` would be kept if offered now,
    /// that is whether offering it would change the best builds.
    pub fn can_enter(&self, key: i64) -> (r: bool)
        requires
            self.wf(),
        ensures
            r == admits(self.results@, self.results.limit(), self.results.priority(), key),
            r == (self.results.limit() > 0 && (self.results@.len() < self.results.limit() || crate::ranking::outranks(
                self.results.priority(),
                key,
                self.results@.last().key,
            ))),
    {
        self.results.can_enter(key)
    }

    /// A combination within the requested ranges, ranked by `key`.
    pub fn offer(&mut self, key: i64, item: T)
        requires
            old(self).wf(),
            old(self).stats.combinations_evaluated < u64::MAX,
        ensures
            final(self).wf(),
            final(self).stats == (CalculationStats {
                combinations_evaluated: (old(self).stats.combinations_evaluated + 1) as u64,
                ..old(self).stats
            }),
            final(self).results.offered() == old(self).results.offered().push(Ranked { key, item }),
            final(self).results.limit() == old(self).results.limit(),
            final(self).results.priority() == old(self).results.priority(),
            final(self).results@ == after_insert(
                old(self).results@,
                old(self).results.limit(),
                old(self).results.priority(),
                (Ranked { key, item }),
            ),
    {
        self.stats.combinations_evaluated = self.stats.combinations_evaluated + 1;
        self.results.insert(key, item);
    }
}

/// What one combination of parts gave.
pub enum CombinationOutcome<T> {
    /// Its damage or fire rate is not positive.
    Unusable,
    /// It lies outside the requested ranges.
    Filtered,
    /// A build within the ranges, ranked by this key.
    Passed(i64, T),
}

/// The builds among the outcomes, in order.
pub open spec fn passed_builds<T>(outcomes: Seq<CombinationOutcome<T>>) -> Seq<Ranked<T>>
    decreases outcomes.len(),
{
    if outcomes.len() == 0 {
        Seq::empty()
    } else {
        let before = passed_builds(outcomes.drop_last());
        match outcomes.last() {
            CombinationOutcome::Passed(key, item) => before.push(Ranked { key, item }),
            _ => before,
        }
    }
}

/// How many outcomes lie outside the requested ranges.
pub open spec fn filtered_count<T>(outcomes: Seq<CombinationOutcome<T>>) -> nat
    decreases outcomes.len(),
{
    if outcomes.len() == 0 {
        0
    } else {
        filtered_count(outcomes.drop_last()) + if outcomes.last() is Filtered {
            1nat
        } else {
            0nat
        }
    }
}

proof fn lemma_filtered_count_bound<T>(outcomes: Seq<CombinationOutcome<T>>)
    ensures
        filtered_count(outcomes) <= outcomes.len(),
    decreases outcomes.len(),
{
    if outcomes.len() > 0 {
        lemma_filtered_count_bound(outcomes.drop_last());
    }
}

impl<T> CoreSearch<T> {
    /// The search of one core over the outcomes of its combinations, in the
    /// order they were tried: every outcome counts as evaluated, those outside
    /// the ranges as filtered, and the builds are offered to the list of best
    /// builds. A core that is not searched (skipped by category, or of an
    /// unknown category) tries no combination.
    pub fn run(plan: CorePlan, top_n: usize, ranking: Ranking, outcomes: Vec<CombinationOutcome<T>>) -> (r:
        CoreSearch<T>)
        requires
            ranking.priority != SortPriority::Auto,
            outcomes@.len() < u64::MAX,
        ensures
            r.wf(),
            r.results.limit() == top_n,
            r.results.priority() == ranking.priority,
            plan is Search ==> r.stats == (CalculationStats {
                cores_considered: 1,
                cores_skipped_by_category: 0,
                combinations_evaluated: outcomes@.len() as u64,
                combinations_filtered: filtered_count(outcomes@) as u64,
                results_kept: 0,
            }) && r.results.offered() == passed_builds(outcomes@),
            !(plan is Search) ==> r.stats == (CalculationStats {
                cores_considered: 1,
                cores_skipped_by_category: if plan == CorePlan::SkippedByCategory {
                    1
                } else {
                    0
                },
                combinations_evaluated: 0,
                combinations_filtered: 0,
                results_kept: 0,
            }) && r.results.offered() == Seq::<Ranked<T>>::empty(),
    {
        let mut search = CoreSearch::start(plan, top_n, ranking);
        if !matches!(plan, CorePlan::Search(_)) {
            return search;
        }
        let ghost all = outcomes@;
        for o in it: outcomes
            invariant
                all == it.seq(),
                all.len() < u64::MAX,
                search.wf(),
                search.results.limit() == top_n,
                search.results.priority() == ranking.priority,
                search.stats == (CalculationStats {
                    cores_considered: 1,
                    cores_skipped_by_category: 0,
                    combinations_evaluated: it.index() as u64,
                    combinations_filtered: filtered_count(all.take(it.index() as int)) as u64,
                    results_kept: 0,
                }),
                search.results.offered() == passed_builds(all.take(it.index() as int)),
        {
            let ghost k = it.index() as int;
            assert(all.take(k + 1).drop_last() == all.take(k));
            assert(all.take(k + 1).last() == o);
            proof {
                lemma_filtered_count_bound(all.take(k));
            }
            match o {
                CombinationOutcome::Unusable => search.record_evaluated(),
                CombinationOutcome::Filtered => search.record_filtered(),
                CombinationOutcome::Passed(key, item) => search.offer(key, item),
            }
        }
        assert(all.take(all.len() as int) == all);
        search
    }
}

/// The outcome of a search is fixed by what each core's combinations gave:
/// two searches whose cores were offered the same builds, core by core, and
/// counted the same, end with the same best builds and the same totals, in
/// whatever order the cores were worked on.
pub proof fn lemma_search_deterministic<T>(
    a: Seq<CoreSearch<T>>,
    b: Seq<CoreSearch<T>>,
    n: nat,
    priority: SortPriority,
    ra: Seq<Ranked<T>>,
    rb: Seq<Ranked<T>>,
)
    requires
        priority != SortPriority::Auto,
        offered_blocks(a) == offered_blocks(b),
        a.map_values(|x: CoreSearch<T>| x.stats) == b.map_values(|x: CoreSearch<T>| x.stats),
        is_top_selection(offered_blocks(a).flatten(), n, priority, ra),
        is_top_selection(offered_blocks(b).flatten(), n, priority, rb),
    ensures
        ra == rb,
        total_considered(a) == total_considered(b),
        total_skipped(a) == total_skipped(b),
        total_evaluated(a) == total_evaluated(b),
        total_filtered(a) == total_filtered(b),
{
    lemma_top_selection_unique(offered_blocks(a).flatten(), n, priority, ra, rb);
    let sa = a.map_values(|x: CoreSearch<T>| x.stats);
    assert(a.len() == b.len()) by {
        assert(sa.len() == a.len());
    }
    assert(a.map_values(|x: CoreSearch<T>| x.stats.cores_considered as int) =~= b.map_values(
        |x: CoreSearch<T>| x.stats.cores_considered as int,
    )) by {
        assert forall|i: int| 0 <= i < a.len() implies a[i].stats == b[i].stats by {
            assert(sa[i] == a[i].stats);
        }
    }
    assert(a.map_values(|x: CoreSearch<T>| x.stats.cores_skipped_by_category as int) =~= b.map_values(
        |x: CoreSearch<T>| x.stats.cores_skipped_by_category as int,
    )) by {
        assert forall|i: int| 0 <= i < a.len() implies a[i].stats == b[i].stats by {
            assert(sa[i] == a[i].stats);
        }
    }
    assert(a.map_values(|x: CoreSearch<T>| x.stats.combinations_evaluated as int) =~= b.map_values(
        |x: CoreSearch<T>| x.stats.combinations_evaluated as int,
    )) by {
        assert forall|i: int| 0 <= i < a.len() implies a[i].stats == b[i].stats by {
            assert(sa[i] == a[i].stats);
        }
    }
    assert(a.map_values(|x: CoreSearch<T>| x.stats.combinations_filtered as int) =~= b.map_values(
        |x: CoreSearch<T>| x.stats.combinations_filtered as int,
    )) by {
        assert forall|i: int| 0 <= i < a.len() implies a[i].stats == b[i].stats by {
            assert(sa[i] == a[i].stats);
        }
    }
}

/// The candidates offered to each core's search, core after core.
pub open spec fn offered_blocks<T>(outcomes: Seq<CoreSearch<T>>) -> Seq<Seq<Ranked<T>>> {
    outcomes.map_values(|o: CoreSearch<T>| o.results.offered())
}

pub open spec fn sum_of(s: Seq<int>) -> int
    decreases s.len(),
{
    if s.len() == 0 {
        0
    } else {
        sum_of(s.drop_last()) + s.last()
    }
}

pub open spec fn total_considered<T>(o: Seq<CoreSearch<T>>) -> int {
    sum_of(o.map_values(|x: CoreSearch<T>| x.stats.cores_considered as int))
}

pub open spec fn total_skipped<T>(o: Seq<CoreSearch<T>>) -> int {
    sum_of(o.map_values(|x: CoreSearch<T>| x.stats.cores_skipped_by_category as int))
}

pub open spec fn total_evaluated<T>(o: Seq<CoreSearch<T>>) -> int {
    sum_of(o.map_values(|x: CoreSearch<T>| x.stats.combinations_evaluated as int))
}

pub open spec fn total_filtered<T>(o: Seq<CoreSearch<T>>) -> int {
    sum_of(o.map_values(|x: CoreSearch<T>| x.stats.combinations_filtered as int))
}

proof fn lemma_sum_prefix(s: Seq<int>, k: int)
    requires
        0 <= k < s.len(),
        forall|i: int| 0 <= i < s.len() ==> s[i] >= 0,
    ensures
        sum_of(s.take(k + 1)) == sum_of(s.take(k)) + s[k],
        sum_of(s.take(k + 1)) <= sum_of(s),
    decreases s.len() - k,
{
    assert(s.take(k + 1).drop_last() == s.take(k));
    if k + 1 < s.len() {
        lemma_sum_prefix(s, k + 1);
    } else {
        assert(s.take(k + 1) == s);
    }
}

/// Joins the per-core searches, in core order: counters are added, and the
/// best builds of every core are offered, in their order, to one top list.
pub fn merge_outcomes<T>(outcomes: Vec<CoreSearch<T>>, top_n: usize, ranking: Ranking) -> (r: (
    Vec<Ranked<T>>,
    CalculationStats,
))
    requires
        ranking.priority != SortPriority::Auto,
        forall|k: int|
            0 <= k < outcomes@.len() ==> (#[trigger] outcomes@[k]).wf() && outcomes@[k].results.limit()
                == top_n && outcomes@[k].results.priority() == ranking.priority,
        total_considered(outcomes@) <= usize::MAX,
        total_skipped(outcomes@) <= usize::MAX,
        total_evaluated(outcomes@) <= u64::MAX,
        total_filtered(outcomes@) <= u64::MAX,
    ensures
        is_top_selection(offered_blocks(outcomes@).flatten(), top_n as nat, ranking.priority, r.0@),
        r.1.cores_considered == total_considered(outcomes@),
        r.1.cores_skipped_by_category == total_skipped(outcomes@),
        r.1.combinations_evaluated == total_evaluated(outcomes@),
        r.1.combinations_filtered == total_filtered(outcomes@),
        r.1.results_kept == r.0@.len(),
{
    let ghost all = outcomes@;
    let ghost blocks = offered_blocks(all);
    let ghost tops = all.map_values(|o: CoreSearch<T>| o.results@);
    let ghost considered = all.map_values(|x: CoreSearch<T>| x.stats.cores_considered as int);
    let ghost skipped = all.map_values(|x: CoreSearch<T>| x.stats.cores_skipped_by_category as int);
    let ghost evaluated = all.map_values(|x: CoreSearch<T>| x.stats.combinations_evaluated as int);
    let ghost filtered = all.map_values(|x: CoreSearch<T>| x.stats.combinations_filtered as int);
    let mut merged: TopList<T> = TopList::new(top_n, ranking.priority);
    let mut stats = CalculationStats::zero();
    for o in it: outcomes
        invariant
            all == it.seq(),
            ranking.priority != SortPriority::Auto,
            forall|k: int|
                0 <= k < all.len() ==> (#[trigger] all[k]).wf() && all[k].results.limit() == top_n
                    && all[k].results.priority() == ranking.priority,
            tops == all.map_values(|o: CoreSearch<T>| o.results@),
            considered == all.map_values(|x: CoreSearch<T>| x.stats.cores_considered as int),
            skipped == all.map_values(|x: CoreSearch<T>| x.stats.cores_skipped_by_category as int),
            evaluated == all.map_values(|x: CoreSearch<T>| x.stats.combinations_evaluated as int),
            filtered == all.map_values(|x: CoreSearch<T>| x.stats.combinations_filtered as int),
            sum_of(considered) <= usize::MAX,
            sum_of(skipped) <= usize::MAX,
            sum_of(evaluated) <= u64::MAX,
            sum_of(filtered) <= u64::MAX,
            merged.wf(),
            merged.limit() == top_n,
            merged.priority() == ranking.priority,
            merged.offered() == tops.take(it.index() as int).flatten(),
            stats.cores_considered == sum_of(considered.take(it.index() as int)),
            stats.cores_skipped_by_category == sum_of(skipped.take(it.index() as int)),
            stats.combinations_evaluated == sum_of(evaluated.take(it.index() as int)),
            stats.combinations_filtered == sum_of(filtered.take(it.index() as int)),
    {
        let ghost k = it.index() as int;
        assert(all[k] == o);
        proof {
            lemma_sum_prefix(considered, k);
            lemma_sum_prefix(skipped, k);
            lemma_sum_prefix(evaluated, k);
            lemma_sum_prefix(filtered, k);
        }
        stats.cores_considered = stats.cores_considered + o.stats.cores_considered;
        stats.cores_skipped_by_category = stats.cores_skipped_by_category + o.stats.cores_skipped_by_category;
        stats.combinations_evaluated = stats.combinations_evaluated + o.stats.combinations_evaluated;
        stats.combinations_filtered = stats.combinations_filtered + o.stats.combinations_filtered;
        let entries = o.results.into_entries();
        let ghost before = merged.offered();
        for e in it2: entries
            invariant
                merged.wf(),
                merged.limit() == top_n,
                merged.priority() == ranking.priority,
                merged.offered() == before + it2.seq().take(it2.index() as int),
        {
            let ghost j = it2.index() as int;
            merged.insert(e.key, e.item);
            assert(it2.seq().take(j + 1) == it2.seq().take(j).push(e));
        }
        proof {
            assert(tops[k] == entries@);
            assert(tops.take(k + 1) == tops.take(k).push(tops[k]));
            tops.take(k).lemma_flatten_push(tops[k]);
        }
    }
    proof {
        assert(tops.take(all.len() as int) == tops);
        assert(considered.take(all.len() as int) == considered);
        assert(skipped.take(all.len() as int) == skipped);
        assert(evaluated.take(all.len() as int) == evaluated);
        assert(filtered.take(all.len() as int) == filtered);
        merged.lemma_top();
        assert forall|k: int| 0 <= k < blocks.len() implies is_top_selection(
            #[trigger] blocks[k],
            top_n as nat,
            ranking.priority,
            tops[k],
        ) by {
            all[k].results.lemma_top();
        }
        lemma_merge_tops(blocks, tops, top_n as nat, ranking.priority, merged@);
    }
    let results = merged.into_entries();
    stats.results_kept = results.len();
    (results, stats)
}

/// Candidates ranked by their key, each carrying its own position.
pub open spec fn indexed(keys: Seq<i64>) -> Seq<Ranked<usize>> {
    Seq::new(keys.len(), |i: int| Ranked { key: keys[i], item: i as usize })
}

/// The positions of the `max_count` highest keys, highest first, equal keys
/// in their original order (a stable descending sort, truncated).
pub fn select_top_indices(keys: &Vec<i64>, max_count: usize) -> (r: Vec<Ranked<usize>>)
    ensures
        is_top_selection(indexed(keys@), max_count as nat, SortPriority::Highest, r@),
{
    let mut list: TopList<usize> = TopList::new(max_count, SortPriority::Highest);
    let mut i: usize = 0;
    while i < keys.len()
        invariant
            i <= keys@.len(),
            list.wf(),
            list.limit() == max_count,
            list.priority() == SortPriority::Highest,
            list.offered() == indexed(keys@).take(i as int),
        decreases keys@.len() - i,
    {
        list.insert(keys[i], i);
        assert(indexed(keys@).take(i + 1) == indexed(keys@).take(i as int).push(Ranked { key: keys@[i as int], item: i }));
        i += 1;
    }
    assert(indexed(keys@).take(keys@.len() as int) == indexed(keys@));
    proof {
        list.lemma_top();
    }
    list.into_entries()
}

} // verus!
