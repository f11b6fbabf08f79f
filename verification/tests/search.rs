use weirdgungamecalc::ranking::{ChoiceError, Ranking, SortKey, SortPriority};
use weirdgungamecalc::search::{
    core_plan, include_category, merge_outcomes, select_top_indices, CalculationStats,
    CombinationOutcome, CorePlan, CoreSearch,
};
use weirdgungamecalc::table::CategoryTable;
use weirdgungamecalc::topn::{Ranked, TopList};

fn keys<T: Copy>(entries: &[Ranked<T>]) -> Vec<(i64, T)> {
    entries.iter().map(|e| (e.key, e.item)).collect()
}

#[test]
fn sort_keys_and_priorities_ignore_case() {
    assert_eq!(SortKey::parse("TTK"), Ok(SortKey::Ttk));
    assert_eq!(SortKey::parse("DamageEnd"), Ok(SortKey::DamageEnd));
    assert_eq!(SortKey::parse("fireRate"), Ok(SortKey::FireRate));
    assert_eq!(SortKey::parse("magazine"), Ok(SortKey::Magazine));
    assert_eq!(SortPriority::parse("Highest"), Ok(SortPriority::Highest));
    assert_eq!(SortPriority::parse("LOWEST"), Ok(SortPriority::Lowest));
    assert_eq!(SortPriority::parse("auto"), Ok(SortPriority::Auto));
}

#[test]
fn unknown_sort_choices_are_errors() {
    assert_eq!(SortKey::parse("speed"), Err(ChoiceError::InvalidSortKey("speed".into())));
    assert_eq!(
        SortPriority::parse("middle"),
        Err(ChoiceError::InvalidPriority("middle".into()))
    );
}

#[test]
fn auto_priority_prefers_low_time_to_kill_and_high_everything_else() {
    assert_eq!(Ranking::resolve(SortKey::Ttk, SortPriority::Auto).priority, SortPriority::Lowest);
    assert_eq!(Ranking::resolve(SortKey::Dps, SortPriority::Auto).priority, SortPriority::Highest);
    assert_eq!(
        Ranking::resolve(SortKey::Ttk, SortPriority::Highest).priority,
        SortPriority::Highest
    );
    let lowest = Ranking::resolve(SortKey::Damage, SortPriority::Lowest);
    assert!(lowest.better(1, 2));
    assert!(!lowest.better(2, 2));
}

#[test]
fn top_list_keeps_the_best_in_arrival_order_for_ties() {
    let mut list = TopList::new(3, SortPriority::Highest);
    for (key, item) in [(5, 'a'), (7, 'b'), (5, 'c'), (9, 'd'), (5, 'e'), (1, 'f')] {
        list.insert(key, item);
    }
    assert_eq!(keys(list.entries()), vec![(9, 'd'), (7, 'b'), (5, 'a')]);
    assert!(!list.can_enter(5));
    assert!(list.can_enter(6));
    let mut lowest = TopList::new(2, SortPriority::Lowest);
    for (key, item) in [(4, 0u8), (2, 1), (2, 2), (3, 3)] {
        lowest.insert(key, item);
    }
    assert_eq!(keys(&lowest.into_entries()), vec![(2, 1), (2, 2)]);
}

#[test]
fn empty_top_list_accepts_nothing() {
    let mut list = TopList::new(0, SortPriority::Lowest);
    assert!(!list.can_enter(-100));
    list.insert(1, ());
    assert_eq!(list.len(), 0);
}

#[test]
fn part_pools_take_the_highest_scores_stably() {
    let picked = select_top_indices(&vec![3, 5, 5, 1, 8], 3);
    assert_eq!(keys(&picked), vec![(8, 4), (5, 1), (5, 2)]);
    assert!(select_top_indices(&vec![1, 2], 0).is_empty());
    assert_eq!(select_top_indices(&vec![4], 10).len(), 1);
}

#[test]
fn categories_filter_cores_case_insensitively() {
    assert!(include_category(&vec![], "AR"));
    assert!(include_category(&vec!["smg".to_string(), "ar".to_string()], "AR"));
    assert!(!include_category(&vec!["SMG".to_string()], "AR"));
    let table = CategoryTable::from_pairs(vec![("AR".to_string(), 0), ("SMG".to_string(), 1)]);
    assert_eq!(core_plan(&vec!["ar".to_string()], &table, "SMG"), CorePlan::SkippedByCategory);
    assert_eq!(core_plan(&vec![], &table, "Weird"), CorePlan::UnknownCategory);
    assert_eq!(core_plan(&vec![], &table, "SMG"), CorePlan::Search(1));
}

#[test]
fn core_search_counts_every_combination() {
    let ranking = Ranking::resolve(SortKey::Ttk, SortPriority::Auto);
    let mut search: CoreSearch<&str> = CoreSearch::start(CorePlan::Search(0), 2, ranking);
    search.record_evaluated();
    search.record_filtered();
    search.offer(30, "slow");
    search.offer(10, "fast");
    assert!(!search.can_enter(40));
    search.record_evaluated();
    assert_eq!(search.stats.cores_considered, 1);
    assert_eq!(search.stats.cores_skipped_by_category, 0);
    assert_eq!(search.stats.combinations_evaluated, 5);
    assert_eq!(search.stats.combinations_filtered, 1);
    assert_eq!(keys(search.results.entries()), vec![(10, "fast"), (30, "slow")]);
    let skipped: CoreSearch<&str> = CoreSearch::start(CorePlan::SkippedByCategory, 2, ranking);
    assert_eq!(skipped.stats.cores_skipped_by_category, 1);
}

#[test]
fn merged_searches_keep_core_order_for_ties() {
    let ranking = Ranking::resolve(SortKey::Damage, SortPriority::Highest);
    let mut first: CoreSearch<&str> = CoreSearch::start(CorePlan::Search(0), 3, ranking);
    first.offer(50, "first-a");
    first.offer(40, "first-b");
    first.record_filtered();
    let skipped: CoreSearch<&str> = CoreSearch::start(CorePlan::SkippedByCategory, 3, ranking);
    let mut second: CoreSearch<&str> = CoreSearch::start(CorePlan::Search(1), 3, ranking);
    second.offer(50, "second-a");
    second.offer(60, "second-b");
    let (results, stats) = merge_outcomes(vec![first, skipped, second], 3, ranking);
    assert_eq!(keys(&results), vec![(60, "second-b"), (50, "first-a"), (50, "second-a")]);
    assert_eq!(stats.cores_considered, 3);
    assert_eq!(stats.cores_skipped_by_category, 1);
    assert_eq!(stats.combinations_evaluated, 5);
    assert_eq!(stats.combinations_filtered, 1);
    assert_eq!(stats.results_kept, 3);
}

#[test]
fn default_stats_are_zero() {
    let stats = CalculationStats::default();
    assert_eq!(stats, CalculationStats::zero());
    assert_eq!(stats.combinations_evaluated, 0);
    assert_eq!(stats.results_kept, 0);
}

#[test]
fn candidates_turned_away_change_nothing() {
    let mut list = TopList::new(2, SortPriority::Highest);
    list.insert(10, "a");
    list.insert(8, "b");
    assert!(!list.can_enter(8));
    let before = keys(list.entries());
    list.insert(8, "late tie");
    list.insert(3, "low");
    assert_eq!(keys(list.entries()), before);
    assert!(list.can_enter(9));
    list.insert(9, "c");
    assert_eq!(keys(list.entries()), vec![(10, "a"), (9, "c")]);
}

#[test]
fn repeated_searches_give_the_same_results() {
    let run = || {
        let mut list = TopList::new(3, SortPriority::Lowest);
        for (key, item) in [(4, 1u32), (4, 2), (1, 3), (4, 4), (2, 5)] {
            list.insert(key, item);
        }
        keys(&list.into_entries())
    };
    assert_eq!(run(), run());
    assert_eq!(run(), vec![(1, 3), (2, 5), (4, 1)]);
}

#[test]
fn core_search_runs_over_combination_outcomes() {
    let ranking = Ranking::resolve(SortKey::Damage, SortPriority::Auto);
    let outcomes = vec![
        CombinationOutcome::Passed(5, 'a'),
        CombinationOutcome::Unusable,
        CombinationOutcome::Filtered,
        CombinationOutcome::Passed(9, 'b'),
        CombinationOutcome::Passed(5, 'c'),
        CombinationOutcome::Filtered,
    ];
    let search = CoreSearch::run(CorePlan::Search(0), 2, ranking, outcomes);
    assert_eq!(search.stats.combinations_evaluated, 6);
    assert_eq!(search.stats.combinations_filtered, 2);
    assert_eq!(search.stats.cores_considered, 1);
    assert_eq!(keys(search.results.entries()), vec![(9, 'b'), (5, 'a')]);
    let skipped = CoreSearch::run(
        CorePlan::SkippedByCategory,
        2,
        ranking,
        vec![CombinationOutcome::Passed(1, 'z')],
    );
    assert_eq!(skipped.stats.combinations_evaluated, 0);
    assert_eq!(skipped.stats.cores_skipped_by_category, 1);
    assert_eq!(skipped.results.len(), 0);
}

#[test]
fn fewer_results_are_a_prefix_of_more() {
    let offered = [(3, 'a'), (8, 'b'), (3, 'c'), (6, 'd'), (8, 'e')];
    let top = |n: usize| {
        let mut list = TopList::new(n, SortPriority::Highest);
        for (key, item) in offered {
            list.insert(key, item);
        }
        keys(&list.into_entries())
    };
    let all = top(10);
    for n in 0..6 {
        assert_eq!(top(n), all[..n.min(all.len())].to_vec());
    }
}
