use mark_six::merge::{
    batch_total, concat_batches, dedup_records, group_by_year, ingest_summary, merge_for_read,
    prepare_partitions, rebuild_combined, sort_records_by_date_period,
};
use mark_six::record::HistoricalRecord;
use mark_six::sorting::{sort_strings_ascending, sort_strings_descending};

fn rec(period: &str, date: &str, special: i32) -> HistoricalRecord {
    HistoricalRecord {
        period: period.to_string(),
        date: date.to_string(),
        n1: 1,
        n2: 2,
        n3: 3,
        n4: 4,
        n5: 5,
        n6: 6,
        special,
    }
}

#[test]
fn dedup_keeps_first_seen_instance() {
    // Two records share the identity key (period and date) but differ in
    // content: the first survives unchanged.
    let a = rec("001", "2026-01-01", 7);
    let b = rec("001", "2026-01-01", 42);
    let c = rec("002", "2026-01-02", 9);
    let merged = dedup_records(vec![a.clone(), b, c.clone()]);
    assert_eq!(merged, vec![a, c]);
}

#[test]
fn dedup_same_period_different_date_both_stay() {
    let a = rec("001", "2025-12-31", 7);
    let b = rec("001", "2026-01-01", 8);
    let merged = dedup_records(vec![a.clone(), b.clone()]);
    assert_eq!(merged, vec![a, b]);
}

#[test]
fn partition_sort_orders_by_date_then_period() {
    let a = rec("003", "2026-01-02", 1);
    let b = rec("002", "2026-01-01", 2);
    let c = rec("001", "2026-01-01", 3);
    let sorted = sort_records_by_date_period(vec![a.clone(), b.clone(), c.clone()]);
    assert_eq!(sorted, vec![c, b, a]);
}

#[test]
fn ingestion_is_idempotent() {
    // Preparing the same source twice yields identical partitions, and
    // re-preparing prepared data changes nothing.
    let source = vec![
        rec("002", "2026-01-05", 1),
        rec("001", "2026-01-01", 2),
        rec("003", "2025-06-01", 3),
    ];
    let once = prepare_partitions(source.clone());
    let again = prepare_partitions(source);
    assert_eq!(once, again);
    for batch in &once {
        let resorted = sort_records_by_date_period(batch.records.clone());
        assert_eq!(resorted, batch.records);
    }
}

#[test]
fn group_by_year_splits_on_date_year() {
    let batches = group_by_year(vec![
        rec("001", "2026-01-01", 1),
        rec("001", "2025-03-01", 2),
        rec("002", "2026-02-01", 3),
    ]);
    assert_eq!(batches.len(), 2);
    assert_eq!(batches[0].year, "2026".to_string());
    assert_eq!(batches[0].records.len(), 2);
    assert_eq!(batches[1].year, "2025".to_string());
    assert_eq!(batches[1].records.len(), 1);
}

#[test]
fn combined_view_is_deduplicated_and_ascending() {
    let y2025 = vec![rec("001", "2025-01-01", 1), rec("002", "2025-06-01", 2)];
    let y2026 = vec![rec("001", "2026-01-01", 3), rec("001", "2025-01-01", 9)];
    let combined = rebuild_combined(vec![y2025, y2026]);
    assert_eq!(combined.len(), 3);
    assert_eq!(combined[0], rec("001", "2025-01-01", 1));
    assert_eq!(combined[1].date, "2025-06-01".to_string());
    assert_eq!(combined[2].date, "2026-01-01".to_string());
}

#[test]
fn read_merge_is_descending() {
    let parts = vec![
        vec![rec("001", "2025-01-01", 1)],
        vec![rec("001", "2026-01-01", 2)],
        vec![rec("001", "2024-01-01", 3)],
    ];
    let merged = merge_for_read(parts);
    assert_eq!(merged[0].date, "2026-01-01".to_string());
    assert_eq!(merged[1].date, "2025-01-01".to_string());
    assert_eq!(merged[2].date, "2024-01-01".to_string());
}

#[test]
fn concat_preserves_order() {
    let parts = vec![
        vec![rec("001", "2025-01-01", 1), rec("002", "2025-01-08", 2)],
        vec![rec("001", "2026-01-01", 3)],
    ];
    let all = concat_batches(parts);
    assert_eq!(all.len(), 3);
    assert_eq!(all[2], rec("001", "2026-01-01", 3));
}

#[test]
fn summary_counts_and_sorts_years_descending() {
    let batches = prepare_partitions(vec![
        rec("001", "2025-01-01", 1),
        rec("001", "2026-01-01", 2),
        rec("002", "2026-02-01", 3),
    ]);
    let total = batch_total(&batches);
    assert_eq!(total, 3);
    let years: Vec<String> = batches.iter().map(|b| b.year.clone()).collect();
    let msg = ingest_summary(total, years);
    assert_eq!(msg, "成功处理 3 条记录，涉及年份: 2026, 2025".to_string());
}

#[test]
fn string_sorts_are_lexicographic() {
    let years = vec![
        "2026".to_string(),
        "2019".to_string(),
        "2025".to_string(),
    ];
    let asc = sort_strings_ascending(&years);
    assert_eq!(
        asc,
        vec!["2019".to_string(), "2025".to_string(), "2026".to_string()]
    );
    let desc = sort_strings_descending(&years);
    assert_eq!(
        desc,
        vec!["2026".to_string(), "2025".to_string(), "2019".to_string()]
    );
}

#[test]
fn combined_view_is_a_fixpoint_of_its_rebuild() {
    let parts = vec![
        vec![rec("002", "2026-01-08", 1), rec("001", "2026-01-01", 2)],
        vec![rec("001", "2026-01-01", 9), rec("001", "2025-06-01", 3)],
    ];
    let combined = rebuild_combined(parts);
    let again = rebuild_combined(vec![combined.clone()]);
    assert_eq!(again, combined);
}
