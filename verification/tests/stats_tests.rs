use mark_six::record::HistoricalRecord;
use mark_six::stats::{calculate_omission_stats, get_statistics, Ratio};

fn rec(period: &str, date: &str, nums: [i32; 6], special: i32) -> HistoricalRecord {
    HistoricalRecord {
        period: period.to_string(),
        date: date.to_string(),
        n1: nums[0],
        n2: nums[1],
        n3: nums[2],
        n4: nums[3],
        n5: nums[4],
        n6: nums[5],
        special,
    }
}

fn avg_f64(r: Ratio) -> f64 {
    r.num as f64 / r.den as f64
}

#[test]
fn omission_basic_sequence() {
    let flags = vec![true, false, false, true, false];
    let (cur, max_o, freq, avg) = calculate_omission_stats(&flags, 5);
    assert_eq!(cur, 0);
    assert_eq!(max_o, 2);
    assert_eq!(freq, 2);
    assert_eq!(avg, Ratio { num: 5, den: 2 });
    assert_eq!(avg_f64(avg), 2.5);
}

#[test]
fn omission_all_absent() {
    let flags = vec![false, false, false, false];
    let (cur, max_o, freq, avg) = calculate_omission_stats(&flags, 4);
    assert_eq!(cur, 4);
    assert_eq!(max_o, 4);
    assert_eq!(freq, 0);
    assert_eq!(avg_f64(avg), 0.0);
}

#[test]
fn omission_all_present() {
    let flags = vec![true, true, true];
    let (cur, max_o, freq, avg) = calculate_omission_stats(&flags, 3);
    assert_eq!(cur, 0);
    assert_eq!(max_o, 0);
    assert_eq!(freq, 3);
    assert_eq!(avg_f64(avg), 1.0);
}

#[test]
fn omission_empty_sequence() {
    let flags: Vec<bool> = vec![];
    let (cur, max_o, freq, avg) = calculate_omission_stats(&flags, 0);
    assert_eq!(cur, 0);
    assert_eq!(max_o, 0);
    assert_eq!(freq, 0);
    assert_eq!(avg_f64(avg), 0.0);
}

#[test]
fn omission_trailing_run_counts() {
    // The run touching the oldest record must be counted even though no
    // later hit closes it.
    let flags = vec![true, false, false, false];
    let (cur, max_o, freq, _) = calculate_omission_stats(&flags, 4);
    assert_eq!(cur, 0);
    assert_eq!(max_o, 3);
    assert_eq!(freq, 1);
}

#[test]
fn statistics_empty_set_is_error() {
    let records: Vec<HistoricalRecord> = vec![];
    let r = get_statistics(&records, None);
    assert_eq!(r.unwrap_err(), "无数据可供分析".to_string());
}

#[test]
fn statistics_tail_digit_labels_and_counts() {
    let records = vec![
        rec("002", "2026-01-08", [1, 2, 3, 4, 5, 6], 40),
        rec("001", "2026-01-01", [7, 8, 9, 10, 11, 12], 49),
    ];
    let rep = get_statistics(&records, None).unwrap();
    assert_eq!(rep.special_tail.len(), 10);
    assert_eq!(rep.special_tail[0].label, "0尾".to_string());
    assert_eq!(rep.special_tail[0].frequency, 1);
    assert_eq!(rep.special_tail[0].current_omission, 0);
    assert_eq!(rep.special_tail[9].label, "9尾".to_string());
    assert_eq!(rep.special_tail[9].frequency, 1);
    assert_eq!(rep.special_tail[9].current_omission, 1);
    assert_eq!(rep.special_tail[5].frequency, 0);
}

#[test]
fn statistics_windowing_caps_current_omission() {
    // Five draws, most recent first; the window keeps only the two most
    // recent.
    let records = vec![
        rec("005", "2026-01-05", [1, 2, 3, 4, 5, 6], 7),
        rec("004", "2026-01-04", [1, 2, 3, 4, 5, 6], 8),
        rec("003", "2026-01-03", [1, 2, 3, 4, 5, 6], 9),
        rec("002", "2026-01-02", [1, 2, 3, 4, 5, 6], 9),
        rec("001", "2026-01-01", [1, 2, 3, 4, 5, 6], 9),
    ];
    let rep = get_statistics(&records, Some(2)).unwrap();
    // Value 7 appears in the most recent draw of the window.
    assert_eq!(rep.special_number[6].frequency, 1);
    assert_eq!(rep.special_number[6].current_omission, 0);
    assert_eq!(avg_f64(rep.special_number[6].avg_omission), 2.0);
    // Value 9 appears only outside the window: omission capped at 2.
    assert_eq!(rep.special_number[8].frequency, 0);
    assert_eq!(rep.special_number[8].current_omission, 2);
    assert_eq!(rep.special_number[8].max_omission, 2);
    for item in &rep.special_number {
        assert!(item.current_omission <= 2);
        assert!(item.max_omission <= 2);
    }
}

#[test]
fn statistics_any_position_counts_once_per_draw() {
    // The value 5 appears twice inside one draw: the frequency still
    // counts that draw once.
    let records = vec![rec("001", "2026-01-01", [5, 5, 3, 4, 6, 7], 10)];
    let rep = get_statistics(&records, None).unwrap();
    assert_eq!(rep.normal_number[4].label, "5".to_string());
    assert_eq!(rep.normal_number[4].frequency, 1);
    assert_eq!(avg_f64(rep.normal_number[4].avg_omission), 1.0);
}

#[test]
fn statistics_zodiac_color_parity_size() {
    // Special 13 has the same zodiac as 1; special 1 is red, odd, small.
    let records = vec![
        rec("002", "2026-01-08", [1, 2, 3, 4, 5, 6], 13),
        rec("001", "2026-01-01", [7, 8, 9, 10, 11, 12], 25),
    ];
    let rep = get_statistics(&records, None).unwrap();
    assert_eq!(rep.special_zodiac.len(), 12);
    assert_eq!(rep.special_zodiac[0].label, "鼠".to_string());
    assert_eq!(rep.special_zodiac[0].frequency, 2);

    assert_eq!(rep.special_color.len(), 3);
    assert_eq!(rep.special_color[0].label, "红波".to_string());
    assert_eq!(rep.special_color[1].label, "蓝波".to_string());
    assert_eq!(rep.special_color[2].label, "绿波".to_string());
    // 13 is red, 25 is blue.
    assert_eq!(rep.special_color[0].frequency, 1);
    assert_eq!(rep.special_color[1].frequency, 1);
    assert_eq!(rep.special_color[2].frequency, 0);

    assert_eq!(rep.special_odd[0].label, "单".to_string());
    assert_eq!(rep.special_odd[0].frequency, 2);
    assert_eq!(rep.special_odd[1].label, "双".to_string());
    assert_eq!(rep.special_odd[1].frequency, 0);

    assert_eq!(rep.special_size[0].label, "小".to_string());
    assert_eq!(rep.special_size[0].frequency, 1);
    assert_eq!(rep.special_size[1].label, "大".to_string());
    assert_eq!(rep.special_size[1].frequency, 1);
}

#[test]
fn statistics_number_labels() {
    let records = vec![rec("001", "2026-01-01", [1, 2, 3, 4, 5, 6], 49)];
    let rep = get_statistics(&records, None).unwrap();
    assert_eq!(rep.special_number.len(), 49);
    assert_eq!(rep.special_number[0].label, "1".to_string());
    assert_eq!(rep.special_number[48].label, "49".to_string());
    assert_eq!(rep.special_number[48].frequency, 1);
    assert_eq!(rep.normal_number.len(), 49);
    assert_eq!(rep.normal_number[0].label, "1".to_string());
}

#[test]
fn statistics_limit_of_zero_and_oversized_limit_keep_everything() {
    let records = vec![
        rec("002", "2026-01-02", [1, 2, 3, 4, 5, 6], 7),
        rec("001", "2026-01-01", [1, 2, 3, 4, 5, 6], 8),
    ];
    let all = get_statistics(&records, None).unwrap();
    let zero = get_statistics(&records, Some(0)).unwrap();
    let big = get_statistics(&records, Some(10)).unwrap();
    assert_eq!(all, zero);
    assert_eq!(all, big);
}
