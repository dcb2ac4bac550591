use mark_six::normalize::{
    normalize_api_item, normalize_api_items, normalize_sheet_row, normalize_sheet_rows,
    numbers_from_field, CellValue, NumEntry, NumbersField, RawApiItem,
};

fn sheet_row(first: &str, nums: [i32; 7]) -> Vec<CellValue> {
    // Column layout: 0 identifier and date, 1/4/7/10/13/16 main numbers,
    // 19 the special number; three cells of other content in between.
    let mut row = vec![CellValue::Text(first.to_string())];
    for v in nums.iter().take(6) {
        row.push(CellValue::Num(*v));
        row.push(CellValue::Empty);
        row.push(CellValue::Empty);
    }
    row.push(CellValue::Num(nums[6]));
    row
}

fn api_item(period: &str, date: &str, numbers: NumbersField) -> RawApiItem {
    RawApiItem { period: period.to_string(), date: date.to_string(), numbers }
}

#[test]
fn sheet_row_normalizes() {
    let row = sheet_row("123期 2026-01-05", [1, 2, 3, 4, 5, 6, 7]);
    assert_eq!(row.len(), 20);
    let rec = normalize_sheet_row(&row).unwrap();
    assert_eq!(rec.period, "123".to_string());
    assert_eq!(rec.date, "2026-01-05".to_string());
    assert_eq!(rec.n1, 1);
    assert_eq!(rec.n6, 6);
    assert_eq!(rec.special, 7);
}

#[test]
fn sheet_row_coerces_text_cells() {
    let mut row = sheet_row("7期 2026-02-01", [0; 7]);
    row[1] = CellValue::Text("31".to_string());
    row[19] = CellValue::Text("not a number".to_string());
    let rec = normalize_sheet_row(&row).unwrap();
    assert_eq!(rec.period, "7".to_string());
    assert_eq!(rec.n1, 31);
    // Unparseable content coerces to zero, never an error.
    assert_eq!(rec.special, 0);
}

#[test]
fn sheet_row_too_short_is_skipped() {
    let mut row = sheet_row("123期 2026-01-05", [1, 2, 3, 4, 5, 6, 7]);
    row.truncate(19);
    assert!(normalize_sheet_row(&row).is_none());
}

#[test]
fn sheet_row_wrong_token_count_is_skipped() {
    let one = sheet_row("123期", [1, 2, 3, 4, 5, 6, 7]);
    assert!(normalize_sheet_row(&one).is_none());
    let three = sheet_row("123期 2026-01-05 extra", [1, 2, 3, 4, 5, 6, 7]);
    assert!(normalize_sheet_row(&three).is_none());
}

#[test]
fn sheet_row_bad_year_is_skipped() {
    let row = sheet_row("123期 26-01-05", [1, 2, 3, 4, 5, 6, 7]);
    assert!(normalize_sheet_row(&row).is_none());
    let row = sheet_row("123期 abcd-01-05", [1, 2, 3, 4, 5, 6, 7]);
    assert!(normalize_sheet_row(&row).is_none());
}

#[test]
fn sheet_batch_without_valid_rows_is_error() {
    let rows = vec![sheet_row("junk", [0; 7]), vec![CellValue::Empty]];
    let r = normalize_sheet_rows(&rows);
    assert_eq!(r.unwrap_err(), "未找到有效数据记录".to_string());
}

#[test]
fn sheet_batch_keeps_valid_rows_in_order() {
    let rows = vec![
        sheet_row("001期 2026-01-01", [1, 2, 3, 4, 5, 6, 7]),
        sheet_row("broken row", [0; 7]),
        sheet_row("002期 2026-01-08", [8, 9, 10, 11, 12, 13, 14]),
    ];
    let recs = normalize_sheet_rows(&rows).unwrap();
    assert_eq!(recs.len(), 2);
    assert_eq!(recs[0].period, "001".to_string());
    assert_eq!(recs[1].period, "002".to_string());
}

#[test]
fn api_item_pads_numeric_period() {
    let item = api_item(
        "1",
        "2026-01-01",
        NumbersField::Entries(vec![
            NumEntry::Int(1),
            NumEntry::Int(2),
            NumEntry::Int(3),
            NumEntry::Int(4),
            NumEntry::Int(5),
            NumEntry::Int(6),
            NumEntry::Int(7),
        ]),
    );
    let rec = normalize_api_item(&item, "2026").unwrap();
    assert_eq!(rec.period, "001".to_string());
    assert_eq!(rec.special, 7);
}

#[test]
fn api_item_strips_period_mark_before_padding() {
    let item = api_item(
        "12期",
        "2026-01-01",
        NumbersField::Entries(vec![
            NumEntry::Int(1),
            NumEntry::Int(2),
            NumEntry::Int(3),
            NumEntry::Int(4),
            NumEntry::Int(5),
            NumEntry::Int(6),
            NumEntry::Int(7),
        ]),
    );
    let rec = normalize_api_item(&item, "2026").unwrap();
    assert_eq!(rec.period, "012".to_string());
}

#[test]
fn api_item_rewrites_sentinel_date() {
    let entries = NumbersField::Entries(vec![
        NumEntry::Int(1),
        NumEntry::Int(2),
        NumEntry::Int(3),
        NumEntry::Int(4),
        NumEntry::Int(5),
        NumEntry::Int(6),
        NumEntry::Int(7),
    ]);
    let rec = normalize_api_item(&api_item("001", "0001-01-01", entries.clone()), "2019").unwrap();
    assert_eq!(rec.date, "2019-01-01".to_string());
    let rec = normalize_api_item(&api_item("001", "bad", entries), "2020").unwrap();
    assert_eq!(rec.date, "2020-01-01".to_string());
}

#[test]
fn api_item_accepts_numeric_strings() {
    let item = api_item(
        "001",
        "2026-01-01",
        NumbersField::Entries(vec![
            NumEntry::Text("01".to_string()),
            NumEntry::Int(2),
            NumEntry::Text("3".to_string()),
            NumEntry::Int(4),
            NumEntry::Int(5),
            NumEntry::Int(6),
            NumEntry::Text("07".to_string()),
        ]),
    );
    let rec = normalize_api_item(&item, "2026").unwrap();
    assert_eq!(rec.n1, 1);
    assert_eq!(rec.n3, 3);
    assert_eq!(rec.special, 7);
}

#[test]
fn api_item_with_too_few_numbers_is_skipped() {
    let item = api_item(
        "001",
        "2026-01-01",
        NumbersField::Entries(vec![
            NumEntry::Int(1),
            NumEntry::Int(2),
            NumEntry::Text("junk".to_string()),
            NumEntry::Int(4),
            NumEntry::Int(5),
            NumEntry::Int(6),
            NumEntry::Skip,
        ]),
    );
    assert!(normalize_api_item(&item, "2026").is_none());
}

#[test]
fn api_numbers_from_text_extracts_digit_runs() {
    // The digit runs of the text become the numbers; handing the text
    // back whole would yield a single number and a skipped item.
    let nums = numbers_from_field(&NumbersField::Text("1,22,3 44;5-6,49".to_string()));
    assert_eq!(nums, vec![1, 22, 3, 44, 5, 6, 49]);
    let item = api_item("001", "2026-01-01", NumbersField::Text("1,2,3,4,5,6,7".to_string()));
    let rec = normalize_api_item(&item, "2026").unwrap();
    assert_eq!(rec.n1, 1);
    assert_eq!(rec.special, 7);
}

#[test]
fn api_numbers_skip_overflowing_runs() {
    let nums = numbers_from_field(&NumbersField::Text("99999999999,5".to_string()));
    assert_eq!(nums, vec![5]);
    let nums = numbers_from_field(&NumbersField::Entries(vec![
        NumEntry::Text("99999999999".to_string()),
        NumEntry::Int(5),
    ]));
    assert_eq!(nums, vec![5]);
}

#[test]
fn api_batch_skips_invalid_items() {
    let items = vec![
        api_item("1", "2026-01-05", NumbersField::Text("1,2,3,4,5,6,7".to_string())),
        api_item("2", "2026-01-06", NumbersField::Absent),
    ];
    let recs = normalize_api_items(&items, "2026");
    assert_eq!(recs.len(), 1);
    assert_eq!(recs[0].period, "001".to_string());
}
