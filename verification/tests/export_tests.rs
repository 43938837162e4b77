use industry_excel_checker::checker::{AnalysisReport, AnalysisSummary, CheckRow, RowStatus};
use industry_excel_checker::export::{
    annotation_column_index, check_output, filter_end_column, find_annotation_conflicts,
    plan_export, ANNOTATION_HEADER,
};
use industry_excel_checker::model::CompanySize;
use std::path::PathBuf;

fn check_row(row_number: u32, status: RowStatus, size: Option<CompanySize>, annotation: &str) -> CheckRow {
    CheckRow {
        row_number,
        customer_id: String::new(),
        account_name: String::new(),
        trusted_code: String::new(),
        industry_path: String::new(),
        matched_rule_code: None,
        matched_rule_name: None,
        original_value: String::new(),
        calculated_size: size,
        status,
        annotation: annotation.to_owned(),
    }
}

fn report(rows: Vec<CheckRow>, annotate_skipped_rows: bool) -> AnalysisReport {
    AnalysisReport {
        source_path: PathBuf::from("source.xlsx"),
        sheet_name: "Sheet1".to_owned(),
        annotation_column: "Q".to_owned(),
        annotate_skipped_rows,
        rows,
        summary: AnalysisSummary::default(),
    }
}

fn sample() -> AnalysisReport {
    report(
        vec![
            check_row(2, RowStatus::Changed, Some(CompanySize::Small), "C列：中型 -> 小型"),
            check_row(3, RowStatus::Unchanged, Some(CompanySize::Micro), ""),
            check_row(4, RowStatus::Skipped, None, "跳过：缺少营业收入(I列)"),
        ],
        true,
    )
}

#[test]
fn output_checks_come_in_order() {
    assert_eq!(
        check_output(true, Some("xlsx".to_owned()), false, "a.xlsx").err(),
        Some("输出文件不能覆盖源数据，请选择新的 .xlsx 文件".to_owned())
    );
    assert_eq!(
        check_output(false, Some("csv".to_owned()), false, "a.csv").err(),
        Some("输出文件必须使用 .xlsx 扩展名".to_owned())
    );
    assert_eq!(
        check_output(false, Some("XLSX".to_owned()), true, "output.xlsx").err(),
        Some("输出文件已存在，请选择新的 .xlsx 文件：output.xlsx".to_owned())
    );
    assert!(check_output(false, Some("xlsx".to_owned()), false, "output.xlsx").is_ok());
}

#[test]
fn annotation_column_must_follow_the_data() {
    assert_eq!(annotation_column_index(&sample()), Ok(17));
    let mut early = sample();
    early.annotation_column = "E".to_owned();
    assert_eq!(
        annotation_column_index(&early).err(),
        Some("标注列不能占用源数据 A-I 列；请选择 J 或之后的空列".to_owned())
    );
}

#[test]
fn export_writes_sizes_and_notes() {
    let existing: Vec<Option<String>> = vec![None, None, Some("  ".to_owned())];
    let writes = plan_export(&existing, 17, &sample()).unwrap();
    let cells: Vec<(u32, u32, String)> = writes.iter().map(|w| (w.column, w.row, w.value.clone())).collect();
    assert_eq!(
        cells,
        vec![
            (17, 1, ANNOTATION_HEADER.to_owned()),
            (3, 2, "小型".to_owned()),
            (17, 2, "C列：中型 -> 小型".to_owned()),
            (17, 4, "跳过：缺少营业收入(I列)".to_owned()),
        ]
    );
    let quiet = report(sample().rows, false);
    let writes = plan_export(&existing, 17, &quiet).unwrap();
    assert_eq!(writes.len(), 3);
}

#[test]
fn export_rejects_annotation_conflicts() {
    let existing: Vec<Option<String>> = vec![
        None,
        Some("人工备注".to_owned()),
        Some("C列：中型 -> 小型".to_owned()),
        Some("不相干".to_owned()),
        Some("另一条".to_owned()),
    ];
    let conflicts = find_annotation_conflicts(&existing, 17, &sample());
    assert_eq!(conflicts, vec!["Q1", "Q4"]);
    assert_eq!(
        plan_export(&existing, 17, &sample()).err(),
        Some("标注列已有内容，导出已取消：Q1、Q4；请清空这些单元格或更换标注列".to_owned())
    );
}

#[test]
fn many_conflicts_are_counted() {
    let rows: Vec<CheckRow> = (2..12).map(|r| check_row(r, RowStatus::Skipped, None, "跳过")).collect();
    let existing: Vec<Option<String>> = (0..12).map(|_| Some("旧".to_owned())).collect();
    assert_eq!(
        plan_export(&existing, 10, &report(rows, true)).err(),
        Some("标注列已有内容，导出已取消：J1、J2、J3、J4、J5、J6、J7、J8 等 11 个单元格；请清空这些单元格或更换标注列".to_owned())
    );
}

#[test]
fn changed_rows_need_a_size() {
    let broken = report(vec![check_row(5, RowStatus::Changed, None, "说明")], true);
    assert_eq!(
        plan_export(&Vec::new(), 17, &broken).err(),
        Some("第 5 行缺少计算结果".to_owned())
    );
}

#[test]
fn auto_filter_grows_to_the_annotation_column() {
    assert_eq!(filter_end_column(9, 17), 17);
    assert_eq!(filter_end_column(20, 17), 20);
}

#[test]
fn export_rejects_existing_output_and_annotation_conflicts() {
    let report = report(
        vec![check_row(2, RowStatus::Changed, Some(CompanySize::Micro), "C列：小型 -> 微型")],
        true,
    );
    let existing: Vec<Option<String>> = vec![None, None, Some("人工备注".to_owned())];
    let error = plan_export(&existing, 17, &report).unwrap_err();
    assert!(error.contains("Q2"));
    assert!(!error.contains("Q1"));

    let error = check_output(false, Some("xlsx".to_owned()), true, "output.xlsx").unwrap_err();
    assert!(error.contains("输出文件已存在"));
}
