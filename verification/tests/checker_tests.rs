use industry_excel_checker::checker::{
    analyze_sheet, check_source, column_index_to_label, column_label_to_index,
    default_output_path, display_or_empty, output_file_name_of, validate_source_headers,
    CheckOptions, RowStatus,
};
use industry_excel_checker::hierarchy::{CategorySet, HierarchyIndex, IndustryCategory};
use industry_excel_checker::model::{
    CompanySize, IndustryRule, MetricKind, MetricRule, MetricValues, RuleSet,
};
use industry_excel_checker::number::Number;
use std::path::PathBuf;

fn n(value: f64) -> Number {
    Number::from_bits(value.to_bits())
}

#[test]
fn excel_column_labels_round_trip() {
    for (label, index) in [("J", 10), ("Q", 17), ("AA", 27), ("XFD", 16_384)] {
        assert_eq!(column_label_to_index(label).unwrap(), index);
        assert_eq!(column_index_to_label(index), label);
    }
}

#[test]
fn column_labels_are_trimmed_and_case_insensitive() {
    assert_eq!(column_label_to_index(" aa "), Ok(27));
    assert_eq!(column_label_to_index("z"), Ok(26));
    assert_eq!(column_index_to_label(0), "");
    assert_eq!(column_index_to_label(702), "ZZ");
    assert_eq!(column_index_to_label(703), "AAA");
}

#[test]
fn column_labels_out_of_range_are_rejected() {
    let message = "标注列应填写 Excel 列名，例如 Q 或 AA".to_owned();
    assert_eq!(column_label_to_index(""), Err(message.clone()));
    assert_eq!(column_label_to_index("ABCD"), Err(message.clone()));
    assert_eq!(column_label_to_index("A1"), Err(message));
    assert_eq!(
        column_label_to_index("XFE"),
        Err("标注列不能超过 Excel 最大列 XFD".to_owned())
    );
}

#[test]
fn every_column_label_names_its_column() {
    for index in 1..=16_384usize {
        let label = column_index_to_label(index);
        assert_eq!(column_label_to_index(&label), Ok(index));
    }
}

#[test]
fn options_default_to_column_q() {
    let options = CheckOptions::new(PathBuf::from("源.xlsx"));
    assert_eq!(options.annotation_column, "Q");
    assert!(options.annotate_skipped_rows);
    assert_eq!(options.validate(false).err().map(|m| m.starts_with("源数据文件不存在：")), Some(true));
}

#[test]
fn source_checks_follow_their_order() {
    assert_eq!(
        check_source(false, Some("xlsx".to_owned()), "a.xlsx", "Q"),
        Err("源数据文件不存在：a.xlsx".to_owned())
    );
    assert_eq!(
        check_source(true, Some("xls".to_owned()), "a.xls", "Q"),
        Err("源数据必须是 .xlsx 文件".to_owned())
    );
    assert_eq!(check_source(true, None, "a", "Q"), Err("源数据必须是 .xlsx 文件".to_owned()));
    assert_eq!(
        check_source(true, Some("XLSX".to_owned()), "a.XLSX", "I"),
        Err("标注列不能占用源数据 A-I 列；请选择 J 或之后的空列".to_owned())
    );
    assert_eq!(
        check_source(true, Some("xlsx".to_owned()), "a.xlsx", "1"),
        Err("标注列应填写 Excel 列名，例如 Q 或 AA".to_owned())
    );
    assert_eq!(check_source(true, Some("xlsx".to_owned()), "a.xlsx", "j"), Ok(10));
}

#[test]
fn status_labels() {
    assert_eq!(RowStatus::Changed.label(), "待修改");
    assert_eq!(RowStatus::Unchanged.label(), "一致");
    assert_eq!(RowStatus::Skipped.label(), "已跳过");
    assert_eq!(display_or_empty("  "), "空");
    assert_eq!(display_or_empty(" 小型 "), "小型");
}

#[test]
fn default_output_sits_next_to_the_source() {
    assert_eq!(
        default_output_path(&PathBuf::from("数据/客户.xlsx")),
        PathBuf::from("数据/客户_核对结果.xlsx")
    );
    assert_eq!(output_file_name_of(None), "核对结果_核对结果.xlsx");
    assert_eq!(output_file_name_of(Some("a".to_owned())), "a_核对结果.xlsx");
}

fn header() -> Vec<Option<String>> {
    ["客户号", "账号名称", "贷款类型", "其他", "客户行业四级", "其他", "员工", "资产总额", "营业收入"]
        .iter()
        .map(|t| Some((*t).to_owned()))
        .collect()
}

#[test]
fn headers_are_checked_column_by_column() {
    assert_eq!(validate_source_headers(Some(&header())), Ok(()));
    assert_eq!(validate_source_headers(None), Err("源数据工作表为空".to_owned()));
    let mut wrong = header();
    wrong[2] = None;
    wrong[7] = Some("资产".to_owned());
    assert_eq!(
        validate_source_headers(Some(&wrong)),
        Err("源数据表头与预期不符：C列应包含“贷款类型”，实际为“空”；H列应包含“资产总额”，实际为“资产”".to_owned())
    );
}

fn hierarchy() -> HierarchyIndex {
    let category = IndustryCategory {
        id: 1,
        level1_code: "C".to_owned(),
        level1_name: "制造业".to_owned(),
        level2_code: "C38".to_owned(),
        level2_name: "电气机械和器材制造业".to_owned(),
        level3_code: "C383".to_owned(),
        level3_name: "电线、电缆、光缆及电工器材制造".to_owned(),
        level4_code: "C3831".to_owned(),
        level4_name: "电线、电缆制造".to_owned(),
    };
    HierarchyIndex::from_categories(&CategorySet::new(vec![category])).unwrap()
}

fn rules() -> RuleSet {
    RuleSet::new(vec![IndustryRule {
        id: 1,
        industry_name: "制造业".to_owned(),
        industry_code: "C".to_owned(),
        metrics: vec![
            MetricRule {
                metric: MetricKind::Employees,
                large_min: n(1_000.0),
                medium_min: n(300.0),
                small_min: n(20.0),
            },
            MetricRule {
                metric: MetricKind::Revenue,
                large_min: n(40_000.0),
                medium_min: n(2_000.0),
                small_min: n(300.0),
            },
        ],
    }])
}

fn data_row(code: &str, written: &str) -> Vec<Option<String>> {
    let mut row: Vec<Option<String>> = vec![None; 9];
    row[0] = Some("1001".to_owned());
    row[1] = Some("甲公司".to_owned());
    row[2] = Some(written.to_owned());
    if !code.is_empty() {
        row[4] = Some(code.to_owned());
    }
    row
}

fn metrics(employees: Option<f64>, revenue: Option<f64>) -> MetricValues {
    MetricValues { employees: employees.map(n), assets: None, revenue: revenue.map(n) }
}

#[test]
fn analysis_marks_changed_unchanged_and_skipped_rows() {
    let rows = vec![
        header(),
        data_row("C3831", "中型"),
        data_row("C3831", "小型企业"),
        vec![None; 9],
        data_row("", "小型"),
        data_row("F5123", "小型"),
        data_row("3831", "小型"),
    ];
    let values = vec![
        MetricValues::none(),
        metrics(Some(100.0), Some(500.0)),
        metrics(Some(100.0), Some(500.0)),
        MetricValues::none(),
        MetricValues::none(),
        MetricValues::none(),
        metrics(Some(100.0), None),
    ];
    let mut options = CheckOptions::new(PathBuf::from("源.xlsx"));
    options.annotation_column = " r ".to_owned();
    let report = analyze_sheet(&options, true, &hierarchy(), &rules(), "Sheet1".to_owned(), &rows, &values).unwrap();
    assert_eq!(report.sheet_name, "Sheet1");
    assert_eq!(report.annotation_column, "R");
    assert_eq!(report.source_path, PathBuf::from("源.xlsx"));
    assert_eq!(report.summary.total_rows, 5);
    assert_eq!(report.summary.changed_rows, 1);
    assert_eq!(report.summary.unchanged_rows, 1);
    assert_eq!(report.summary.skipped_rows, 3);
    let numbers: Vec<u32> = report.rows.iter().map(|r| r.row_number).collect();
    assert_eq!(numbers, vec![2, 3, 5, 6, 7]);

    let changed = &report.rows[0];
    assert_eq!(changed.status, RowStatus::Changed);
    assert_eq!(changed.calculated_size, Some(CompanySize::Small));
    assert_eq!(changed.annotation, "C列：中型 -> 小型（匹配标准 C 制造业）");
    assert_eq!(changed.matched_rule_code.as_deref(), Some("C"));
    assert_eq!(
        changed.industry_path,
        "C 制造业 / C38 电气机械和器材制造业 / C383 电线、电缆、光缆及电工器材制造 / C3831 电线、电缆制造"
    );
    assert_eq!(report.rows[1].status, RowStatus::Unchanged);
    assert_eq!(report.rows[1].annotation, "");
    assert_eq!(report.rows[2].annotation, "跳过：E列客户行业四级为空");
    assert_eq!(report.rows[3].annotation, "跳过：行业细类配置中未找到 F5123");
    assert_eq!(report.rows[4].annotation, "跳过：缺少营业收入(I列)");
    assert_eq!(report.rows[4].calculated_size, None);
}

#[test]
fn analysis_without_a_matching_rule_skips_the_row() {
    let mut rules = rules();
    rules.rules[0].industry_code = "F".to_owned();
    let rows = vec![header(), data_row("C3831", "小型")];
    let values = vec![MetricValues::none(), MetricValues::none()];
    let options = CheckOptions::new(PathBuf::from("源.xlsx"));
    let report = analyze_sheet(&options, true, &hierarchy(), &rules, "表".to_owned(), &rows, &values).unwrap();
    assert_eq!(report.rows[0].annotation, "跳过：C3831 未匹配到划型标准");
    assert_eq!(report.rows[0].matched_rule_code, None);
}

#[test]
fn analysis_of_an_empty_sheet_fails() {
    let options = CheckOptions::new(PathBuf::from("源.xlsx"));
    let rows: Vec<Vec<Option<String>>> = Vec::new();
    let values: Vec<MetricValues> = Vec::new();
    assert_eq!(
        analyze_sheet(&options, true, &hierarchy(), &rules(), "表".to_owned(), &rows, &values).err(),
        Some("源数据工作表为空".to_owned())
    );
}

#[test]
fn options_check_the_source_path_itself() {
    let mut options = CheckOptions::new(PathBuf::from("数据/源.xls"));
    assert_eq!(options.validate(false), Err("源数据文件不存在：数据/源.xls".to_owned()));
    assert_eq!(options.validate(true), Err("源数据必须是 .xlsx 文件".to_owned()));
    options.source_path = PathBuf::from("数据/源.XLSX");
    assert_eq!(options.validate(true), Ok(17));
    options.annotation_column = "c".to_owned();
    assert_eq!(
        options.validate(true),
        Err("标注列不能占用源数据 A-I 列；请选择 J 或之后的空列".to_owned())
    );
}

#[test]
fn default_output_without_a_parent_uses_the_current_directory() {
    assert_eq!(default_output_path(&PathBuf::from("客户.xlsx")), PathBuf::from("客户_核对结果.xlsx"));
    assert_eq!(default_output_path(&PathBuf::from("")), PathBuf::from("./核对结果_核对结果.xlsx"));
}

#[test]
fn analysis_checks_options_and_standard_before_the_sheet() {
    let rows: Vec<Vec<Option<String>>> = Vec::new();
    let values: Vec<MetricValues> = Vec::new();
    let options = CheckOptions::new(PathBuf::from("源.xlsx"));
    assert_eq!(
        analyze_sheet(&options, false, &hierarchy(), &rules(), "表".to_owned(), &rows, &values).err(),
        Some("源数据文件不存在：源.xlsx".to_owned())
    );
    let mut early = CheckOptions::new(PathBuf::from("源.xlsx"));
    early.annotation_column = "C".to_owned();
    assert_eq!(
        analyze_sheet(&early, true, &hierarchy(), &rules(), "表".to_owned(), &rows, &values).err(),
        Some("标注列不能占用源数据 A-I 列；请选择 J 或之后的空列".to_owned())
    );
    let empty = RuleSet::new(Vec::new());
    assert_eq!(
        analyze_sheet(&options, true, &hierarchy(), &empty, "表".to_owned(), &rows, &values).err(),
        Some("规则列表不能为空".to_owned())
    );
}
