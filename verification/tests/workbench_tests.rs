use industry_excel_checker::checker::{AnalysisReport, AnalysisSummary, CheckRow, RowStatus};
use industry_excel_checker::hierarchy::{CategorySet, IndustryCategory};
use industry_excel_checker::model::{CompanySize, IndustryRule, MetricKind, MetricRule, RuleSet};
use industry_excel_checker::number::Number;
use industry_excel_checker::workbench::{
    account_label, analysis_finished_message, confirmation_prompt, ConfirmAction, column_input_text, matched_rule_label, normalized_column,
    category_matches_query, ensure_extension, harmonize_parent_names, next_metric_kind,
    non_empty_path, remove_category, remove_rule, row_matches_query, rule_matches_query,
    save_category_draft, save_rule_draft, visible_categories, visible_rows, visible_rules,
    RowFilter,
};
use std::path::PathBuf;

fn n(value: f64) -> Number {
    Number::from_bits(value.to_bits())
}

fn metric(kind: MetricKind) -> MetricRule {
    MetricRule { metric: kind, large_min: n(1_000.0), medium_min: n(300.0), small_min: n(20.0) }
}

fn rule(id: u64, code: &str, name: &str) -> IndustryRule {
    IndustryRule {
        id,
        industry_name: name.to_owned(),
        industry_code: code.to_owned(),
        metrics: vec![metric(MetricKind::Employees)],
    }
}

fn category(id: u64, codes: [&str; 4], names: [&str; 4]) -> IndustryCategory {
    IndustryCategory {
        id,
        level1_code: codes[0].to_owned(),
        level1_name: names[0].to_owned(),
        level2_code: codes[1].to_owned(),
        level2_name: names[1].to_owned(),
        level3_code: codes[2].to_owned(),
        level3_name: names[2].to_owned(),
        level4_code: codes[3].to_owned(),
        level4_name: names[3].to_owned(),
    }
}

fn categories() -> CategorySet {
    CategorySet::new(vec![
        category(1, ["C", "C38", "C383", "C3831"], ["制造业", "电气机械", "电线电缆", "电线"]),
        category(2, ["C", "C38", "C383", "C3833"], ["制造业", "电气机械", "电线电缆", "光缆"]),
        category(3, ["A", "A01", "A019", "A0190"], ["农业大类", "农业", "其他农业", "其他农业"]),
    ])
}

fn check_row(status: RowStatus, annotation: &str) -> CheckRow {
    CheckRow {
        row_number: 2,
        customer_id: "ID-7".to_owned(),
        account_name: "甲公司".to_owned(),
        trusted_code: "C3831".to_owned(),
        industry_path: "C 制造业".to_owned(),
        matched_rule_code: Some("C".to_owned()),
        matched_rule_name: None,
        original_value: "中型".to_owned(),
        calculated_size: Some(CompanySize::Small),
        status,
        annotation: annotation.to_owned(),
    }
}

#[test]
fn row_filters_and_labels() {
    assert_eq!(RowFilter::All.label(), "全部");
    assert!(RowFilter::All.matches(RowStatus::Skipped));
    assert!(RowFilter::Changed.matches(RowStatus::Changed));
    assert!(!RowFilter::Changed.matches(RowStatus::Unchanged));
    assert!(RowFilter::Skipped.matches(RowStatus::Skipped));
}

#[test]
fn searches_look_through_lower_case_text() {
    let row = check_row(RowStatus::Changed, "说明");
    assert!(row_matches_query(&row, ""));
    assert!(row_matches_query(&row, "id-7"));
    assert!(row_matches_query(&row, "小型"));
    assert!(row_matches_query(&row, "待修改"));
    assert!(!row_matches_query(&row, "ID-7"));
    assert!(!row_matches_query(&row, "不存在"));
    let r = rule(1, "C", "Manufacturing");
    assert!(rule_matches_query(&r, "manu"));
    assert!(rule_matches_query(&r, "从业人员"));
    assert!(!rule_matches_query(&r, "营业收入"));
    let c = category(1, ["C", "C38", "C383", "C3831"], ["制造业", "电气机械", "电线电缆", "电线"]);
    assert!(category_matches_query(&c, "c383"));
    assert!(!category_matches_query(&c, "a01"));
}

#[test]
fn visible_lists_follow_filter_and_search() {
    let report = AnalysisReport {
        source_path: PathBuf::from("a.xlsx"),
        sheet_name: "S".to_owned(),
        annotation_column: "Q".to_owned(),
        annotate_skipped_rows: true,
        rows: vec![
            check_row(RowStatus::Changed, "改"),
            check_row(RowStatus::Skipped, "跳过：原因"),
            check_row(RowStatus::Skipped, "跳过：其他"),
        ],
        summary: AnalysisSummary::default(),
    };
    assert_eq!(visible_rows(&report, RowFilter::Skipped, ""), vec![1, 2]);
    assert_eq!(visible_rows(&report, RowFilter::All, " 原因 "), vec![1]);
    let rules = RuleSet::new(vec![rule(1, "C", "制造业"), rule(2, "F", "批发业")]);
    assert_eq!(visible_rules(&rules, "批发"), vec![1]);
    assert_eq!(visible_categories(&categories(), "A0190"), vec![2]);
}

#[test]
fn saving_a_rule_normalizes_and_replaces() {
    let rules = RuleSet::new(vec![rule(1, "C", "制造业"), rule(2, "F", "批发业")]);
    let edited = save_rule_draft(&rules, rule(99, " f51：", " 批发 "), Some(2)).unwrap();
    assert_eq!(edited.rules.len(), 2);
    assert_eq!(edited.rules[1].id, 2);
    assert_eq!(edited.rules[1].industry_code, "F51");
    assert_eq!(edited.rules[1].industry_name, "批发");
    let added = save_rule_draft(&rules, rule(3, "K701", "房地产"), None).unwrap();
    assert_eq!(added.rules.len(), 3);
    assert_eq!(
        save_rule_draft(&rules, rule(3, "K", "x"), Some(42)).err(),
        Some("要编辑的标准已不存在".to_owned())
    );
    assert_eq!(
        save_rule_draft(&rules, rule(3, "c", "重复"), None).err(),
        Some("行业代码 C 存在重复规则".to_owned())
    );
}

#[test]
fn removing_a_rule_keeps_the_rest() {
    let rules = RuleSet::new(vec![rule(1, "C", "制造业"), rule(2, "F", "批发业")]);
    let left = remove_rule(&rules, 1).unwrap();
    assert_eq!(left.rules.len(), 1);
    assert_eq!(left.rules[0].id, 2);
    let single = RuleSet::new(vec![rule(1, "C", "制造业")]);
    assert_eq!(remove_rule(&single, 1).err(), Some("规则列表不能为空".to_owned()));
}

#[test]
fn renaming_a_parent_renames_it_everywhere() {
    let mut list = categories().categories;
    let original = list[0].clone();
    let mut draft = category(1, ["C", "C38", "C383", "C3831"], ["制造业", "电气机械和器材", "电线电缆", "电线"]);
    harmonize_parent_names(&mut list, &mut draft, Some(&original));
    assert_eq!(list[0].level2_name, "电气机械和器材");
    assert_eq!(list[1].level2_name, "电气机械和器材");
    assert_eq!(list[2].level2_name, "农业");
    assert_eq!(draft.level2_name, "电气机械和器材");
}

#[test]
fn a_new_category_takes_the_names_of_known_parents() {
    let mut list = categories().categories;
    let mut draft = category(4, ["C", "C38", "C389", "C3891"], ["新名称", "别名", "其他电气", "其他"]);
    harmonize_parent_names(&mut list, &mut draft, None);
    assert_eq!(draft.level1_name, "制造业");
    assert_eq!(draft.level2_name, "电气机械");
    assert_eq!(draft.level3_name, "其他电气");
    assert_eq!(list[0].level1_name, "制造业");
}

#[test]
fn saving_a_category_keeps_the_hierarchy_consistent() {
    let set = categories();
    let draft = category(4, ["c", "c38", "c383", "c3839"], [" 制造 ", "电气机械", "电线电缆", "其他电线"]);
    let saved = save_category_draft(&set, draft, None).unwrap();
    assert_eq!(saved.categories.len(), 4);
    assert_eq!(saved.categories[3].level4_code, "C3839");
    assert_eq!(saved.categories[3].level1_name, "制造业");
    let rename = category(5, ["C", "C38", "C383", "C3833"], ["制造业", "电气机械", "线缆", "光缆"]);
    let renamed = save_category_draft(&set, rename, Some(2)).unwrap();
    assert_eq!(renamed.categories[1].id, 2);
    assert_eq!(renamed.categories[0].level3_name, "线缆");
    assert_eq!(
        save_category_draft(&set, category(9, ["C", "C38", "C383", "C3831"], ["a", "b", "c", "d"]), Some(77)).err(),
        Some("要编辑的行业细类已不存在".to_owned())
    );
    let left = remove_category(&set, 3).unwrap();
    assert_eq!(left.categories.len(), 2);
}

#[test]
fn adding_a_metric_picks_the_first_missing_kind() {
    assert_eq!(next_metric_kind(&vec![]), Some(MetricKind::Employees));
    assert_eq!(next_metric_kind(&vec![metric(MetricKind::Employees)]), Some(MetricKind::Assets));
    assert_eq!(
        next_metric_kind(&vec![metric(MetricKind::Assets), metric(MetricKind::Employees)]),
        Some(MetricKind::Revenue)
    );
    assert_eq!(
        next_metric_kind(&vec![
            metric(MetricKind::Assets),
            metric(MetricKind::Employees),
            metric(MetricKind::Revenue)
        ]),
        None
    );
}

#[test]
fn paths_from_text_fields() {
    assert_eq!(non_empty_path("   "), None);
    assert_eq!(non_empty_path(" 输入.xlsx "), Some(PathBuf::from("输入.xlsx")));
    assert_eq!(ensure_extension(PathBuf::from("结果"), "xlsx"), PathBuf::from("结果.xlsx"));
    assert_eq!(ensure_extension(PathBuf::from("结果.XLSX"), "xlsx"), PathBuf::from("结果.XLSX"));
    assert_eq!(ensure_extension(PathBuf::from("结果.csv"), "xlsx"), PathBuf::from("结果.xlsx"));
}

#[test]
fn column_field_keeps_letters_upper_cased() {
    assert_eq!(column_input_text("a1b-"), "AB");
    assert_eq!(column_input_text("列Q"), "Q");
    assert_eq!(normalized_column(" aa "), "AA");
}

#[test]
fn preview_labels_of_a_row() {
    let mut row = check_row(RowStatus::Changed, "");
    assert_eq!(account_label(&row), "ID-7  甲公司");
    assert_eq!(matched_rule_label(&row), "C");
    row.customer_id = "  ".to_owned();
    row.matched_rule_name = Some("制造业".to_owned());
    assert_eq!(account_label(&row), "甲公司");
    assert_eq!(matched_rule_label(&row), "C 制造业");
    row.matched_rule_code = None;
    assert_eq!(matched_rule_label(&row), "");
}

#[test]
fn confirmation_prompts_name_what_they_remove() {
    let rules = RuleSet::new(vec![rule(3, "C", "制造业")]);
    let cats = categories();
    let prompt = confirmation_prompt(ConfirmAction::DeleteRule(3), &rules, &cats);
    assert_eq!(prompt.title, "删除划型标准");
    assert_eq!(prompt.message, "确定删除“C 制造业”吗？");
    assert_eq!(prompt.confirm_label, "删除");
    assert!(prompt.destructive);
    let prompt = confirmation_prompt(ConfirmAction::DeleteRule(9), &rules, &cats);
    assert_eq!(prompt.message, "确定删除“该标准”吗？");
    let leaf = &cats.categories[0];
    let prompt = confirmation_prompt(ConfirmAction::DeleteCategory(leaf.id), &rules, &cats);
    assert_eq!(prompt.title, "删除行业细类");
    assert_eq!(
        prompt.message,
        format!("确定删除“{} {}”吗？", leaf.level4_code, leaf.level4_name)
    );
    let prompt = confirmation_prompt(ConfirmAction::DeleteCategory(999), &rules, &cats);
    assert_eq!(prompt.message, "确定删除“该行业细类”吗？");
    let prompt = confirmation_prompt(ConfirmAction::RestoreRules, &rules, &cats);
    assert_eq!(prompt.title, "恢复内置划型标准");
    assert_eq!(prompt.message, "当前划型标准将被内置《标准 更新.xlsx》覆盖。");
    assert_eq!(prompt.confirm_label, "恢复");
    assert!(!prompt.destructive);
    let prompt = confirmation_prompt(ConfirmAction::RestoreCategories, &rules, &cats);
    assert_eq!(prompt.message, "当前行业细类将被内置《行业分类代码注释.xls》覆盖。");
    assert!(!prompt.destructive);
}

#[test]
fn finished_check_notice_counts_rows() {
    let report = AnalysisReport {
        source_path: PathBuf::from("a.xlsx"),
        sheet_name: "S".to_owned(),
        annotation_column: "Q".to_owned(),
        annotate_skipped_rows: true,
        rows: Vec::new(),
        summary: AnalysisSummary { total_rows: 40, changed_rows: 12, unchanged_rows: 25, skipped_rows: 3 },
    };
    assert_eq!(analysis_finished_message(&report), "核对完成：12 行待修改，3 行已跳过");
}
