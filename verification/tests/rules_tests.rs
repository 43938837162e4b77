use industry_excel_checker::model::{MetricKind, RuleSet};
use industry_excel_checker::number::Number;
use industry_excel_checker::rules::{
    parse_standard_range, read_threshold_text, RuleRepository, ThresholdCell, ThresholdRow,
    ThresholdText,
};
use std::path::PathBuf;

fn n(value: f64) -> Number {
    Number::from_bits(value.to_bits())
}

fn cells(texts: &[&str]) -> Vec<Option<String>> {
    let mut row: Vec<Option<String>> = texts
        .iter()
        .map(|t| if t.is_empty() { None } else { Some((*t).to_owned()) })
        .collect();
    row.resize(7, None);
    row
}

fn values(large: f64, medium: f64, small: f64) -> ThresholdRow {
    ThresholdRow {
        large: ThresholdCell::Value(n(large)),
        medium: ThresholdCell::Value(n(medium)),
        small: ThresholdCell::Value(n(small)),
    }
}

fn blank() -> ThresholdRow {
    ThresholdRow {
        large: ThresholdCell::Unrecognized(String::new()),
        medium: ThresholdCell::Unrecognized(String::new()),
        small: ThresholdCell::Unrecognized(String::new()),
    }
}

fn standard() -> (Vec<Vec<Option<String>>>, Vec<ThresholdRow>) {
    let rows = vec![
        cells(&["标准"]),
        cells(&["行业", "代码", "指标"]),
        cells(&[""]),
        cells(&["制造业", "C", "从业人员(人)", "1000", "300", "20"]),
        cells(&["", "", "营业收入(万元)", "40000", "2000", "300"]),
        cells(&["其他行业", "", "从业人员(人)", "300", "100", "10"]),
    ];
    let thresholds = vec![
        blank(),
        blank(),
        blank(),
        values(1000.0, 300.0, 20.0),
        values(40000.0, 2000.0, 300.0),
        values(300.0, 100.0, 10.0),
    ];
    (rows, thresholds)
}

#[test]
fn standard_rows_give_rules_with_their_metrics() {
    let (rows, thresholds) = standard();
    let rules = parse_standard_range(&rows, &thresholds).unwrap();
    assert_eq!(rules.version, RuleSet::VERSION);
    assert_eq!(rules.rules.len(), 2);
    let manufacturing = &rules.rules[0];
    assert_eq!(manufacturing.id, 1);
    assert_eq!(manufacturing.industry_code, "C");
    assert_eq!(manufacturing.metrics.len(), 2);
    assert_eq!(manufacturing.metrics[0].large_min, n(1_000.0));
    assert_eq!(manufacturing.metrics[1].metric, MetricKind::Revenue);
    assert_eq!(manufacturing.metrics[1].large_min, n(40_000.0));
    assert_eq!(rules.rules[1].industry_code, "*");
    assert_eq!(rules.rules[1].id, 2);
}

#[test]
fn standard_errors_name_the_row() {
    let (mut rows, thresholds) = standard();
    rows[4][2] = Some("利润".to_owned());
    assert_eq!(
        parse_standard_range(&rows, &thresholds).err(),
        Some("标准表第 5 行的指标名称无法识别：利润".to_owned())
    );
    let (rows, mut thresholds) = standard();
    thresholds[4].medium = ThresholdCell::Unrecognized("约两千".to_owned());
    assert_eq!(
        parse_standard_range(&rows, &thresholds).err(),
        Some("标准表第 5 行的中型下限无法识别：约两千".to_owned())
    );
    let (rows, mut thresholds) = standard();
    thresholds[3].small = ThresholdCell::NotANumber("２０".to_owned());
    assert_eq!(
        parse_standard_range(&rows, &thresholds).err(),
        Some("标准表第 4 行的小型下限不是有效数字：２０".to_owned())
    );
    let rows = vec![cells(&[""]), cells(&[""]), cells(&[""]), cells(&["", "", "员工", "1", "1", "1"])];
    let thresholds = vec![blank(), blank(), blank(), values(3.0, 2.0, 1.0)];
    assert_eq!(
        parse_standard_range(&rows, &thresholds).err(),
        Some("标准表第 4 行存在指标，但没有可归属的行业名称/代码".to_owned())
    );
    let rows = vec![cells(&["标题"])];
    assert_eq!(
        parse_standard_range(&rows, &vec![blank()]).err(),
        Some("规则列表不能为空".to_owned())
    );
}

#[test]
fn threshold_text_finds_the_first_number() {
    match read_threshold_text("≥1,000人") {
        ThresholdText::Number(t) => assert_eq!(t, "1000"),
        other => panic!("unexpected {other:?}"),
    }
    match read_threshold_text("0.5亿及以上") {
        ThresholdText::Number(t) => assert_eq!(t, "0.5"),
        other => panic!("unexpected {other:?}"),
    }
    match read_threshold_text("12.") {
        ThresholdText::Number(t) => assert_eq!(t, "12"),
        other => panic!("unexpected {other:?}"),
    }
    match read_threshold_text("无,数据") {
        ThresholdText::Unrecognized(t) => assert_eq!(t, "无数据"),
        other => panic!("unexpected {other:?}"),
    }
}

#[test]
fn rule_repository_checks_stored_version() {
    let repository = RuleRepository::at(PathBuf::from("rules.json"));
    assert_eq!(repository.path(), &PathBuf::from("rules.json"));
    let (rows, thresholds) = standard();
    let mut rules = parse_standard_range(&rows, &thresholds).unwrap();
    assert!(RuleRepository::check_loaded(rules.clone()).is_ok());
    rules.version = 3;
    assert_eq!(
        RuleRepository::check_loaded(rules).err(),
        Some("规则配置版本 3 不受支持，当前版本为 1".to_owned())
    );
}
