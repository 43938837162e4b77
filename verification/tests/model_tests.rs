use industry_excel_checker::model::{
    normalize_rule_code, CompanySize, IndustryRule, MetricKind, MetricRule, MetricValues, RuleSet,
};
use industry_excel_checker::number::Number;

fn n(value: f64) -> Number {
    Number::from_bits(value.to_bits())
}

fn manufacturing_rule() -> IndustryRule {
    IndustryRule {
        id: 1,
        industry_name: "制造业".to_owned(),
        industry_code: "C".to_owned(),
        metrics: vec![
            MetricRule {
                metric: MetricKind::Employees,
                large_min: n(1_000.0),
                medium_min: n(300.0),
                small_min: n(20.0),
            },
            MetricRule {
                metric: MetricKind::Revenue,
                large_min: n(40_000.0),
                medium_min: n(2_000.0),
                small_min: n(300.0),
            },
        ],
    }
}

fn values(employees: Option<f64>, revenue: Option<f64>) -> MetricValues {
    MetricValues {
        employees: employees.map(n),
        assets: None,
        revenue: revenue.map(n),
    }
}

#[test]
fn mixed_metrics_fall_to_the_lowest_eligible_size() {
    let rule = manufacturing_rule();
    let values = values(Some(1_500.0), Some(1_500.0));
    assert_eq!(rule.classify(&values), Ok(CompanySize::Small));
}

#[test]
fn threshold_values_are_included_in_the_higher_size() {
    let rule = manufacturing_rule();
    let values = values(Some(300.0), Some(2_000.0));
    assert_eq!(rule.classify(&values), Ok(CompanySize::Medium));
}

#[test]
fn missing_metric_is_reported() {
    let rule = manufacturing_rule();
    let values = values(Some(300.0), None);
    assert_eq!(rule.classify(&values), Err(vec![MetricKind::Revenue]));
}

#[test]
fn known_value_below_small_threshold_proves_micro_despite_missing_metric() {
    let rule = manufacturing_rule();
    let values = values(Some(10.0), None);
    assert_eq!(rule.classify(&values), Ok(CompanySize::Micro));
}

#[test]
fn longest_hierarchy_code_wins() {
    let rules = RuleSet::new(vec![
        manufacturing_rule(),
        IndustryRule {
            id: 2,
            industry_name: "特定中类".to_owned(),
            industry_code: "C38".to_owned(),
            metrics: vec![MetricRule {
                metric: MetricKind::Employees,
                large_min: n(100.0),
                medium_min: n(50.0),
                small_min: n(10.0),
            }],
        },
    ]);
    let codes = vec!["C".to_owned(), "C38".to_owned(), "C383".to_owned()];
    assert_eq!(rules.find_for_codes(&codes).unwrap().industry_code, "C38");
}

#[test]
fn all_metrics_at_large_bounds_give_large() {
    let rule = manufacturing_rule();
    assert_eq!(rule.classify(&values(Some(1_000.0), Some(40_000.0))), Ok(CompanySize::Large));
}

#[test]
fn values_at_small_bounds_give_small() {
    let rule = manufacturing_rule();
    assert_eq!(rule.classify(&values(Some(20.0), Some(300.0))), Ok(CompanySize::Small));
}

#[test]
fn negative_or_nan_values_count_as_missing() {
    let rule = manufacturing_rule();
    assert_eq!(
        rule.classify(&values(Some(-5.0), Some(f64::NAN))),
        Err(vec![MetricKind::Employees, MetricKind::Revenue])
    );
    assert_eq!(
        rule.classify(&values(Some(f64::INFINITY), Some(500.0))),
        Err(vec![MetricKind::Employees])
    );
}

#[test]
fn all_metrics_missing_are_listed_in_rule_order() {
    let rule = manufacturing_rule();
    assert_eq!(
        rule.classify(&MetricValues::none()),
        Err(vec![MetricKind::Employees, MetricKind::Revenue])
    );
}

#[test]
fn fallback_rule_applies_when_no_code_matches() {
    let mut fallback = manufacturing_rule();
    fallback.id = 3;
    fallback.industry_code = "*".to_owned();
    fallback.industry_name = "其他行业".to_owned();
    let rules = RuleSet::new(vec![manufacturing_rule(), fallback]);
    let codes = vec!["F".to_owned(), "F51".to_owned()];
    assert_eq!(rules.find_for_codes(&codes).unwrap().id, 3);
    let none = RuleSet::new(vec![manufacturing_rule()]);
    assert!(none.find_for_codes(&codes).is_none());
}

#[test]
fn rule_codes_are_compared_normalized() {
    let mut lower = manufacturing_rule();
    lower.industry_code = " c：".to_owned();
    let rules = RuleSet::new(vec![lower]);
    let codes = vec!["C".to_owned()];
    assert_eq!(rules.find_for_codes(&codes).unwrap().id, 1);
    assert_eq!(normalize_rule_code(" f 51： "), "F51");
}

#[test]
fn company_size_names_parse_back() {
    for size in CompanySize::ALL {
        assert_eq!(CompanySize::parse(size.as_str()), Some(size));
    }
    assert_eq!(CompanySize::parse(" 小型企业 "), Some(CompanySize::Small));
    assert_eq!(CompanySize::parse("微"), Some(CompanySize::Micro));
    assert_eq!(CompanySize::parse("特大型"), None);
    assert_eq!(CompanySize::parse(""), None);
}

#[test]
fn metric_headers_are_recognized() {
    assert_eq!(MetricKind::parse("从业人员(人)"), Some(MetricKind::Employees));
    assert_eq!(MetricKind::parse(" 员 工\n"), Some(MetricKind::Employees));
    assert_eq!(MetricKind::parse("资产总额（万元）"), Some(MetricKind::Assets));
    assert_eq!(MetricKind::parse("营收"), Some(MetricKind::Revenue));
    assert_eq!(MetricKind::parse("利润"), None);
    for kind in MetricKind::ALL {
        assert_eq!(MetricKind::parse(kind.label()), Some(kind));
    }
    assert_eq!(MetricKind::Assets.source_column(), "H");
    assert_eq!(MetricKind::Revenue.unit_label(), "万元");
    assert_eq!(MetricKind::Employees.unit_label(), "人");
}

#[test]
fn rule_validation_reports_each_problem() {
    let mut rule = manufacturing_rule();
    assert_eq!(rule.validate(), Ok(()));
    rule.industry_name = "  ".to_owned();
    assert_eq!(rule.validate(), Err("行业名称不能为空".to_owned()));
    let mut rule = manufacturing_rule();
    rule.industry_code = "：".to_owned();
    assert_eq!(rule.validate(), Err("行业代码不能为空；其他行业请使用 *".to_owned()));
    rule.industry_code = "Z1".to_owned();
    assert_eq!(
        rule.validate(),
        Err("行业代码应为 A、F51、K701 等格式，兜底规则使用 *".to_owned())
    );
    let mut rule = manufacturing_rule();
    rule.metrics.clear();
    assert_eq!(rule.validate(), Err("每条标准至少需要一个指标".to_owned()));
    let mut rule = manufacturing_rule();
    let first = rule.metrics[0];
    rule.metrics.push(first);
    assert_eq!(rule.validate(), Err("指标 从业人员数 不能重复".to_owned()));
    rule.metrics.push(first);
    assert_eq!(rule.validate(), Err("每条标准最多配置三个指标".to_owned()));
    let mut rule = manufacturing_rule();
    rule.metrics[0].medium_min = n(2_000.0);
    assert_eq!(
        rule.validate(),
        Err("从业人员数阈值必须满足：大型下限 > 中型下限 > 小型下限".to_owned())
    );
    rule.metrics[0].small_min = n(-1.0);
    assert_eq!(rule.validate(), Err("从业人员数的小型下限不能小于 0".to_owned()));
    rule.metrics[0].large_min = n(f64::INFINITY);
    assert_eq!(rule.validate(), Err("从业人员数的阈值必须是有效数字".to_owned()));
}

#[test]
fn rule_set_validation_reports_ids_and_duplicate_codes() {
    assert_eq!(RuleSet::new(vec![]).validate(), Err("规则列表不能为空".to_owned()));
    let mut zero = manufacturing_rule();
    zero.id = 0;
    assert_eq!(RuleSet::new(vec![zero]).validate(), Err("规则 ID 0 无效或重复".to_owned()));
    let mut other = manufacturing_rule();
    other.industry_code = "F".to_owned();
    let same_id = RuleSet::new(vec![manufacturing_rule(), other.clone()]);
    assert_eq!(same_id.validate(), Err("规则 ID 1 无效或重复".to_owned()));
    let mut again = manufacturing_rule();
    again.id = 7;
    again.industry_code = "c".to_owned();
    let duplicate = RuleSet::new(vec![manufacturing_rule(), again]);
    assert_eq!(duplicate.validate(), Err("行业代码 C 存在重复规则".to_owned()));
    other.id = 9;
    let good = RuleSet::new(vec![manufacturing_rule(), other]);
    assert_eq!(good.validate(), Ok(()));
    assert_eq!(good.next_id(), 10);
    assert_eq!(RuleSet::VERSION, 1);
}

#[test]
fn numbers_compare_as_floats() {
    assert!(n(1.0).lt(&n(2.0)));
    assert!(n(-0.0).ge(&n(0.0)));
    assert!(n(0.0).ge(&n(-0.0)));
    assert!(n(-3.0).lt(&n(-2.0)));
    assert!(!n(f64::NAN).ge(&n(0.0)));
    assert!(!n(f64::NAN).lt(&n(0.0)));
    assert!(n(f64::NAN).is_nan());
    assert!(!n(f64::INFINITY).is_finite());
    assert!(n(5.5).is_finite());
    assert!(n(0.0).is_non_negative());
    assert!(!n(-1e-300).is_non_negative());
    assert_eq!(Number::zero().bits(), 0);
}

#[test]
fn size_names_with_firm_and_spaces_parse_back() {
    for size in CompanySize::ALL {
        assert_eq!(CompanySize::parse(&format!(" {}企业 ", size.as_str())), Some(size));
    }
    assert_eq!(CompanySize::parse("大"), Some(CompanySize::Large));
    assert_eq!(CompanySize::parse("微企业"), Some(CompanySize::Micro));
    assert_eq!(CompanySize::parse("大中型"), None);
}

#[test]
fn metric_labels_and_headers_read_back() {
    assert_eq!(MetricKind::parse("资产 总额（万元）"), Some(MetricKind::Assets));
    assert_eq!(MetricKind::parse("员工人数"), Some(MetricKind::Employees));
    assert_eq!(MetricKind::parse("利润总额"), None);
}
