//! Reading the classification standard from the rows of its worksheet, and
//! the place where the edited standard is kept.

use vstd::prelude::*;
use std::path::PathBuf;
use crate::model::{
    rule_code, rule_code_chars, rule_views, rules_check, IndustryRule, MetricKind, MetricRule,
    RuleSet, RuleView,
};
use crate::number::Number;
use crate::pattern::{compile, first_group, regex_first_group};
use crate::sheet::{cell_raw, raw_chars};
use crate::text::{
    chars_of, contains_str, decimal, decimal_string, has_infix, outcome, remove_all, string_of,
    trim_chars, trim_seq, without,
};

verus! {

/// What a threshold cell holds once its number has been read.
#[derive(Clone, Debug)]
pub enum ThresholdCell {
    /// The number the cell holds.
    Value(Number),
    /// No number was found; the cell's text, without commas.
    Unrecognized(String),
    /// The text taken for a number does not parse as one.
    NotANumber(String),
}

/// The threshold cells of a row: columns D, E and F.
#[derive(Clone, Debug)]
pub struct ThresholdRow {
    pub large: ThresholdCell,
    pub medium: ThresholdCell,
    pub small: ThresholdCell,
}

/// The text of a threshold cell as far as the library reads it.
#[derive(Clone, Debug)]
pub enum ThresholdText {
    /// The decimal number found in the text, still to be parsed.
    Number(String),
    /// No number was found; the text without commas.
    Unrecognized(String),
}

/// The pattern by which a threshold's number is found.
pub open spec fn number_pattern() -> Seq<char> {
    "(\\d+(?:\\.\\d+)?)"@
}

/// The text of a threshold cell without commas, and the number the
/// pattern finds in it.
pub fn read_threshold_text(raw: &str) -> (r: ThresholdText)
    ensures
        match regex_first_group(number_pattern(), without(raw@, ","@)) {
            Some(g) => r matches ThresholdText::Number(t) && t@ == g,
            None => r matches ThresholdText::Unrecognized(t) && t@ == without(raw@, ","@),
        },
{
    let comma = chars_of(",");
    proof {
        reveal_strlit(",");
    }
    let text = string_of(&remove_all(&chars_of(raw), &comma));
    let pattern = match compile("(\\d+(?:\\.\\d+)?)") {
        Ok(p) => p,
        Err(_) => vstd::pervasive::unreached(),
    };
    match first_group(&pattern, text.as_str()) {
        Some(g) => ThresholdText::Number(g),
        None => ThresholdText::Unrecognized(text),
    }
}

/// A message about row `i` (counted from 0) of the standard's worksheet.
pub open spec fn standard_message(i: int, rest: Seq<char>) -> Seq<char> {
    "标准表第 "@ + decimal((i + 1) as nat) + rest
}

/// The number of a threshold cell of row `i`, or the message about it.
pub open spec fn threshold_outcome(c: ThresholdCell, i: int, label: Seq<char>) -> Result<Number, Seq<char>> {
    match c {
        ThresholdCell::Value(n) => Ok(n),
        ThresholdCell::Unrecognized(t) => Err(
            standard_message(i, " 行的"@ + label + "无法识别："@ + t@),
        ),
        ThresholdCell::NotANumber(t) => Err(
            standard_message(i, " 行的"@ + label + "不是有效数字："@ + t@),
        ),
    }
}

/// Some cell of columns D to G holds text.
pub open spec fn has_threshold_data(row: Seq<Option<String>>) -> bool {
    cell_raw(row, 3).len() > 0 || cell_raw(row, 4).len() > 0 || cell_raw(row, 5).len() > 0
        || cell_raw(row, 6).len() > 0
}

/// The code of a rule that a row opens: its normalized code, or `*` for a
/// row without code that names the other industries.
pub open spec fn opened_rule_code(name: Seq<char>, code: Seq<char>) -> Seq<char> {
    let c = rule_code(code);
    if c.len() == 0 && (has_infix(name, "其他行业"@) || has_infix(name, "其它行业"@)) {
        "*"@
    } else {
        c
    }
}

/// The rules after row `i` of the standard's worksheet, given the rules
/// before it: a row with a name or code opens a rule, and each row with a
/// metric adds that metric to the rule opened last.
pub open spec fn standard_step(rules: Seq<RuleView>, row: Seq<Option<String>>, th: ThresholdRow, i: int) -> Result<Seq<RuleView>, Seq<char>> {
    let name = cell_raw(row, 0);
    let code = cell_raw(row, 1);
    let metric_name = cell_raw(row, 2);
    match MetricKind::parsed(metric_name) {
        None => if has_threshold_data(row) || trim_seq(code).len() > 0 {
            Err(standard_message(
                i,
                " 行的指标名称无法识别："@ + (if metric_name.len() == 0 { "空"@ } else { metric_name }),
            ))
        } else {
            Ok(rules)
        },
        Some(metric) => {
            let opened = if trim_seq(name).len() > 0 || trim_seq(code).len() > 0 {
                rules.push(RuleView {
                    id: (rules.len() + 1) as u64,
                    name: trim_seq(name),
                    code: opened_rule_code(name, code),
                    metrics: Seq::empty(),
                })
            } else {
                rules
            };
            if opened.len() == 0 {
                Err(standard_message(i, " 行存在指标，但没有可归属的行业名称/代码"@))
            } else {
                match threshold_outcome(th.large, i, "中小微型上限"@) {
                    Err(m) => Err(m),
                    Ok(large) => match threshold_outcome(th.medium, i, "中型下限"@) {
                        Err(m) => Err(m),
                        Ok(medium) => match threshold_outcome(th.small, i, "小型下限"@) {
                            Err(m) => Err(m),
                            Ok(small) => {
                                let last = opened.last();
                                Ok(opened.update(
                                    opened.len() - 1,
                                    RuleView {
                                        id: last.id,
                                        name: last.name,
                                        code: last.code,
                                        metrics: last.metrics.push(
                                            MetricRule {
                                                metric,
                                                large_min: large,
                                                medium_min: medium,
                                                small_min: small,
                                            },
                                        ),
                                    },
                                ))
                            },
                        },
                    },
                }
            }
        },
    }
}

/// The rules that the first `n` rows give; the first three rows are the
/// worksheet's titles.
pub open spec fn standard_rows(rows: Seq<Vec<Option<String>>>, ths: Seq<ThresholdRow>, n: int) -> Result<Seq<RuleView>, Seq<char>>
    decreases n,
{
    if n <= 3 {
        Ok(Seq::empty())
    } else {
        match standard_rows(rows, ths, n - 1) {
            Err(m) => Err(m),
            Ok(prev) => standard_step(prev, rows[n - 1]@, ths[n - 1], n - 1),
        }
    }
}

/// The rules that a standard's worksheet gives once checked as a set.
pub open spec fn standard_table(rows: Seq<Vec<Option<String>>>, ths: Seq<ThresholdRow>) -> Result<Seq<RuleView>, Seq<char>> {
    match standard_rows(rows, ths, rows.len() as int) {
        Err(m) => Err(m),
        Ok(v) => match rules_check(v) {
            Err(m) => Err(m),
            Ok(()) => Ok(v),
        },
    }
}

/// A worksheet whose rows fail by row `n` fails with the same message.
pub proof fn lemma_standard_fail(rows: Seq<Vec<Option<String>>>, ths: Seq<ThresholdRow>, n: int)
    requires
        0 <= n <= rows.len(),
        standard_rows(rows, ths, n) is Err,
    ensures
        standard_table(rows, ths) == Err::<Seq<RuleView>, Seq<char>>(standard_rows(rows, ths, n)->Err_0),
    decreases rows.len() - n,
{
    if n < rows.len() {
        lemma_standard_fail(rows, ths, n + 1);
    }
}

/// The rules opened so far: those closed, then the one still open.
pub open spec fn open_rules(done: Seq<IndustryRule>, current: Option<IndustryRule>) -> Seq<RuleView> {
    match current {
        Some(c) => rule_views(done).push(c@),
        None => rule_views(done),
    }
}

/// The number of a threshold cell, or the message about it.
fn threshold_value(c: &ThresholdCell, number: u64, label: &str) -> (r: Result<Number, String>)
    ensures
        match threshold_outcome(*c, number - 1, label@) {
            Ok(n) => r == Ok::<Number, String>(n),
            Err(m) => r matches Err(e) && e@ == m,
        },
{
    match c {
        ThresholdCell::Value(n) => Ok(*n),
        ThresholdCell::Unrecognized(t) => {
            let mut m = "标准表第 ".to_owned();
            m.append(decimal_string(number).as_str());
            m.append(" 行的");
            m.append(label);
            m.append("无法识别：");
            m.append(t.as_str());
            assert(m@ =~= standard_message(number - 1, " 行的"@ + label@ + "无法识别："@ + t@));
            Err(m)
        },
        ThresholdCell::NotANumber(t) => {
            let mut m = "标准表第 ".to_owned();
            m.append(decimal_string(number).as_str());
            m.append(" 行的");
            m.append(label);
            m.append("不是有效数字：");
            m.append(t.as_str());
            assert(m@ =~= standard_message(number - 1, " 行的"@ + label@ + "不是有效数字："@ + t@));
            Err(m)
        },
    }
}

/// Reads the rules of the standard from the rows of its worksheet.
/// `thresholds` holds, for each row, what its columns D, E and F give (see
/// `read_threshold_text`).
pub fn parse_standard_range(rows: &Vec<Vec<Option<String>>>, thresholds: &Vec<ThresholdRow>) -> (r: Result<RuleSet, String>)
    requires
        thresholds.len() == rows.len(),
    ensures
        match standard_table(rows@, thresholds@) {
            Ok(v) => r matches Ok(set) && set.version == RuleSet::VERSION && rule_views(set.rules@) == v,
            Err(m) => r matches Err(e) && e@ == m,
        },
{
    let mut done: Vec<IndustryRule> = Vec::new();
    let mut current: Option<IndustryRule> = None;
    let mut i: usize = 3;
    if rows.len() < 3 {
        i = rows.len();
    }
    assert(rule_views(done@) =~= Seq::<RuleView>::empty());
    while i < rows.len()
        invariant
            thresholds.len() == rows.len(),
            i <= rows.len(),
            i >= 3 || i == rows.len(),
            standard_rows(rows@, thresholds@, i as int) == Ok::<Seq<RuleView>, Seq<char>>(open_rules(done@, current)),
            current is None ==> done.len() == 0,
            current is Some ==> done.len() < i,
            done.len() <= i,
        decreases rows.len() - i,
    {
        let row = &rows[i];
        let ghost before = open_rules(done@, current);
        let name = raw_chars(row, 0);
        let code = raw_chars(row, 1);
        let metric_name = raw_chars(row, 2);
        let has_data = raw_chars(row, 3).len() > 0 || raw_chars(row, 4).len() > 0 || raw_chars(row, 5).len() > 0
            || raw_chars(row, 6).len() > 0;
        let number = (i + 1) as u64;
        let metric_text = string_of(&metric_name);
        let code_blank = trim_chars(&code).len() == 0;
        let metric = match MetricKind::parse(metric_text.as_str()) {
            Some(m) => m,
            None => {
                if has_data || !code_blank {
                    let mut m = "标准表第 ".to_owned();
                    m.append(decimal_string(number).as_str());
                    m.append(" 行的指标名称无法识别：");
                    if metric_name.len() == 0 {
                        m.append("空");
                    } else {
                        m.append(metric_text.as_str());
                    }
                    assert(m@ =~= standard_message(i as int, " 行的指标名称无法识别："@ + (if metric_name@.len() == 0 { "空"@ } else { metric_name@ })));
                    assert(standard_table(rows@, thresholds@) == Err::<Seq<RuleView>, Seq<char>>(m@)) by {
                        lemma_standard_fail(rows@, thresholds@, i + 1);
                    }
                    return Err(m);
                }
                i += 1;
                continue;
            },
        };
        let name_blank = trim_chars(&name).len() == 0;
        if !name_blank || !code_blank {
            let mut rule_code_value = rule_code_chars(string_of(&code).as_str());
            let name_text = string_of(&name);
            if rule_code_value.len() == 0 && (contains_str(&name, "其他行业") || contains_str(&name, "其它行业")) {
                rule_code_value = chars_of("*");
                proof {
                    reveal_strlit("*");
                }
            }
            let id: u64 = match &current {
                Some(_) => done.len() as u64 + 2,
                None => 1,
            };
            let opened = IndustryRule {
                id,
                industry_name: string_of(&trim_chars(&name)),
                industry_code: string_of(&rule_code_value),
                metrics: Vec::new(),
            };
            assert(opened@ == RuleView {
                id: (before.len() + 1) as u64,
                name: trim_seq(name@),
                code: opened_rule_code(name@, code@),
                metrics: Seq::empty(),
            });
            match current {
                Some(c) => {
                    let ghost old_done = done@;
                    done.push(c);
                    assert(rule_views(done@) =~= rule_views(old_done).push(c@));
                },
                None => {},
            }
            current = Some(opened);
            assert(open_rules(done@, current) =~= before.push(opened@));
        }
        let ghost opened_views = open_rules(done@, current);
        let mut rule = match current {
            Some(c) => c,
            None => {
                let m = crate::hierarchy::numbered("标准表第 ", number, " 行存在指标，但没有可归属的行业名称/代码");
                assert(standard_table(rows@, thresholds@) == Err::<Seq<RuleView>, Seq<char>>(m@)) by {
                    lemma_standard_fail(rows@, thresholds@, i + 1);
                }
                return Err(m);
            },
        };
        let th = &thresholds[i];
        let large = match threshold_value(&th.large, number, "中小微型上限") {
            Ok(n) => n,
            Err(m) => {
                assert(standard_table(rows@, thresholds@) == Err::<Seq<RuleView>, Seq<char>>(m@)) by {
                    lemma_standard_fail(rows@, thresholds@, i + 1);
                }
                return Err(m);
            },
        };
        let medium = match threshold_value(&th.medium, number, "中型下限") {
            Ok(n) => n,
            Err(m) => {
                assert(standard_table(rows@, thresholds@) == Err::<Seq<RuleView>, Seq<char>>(m@)) by {
                    lemma_standard_fail(rows@, thresholds@, i + 1);
                }
                return Err(m);
            },
        };
        let small = match threshold_value(&th.small, number, "小型下限") {
            Ok(n) => n,
            Err(m) => {
                assert(standard_table(rows@, thresholds@) == Err::<Seq<RuleView>, Seq<char>>(m@)) by {
                    lemma_standard_fail(rows@, thresholds@, i + 1);
                }
                return Err(m);
            },
        };
        let ghost last = rule@;
        let mr = MetricRule { metric, large_min: large, medium_min: medium, small_min: small };
        rule.metrics.push(mr);
        current = Some(rule);
        assert(open_rules(done@, current) =~= opened_views.update(
            opened_views.len() - 1,
            RuleView { id: last.id, name: last.name, code: last.code, metrics: last.metrics.push(mr) },
        ));
        i += 1;
    }
    match current {
        Some(c) => {
            let ghost old_done = done@;
            done.push(c);
            assert(rule_views(done@) =~= rule_views(old_done).push(c@));
        },
        None => {},
    }
    assert(standard_rows(rows@, thresholds@, rows@.len() as int) == Ok::<Seq<RuleView>, Seq<char>>(rule_views(done@)));
    let set = RuleSet::new(done);
    match set.validate() {
        Ok(()) => Ok(set),
        Err(e) => Err(e),
    }
}

/// Where the edited standard is kept.
#[derive(Clone, Debug)]
pub struct RuleRepository {
    path: PathBuf,
}

impl RuleRepository {
    /// The file of the repository.
    pub closed spec fn file(self) -> PathBuf {
        self.path
    }

    pub fn at(path: PathBuf) -> (r: RuleRepository)
        ensures
            r.file() == path,
    {
        RuleRepository { path }
    }

    pub fn path(&self) -> (r: &PathBuf)
        ensures
            *r == self.file(),
    {
        &self.path
    }

    /// Accepts a stored standard: its version must be this library's, and
    /// the rules must pass their check.
    pub fn check_loaded(rules: RuleSet) -> (r: Result<RuleSet, String>)
        ensures
            rules.version != RuleSet::VERSION ==> (r matches Err(e) && e@ == "规则配置版本 "@
                + decimal(rules.version as nat) + " 不受支持，当前版本为 "@ + decimal(
                RuleSet::VERSION as nat,
            )),
            rules.version == RuleSet::VERSION ==> match rules.check() {
                Ok(()) => r matches Ok(s) && s.version == rules.version && s.rules@ == rules.rules@,
                Err(m) => r matches Err(e) && e@ == m,
            },
    {
        if rules.version != RuleSet::VERSION {
            let mut m = "规则配置版本 ".to_owned();
            m.append(decimal_string(rules.version as u64).as_str());
            m.append(" 不受支持，当前版本为 ");
            m.append(decimal_string(RuleSet::VERSION as u64).as_str());
            return Err(m);
        }
        match rules.validate() {
            Ok(()) => Ok(rules),
            Err(e) => Err(e),
        }
    }
}

} // verus!
