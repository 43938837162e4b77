//! Company sizes, the metrics that decide them, and the per-industry rules
//! of the classification standard.

use vstd::prelude::*;
use crate::number::Number;
use crate::text::{
    chars_eq_str, chars_of, contains_str, has_infix, is_ascii_digit, is_white_space, is_ws, kept,
    lemma_kept_push, lemma_upper_take, message2, chars_eq, decimal, decimal_string, message3, outcome, string_of, trim_chars,
    trim_seq, upper, upper_char, upper_seq, without, remove_all, lemma_kept_all, lemma_no_infix,
    lemma_trim_plain, lemma_without_plain, occurs_at,
};

verus! {

/// The size band of a company.
#[derive(Clone, Copy, Debug, PartialEq, Eq, Structural)]
pub enum CompanySize {
    Large,
    Medium,
    Small,
    Micro,
}

impl CompanySize {
    /// Every size, from the largest down.
    pub const ALL: [CompanySize; 4] = [
        CompanySize::Large,
        CompanySize::Medium,
        CompanySize::Small,
        CompanySize::Micro,
    ];

    /// The name written in the workbook for this size.
    pub open spec fn name(self) -> Seq<char> {
        match self {
            CompanySize::Large => "大型"@,
            CompanySize::Medium => "中型"@,
            CompanySize::Small => "小型"@,
            CompanySize::Micro => "微型"@,
        }
    }

    /// The size that a normalized cell text names, if any.
    pub open spec fn named_by(t: Seq<char>) -> Option<CompanySize> {
        if t == "大型"@ || t == "大"@ {
            Some(CompanySize::Large)
        } else if t == "中型"@ || t == "中"@ {
            Some(CompanySize::Medium)
        } else if t == "小型"@ || t == "小"@ {
            Some(CompanySize::Small)
        } else if t == "微型"@ || t == "微"@ {
            Some(CompanySize::Micro)
        } else {
            None
        }
    }

    /// The size a cell text names once trimmed and with every "企业" removed.
    pub open spec fn parsed(value: Seq<char>) -> Option<CompanySize> {
        Self::named_by(without(trim_seq(value), "企业"@))
    }

    pub fn as_str(self) -> (r: &'static str)
        ensures
            r@ == self.name(),
    {
        match self {
            CompanySize::Large => "大型",
            CompanySize::Medium => "中型",
            CompanySize::Small => "小型",
            CompanySize::Micro => "微型",
        }
    }

    pub fn parse(value: &str) -> (r: Option<CompanySize>)
        ensures
            r == Self::parsed(value@),
    {
        let v = chars_of(value);
        let t = trim_chars(&v);
        let pat = chars_of("企业");
        proof {
            reveal_strlit("企业");
        }
        let n = remove_all(&t, &pat);
        if chars_eq_str(&n, "大型") || chars_eq_str(&n, "大") {
            Some(CompanySize::Large)
        } else if chars_eq_str(&n, "中型") || chars_eq_str(&n, "中") {
            Some(CompanySize::Medium)
        } else if chars_eq_str(&n, "小型") || chars_eq_str(&n, "小") {
            Some(CompanySize::Small)
        } else if chars_eq_str(&n, "微型") || chars_eq_str(&n, "微") {
            Some(CompanySize::Micro)
        } else {
            None
        }
    }
}

/// A metric that the standard measures a company by.
#[derive(Clone, Copy, Debug, PartialEq, Eq, Hash, Structural)]
pub enum MetricKind {
    Employees,
    Assets,
    Revenue,
}

/// A character that `MetricKind::parse` keeps.
pub open spec fn metric_name_char(c: char) -> bool {
    c != ' ' && c != '\n' && c != '\r'
}

impl MetricKind {
    /// Every metric, in the order of the standard's columns.
    pub const ALL: [MetricKind; 3] = [MetricKind::Employees, MetricKind::Assets, MetricKind::Revenue];

    pub open spec fn spec_label(self) -> Seq<char> {
        match self {
            MetricKind::Employees => "从业人员数"@,
            MetricKind::Assets => "资产总额"@,
            MetricKind::Revenue => "营业收入"@,
        }
    }

    pub open spec fn spec_source_column(self) -> Seq<char> {
        match self {
            MetricKind::Employees => "G"@,
            MetricKind::Assets => "H"@,
            MetricKind::Revenue => "I"@,
        }
    }

    pub open spec fn spec_unit_label(self) -> Seq<char> {
        match self {
            MetricKind::Employees => "人"@,
            MetricKind::Assets | MetricKind::Revenue => "万元"@,
        }
    }

    /// The metric a header text names: it is trimmed, spaces and line
    /// breaks are removed, and the rest is searched for a key word.
    pub open spec fn parsed(value: Seq<char>) -> Option<MetricKind> {
        let n = kept(trim_seq(value), |c: char| metric_name_char(c));
        if has_infix(n, "从业人员"@) || has_infix(n, "员工"@) {
            Some(MetricKind::Employees)
        } else if has_infix(n, "资产总额"@) || has_infix(n, "资产"@) {
            Some(MetricKind::Assets)
        } else if has_infix(n, "营业收入"@) || has_infix(n, "营收"@) {
            Some(MetricKind::Revenue)
        } else {
            None
        }
    }

    pub fn label(self) -> (r: &'static str)
        ensures
            r@ == self.spec_label(),
    {
        match self {
            MetricKind::Employees => "从业人员数",
            MetricKind::Assets => "资产总额",
            MetricKind::Revenue => "营业收入",
        }
    }

    pub fn source_column(self) -> (r: &'static str)
        ensures
            r@ == self.spec_source_column(),
    {
        match self {
            MetricKind::Employees => "G",
            MetricKind::Assets => "H",
            MetricKind::Revenue => "I",
        }
    }

    pub fn unit_label(self) -> (r: &'static str)
        ensures
            r@ == self.spec_unit_label(),
    {
        match self {
            MetricKind::Employees => "人",
            MetricKind::Assets | MetricKind::Revenue => "万元",
        }
    }

    pub fn parse(value: &str) -> (r: Option<MetricKind>)
        ensures
            r == Self::parsed(value@),
    {
        let v = chars_of(value);
        let t = trim_chars(&v);
        let mut n: Vec<char> = Vec::new();
        let mut i: usize = 0;
        while i < t.len()
            invariant
                i <= t.len(),
                n@ == kept(t@.take(i as int), |c: char| metric_name_char(c)),
            decreases t.len() - i,
        {
            proof {
                assert(t@.take(i + 1) =~= t@.take(i as int).push(t@[i as int]));
                lemma_kept_push(t@.take(i as int), t@[i as int], |c: char| metric_name_char(c));
            }
            let c = t[i];
            if c != ' ' && c != '\n' && c != '\r' {
                n.push(c);
            }
            i += 1;
        }
        assert(t@.take(t.len() as int) =~= t@);
        if contains_str(&n, "从业人员") || contains_str(&n, "员工") {
            Some(MetricKind::Employees)
        } else if contains_str(&n, "资产总额") || contains_str(&n, "资产") {
            Some(MetricKind::Assets)
        } else if contains_str(&n, "营业收入") || contains_str(&n, "营收") {
            Some(MetricKind::Revenue)
        } else {
            None
        }
    }
}

/// The thresholds of one metric: a company reaches a size when its value
/// is at least the lower bound of that size.
#[derive(Clone, Copy, Debug, PartialEq, Eq, Structural)]
pub struct MetricRule {
    pub metric: MetricKind,
    /// Lower bound of the large size; below it a company is medium or less.
    pub large_min: Number,
    pub medium_min: Number,
    pub small_min: Number,
}

impl MetricRule {
    /// The lower bound this rule sets for `size` (micro has none; its
    /// entry is the small bound, below which a company is micro).
    pub open spec fn bound(self, size: CompanySize) -> Number {
        match size {
            CompanySize::Large => self.large_min,
            CompanySize::Medium => self.medium_min,
            CompanySize::Small | CompanySize::Micro => self.small_min,
        }
    }

    pub open spec fn check(self) -> Result<(), Seq<char>> {
        let label = self.metric.spec_label();
        if !self.large_min.spec_is_finite() || !self.medium_min.spec_is_finite()
            || !self.small_min.spec_is_finite() {
            Err(label + "的阈值必须是有效数字"@)
        } else if self.small_min.spec_lt(Number { bits: 0 }) {
            Err(label + "的小型下限不能小于 0"@)
        } else if !(self.large_min.spec_gt(self.medium_min) && self.medium_min.spec_gt(
            self.small_min,
        )) {
            Err(label + "阈值必须满足：大型下限 > 中型下限 > 小型下限"@)
        } else {
            Ok(())
        }
    }

    pub fn validate(&self) -> (r: Result<(), String>)
        ensures
            outcome(r) == self.check(),
    {
        let label = self.metric.label();
        if !self.large_min.is_finite() || !self.medium_min.is_finite()
            || !self.small_min.is_finite() {
            return Err(message2(label, "的阈值必须是有效数字"));
        }
        if self.small_min.lt(&Number::zero()) {
            return Err(message2(label, "的小型下限不能小于 0"));
        }
        if !(self.large_min.gt(&self.medium_min) && self.medium_min.gt(&self.small_min)) {
            return Err(message2(label, "阈值必须满足：大型下限 > 中型下限 > 小型下限"));
        }
        Ok(())
    }
}

/// The values of a company's metrics, where the workbook gives them.
#[derive(Clone, Copy, Debug, PartialEq, Eq, Structural)]
pub struct MetricValues {
    pub employees: Option<Number>,
    pub assets: Option<Number>,
    pub revenue: Option<Number>,
}

impl MetricValues {
    pub open spec fn value_of(self, metric: MetricKind) -> Option<Number> {
        match metric {
            MetricKind::Employees => self.employees,
            MetricKind::Assets => self.assets,
            MetricKind::Revenue => self.revenue,
        }
    }

    pub fn none() -> (r: MetricValues)
        ensures
            r.employees is None,
            r.assets is None,
            r.revenue is None,
    {
        MetricValues { employees: None, assets: None, revenue: None }
    }

    pub fn get(&self, metric: MetricKind) -> (r: Option<Number>)
        ensures
            r == self.value_of(metric),
    {
        match metric {
            MetricKind::Employees => self.employees,
            MetricKind::Assets => self.assets,
            MetricKind::Revenue => self.revenue,
        }
    }
}

/// A value that classification can use: present, finite and not negative.
pub open spec fn usable(v: Option<Number>) -> bool {
    match v {
        Some(x) => x.spec_is_finite() && x.spec_is_non_negative(),
        None => false,
    }
}

/// The metrics of `metrics` whose value is not usable, in order.
pub open spec fn missing_metrics(metrics: Seq<MetricRule>, values: MetricValues) -> Seq<MetricKind>
    decreases metrics.len(),
{
    if metrics.len() == 0 {
        Seq::empty()
    } else {
        let rest = missing_metrics(metrics.drop_last(), values);
        if usable(values.value_of(metrics.last().metric)) {
            rest
        } else {
            rest.push(metrics.last().metric)
        }
    }
}

/// Some usable value lies below the small bound of its metric.
pub open spec fn known_below_small(metrics: Seq<MetricRule>, values: MetricValues) -> bool {
    exists|i: int|
        0 <= i < metrics.len() && usable(values.value_of(#[trigger] metrics[i].metric))
            && values.value_of(metrics[i].metric).unwrap().spec_lt(metrics[i].small_min)
}

/// Every value reaches the lower bound of `size` for its metric.
pub open spec fn all_reach(metrics: Seq<MetricRule>, values: MetricValues, size: CompanySize) -> bool {
    forall|i: int| 0 <= i < metrics.len() ==> reaches(values.value_of(#[trigger] metrics[i].metric), metrics[i].bound(size))
}

/// A present value at least `bound`.
pub open spec fn reaches(v: Option<Number>, bound: Number) -> bool {
    match v {
        Some(x) => x.spec_ge(bound),
        None => false,
    }
}

/// A rule of the standard: the metrics and thresholds of one industry.
#[derive(Clone, Debug)]
pub struct IndustryRule {
    pub id: u64,
    pub industry_name: String,
    /// Industry code of the standard; `*` marks the rule for industries
    /// that no other rule names.
    pub industry_code: String,
    pub metrics: Vec<MetricRule>,
}

/// A character that `normalize_rule_code` keeps.
pub open spec fn rule_code_char(c: char) -> bool {
    !is_white_space(c) && c != ':' && c != '：'
}

/// `normalize_rule_code`: upper case, without white space and colons.
pub open spec fn rule_code(value: Seq<char>) -> Seq<char> {
    kept(upper_seq(value), |c: char| rule_code_char(c))
}

/// A section letter followed by digits, such as `C`, `F51` or `K701`.
pub open spec fn code_shape(code: Seq<char>) -> bool {
    code.len() > 0 && 'A' <= code[0] && code[0] <= 'T' && forall|i: int|
        1 <= i < code.len() ==> is_ascii_digit(#[trigger] code[i])
}

/// The first problem among `metrics`, from index `i` on: a metric named
/// again further on, or thresholds out of order.
pub open spec fn metrics_check(metrics: Seq<MetricRule>, i: int) -> Result<(), Seq<char>>
    decreases metrics.len() - i,
{
    if i < 0 || i >= metrics.len() {
        Ok(())
    } else if exists|j: int| i < j < metrics.len() && #[trigger] metrics[j].metric == metrics[i].metric {
        Err("指标 "@ + metrics[i].metric.spec_label() + " 不能重复"@)
    } else if metrics[i].check() is Err {
        metrics[i].check()
    } else {
        metrics_check(metrics, i + 1)
    }
}

/// What a rule states: its id, the industry's name and code, and the
/// thresholds of its metrics.
pub struct RuleView {
    pub id: u64,
    pub name: Seq<char>,
    pub code: Seq<char>,
    pub metrics: Seq<MetricRule>,
}

impl View for IndustryRule {
    type V = RuleView;

    open spec fn view(&self) -> RuleView {
        RuleView {
            id: self.id,
            name: self.industry_name@,
            code: self.industry_code@,
            metrics: self.metrics@,
        }
    }
}

pub open spec fn rule_views(rules: Seq<IndustryRule>) -> Seq<RuleView> {
    rules.map_values(|r: IndustryRule| r@)
}

/// The problem `IndustryRule::validate` reports for a rule, if any.
pub open spec fn rule_check(v: RuleView) -> Result<(), Seq<char>> {
    let code = rule_code(v.code);
    if trim_seq(v.name).len() == 0 {
        Err("行业名称不能为空"@)
    } else if code.len() == 0 {
        Err("行业代码不能为空；其他行业请使用 *"@)
    } else if code != "*"@ && !code_shape(code) {
        Err("行业代码应为 A、F51、K701 等格式，兜底规则使用 *"@)
    } else if v.metrics.len() == 0 {
        Err("每条标准至少需要一个指标"@)
    } else if v.metrics.len() > 3 {
        Err("每条标准最多配置三个指标"@)
    } else {
        metrics_check(v.metrics, 0)
    }
}

impl IndustryRule {
    pub open spec fn check(self) -> Result<(), Seq<char>> {
        rule_check(self@)
    }

    /// A copy that states the same.
    pub fn copied(&self) -> (r: IndustryRule)
        ensures
            r@ == self@,
    {
        let mut metrics: Vec<MetricRule> = Vec::new();
        let mut i: usize = 0;
        while i < self.metrics.len()
            invariant
                i <= self.metrics.len(),
                metrics@ == self.metrics@.take(i as int),
            decreases self.metrics.len() - i,
        {
            metrics.push(self.metrics[i]);
            assert(metrics@ =~= self.metrics@.take(i + 1));
            i += 1;
        }
        assert(metrics@ =~= self.metrics@);
        IndustryRule {
            id: self.id,
            industry_name: self.industry_name.clone(),
            industry_code: self.industry_code.clone(),
            metrics,
        }
    }

    /// The size that the values give under this rule, or the metrics that
    /// lack a usable value when the size depends on them.
    pub open spec fn classification(self, values: MetricValues) -> Result<CompanySize, Seq<MetricKind>> {
        let ms = self.metrics@;
        if known_below_small(ms, values) {
            Ok(CompanySize::Micro)
        } else if missing_metrics(ms, values).len() > 0 {
            Err(missing_metrics(ms, values))
        } else if all_reach(ms, values, CompanySize::Large) {
            Ok(CompanySize::Large)
        } else if all_reach(ms, values, CompanySize::Medium) {
            Ok(CompanySize::Medium)
        } else if all_reach(ms, values, CompanySize::Small) {
            Ok(CompanySize::Small)
        } else {
            Ok(CompanySize::Micro)
        }
    }

    pub fn validate(&self) -> (r: Result<(), String>)
        ensures
            outcome(r) == self.check(),
    {
        let name = chars_of(self.industry_name.as_str());
        let trimmed = trim_chars(&name);
        if trimmed.len() == 0 {
            return Err("行业名称不能为空".to_owned());
        }
        let code = rule_code_chars(self.industry_code.as_str());
        if code.len() == 0 {
            return Err("行业代码不能为空；其他行业请使用 *".to_owned());
        }
        if !chars_eq_str(&code, "*") {
            let mut valid = 'A' <= code[0] && code[0] <= 'T';
            let mut i: usize = 1;
            while i < code.len()
                invariant
                    1 <= i <= code.len(),
                    valid == ('A' <= code@[0] && code@[0] <= 'T' && forall|k: int|
                        1 <= k < i ==> is_ascii_digit(#[trigger] code@[k])),
                decreases code.len() - i,
            {
                valid = valid && '0' <= code[i] && code[i] <= '9';
                i += 1;
            }
            if !valid {
                return Err("行业代码应为 A、F51、K701 等格式，兜底规则使用 *".to_owned());
            }
        }
        if self.metrics.len() == 0 {
            return Err("每条标准至少需要一个指标".to_owned());
        }
        if self.metrics.len() > 3 {
            return Err("每条标准最多配置三个指标".to_owned());
        }
        assert(self.check() == metrics_check(self.metrics@, 0));
        let mut index: usize = 0;
        while index < self.metrics.len()
            invariant
                self.check() == metrics_check(self.metrics@, 0),
                index <= self.metrics.len(),
                metrics_check(self.metrics@, 0) == metrics_check(self.metrics@, index as int),
            decreases self.metrics.len() - index,
        {
            let metric = self.metrics[index];
            let mut j: usize = index + 1;
            while j < self.metrics.len()
                invariant
                    index < j <= self.metrics.len(),
                    metric == self.metrics@[index as int],
                    self.check() == metrics_check(self.metrics@, index as int),
                    forall|k: int|
                        index < k < j ==> #[trigger] self.metrics@[k].metric != metric.metric,
                decreases self.metrics.len() - j,
            {
                if self.metrics[j].metric == metric.metric {
                    assert(self.metrics@[j as int].metric == self.metrics@[index as int].metric);
                    let m = message3("指标 ", metric.metric.label(), " 不能重复");
                    assert(metrics_check(self.metrics@, index as int) == Err::<(), Seq<char>>(
                        "指标 "@ + metric.metric.spec_label() + " 不能重复"@));
                    assert(m@ == "指标 "@ + metric.metric.spec_label() + " 不能重复"@);
                    return Err(m);
                }
                j += 1;
            }
            assert(!exists|j: int|
                index < j < self.metrics@.len() && #[trigger] self.metrics@[j].metric
                    == self.metrics@[index as int].metric);
            match metric.validate() {
                Ok(()) => {},
                Err(e) => {
                    assert(metrics_check(self.metrics@, index as int) == metric.check());
                    return Err(e);
                },
            }
            index += 1;
        }
        Ok(())
    }

    pub fn classify(&self, values: &MetricValues) -> (r: Result<CompanySize, Vec<MetricKind>>)
        ensures
            match r {
                Ok(size) => self.classification(*values) == Ok::<CompanySize, Seq<MetricKind>>(size),
                Err(m) => self.classification(*values) == Err::<CompanySize, Seq<MetricKind>>(m@),
            },
    {
        let ghost ms = self.metrics@;
        let mut missing: Vec<MetricKind> = Vec::new();
        let mut below = false;
        let mut large = true;
        let mut medium = true;
        let mut small = true;
        let mut i: usize = 0;
        while i < self.metrics.len()
            invariant
                ms == self.metrics@,
                i <= ms.len(),
                missing@ == missing_metrics(ms.take(i as int), *values),
                below == known_below_small(ms.take(i as int), *values),
                large == all_reach(ms.take(i as int), *values, CompanySize::Large),
                medium == all_reach(ms.take(i as int), *values, CompanySize::Medium),
                small == all_reach(ms.take(i as int), *values, CompanySize::Small),
            decreases ms.len() - i,
        {
            let rule = self.metrics[i];
            let ghost pre = ms.take(i as int);
            let ghost post = ms.take(i + 1);
            assert(post.drop_last() =~= pre);
            assert(post.last() == rule);
            let v = values.get(rule.metric);
            match v {
                Some(x) => {
                    if x.is_finite() && x.is_non_negative() {
                        if x.lt(&rule.small_min) {
                            below = true;
                        }
                    } else {
                        missing.push(rule.metric);
                    }
                    large = large && x.ge(&rule.large_min);
                    medium = medium && x.ge(&rule.medium_min);
                    small = small && x.ge(&rule.small_min);
                },
                None => {
                    missing.push(rule.metric);
                    large = false;
                    medium = false;
                    small = false;
                },
            }
            proof {
                if below {
                    if !known_below_small(pre, *values) {
                        assert(post[i as int] == rule);
                    } else {
                        let k = choose|k: int|
                            0 <= k < pre.len() && usable(values.value_of(#[trigger] pre[k].metric))
                                && values.value_of(pre[k].metric).unwrap().spec_lt(pre[k].small_min);
                        assert(post[k] == pre[k]);
                    }
                } else {
                    assert forall|k: int|
                        0 <= k < post.len() && usable(values.value_of(#[trigger] post[k].metric))
                        implies !values.value_of(post[k].metric).unwrap().spec_lt(
                        post[k].small_min,
                    ) by {
                        if k < pre.len() {
                            assert(post[k] == pre[k]);
                        }
                    }
                }
                assert forall|size: CompanySize|
                    #![trigger all_reach(post, *values, size)]
                    all_reach(post, *values, size) == (all_reach(pre, *values, size)
                        && reaches(values.value_of(rule.metric), rule.bound(size))) by {
                    if all_reach(post, *values, size) {
                        assert forall|k: int| 0 <= k < pre.len() implies reaches(values.value_of(
                            #[trigger] pre[k].metric), pre[k].bound(size)) by {
                            assert(post[k] == pre[k]);
                        }
                        assert(post[i as int] == rule);
                    }
                    if all_reach(pre, *values, size) && reaches(values.value_of(rule.metric), rule.bound(size)) {
                        assert forall|k: int| 0 <= k < post.len() implies reaches(values.value_of(
                            #[trigger] post[k].metric), post[k].bound(size)) by {
                            if k < pre.len() {
                                assert(post[k] == pre[k]);
                            }
                        }
                    }
                }
            }
            i += 1;
        }
        assert(ms.take(ms.len() as int) =~= ms);
        if below {
            return Ok(CompanySize::Micro);
        }
        if missing.len() > 0 {
            return Err(missing);
        }
        if large {
            Ok(CompanySize::Large)
        } else if medium {
            Ok(CompanySize::Medium)
        } else if small {
            Ok(CompanySize::Small)
        } else {
            Ok(CompanySize::Micro)
        }
    }
}

/// `normalize_rule_code` as characters.
pub fn rule_code_chars(value: &str) -> (r: Vec<char>)
    ensures
        r@ == rule_code(value@),
{
    let v = chars_of(value);
    let mut r: Vec<char> = Vec::new();
    let mut i: usize = 0;
    while i < v.len()
        invariant
            i <= v.len(),
            r@ == kept(upper_seq(v@.take(i as int)), |c: char| rule_code_char(c)),
        decreases v.len() - i,
    {
        proof {
            lemma_upper_take(v@, i as int);
            lemma_kept_push(
                upper_seq(v@.take(i as int)),
                upper_char(v@[i as int]),
                |c: char| rule_code_char(c),
            );
        }
        let u = upper(v[i]);
        if !is_ws(u) && u != ':' && u != '：' {
            r.push(u);
        }
        i += 1;
    }
    assert(v@.take(v.len() as int) =~= v@);
    r
}

/// Upper case, without white space and colons: the form in which rule
/// codes are compared.
pub fn normalize_rule_code(value: &str) -> (r: String)
    ensures
        r@ == rule_code(value@),
{
    let v = rule_code_chars(value);
    string_of(&v)
}


/// The rules of the standard, with the version of their stored form.
#[derive(Clone, Debug)]
pub struct RuleSet {
    pub version: u32,
    pub rules: Vec<IndustryRule>,
}

/// The first problem in the first pass over the rules from index `i` on: a
/// rule that fails its own check, or an id that is zero or seen before.
pub open spec fn rules_first_pass(rules: Seq<RuleView>, i: int) -> Result<(), Seq<char>>
    decreases rules.len() - i,
{
    if i < 0 || i >= rules.len() {
        Ok(())
    } else if rule_check(rules[i]) is Err {
        rule_check(rules[i])
    } else if rules[i].id == 0 || exists|j: int| 0 <= j < i && #[trigger] rules[j].id == rules[i].id {
        Err("规则 ID "@ + decimal(rules[i].id as nat) + " 无效或重复"@)
    } else {
        rules_first_pass(rules, i + 1)
    }
}

/// The first rule, from index `i` on, whose code a later rule repeats.
pub open spec fn rules_code_pass(rules: Seq<RuleView>, i: int) -> Result<(), Seq<char>>
    decreases rules.len() - i,
{
    if i < 0 || i >= rules.len() {
        Ok(())
    } else if exists|j: int|
        i < j < rules.len() && rule_code(#[trigger] rules[j].code) == rule_code(
            rules[i].code,
        ) {
        Err("行业代码 "@ + rule_code(rules[i].code) + " 存在重复规则"@)
    } else {
        rules_code_pass(rules, i + 1)
    }
}

/// The problem `RuleSet::validate` reports for a list of rules, if any.
pub open spec fn rules_check(rules: Seq<RuleView>) -> Result<(), Seq<char>> {
    if rules.len() == 0 {
        Err("规则列表不能为空"@)
    } else if rules_first_pass(rules, 0) is Err {
        rules_first_pass(rules, 0)
    } else {
        rules_code_pass(rules, 0)
    }
}

/// The rule names an industry code (not `*`) that one of `codes` names.
pub open spec fn names_code_of(rule: IndustryRule, codes: Seq<Seq<char>>) -> bool {
    let c = rule_code(rule.industry_code@);
    c != "*"@ && exists|k: int| 0 <= k < codes.len() && rule_code(#[trigger] codes[k]) == c
}

/// Among the first `n` rules, the first of those with the longest code
/// that `names_code_of` accepts.
pub open spec fn best_exact(rules: Seq<IndustryRule>, codes: Seq<Seq<char>>, n: int) -> Option<int>
    decreases n,
{
    if n <= 0 {
        None
    } else {
        let b = best_exact(rules, codes, n - 1);
        if names_code_of(rules[n - 1], codes) && (b is None || rule_code(
            rules[n - 1].industry_code@,
        ).len() > rule_code(rules[b->0].industry_code@).len()) {
            Some(n - 1)
        } else {
            b
        }
    }
}

/// The first of the first `n` rules whose code is `*`.
pub open spec fn first_fallback(rules: Seq<IndustryRule>, n: int) -> Option<int>
    decreases n,
{
    if n <= 0 {
        None
    } else {
        match first_fallback(rules, n - 1) {
            Some(i) => Some(i),
            None => if rule_code(rules[n - 1].industry_code@) == "*"@ {
                Some(n - 1)
            } else {
                None
            },
        }
    }
}

pub open spec fn string_seqs(v: Seq<String>) -> Seq<Seq<char>> {
    v.map_values(|s: String| s@)
}

/// The highest id among `rules`, or 0.
pub open spec fn max_rule_id(rules: Seq<IndustryRule>) -> nat
    decreases rules.len(),
{
    if rules.len() == 0 {
        0
    } else {
        let m = max_rule_id(rules.drop_last());
        if rules.last().id > m {
            rules.last().id as nat
        } else {
            m
        }
    }
}

impl RuleSet {
    pub const VERSION: u32 = 1;

    pub open spec fn check(self) -> Result<(), Seq<char>> {
        rules_check(rule_views(self.rules@))
    }

    /// The index of the rule that applies to an industry with the given
    /// codes: the longest code that one of them names, else the `*` rule.
    pub open spec fn pick(self, codes: Seq<Seq<char>>) -> Option<int> {
        match best_exact(self.rules@, codes, self.rules@.len() as int) {
            Some(i) => Some(i),
            None => first_fallback(self.rules@, self.rules@.len() as int),
        }
    }

    pub fn new(rules: Vec<IndustryRule>) -> (r: RuleSet)
        ensures
            r.version == Self::VERSION,
            r.rules@ == rules@,
    {
        RuleSet { version: Self::VERSION, rules }
    }

    pub fn validate(&self) -> (r: Result<(), String>)
        ensures
            outcome(r) == self.check(),
    {
        let rules = &self.rules;
        let ghost vs = rule_views(rules@);
        if rules.len() == 0 {
            return Err("规则列表不能为空".to_owned());
        }
        let mut i: usize = 0;
        while i < rules.len()
            invariant
                rules@ == self.rules@,
                vs == rule_views(rules@),
                i <= rules.len(),
                rules_first_pass(vs, 0) == rules_first_pass(vs, i as int),
            decreases rules.len() - i,
        {
            match rules[i].validate() {
                Ok(()) => {},
                Err(e) => {
                    return Err(e);
                },
            }
            let id = rules[i].id;
            let mut seen = id == 0;
            let mut j: usize = 0;
            while j < i
                invariant
                    i < rules.len(),
                    j <= i,
                    vs == rule_views(rules@),
                    id == vs[i as int].id,
                    seen == (id == 0 || exists|k: int| 0 <= k < j && #[trigger] vs[k].id == id),
                decreases i - j,
            {
                assert(vs[j as int].id == rules@[j as int].id);
                if rules[j].id == id {
                    seen = true;
                }
                j += 1;
            }
            if seen {
                let mut m = "规则 ID ".to_owned();
                let d = decimal_string(id);
                m.append(d.as_str());
                m.append(" 无效或重复");
                return Err(m);
            }
            i += 1;
        }
        assert(rules_first_pass(vs, rules@.len() as int) is Ok);
        let mut codes: Vec<Vec<char>> = Vec::new();
        let mut k: usize = 0;
        while k < rules.len()
            invariant
                vs == rule_views(rules@),
                k <= rules.len(),
                codes.len() == k,
                forall|t: int| 0 <= t < k ==> #[trigger] codes@[t]@ == rule_code(vs[t].code),
            decreases rules.len() - k,
        {
            codes.push(rule_code_chars(rules[k].industry_code.as_str()));
            k += 1;
        }
        let mut i: usize = 0;
        while i < rules.len()
            invariant
                rules@ == self.rules@,
                vs == rule_views(rules@),
                rules@.len() > 0,
                rules_first_pass(vs, 0) is Ok,
                i <= rules.len(),
                codes.len() == rules.len(),
                forall|t: int| 0 <= t < rules.len() ==> #[trigger] codes@[t]@ == rule_code(vs[t].code),
                rules_code_pass(vs, 0) == rules_code_pass(vs, i as int),
            decreases rules.len() - i,
        {
            let mut j: usize = i + 1;
            while j < rules.len()
                invariant
                    rules@ == self.rules@,
                vs == rule_views(rules@),
                    rules@.len() > 0,
                    rules_first_pass(vs, 0) is Ok,
                    i < j <= rules.len(),
                    codes.len() == rules.len(),
                    forall|t: int| 0 <= t < rules.len() ==> #[trigger] codes@[t]@ == rule_code(vs[t].code),
                    forall|t: int| i < t < j ==> rule_code(#[trigger] vs[t].code) != rule_code(vs[i as int].code),
                    rules_code_pass(vs, 0) == rules_code_pass(vs, i as int),
                decreases rules.len() - j,
            {
                if chars_eq(&codes[j], &codes[i]) {
                    assert(rule_code(vs[j as int].code) == rule_code(vs[i as int].code));
                    let code_text = string_of(&codes[i]);
                    let m = message3("行业代码 ", code_text.as_str(), " 存在重复规则");
                    assert(rules_code_pass(vs, i as int) == Err::<(), Seq<char>>(
                        "行业代码 "@ + rule_code(vs[i as int].code) + " 存在重复规则"@));
                    return Err(m);
                }
                j += 1;
            }
            i += 1;
        }
        Ok(())
    }

    pub fn find_for_codes(&self, codes: &Vec<String>) -> (r: Option<&IndustryRule>)
        ensures
            match self.pick(string_seqs(codes@)) {
                Some(i) => r matches Some(rule) && *rule == self.rules@[i],
                None => r is None,
            },
    {
        let ghost cs = string_seqs(codes@);
        let mut normalized: Vec<Vec<char>> = Vec::new();
        let mut k: usize = 0;
        while k < codes.len()
            invariant
                k <= codes.len(),
                cs == string_seqs(codes@),
                normalized.len() == k,
                forall|t: int| 0 <= t < k ==> #[trigger] normalized@[t]@ == rule_code(cs[t]),
            decreases codes.len() - k,
        {
            normalized.push(rule_code_chars(codes[k].as_str()));
            k += 1;
        }
        let mut best: Option<usize> = None;
        let mut best_len: usize = 0;
        let mut i: usize = 0;
        while i < self.rules.len()
            invariant
                i <= self.rules.len(),
                cs == string_seqs(codes@),
                normalized.len() == codes.len(),
                forall|t: int| 0 <= t < codes.len() ==> #[trigger] normalized@[t]@ == rule_code(cs[t]),
                match best_exact(self.rules@, cs, i as int) {
                    Some(b) => best == Some(b as usize) && 0 <= b < i && best_len == rule_code(self.rules@[b].industry_code@).len(),
                    None => best is None,
                },
            decreases self.rules.len() - i,
        {
            let code = rule_code_chars(self.rules[i].industry_code.as_str());
            let mut hit = false;
            if !chars_eq_str(&code, "*") {
                let mut t: usize = 0;
                while t < normalized.len()
                    invariant
                        t <= normalized.len(),
                        normalized.len() == codes.len(),
                        cs == string_seqs(codes@),
                        forall|q: int| 0 <= q < codes.len() ==> #[trigger] normalized@[q]@ == rule_code(cs[q]),
                        hit == exists|q: int| 0 <= q < t && rule_code(#[trigger] cs[q]) == code@,
                    decreases normalized.len() - t,
                {
                    if chars_eq(&normalized[t], &code) {
                        assert(rule_code(cs[t as int]) == code@);
                        hit = true;
                    }
                    t += 1;
                }
            }
            assert(hit == names_code_of(self.rules@[i as int], cs));
            if hit {
                match best {
                    None => {
                        best = Some(i);
                        best_len = code.len();
                    },
                    Some(bi) => {
                        if code.len() > best_len {
                            best = Some(i);
                            best_len = code.len();
                        }
                    },
                }
            }
            i += 1;
        }
        match best {
            Some(b) => {
                return Some(&self.rules[b]);
            },
            None => {},
        }
        let mut i: usize = 0;
        while i < self.rules.len()
            invariant
                i <= self.rules.len(),
                first_fallback(self.rules@, i as int) is None,
                best_exact(self.rules@, string_seqs(codes@), self.rules@.len() as int) is None,
            decreases self.rules.len() - i,
        {
            let code = rule_code_chars(self.rules[i].industry_code.as_str());
            if chars_eq_str(&code, "*") {
                proof {
                    assert(first_fallback(self.rules@, i + 1) == Some(i as int));
                    lemma_fallback_stays(self.rules@, (i + 1) as int, self.rules@.len() as int);
                }
                return Some(&self.rules[i]);
            }
            i += 1;
        }
        None
    }

    pub fn next_id(&self) -> (r: u64)
        requires
            max_rule_id(self.rules@) < u64::MAX,
        ensures
            r == max_rule_id(self.rules@) + 1,
    {
        let mut m: u64 = 0;
        let mut i: usize = 0;
        while i < self.rules.len()
            invariant
                i <= self.rules.len(),
                m == max_rule_id(self.rules@.take(i as int)),
            decreases self.rules.len() - i,
        {
            assert(self.rules@.take(i + 1).drop_last() =~= self.rules@.take(i as int));
            if self.rules[i].id > m {
                m = self.rules[i].id;
            }
            i += 1;
        }
        assert(self.rules@.take(self.rules.len() as int) =~= self.rules@);
        m + 1
    }
}

/// Once a `*` rule is among the first `n` rules, it stays the first one.
pub proof fn lemma_fallback_stays(rules: Seq<IndustryRule>, n: int, m: int)
    requires
        0 <= n <= m,
        first_fallback(rules, n) is Some,
    ensures
        first_fallback(rules, m) == first_fallback(rules, n),
    decreases m - n,
{
    if m > n {
        lemma_fallback_stays(rules, n, m - 1);
    }
}


/// The rank of a size: 3 for large down to 0 for micro.
pub open spec fn size_rank(s: CompanySize) -> int {
    match s {
        CompanySize::Large => 3,
        CompanySize::Medium => 2,
        CompanySize::Small => 1,
        CompanySize::Micro => 0,
    }
}

/// The rank of the size that one metric alone gives a value.
pub open spec fn metric_rank(m: MetricRule, v: Number) -> int {
    if v.spec_ge(m.large_min) {
        3
    } else if v.spec_ge(m.medium_min) {
        2
    } else if v.spec_ge(m.small_min) {
        1
    } else {
        0
    }
}

/// Every metric of `ms` has a usable value.
pub open spec fn all_usable(ms: Seq<MetricRule>, values: MetricValues) -> bool {
    forall|i: int| 0 <= i < ms.len() ==> usable(values.value_of(#[trigger] ms[i].metric))
}

/// The thresholds of each metric of a rule that passes its check are
/// finite and ordered.
pub proof fn lemma_metrics_each_valid(ms: Seq<MetricRule>, i: int)
    requires
        0 <= i <= ms.len(),
        metrics_check(ms, i) is Ok,
    ensures
        forall|j: int| i <= j < ms.len() ==> (#[trigger] ms[j]).check() is Ok,
    decreases ms.len() - i,
{
    if i < ms.len() {
        lemma_metrics_each_valid(ms, i + 1);
    }
}

/// Where every metric has a usable value, none is missing.
pub proof fn lemma_none_missing(ms: Seq<MetricRule>, values: MetricValues)
    requires
        all_usable(ms, values),
    ensures
        missing_metrics(ms, values).len() == 0,
    decreases ms.len(),
{
    if ms.len() > 0 {
        let p = ms.drop_last();
        assert(all_usable(p, values)) by {
            assert forall|i: int| 0 <= i < p.len() implies usable(values.value_of(#[trigger] p[i].metric)) by {
                assert(p[i] == ms[i]);
            }
        }
        lemma_none_missing(p, values);
        assert(usable(values.value_of(ms[ms.len() - 1].metric)));
    }
}

/// A usable value below the small bound of its metric makes a company
/// micro, whatever the other metrics hold or lack.
pub proof fn lemma_below_small_is_micro(rule: IndustryRule, values: MetricValues, i: int)
    requires
        0 <= i < rule.metrics@.len(),
        usable(values.value_of(rule.metrics@[i].metric)),
        values.value_of(rule.metrics@[i].metric).unwrap().spec_lt(rule.metrics@[i].small_min),
    ensures
        rule.classification(values) == Ok::<CompanySize, Seq<MetricKind>>(CompanySize::Micro),
{
    assert(known_below_small(rule.metrics@, values));
}

/// Under a rule that passes its check, a company whose metrics all have
/// usable values gets the lowest of the sizes its metrics give one by one.
pub proof fn lemma_lowest_eligible_size(rule: IndustryRule, values: MetricValues)
    requires
        rule.check() is Ok,
        all_usable(rule.metrics@, values),
    ensures
        rule.classification(values) matches Ok(s) && (forall|i: int|
            0 <= i < rule.metrics@.len() ==> size_rank(s) <= metric_rank(
                #[trigger] rule.metrics@[i],
                values.value_of(rule.metrics@[i].metric).unwrap(),
            )) && (exists|i: int|
            0 <= i < rule.metrics@.len() && size_rank(s) == metric_rank(
                #[trigger] rule.metrics@[i],
                values.value_of(rule.metrics@[i].metric).unwrap(),
            )),
{
    let ms = rule.metrics@;
    lemma_metrics_each_valid(ms, 0);
    lemma_none_missing(ms, values);
    assert forall|i: int| 0 <= i < ms.len() implies {
        let v = values.value_of(#[trigger] ms[i].metric).unwrap();
        &&& !v.spec_is_nan()
        &&& (v.spec_ge(ms[i].large_min) ==> v.spec_ge(ms[i].medium_min))
        &&& (v.spec_ge(ms[i].medium_min) ==> v.spec_ge(ms[i].small_min))
        &&& (!v.spec_lt(ms[i].small_min) <==> v.spec_ge(ms[i].small_min))
    } by {
        assert(ms[i].check() is Ok);
        assert(usable(values.value_of(ms[i].metric)));
    }
    let c = rule.classification(values);
    if known_below_small(ms, values) {
        let w = choose|i: int| 0 <= i < ms.len() && usable(values.value_of(#[trigger] ms[i].metric))
            && values.value_of(ms[i].metric).unwrap().spec_lt(ms[i].small_min);
        assert(metric_rank(ms[w], values.value_of(ms[w].metric).unwrap()) == 0);
    } else if all_reach(ms, values, CompanySize::Large) {
        assert(metric_rank(ms[0], values.value_of(ms[0].metric).unwrap()) == 3);
    } else if all_reach(ms, values, CompanySize::Medium) {
        let w = choose|i: int| 0 <= i < ms.len() && !reaches(values.value_of(#[trigger] ms[i].metric), ms[i].bound(CompanySize::Large));
        assert(metric_rank(ms[w], values.value_of(ms[w].metric).unwrap()) == 2);
    } else if all_reach(ms, values, CompanySize::Small) {
        let w = choose|i: int| 0 <= i < ms.len() && !reaches(values.value_of(#[trigger] ms[i].metric), ms[i].bound(CompanySize::Medium));
        assert(metric_rank(ms[w], values.value_of(ms[w].metric).unwrap()) == 1);
    } else {
        let w = choose|i: int| 0 <= i < ms.len() && !reaches(values.value_of(#[trigger] ms[i].metric), ms[i].bound(CompanySize::Small));
        assert(values.value_of(ms[w].metric).unwrap().spec_lt(ms[w].small_min));
        assert(known_below_small(ms, values));
    }
}

/// A lower bound counts for its own size: under a rule that passes its
/// check, values that all reach the lower bounds of a size give that size
/// or a larger one.
pub proof fn lemma_bounds_are_inclusive(rule: IndustryRule, values: MetricValues, size: CompanySize)
    requires
        rule.check() is Ok,
        all_usable(rule.metrics@, values),
        size != CompanySize::Micro,
        forall|i: int| 0 <= i < rule.metrics@.len() ==> values.value_of(#[trigger] rule.metrics@[i].metric).unwrap().spec_ge(
            rule.metrics@[i].bound(size),
        ),
    ensures
        rule.classification(values) matches Ok(s) && size_rank(s) >= size_rank(size),
{
    let ms = rule.metrics@;
    lemma_lowest_eligible_size(rule, values);
    lemma_metrics_each_valid(ms, 0);
    let s = rule.classification(values)->Ok_0;
    let w = choose|i: int| 0 <= i < ms.len() && size_rank(s) == metric_rank(
        #[trigger] ms[i],
        values.value_of(ms[i].metric).unwrap(),
    );
    assert(ms[w].check() is Ok);
    assert(values.value_of(ms[w].metric).unwrap().spec_ge(ms[w].bound(size)));
}

/// Where no usable value is below its small bound, a company whose values
/// do not all exist is not classified; the metrics reported are exactly
/// those without a usable value, in the rule's order.
pub proof fn lemma_missing_reported(ms: Seq<MetricRule>, values: MetricValues)
    ensures
        forall|k: int| 0 <= k < missing_metrics(ms, values).len() ==> exists|i: int|
            0 <= i < ms.len() && #[trigger] ms[i].metric == #[trigger] missing_metrics(ms, values)[k]
                && !usable(values.value_of(ms[i].metric)),
        forall|i: int| 0 <= i < ms.len() && !usable(values.value_of(#[trigger] ms[i].metric))
            ==> missing_metrics(ms, values).contains(ms[i].metric),
    decreases ms.len(),
{
    if ms.len() > 0 {
        let p = ms.drop_last();
        lemma_missing_reported(p, values);
        let m = missing_metrics(ms, values);
        let pm = missing_metrics(p, values);
        assert forall|k: int| 0 <= k < m.len() implies exists|i: int|
            0 <= i < ms.len() && #[trigger] ms[i].metric == #[trigger] m[k] && !usable(values.value_of(ms[i].metric)) by {
            if k < pm.len() {
                assert(m[k] == pm[k]);
                let i = choose|i: int| 0 <= i < p.len() && #[trigger] p[i].metric == #[trigger] pm[k] && !usable(values.value_of(p[i].metric));
                assert(ms[i] == p[i]);
            } else {
                assert(ms[ms.len() - 1].metric == m[k]);
            }
        }
        assert forall|i: int| 0 <= i < ms.len() && !usable(values.value_of(#[trigger] ms[i].metric)) implies m.contains(ms[i].metric) by {
            if i < p.len() {
                assert(p[i] == ms[i]);
                let k = choose|k: int| 0 <= k < pm.len() && pm[k] == p[i].metric;
                assert(m[k] == pm[k]);
            } else {
                assert(m[m.len() - 1] == ms[i].metric);
            }
        }
    }
}

/// The highest id is at least every id.
pub proof fn lemma_max_rule_id(rules: Seq<IndustryRule>)
    ensures
        forall|i: int| 0 <= i < rules.len() ==> (#[trigger] rules[i]).id <= max_rule_id(rules),
    decreases rules.len(),
{
    if rules.len() > 0 {
        lemma_max_rule_id(rules.drop_last());
        assert forall|i: int| 0 <= i < rules.len() implies (#[trigger] rules[i]).id <= max_rule_id(rules) by {
            if i < rules.len() - 1 {
                assert(rules[i] == rules.drop_last()[i]);
            }
        }
    }
}

/// The id `next_id` gives is not the id of any rule.
pub proof fn lemma_next_rule_id_is_new(rules: Seq<IndustryRule>)
    ensures
        forall|i: int| 0 <= i < rules.len() ==> (#[trigger] rules[i]).id != max_rule_id(rules) + 1,
{
    lemma_max_rule_id(rules);
}

/// The rule that applies to an industry: among the rules that name one of
/// its codes, one with the longest code; the `*` rule only where no rule
/// names one; none where neither exists.
pub proof fn lemma_pick_longest(rules: RuleSet, codes: Seq<Seq<char>>)
    ensures
        match rules.pick(codes) {
            Some(i) => 0 <= i < rules.rules@.len() && ((names_code_of(rules.rules@[i], codes) && forall|j: int|
                0 <= j < rules.rules@.len() && names_code_of(#[trigger] rules.rules@[j], codes) ==> rule_code(
                    rules.rules@[j].industry_code@,
                ).len() <= rule_code(rules.rules@[i].industry_code@).len()) || ((forall|j: int|
                0 <= j < rules.rules@.len() ==> !names_code_of(#[trigger] rules.rules@[j], codes))
                && rule_code(rules.rules@[i].industry_code@) == "*"@)),
            None => (forall|j: int| 0 <= j < rules.rules@.len() ==> !names_code_of(#[trigger] rules.rules@[j], codes))
                && (forall|j: int| 0 <= j < rules.rules@.len() ==> rule_code(#[trigger] rules.rules@[j].industry_code@) != "*"@),
        },
{
    let rs = rules.rules@;
    lemma_best_exact(rs, codes, rs.len() as int);
    lemma_first_fallback(rs, rs.len() as int);
}

pub proof fn lemma_best_exact(rules: Seq<IndustryRule>, codes: Seq<Seq<char>>, n: int)
    requires
        0 <= n <= rules.len(),
    ensures
        match best_exact(rules, codes, n) {
            Some(i) => 0 <= i < n && names_code_of(rules[i], codes) && forall|j: int|
                0 <= j < n && names_code_of(#[trigger] rules[j], codes) ==> rule_code(rules[j].industry_code@).len()
                    <= rule_code(rules[i].industry_code@).len(),
            None => forall|j: int| 0 <= j < n ==> !names_code_of(#[trigger] rules[j], codes),
        },
    decreases n,
{
    if n > 0 {
        lemma_best_exact(rules, codes, n - 1);
    }
}

pub proof fn lemma_first_fallback(rules: Seq<IndustryRule>, n: int)
    requires
        0 <= n <= rules.len(),
    ensures
        match first_fallback(rules, n) {
            Some(i) => 0 <= i < n && rule_code(rules[i].industry_code@) == "*"@,
            None => forall|j: int| 0 <= j < n ==> rule_code(#[trigger] rules[j].industry_code@) != "*"@,
        },
    decreases n,
{
    if n > 0 {
        lemma_first_fallback(rules, n - 1);
    }
}


/// A two-character text without white space or `企业` reads as itself.
pub proof fn lemma_plain_pair(t: Seq<char>)
    requires
        t.len() == 2,
        !is_white_space(t[0]),
        !is_white_space(t[1]),
        t[0] != '企',
    ensures
        without(trim_seq(t), "企业"@) == t,
{
    reveal_strlit("企业");
    crate::text::lemma_trim_plain(t);
    let pat = "企业"@;
    assert(t.take(2) != pat) by {
        assert(t.take(2)[0] != pat[0]);
    }
    assert(t.drop_first().len() == 1);
    assert(without(t.drop_first().drop_first(), pat) == t.drop_first().drop_first());
    assert(without(t.drop_first(), pat) == seq![t[1]] + t.drop_first().drop_first());
    assert(seq![t[0]] + (seq![t[1]] + t.drop_first().drop_first()) =~= t);
}

/// The name of each size reads back as that size.
pub proof fn lemma_size_name_parses(size: CompanySize)
    ensures
        CompanySize::parsed(size.name()) == Some(size),
{
    reveal_strlit("大型");
    reveal_strlit("中型");
    reveal_strlit("小型");
    reveal_strlit("微型");
    reveal_strlit("大");
    reveal_strlit("中");
    reveal_strlit("小");
    reveal_strlit("微");
    lemma_plain_pair(size.name());
}

/// Each size reads back from its name or the name's first character, with
/// or without `企业` after it, and with any white space around it.
#[verifier::spinoff_prover]
pub proof fn lemma_size_names_read_back(size: CompanySize, t: Seq<char>, short: bool, firm: bool)
    requires
        trim_seq(t) == (if short { size.name().take(1) } else { size.name() }) + (if firm {
            "企业"@
        } else {
            Seq::<char>::empty()
        }),
    ensures
        CompanySize::parsed(t) == Some(size),
{
    reveal_strlit("企业");
    reveal_strlit("大型");
    reveal_strlit("中型");
    reveal_strlit("小型");
    reveal_strlit("微型");
    reveal_strlit("大");
    reveal_strlit("中");
    reveal_strlit("小");
    reveal_strlit("微");
    let pat = "企业"@;
    let n = if short { size.name().take(1) } else { size.name() };
    assert forall|i: int| 0 <= i < n.len() implies n[i] != pat[0] by {
        assert(n[i] == size.name()[i]);
    }
    lemma_without_plain(n, pat);
    if firm {
        assert(trim_seq(t) == n + pat);
        assert(without(n + pat, pat) == n);
    } else {
        assert(trim_seq(t) =~= n);
    }
    assert(without(trim_seq(t), pat) == n);
    assert(CompanySize::parsed(t) == CompanySize::named_by(n));
    match size {
        CompanySize::Large => {
            if short {
                assert(n =~= "大"@);
            } else {
                assert(n =~= "大型"@);
            }
            assert(CompanySize::named_by(n) == Some(CompanySize::Large));
        },
        CompanySize::Medium => {
            if short {
                assert(n =~= "中"@);
            } else {
                assert(n =~= "中型"@);
            }
            assert(n != "大型"@) by {
                assert(n[0] != "大型"@[0]);
            }
            assert(n != "大"@) by {
                assert(n[0] != "大"@[0]);
            }
            assert(CompanySize::named_by(n) == Some(CompanySize::Medium));
        },
        CompanySize::Small => {
            if short {
                assert(n =~= "小"@);
            } else {
                assert(n =~= "小型"@);
            }
            assert(n != "大型"@) by {
                assert(n[0] != "大型"@[0]);
            }
            assert(n != "大"@) by {
                assert(n[0] != "大"@[0]);
            }
            assert(n != "中型"@) by {
                assert(n[0] != "中型"@[0]);
            }
            assert(n != "中"@) by {
                assert(n[0] != "中"@[0]);
            }
            assert(CompanySize::named_by(n) == Some(CompanySize::Small));
        },
        CompanySize::Micro => {
            if short {
                assert(n =~= "微"@);
            } else {
                assert(n =~= "微型"@);
            }
            assert(n != "大型"@) by {
                assert(n[0] != "大型"@[0]);
            }
            assert(n != "大"@) by {
                assert(n[0] != "大"@[0]);
            }
            assert(n != "中型"@) by {
                assert(n[0] != "中型"@[0]);
            }
            assert(n != "中"@) by {
                assert(n[0] != "中"@[0]);
            }
            assert(n != "小型"@) by {
                assert(n[0] != "小型"@[0]);
            }
            assert(n != "小"@) by {
                assert(n[0] != "小"@[0]);
            }
            assert(CompanySize::named_by(n) == Some(CompanySize::Micro));
        },
    }
}

/// Each metric's label reads back as that metric.
pub proof fn lemma_metric_label_parses(kind: MetricKind)
    ensures
        MetricKind::parsed(kind.spec_label()) == Some(kind),
{
    reveal_strlit("从业人员数");
    reveal_strlit("资产总额");
    reveal_strlit("营业收入");
    reveal_strlit("从业人员");
    reveal_strlit("员工");
    reveal_strlit("资产");
    reveal_strlit("营收");
    let l = kind.spec_label();
    lemma_trim_plain(l);
    assert forall|i: int| 0 <= i < l.len() implies metric_name_char(#[trigger] l[i]) by {}
    lemma_kept_all(l, |c: char| metric_name_char(c));
    let n = kept(trim_seq(l), |c: char| metric_name_char(c));
    assert(n == l);
    match kind {
        MetricKind::Employees => {
            assert(occurs_at(l, "从业人员"@, 0)) by {
                assert(l.subrange(0, 4) =~= "从业人员"@);
            }
        },
        MetricKind::Assets => {
            lemma_no_infix(l, "从业人员"@);
            lemma_no_infix(l, "员工"@);
            assert(occurs_at(l, "资产总额"@, 0)) by {
                assert(l.subrange(0, 4) =~= "资产总额"@);
            }
        },
        MetricKind::Revenue => {
            lemma_no_infix(l, "从业人员"@);
            lemma_no_infix(l, "员工"@);
            lemma_no_infix(l, "资产总额"@);
            lemma_no_infix(l, "资产"@);
            assert(occurs_at(l, "营业收入"@, 0)) by {
                assert(l.subrange(0, 4) =~= "营业收入"@);
            }
        },
    }
}

/// The first pass from `i` on finds nothing exactly when each rule from
/// `i` on passes its own check and has an id that is not zero and that no
/// earlier rule has.
pub proof fn lemma_first_pass_ok(rules: Seq<RuleView>, i: int)
    requires
        0 <= i <= rules.len(),
    ensures
        (rules_first_pass(rules, i) is Ok) == (forall|k: int| i <= k < rules.len() ==> {
            &&& rule_check(#[trigger] rules[k]) is Ok
            &&& rules[k].id != 0
            &&& forall|j: int| 0 <= j < k ==> rules[j].id != rules[k].id
        }),
    decreases rules.len() - i,
{
    if i < rules.len() {
        lemma_first_pass_ok(rules, i + 1);
        if rules_first_pass(rules, i) is Ok {
            assert(rule_check(rules[i]) is Ok);
            assert(rules[i].id != 0);
            assert(forall|j: int| 0 <= j < i ==> rules[j].id != rules[i].id);
        } else {
            if rule_check(rules[i]) is Ok && rules[i].id != 0 {
                if exists|j: int| 0 <= j < i && #[trigger] rules[j].id == rules[i].id {
                    let j = choose|j: int| 0 <= j < i && #[trigger] rules[j].id == rules[i].id;
                    assert(rules[j].id == rules[i].id);
                }
            }
        }
    }
}

/// The pass over codes from `i` on finds nothing exactly when no rule from
/// `i` on has the normalized code of a later rule.
pub proof fn lemma_code_pass_ok(rules: Seq<RuleView>, i: int)
    requires
        0 <= i <= rules.len(),
    ensures
        (rules_code_pass(rules, i) is Ok) == (forall|k: int, j: int|
            i <= k < j < rules.len() ==> rule_code(#[trigger] rules[k].code) != rule_code(#[trigger] rules[j].code)),
    decreases rules.len() - i,
{
    if i < rules.len() {
        lemma_code_pass_ok(rules, i + 1);
        if rules_code_pass(rules, i) is Err {
            if !(exists|j: int| i < j < rules.len() && rule_code(#[trigger] rules[j].code) == rule_code(rules[i].code)) {
                let (k, j) = choose|k: int, j: int|
                    i + 1 <= k < j < rules.len() && rule_code(#[trigger] rules[k].code) == rule_code(#[trigger] rules[j].code);
                assert(i <= k < j < rules.len());
            } else {
                let j = choose|j: int| i < j < rules.len() && rule_code(#[trigger] rules[j].code) == rule_code(rules[i].code);
                assert(rule_code(rules[i].code) == rule_code(rules[j].code));
            }
        }
    }
}

/// A standard passes its check exactly when it has rules, each rule passes
/// its own check, the ids are not zero and all differ, and no two rules
/// have the same normalized code. Codes that differ, such as `C` and
/// `C38`, never count as repeated.
pub proof fn lemma_rules_check_exact(rules: Seq<RuleView>)
    ensures
        (rules_check(rules) is Ok) == {
            &&& rules.len() > 0
            &&& forall|k: int| 0 <= k < rules.len() ==> rule_check(#[trigger] rules[k]) is Ok
            &&& forall|k: int| 0 <= k < rules.len() ==> (#[trigger] rules[k]).id != 0
            &&& forall|j: int, k: int| 0 <= j < k < rules.len() ==> (#[trigger] rules[j]).id != (#[trigger] rules[k]).id
            &&& forall|j: int, k: int| 0 <= j < k < rules.len() ==> rule_code((#[trigger] rules[j]).code) != rule_code(
                (#[trigger] rules[k]).code,
            )
        },
{
    lemma_first_pass_ok(rules, 0);
    lemma_code_pass_ok(rules, 0);
}

} // verus!
