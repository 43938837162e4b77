//! The check of a source worksheet against the standard: options, column
//! labels, the reading of each data row and the summary of the results.

use vstd::prelude::*;
use std::path::PathBuf;
use std::path::Path;
use crate::paths::{
    joined_path, new_path, parent_path, path_display_text, path_extension, path_extension_text,
    path_join, path_parent, path_stem, path_stem_text, shown_path, static_path,
};
use crate::hierarchy::{
    path_text, resolved_codes, resolved_full_code, resolved_leaf, resolved_names, string_seqs,
    CategoryView, HierarchyIndex,
};
use crate::model::{lemma_pick_longest, names_code_of, rule_code, CompanySize, MetricKind, MetricValues, RuleSet};
use crate::sheet::{cell_text, text_chars};
use crate::text::{
    chars_of, contains_str, outcome, eq_ignore_case, eq_ignore_case_exec, has_infix, is_ascii_alpha,
    join_strings, joined, lemma_trim_plain, string_of, string_views, trim_chars, trim_seq,
    upper_chars, upper_seq,
};

verus! {

/// The column the check writes its notes to unless told otherwise.
pub const DEFAULT_ANNOTATION_COLUMN: &'static str = "Q";

/// The capital letter at position `k` (0 for `A`).
pub open spec fn letter(k: int) -> char {
    ((65 + k) as u32) as char
}

/// The column number that a label of capital letters names: `A` is 1,
/// `Z` is 26, `AA` is 27.
pub open spec fn column_number(l: Seq<char>) -> int
    decreases l.len(),
{
    if l.len() == 0 {
        0
    } else {
        column_number(l.drop_last()) * 26 + ((l.last() as u32) - 64)
    }
}

/// The label of column `n` (empty for 0).
pub open spec fn column_label(n: nat) -> Seq<char>
    decreases n,
{
    if n == 0 {
        Seq::empty()
    } else {
        column_label(((n - 1) / 26) as nat).push(letter((n - 1) % 26))
    }
}

/// Every character is an ASCII letter.
pub open spec fn all_letters(l: Seq<char>) -> bool {
    forall|i: int| 0 <= i < l.len() ==> is_ascii_alpha(#[trigger] l[i])
}

/// Every character is a capital ASCII letter.
pub open spec fn all_capitals(l: Seq<char>) -> bool {
    forall|i: int| 0 <= i < l.len() ==> 'A' <= #[trigger] l[i] && l[i] <= 'Z'
}

/// The column a label names once trimmed and upper-cased, or the message
/// for a label that is not one of `A` to `XFD`.
pub open spec fn column_index(label: Seq<char>) -> Result<nat, Seq<char>> {
    let l = upper_seq(trim_seq(label));
    if l.len() == 0 || l.len() > 3 || !all_letters(l) {
        Err("标注列应填写 Excel 列名，例如 Q 或 AA"@)
    } else if column_number(l) > 16384 {
        Err("标注列不能超过 Excel 最大列 XFD"@)
    } else {
        Ok(column_number(l) as nat)
    }
}

pub proof fn lemma_upper_letters(l: Seq<char>)
    requires
        all_letters(upper_seq(l)),
    ensures
        all_capitals(upper_seq(l)),
{
    assert forall|i: int| 0 <= i < upper_seq(l).len() implies 'A' <= #[trigger] upper_seq(l)[i]
        && upper_seq(l)[i] <= 'Z' by {
        assert(is_ascii_alpha(upper_seq(l)[i]));
    }
}

/// The number of a label of at most three capitals fits its bounds.
pub proof fn lemma_number_bounds(l: Seq<char>)
    requires
        all_capitals(l),
    ensures
        0 <= column_number(l),
        l.len() <= 1 ==> column_number(l) <= 26,
        l.len() <= 2 ==> column_number(l) <= 702,
        l.len() <= 3 ==> column_number(l) <= 18278,
        l.len() >= 1 ==> column_number(l) >= 1,
    decreases l.len(),
{
    if l.len() > 0 {
        let p = l.drop_last();
        assert(all_capitals(p)) by {
            assert forall|i: int| 0 <= i < p.len() implies 'A' <= #[trigger] p[i] && p[i] <= 'Z' by {
                assert(p[i] == l[i]);
            }
        }
        assert('A' <= l[l.len() - 1] && l[l.len() - 1] <= 'Z');
        lemma_number_bounds(p);
    }
}

/// Column labels and numbers are inverse: the label of column `n` names
/// column `n`, for every column from `A` (1) to `XFD` (16384).
pub proof fn lemma_label_names_column(n: nat)
    requires
        1 <= n <= 16384,
    ensures
        column_index(column_label(n)) == Ok::<nat, Seq<char>>(n),
{
    lemma_label_shape(n);
    let l = column_label(n);
    lemma_trim_plain(l);
    assert(upper_seq(l) =~= l);
    assert(all_letters(l));
}

/// The label of column `n` is made of capitals, has at most three of them
/// up to `ZZZ`, and names `n` again.
pub proof fn lemma_label_shape(n: nat)
    ensures
        all_capitals(column_label(n)),
        column_number(column_label(n)) == n,
        n <= 18278 ==> column_label(n).len() <= 3,
        n <= 702 ==> column_label(n).len() <= 2,
        n <= 26 ==> column_label(n).len() <= 1,
        n >= 1 ==> column_label(n).len() >= 1,
    decreases n,
{
    if n > 0 {
        let q = ((n - 1) / 26) as nat;
        let k = (n - 1) % 26;
        lemma_label_shape(q);
        let l = column_label(n);
        assert(l.drop_last() =~= column_label(q));
        assert(0 <= k < 26);
        assert(q * 26 + k == n - 1);
        assert('A' <= letter(k) && letter(k) <= 'Z');
        assert((letter(k) as u32) == 65 + k);
        assert forall|i: int| 0 <= i < l.len() implies 'A' <= #[trigger] l[i] && l[i] <= 'Z' by {
            if i < l.len() - 1 {
                assert(l[i] == column_label(q)[i]);
            }
        }
    }
}

/// A label of capitals is the label of the column it names.
pub proof fn lemma_column_label_of(l: Seq<char>)
    requires
        all_capitals(l),
    ensures
        column_label(column_number(l) as nat) == l,
    decreases l.len(),
{
    lemma_number_bounds(l);
    if l.len() > 0 {
        let p = l.drop_last();
        assert(all_capitals(p)) by {
            assert forall|i: int| 0 <= i < p.len() implies 'A' <= #[trigger] p[i] && p[i] <= 'Z' by {
                assert(p[i] == l[i]);
            }
        }
        lemma_number_bounds(p);
        lemma_column_label_of(p);
        let n = column_number(l);
        let d = (l.last() as u32) - 65;
        assert(0 <= d < 26);
        assert(n - 1 == column_number(p) * 26 + d);
        assert((n - 1) / 26 == column_number(p));
        assert((n - 1) % 26 == d);
        assert(letter(d) == l.last());
        assert(l =~= p.push(l.last()));
    }
}

/// A label that names a column is the label of that column, once trimmed
/// and upper-cased.
pub proof fn lemma_column_names_label(label: Seq<char>)
    requires
        column_index(label) is Ok,
    ensures
        column_label(column_index(label)->Ok_0) == upper_seq(trim_seq(label)),
{
    let l = upper_seq(trim_seq(label));
    lemma_upper_letters(trim_seq(label));
    lemma_column_label_of(l);
}

pub fn column_label_to_index(label: &str) -> (r: Result<usize, String>)
    ensures
        match column_index(label@) {
            Ok(n) => r matches Ok(i) && i == n,
            Err(m) => r matches Err(e) && e@ == m,
        },
        r matches Ok(i) ==> i <= 16384,
{
    let trimmed = trim_chars(&chars_of(label));
    let l = upper_chars(&trimmed);
    let mut letters = true;
    let mut i: usize = 0;
    while i < l.len()
        invariant
            i <= l.len(),
            letters == forall|k: int| 0 <= k < i ==> is_ascii_alpha(#[trigger] l@[k]),
        decreases l.len() - i,
    {
        letters = letters && (('A' <= l[i] && l[i] <= 'Z') || ('a' <= l[i] && l[i] <= 'z'));
        i += 1;
    }
    if l.len() == 0 || l.len() > 3 || !letters {
        return Err("标注列应填写 Excel 列名，例如 Q 或 AA".to_owned());
    }
    proof {
        lemma_upper_letters(trim_seq(label@));
        lemma_number_bounds(l@);
    }
    let mut index: usize = 0;
    let mut k: usize = 0;
    while k < l.len()
        invariant
            l@ == upper_seq(trim_seq(label@)),
            all_capitals(l@),
            l.len() <= 3,
            k <= l.len(),
            index == column_number(l@.take(k as int)),
        decreases l.len() - k,
    {
        proof {
            let t = l@.take(k + 1);
            assert(t.drop_last() =~= l@.take(k as int));
            assert(all_capitals(l@.take(k as int))) by {
                assert forall|j: int| 0 <= j < k implies 'A' <= #[trigger] l@.take(k as int)[j]
                    && l@.take(k as int)[j] <= 'Z' by {
                    assert(l@.take(k as int)[j] == l@[j]);
                }
            }
            lemma_number_bounds(l@.take(k as int));
        }
        index = index * 26 + ((l[k] as u32) - 64) as usize;
        k += 1;
    }
    assert(l@.take(l.len() as int) =~= l@);
    if index > 16384 {
        return Err("标注列不能超过 Excel 最大列 XFD".to_owned());
    }
    Ok(index)
}

pub fn column_index_to_label(index: usize) -> (r: String)
    ensures
        r@ == column_label(index as nat),
{
    let mut n = index;
    let mut label: Vec<char> = Vec::new();
    while n > 0
        invariant
            column_label(index as nat) == column_label(n as nat) + label@,
        decreases n,
    {
        let m = n - 1;
        let c = ((65 + (m % 26)) as u8) as char;
        assert(c == letter((m % 26) as int));
        proof {
            assert(column_label(n as nat) == column_label((m / 26) as nat).push(c));
            assert(column_label((m / 26) as nat).push(c) + label@ =~= column_label((m / 26) as nat) + label@.insert(0, c));
        }
        label.insert(0, c);
        n = m / 26;
    }
    assert(column_label(0) + label@ =~= label@);
    string_of(&label)
}

/// `value` trimmed, or `空` where nothing is left.
pub open spec fn shown_or_empty(value: Seq<char>) -> Seq<char> {
    if trim_seq(value).len() == 0 {
        "空"@
    } else {
        trim_seq(value)
    }
}

pub fn display_or_empty(value: &str) -> (r: String)
    ensures
        r@ == shown_or_empty(value@),
{
    let t = trim_chars(&chars_of(value));
    if t.len() == 0 {
        "空".to_owned()
    } else {
        string_of(&t)
    }
}

/// The outcome of the check of one data row.
#[derive(Clone, Copy, Debug, PartialEq, Eq, Structural)]
pub enum RowStatus {
    Changed,
    Unchanged,
    Skipped,
}

impl RowStatus {
    pub open spec fn spec_label(self) -> Seq<char> {
        match self {
            RowStatus::Changed => "待修改"@,
            RowStatus::Unchanged => "一致"@,
            RowStatus::Skipped => "已跳过"@,
        }
    }

    pub fn label(self) -> (r: &'static str)
        ensures
            r@ == self.spec_label(),
    {
        match self {
            RowStatus::Changed => "待修改",
            RowStatus::Unchanged => "一致",
            RowStatus::Skipped => "已跳过",
        }
    }
}

/// What a check of a source workbook is asked to do.
#[derive(Clone, Debug)]
pub struct CheckOptions {
    pub source_path: PathBuf,
    pub annotation_column: String,
    pub annotate_skipped_rows: bool,
}

/// The outcome of the checks of `CheckOptions::validate` once the file's
/// existence and extension are known.
pub open spec fn options_outcome(
    source_exists: bool,
    extension: Option<Seq<char>>,
    shown_path: Seq<char>,
    annotation_column: Seq<char>,
) -> Result<nat, Seq<char>> {
    if !source_exists {
        Err("源数据文件不存在："@ + shown_path)
    } else if extension is None || !eq_ignore_case(extension->0, "xlsx"@) {
        Err("源数据必须是 .xlsx 文件"@)
    } else {
        match column_index(annotation_column) {
            Err(m) => Err(m),
            Ok(i) => if i <= 9 {
                Err("标注列不能占用源数据 A-I 列；请选择 J 或之后的空列"@)
            } else {
                Ok(i)
            },
        }
    }
}

/// The checks of `CheckOptions::validate` on what is known of the file.
pub fn check_source(
    source_exists: bool,
    extension: Option<String>,
    shown_path: &str,
    annotation_column: &str,
) -> (r: Result<usize, String>)
    ensures
        match options_outcome(
            source_exists,
            match extension {
                Some(e) => Some(e@),
                None => None,
            },
            shown_path@,
            annotation_column@,
        ) {
            Ok(i) => r matches Ok(k) && k == i,
            Err(m) => r matches Err(e) && e@ == m,
        },
{
    if !source_exists {
        let mut m = "源数据文件不存在：".to_owned();
        m.append(shown_path);
        return Err(m);
    }
    let xlsx = match &extension {
        Some(e) => eq_ignore_case_exec(&chars_of(e.as_str()), "xlsx"),
        None => false,
    };
    if !xlsx {
        return Err("源数据必须是 .xlsx 文件".to_owned());
    }
    let index = match column_label_to_index(annotation_column) {
        Ok(i) => i,
        Err(e) => {
            return Err(e);
        },
    };
    if index <= 9 {
        return Err("标注列不能占用源数据 A-I 列；请选择 J 或之后的空列".to_owned());
    }
    Ok(index)
}

impl CheckOptions {
    pub fn new(source_path: PathBuf) -> (r: CheckOptions)
        ensures
            r.source_path == source_path,
            r.annotation_column@ == DEFAULT_ANNOTATION_COLUMN@,
            r.annotate_skipped_rows,
    {
        CheckOptions {
            source_path,
            annotation_column: DEFAULT_ANNOTATION_COLUMN.to_owned(),
            annotate_skipped_rows: true,
        }
    }

    /// Checks the options, given whether the source file exists; returns
    /// the number of the annotation column. The outcome is that of
    /// `options_outcome` on the extension of the source path and the text
    /// it is shown by.
    pub fn validate(&self, source_exists: bool) -> (r: Result<usize, String>)
        ensures
            match options_outcome(
                source_exists,
                path_extension(self.source_path),
                shown_path(self.source_path),
                self.annotation_column@,
            ) {
                Ok(i) => r matches Ok(k) && k == i,
                Err(m) => r matches Err(e) && e@ == m,
            },
            !source_exists ==> r is Err,
            r matches Ok(i) ==> source_exists && (column_index(self.annotation_column@) matches Ok(n)
                && n == i) && i > 9,
            source_exists && column_index(self.annotation_column@) is Err ==> r is Err,
            source_exists && (column_index(self.annotation_column@) matches Ok(i) && i <= 9)
                ==> r is Err,
    {
        let shown = path_display_text(&self.source_path);
        let extension = path_extension_text(&self.source_path);
        check_source(source_exists, extension, shown.as_str(), self.annotation_column.as_str())
    }
}


/// The check of one data row.
#[derive(Clone, Debug)]
pub struct CheckRow {
    pub row_number: u32,
    pub customer_id: String,
    pub account_name: String,
    pub trusted_code: String,
    pub industry_path: String,
    pub matched_rule_code: Option<String>,
    pub matched_rule_name: Option<String>,
    pub original_value: String,
    pub calculated_size: Option<CompanySize>,
    pub status: RowStatus,
    pub annotation: String,
}

/// The check of a data row, by the text of its fields.
pub struct CheckRowView {
    pub row_number: u32,
    pub customer_id: Seq<char>,
    pub account_name: Seq<char>,
    pub trusted_code: Seq<char>,
    pub industry_path: Seq<char>,
    pub matched_rule_code: Option<Seq<char>>,
    pub matched_rule_name: Option<Seq<char>>,
    pub original_value: Seq<char>,
    pub calculated_size: Option<CompanySize>,
    pub status: RowStatus,
    pub annotation: Seq<char>,
}

pub open spec fn opt_text(o: Option<String>) -> Option<Seq<char>> {
    match o {
        Some(s) => Some(s@),
        None => None,
    }
}

impl View for CheckRow {
    type V = CheckRowView;

    open spec fn view(&self) -> CheckRowView {
        CheckRowView {
            row_number: self.row_number,
            customer_id: self.customer_id@,
            account_name: self.account_name@,
            trusted_code: self.trusted_code@,
            industry_path: self.industry_path@,
            matched_rule_code: opt_text(self.matched_rule_code),
            matched_rule_name: opt_text(self.matched_rule_name),
            original_value: self.original_value@,
            calculated_size: self.calculated_size,
            status: self.status,
            annotation: self.annotation@,
        }
    }
}

pub open spec fn check_row_views(rows: Seq<CheckRow>) -> Seq<CheckRowView> {
    rows.map_values(|r: CheckRow| r@)
}

/// The counts of the rows of a check by their status.
#[derive(Clone, Debug)]
pub struct AnalysisSummary {
    pub total_rows: usize,
    pub changed_rows: usize,
    pub unchanged_rows: usize,
    pub skipped_rows: usize,
}

impl Default for AnalysisSummary {
    fn default() -> (r: AnalysisSummary)
        ensures
            r.total_rows == 0,
            r.changed_rows == 0,
            r.unchanged_rows == 0,
            r.skipped_rows == 0,
    {
        AnalysisSummary { total_rows: 0, changed_rows: 0, unchanged_rows: 0, skipped_rows: 0 }
    }
}

/// The outcome of a check of a source worksheet.
#[derive(Clone, Debug)]
pub struct AnalysisReport {
    pub source_path: PathBuf,
    pub sheet_name: String,
    pub annotation_column: String,
    pub annotate_skipped_rows: bool,
    pub rows: Vec<CheckRow>,
    pub summary: AnalysisSummary,
}

/// The labels of metrics that lack a value, such as `营业收入(I列)`,
/// joined by `、`.
pub open spec fn missing_labels(ms: Seq<MetricKind>) -> Seq<char> {
    joined(ms.map_values(|m: MetricKind| missing_label_text(m)), "、"@)
}

/// The note for a metric that lacks a value, such as `营业收入(I列)`.
pub open spec fn missing_label_text(m: MetricKind) -> Seq<char> {
    m.spec_label() + "("@ + m.spec_source_column() + "列)"@
}

/// What the check decides for a row: the index of the rule applied, the
/// size it gives, the status and the note.
pub struct RowVerdict {
    pub rule: Option<int>,
    pub size: Option<CompanySize>,
    pub status: RowStatus,
    pub annotation: Seq<char>,
}

/// The decision for a row with industry code `code`, size as written
/// `original` and metric values `values`.
pub open spec fn row_verdict(
    leaves: Seq<CategoryView>,
    rules: RuleSet,
    code: Seq<char>,
    original: Seq<char>,
    values: MetricValues,
) -> RowVerdict {
    if trim_seq(code).len() == 0 {
        RowVerdict {
            rule: None,
            size: None,
            status: RowStatus::Skipped,
            annotation: "跳过：E列客户行业四级为空"@,
        }
    } else if resolved_leaf(leaves, code) is None {
        RowVerdict {
            rule: None,
            size: None,
            status: RowStatus::Skipped,
            annotation: "跳过：行业细类配置中未找到 "@ + code,
        }
    } else {
        match rules.pick(resolved_codes(leaves, code)) {
            None => RowVerdict {
                rule: None,
                size: None,
                status: RowStatus::Skipped,
                annotation: "跳过："@ + resolved_full_code(leaves, code) + " 未匹配到划型标准"@,
            },
            Some(k) => {
                let rule = rules.rules@[k];
                match rule.classification(values) {
                    Ok(size) => if CompanySize::parsed(original) != Some(size) {
                        RowVerdict {
                            rule: Some(k),
                            size: Some(size),
                            status: RowStatus::Changed,
                            annotation: "C列："@ + shown_or_empty(original) + " -> "@ + size.name()
                                + "（匹配标准 "@ + rule.industry_code@ + " "@ + rule.industry_name@
                                + "）"@,
                        }
                    } else {
                        RowVerdict {
                            rule: Some(k),
                            size: Some(size),
                            status: RowStatus::Unchanged,
                            annotation: Seq::empty(),
                        }
                    },
                    Err(ms) => RowVerdict {
                        rule: Some(k),
                        size: None,
                        status: RowStatus::Skipped,
                        annotation: "跳过：缺少"@ + missing_labels(ms),
                    },
                }
            },
        }
    }
}

/// The check of data row `number` (counted from 1, the header included).
pub open spec fn checked_row(
    leaves: Seq<CategoryView>,
    rules: RuleSet,
    row: Seq<Option<String>>,
    values: MetricValues,
    number: u32,
) -> CheckRowView {
    let code = cell_text(row, 4);
    let v = row_verdict(leaves, rules, code, cell_text(row, 2), values);
    CheckRowView {
        row_number: number,
        customer_id: cell_text(row, 0),
        account_name: cell_text(row, 1),
        trusted_code: code,
        industry_path: path_text(resolved_codes(leaves, code), resolved_names(leaves, code)),
        matched_rule_code: match v.rule {
            Some(k) => Some(rules.rules@[k].industry_code@),
            None => None,
        },
        matched_rule_name: match v.rule {
            Some(k) => Some(rules.rules@[k].industry_name@),
            None => None,
        },
        original_value: cell_text(row, 2),
        calculated_size: v.size,
        status: v.status,
        annotation: v.annotation,
    }
}

/// The rule a row is checked against, where its industry code resolves to
/// a leaf of the hierarchy: a rule that names one of the leaf's four level
/// codes, with a code at least as long as that of every other rule naming
/// one of them; where no rule names any level, the `*` rule, if any.
pub proof fn lemma_row_rule_is_longest(
    leaves: Seq<CategoryView>,
    rules: RuleSet,
    row: Seq<Option<String>>,
    values: MetricValues,
    number: u32,
)
    requires
        trim_seq(cell_text(row, 4)).len() > 0,
        resolved_leaf(leaves, cell_text(row, 4)) is Some,
    ensures
        ({
            let c = checked_row(leaves, rules, row, values, number);
            let codes = leaves[resolved_leaf(leaves, cell_text(row, 4))->0].codes;
            let rs = rules.rules@;
            &&& (exists|j: int| 0 <= j < rs.len() && names_code_of(#[trigger] rs[j], codes)) ==> exists|k: int|
                0 <= k < rs.len() && c.matched_rule_code == Some(rs[k].industry_code@)
                    && c.matched_rule_name == Some(rs[k].industry_name@)
                    && names_code_of(#[trigger] rs[k], codes) && forall|j: int|
                    0 <= j < rs.len() && names_code_of(#[trigger] rs[j], codes) ==> rule_code(
                        rs[j].industry_code@,
                    ).len() <= rule_code(rs[k].industry_code@).len()
            &&& (forall|j: int| 0 <= j < rs.len() ==> !names_code_of(#[trigger] rs[j], codes)) ==> (
                c.matched_rule_code is Some <==> exists|k: int| 0 <= k < rs.len() && rule_code(
                    (#[trigger] rs[k]).industry_code@,
                ) == "*"@)
            &&& (forall|j: int| 0 <= j < rs.len() ==> !names_code_of(#[trigger] rs[j], codes)) ==> (
                c.matched_rule_code matches Some(m) ==> exists|k: int| 0 <= k < rs.len() && m == (
                    #[trigger] rs[k]).industry_code@ && rule_code(rs[k].industry_code@) == "*"@)
        }),
{
    let code = cell_text(row, 4);
    let codes = leaves[resolved_leaf(leaves, code)->0].codes;
    assert(resolved_codes(leaves, code) == codes);
    lemma_pick_longest(rules, codes);
    let rs = rules.rules@;
    match rules.pick(codes) {
        Some(k) => {
            assert(names_code_of(rs[k], codes) || rule_code(rs[k].industry_code@) == "*"@);
        },
        None => {},
    }
}

/// A row whose every cell is empty.
pub open spec fn blank_row(row: Seq<Option<String>>) -> bool {
    forall|k: int| 0 <= k < row.len() ==> #[trigger] row[k] is None
}

/// The checks of the data rows among the first `n` rows; the first row is
/// the header, and blank rows are passed over.
pub open spec fn sheet_rows(
    leaves: Seq<CategoryView>,
    rules: RuleSet,
    rows: Seq<Vec<Option<String>>>,
    metrics: Seq<MetricValues>,
    n: int,
) -> Seq<CheckRowView>
    decreases n,
{
    if n <= 1 {
        Seq::empty()
    } else {
        let prev = sheet_rows(leaves, rules, rows, metrics, n - 1);
        if blank_row(rows[n - 1]@) {
            prev
        } else {
            prev.push(checked_row(leaves, rules, rows[n - 1]@, metrics[n - 1], n as u32))
        }
    }
}

/// The number of checked rows with status `s`.
pub open spec fn count_status(rows: Seq<CheckRowView>, s: RowStatus) -> nat
    decreases rows.len(),
{
    if rows.len() == 0 {
        0
    } else {
        count_status(rows.drop_last(), s) + if rows.last().status == s {
            1nat
        } else {
            0nat
        }
    }
}

/// The complaint about header cell `k` when it lacks `keyword`.
pub open spec fn header_problem(header: Seq<Option<String>>, k: int, keyword: Seq<char>) -> Seq<Seq<char>> {
    let actual = cell_text(header, k);
    if has_infix(actual, keyword) {
        Seq::empty()
    } else {
        seq![
            column_label((k + 1) as nat) + "列应包含“"@ + keyword + "”，实际为“"@ + shown_or_empty(actual)
                + "”"@,
        ]
    }
}

/// The complaints about a header row, column by column.
pub open spec fn header_problems(header: Seq<Option<String>>) -> Seq<Seq<char>> {
    header_problem(header, 1, "账号名称"@) + header_problem(header, 2, "贷款类型"@)
        + header_problem(header, 4, "客户行业四级"@) + header_problem(header, 6, "员工"@)
        + header_problem(header, 7, "资产总额"@) + header_problem(header, 8, "营业收入"@)
}

/// The outcome of the check of the header of a source worksheet.
pub open spec fn header_check(header: Option<Seq<Option<String>>>) -> Result<(), Seq<char>> {
    match header {
        None => Err("源数据工作表为空"@),
        Some(h) => if header_problems(h).len() > 0 {
            Err("源数据表头与预期不符："@ + joined(header_problems(h), "；"@))
        } else {
            Ok(())
        },
    }
}

fn add_header_problem(header: &Vec<Option<String>>, k: usize, keyword: &str, problems: &mut Vec<String>)
    requires
        k < 9,
    ensures
        string_views(final(problems)@) == string_views(old(problems)@) + header_problem(
            header@,
            k as int,
            keyword@,
        ),
{
    let actual = text_chars(header, k);
    if contains_str(&actual, keyword) {
        assert(string_views(problems@) =~= string_views(problems@) + Seq::<Seq<char>>::empty());
        return;
    }
    let mut m = column_index_to_label(k + 1);
    m.append("列应包含“");
    m.append(keyword);
    m.append("”，实际为“");
    let actual_text = string_of(&actual);
    let shown = display_or_empty(actual_text.as_str());
    m.append(shown.as_str());
    m.append("”");
    let ghost before = string_views(problems@);
    problems.push(m);
    assert(string_views(problems@) =~= before + seq![m@]);
}

/// Checks that the header row names the columns the check reads.
pub fn validate_source_headers(header: Option<&Vec<Option<String>>>) -> (r: Result<(), String>)
    ensures
        outcome(r) == header_check(
            match header {
                Some(h) => Some(h@),
                None => None,
            },
        ),
{
    let header = match header {
        Some(h) => h,
        None => {
            return Err("源数据工作表为空".to_owned());
        },
    };
    let mut problems: Vec<String> = Vec::new();
    add_header_problem(header, 1, "账号名称", &mut problems);
    add_header_problem(header, 2, "贷款类型", &mut problems);
    add_header_problem(header, 4, "客户行业四级", &mut problems);
    add_header_problem(header, 6, "员工", &mut problems);
    add_header_problem(header, 7, "资产总额", &mut problems);
    add_header_problem(header, 8, "营业收入", &mut problems);
    assert(string_views(problems@) =~= header_problems(header@));
    if problems.len() == 0 {
        Ok(())
    } else {
        let mut m = "源数据表头与预期不符：".to_owned();
        let joined_text = join_strings(&problems, "；");
        m.append(joined_text.as_str());
        Err(m)
    }
}


/// The note for a metric that lacks a value, such as `营业收入(I列)`.
fn missing_label(m: MetricKind) -> (r: String)
    ensures
        r@ == missing_label_text(m),
{
    let mut t = m.label().to_owned();
    t.append("(");
    t.append(m.source_column());
    t.append("列)");
    t
}

/// Checks one data row.
fn check_row(
    hierarchy: &HierarchyIndex,
    rules: &RuleSet,
    row: &Vec<Option<String>>,
    values: &MetricValues,
    number: u32,
) -> (r: CheckRow)
    ensures
        r@ == checked_row(hierarchy.leaves(), *rules, row@, *values, number),
{
    let ghost leaves = hierarchy.leaves();
    let customer_id = string_of(&text_chars(row, 0));
    let account_name = string_of(&text_chars(row, 1));
    let original_value = string_of(&text_chars(row, 2));
    let trusted_code = string_of(&text_chars(row, 4));
    let path = hierarchy.resolve(trusted_code.as_str());
    let industry_path = path.display();
    let ghost code = trusted_code@;
    let ghost v = row_verdict(leaves, *rules, code, original_value@, *values);
    let skipped_empty = trim_chars(&chars_of(trusted_code.as_str())).len() == 0;
    let (matched_rule_code, matched_rule_name, calculated_size, status, annotation): (
        Option<String>,
        Option<String>,
        Option<CompanySize>,
        RowStatus,
        String,
    ) = if skipped_empty {
        (None, None, None, RowStatus::Skipped, "跳过：E列客户行业四级为空".to_owned())
    } else if !path.found_in_reference {
        let mut m = "跳过：行业细类配置中未找到 ".to_owned();
        m.append(trusted_code.as_str());
        (None, None, None, RowStatus::Skipped, m)
    } else {
        match rules.find_for_codes(&path.codes) {
            Some(rule) => {
                let ghost k = rules.pick(resolved_codes(leaves, code))->0;
                assert(*rule == rules.rules@[k]);
                match rule.classify(values) {
                    Ok(size) => {
                        let changed = match CompanySize::parse(original_value.as_str()) {
                            Some(p) => p != size,
                            None => true,
                        };
                        if changed {
                            let mut m = "C列：".to_owned();
                            let shown = display_or_empty(original_value.as_str());
                            m.append(shown.as_str());
                            m.append(" -> ");
                            m.append(size.as_str());
                            m.append("（匹配标准 ");
                            m.append(rule.industry_code.as_str());
                            m.append(" ");
                            m.append(rule.industry_name.as_str());
                            m.append("）");
                            assert(m@ =~= v.annotation);
                            (
                                Some(rule.industry_code.clone()),
                                Some(rule.industry_name.clone()),
                                Some(size),
                                RowStatus::Changed,
                                m,
                            )
                        } else {
                            (
                                Some(rule.industry_code.clone()),
                                Some(rule.industry_name.clone()),
                                Some(size),
                                RowStatus::Unchanged,
                                String::new(),
                            )
                        }
                    },
                    Err(missing) => {
                        let mut parts: Vec<String> = Vec::new();
                        let mut i: usize = 0;
                        while i < missing.len()
                            invariant
                                i <= missing.len(),
                                parts.len() == i,
                                forall|j: int| 0 <= j < i ==> #[trigger] parts@[j]@ == missing_label_text(missing@[j]),
                            decreases missing.len() - i,
                        {
                            parts.push(missing_label(missing[i]));
                            i += 1;
                        }
                        assert(string_views(parts@) =~= missing@.map_values(|m: MetricKind| missing_label_text(m)));
                        let labels = join_strings(&parts, "、");
                        let mut m = "跳过：缺少".to_owned();
                        m.append(labels.as_str());
                        (
                            Some(rule.industry_code.clone()),
                            Some(rule.industry_name.clone()),
                            None,
                            RowStatus::Skipped,
                            m,
                        )
                    },
                }
            },
            None => {
                let mut m = "跳过：".to_owned();
                m.append(path.full_code.as_str());
                m.append(" 未匹配到划型标准");
                (None, None, None, RowStatus::Skipped, m)
            },
        }
    };
    let r = CheckRow {
        row_number: number,
        customer_id,
        account_name,
        trusted_code,
        industry_path,
        matched_rule_code,
        matched_rule_name,
        original_value,
        calculated_size,
        status,
        annotation,
    };
    r
}

/// Checks a source worksheet: first the options (given whether the source
/// file exists) and the standard, then the header, then each data row
/// that is not blank. `metrics` holds the values that each row gives for
/// the metrics of the standard.
pub fn analyze_sheet(
    options: &CheckOptions,
    source_exists: bool,
    hierarchy: &HierarchyIndex,
    rules: &RuleSet,
    sheet_name: String,
    rows: &Vec<Vec<Option<String>>>,
    metrics: &Vec<MetricValues>,
) -> (r: Result<AnalysisReport, String>)
    requires
        metrics.len() == rows.len(),
        rows.len() <= u32::MAX,
    ensures
        match options_outcome(
            source_exists,
            path_extension(options.source_path),
            shown_path(options.source_path),
            options.annotation_column@,
        ) {
            Err(m) => r matches Err(e) && e@ == m,
            Ok(_) => match rules.check() {
                Err(m) => r matches Err(e) && e@ == m,
                Ok(()) => match header_check(if rows.len() == 0 { None } else { Some(rows@[0]@) }) {
            Err(m) => r matches Err(e) && e@ == m,
            Ok(()) => r matches Ok(report) && {
                let checked = sheet_rows(hierarchy.leaves(), *rules, rows@, metrics@, rows.len() as int);
                &&& report.source_path == options.source_path
                &&& report.sheet_name == sheet_name
                &&& report.annotation_column@ == upper_seq(trim_seq(options.annotation_column@))
                &&& report.annotate_skipped_rows == options.annotate_skipped_rows
                &&& check_row_views(report.rows@) == checked
                &&& report.summary.total_rows == checked.len()
                &&& report.summary.changed_rows == count_status(checked, RowStatus::Changed)
                &&& report.summary.unchanged_rows == count_status(checked, RowStatus::Unchanged)
                &&& report.summary.skipped_rows == count_status(checked, RowStatus::Skipped)
            },
                },
            },
        },
{
    match options.validate(source_exists) {
        Ok(_) => {},
        Err(e) => {
            return Err(e);
        },
    }
    match rules.validate() {
        Ok(()) => {},
        Err(e) => {
            return Err(e);
        },
    }
    let header = if rows.len() == 0 {
        None
    } else {
        Some(&rows[0])
    };
    match validate_source_headers(header) {
        Ok(()) => {},
        Err(e) => {
            return Err(e);
        },
    }
    let ghost leaves = hierarchy.leaves();
    let mut checked: Vec<CheckRow> = Vec::new();
    let mut summary = AnalysisSummary::default();
    assert(check_row_views(checked@) =~= Seq::<CheckRowView>::empty());
    let mut i: usize = 1;
    while i < rows.len()
        invariant
            metrics.len() == rows.len(),
            rows.len() <= u32::MAX,
            1 <= i <= rows.len(),
            check_row_views(checked@) == sheet_rows(leaves, *rules, rows@, metrics@, i as int),
            checked.len() < i,
            summary.total_rows == checked.len(),
            summary.changed_rows == count_status(check_row_views(checked@), RowStatus::Changed),
            summary.unchanged_rows == count_status(check_row_views(checked@), RowStatus::Unchanged),
            summary.skipped_rows == count_status(check_row_views(checked@), RowStatus::Skipped),
            summary.changed_rows + summary.unchanged_rows + summary.skipped_rows == summary.total_rows,
            leaves == hierarchy.leaves(),
        decreases rows.len() - i,
    {
        let row = &rows[i];
        let mut blank = true;
        let mut k: usize = 0;
        while k < row.len()
            invariant
                k <= row.len(),
                blank == forall|j: int| 0 <= j < k ==> #[trigger] row@[j] is None,
            decreases row.len() - k,
        {
            if row[k].is_some() {
                blank = false;
            }
            k += 1;
        }
        if !blank {
            let number = (i + 1) as u32;
            let c = check_row(hierarchy, rules, row, &metrics[i], number);
            let ghost before = check_row_views(checked@);
            let st = c.status;
            checked.push(c);
            assert(check_row_views(checked@) =~= before.push(c@));
            assert(check_row_views(checked@).drop_last() =~= before);
            summary.total_rows = summary.total_rows + 1;
            match st {
                RowStatus::Changed => {
                    summary.changed_rows = summary.changed_rows + 1;
                },
                RowStatus::Unchanged => {
                    summary.unchanged_rows = summary.unchanged_rows + 1;
                },
                RowStatus::Skipped => {
                    summary.skipped_rows = summary.skipped_rows + 1;
                },
            }
        }
        i += 1;
    }
    let annotation_column = string_of(&upper_chars(&trim_chars(&chars_of(options.annotation_column.as_str()))));
    Ok(AnalysisReport {
        source_path: options.source_path.clone(),
        sheet_name,
        annotation_column,
        annotate_skipped_rows: options.annotate_skipped_rows,
        rows: checked,
        summary,
    })
}


/// The file name of the default output: the source's stem, or `核对结果`
/// where it has none, followed by `_核对结果.xlsx`.
pub open spec fn output_file_name(stem: Option<Seq<char>>) -> Seq<char> {
    match stem {
        Some(s) => s + "_核对结果.xlsx"@,
        None => "核对结果"@ + "_核对结果.xlsx"@,
    }
}

pub fn output_file_name_of(stem: Option<String>) -> (r: String)
    ensures
        r@ == output_file_name(match stem {
            Some(s) => Some(s@),
            None => None,
        }),
{
    let mut name = match stem {
        Some(s) => s,
        None => "核对结果".to_owned(),
    };
    name.append("_核对结果.xlsx");
    name
}

/// The output next to the source, named after it (see
/// `output_file_name`): joined to the source's parent, or to `.` where the
/// source has none.
pub fn default_output_path(source_path: &Path) -> (r: PathBuf)
    ensures
        r == joined_path(
            match parent_path(source_path) {
                Some(p) => p,
                None => new_path("."@),
            },
            output_file_name(path_stem(source_path)),
        ),
{
    let parent = match path_parent(source_path) {
        Some(p) => p,
        None => static_path("."),
    };
    let name = output_file_name_of(path_stem_text(source_path));
    path_join(parent, name.as_str())
}


/// Every checked row is counted once: the changed, unchanged and skipped
/// rows add up to all rows.
pub proof fn lemma_counts_add_up(rows: Seq<CheckRowView>)
    ensures
        count_status(rows, RowStatus::Changed) + count_status(rows, RowStatus::Unchanged) + count_status(
            rows,
            RowStatus::Skipped,
        ) == rows.len(),
    decreases rows.len(),
{
    if rows.len() > 0 {
        lemma_counts_add_up(rows.drop_last());
    }
}

/// A row is changed exactly when the standard gives it a size other than
/// the one written in column C, unchanged exactly when it gives the same,
/// and skipped exactly when it gives none.
pub proof fn lemma_row_status(
    leaves: Seq<CategoryView>,
    rules: RuleSet,
    row: Seq<Option<String>>,
    values: MetricValues,
    number: u32,
)
    ensures
        ({
            let v = checked_row(leaves, rules, row, values, number);
            &&& v.status == RowStatus::Changed <==> (v.calculated_size matches Some(s)
                && CompanySize::parsed(v.original_value) != Some(s))
            &&& v.status == RowStatus::Unchanged <==> (v.calculated_size matches Some(s)
                && CompanySize::parsed(v.original_value) == Some(s))
            &&& v.status == RowStatus::Skipped <==> v.calculated_size is None
        }),
{
}

/// Every changed row of a check has the size the standard gives it.
pub proof fn lemma_changed_rows_have_size(
    leaves: Seq<CategoryView>,
    rules: RuleSet,
    rows: Seq<Vec<Option<String>>>,
    metrics: Seq<MetricValues>,
    n: int,
)
    ensures
        forall|k: int| 0 <= k < sheet_rows(leaves, rules, rows, metrics, n).len() && (
        #[trigger] sheet_rows(leaves, rules, rows, metrics, n)[k]).status == RowStatus::Changed
            ==> sheet_rows(leaves, rules, rows, metrics, n)[k].calculated_size is Some,
    decreases n,
{
    if n > 1 {
        lemma_changed_rows_have_size(leaves, rules, rows, metrics, n - 1);
        lemma_row_status(leaves, rules, rows[n - 1]@, metrics[n - 1], n as u32);
        let prev = sheet_rows(leaves, rules, rows, metrics, n - 1);
        let cur = sheet_rows(leaves, rules, rows, metrics, n);
        assert forall|k: int| 0 <= k < cur.len() && (#[trigger] cur[k]).status == RowStatus::Changed implies cur[k].calculated_size is Some by {
            if k < prev.len() {
                assert(cur[k] == prev[k]);
            }
        }
    }
}

} // verus!
