//! The decisions behind the screens of the application: which rows, rules
//! and categories a search shows, and how an edit or a removal changes the
//! standard and the hierarchy.

use vstd::prelude::*;
use std::path::PathBuf;
use crate::paths::{
    no_separator, path_extension, path_extension_text, path_from_text, path_of, path_set_extension,
    path_with_extension,
};
use crate::checker::{check_row_views, AnalysisReport, CheckRow, CheckRowView, RowStatus};
use crate::hierarchy::{
    categories_check, category_code, category_views, normalize_category_code, CategorySet,
    CategoryView, IndustryCategory,
};
use crate::model::{
    normalize_rule_code, rule_code, rule_views, rules_check, IndustryRule, MetricKind, MetricRule,
    RuleSet, RuleView,
};
use crate::text::{
    chars_of, eq_ignore_case, eq_ignore_case_exec, has_infix, has_infix_exec, is_ascii_alpha,
    kept, lemma_kept_push, upper_chars, upper_seq, lowercase, outcome, string_of, string_views,
    to_lowercase, trim_chars, trim_seq, decimal, decimal_string, message2, message3,
};

verus! {

/// Which rows of a report the preview shows.
#[derive(Clone, Copy, Debug, PartialEq, Eq, Structural)]
pub enum RowFilter {
    All,
    Changed,
    Unchanged,
    Skipped,
}

impl RowFilter {
    /// Every filter, in the order the preview offers them.
    pub const ALL: [RowFilter; 4] = [RowFilter::All, RowFilter::Changed, RowFilter::Unchanged, RowFilter::Skipped];

    pub open spec fn spec_label(self) -> Seq<char> {
        match self {
            RowFilter::All => "全部"@,
            RowFilter::Changed => "待修改"@,
            RowFilter::Unchanged => "一致"@,
            RowFilter::Skipped => "已跳过"@,
        }
    }

    /// The filter lets rows with status `s` through.
    pub open spec fn admits(self, s: RowStatus) -> bool {
        match self {
            RowFilter::All => true,
            RowFilter::Changed => s == RowStatus::Changed,
            RowFilter::Unchanged => s == RowStatus::Unchanged,
            RowFilter::Skipped => s == RowStatus::Skipped,
        }
    }

    pub fn label(self) -> (r: &'static str)
        ensures
            r@ == self.spec_label(),
    {
        match self {
            RowFilter::All => "全部",
            RowFilter::Changed => "待修改",
            RowFilter::Unchanged => "一致",
            RowFilter::Skipped => "已跳过",
        }
    }

    pub fn matches(self, status: RowStatus) -> (r: bool)
        ensures
            r == self.admits(status),
    {
        match self {
            RowFilter::All => true,
            RowFilter::Changed => status == RowStatus::Changed,
            RowFilter::Unchanged => status == RowStatus::Unchanged,
            RowFilter::Skipped => status == RowStatus::Skipped,
        }
    }
}

/// `query` occurs in the lower-case form of one of `texts`.
pub open spec fn any_contains(texts: Seq<Seq<char>>, query: Seq<char>) -> bool {
    exists|i: int| 0 <= i < texts.len() && has_infix(lowercase(#[trigger] texts[i]), query)
}

fn any_text_contains(texts: &Vec<String>, query: &Vec<char>) -> (r: bool)
    ensures
        r == any_contains(string_views(texts@), query@),
{
    let ghost ts = string_views(texts@);
    let mut k: usize = 0;
    while k < texts.len()
        invariant
            ts == string_views(texts@),
            k <= texts.len(),
            forall|j: int| 0 <= j < k ==> !has_infix(lowercase(#[trigger] ts[j]), query@),
        decreases texts.len() - k,
    {
        let lower = to_lowercase(texts[k].as_str());
        if has_infix_exec(&chars_of(lower.as_str()), query) {
            assert(has_infix(lowercase(ts[k as int]), query@));
            return true;
        }
        k += 1;
    }
    false
}

pub open spec fn text_or_empty(o: Option<Seq<char>>) -> Seq<char> {
    match o {
        Some(t) => t,
        None => Seq::empty(),
    }
}

/// The texts of a checked row that a search looks through.
pub open spec fn row_texts(row: CheckRowView) -> Seq<Seq<char>> {
    seq![
        row.customer_id,
        row.account_name,
        row.trusted_code,
        row.industry_path,
        text_or_empty(row.matched_rule_code),
        text_or_empty(row.matched_rule_name),
        row.original_value,
        match row.calculated_size {
            Some(s) => s.name(),
            None => Seq::empty(),
        },
        row.status.spec_label(),
        row.annotation,
    ]
}

/// A search, given in lower case, finds the row; every row matches an
/// empty search.
pub open spec fn row_matches(row: CheckRowView, query: Seq<char>) -> bool {
    query.len() == 0 || any_contains(row_texts(row), query)
}

fn text_of(o: &Option<String>) -> (r: String)
    ensures
        r@ == text_or_empty(match o {
            Some(s) => Some(s@),
            None => None,
        }),
{
    match o {
        Some(s) => s.clone(),
        None => String::new(),
    }
}

pub fn row_matches_query(row: &CheckRow, query: &str) -> (r: bool)
    ensures
        r == row_matches(row@, query@),
{
    let q = chars_of(query);
    if q.len() == 0 {
        return true;
    }
    let calculated = match row.calculated_size {
        Some(s) => s.as_str().to_owned(),
        None => String::new(),
    };
    let texts: Vec<String> = vec![
        row.customer_id.clone(),
        row.account_name.clone(),
        row.trusted_code.clone(),
        row.industry_path.clone(),
        text_of(&row.matched_rule_code),
        text_of(&row.matched_rule_name),
        row.original_value.clone(),
        calculated,
        row.status.label().to_owned(),
        row.annotation.clone(),
    ];
    assert(string_views(texts@) =~= row_texts(row@));
    any_text_contains(&texts, &q)
}

/// The texts of a rule that a search looks through: its code, its name and
/// the names of its metrics.
pub open spec fn rule_texts(rule: RuleView) -> Seq<Seq<char>> {
    seq![rule.code, rule.name] + rule.metrics.map_values(|m: MetricRule| m.metric.spec_label())
}

pub open spec fn rule_matches(rule: RuleView, query: Seq<char>) -> bool {
    query.len() == 0 || any_contains(rule_texts(rule), query)
}

pub fn rule_matches_query(rule: &IndustryRule, query: &str) -> (r: bool)
    ensures
        r == rule_matches(rule@, query@),
{
    let q = chars_of(query);
    if q.len() == 0 {
        return true;
    }
    let mut texts: Vec<String> = vec![rule.industry_code.clone(), rule.industry_name.clone()];
    let mut k: usize = 0;
    while k < rule.metrics.len()
        invariant
            k <= rule.metrics.len(),
            texts.len() == k + 2,
            texts@[0]@ == rule.industry_code@,
            texts@[1]@ == rule.industry_name@,
            forall|j: int| 0 <= j < k ==> #[trigger] texts@[j + 2]@ == rule.metrics@[j].metric.spec_label(),
        decreases rule.metrics.len() - k,
    {
        texts.push(rule.metrics[k].metric.label().to_owned());
        k += 1;
    }
    assert(string_views(texts@) =~= rule_texts(rule@)) by {
        assert forall|j: int| 2 <= j < texts.len() implies #[trigger] string_views(texts@)[j] == rule_texts(rule@)[j] by {
            assert(texts@[(j - 2) + 2]@ == rule.metrics@[j - 2].metric.spec_label());
        }
    }
    any_text_contains(&texts, &q)
}

/// The texts of a category that a search looks through: the code and the
/// name of each level.
pub open spec fn category_texts(c: CategoryView) -> Seq<Seq<char>> {
    seq![
        c.codes[0],
        c.names[0],
        c.codes[1],
        c.names[1],
        c.codes[2],
        c.names[2],
        c.codes[3],
        c.names[3],
    ]
}

pub open spec fn category_matches(c: CategoryView, query: Seq<char>) -> bool {
    query.len() == 0 || any_contains(category_texts(c), query)
}

pub fn category_matches_query(category: &IndustryCategory, query: &str) -> (r: bool)
    ensures
        r == category_matches(category@, query@),
{
    let q = chars_of(query);
    if q.len() == 0 {
        return true;
    }
    let texts: Vec<String> = vec![
        category.level1_code.clone(),
        category.level1_name.clone(),
        category.level2_code.clone(),
        category.level2_name.clone(),
        category.level3_code.clone(),
        category.level3_name.clone(),
        category.level4_code.clone(),
        category.level4_name.clone(),
    ];
    assert(string_views(texts@) =~= category_texts(category@));
    any_text_contains(&texts, &q)
}

/// The search text as the screens compare it: trimmed, in lower case.
pub open spec fn search_query(search: Seq<char>) -> Seq<char> {
    lowercase(trim_seq(search))
}

pub fn query_of(search: &str) -> (r: String)
    ensures
        r@ == search_query(search@),
{
    let t = string_of(&trim_chars(&chars_of(search)));
    to_lowercase(t.as_str())
}

pub open spec fn index_ints(v: Seq<usize>) -> Seq<int> {
    v.map_values(|k: usize| k as int)
}

/// The indices, among the first `n`, of the rows that the filter and the
/// search let through.
pub open spec fn shown_rows(rows: Seq<CheckRowView>, filter: RowFilter, query: Seq<char>, n: int) -> Seq<int>
    decreases n,
{
    if n <= 0 {
        Seq::empty()
    } else if filter.admits(rows[n - 1].status) && row_matches(rows[n - 1], query) {
        shown_rows(rows, filter, query, n - 1).push(n - 1)
    } else {
        shown_rows(rows, filter, query, n - 1)
    }
}

/// The rows of a report that the preview shows, by index.
pub fn visible_rows(report: &AnalysisReport, filter: RowFilter, search: &str) -> (r: Vec<usize>)
    ensures
        index_ints(r@) == shown_rows(
            check_row_views(report.rows@),
            filter,
            search_query(search@),
            report.rows@.len() as int,
        ),
{
    let ghost rows = check_row_views(report.rows@);
    let query = query_of(search);
    let mut r: Vec<usize> = Vec::new();
    let mut k: usize = 0;
    while k < report.rows.len()
        invariant
            rows == check_row_views(report.rows@),
            query@ == search_query(search@),
            k <= report.rows.len(),
            index_ints(r@) == shown_rows(rows, filter, query@, k as int),
        decreases report.rows.len() - k,
    {
        let row = &report.rows[k];
        assert(rows[k as int] == row@);
        if filter.matches(row.status) && row_matches_query(row, query.as_str()) {
            let ghost before = index_ints(r@);
            r.push(k);
            assert(index_ints(r@) =~= before.push(k as int));
        }
        k += 1;
    }
    r
}

/// The indices, among the first `n`, of the rules that the search finds.
pub open spec fn shown_rules(rules: Seq<RuleView>, query: Seq<char>, n: int) -> Seq<int>
    decreases n,
{
    if n <= 0 {
        Seq::empty()
    } else if rule_matches(rules[n - 1], query) {
        shown_rules(rules, query, n - 1).push(n - 1)
    } else {
        shown_rules(rules, query, n - 1)
    }
}

/// The rules that the rules table shows, by index.
pub fn visible_rules(rules: &RuleSet, search: &str) -> (r: Vec<usize>)
    ensures
        index_ints(r@) == shown_rules(rule_views(rules.rules@), search_query(search@), rules.rules@.len() as int),
{
    let ghost vs = rule_views(rules.rules@);
    let query = query_of(search);
    let mut r: Vec<usize> = Vec::new();
    let mut k: usize = 0;
    while k < rules.rules.len()
        invariant
            vs == rule_views(rules.rules@),
            query@ == search_query(search@),
            k <= rules.rules.len(),
            index_ints(r@) == shown_rules(vs, query@, k as int),
        decreases rules.rules.len() - k,
    {
        assert(vs[k as int] == rules.rules@[k as int]@);
        if rule_matches_query(&rules.rules[k], query.as_str()) {
            let ghost before = index_ints(r@);
            r.push(k);
            assert(index_ints(r@) =~= before.push(k as int));
        }
        k += 1;
    }
    r
}

/// The indices, among the first `n`, of the categories that the search
/// finds.
pub open spec fn shown_categories(cats: Seq<CategoryView>, query: Seq<char>, n: int) -> Seq<int>
    decreases n,
{
    if n <= 0 {
        Seq::empty()
    } else if category_matches(cats[n - 1], query) {
        shown_categories(cats, query, n - 1).push(n - 1)
    } else {
        shown_categories(cats, query, n - 1)
    }
}

/// The categories that the categories table shows, by index.
pub fn visible_categories(categories: &CategorySet, search: &str) -> (r: Vec<usize>)
    ensures
        index_ints(r@) == shown_categories(
            category_views(categories.categories@),
            search_query(search@),
            categories.categories@.len() as int,
        ),
{
    let ghost vs = category_views(categories.categories@);
    let query = query_of(search);
    let mut r: Vec<usize> = Vec::new();
    let mut k: usize = 0;
    while k < categories.categories.len()
        invariant
            vs == category_views(categories.categories@),
            query@ == search_query(search@),
            k <= categories.categories.len(),
            index_ints(r@) == shown_categories(vs, query@, k as int),
        decreases categories.categories.len() - k,
    {
        assert(vs[k as int] == categories.categories@[k as int]@);
        if category_matches_query(&categories.categories[k], query.as_str()) {
            let ghost before = index_ints(r@);
            r.push(k);
            assert(index_ints(r@) =~= before.push(k as int));
        }
        k += 1;
    }
    r
}


/// Replacing the category with `original` by `draft` renames the parent
/// of level `l` (0 to 2) that both share.
pub open spec fn renames_parent(draft: CategoryView, original: Option<CategoryView>, l: int) -> bool {
    match original {
        Some(o) => o.codes[l] == draft.codes[l] && o.names[l] != draft.names[l],
        None => false,
    }
}

/// The first of the first `n` categories whose code at level `l` is `code`.
pub open spec fn first_with_code(cats: Seq<CategoryView>, l: int, code: Seq<char>, n: int) -> Option<int>
    decreases n,
{
    if n <= 0 {
        None
    } else {
        match first_with_code(cats, l, code, n - 1) {
            Some(i) => Some(i),
            None => if cats[n - 1].codes[l] == code {
                Some(n - 1)
            } else {
                None
            },
        }
    }
}

/// The name of level `l` of a category once an edit renames its parent.
pub open spec fn harmonized_name(c: CategoryView, draft: CategoryView, original: Option<CategoryView>, l: int) -> Seq<char> {
    if renames_parent(draft, original, l) && c.codes[l] == draft.codes[l] {
        draft.names[l]
    } else {
        c.names[l]
    }
}

/// A category of the list once the edit's renames of parents apply.
pub open spec fn harmonized(c: CategoryView, draft: CategoryView, original: Option<CategoryView>) -> CategoryView {
    CategoryView {
        id: c.id,
        codes: c.codes,
        names: seq![
            harmonized_name(c, draft, original, 0),
            harmonized_name(c, draft, original, 1),
            harmonized_name(c, draft, original, 2),
            c.names[3],
        ],
    }
}

/// The name of level `l` of the draft: where the edit does not rename the
/// parent, the name the list already gives to the parent's code.
pub open spec fn draft_name(cats: Seq<CategoryView>, draft: CategoryView, original: Option<CategoryView>, l: int) -> Seq<char> {
    let found = first_with_code(cats, l, draft.codes[l], cats.len() as int);
    if !renames_parent(draft, original, l) && found is Some {
        cats[found->0].names[l]
    } else {
        draft.names[l]
    }
}

/// The draft once its parents take the names the list gives them.
pub open spec fn harmonized_draft(cats: Seq<CategoryView>, draft: CategoryView, original: Option<CategoryView>) -> CategoryView {
    CategoryView {
        id: draft.id,
        codes: draft.codes,
        names: seq![
            draft_name(cats, draft, original, 0),
            draft_name(cats, draft, original, 1),
            draft_name(cats, draft, original, 2),
            draft.names[3],
        ],
    }
}

/// Lists that agree on the codes of level `l` find the same first code.
pub proof fn lemma_first_with_code_codes(a: Seq<CategoryView>, b: Seq<CategoryView>, l: int, code: Seq<char>, n: int)
    requires
        0 <= n <= a.len(),
        a.len() == b.len(),
        forall|i: int| 0 <= i < a.len() ==> #[trigger] a[i].codes[l] == b[i].codes[l],
    ensures
        first_with_code(a, l, code, n) == first_with_code(b, l, code, n),
    decreases n,
{
    if n > 0 {
        lemma_first_with_code_codes(a, b, l, code, n - 1);
        assert(a[n - 1].codes[l] == b[n - 1].codes[l]);
    }
}

/// The first with a code has that code.
pub proof fn lemma_first_with_code_found(cats: Seq<CategoryView>, l: int, code: Seq<char>, n: int)
    requires
        0 <= n <= cats.len(),
    ensures
        first_with_code(cats, l, code, n) matches Some(i) ==> 0 <= i < n && cats[i].codes[l] == code,
    decreases n,
{
    if n > 0 {
        lemma_first_with_code_found(cats, l, code, n - 1);
    }
}

fn parent_code(c: &IndustryCategory, l: usize) -> (r: &String)
    requires
        l < 3,
    ensures
        r@ == c@.codes[l as int],
{
    if l == 0 {
        &c.level1_code
    } else if l == 1 {
        &c.level2_code
    } else {
        &c.level3_code
    }
}

fn parent_name(c: &IndustryCategory, l: usize) -> (r: &String)
    requires
        l < 3,
    ensures
        r@ == c@.names[l as int],
{
    if l == 0 {
        &c.level1_name
    } else if l == 1 {
        &c.level2_name
    } else {
        &c.level3_name
    }
}

/// A copy of `c` whose name of level `l` is `name`.
fn with_parent_name(c: &IndustryCategory, l: usize, name: &String) -> (r: IndustryCategory)
    requires
        l < 3,
    ensures
        r@ == (CategoryView { id: c@.id, codes: c@.codes, names: c@.names.update(l as int, name@) }),
{
    let mut r = c.copied();
    if l == 0 {
        r.level1_name = name.clone();
    } else if l == 1 {
        r.level2_name = name.clone();
    } else {
        r.level3_name = name.clone();
    }
    assert(r@.names =~= c@.names.update(l as int, name@));
    r
}

fn same_text(a: &String, b: &String) -> (r: bool)
    ensures
        r == (a@ == b@),
{
    crate::text::chars_eq(&chars_of(a.as_str()), &chars_of(b.as_str()))
}

/// Applies the renames of level `l` of an edit.
fn harmonize_level(
    categories: &mut Vec<IndustryCategory>,
    draft: &mut IndustryCategory,
    original: Option<&IndustryCategory>,
    l: usize,
)
    requires
        l < 3,
    ensures
        final(categories)@.len() == old(categories)@.len(),
        forall|i: int| 0 <= i < old(categories)@.len() ==> #[trigger] final(categories)@[i]@ == (CategoryView {
            id: old(categories)@[i]@.id,
            codes: old(categories)@[i]@.codes,
            names: old(categories)@[i]@.names.update(
                l as int,
                harmonized_name(
                    old(categories)@[i]@,
                    old(draft)@,
                    match original {
                        Some(o) => Some(o@),
                        None => None,
                    },
                    l as int,
                ),
            ),
        }),
        final(draft)@ == (CategoryView {
            id: old(draft)@.id,
            codes: old(draft)@.codes,
            names: old(draft)@.names.update(
                l as int,
                draft_name(
                    category_views(old(categories)@),
                    old(draft)@,
                    match original {
                        Some(o) => Some(o@),
                        None => None,
                    },
                    l as int,
                ),
            ),
        }),
{
    let ghost orig = match original {
        Some(o) => Some(o@),
        None => None,
    };
    let ghost cats0 = categories@;
    let ghost d0 = draft@;
    let draft_code = parent_code(draft, l).clone();
    let draft_name_text = parent_name(draft, l).clone();
    let renames = match original {
        Some(o) => same_text(parent_code(o, l), &draft_code) && !same_text(parent_name(o, l), &draft_name_text),
        None => false,
    };
    assert(renames == renames_parent(d0, orig, l as int));
    if renames {
        let mut k: usize = 0;
        while k < categories.len()
            invariant
                l < 3,
                renames_parent(d0, orig, l as int),
                draft_code@ == d0.codes[l as int],
                draft_name_text@ == d0.names[l as int],
                categories@.len() == cats0.len(),
                k <= categories.len(),
                forall|i: int| 0 <= i < k ==> #[trigger] categories@[i]@ == (CategoryView {
                    id: cats0[i]@.id,
                    codes: cats0[i]@.codes,
                    names: cats0[i]@.names.update(l as int, harmonized_name(cats0[i]@, d0, orig, l as int)),
                }),
                forall|i: int| k <= i < categories@.len() ==> #[trigger] categories@[i] == cats0[i],
            decreases categories.len() - k,
        {
            if same_text(parent_code(&categories[k], l), &draft_code) {
                let updated = with_parent_name(&categories[k], l, &draft_name_text);
                categories.set(k, updated);
            } else {
                assert(cats0[k as int]@.names.update(l as int, cats0[k as int]@.names[l as int]) =~= cats0[k as int]@.names);
            }
            k += 1;
        }
        assert(draft_name(category_views(cats0), d0, orig, l as int) == d0.names[l as int]);
        assert(d0.names.update(l as int, d0.names[l as int]) =~= d0.names);
    } else {
        let ghost vs = category_views(cats0);
        let mut k: usize = 0;
        let mut found: Option<usize> = None;
        while k < categories.len() && found.is_none()
            invariant
                l < 3,
                categories@ == cats0,
                vs == category_views(cats0),
                draft_code@ == d0.codes[l as int],
                k <= categories.len(),
                match found {
                    Some(j) => first_with_code(vs, l as int, d0.codes[l as int], cats0.len() as int) == Some(j as int),
                    None => first_with_code(vs, l as int, d0.codes[l as int], k as int) is None,
                },
            decreases categories.len() - k,
        {
            assert(vs[k as int] == categories@[k as int]@);
            if same_text(parent_code(&categories[k], l), &draft_code) {
                assert(first_with_code(vs, l as int, d0.codes[l as int], k + 1) == Some(k as int));
                proof {
                    lemma_first_stays(vs, l as int, d0.codes[l as int], k + 1, cats0.len() as int);
                }
                found = Some(k);
            }
            k += 1;
        }
        match found {
            Some(j) => {
                proof {
                    lemma_first_with_code_found(vs, l as int, d0.codes[l as int], cats0.len() as int);
                }
                let name = parent_name(&categories[j], l).clone();
                assert(vs[j as int] == categories@[j as int]@);
                let updated = with_parent_name(draft, l, &name);
                *draft = updated;
            },
            None => {
                assert(d0.names.update(l as int, d0.names[l as int]) =~= d0.names);
            },
        }
        assert forall|i: int| 0 <= i < cats0.len() implies #[trigger] categories@[i]@ == (CategoryView {
            id: cats0[i]@.id,
            codes: cats0[i]@.codes,
            names: cats0[i]@.names.update(l as int, harmonized_name(cats0[i]@, d0, orig, l as int)),
        }) by {
            assert(cats0[i]@.names.update(l as int, cats0[i]@.names[l as int]) =~= cats0[i]@.names);
        }
    }
}

/// Once a first code is found among the first `n`, more categories keep it.
pub proof fn lemma_first_stays(cats: Seq<CategoryView>, l: int, code: Seq<char>, n: int, m: int)
    requires
        0 <= n <= m,
        first_with_code(cats, l, code, n) is Some,
    ensures
        first_with_code(cats, l, code, m) == first_with_code(cats, l, code, n),
    decreases m - n,
{
    if m > n {
        lemma_first_stays(cats, l, code, n, m - 1);
    }
}

/// Keeps the names of parents consistent when a category is saved: an edit
/// that renames the parent it shares with the category it replaces renames
/// that parent in every category; otherwise the draft takes the names that
/// the list already gives to its parents' codes.
pub fn harmonize_parent_names(
    categories: &mut Vec<IndustryCategory>,
    draft: &mut IndustryCategory,
    original: Option<&IndustryCategory>,
)
    ensures
        final(categories)@.len() == old(categories)@.len(),
        forall|i: int| 0 <= i < old(categories)@.len() ==> #[trigger] final(categories)@[i]@ == harmonized(
            old(categories)@[i]@,
            old(draft)@,
            match original {
                Some(o) => Some(o@),
                None => None,
            },
        ),
        final(draft)@ == harmonized_draft(
            category_views(old(categories)@),
            old(draft)@,
            match original {
                Some(o) => Some(o@),
                None => None,
            },
        ),
{
    let ghost orig = match original {
        Some(o) => Some(o@),
        None => None,
    };
    let ghost cats0 = categories@;
    let ghost d0 = draft@;
    let ghost vs0 = category_views(cats0);
    harmonize_level(categories, draft, original, 0);
    let ghost cats1 = categories@;
    let ghost d1 = draft@;
    proof {
        assert forall|i: int| 0 <= i < cats1.len() implies #[trigger] category_views(cats1)[i].codes[1] == vs0[i].codes[1] by {
            assert(cats1[i]@ == category_views(cats1)[i]);
        }
        lemma_first_with_code_codes(category_views(cats1), vs0, 1, d0.codes[1], cats0.len() as int);
        lemma_first_with_code_found(vs0, 1, d0.codes[1], cats0.len() as int);
    }
    harmonize_level(categories, draft, original, 1);
    let ghost cats2 = categories@;
    proof {
        assert forall|i: int| 0 <= i < cats2.len() implies #[trigger] category_views(cats2)[i].codes[2] == vs0[i].codes[2] by {
            assert(cats2[i]@ == category_views(cats2)[i]);
            assert(cats1[i]@ == category_views(cats1)[i]);
        }
        lemma_first_with_code_codes(category_views(cats2), vs0, 2, d0.codes[2], cats0.len() as int);
        lemma_first_with_code_found(vs0, 2, d0.codes[2], cats0.len() as int);
    }
    harmonize_level(categories, draft, original, 2);
    proof {
        assert forall|i: int| 0 <= i < cats0.len() implies #[trigger] categories@[i]@ == harmonized(cats0[i]@, d0, orig) by {
            assert(categories@[i]@.names =~= harmonized(cats0[i]@, d0, orig).names);
        }
        assert(draft@.names =~= harmonized_draft(vs0, d0, orig).names);
    }
}


/// The first of the first `n` rules with id `id`.
pub open spec fn first_rule_with_id(rules: Seq<RuleView>, id: u64, n: int) -> Option<int>
    decreases n,
{
    if n <= 0 {
        None
    } else {
        match first_rule_with_id(rules, id, n - 1) {
            Some(i) => Some(i),
            None => if rules[n - 1].id == id {
                Some(n - 1)
            } else {
                None
            },
        }
    }
}

/// The first of the first `n` categories with id `id`.
pub open spec fn first_category_with_id(cats: Seq<CategoryView>, id: u64, n: int) -> Option<int>
    decreases n,
{
    if n <= 0 {
        None
    } else {
        match first_category_with_id(cats, id, n - 1) {
            Some(i) => Some(i),
            None => if cats[n - 1].id == id {
                Some(n - 1)
            } else {
                None
            },
        }
    }
}

/// The rules after saving the rule being edited, or the message: the
/// draft's code is normalized and its name trimmed; it replaces the rule
/// with `original_id`, whose id it keeps, or is added as a new rule.
pub open spec fn rule_edit(rules: Seq<RuleView>, draft: RuleView, original_id: Option<u64>) -> Result<Seq<RuleView>, Seq<char>> {
    let d = RuleView {
        id: match original_id {
            Some(id) => id,
            None => draft.id,
        },
        name: trim_seq(draft.name),
        code: rule_code(draft.code),
        metrics: draft.metrics,
    };
    let updated = match original_id {
        Some(id) => match first_rule_with_id(rules, id, rules.len() as int) {
            Some(i) => Ok(rules.update(i, d)),
            None => Err("要编辑的标准已不存在"@),
        },
        None => Ok(rules.push(d)),
    };
    match updated {
        Err(m) => Err(m),
        Ok(v) => match rules_check(v) {
            Err(m) => Err(m),
            Ok(()) => Ok(v),
        },
    }
}

fn copy_rules(rules: &Vec<IndustryRule>) -> (r: Vec<IndustryRule>)
    ensures
        rule_views(r@) == rule_views(rules@),
{
    let mut r: Vec<IndustryRule> = Vec::new();
    let mut k: usize = 0;
    while k < rules.len()
        invariant
            k <= rules.len(),
            r.len() == k,
            forall|i: int| 0 <= i < k ==> #[trigger] r@[i]@ == rules@[i]@,
        decreases rules.len() - k,
    {
        r.push(rules[k].copied());
        k += 1;
    }
    assert(rule_views(r@) =~= rule_views(rules@));
    r
}

fn find_rule(rules: &Vec<IndustryRule>, id: u64) -> (r: Option<usize>)
    ensures
        match first_rule_with_id(rule_views(rules@), id, rules@.len() as int) {
            Some(i) => r == Some(i as usize),
            None => r is None,
        },
        r matches Some(k) ==> k < rules.len(),
{
    let ghost vs = rule_views(rules@);
    let mut k: usize = 0;
    while k < rules.len()
        invariant
            vs == rule_views(rules@),
            k <= rules.len(),
            first_rule_with_id(vs, id, k as int) is None,
        decreases rules.len() - k,
    {
        assert(vs[k as int].id == rules@[k as int].id);
        if rules[k].id == id {
            assert(first_rule_with_id(vs, id, k + 1) == Some(k as int));
            proof {
                lemma_first_rule_stays(vs, id, k + 1, rules@.len() as int);
            }
            return Some(k);
        }
        k += 1;
    }
    None
}

pub proof fn lemma_first_rule_found(rules: Seq<RuleView>, id: u64, n: int)
    ensures
        first_rule_with_id(rules, id, n) matches Some(i) ==> 0 <= i < n && rules[i].id == id,
    decreases n,
{
    if n > 0 {
        lemma_first_rule_found(rules, id, n - 1);
    }
}

pub proof fn lemma_first_rule_stays(rules: Seq<RuleView>, id: u64, n: int, m: int)
    requires
        0 <= n <= m,
        first_rule_with_id(rules, id, n) is Some,
    ensures
        first_rule_with_id(rules, id, m) == first_rule_with_id(rules, id, n),
    decreases m - n,
{
    if m > n {
        lemma_first_rule_stays(rules, id, n, m - 1);
    }
}

/// Saves the rule being edited into a copy of the standard (see
/// `rule_edit`), which must then pass its check.
pub fn save_rule_draft(rules: &RuleSet, draft: IndustryRule, original_id: Option<u64>) -> (r: Result<RuleSet, String>)
    ensures
        match rule_edit(rule_views(rules.rules@), draft@, original_id) {
            Ok(v) => r matches Ok(s) && s.version == rules.version && rule_views(s.rules@) == v,
            Err(m) => r matches Err(e) && e@ == m,
        },
{
    let ghost dv0 = draft@;
    let mut d = draft;
    d.industry_code = normalize_rule_code(d.industry_code.as_str());
    d.industry_name = string_of(&trim_chars(&chars_of(d.industry_name.as_str())));
    match original_id {
        Some(id) => {
            d.id = id;
        },
        None => {},
    }
    assert(d@ == RuleView {
        id: match original_id {
            Some(id) => id,
            None => dv0.id,
        },
        name: trim_seq(dv0.name),
        code: rule_code(dv0.code),
        metrics: dv0.metrics,
    });
    let mut list = copy_rules(&rules.rules);
    let ghost vs = rule_views(list@);
    proof {
        match original_id {
            Some(id) => lemma_first_rule_found(vs, id, vs.len() as int),
            None => {},
        }
    }
    match original_id {
        Some(id) => match find_rule(&list, id) {
            Some(k) => {
                list.set(k, d);
                assert(rule_views(list@) =~= vs.update(k as int, d@));
            },
            None => {
                return Err("要编辑的标准已不存在".to_owned());
            },
        },
        None => {
            list.push(d);
            assert(rule_views(list@) =~= vs.push(d@));
        },
    }
    let set = RuleSet { version: rules.version, rules: list };
    assert(rule_edit(rule_views(rules.rules@), dv0, original_id) == match rules_check(rule_views(set.rules@)) {
        Err(m) => Err(m),
        Ok(()) => Ok(rule_views(set.rules@)),
    });
    match set.validate() {
        Ok(()) => Ok(set),
        Err(e) => Err(e),
    }
}

/// The first `n` rules without those with id `id`.
pub open spec fn rules_without(rules: Seq<RuleView>, id: u64, n: int) -> Seq<RuleView>
    decreases n,
{
    if n <= 0 {
        Seq::empty()
    } else if rules[n - 1].id == id {
        rules_without(rules, id, n - 1)
    } else {
        rules_without(rules, id, n - 1).push(rules[n - 1])
    }
}

/// Removes the rules with id `id` from a copy of the standard, which must
/// then pass its check.
pub fn remove_rule(rules: &RuleSet, id: u64) -> (r: Result<RuleSet, String>)
    ensures
        match rules_check(rules_without(rule_views(rules.rules@), id, rules.rules@.len() as int)) {
            Ok(()) => r matches Ok(s) && s.version == rules.version && rule_views(s.rules@)
                == rules_without(rule_views(rules.rules@), id, rules.rules@.len() as int),
            Err(m) => r matches Err(e) && e@ == m,
        },
{
    let ghost vs = rule_views(rules.rules@);
    let mut list: Vec<IndustryRule> = Vec::new();
    let mut k: usize = 0;
    while k < rules.rules.len()
        invariant
            vs == rule_views(rules.rules@),
            k <= rules.rules.len(),
            rule_views(list@) == rules_without(vs, id, k as int),
        decreases rules.rules.len() - k,
    {
        assert(vs[k as int] == rules.rules@[k as int]@);
        if rules.rules[k].id != id {
            let c = rules.rules[k].copied();
            let ghost before = rule_views(list@);
            list.push(c);
            assert(rule_views(list@) =~= before.push(c@));
        }
        k += 1;
    }
    let set = RuleSet { version: rules.version, rules: list };
    match set.validate() {
        Ok(()) => Ok(set),
        Err(e) => Err(e),
    }
}

/// A category's codes normalized and its names trimmed.
pub open spec fn normalized_category(v: CategoryView) -> CategoryView {
    CategoryView {
        id: v.id,
        codes: seq![
            category_code(v.codes[0]),
            category_code(v.codes[1]),
            category_code(v.codes[2]),
            category_code(v.codes[3]),
        ],
        names: seq![trim_seq(v.names[0]), trim_seq(v.names[1]), trim_seq(v.names[2]), trim_seq(v.names[3])],
    }
}

/// The categories after saving the category being edited, or the message:
/// the draft is normalized, takes `original_id` where it replaces a
/// category, has the names of its parents made consistent with the list
/// (see `harmonize_parent_names`), and then replaces the category with that
/// id or is added.
pub open spec fn category_edit(cats: Seq<CategoryView>, draft: CategoryView, original_id: Option<u64>) -> Result<Seq<CategoryView>, Seq<char>> {
    let n = normalized_category(draft);
    let d = CategoryView {
        id: match original_id {
            Some(id) => id,
            None => n.id,
        },
        codes: n.codes,
        names: n.names,
    };
    let orig = match original_id {
        Some(id) => match first_category_with_id(cats, id, cats.len() as int) {
            Some(i) => Some(cats[i]),
            None => None,
        },
        None => None,
    };
    let hc = Seq::new(cats.len(), |i: int| harmonized(cats[i], d, orig));
    let hd = harmonized_draft(cats, d, orig);
    let updated = match original_id {
        Some(id) => match first_category_with_id(hc, id, hc.len() as int) {
            Some(i) => Ok(hc.update(i, hd)),
            None => Err("要编辑的行业细类已不存在"@),
        },
        None => Ok(hc.push(hd)),
    };
    match updated {
        Err(m) => Err(m),
        Ok(v) => match categories_check(v) {
            Err(m) => Err(m),
            Ok(()) => Ok(v),
        },
    }
}

fn find_category(cats: &Vec<IndustryCategory>, id: u64) -> (r: Option<usize>)
    ensures
        match first_category_with_id(category_views(cats@), id, cats@.len() as int) {
            Some(i) => r == Some(i as usize),
            None => r is None,
        },
        r matches Some(k) ==> k < cats.len(),
{
    let ghost vs = category_views(cats@);
    let mut k: usize = 0;
    while k < cats.len()
        invariant
            vs == category_views(cats@),
            k <= cats.len(),
            first_category_with_id(vs, id, k as int) is None,
        decreases cats.len() - k,
    {
        assert(vs[k as int].id == cats@[k as int].id);
        if cats[k].id == id {
            assert(first_category_with_id(vs, id, k + 1) == Some(k as int));
            proof {
                lemma_first_category_stays(vs, id, k + 1, cats@.len() as int);
            }
            return Some(k);
        }
        k += 1;
    }
    None
}

pub proof fn lemma_first_category_found(cats: Seq<CategoryView>, id: u64, n: int)
    ensures
        first_category_with_id(cats, id, n) matches Some(i) ==> 0 <= i < n && cats[i].id == id,
    decreases n,
{
    if n > 0 {
        lemma_first_category_found(cats, id, n - 1);
    }
}

pub proof fn lemma_first_category_stays(cats: Seq<CategoryView>, id: u64, n: int, m: int)
    requires
        0 <= n <= m,
        first_category_with_id(cats, id, n) is Some,
    ensures
        first_category_with_id(cats, id, m) == first_category_with_id(cats, id, n),
    decreases m - n,
{
    if m > n {
        lemma_first_category_stays(cats, id, n, m - 1);
    }
}

/// Lists with the same ids find the same first id.
pub proof fn lemma_first_category_ids(a: Seq<CategoryView>, b: Seq<CategoryView>, id: u64, n: int)
    requires
        0 <= n <= a.len(),
        a.len() == b.len(),
        forall|i: int| 0 <= i < a.len() ==> #[trigger] a[i].id == b[i].id,
    ensures
        first_category_with_id(a, id, n) == first_category_with_id(b, id, n),
    decreases n,
{
    if n > 0 {
        lemma_first_category_ids(a, b, id, n - 1);
        assert(a[n - 1].id == b[n - 1].id);
    }
}

fn copy_categories(cats: &Vec<IndustryCategory>) -> (r: Vec<IndustryCategory>)
    ensures
        r@ == cats@,
{
    let mut r: Vec<IndustryCategory> = Vec::new();
    let mut k: usize = 0;
    while k < cats.len()
        invariant
            k <= cats.len(),
            r@ == cats@.take(k as int),
        decreases cats.len() - k,
    {
        r.push(cats[k].copied());
        assert(r@ =~= cats@.take(k + 1));
        k += 1;
    }
    assert(r@ =~= cats@);
    r
}

/// Saves the category being edited into a copy of the hierarchy (see
/// `category_edit`), which must then pass its check.
pub fn save_category_draft(categories: &CategorySet, draft: IndustryCategory, original_id: Option<u64>) -> (r: Result<CategorySet, String>)
    ensures
        match category_edit(category_views(categories.categories@), draft@, original_id) {
            Ok(v) => r matches Ok(s) && s.version == categories.version && category_views(s.categories@) == v,
            Err(m) => r matches Err(e) && e@ == m,
        },
{
    let ghost cats = category_views(categories.categories@);
    let ghost dv0 = draft@;
    let mut d = draft;
    d.normalize();
    match original_id {
        Some(id) => {
            d.id = id;
        },
        None => {},
    }
    let ghost dv = d@;
    assert(dv.codes =~= normalized_category(dv0).codes);
    assert(dv.names =~= normalized_category(dv0).names);
    proof {
        match original_id {
            Some(id) => lemma_first_category_found(cats, id, cats.len() as int),
            None => {},
        }
    }
    let original: Option<IndustryCategory> = match original_id {
        Some(id) => match find_category(&categories.categories, id) {
            Some(k) => Some(categories.categories[k].copied()),
            None => None,
        },
        None => None,
    };
    let mut list = copy_categories(&categories.categories);
    let original_ref: Option<&IndustryCategory> = match &original {
        Some(o) => Some(o),
        None => None,
    };
    let ghost orig = match original_ref {
        Some(o) => Some(o@),
        None => None,
    };
    harmonize_parent_names(&mut list, &mut d, original_ref);
    let ghost hc = Seq::new(cats.len(), |i: int| harmonized(cats[i], dv, orig));
    assert(category_views(list@) =~= hc);
    proof {
        assert forall|i: int| 0 <= i < cats.len() implies #[trigger] cats[i].id == hc[i].id by {}
        lemma_first_category_ids(cats, hc, 0, 0);
    }
    match original_id {
        Some(id) => {
            proof {
                assert forall|i: int| 0 <= i < cats.len() implies #[trigger] cats[i].id == hc[i].id by {}
                lemma_first_category_ids(hc, cats, id, cats.len() as int);
                lemma_first_category_found(hc, id, hc.len() as int);
            }
            match find_category(&list, id) {
                Some(k) => {
                    let ghost before = category_views(list@);
                    let ghost dd = d@;
                    list.set(k, d);
                    assert(category_views(list@) =~= before.update(k as int, dd));
                },
                None => {
                    return Err("要编辑的行业细类已不存在".to_owned());
                },
            }
        },
        None => {
            let ghost before = category_views(list@);
            let ghost dd = d@;
            list.push(d);
            assert(category_views(list@) =~= before.push(dd));
        },
    }
    let set = CategorySet { version: categories.version, categories: list };
    match set.validate() {
        Ok(()) => Ok(set),
        Err(e) => Err(e),
    }
}

/// The first `n` categories without those with id `id`.
pub open spec fn categories_without(cats: Seq<CategoryView>, id: u64, n: int) -> Seq<CategoryView>
    decreases n,
{
    if n <= 0 {
        Seq::empty()
    } else if cats[n - 1].id == id {
        categories_without(cats, id, n - 1)
    } else {
        categories_without(cats, id, n - 1).push(cats[n - 1])
    }
}

/// Removes the categories with id `id` from a copy of the hierarchy, which
/// must then pass its check.
pub fn remove_category(categories: &CategorySet, id: u64) -> (r: Result<CategorySet, String>)
    ensures
        match categories_check(categories_without(category_views(categories.categories@), id, categories.categories@.len() as int)) {
            Ok(()) => r matches Ok(s) && s.version == categories.version && category_views(s.categories@)
                == categories_without(category_views(categories.categories@), id, categories.categories@.len() as int),
            Err(m) => r matches Err(e) && e@ == m,
        },
{
    let ghost vs = category_views(categories.categories@);
    let mut list: Vec<IndustryCategory> = Vec::new();
    let mut k: usize = 0;
    while k < categories.categories.len()
        invariant
            vs == category_views(categories.categories@),
            k <= categories.categories.len(),
            category_views(list@) == categories_without(vs, id, k as int),
        decreases categories.categories.len() - k,
    {
        assert(vs[k as int] == categories.categories@[k as int]@);
        if categories.categories[k].id != id {
            let c = categories.categories[k].copied();
            let ghost before = category_views(list@);
            list.push(c);
            assert(category_views(list@) =~= before.push(c@));
        }
        k += 1;
    }
    let set = CategorySet { version: categories.version, categories: list };
    match set.validate() {
        Ok(()) => Ok(set),
        Err(e) => Err(e),
    }
}

/// The metric that "add metric" adds to a rule: the first of employees,
/// assets and revenue that the rule lacks, while it has fewer than three.
pub open spec fn next_metric(metrics: Seq<MetricRule>) -> Option<MetricKind> {
    if metrics.len() >= 3 {
        None
    } else if !metric_present(metrics, MetricKind::Employees) {
        Some(MetricKind::Employees)
    } else if !metric_present(metrics, MetricKind::Assets) {
        Some(MetricKind::Assets)
    } else if !metric_present(metrics, MetricKind::Revenue) {
        Some(MetricKind::Revenue)
    } else {
        None
    }
}

/// Some metric rule of the list is for `kind`.
pub open spec fn metric_present(metrics: Seq<MetricRule>, kind: MetricKind) -> bool {
    exists|i: int| 0 <= i < metrics.len() && #[trigger] metrics[i].metric == kind
}

fn has_metric(metrics: &Vec<MetricRule>, kind: MetricKind) -> (r: bool)
    ensures
        r == metric_present(metrics@, kind),
{
    let mut k: usize = 0;
    while k < metrics.len()
        invariant
            k <= metrics.len(),
            forall|i: int| 0 <= i < k ==> #[trigger] metrics@[i].metric != kind,
        decreases metrics.len() - k,
    {
        if metrics[k].metric == kind {
            return true;
        }
        k += 1;
    }
    false
}

pub fn next_metric_kind(metrics: &Vec<MetricRule>) -> (r: Option<MetricKind>)
    ensures
        r == next_metric(metrics@),
{
    if metrics.len() >= 3 {
        None
    } else if !has_metric(metrics, MetricKind::Employees) {
        Some(MetricKind::Employees)
    } else if !has_metric(metrics, MetricKind::Assets) {
        Some(MetricKind::Assets)
    } else if !has_metric(metrics, MetricKind::Revenue) {
        Some(MetricKind::Revenue)
    } else {
        None
    }
}


/// The path a text field names: none when it is blank, else the path of
/// the trimmed text.
pub fn non_empty_path(value: &str) -> (r: Option<PathBuf>)
    ensures
        trim_seq(value@).len() == 0 ==> r is None,
        trim_seq(value@).len() > 0 ==> r == Some(path_of(trim_seq(value@))),
{
    let t = string_of(&trim_chars(&chars_of(value)));
    if t.unicode_len() == 0 {
        None
    } else {
        Some(path_from_text(t.as_str()))
    }
}

/// A path needs `extension` when its own extension is missing or differs
/// from it, ignoring ASCII case.
pub open spec fn needs_extension(current: Option<Seq<char>>, extension: Seq<char>) -> bool {
    current is None || !eq_ignore_case(current->0, extension)
}

pub fn needs_extension_exec(current: &Option<String>, extension: &str) -> (r: bool)
    ensures
        r == needs_extension(match current {
            Some(s) => Some(s@),
            None => None,
        }, extension@),
{
    match current {
        Some(c) => !eq_ignore_case_exec(&chars_of(c.as_str()), extension),
        None => true,
    }
}

/// Gives a path the extension `extension` where it lacks it (see
/// `needs_extension`), and leaves it as it is otherwise. An extension with
/// a path separator is refused by `PathBuf::set_extension`, which panics.
pub fn ensure_extension(path: PathBuf, extension: &str) -> (r: PathBuf)
    requires
        no_separator(extension@),
    ensures
        r == (if needs_extension(path_extension(path), extension@) {
            path_with_extension(path, extension@)
        } else {
            path
        }),
{
    let mut path = path;
    let current = path_extension_text(&path);
    if needs_extension_exec(&current, extension) {
        path_set_extension(&mut path, extension);
    }
    path
}


/// A rule that is saved is in the standard afterwards, as saved (its code
/// normalized, its name trimmed, the id of the rule it replaces), and the
/// standard passes its check; an added rule comes last, and every rule that
/// is not replaced stays where it was.
pub proof fn lemma_saved_rule_kept(rules: Seq<RuleView>, draft: RuleView, original_id: Option<u64>)
    requires
        rule_edit(rules, draft, original_id) is Ok,
    ensures
        ({
            let v = rule_edit(rules, draft, original_id)->Ok_0;
            let d = RuleView {
                id: match original_id {
                    Some(id) => id,
                    None => draft.id,
                },
                name: trim_seq(draft.name),
                code: rule_code(draft.code),
                metrics: draft.metrics,
            };
            &&& rules_check(v) is Ok
            &&& v.contains(d)
            &&& match original_id {
                None => v == rules.push(d),
                Some(id) => v.len() == rules.len() && forall|j: int|
                    0 <= j < rules.len() && rules[j].id != id ==> #[trigger] v[j] == rules[j],
            }
        }),
{
    let v = rule_edit(rules, draft, original_id)->Ok_0;
    match original_id {
        Some(id) => {
            lemma_first_rule_found(rules, id, rules.len() as int);
            let i = first_rule_with_id(rules, id, rules.len() as int)->Some_0;
            assert(v[i] == rule_edit(rules, draft, original_id)->Ok_0[i]);
        },
        None => {
            assert(v[rules.len() as int] == v.last());
        },
    }
}

/// A category that is saved is in the hierarchy afterwards with its codes
/// normalized, its own name trimmed and the id of the category it replaces,
/// and the hierarchy passes its check; an added category comes last. Every
/// category that is not replaced keeps its place, its id, its codes and its
/// own name: only the names of parents that the edit renames change.
pub proof fn lemma_saved_category_kept(cats: Seq<CategoryView>, draft: CategoryView, original_id: Option<u64>)
    requires
        category_edit(cats, draft, original_id) is Ok,
    ensures
        ({
            let v = category_edit(cats, draft, original_id)->Ok_0;
            let n = normalized_category(draft);
            let id = match original_id {
                Some(id) => id,
                None => draft.id,
            };
            &&& categories_check(v) is Ok
            &&& v.len() == (if original_id is Some { cats.len() as int } else { cats.len() + 1int })
            &&& exists|i: int| 0 <= i < v.len() && (#[trigger] v[i]).id == id && v[i].codes == n.codes
                && v[i].names[3] == n.names[3]
            &&& original_id is None ==> v.last().id == id && v.last().codes == n.codes
            &&& forall|j: int| 0 <= j < cats.len() && (original_id matches Some(o) ==> cats[j].id != o) ==> {
                &&& (#[trigger] v[j]).id == cats[j].id
                &&& v[j].codes == cats[j].codes
                &&& v[j].names[3] == cats[j].names[3]
            }
        }),
{
    let v = category_edit(cats, draft, original_id)->Ok_0;
    let n = normalized_category(draft);
    let d = CategoryView {
        id: match original_id {
            Some(id) => id,
            None => n.id,
        },
        codes: n.codes,
        names: n.names,
    };
    let orig = match original_id {
        Some(id) => match first_category_with_id(cats, id, cats.len() as int) {
            Some(i) => Some(cats[i]),
            None => None,
        },
        None => None,
    };
    let hc = Seq::new(cats.len(), |i: int| harmonized(cats[i], d, orig));
    let hd = harmonized_draft(cats, d, orig);
    match original_id {
        Some(id) => {
            lemma_first_category_ids(hc, cats, id, hc.len() as int);
            lemma_first_category_found(cats, id, cats.len() as int);
            let i = first_category_with_id(hc, id, hc.len() as int)->Some_0;
            assert(v == hc.update(i, hd));
            assert(v[i] == hd);
        },
        None => {
            assert(v == hc.push(hd));
            assert(v[cats.len() as int] == hd);
        },
    }
}

/// Renaming a parent applies everywhere: where an edit keeps the code of
/// the edited category's parent at level `l` (0 to 2) and gives it another
/// name, every category of the saved hierarchy under that parent code has
/// the new name at that level, the edited one included, and every category
/// under another code keeps its name there.
pub proof fn lemma_parent_rename_applies_everywhere(
    cats: Seq<CategoryView>,
    draft: CategoryView,
    id: u64,
    l: int,
)
    requires
        0 <= l < 3,
        category_edit(cats, draft, Some(id)) is Ok,
        first_category_with_id(cats, id, cats.len() as int) is Some,
        cats[first_category_with_id(cats, id, cats.len() as int)->0].codes[l] == category_code(
            draft.codes[l],
        ),
        cats[first_category_with_id(cats, id, cats.len() as int)->0].names[l] != trim_seq(
            draft.names[l],
        ),
    ensures
        ({
            let v = category_edit(cats, draft, Some(id))->Ok_0;
            &&& v.len() == cats.len()
            &&& forall|j: int| 0 <= j < v.len() && (#[trigger] v[j]).codes[l] == category_code(draft.codes[l])
                ==> v[j].names[l] == trim_seq(draft.names[l])
            &&& forall|j: int| 0 <= j < v.len() && (#[trigger] v[j]).codes[l] != category_code(draft.codes[l])
                ==> v[j].names[l] == cats[j].names[l]
        }),
{
    let v = category_edit(cats, draft, Some(id))->Ok_0;
    let n = normalized_category(draft);
    let d = CategoryView { id: id, codes: n.codes, names: n.names };
    let i0 = first_category_with_id(cats, id, cats.len() as int)->0;
    lemma_first_category_found(cats, id, cats.len() as int);
    let orig = Some(cats[i0]);
    let hc = Seq::new(cats.len(), |i: int| harmonized(cats[i], d, orig));
    let hd = harmonized_draft(cats, d, orig);
    assert(renames_parent(d, orig, l));
    lemma_first_category_ids(hc, cats, id, hc.len() as int);
    let i = first_category_with_id(hc, id, hc.len() as int)->0;
    assert(v == hc.update(i, hd));
    assert(hd.codes == n.codes);
    assert(hd.names[l] == d.names[l]) by {
        if l == 0 {
            assert(hd.names[0] == draft_name(cats, d, orig, 0));
        } else if l == 1 {
            assert(hd.names[1] == draft_name(cats, d, orig, 1));
        } else {
            assert(hd.names[2] == draft_name(cats, d, orig, 2));
        }
    }
    assert forall|j: int| 0 <= j < v.len() && j != i implies #[trigger] v[j] == harmonized(cats[j], d, orig) by {}
    assert forall|j: int| 0 <= j < v.len() && j != i implies (#[trigger] v[j]).names[l] == harmonized_name(
        cats[j],
        d,
        orig,
        l,
    ) && v[j].codes[l] == cats[j].codes[l] by {
        assert(v[j] == harmonized(cats[j], d, orig));
        if l == 0 {
        } else if l == 1 {
        } else {
        }
    }
}

/// The text `text` is one of the first `n` texts that a search looks at.
proof fn lemma_any_contains_at(texts: Seq<Seq<char>>, query: Seq<char>, k: int)
    requires
        0 <= k < texts.len(),
        has_infix(lowercase(texts[k]), query),
    ensures
        any_contains(texts, query),
{
}

/// A search finds a checked row exactly when it is empty or one of the
/// fields that the preview shows contains it once in lower case: the
/// customer id, the account name, the industry code and path, the matched
/// rule's code and name, the size as written, the size calculated, the
/// status and the note (a field the row lacks counts as empty text).
pub proof fn lemma_row_search_fields(row: CheckRowView, q: Seq<char>)
    ensures
        q.len() == 0 ==> row_matches(row, q),
        has_infix(lowercase(row.customer_id), q) ==> row_matches(row, q),
        has_infix(lowercase(row.account_name), q) ==> row_matches(row, q),
        has_infix(lowercase(row.trusted_code), q) ==> row_matches(row, q),
        has_infix(lowercase(row.industry_path), q) ==> row_matches(row, q),
        (row.matched_rule_code matches Some(c) && has_infix(lowercase(c), q)) ==> row_matches(row, q),
        (row.matched_rule_name matches Some(c) && has_infix(lowercase(c), q)) ==> row_matches(row, q),
        has_infix(lowercase(row.original_value), q) ==> row_matches(row, q),
        (row.calculated_size matches Some(z) && has_infix(lowercase(z.name()), q)) ==> row_matches(row, q),
        has_infix(lowercase(row.status.spec_label()), q) ==> row_matches(row, q),
        has_infix(lowercase(row.annotation), q) ==> row_matches(row, q),
        row_matches(row, q) ==> q.len() == 0
            || has_infix(lowercase(row.customer_id), q)
            || has_infix(lowercase(row.account_name), q)
            || has_infix(lowercase(row.trusted_code), q)
            || has_infix(lowercase(row.industry_path), q)
            || has_infix(lowercase(text_or_empty(row.matched_rule_code)), q)
            || has_infix(lowercase(text_or_empty(row.matched_rule_name)), q)
            || has_infix(lowercase(row.original_value), q)
            || has_infix(lowercase(match row.calculated_size {
                Some(z) => z.name(),
                None => Seq::empty(),
            }), q)
            || has_infix(lowercase(row.status.spec_label()), q)
            || has_infix(lowercase(row.annotation), q),
{
    let t = row_texts(row);
    if has_infix(lowercase(row.customer_id), q) { lemma_any_contains_at(t, q, 0); }
    if has_infix(lowercase(row.account_name), q) { lemma_any_contains_at(t, q, 1); }
    if has_infix(lowercase(row.trusted_code), q) { lemma_any_contains_at(t, q, 2); }
    if has_infix(lowercase(row.industry_path), q) { lemma_any_contains_at(t, q, 3); }
    if has_infix(lowercase(text_or_empty(row.matched_rule_code)), q) { lemma_any_contains_at(t, q, 4); }
    if has_infix(lowercase(text_or_empty(row.matched_rule_name)), q) { lemma_any_contains_at(t, q, 5); }
    if has_infix(lowercase(row.original_value), q) { lemma_any_contains_at(t, q, 6); }
    if has_infix(lowercase(t[7]), q) { lemma_any_contains_at(t, q, 7); }
    if has_infix(lowercase(row.status.spec_label()), q) { lemma_any_contains_at(t, q, 8); }
    if has_infix(lowercase(row.annotation), q) { lemma_any_contains_at(t, q, 9); }
    if q.len() > 0 && any_contains(t, q) {
        let k = choose|k: int| 0 <= k < t.len() && has_infix(lowercase(#[trigger] t[k]), q);
        assert(0 <= k < 10);
    }
}

/// A search finds a rule exactly when it is empty or the rule's code, its
/// name or the name of one of its metrics contains it once in lower case.
pub proof fn lemma_rule_search_fields(rule: RuleView, q: Seq<char>)
    ensures
        rule_found_by_fields(rule, q) == rule_matches(rule, q),
{
    let t = rule_texts(rule);
    if has_infix(lowercase(rule.code), q) { lemma_any_contains_at(t, q, 0); }
    if has_infix(lowercase(rule.name), q) { lemma_any_contains_at(t, q, 1); }
    if exists|m: int| 0 <= m < rule.metrics.len() && has_infix(lowercase((#[trigger] rule.metrics[m]).metric.spec_label()), q) {
        let m = choose|m: int| 0 <= m < rule.metrics.len() && has_infix(lowercase((#[trigger] rule.metrics[m]).metric.spec_label()), q);
        assert(t[m + 2] == rule.metrics[m].metric.spec_label());
        lemma_any_contains_at(t, q, m + 2);
    }
    if q.len() > 0 && any_contains(t, q) {
        let k = choose|k: int| 0 <= k < t.len() && has_infix(lowercase(#[trigger] t[k]), q);
        if k >= 2 {
            assert(t[k] == rule.metrics[k - 2].metric.spec_label());
            assert(has_infix(lowercase(rule.metrics[k - 2].metric.spec_label()), q));
        }
    }
}

/// The rule search stated field by field.
pub open spec fn rule_found_by_fields(rule: RuleView, q: Seq<char>) -> bool {
    q.len() == 0 || has_infix(lowercase(rule.code), q) || has_infix(lowercase(rule.name), q)
        || exists|m: int| 0 <= m < rule.metrics.len() && has_infix(
            lowercase((#[trigger] rule.metrics[m]).metric.spec_label()),
            q,
        )
}

/// A search finds a category exactly when it is empty or the code or the
/// name of one of its four levels contains it once in lower case.
pub proof fn lemma_category_search_fields(c: CategoryView, q: Seq<char>)
    ensures
        category_matches(c, q) == (q.len() == 0 || exists|l: int| 0 <= l < 4 && (has_infix(
            lowercase(#[trigger] c.codes[l]),
            q,
        ) || has_infix(lowercase(c.names[l]), q))),
{
    let t = category_texts(c);
    assert forall|l: int| 0 <= l < 4 && (has_infix(lowercase(#[trigger] c.codes[l]), q) || has_infix(lowercase(c.names[l]), q))
        implies category_matches(c, q) by {
        assert(t[2 * l] == c.codes[l]);
        assert(t[2 * l + 1] == c.names[l]);
        if has_infix(lowercase(c.codes[l]), q) {
            lemma_any_contains_at(t, q, 2 * l);
        } else {
            lemma_any_contains_at(t, q, 2 * l + 1);
        }
    }
    if q.len() > 0 && any_contains(t, q) {
        let k = choose|k: int| 0 <= k < t.len() && has_infix(lowercase(#[trigger] t[k]), q);
        let l = k / 2;
        assert(0 <= l < 4);
        if k % 2 == 0 {
            assert(t[k] == c.codes[l]);
        } else {
            assert(t[k] == c.names[l]);
        }
        assert(has_infix(lowercase(c.codes[l]), q) || has_infix(lowercase(c.names[l]), q));
    }
}

/// The preview shows exactly the rows that the filter admits and the
/// search finds, in their order.
pub proof fn lemma_shown_rows_members(rows: Seq<CheckRowView>, filter: RowFilter, query: Seq<char>, n: int)
    requires
        0 <= n <= rows.len(),
    ensures
        forall|i: int| 0 <= i < n ==> (shown_rows(rows, filter, query, n).contains(i) <==> (filter.admits(
            (#[trigger] rows[i]).status,
        ) && row_matches(rows[i], query))),
        forall|a: int, b: int| 0 <= a < b < shown_rows(rows, filter, query, n).len() ==> shown_rows(
            rows,
            filter,
            query,
            n,
        )[a] < shown_rows(rows, filter, query, n)[b],
        forall|a: int| 0 <= a < shown_rows(rows, filter, query, n).len() ==> 0 <= #[trigger] shown_rows(
            rows,
            filter,
            query,
            n,
        )[a] < n,
    decreases n,
{
    if n > 0 {
        lemma_shown_rows_members(rows, filter, query, n - 1);
        let prev = shown_rows(rows, filter, query, n - 1);
        let cur = shown_rows(rows, filter, query, n);
        assert forall|i: int| 0 <= i < n implies (cur.contains(i) <==> (filter.admits((#[trigger] rows[i]).status)
            && row_matches(rows[i], query))) by {
            if i < n - 1 {
                if cur.contains(i) {
                    let k = choose|k: int| 0 <= k < cur.len() && cur[k] == i;
                    if k < prev.len() {
                        assert(prev[k] == i);
                    }
                }
                if prev.contains(i) {
                    let k = choose|k: int| 0 <= k < prev.len() && prev[k] == i;
                    assert(cur[k] == i);
                }
            } else {
                if cur.contains(i) {
                    let k = choose|k: int| 0 <= k < cur.len() && cur[k] == i;
                    if k < prev.len() {
                        assert(prev[k] < n - 1);
                    }
                }
                if filter.admits(rows[i].status) && row_matches(rows[i], query) {
                    assert(cur[cur.len() - 1] == i);
                }
            }
        }
    }
}

/// The rules table shows exactly the rules that the search finds, in their
/// order.
pub proof fn lemma_shown_rules_members(xs: Seq<RuleView>, query: Seq<char>, n: int)
    requires
        0 <= n <= xs.len(),
    ensures
        forall|i: int| 0 <= i < n ==> (shown_rules(xs, query, n).contains(i) <==> rule_matches(#[trigger] xs[i], query)),
        forall|a: int, b: int| 0 <= a < b < shown_rules(xs, query, n).len() ==> shown_rules(xs, query, n)[a] < shown_rules(
            xs,
            query,
            n,
        )[b],
        forall|a: int| 0 <= a < shown_rules(xs, query, n).len() ==> 0 <= #[trigger] shown_rules(xs, query, n)[a] < n,
    decreases n,
{
    if n > 0 {
        lemma_shown_rules_members(xs, query, n - 1);
        let prev = shown_rules(xs, query, n - 1);
        let cur = shown_rules(xs, query, n);
        assert forall|i: int| 0 <= i < n implies (cur.contains(i) <==> rule_matches(#[trigger] xs[i], query)) by {
            if i < n - 1 {
                if cur.contains(i) {
                    let k = choose|k: int| 0 <= k < cur.len() && cur[k] == i;
                    if k < prev.len() {
                        assert(prev[k] == i);
                    }
                }
                if prev.contains(i) {
                    let k = choose|k: int| 0 <= k < prev.len() && prev[k] == i;
                    assert(cur[k] == i);
                }
            } else {
                if cur.contains(i) {
                    let k = choose|k: int| 0 <= k < cur.len() && cur[k] == i;
                    if k < prev.len() {
                        assert(prev[k] < n - 1);
                    }
                }
                if rule_matches(xs[i], query) {
                    assert(cur[cur.len() - 1] == i);
                }
            }
        }
    }
}

/// The categories table shows exactly the categories that the search finds, in their
/// order.
pub proof fn lemma_shown_categories_members(xs: Seq<CategoryView>, query: Seq<char>, n: int)
    requires
        0 <= n <= xs.len(),
    ensures
        forall|i: int| 0 <= i < n ==> (shown_categories(xs, query, n).contains(i) <==> category_matches(#[trigger] xs[i], query)),
        forall|a: int, b: int| 0 <= a < b < shown_categories(xs, query, n).len() ==> shown_categories(xs, query, n)[a] < shown_categories(
            xs,
            query,
            n,
        )[b],
        forall|a: int| 0 <= a < shown_categories(xs, query, n).len() ==> 0 <= #[trigger] shown_categories(xs, query, n)[a] < n,
    decreases n,
{
    if n > 0 {
        lemma_shown_categories_members(xs, query, n - 1);
        let prev = shown_categories(xs, query, n - 1);
        let cur = shown_categories(xs, query, n);
        assert forall|i: int| 0 <= i < n implies (cur.contains(i) <==> category_matches(#[trigger] xs[i], query)) by {
            if i < n - 1 {
                if cur.contains(i) {
                    let k = choose|k: int| 0 <= k < cur.len() && cur[k] == i;
                    if k < prev.len() {
                        assert(prev[k] == i);
                    }
                }
                if prev.contains(i) {
                    let k = choose|k: int| 0 <= k < prev.len() && prev[k] == i;
                    assert(cur[k] == i);
                }
            } else {
                if cur.contains(i) {
                    let k = choose|k: int| 0 <= k < cur.len() && cur[k] == i;
                    if k < prev.len() {
                        assert(prev[k] < n - 1);
                    }
                }
                if category_matches(xs[i], query) {
                    assert(cur[cur.len() - 1] == i);
                }
            }
        }
    }
}

/// Where no code is found among the first `n`, none of them has it.
proof fn lemma_first_with_code_none(cats: Seq<CategoryView>, l: int, code: Seq<char>, n: int)
    requires
        0 <= n <= cats.len(),
        first_with_code(cats, l, code, n) is None,
    ensures
        forall|j: int| 0 <= j < n ==> (#[trigger] cats[j]).codes[l] != code,
    decreases n,
{
    if n > 0 {
        lemma_first_with_code_none(cats, l, code, n - 1);
    }
}

/// A new category takes, for each parent level `l` (0 to 2), the name that
/// the hierarchy already gives to its parent's code there, and its own
/// trimmed name where no category has that code; it comes last, and the
/// categories before it stay as they were.
pub proof fn lemma_new_category_takes_known_parent_names(cats: Seq<CategoryView>, draft: CategoryView, l: int)
    requires
        0 <= l < 3,
        category_edit(cats, draft, None) is Ok,
    ensures
        ({
            let v = category_edit(cats, draft, None)->Ok_0;
            let code = category_code(draft.codes[l]);
            &&& v.len() == cats.len() + 1
            &&& forall|j: int| 0 <= j < cats.len() ==> (#[trigger] v[j]).id == cats[j].id && v[j].codes
                == cats[j].codes && v[j].names[l] == cats[j].names[l]
            &&& (exists|j: int| 0 <= j < cats.len() && (#[trigger] cats[j]).codes[l] == code) ==> exists|j: int|
                0 <= j < cats.len() && (#[trigger] cats[j]).codes[l] == code && v.last().names[l] == cats[j].names[l]
            &&& (forall|j: int| 0 <= j < cats.len() ==> (#[trigger] cats[j]).codes[l] != code) ==> v.last().names[l]
                == trim_seq(draft.names[l])
        }),
{
    let v = category_edit(cats, draft, None)->Ok_0;
    let n = normalized_category(draft);
    let d = CategoryView { id: n.id, codes: n.codes, names: n.names };
    let orig: Option<CategoryView> = None;
    let hc = Seq::new(cats.len(), |i: int| harmonized(cats[i], d, orig));
    let hd = harmonized_draft(cats, d, orig);
    assert(v == hc.push(hd));
    assert(v.last() == hd);
    let code = n.codes[l];
    lemma_first_with_code_found(cats, l, code, cats.len() as int);
    assert(hd.names[l] == draft_name(cats, d, orig, l)) by {
        if l == 0 {
        } else if l == 1 {
        } else {
        }
    }
    if first_with_code(cats, l, code, cats.len() as int) is None {
        lemma_first_with_code_none(cats, l, code, cats.len() as int);
    }
    assert forall|j: int| 0 <= j < cats.len() implies (#[trigger] v[j]).id == cats[j].id && v[j].codes
        == cats[j].codes && v[j].names[l] == cats[j].names[l] by {
        assert(v[j] == harmonized(cats[j], d, orig));
        if l == 0 {
        } else if l == 1 {
        } else {
        }
    }
}

/// After a removal no rule has the removed id, and every other rule stays.
pub proof fn lemma_rule_removed(rules: Seq<RuleView>, id: u64, n: int)
    requires
        0 <= n <= rules.len(),
    ensures
        forall|k: int| 0 <= k < rules_without(rules, id, n).len() ==> (#[trigger] rules_without(rules, id, n)[k]).id != id,
        forall|j: int| 0 <= j < n && rules[j].id != id ==> rules_without(rules, id, n).contains(#[trigger] rules[j]),
    decreases n,
{
    if n > 0 {
        lemma_rule_removed(rules, id, n - 1);
        let prev = rules_without(rules, id, n - 1);
        let cur = rules_without(rules, id, n);
        assert forall|j: int| 0 <= j < n && rules[j].id != id implies cur.contains(#[trigger] rules[j]) by {
            if j < n - 1 {
                let k = choose|k: int| 0 <= k < prev.len() && prev[k] == rules[j];
                assert(cur[k] == prev[k]);
            } else {
                assert(cur[cur.len() - 1] == rules[j]);
            }
        }
    }
}

/// After a removal no category has the removed id, and every other
/// category stays.
pub proof fn lemma_category_removed(cats: Seq<CategoryView>, id: u64, n: int)
    requires
        0 <= n <= cats.len(),
    ensures
        forall|k: int| 0 <= k < categories_without(cats, id, n).len() ==> (#[trigger] categories_without(cats, id, n)[k]).id != id,
        forall|j: int| 0 <= j < n && cats[j].id != id ==> categories_without(cats, id, n).contains(#[trigger] cats[j]),
    decreases n,
{
    if n > 0 {
        lemma_category_removed(cats, id, n - 1);
        let prev = categories_without(cats, id, n - 1);
        let cur = categories_without(cats, id, n);
        assert forall|j: int| 0 <= j < n && cats[j].id != id implies cur.contains(#[trigger] cats[j]) by {
            if j < n - 1 {
                let k = choose|k: int| 0 <= k < prev.len() && prev[k] == cats[j];
                assert(cur[k] == prev[k]);
            } else {
                assert(cur[cur.len() - 1] == cats[j]);
            }
        }
    }
}


/// What the annotation column's field keeps of what is typed: the ASCII
/// letters, upper-cased.
pub open spec fn column_input(text: Seq<char>) -> Seq<char> {
    upper_seq(kept(text, |c: char| is_ascii_alpha(c)))
}

pub fn column_input_text(text: &str) -> (r: String)
    ensures
        r@ == column_input(text@),
{
    let v = chars_of(text);
    let mut letters: Vec<char> = Vec::new();
    let mut i: usize = 0;
    while i < v.len()
        invariant
            i <= v.len(),
            letters@ == kept(v@.take(i as int), |c: char| is_ascii_alpha(c)),
        decreases v.len() - i,
    {
        proof {
            assert(v@.take(i + 1) =~= v@.take(i as int).push(v@[i as int]));
            lemma_kept_push(v@.take(i as int), v@[i as int], |c: char| is_ascii_alpha(c));
        }
        let c = v[i];
        if ('a' <= c && c <= 'z') || ('A' <= c && c <= 'Z') {
            letters.push(c);
        }
        i += 1;
    }
    assert(v@.take(v.len() as int) =~= v@);
    string_of(&upper_chars(&letters))
}

/// The annotation column as a check uses it: trimmed and upper-cased.
pub fn normalized_column(text: &str) -> (r: String)
    ensures
        r@ == upper_seq(trim_seq(text@)),
{
    string_of(&upper_chars(&trim_chars(&chars_of(text))))
}

/// How the preview shows a row's customer: the account name alone where
/// the customer id is blank, else both, two spaces apart.
pub open spec fn account_text(row: CheckRowView) -> Seq<char> {
    if trim_seq(row.customer_id).len() == 0 {
        row.account_name
    } else {
        row.customer_id + "  "@ + row.account_name
    }
}

pub fn account_label(row: &CheckRow) -> (r: String)
    ensures
        r@ == account_text(row@),
{
    if trim_chars(&chars_of(row.customer_id.as_str())).len() == 0 {
        row.account_name.clone()
    } else {
        let mut t = row.customer_id.clone();
        t.append("  ");
        t.append(row.account_name.as_str());
        t
    }
}

/// How the preview shows the rule a row matched: its code and name, its
/// code alone, or nothing.
pub open spec fn matched_rule_text(row: CheckRowView) -> Seq<char> {
    match (row.matched_rule_code, row.matched_rule_name) {
        (Some(code), Some(name)) => code + " "@ + name,
        (Some(code), None) => code,
        _ => Seq::empty(),
    }
}

pub fn matched_rule_label(row: &CheckRow) -> (r: String)
    ensures
        r@ == matched_rule_text(row@),
{
    match (&row.matched_rule_code, &row.matched_rule_name) {
        (Some(code), Some(name)) => {
            let mut t = code.clone();
            t.append(" ");
            t.append(name.as_str());
            t
        },
        (Some(code), None) => code.clone(),
        _ => String::new(),
    }
}

/// What a confirmation dialog asks the user to allow.
#[derive(Clone, Copy, Debug, PartialEq, Eq, Structural)]
pub enum ConfirmAction {
    DeleteRule(u64),
    DeleteCategory(u64),
    RestoreRules,
    RestoreCategories,
}

/// The wording of a confirmation dialog, and whether what it confirms
/// throws data away.
pub struct ConfirmationPrompt {
    pub title: String,
    pub message: String,
    pub confirm_label: String,
    pub destructive: bool,
}

/// How a dialog names the rule with `id`: its code and name, or a generic
/// word where no rule has that id.
pub open spec fn rule_caption(rules: Seq<RuleView>, id: u64) -> Seq<char> {
    match first_rule_with_id(rules, id, rules.len() as int) {
        Some(i) => rules[i].code + " "@ + rules[i].name,
        None => "该标准"@,
    }
}

/// How a dialog names the category with `id`: its leaf code and name, or a
/// generic word where no category has that id.
pub open spec fn category_caption(cats: Seq<CategoryView>, id: u64) -> Seq<char> {
    match first_category_with_id(cats, id, cats.len() as int) {
        Some(i) => cats[i].codes[3] + " "@ + cats[i].names[3],
        None => "该行业细类"@,
    }
}

/// The title, message and button of the dialog for `action`.
pub open spec fn prompt_text(
    action: ConfirmAction,
    rules: Seq<RuleView>,
    cats: Seq<CategoryView>,
) -> (Seq<char>, Seq<char>, Seq<char>) {
    match action {
        ConfirmAction::DeleteRule(id) => (
            "删除划型标准"@,
            "确定删除“"@ + rule_caption(rules, id) + "”吗？"@,
            "删除"@,
        ),
        ConfirmAction::DeleteCategory(id) => (
            "删除行业细类"@,
            "确定删除“"@ + category_caption(cats, id) + "”吗？"@,
            "删除"@,
        ),
        ConfirmAction::RestoreRules => (
            "恢复内置划型标准"@,
            "当前划型标准将被内置《标准 更新.xlsx》覆盖。"@,
            "恢复"@,
        ),
        ConfirmAction::RestoreCategories => (
            "恢复内置行业细类"@,
            "当前行业细类将被内置《行业分类代码注释.xls》覆盖。"@,
            "恢复"@,
        ),
    }
}

/// How a dialog names the rule with `id`.
fn rule_prompt_name(rules: &RuleSet, id: u64) -> (r: String)
    ensures
        r@ == rule_caption(rule_views(rules.rules@), id),
{
    proof {
        lemma_first_rule_found(rule_views(rules.rules@), id, rules.rules@.len() as int);
    }
    match find_rule(&rules.rules, id) {
        Some(k) => {
            let rule = &rules.rules[k];
            let mut t = rule.industry_code.clone();
            t.append(" ");
            t.append(rule.industry_name.as_str());
            t
        },
        None => "该标准".to_owned(),
    }
}

/// How a dialog names the category with `id`.
fn category_prompt_name(categories: &CategorySet, id: u64) -> (r: String)
    ensures
        r@ == category_caption(category_views(categories.categories@), id),
{
    proof {
        lemma_first_category_found(category_views(categories.categories@), id, categories.categories@.len() as int);
    }
    match find_category(&categories.categories, id) {
        Some(k) => {
            let c = &categories.categories[k];
            let mut t = c.level4_code.clone();
            t.append(" ");
            t.append(c.level4_name.as_str());
            t
        },
        None => "该行业细类".to_owned(),
    }
}

/// The dialog that asks before `action` is carried out.
pub fn confirmation_prompt(
    action: ConfirmAction,
    rules: &RuleSet,
    categories: &CategorySet,
) -> (r: ConfirmationPrompt)
    ensures
        r.title@ == prompt_text(action, rule_views(rules.rules@), category_views(categories.categories@)).0,
        r.message@ == prompt_text(action, rule_views(rules.rules@), category_views(categories.categories@)).1,
        r.confirm_label@ == prompt_text(action, rule_views(rules.rules@), category_views(categories.categories@)).2,
        r.destructive == (action is DeleteRule || action is DeleteCategory),
{
    match action {
        ConfirmAction::DeleteRule(id) => ConfirmationPrompt {
            title: "删除划型标准".to_owned(),
            message: message3("确定删除“", rule_prompt_name(rules, id).as_str(), "”吗？"),
            confirm_label: "删除".to_owned(),
            destructive: true,
        },
        ConfirmAction::DeleteCategory(id) => ConfirmationPrompt {
            title: "删除行业细类".to_owned(),
            message: message3("确定删除“", category_prompt_name(categories, id).as_str(), "”吗？"),
            confirm_label: "删除".to_owned(),
            destructive: true,
        },
        ConfirmAction::RestoreRules => ConfirmationPrompt {
            title: "恢复内置划型标准".to_owned(),
            message: "当前划型标准将被内置《标准 更新.xlsx》覆盖。".to_owned(),
            confirm_label: "恢复".to_owned(),
            destructive: false,
        },
        ConfirmAction::RestoreCategories => ConfirmationPrompt {
            title: "恢复内置行业细类".to_owned(),
            message: "当前行业细类将被内置《行业分类代码注释.xls》覆盖。".to_owned(),
            confirm_label: "恢复".to_owned(),
            destructive: false,
        },
    }
}

/// The notice shown when a check has finished.
pub open spec fn finished_text(changed: nat, skipped: nat) -> Seq<char> {
    "核对完成："@ + decimal(changed) + " 行待修改，"@ + decimal(skipped) + " 行已跳过"@
}

pub fn analysis_finished_message(report: &AnalysisReport) -> (r: String)
    ensures
        r@ == finished_text(report.summary.changed_rows as nat, report.summary.skipped_rows as nat),
{
    let mut t = message2("核对完成：", decimal_string(report.summary.changed_rows as u64).as_str());
    t.append(" 行待修改，");
    t.append(decimal_string(report.summary.skipped_rows as u64).as_str());
    t.append(" 行已跳过");
    t
}

} // verus!
