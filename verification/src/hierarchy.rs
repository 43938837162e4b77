//! The four-level hierarchy of industry categories, and the lookup of an
//! industry code in it.

use vstd::prelude::*;
use std::path::PathBuf;
use crate::pattern::{all_ascii_alnum, compile, is_match, section_code};
use crate::sheet::{cell_raw, cell_text, raw_chars, text_chars};
use crate::text::{
    chars_eq, chars_of, decimal, decimal_string, is_ascii_alnum, is_ascii_digit, kept,
    lemma_kept_all, lemma_kept_push, lemma_upper_take, outcome, string_of, trim_chars, trim_seq, upper,
    upper_char, upper_seq, joined, join_strings, string_views, slice_chars,
};

verus! {

/// `normalize_category_code`: upper case, ASCII letters and digits only.
pub open spec fn category_code(value: Seq<char>) -> Seq<char> {
    kept(upper_seq(value), |c: char| is_ascii_alnum(c))
}

pub proof fn lemma_kept_alnum(s: Seq<char>)
    ensures
        all_ascii_alnum(kept(s, |c: char| is_ascii_alnum(c))),
    decreases s.len(),
{
    if s.len() > 0 {
        lemma_kept_alnum(s.drop_last());
    }
}

/// `normalize_category_code` on characters.
pub fn code_of_chars(v: &Vec<char>) -> (r: Vec<char>)
    ensures
        r@ == category_code(v@),
        all_ascii_alnum(r@),
{
    let mut r: Vec<char> = Vec::new();
    let mut i: usize = 0;
    while i < v.len()
        invariant
            i <= v.len(),
            r@ == kept(upper_seq(v@.take(i as int)), |c: char| is_ascii_alnum(c)),
        decreases v.len() - i,
    {
        proof {
            lemma_upper_take(v@, i as int);
            lemma_kept_push(
                upper_seq(v@.take(i as int)),
                upper_char(v@[i as int]),
                |c: char| is_ascii_alnum(c),
            );
        }
        let u = upper(v[i]);
        if ('A' <= u && u <= 'Z') || ('a' <= u && u <= 'z') || ('0' <= u && u <= '9') {
            r.push(u);
        }
        i += 1;
    }
    assert(v@.take(v.len() as int) =~= v@);
    proof {
        lemma_kept_alnum(upper_seq(v@));
    }
    r
}

/// `normalize_category_code` as characters.
pub fn category_code_chars(value: &str) -> (r: Vec<char>)
    ensures
        r@ == category_code(value@),
        all_ascii_alnum(r@),
{
    let v = chars_of(value);
    code_of_chars(&v)
}

/// Upper case, ASCII letters and digits only: the form in which category
/// codes are compared.
pub fn normalize_category_code(value: &str) -> (r: String)
    ensures
        r@ == category_code(value@),
{
    let v = category_code_chars(value);
    string_of(&v)
}

/// `a` is a prefix of `b` (`str::starts_with`).
pub open spec fn prefix_of(a: Seq<char>, b: Seq<char>) -> bool {
    a.len() <= b.len() && b.take(a.len() as int) == a
}

pub fn prefix_of_exec(a: &Vec<char>, b: &Vec<char>) -> (r: bool)
    ensures
        r == prefix_of(a@, b@),
{
    if a.len() > b.len() {
        return false;
    }
    let mut i: usize = 0;
    while i < a.len()
        invariant
            a.len() <= b.len(),
            i <= a.len(),
            forall|k: int| 0 <= k < i ==> a@[k] == b@[k],
        decreases a.len() - i,
    {
        if a[i] != b[i] {
            assert(b@.take(a.len() as int)[i as int] != a@[i as int]);
            return false;
        }
        i += 1;
    }
    assert(b@.take(a.len() as int) =~= a@);
    true
}

/// A category of the fourth level, with the codes and names of the three
/// levels above it.
#[derive(Clone, Debug, PartialEq, Eq)]
pub struct IndustryCategory {
    pub id: u64,
    pub level1_code: String,
    pub level1_name: String,
    pub level2_code: String,
    pub level2_name: String,
    pub level3_code: String,
    pub level3_name: String,
    pub level4_code: String,
    pub level4_name: String,
}

/// What a category states: its id, and the codes and names of its four
/// levels, from the first to the fourth.
pub struct CategoryView {
    pub id: u64,
    pub codes: Seq<Seq<char>>,
    pub names: Seq<Seq<char>>,
}

impl View for IndustryCategory {
    type V = CategoryView;

    open spec fn view(&self) -> CategoryView {
        CategoryView {
            id: self.id,
            codes: seq![self.level1_code@, self.level2_code@, self.level3_code@, self.level4_code@],
            names: seq![self.level1_name@, self.level2_name@, self.level3_name@, self.level4_name@],
        }
    }
}

pub open spec fn category_views(cats: Seq<IndustryCategory>) -> Seq<CategoryView> {
    cats.map_values(|c: IndustryCategory| c@)
}

/// The problem `IndustryCategory::validate` reports for a category, if any.
pub open spec fn category_check(v: CategoryView) -> Result<(), Seq<char>> {
    let l1 = category_code(v.codes[0]);
    let l2 = category_code(v.codes[1]);
    let l3 = category_code(v.codes[2]);
    let l4 = category_code(v.codes[3]);
    if !(section_code(l1, 0) && section_code(l2, 2) && section_code(l3, 3) && section_code(l4, 4)) {
        Err("分类代码格式应依次为 A、A01、A011、A0111"@)
    } else if !(prefix_of(l1, l2) && prefix_of(l2, l3) && prefix_of(l3, l4)) {
        Err("四级分类代码必须保持逐级前缀关系"@)
    } else if trim_seq(v.names[0]).len() == 0 || trim_seq(v.names[1]).len() == 0
        || trim_seq(v.names[2]).len() == 0 || trim_seq(v.names[3]).len() == 0 {
        Err("一级至四级分类名称均不能为空"@)
    } else {
        Ok(())
    }
}

impl IndustryCategory {
    pub open spec fn check(self) -> Result<(), Seq<char>> {
        category_check(self@)
    }

    pub fn validate(&self) -> (r: Result<(), String>)
        ensures
            outcome(r) == self.check(),
    {
        let l1 = category_code_chars(self.level1_code.as_str());
        let l2 = category_code_chars(self.level2_code.as_str());
        let l3 = category_code_chars(self.level3_code.as_str());
        let l4 = category_code_chars(self.level4_code.as_str());
        let s1 = string_of(&l1);
        let s2 = string_of(&l2);
        let s3 = string_of(&l3);
        let s4 = string_of(&l4);
        let ok = match (
            compile("^[A-T]$"),
            compile("^[A-T]\\d{2}$"),
            compile("^[A-T]\\d{3}$"),
            compile("^[A-T]\\d{4}$"),
        ) {
            (Ok(p1), Ok(p2), Ok(p3), Ok(p4)) => {
                is_match(&p1, s1.as_str()) && is_match(&p2, s2.as_str()) && is_match(
                    &p3,
                    s3.as_str(),
                ) && is_match(&p4, s4.as_str())
            },
            _ => vstd::pervasive::unreached(),
        };
        if !ok {
            return Err("分类代码格式应依次为 A、A01、A011、A0111".to_owned());
        }
        if !(prefix_of_exec(&l1, &l2) && prefix_of_exec(&l2, &l3) && prefix_of_exec(&l3, &l4)) {
            return Err("四级分类代码必须保持逐级前缀关系".to_owned());
        }
        let n1 = trim_chars(&chars_of(self.level1_name.as_str()));
        let n2 = trim_chars(&chars_of(self.level2_name.as_str()));
        let n3 = trim_chars(&chars_of(self.level3_name.as_str()));
        let n4 = trim_chars(&chars_of(self.level4_name.as_str()));
        if n1.len() == 0 || n2.len() == 0 || n3.len() == 0 || n4.len() == 0 {
            return Err("一级至四级分类名称均不能为空".to_owned());
        }
        Ok(())
    }

    pub fn normalize(&mut self)
        ensures
            final(self).id == old(self).id,
            final(self).level1_code@ == category_code(old(self).level1_code@),
            final(self).level2_code@ == category_code(old(self).level2_code@),
            final(self).level3_code@ == category_code(old(self).level3_code@),
            final(self).level4_code@ == category_code(old(self).level4_code@),
            final(self).level1_name@ == trim_seq(old(self).level1_name@),
            final(self).level2_name@ == trim_seq(old(self).level2_name@),
            final(self).level3_name@ == trim_seq(old(self).level3_name@),
            final(self).level4_name@ == trim_seq(old(self).level4_name@),
    {
        self.level1_code = normalize_category_code(self.level1_code.as_str());
        self.level2_code = normalize_category_code(self.level2_code.as_str());
        self.level3_code = normalize_category_code(self.level3_code.as_str());
        self.level4_code = normalize_category_code(self.level4_code.as_str());
        self.level1_name = string_of(&trim_chars(&chars_of(self.level1_name.as_str())));
        self.level2_name = string_of(&trim_chars(&chars_of(self.level2_name.as_str())));
        self.level3_name = string_of(&trim_chars(&chars_of(self.level3_name.as_str())));
        self.level4_name = string_of(&trim_chars(&chars_of(self.level4_name.as_str())));
    }

    /// A copy with equal fields.
    pub fn copied(&self) -> (r: IndustryCategory)
        ensures
            r == *self,
    {
        IndustryCategory {
            id: self.id,
            level1_code: self.level1_code.clone(),
            level1_name: self.level1_name.clone(),
            level2_code: self.level2_code.clone(),
            level2_name: self.level2_name.clone(),
            level3_code: self.level3_code.clone(),
            level3_name: self.level3_name.clone(),
            level4_code: self.level4_code.clone(),
            level4_name: self.level4_name.clone(),
        }
    }

    pub fn codes(&self) -> (r: Vec<String>)
        ensures
            r@.len() == 4,
            string_seqs(r@) == self@.codes,
    {
        let mut r: Vec<String> = Vec::new();
        r.push(self.level1_code.clone());
        r.push(self.level2_code.clone());
        r.push(self.level3_code.clone());
        r.push(self.level4_code.clone());
        assert(string_seqs(r@) =~= self@.codes);
        r
    }

    pub fn names(&self) -> (r: Vec<String>)
        ensures
            r@.len() == 4,
            string_seqs(r@) == self@.names,
    {
        let mut r: Vec<String> = Vec::new();
        r.push(self.level1_name.clone());
        r.push(self.level2_name.clone());
        r.push(self.level3_name.clone());
        r.push(self.level4_name.clone());
        assert(string_seqs(r@) =~= self@.names);
        r
    }
}


/// The categories of the hierarchy, with the version of their stored form.
#[derive(Clone, Debug)]
pub struct CategorySet {
    pub version: u32,
    pub categories: Vec<IndustryCategory>,
}

/// The trimmed name given to `code` by the earliest level before level
/// `l` of category `i` (levels taken category by category, level 1 first)
/// whose normalized code is `code`.
pub open spec fn name_before(cats: Seq<CategoryView>, i: int, l: int, code: Seq<char>) -> Option<Seq<char>>
    decreases i, l,
{
    if i < 0 || l < 0 || (i == 0 && l == 0) {
        None
    } else {
        let pi = if l > 0 { i } else { i - 1 };
        let pl = if l > 0 { l - 1 } else { 3 };
        match name_before(cats, pi, pl, code) {
            Some(n) => Some(n),
            None => if category_code(cats[pi].codes[pl]) == code {
                Some(trim_seq(cats[pi].names[pl]))
            } else {
                None
            },
        }
    }
}

/// The message for level `l` of category `i` when an earlier level gave
/// its code another name.
pub open spec fn level_conflict(cats: Seq<CategoryView>, i: int, l: int) -> Option<Seq<char>> {
    let code = category_code(cats[i].codes[l]);
    let name = trim_seq(cats[i].names[l]);
    match name_before(cats, i, l, code) {
        Some(existing) => if existing != name {
            Some(
                "分类代码 "@ + code + " 存在不一致名称：“"@ + existing + "”与“"@ + name + "”"@,
            )
        } else {
            None
        },
        None => None,
    }
}

/// The first name conflict among levels `l` to 4 of category `i`.
pub open spec fn first_conflict(cats: Seq<CategoryView>, i: int, l: int) -> Option<Seq<char>>
    decreases 4 - l,
{
    if l < 0 || l > 3 {
        None
    } else {
        match level_conflict(cats, i, l) {
            Some(m) => Some(m),
            None => first_conflict(cats, i, l + 1),
        }
    }
}

/// The first problem among the categories from index `i` on.
pub open spec fn categories_pass(cats: Seq<CategoryView>, i: int) -> Result<(), Seq<char>>
    decreases cats.len() - i,
{
    if i < 0 || i >= cats.len() {
        Ok(())
    } else if category_check(cats[i]) is Err {
        category_check(cats[i])
    } else if cats[i].id == 0 || exists|j: int| 0 <= j < i && #[trigger] cats[j].id == cats[i].id {
        Err("行业细类 ID "@ + decimal(cats[i].id as nat) + " 无效或重复"@)
    } else if exists|j: int|
        0 <= j < i && category_code(#[trigger] cats[j].codes[3]) == category_code(
            cats[i].codes[3],
        ) {
        Err("四级分类代码 "@ + category_code(cats[i].codes[3]) + " 存在重复记录"@)
    } else if first_conflict(cats, i, 0) is Some {
        Err(first_conflict(cats, i, 0)->0)
    } else {
        categories_pass(cats, i + 1)
    }
}

/// The problem `CategorySet::validate` reports for a list of categories,
/// if any.
pub open spec fn categories_check(cats: Seq<CategoryView>) -> Result<(), Seq<char>> {
    if cats.len() == 0 {
        Err("行业细类列表不能为空"@)
    } else {
        categories_pass(cats, 0)
    }
}

/// The name recorded for `code` in a list of (code, name) pairs, by its
/// first pair.
pub open spec fn recorded_name(codes: Seq<Seq<char>>, names: Seq<Seq<char>>, code: Seq<char>) -> Option<Seq<char>>
    decreases codes.len(),
{
    if codes.len() == 0 {
        None
    } else {
        match recorded_name(codes.drop_last(), names, code) {
            Some(n) => Some(n),
            None => if codes.last() == code {
                Some(names[codes.len() - 1])
            } else {
                None
            },
        }
    }
}

pub open spec fn char_views(v: Seq<Vec<char>>) -> Seq<Seq<char>> {
    v.map_values(|x: Vec<char>| x@)
}

pub proof fn lemma_recorded_stays(codes: Seq<Seq<char>>, names: Seq<Seq<char>>, code: Seq<char>, n: int, m: int)
    requires
        0 <= n <= m <= codes.len(),
        recorded_name(codes.take(n), names, code) is Some,
    ensures
        recorded_name(codes.take(m), names, code) == recorded_name(codes.take(n), names, code),
    decreases m - n,
{
    if m > n {
        lemma_recorded_stays(codes, names, code, n, m - 1);
        assert(codes.take(m).drop_last() =~= codes.take(m - 1));
    }
}

/// Looks up the name recorded for `code`.
fn lookup_name(codes: &Vec<Vec<char>>, names: &Vec<Vec<char>>, code: &Vec<char>) -> (r: Option<usize>)
    requires
        codes.len() == names.len(),
    ensures
        match recorded_name(char_views(codes@), char_views(names@), code@) {
            Some(n) => r matches Some(k) && k < names.len() && names@[k as int]@ == n,
            None => r is None,
        },
{
    let ghost cs = char_views(codes@);
    let ghost ns = char_views(names@);
    let mut k: usize = 0;
    while k < codes.len()
        invariant
            codes.len() == names.len(),
            cs == char_views(codes@),
            ns == char_views(names@),
            k <= codes.len(),
            recorded_name(cs.take(k as int), ns, code@) is None,
        decreases codes.len() - k,
    {
        assert(cs.take(k + 1).drop_last() =~= cs.take(k as int));
        if chars_eq(&codes[k], code) {
            proof {
                assert(recorded_name(cs.take(k + 1), ns, code@) == Some(ns[k as int]));
                lemma_recorded_stays(cs, ns, code@, k + 1, cs.len() as int);
                assert(cs.take(cs.len() as int) =~= cs);
            }
            return Some(k);
        }
        k += 1;
    }
    assert(cs.take(cs.len() as int) =~= cs);
    None
}

/// The highest id among `cats`, or 0.
pub open spec fn max_category_id(cats: Seq<IndustryCategory>) -> nat
    decreases cats.len(),
{
    if cats.len() == 0 {
        0
    } else {
        let m = max_category_id(cats.drop_last());
        if cats.last().id > m {
            cats.last().id as nat
        } else {
            m
        }
    }
}

impl CategorySet {
    pub const VERSION: u32 = 1;

    pub open spec fn check(self) -> Result<(), Seq<char>> {
        categories_check(category_views(self.categories@))
    }

    pub fn new(categories: Vec<IndustryCategory>) -> (r: CategorySet)
        ensures
            r.version == Self::VERSION,
            r.categories@ == categories@,
    {
        CategorySet { version: Self::VERSION, categories }
    }

    pub fn next_id(&self) -> (r: u64)
        requires
            max_category_id(self.categories@) < u64::MAX,
        ensures
            r == max_category_id(self.categories@) + 1,
    {
        let mut m: u64 = 0;
        let mut i: usize = 0;
        while i < self.categories.len()
            invariant
                i <= self.categories.len(),
                m == max_category_id(self.categories@.take(i as int)),
            decreases self.categories.len() - i,
        {
            assert(self.categories@.take(i + 1).drop_last() =~= self.categories@.take(i as int));
            if self.categories[i].id > m {
                m = self.categories[i].id;
            }
            i += 1;
        }
        assert(self.categories@.take(self.categories.len() as int) =~= self.categories@);
        m + 1
    }

    pub fn validate(&self) -> (r: Result<(), String>)
        ensures
            outcome(r) == self.check(),
    {
        let cats = &self.categories;
        let ghost vs = category_views(cats@);
        if cats.len() == 0 {
            return Err("行业细类列表不能为空".to_owned());
        }
        let mut codes: Vec<Vec<char>> = Vec::new();
        let mut names: Vec<Vec<char>> = Vec::new();
        let mut leaf_codes: Vec<Vec<char>> = Vec::new();
        let mut i: usize = 0;
        while i < cats.len()
            invariant
                cats@ == self.categories@,
                    vs == category_views(cats@),
                cats@.len() > 0,
                i <= cats.len(),
                categories_pass(vs, 0) == categories_pass(vs, i as int),
                codes.len() == names.len(),
                leaf_codes.len() == i,
                forall|t: int| 0 <= t < i ==> #[trigger] leaf_codes@[t]@ == category_code(vs[t].codes[3]),
                forall|c: Seq<char>| #[trigger] recorded_name(char_views(codes@), char_views(names@), c) == name_before(vs, i as int, 0, c),
            decreases cats.len() - i,
        {
            let category = &cats[i];
            match category.validate() {
                Ok(()) => {},
                Err(e) => {
                    return Err(e);
                },
            }
            let id = category.id;
            let mut seen = id == 0;
            let mut j: usize = 0;
            while j < i
                invariant
                    i < cats.len(),
                    j <= i,
                    vs == category_views(cats@),
                    id == vs[i as int].id,
                    seen == (id == 0 || exists|k: int| 0 <= k < j && #[trigger] vs[k].id == id),
                decreases i - j,
            {
                assert(vs[j as int].id == cats@[j as int].id);
                if cats[j].id == id {
                    seen = true;
                }
                j += 1;
            }
            if seen {
                let mut m = "行业细类 ID ".to_owned();
                let d = decimal_string(id);
                m.append(d.as_str());
                m.append(" 无效或重复");
                return Err(m);
            }
            let leaf = category_code_chars(category.level4_code.as_str());
            let mut j: usize = 0;
            while j < i
                invariant
                    cats@ == self.categories@,
                    vs == category_views(cats@),
                    cats@.len() > 0,
                    self.check() == categories_pass(vs, i as int),
                    category_check(vs[i as int]) is Ok,
                    !(vs[i as int].id == 0 || exists|k: int| 0 <= k < i && #[trigger] vs[k].id == vs[i as int].id),
                    i < cats.len(),
                    j <= i,
                    leaf_codes.len() == i,
                    leaf@ == category_code(vs[i as int].codes[3]),
                    forall|t: int| 0 <= t < i ==> #[trigger] leaf_codes@[t]@ == category_code(vs[t].codes[3]),
                    forall|k: int| 0 <= k < j ==> category_code(#[trigger] vs[k].codes[3]) != leaf@,
                decreases i - j,
            {
                if chars_eq(&leaf_codes[j], &leaf) {
                    assert(category_code(vs[j as int].codes[3]) == leaf@);
                    let mut m = "四级分类代码 ".to_owned();
                    let ls = string_of(&leaf);
                    m.append(ls.as_str());
                    m.append(" 存在重复记录");
                    return Err(m);
                }
                j += 1;
            }
            let mut l: usize = 0;
            while l < 4
                invariant
                    cats@ == self.categories@,
                    vs == category_views(cats@),
                    cats@.len() > 0,
                    self.check() == categories_pass(vs, i as int),
                    category_check(vs[i as int]) is Ok,
                    !(vs[i as int].id == 0 || exists|k: int| 0 <= k < i && #[trigger] vs[k].id == vs[i as int].id),
                    forall|k: int| 0 <= k < i ==> category_code(#[trigger] vs[k].codes[3]) != category_code(vs[i as int].codes[3]),
                    i < cats.len(),
                    l <= 4,
                    codes.len() == names.len(),
                    *category == cats@[i as int],
                    first_conflict(vs, i as int, 0) == first_conflict(vs, i as int, l as int),
                    forall|c: Seq<char>| #[trigger] recorded_name(char_views(codes@), char_views(names@), c) == name_before(vs, i as int, l as int, c),
                decreases 4 - l,
            {
                let (code_text, name_text) = if l == 0 {
                    (category.level1_code.as_str(), category.level1_name.as_str())
                } else if l == 1 {
                    (category.level2_code.as_str(), category.level2_name.as_str())
                } else if l == 2 {
                    (category.level3_code.as_str(), category.level3_name.as_str())
                } else {
                    (category.level4_code.as_str(), category.level4_name.as_str())
                };
                let code = category_code_chars(code_text);
                let name = trim_chars(&chars_of(name_text));
                assert(code@ == category_code(vs[i as int].codes[l as int]));
                assert(name@ == trim_seq(vs[i as int].names[l as int]));
                match lookup_name(&codes, &names, &code) {
                    Some(k) => {
                        if !chars_eq(&names[k], &name) {
                            let mut m = "分类代码 ".to_owned();
                            m.append(string_of(&code).as_str());
                            m.append(" 存在不一致名称：“");
                            m.append(string_of(&names[k]).as_str());
                            m.append("”与“");
                            m.append(string_of(&name).as_str());
                            m.append("”");
                            assert(level_conflict(vs, i as int, l as int) == Some(m@));
                            return Err(m);
                        }
                        assert(level_conflict(vs, i as int, l as int) is None);
                        proof {
                            assert forall|c: Seq<char>| #[trigger] recorded_name(char_views(codes@), char_views(names@), c) == name_before(vs, i as int, l + 1, c) by {
                                assert(name_before(vs, i as int, l + 1, c) == match name_before(vs, i as int, l as int, c) {
                                    Some(n) => Some(n),
                                    None => if category_code(vs[i as int].codes[l as int]) == c {
                                        Some(trim_seq(vs[i as int].names[l as int]))
                                    } else {
                                        None
                                    },
                                });
                            }
                        }
                    },
                    None => {
                        assert(level_conflict(vs, i as int, l as int) is None);
                        let ghost oc = char_views(codes@);
                        let ghost on = char_views(names@);
                        codes.push(code);
                        names.push(name);
                        proof {
                            assert(char_views(codes@).drop_last() =~= oc);
                            assert(char_views(names@) =~= on.push(name@));
                            assert forall|c: Seq<char>| #[trigger] recorded_name(char_views(codes@), char_views(names@), c) == name_before(vs, i as int, l + 1, c) by {
                                lemma_recorded_extend(oc, on, name@, c);
                                assert(char_views(codes@) =~= oc.push(code@));
                                assert(name_before(vs, i as int, l + 1, c) == match name_before(vs, i as int, l as int, c) {
                                    Some(n) => Some(n),
                                    None => if category_code(vs[i as int].codes[l as int]) == c {
                                        Some(trim_seq(vs[i as int].names[l as int]))
                                    } else {
                                        None
                                    },
                                });
                            }
                        }
                    },
                }
                l += 1;
            }
            proof {
                assert forall|c: Seq<char>| #[trigger] name_before(vs, i as int, 4, c) == name_before(vs, i + 1, 0, c) by {
                }
            }
            leaf_codes.push(leaf);
            i += 1;
        }
        Ok(())
    }
}

/// A recorded name is kept when more pairs follow; a code first seen gets
/// the name of its pair.
pub proof fn lemma_recorded_extend(codes: Seq<Seq<char>>, names: Seq<Seq<char>>, name: Seq<char>, c: Seq<char>)
    requires
        codes.len() == names.len(),
    ensures
        forall|code: Seq<char>| #![trigger codes.push(code)]
            recorded_name(codes.push(code), names.push(name), c) == match recorded_name(codes, names, c) {
                Some(n) => Some(n),
                None => if code == c {
                    Some(name)
                } else {
                    None
                },
            },
{
    assert forall|code: Seq<char>| #![trigger codes.push(code)]
        recorded_name(codes.push(code), names.push(name), c) == match recorded_name(codes, names, c) {
            Some(n) => Some(n),
            None => if code == c {
                Some(name)
            } else {
                None
            },
        } by {
        assert(codes.push(code).drop_last() =~= codes);
        lemma_recorded_names_prefix(codes, names, names.push(name), c);
    }
}

/// Only the names of the pairs that exist matter.
pub proof fn lemma_recorded_names_prefix(codes: Seq<Seq<char>>, names: Seq<Seq<char>>, more: Seq<Seq<char>>, c: Seq<char>)
    requires
        codes.len() <= names.len(),
        codes.len() <= more.len(),
        forall|k: int| 0 <= k < codes.len() ==> names[k] == more[k],
    ensures
        recorded_name(codes, names, c) == recorded_name(codes, more, c),
    decreases codes.len(),
{
    if codes.len() > 0 {
        lemma_recorded_names_prefix(codes.drop_last(), names, more, c);
    }
}


/// The normalized code of a category's fourth level.
pub open spec fn leaf_code(c: CategoryView) -> Seq<char> {
    category_code(c.codes[3])
}

/// The digits of a normalized input, padded with leading zeros to four
/// digits when there are one to three of them.
pub open spec fn padded_digits(normalized: Seq<char>) -> Seq<char> {
    let d = kept(normalized, |c: char| is_ascii_digit(c));
    if 0 < d.len() && d.len() < 4 {
        Seq::new((4 - d.len()) as nat, |i: int| '0') + d
    } else {
        d
    }
}

/// The last of the first `n` leaves whose four-digit code is `numeric`.
pub open spec fn last_numeric(leaves: Seq<CategoryView>, numeric: Seq<char>, n: int) -> Option<int>
    decreases n,
{
    if n <= 0 {
        None
    } else if leaf_code(leaves[n - 1]).skip(1) == numeric {
        Some(n - 1)
    } else {
        last_numeric(leaves, numeric, n - 1)
    }
}

/// The last of the first `n` leaves whose full code is `full`.
pub open spec fn last_full(leaves: Seq<CategoryView>, full: Seq<char>, n: int) -> Option<int>
    decreases n,
{
    if n <= 0 {
        None
    } else if leaf_code(leaves[n - 1]) == full {
        Some(n - 1)
    } else {
        last_full(leaves, full, n - 1)
    }
}

/// The full code an input resolves to: the leaf whose four digits the
/// input's digits name, else the normalized input itself.
pub open spec fn resolved_full_code(leaves: Seq<CategoryView>, input: Seq<char>) -> Seq<char> {
    let normalized = category_code(input);
    match last_numeric(leaves, padded_digits(normalized), leaves.len() as int) {
        Some(i) => leaf_code(leaves[i]),
        None => normalized,
    }
}

/// The leaf an input resolves to, if the hierarchy holds its full code.
pub open spec fn resolved_leaf(leaves: Seq<CategoryView>, input: Seq<char>) -> Option<int> {
    last_full(leaves, resolved_full_code(leaves, input), leaves.len() as int)
}

/// The codes of the levels that a full code implies when the hierarchy
/// does not hold it.
pub open spec fn inferred(full: Seq<char>) -> Seq<Seq<char>> {
    if section_code(full, 4) {
        seq![full.take(1), full.take(3), full.take(4), full]
    } else if full.len() == 0 {
        Seq::empty()
    } else {
        seq![full]
    }
}

pub open spec fn string_seqs(v: Seq<String>) -> Seq<Seq<char>> {
    v.map_values(|s: String| s@)
}

/// One part of a displayed path: the code, and its name when there is one.
pub open spec fn path_part(codes: Seq<Seq<char>>, names: Seq<Seq<char>>, i: int) -> Seq<char> {
    if i < names.len() && names[i].len() > 0 {
        codes[i] + " "@ + names[i]
    } else {
        codes[i]
    }
}

/// A path shown as its parts joined by ` / `.
pub open spec fn path_text(codes: Seq<Seq<char>>, names: Seq<Seq<char>>) -> Seq<char> {
    joined(Seq::new(codes.len(), |i: int| path_part(codes, names, i)), " / "@)
}

/// The codes of the levels an input resolves to.
pub open spec fn resolved_codes(leaves: Seq<CategoryView>, input: Seq<char>) -> Seq<Seq<char>> {
    match resolved_leaf(leaves, input) {
        Some(i) => leaves[i].codes,
        None => inferred(resolved_full_code(leaves, input)),
    }
}

/// The names of the levels an input resolves to (empty where the
/// hierarchy does not hold the code).
pub open spec fn resolved_names(leaves: Seq<CategoryView>, input: Seq<char>) -> Seq<Seq<char>> {
    match resolved_leaf(leaves, input) {
        Some(i) => leaves[i].names,
        None => Seq::new(
            inferred(resolved_full_code(leaves, input)).len(),
            |l: int| Seq::<char>::empty(),
        ),
    }
}

/// The path of an industry code through the hierarchy.
#[derive(Clone, Debug, PartialEq, Eq)]
pub struct IndustryPath {
    pub input_code: String,
    pub full_code: String,
    /// The full codes of the levels from the first to the fourth, such as
    /// C, C38, C383, C3833.
    pub codes: Vec<String>,
    pub names: Vec<String>,
    pub found_in_reference: bool,
}

impl IndustryPath {
    pub open spec fn shown(self) -> Seq<char> {
        path_text(string_seqs(self.codes@), string_seqs(self.names@))
    }

    pub fn display(&self) -> (r: String)
        ensures
            r@ == self.shown(),
    {
        let ghost codes = string_seqs(self.codes@);
        let ghost names = string_seqs(self.names@);
        let mut parts: Vec<String> = Vec::new();
        let mut i: usize = 0;
        while i < self.codes.len()
            invariant
                codes == string_seqs(self.codes@),
                names == string_seqs(self.names@),
                i <= self.codes.len(),
                parts.len() == i,
                forall|k: int| 0 <= k < i ==> #[trigger] parts@[k]@ == path_part(codes, names, k),
            decreases self.codes.len() - i,
        {
            let mut part = self.codes[i].clone();
            if i < self.names.len() && self.names[i].as_str().unicode_len() > 0 {
                part.append(" ");
                part.append(self.names[i].as_str());
            }
            parts.push(part);
            i += 1;
        }
        let r = join_strings(&parts, " / ");
        assert(string_views(parts@) =~= Seq::new(codes.len(), |i: int| path_part(codes, names, i)));
        r
    }
}

/// `inferred` as strings.
fn inferred_codes(full: &Vec<char>) -> (r: Vec<String>)
    ensures
        string_seqs(r@) == inferred(full@),
{
    let mut r: Vec<String> = Vec::new();
    let mut shape = full.len() == 5 && 'A' <= full[0] && full[0] <= 'T';
    if shape {
        let mut i: usize = 1;
        while i < 5
            invariant
                full.len() == 5,
                1 <= i <= 5,
                shape == (forall|k: int| 1 <= k < i ==> is_ascii_digit(#[trigger] full@[k])) && 'A' <= full@[0] && full@[0] <= 'T',
            decreases 5 - i,
        {
            shape = shape && '0' <= full[i] && full[i] <= '9';
            i += 1;
        }
    }
    if shape {
        r.push(string_of(&slice_chars(full, 0, 1)));
        r.push(string_of(&slice_chars(full, 0, 3)));
        r.push(string_of(&slice_chars(full, 0, 4)));
        r.push(string_of(full));
        assert(string_seqs(r@) =~= inferred(full@));
    } else if full.len() == 0 {
        assert(string_seqs(r@) =~= inferred(full@));
    } else {
        r.push(string_of(full));
        assert(string_seqs(r@) =~= inferred(full@));
    }
    r
}

/// The leaves of the hierarchy, by their full and four-digit codes.
#[derive(Debug)]
pub struct HierarchyIndex {
    categories: Vec<IndustryCategory>,
    full_codes: Vec<Vec<char>>,
}

impl Default for HierarchyIndex {
    /// An index of no categories.
    fn default() -> (r: HierarchyIndex)
        ensures
            r.leaves().len() == 0,
    {
        HierarchyIndex { categories: Vec::new(), full_codes: Vec::new() }
    }
}

impl HierarchyIndex {
    #[verifier::type_invariant]
    spec fn well_formed(self) -> bool {
        &&& self.full_codes.len() == self.categories.len()
        &&& forall|i: int| 0 <= i < self.categories.len() ==> #[trigger] self.full_codes@[i]@ == leaf_code(self.leaves()[i])
        &&& forall|i: int| 0 <= i < self.categories.len() ==> section_code(#[trigger] leaf_code(self.leaves()[i]), 4)
        &&& forall|i: int, j: int| 0 <= i < j < self.categories.len() ==> leaf_code(#[trigger] self.leaves()[i]) != leaf_code(#[trigger] self.leaves()[j])
    }

    /// The categories the index was built from, in order.
    pub closed spec fn leaves(self) -> Seq<CategoryView> {
        category_views(self.categories@)
    }

    pub fn from_categories(category_set: &CategorySet) -> (r: Result<HierarchyIndex, String>)
        ensures
            match r {
                Ok(index) => category_set.check() is Ok && index.leaves() == category_views(category_set.categories@),
                Err(e) => category_set.check() == Err::<(), Seq<char>>(e@),
            },
    {
        match category_set.validate() {
            Ok(()) => {},
            Err(e) => {
                return Err(e);
            },
        }
        let cats = &category_set.categories;
        proof {
            lemma_valid_set_leaves(category_views(cats@));
        }
        let mut categories: Vec<IndustryCategory> = Vec::new();
        let mut full_codes: Vec<Vec<char>> = Vec::new();
        let mut i: usize = 0;
        while i < cats.len()
            invariant
                i <= cats.len(),
                categories@ == cats@.take(i as int),
                full_codes.len() == i,
                forall|k: int| 0 <= k < i ==> #[trigger] full_codes@[k]@ == leaf_code(cats@[k]@),
            decreases cats.len() - i,
        {
            full_codes.push(category_code_chars(cats[i].level4_code.as_str()));
            categories.push(cats[i].copied());
            assert(categories@ =~= cats@.take(i + 1));
            i += 1;
        }
        assert(categories@ =~= cats@);
        Ok(HierarchyIndex { categories, full_codes })
    }

    /// The number of distinct full codes in the index.
    pub fn leaf_count(&self) -> (r: usize)
        ensures
            r == self.leaves().len(),
    {
        self.categories.len()
    }

    pub fn resolve(&self, input: &str) -> (r: IndustryPath)
        ensures
            r.input_code@ == trim_seq(input@),
            r.full_code@ == resolved_full_code(self.leaves(), input@),
            match resolved_leaf(self.leaves(), input@) {
                Some(i) => {
                    &&& r.found_in_reference
                    &&& string_seqs(r.codes@) == self.leaves()[i].codes
                    &&& string_seqs(r.names@) == self.leaves()[i].names
                },
                None => {
                    &&& !r.found_in_reference
                    &&& string_seqs(r.codes@) == inferred(r.full_code@)
                    &&& string_seqs(r.names@) == Seq::new(r.codes@.len(), |l: int| Seq::<char>::empty())
                },
            },
            r.found_in_reference == resolved_leaf(self.leaves(), input@) is Some,
            string_seqs(r.codes@) == resolved_codes(self.leaves(), input@),
            string_seqs(r.names@) == resolved_names(self.leaves(), input@),
            leaves_ok(self.leaves()),
    {
        proof {
            use_type_invariant(self);
        }
        let ghost leaves = self.leaves();
        let normalized = category_code_chars(input);
        let mut digits: Vec<char> = Vec::new();
        let mut i: usize = 0;
        while i < normalized.len()
            invariant
                i <= normalized.len(),
                digits@ == kept(normalized@.take(i as int), |c: char| is_ascii_digit(c)),
            decreases normalized.len() - i,
        {
            proof {
                assert(normalized@.take(i + 1) =~= normalized@.take(i as int).push(normalized@[i as int]));
                lemma_kept_push(normalized@.take(i as int), normalized@[i as int], |c: char| is_ascii_digit(c));
            }
            let c = normalized[i];
            if '0' <= c && c <= '9' {
                digits.push(c);
            }
            i += 1;
        }
        assert(normalized@.take(normalized.len() as int) =~= normalized@);
        let numeric = if digits.len() > 0 && digits.len() < 4 {
            let mut p: Vec<char> = Vec::new();
            while p.len() < 4 - digits.len()
                invariant
                    0 < digits.len() < 4,
                    p.len() <= 4 - digits.len(),
                    p@ == Seq::new(p.len() as nat, |k: int| '0'),
                decreases 4 - digits.len() - p.len(),
            {
                p.push('0');
                assert(p@ =~= Seq::new(p.len() as nat, |k: int| '0'));
            }
            let mut k: usize = 0;
            let ghost zeros = p@;
            while k < digits.len()
                invariant
                    k <= digits.len(),
                    p@ == zeros + digits@.take(k as int),
                decreases digits.len() - k,
            {
                p.push(digits[k]);
                assert(p@ =~= zeros + digits@.take(k + 1));
                k += 1;
            }
            assert(digits@.take(digits.len() as int) =~= digits@);
            p
        } else {
            digits
        };
        assert(numeric@ == padded_digits(normalized@));
        let mut n: usize = self.categories.len();
        let mut found: Option<usize> = None;
        while n > 0
            invariant
                n <= self.categories.len(),
                self.full_codes.len() == self.categories.len(),
                forall|q: int| 0 <= q < self.categories.len() ==> #[trigger] self.full_codes@[q]@ == leaf_code(self.leaves()[q]),
                forall|q: int| 0 <= q < self.categories.len() ==> section_code(#[trigger] leaf_code(self.leaves()[q]), 4),
                found is Some ==> n == 0,
                match found {
                    Some(k) => k < self.categories.len() && last_numeric(self.leaves(), numeric@, self.categories.len() as int) == Some(k as int),
                    None => last_numeric(self.leaves(), numeric@, self.categories.len() as int) == last_numeric(self.leaves(), numeric@, n as int),
                },
            decreases n,
        {
            let code = &self.full_codes[n - 1];
            let tail = slice_chars(code, 1, code.len());
            assert(tail@ =~= leaf_code(self.leaves()[n - 1]).skip(1));
            if chars_eq(&tail, &numeric) {
                assert(last_numeric(self.leaves(), numeric@, n as int) == Some(n - 1));
                found = Some(n - 1);
                n = 0;
            } else {
                n -= 1;
            }
        }
        let full: Vec<char> = match found {
            Some(k) => {
                assert(last_numeric(self.leaves(), numeric@, self.categories.len() as int) == Some(k as int));
                slice_chars(&self.full_codes[k], 0, self.full_codes[k].len())
            },
            None => {
                assert(last_numeric(self.leaves(), numeric@, self.categories.len() as int) is None);
                normalized
            },
        };
        assert(full@ =~= resolved_full_code(leaves, input@));
        let mut n: usize = self.categories.len();
        let mut leaf: Option<usize> = None;
        while n > 0
            invariant
                n <= self.categories.len(),
                self.full_codes.len() == self.categories.len(),
                forall|q: int| 0 <= q < self.categories.len() ==> #[trigger] self.full_codes@[q]@ == leaf_code(self.leaves()[q]),
                leaf is Some ==> n == 0,
                match leaf {
                    Some(k) => k < self.categories.len() && last_full(self.leaves(), full@, self.categories.len() as int) == Some(k as int),
                    None => last_full(self.leaves(), full@, self.categories.len() as int) == last_full(self.leaves(), full@, n as int),
                },
            decreases n,
        {
            if chars_eq(&self.full_codes[n - 1], &full) {
                assert(last_full(self.leaves(), full@, n as int) == Some(n - 1));
                leaf = Some(n - 1);
                n = 0;
            } else {
                n -= 1;
            }
        }
        let input_code = string_of(&trim_chars(&chars_of(input)));
        let full_code = string_of(&full);
        match leaf {
            Some(k) => {
                assert(resolved_leaf(leaves, input@) == Some(k as int));
                let codes = self.categories[k].codes();
                let names = self.categories[k].names();
                IndustryPath { input_code, full_code, codes, names, found_in_reference: true }
            },
            None => {
                assert(resolved_leaf(leaves, input@) is None);
                let codes = inferred_codes(&full);
                let mut names: Vec<String> = Vec::new();
                while names.len() < codes.len()
                    invariant
                        names.len() <= codes.len(),
                        forall|q: int| 0 <= q < names.len() ==> (#[trigger] names@[q])@ == Seq::<char>::empty(),
                    decreases codes.len() - names.len(),
                {
                    names.push(String::new());
                }
                assert(string_seqs(names@) =~= Seq::new(codes@.len(), |l: int| Seq::<char>::empty()));
                IndustryPath { input_code, full_code, codes, names, found_in_reference: false }
            },
        }
    }
}

/// The leaf codes of a set that passes its check are section codes of
/// four digits, and no two are equal.
pub proof fn lemma_valid_set_leaves(cats: Seq<CategoryView>)
    requires
        cats.len() > 0 ==> categories_pass(cats, 0) is Ok,
    ensures
        forall|i: int| 0 <= i < cats.len() ==> section_code(#[trigger] leaf_code(cats[i]), 4),
        forall|i: int, j: int| 0 <= i < j < cats.len() ==> leaf_code(#[trigger] cats[i]) != leaf_code(#[trigger] cats[j]),
{
    assert forall|n: int| 0 <= n <= cats.len() implies categories_pass(cats, n) is Ok && (forall|i: int| 0 <= i < n ==> section_code(#[trigger] leaf_code(cats[i]), 4)) && (forall|i: int, j: int| 0 <= i < j < n ==> leaf_code(#[trigger] cats[i]) != leaf_code(#[trigger] cats[j])) by {
        lemma_pass_prefix(cats, n);
    }
    assert(categories_pass(cats, cats.len() as int) is Ok);
}

pub proof fn lemma_pass_prefix(cats: Seq<CategoryView>, n: int)
    requires
        0 <= n <= cats.len(),
        cats.len() > 0 ==> categories_pass(cats, 0) is Ok,
    ensures
        categories_pass(cats, n) is Ok,
        forall|i: int| 0 <= i < n ==> section_code(#[trigger] leaf_code(cats[i]), 4),
        forall|i: int, j: int| 0 <= i < j < n ==> leaf_code(#[trigger] cats[i]) != leaf_code(#[trigger] cats[j]),
    decreases n,
{
    if n > 0 {
        lemma_pass_prefix(cats, n - 1);
        let k = n - 1;
        assert(category_check(cats[k]) is Ok);
        assert forall|i: int, j: int| 0 <= i < j < n implies leaf_code(#[trigger] cats[i]) != leaf_code(#[trigger] cats[j]) by {
            if j == k {
                assert(category_code(cats[i].codes[3]) != category_code(cats[k].codes[3]));
            }
        }
    }
}


/// A code that the hierarchy's code pattern accepts: a section letter,
/// alone or followed by two, three or four digits.
pub open spec fn listed_code(c: Seq<char>) -> bool {
    section_code(c, 0) || section_code(c, 2) || section_code(c, 3) || section_code(c, 4)
}

/// The normalized code in cell `k` of a row.
pub open spec fn row_code(row: Seq<Option<String>>, k: int) -> Seq<char> {
    category_code(cell_text(row, k))
}

/// The name a row gives: column I, or column B where I is blank.
pub open spec fn row_name(row: Seq<Option<String>>) -> Seq<char> {
    if cell_text(row, 8).len() > 0 {
        cell_text(row, 8)
    } else {
        cell_text(row, 1)
    }
}

/// The name recorded for `code` after one more occurrence of `c` with
/// `name`: the first occurrence records its name, and a later one replaces
/// an empty name with a non-empty one.
pub open spec fn noted_step(prev: Option<Seq<char>>, c: Seq<char>, name: Seq<char>, code: Seq<char>) -> Option<Seq<char>> {
    if listed_code(c) && c == code {
        match prev {
            None => Some(name),
            Some(e) => if e.len() == 0 && name.len() > 0 {
                Some(name)
            } else {
                Some(e)
            },
        }
    } else {
        prev
    }
}

/// The name recorded for `code` from the codes in columns F, G and H of
/// the first `n` rows, each with the name its row gives.
pub open spec fn noted_name(rows: Seq<Vec<Option<String>>>, n: int, code: Seq<char>) -> Option<Seq<char>>
    decreases n,
{
    if n <= 0 {
        None
    } else {
        let row = rows[n - 1]@;
        let name = row_name(row);
        let a = noted_step(noted_name(rows, n - 1, code), row_code(row, 5), name, code);
        let b = noted_step(a, row_code(row, 6), name, code);
        noted_step(b, row_code(row, 7), name, code)
    }
}

/// The four digits that column E gives: its ASCII digits, padded with
/// leading zeros, when there are one to four of them.
pub open spec fn four_digits(raw: Seq<char>) -> Option<Seq<char>> {
    let d = kept(raw, |c: char| is_ascii_digit(c));
    if 0 < d.len() && d.len() <= 4 {
        Some(Seq::new((4 - d.len()) as nat, |i: int| '0') + d)
    } else {
        None
    }
}

/// What one row of the hierarchy table gives.
pub enum RowReading {
    /// Not a row of a fourth-level category.
    Skip,
    /// A fourth-level row that cannot be read, with the message.
    Fail(Seq<char>),
    /// The codes and names of the four levels of a category.
    Leaf(Seq<Seq<char>>, Seq<Seq<char>>),
}

/// The message for row `i` (counted from 0) of the hierarchy table.
pub open spec fn row_message(i: int, rest: Seq<char>) -> Seq<char> {
    "行业分类表第 "@ + decimal((i + 1) as nat) + rest
}

pub open spec fn leaf_reading(rows: Seq<Vec<Option<String>>>, i: int) -> RowReading {
    let row = rows[i]@;
    let l4 = row_code(row, 7);
    let digits = kept(cell_raw(row, 4), |c: char| is_ascii_digit(c));
    let looks_like_leaf = (l4.len() >= 5 && 'A' <= l4[0] && l4[0] <= 'T') || digits.len() >= 3;
    if !looks_like_leaf {
        RowReading::Skip
    } else if !(l4.len() == 5 && listed_code(l4)) {
        RowReading::Fail(row_message(i, " 行的四级完整代码无效："@ + (if l4.len() == 0 { "空"@ } else { l4 })))
    } else {
        match four_digits(cell_raw(row, 4)) {
            None => RowReading::Fail(row_message(i, " 行的 E 列四级数字代码无效"@)),
            Some(num) => if num != l4.skip(1) {
                RowReading::Fail(row_message(i, " 行的 E/H 代码不一致："@ + num + " 与 "@ + l4))
            } else {
                let l1 = l4.take(1);
                let l2 = l4.take(3);
                let e3 = row_code(row, 6);
                let l3 = if e3.len() == 4 && listed_code(e3) { e3 } else { l4.take(4) };
                let n = rows.len() as int;
                if noted_name(rows, n, l1) is None {
                    RowReading::Fail(row_message(i, " 行缺少一级分类 "@ + l1))
                } else if noted_name(rows, n, l2) is None {
                    RowReading::Fail(row_message(i, " 行缺少二级分类 "@ + l2))
                } else if noted_name(rows, n, l3) is None {
                    RowReading::Fail(row_message(i, " 行缺少三级分类 "@ + l3))
                } else if row_name(row).len() == 0 {
                    RowReading::Fail(row_message(i, " 行的四级分类名称为空"@))
                } else {
                    RowReading::Leaf(
                        seq![l1, l2, l3, l4],
                        seq![
                            noted_name(rows, n, l1)->0,
                            noted_name(rows, n, l2)->0,
                            noted_name(rows, n, l3)->0,
                            row_name(row),
                        ],
                    )
                }
            },
        }
    }
}

/// The categories the first `n` rows give, numbered from 1, or the first
/// message.
pub open spec fn category_rows(rows: Seq<Vec<Option<String>>>, n: int) -> Result<Seq<CategoryView>, Seq<char>>
    decreases n,
{
    if n <= 0 {
        Ok(Seq::empty())
    } else {
        match category_rows(rows, n - 1) {
            Err(m) => Err(m),
            Ok(prev) => match leaf_reading(rows, n - 1) {
                RowReading::Skip => Ok(prev),
                RowReading::Fail(m) => Err(m),
                RowReading::Leaf(codes, names) => Ok(
                    prev.push(CategoryView { id: (prev.len() + 1) as u64, codes, names }),
                ),
            },
        }
    }
}

/// The categories a hierarchy table gives once checked as a set.
pub open spec fn category_table(rows: Seq<Vec<Option<String>>>) -> Result<Seq<CategoryView>, Seq<char>> {
    match category_rows(rows, rows.len() as int) {
        Err(m) => Err(m),
        Ok(views) => match categories_check(views) {
            Err(m) => Err(m),
            Ok(()) => Ok(views),
        },
    }
}

/// The ASCII digits of `v`, in order.
pub fn digits_of(v: &Vec<char>) -> (r: Vec<char>)
    ensures
        r@ == kept(v@, |c: char| is_ascii_digit(c)),
{
    let mut r: Vec<char> = Vec::new();
    let mut i: usize = 0;
    while i < v.len()
        invariant
            i <= v.len(),
            r@ == kept(v@.take(i as int), |c: char| is_ascii_digit(c)),
        decreases v.len() - i,
    {
        proof {
            assert(v@.take(i + 1) =~= v@.take(i as int).push(v@[i as int]));
            lemma_kept_push(v@.take(i as int), v@[i as int], |c: char| is_ascii_digit(c));
        }
        if '0' <= v[i] && v[i] <= '9' {
            r.push(v[i]);
        }
        i += 1;
    }
    assert(v@.take(v.len() as int) =~= v@);
    r
}

/// `d` with leading zeros up to four characters.
pub fn zero_padded(d: &Vec<char>) -> (r: Vec<char>)
    requires
        d.len() <= 4,
    ensures
        r@ == Seq::new((4 - d.len()) as nat, |i: int| '0') + d@,
{
    let mut p: Vec<char> = Vec::new();
    while p.len() < 4 - d.len()
        invariant
            d.len() <= 4,
            p.len() <= 4 - d.len(),
            p@ == Seq::new(p.len() as nat, |k: int| '0'),
        decreases 4 - d.len() - p.len(),
    {
        p.push('0');
        assert(p@ =~= Seq::new(p.len() as nat, |k: int| '0'));
    }
    let ghost zeros = p@;
    let mut k: usize = 0;
    while k < d.len()
        invariant
            k <= d.len(),
            p@ == zeros + d@.take(k as int),
        decreases d.len() - k,
    {
        p.push(d[k]);
        assert(p@ =~= zeros + d@.take(k + 1));
        k += 1;
    }
    assert(d@.take(d.len() as int) =~= d@);
    p
}

/// `four_digits` on characters.
fn four_digits_of(raw: &Vec<char>) -> (r: Option<Vec<char>>)
    ensures
        match four_digits(raw@) {
            Some(x) => r matches Some(y) && y@ == x,
            None => r is None,
        },
{
    let d = digits_of(raw);
    if 0 < d.len() && d.len() <= 4 {
        Some(zero_padded(&d))
    } else {
        None
    }
}

/// A message: `prefix`, the decimal form of `n`, then `rest`.
pub fn numbered(prefix: &str, n: u64, rest: &str) -> (r: String)
    ensures
        r@ == prefix@ + decimal(n as nat) + rest@,
{
    let mut m = prefix.to_owned();
    let d = decimal_string(n);
    m.append(d.as_str());
    m.append(rest);
    m
}

/// The codes and names the rows give for lookups of recorded names.
struct RowCodes {
    f: Vec<Vec<char>>,
    g: Vec<Vec<char>>,
    h: Vec<Vec<char>>,
    names: Vec<Vec<char>>,
}

impl RowCodes {
    spec fn reads(self, rows: Seq<Vec<Option<String>>>) -> bool {
        &&& self.f.len() == rows.len()
        &&& self.g.len() == rows.len()
        &&& self.h.len() == rows.len()
        &&& self.names.len() == rows.len()
        &&& forall|t: int| 0 <= t < rows.len() ==> #[trigger] self.f@[t]@ == row_code(rows[t]@, 5)
        &&& forall|t: int| 0 <= t < rows.len() ==> #[trigger] self.g@[t]@ == row_code(rows[t]@, 6)
        &&& forall|t: int| 0 <= t < rows.len() ==> #[trigger] self.h@[t]@ == row_code(rows[t]@, 7)
        &&& forall|t: int| 0 <= t < rows.len() ==> #[trigger] self.names@[t]@ == row_name(rows[t]@)
    }

    fn read(rows: &Vec<Vec<Option<String>>>) -> (r: RowCodes)
        ensures
            r.reads(rows@),
    {
        let mut r = RowCodes { f: Vec::new(), g: Vec::new(), h: Vec::new(), names: Vec::new() };
        let mut i: usize = 0;
        while i < rows.len()
            invariant
                i <= rows.len(),
                r.f.len() == i,
                r.g.len() == i,
                r.h.len() == i,
                r.names.len() == i,
                forall|t: int| 0 <= t < i ==> #[trigger] r.f@[t]@ == row_code(rows@[t]@, 5),
                forall|t: int| 0 <= t < i ==> #[trigger] r.g@[t]@ == row_code(rows@[t]@, 6),
                forall|t: int| 0 <= t < i ==> #[trigger] r.h@[t]@ == row_code(rows@[t]@, 7),
                forall|t: int| 0 <= t < i ==> #[trigger] r.names@[t]@ == row_name(rows@[t]@),
            decreases rows.len() - i,
        {
            let row = &rows[i];
            r.f.push(code_of_chars(&text_chars(row, 5)));
            r.g.push(code_of_chars(&text_chars(row, 6)));
            r.h.push(code_of_chars(&text_chars(row, 7)));
            let i_text = text_chars(row, 8);
            if i_text.len() > 0 {
                r.names.push(i_text);
            } else {
                r.names.push(text_chars(row, 1));
            }
            i += 1;
        }
        r
    }

    /// The name recorded for a listed `code`.
    fn noted(&self, code: &Vec<char>, Ghost(rows): Ghost<Seq<Vec<Option<String>>>>) -> (r: Option<Vec<char>>)
        requires
            self.reads(rows),
            listed_code(code@),
        ensures
            match noted_name(rows, rows.len() as int, code@) {
                Some(x) => r matches Some(y) && y@ == x,
                None => r is None,
            },
    {
        let mut found = false;
        let mut name: Vec<char> = Vec::new();
        let mut i: usize = 0;
        while i < self.f.len()
            invariant
                self.reads(rows),
                listed_code(code@),
                i <= rows.len(),
                found == noted_name(rows, i as int, code@) is Some,
                found ==> name@ == noted_name(rows, i as int, code@)->0,
            decreases rows.len() - i,
        {
            let ghost row = rows[i as int]@;
            let n = &self.names[i];
            if chars_eq(&self.f[i], code) && (!found || (name.len() == 0 && n.len() > 0)) {
                name = n.clone();
                found = true;
            }
            assert(found == noted_step(noted_name(rows, i as int, code@), row_code(row, 5), row_name(row), code@) is Some);
            if chars_eq(&self.g[i], code) && (!found || (name.len() == 0 && n.len() > 0)) {
                name = n.clone();
                found = true;
            }
            if chars_eq(&self.h[i], code) && (!found || (name.len() == 0 && n.len() > 0)) {
                name = n.clone();
                found = true;
            }
            i += 1;
        }
        if found {
            Some(name)
        } else {
            None
        }
    }
}

/// Reads the categories of the hierarchy from the rows of its table: each
/// row whose column H holds a full fourth-level code, or whose column E
/// holds three or more digits, is one category, whose names of the upper
/// levels come from the rows that list their codes.
pub fn parse_category_range(rows: &Vec<Vec<Option<String>>>) -> (r: Result<CategorySet, String>)
    ensures
        match category_table(rows@) {
            Ok(views) => r matches Ok(set) && set.version == CategorySet::VERSION
                && category_views(set.categories@) == views,
            Err(m) => r matches Err(e) && e@ == m,
        },
{
    let pattern = match compile("^[A-T](?:\\d{2}|\\d{3}|\\d{4})?$") {
        Ok(p) => p,
        Err(_) => vstd::pervasive::unreached(),
    };
    let table = RowCodes::read(rows);
    let mut categories: Vec<IndustryCategory> = Vec::new();
    assert(category_views(categories@) =~= Seq::<CategoryView>::empty());
    let mut i: usize = 0;
    while i < rows.len()
        invariant
            i <= rows.len(),
            table.reads(rows@),
            pattern.source() == "^[A-T](?:\\d{2}|\\d{3}|\\d{4})?$"@,
            category_rows(rows@, i as int) == Ok::<Seq<CategoryView>, Seq<char>>(category_views(categories@)),
            categories.len() <= i,
        decreases rows.len() - i,
    {
        let row = &rows[i];
        let l4 = code_of_chars(&text_chars(row, 7));
        let raw = raw_chars(row, 4);
        let digits = digits_of(&raw);
        let looks_like_leaf = (l4.len() >= 5 && 'A' <= l4[0] && l4[0] <= 'T') || digits.len() >= 3;
        assert(category_rows(rows@, i + 1) == match leaf_reading(rows@, i as int) {
            RowReading::Skip => Ok(category_views(categories@)),
            RowReading::Fail(m) => Err(m),
            RowReading::Leaf(codes, names) => Ok(category_views(categories@).push(CategoryView { id: (categories.len() + 1) as u64, codes, names })),
        });
        if !looks_like_leaf {
            i += 1;
            continue;
        }
        let l4_text = string_of(&l4);
        let number = (i + 1) as u64;
        if !(l4.len() == 5 && is_match(&pattern, l4_text.as_str())) {
            let mut m = numbered("行业分类表第 ", number, " 行的四级完整代码无效：");
            if l4.len() == 0 {
                m.append("空");
            } else {
                m.append(l4_text.as_str());
            }
            assert(m@ =~= row_message(i as int, " 行的四级完整代码无效："@ + (if l4@.len() == 0 { "空"@ } else { l4@ })));
            assert(leaf_reading(rows@, i as int) == RowReading::Fail(m@));
            assert(category_table(rows@) == Err::<Seq<CategoryView>, Seq<char>>(m@)) by {
                lemma_rows_fail(rows@, i + 1);
            }
            return Err(m);
        }
        assert(section_code(l4@, 4));
        let num = match four_digits_of(&raw) {
            Some(x) => x,
            None => {
                let m = numbered("行业分类表第 ", number, " 行的 E 列四级数字代码无效");
                assert(leaf_reading(rows@, i as int) == RowReading::Fail(m@));
                assert(category_table(rows@) == Err::<Seq<CategoryView>, Seq<char>>(m@)) by {
                    lemma_rows_fail(rows@, i + 1);
                }
                return Err(m);
            },
        };
        let tail = slice_chars(&l4, 1, 5);
        assert(tail@ =~= l4@.skip(1));
        if !chars_eq(&num, &tail) {
            let mut m = numbered("行业分类表第 ", number, " 行的 E/H 代码不一致：");
            m.append(string_of(&num).as_str());
            m.append(" 与 ");
            m.append(l4_text.as_str());
            assert(m@ =~= row_message(i as int, " 行的 E/H 代码不一致："@ + num@ + " 与 "@ + l4@));
            assert(leaf_reading(rows@, i as int) == RowReading::Fail(m@));
            assert(category_table(rows@) == Err::<Seq<CategoryView>, Seq<char>>(m@)) by {
                lemma_rows_fail(rows@, i + 1);
            }
            return Err(m);
        }
        let l1 = slice_chars(&l4, 0, 1);
        let l2 = slice_chars(&l4, 0, 3);
        let e3 = code_of_chars(&text_chars(row, 6));
        let e3_text = string_of(&e3);
        let l3 = if e3.len() == 4 && is_match(&pattern, e3_text.as_str()) {
            e3
        } else {
            slice_chars(&l4, 0, 4)
        };
        assert(l1@ =~= l4@.take(1));
        assert(l2@ =~= l4@.take(3));
        assert(section_code(l1@, 0));
        assert(section_code(l2@, 2));
        assert(section_code(l3@, 3));
        let ghost n = rows@.len() as int;
        let n1 = match table.noted(&l1, Ghost(rows@)) {
            Some(x) => x,
            None => {
                let mut m = numbered("行业分类表第 ", number, " 行缺少一级分类 ");
                m.append(string_of(&l1).as_str());
                assert(m@ =~= row_message(i as int, " 行缺少一级分类 "@ + l1@));
                assert(leaf_reading(rows@, i as int) == RowReading::Fail(m@));
                assert(category_table(rows@) == Err::<Seq<CategoryView>, Seq<char>>(m@)) by {
                    lemma_rows_fail(rows@, i + 1);
                }
                return Err(m);
            },
        };
        let n2 = match table.noted(&l2, Ghost(rows@)) {
            Some(x) => x,
            None => {
                let mut m = numbered("行业分类表第 ", number, " 行缺少二级分类 ");
                m.append(string_of(&l2).as_str());
                assert(m@ =~= row_message(i as int, " 行缺少二级分类 "@ + l2@));
                assert(leaf_reading(rows@, i as int) == RowReading::Fail(m@));
                assert(category_table(rows@) == Err::<Seq<CategoryView>, Seq<char>>(m@)) by {
                    lemma_rows_fail(rows@, i + 1);
                }
                return Err(m);
            },
        };
        let n3 = match table.noted(&l3, Ghost(rows@)) {
            Some(x) => x,
            None => {
                let mut m = numbered("行业分类表第 ", number, " 行缺少三级分类 ");
                m.append(string_of(&l3).as_str());
                assert(m@ =~= row_message(i as int, " 行缺少三级分类 "@ + l3@));
                assert(leaf_reading(rows@, i as int) == RowReading::Fail(m@));
                assert(category_table(rows@) == Err::<Seq<CategoryView>, Seq<char>>(m@)) by {
                    lemma_rows_fail(rows@, i + 1);
                }
                return Err(m);
            },
        };
        let n4 = table.names[i].clone();
        if n4.len() == 0 {
            let m = numbered("行业分类表第 ", number, " 行的四级分类名称为空");
            assert(leaf_reading(rows@, i as int) == RowReading::Fail(m@));
            assert(category_table(rows@) == Err::<Seq<CategoryView>, Seq<char>>(m@)) by {
                lemma_rows_fail(rows@, i + 1);
            }
            return Err(m);
        }
        let ghost before = category_views(categories@);
        let category = IndustryCategory {
            id: categories.len() as u64 + 1,
            level1_code: string_of(&l1),
            level1_name: string_of(&n1),
            level2_code: string_of(&l2),
            level2_name: string_of(&n2),
            level3_code: string_of(&l3),
            level3_name: string_of(&n3),
            level4_code: l4_text,
            level4_name: string_of(&n4),
        };
        assert(leaf_reading(rows@, i as int) == RowReading::Leaf(category@.codes, category@.names));
        categories.push(category);
        assert(category_views(categories@) =~= before.push(category@));
        i += 1;
    }
    assert(category_rows(rows@, rows@.len() as int) == Ok::<Seq<CategoryView>, Seq<char>>(category_views(categories@)));
    let set = CategorySet::new(categories);
    match set.validate() {
        Ok(()) => Ok(set),
        Err(e) => Err(e),
    }
}

/// A table whose rows fail by row `n` fails with the same message.
pub proof fn lemma_rows_fail(rows: Seq<Vec<Option<String>>>, n: int)
    requires
        0 <= n <= rows.len(),
        category_rows(rows, n) is Err,
    ensures
        category_table(rows) == Err::<Seq<CategoryView>, Seq<char>>(category_rows(rows, n)->Err_0),
    decreases rows.len() - n,
{
    if n < rows.len() {
        lemma_rows_fail(rows, n + 1);
    }
}


/// Where the edited hierarchy is kept.
#[derive(Clone, Debug)]
pub struct CategoryRepository {
    path: PathBuf,
}

impl CategoryRepository {
    /// The file of the repository.
    pub closed spec fn file(self) -> PathBuf {
        self.path
    }

    pub fn at(path: PathBuf) -> (r: CategoryRepository)
        ensures
            r.file() == path,
    {
        CategoryRepository { path }
    }

    pub fn path(&self) -> (r: &PathBuf)
        ensures
            *r == self.file(),
    {
        &self.path
    }

    /// Accepts a stored hierarchy: its version must be this library's, and
    /// the categories must pass their check.
    pub fn check_loaded(categories: CategorySet) -> (r: Result<CategorySet, String>)
        ensures
            categories.version != CategorySet::VERSION ==> (r matches Err(e) && e@ == "行业细类配置版本 "@
                + decimal(categories.version as nat) + " 不受支持，当前版本为 "@ + decimal(
                CategorySet::VERSION as nat,
            )),
            categories.version == CategorySet::VERSION ==> match categories.check() {
                Ok(()) => r matches Ok(s) && s.version == categories.version && s.categories@
                    == categories.categories@,
                Err(m) => r matches Err(e) && e@ == m,
            },
    {
        if categories.version != CategorySet::VERSION {
            let mut m = "行业细类配置版本 ".to_owned();
            m.append(decimal_string(categories.version as u64).as_str());
            m.append(" 不受支持，当前版本为 ");
            m.append(decimal_string(CategorySet::VERSION as u64).as_str());
            return Err(m);
        }
        match categories.validate() {
            Ok(()) => Ok(categories),
            Err(e) => Err(e),
        }
    }
}


/// The highest id is at least every id.
pub proof fn lemma_max_category_id(cats: Seq<IndustryCategory>)
    ensures
        forall|i: int| 0 <= i < cats.len() ==> (#[trigger] cats[i]).id <= max_category_id(cats),
    decreases cats.len(),
{
    if cats.len() > 0 {
        lemma_max_category_id(cats.drop_last());
        assert forall|i: int| 0 <= i < cats.len() implies (#[trigger] cats[i]).id <= max_category_id(cats) by {
            if i < cats.len() - 1 {
                assert(cats[i] == cats.drop_last()[i]);
            }
        }
    }
}

/// The id `next_id` gives is not the id of any category.
pub proof fn lemma_next_category_id_is_new(cats: Seq<IndustryCategory>)
    ensures
        forall|i: int| 0 <= i < cats.len() ==> (#[trigger] cats[i]).id != max_category_id(cats) + 1,
{
    lemma_max_category_id(cats);
}

/// The categories read from a hierarchy table are numbered 1, 2, 3, ... in
/// the order of their rows.
pub proof fn lemma_table_ids_count_up(rows: Seq<Vec<Option<String>>>, n: int)
    requires
        category_rows(rows, n) is Ok,
        n < u64::MAX,
    ensures
        forall|k: int| 0 <= k < category_rows(rows, n)->Ok_0.len() ==> (#[trigger] category_rows(rows, n)->Ok_0[k]).id == k + 1,
    decreases n,
{
    if n > 0 {
        lemma_table_ids_count_up(rows, n - 1);
        let prev = category_rows(rows, n - 1)->Ok_0;
        assert(prev.len() < u64::MAX) by {
            lemma_table_size(rows, n - 1);
        }
    }
}

/// No more categories than rows are read.
pub proof fn lemma_table_size(rows: Seq<Vec<Option<String>>>, n: int)
    requires
        category_rows(rows, n) is Ok,
    ensures
        category_rows(rows, n)->Ok_0.len() <= if n < 0 { 0 } else { n },
    decreases n,
{
    if n > 0 {
        lemma_table_size(rows, n - 1);
    }
}

/// Within the first `n` leaves, a leaf with the same four digits is found
/// by those digits, and it is the last such leaf.
pub proof fn lemma_last_numeric(leaves: Seq<CategoryView>, numeric: Seq<char>, n: int)
    requires
        0 <= n <= leaves.len(),
    ensures
        match last_numeric(leaves, numeric, n) {
            Some(k) => 0 <= k < n && leaf_code(leaves[k]).skip(1) == numeric && forall|j: int|
                k < j < n ==> leaf_code(#[trigger] leaves[j]).skip(1) != numeric,
            None => forall|j: int| 0 <= j < n ==> leaf_code(#[trigger] leaves[j]).skip(1) != numeric,
        },
    decreases n,
{
    if n > 0 {
        lemma_last_numeric(leaves, numeric, n - 1);
    }
}

pub proof fn lemma_last_full(leaves: Seq<CategoryView>, full: Seq<char>, n: int)
    requires
        0 <= n <= leaves.len(),
    ensures
        match last_full(leaves, full, n) {
            Some(k) => 0 <= k < n && leaf_code(leaves[k]) == full,
            None => forall|j: int| 0 <= j < n ==> leaf_code(#[trigger] leaves[j]) != full,
        },
    decreases n,
{
    if n > 0 {
        lemma_last_full(leaves, full, n - 1);
    }
}

/// The digits of a full four-digit code are its last four characters.
pub proof fn lemma_leaf_digits(code: Seq<char>)
    requires
        section_code(code, 4),
    ensures
        category_code(code) == code,
        padded_digits(code) == code.skip(1),
{
    assert forall|i: int| 0 <= i < code.len() implies #[trigger] upper_seq(code)[i] == code[i] by {}
    assert(upper_seq(code) =~= code);
    lemma_kept_all(code, |c: char| is_ascii_alnum(c));
    assert(code =~= seq![code[0]] + code.skip(1));
    lemma_kept_digits(code);
}

/// The digits of a section letter with four digits are the four digits.
pub proof fn lemma_kept_digits(code: Seq<char>)
    requires
        section_code(code, 4),
    ensures
        kept(code, |c: char| is_ascii_digit(c)) == code.skip(1),
    decreases code.len(),
{
    let d = |c: char| is_ascii_digit(c);
    let t = code.skip(1);
    lemma_kept_all(t, d);
    lemma_kept_front(code, d);
}

/// A leading character that is not kept does not change what is kept.
pub proof fn lemma_kept_front(s: Seq<char>, keep: spec_fn(char) -> bool)
    requires
        s.len() > 0,
        !keep(s[0]),
    ensures
        kept(s, keep) == kept(s.skip(1), keep),
    decreases s.len(),
{
    if s.len() > 1 {
        let p = s.drop_last();
        lemma_kept_front(p, keep);
        assert(p.skip(1) =~= s.skip(1).drop_last());
        assert(s.skip(1).last() == s.last());
    } else {
        assert(s.drop_last() =~= Seq::<char>::empty());
        assert(s.skip(1) =~= Seq::<char>::empty());
    }
}

/// The leaves of an index: each leaf code is a section letter with four
/// digits, and no two leaf codes are equal. The leaves of every index are
/// so (see `HierarchyIndex::resolve`), and so are the categories of every
/// set that passes its check (`lemma_valid_set_leaves`).
pub open spec fn leaves_ok(leaves: Seq<CategoryView>) -> bool {
    &&& forall|i: int| 0 <= i < leaves.len() ==> section_code(#[trigger] leaf_code(leaves[i]), 4)
    &&& forall|i: int, j: int| 0 <= i < j < leaves.len() ==> leaf_code(#[trigger] leaves[i]) != leaf_code(
        #[trigger] leaves[j],
    )
}

/// Resolving a leaf's own code (any text that normalizes to it) finds a
/// leaf with the same four digits; where no other leaf shares them, it is
/// the leaf itself, with its full code, codes and names.
pub proof fn lemma_resolve_leaf_code(leaves: Seq<CategoryView>, i: int, t: Seq<char>)
    requires
        leaves_ok(leaves),
        0 <= i < leaves.len(),
        category_code(t) == leaf_code(leaves[i]),
    ensures
        resolved_leaf(leaves, t) matches Some(k)
            && leaf_code(leaves[k]).skip(1) == leaf_code(leaves[i]).skip(1),
        (forall|j: int| 0 <= j < leaves.len() && j != i ==> leaf_code(#[trigger] leaves[j]).skip(1)
            != leaf_code(leaves[i]).skip(1)) ==> {
            &&& resolved_leaf(leaves, t) == Some(i)
            &&& resolved_full_code(leaves, t) == leaf_code(leaves[i])
            &&& resolved_codes(leaves, t) == leaves[i].codes
            &&& resolved_names(leaves, t) == leaves[i].names
        },
{
    let code = leaf_code(leaves[i]);
    assert(section_code(leaf_code(leaves[i]), 4));
    lemma_leaf_digits(code);
    let numeric = padded_digits(category_code(t));
    lemma_last_numeric(leaves, numeric, leaves.len() as int);
    let k = last_numeric(leaves, numeric, leaves.len() as int)->0;
    let full = resolved_full_code(leaves, t);
    assert(full == leaf_code(leaves[k]));
    lemma_last_full(leaves, full, leaves.len() as int);
    let m = last_full(leaves, full, leaves.len() as int)->0;
    if m != k {
        if m < k {
            assert(leaf_code(leaves[m]) != leaf_code(leaves[k]));
        } else {
            assert(leaf_code(leaves[k]) != leaf_code(leaves[m]));
        }
    }
}


/// In the index of a set that passes its check, each category's own leaf
/// code resolves to that category (its normalized code, its codes and its
/// names) wherever no other category shares its four digits.
pub proof fn lemma_set_leaves_resolve(cats: Seq<CategoryView>, i: int)
    requires
        categories_check(cats) is Ok,
        0 <= i < cats.len(),
        forall|j: int| 0 <= j < cats.len() && j != i ==> leaf_code(#[trigger] cats[j]).skip(1)
            != leaf_code(cats[i]).skip(1),
    ensures
        resolved_leaf(cats, cats[i].codes[3]) == Some(i),
        resolved_full_code(cats, cats[i].codes[3]) == category_code(cats[i].codes[3]),
        resolved_codes(cats, cats[i].codes[3]) == cats[i].codes,
        resolved_names(cats, cats[i].codes[3]) == cats[i].names,
{
    lemma_valid_set_leaves(cats);
    lemma_resolve_leaf_code(cats, i, cats[i].codes[3]);
}

/// Digits are their own normalized code, and their own digits.
pub proof fn lemma_digits_code(d: Seq<char>)
    requires
        forall|i: int| 0 <= i < d.len() ==> is_ascii_digit(#[trigger] d[i]),
    ensures
        category_code(d) == d,
        kept(d, |c: char| is_ascii_digit(c)) == d,
{
    assert(upper_seq(d) =~= d);
    lemma_kept_all(d, |c: char| is_ascii_alnum(c));
    lemma_kept_all(d, |c: char| is_ascii_digit(c));
}

/// One to three digits resolve as their form padded with zeros to four
/// digits does, in every index: both find a leaf or neither does, and where
/// one is found, both give its full code, codes and names.
pub proof fn lemma_short_numeric_codes_pad(leaves: Seq<CategoryView>, d: Seq<char>)
    requires
        leaves_ok(leaves),
        1 <= d.len() <= 3,
        forall|i: int| 0 <= i < d.len() ==> is_ascii_digit(#[trigger] d[i]),
    ensures
        ({
            let p = Seq::new((4 - d.len()) as nat, |i: int| '0') + d;
            &&& resolved_leaf(leaves, d) == resolved_leaf(leaves, p)
            &&& resolved_leaf(leaves, d) is Some ==> {
                &&& resolved_full_code(leaves, d) == resolved_full_code(leaves, p)
                &&& resolved_codes(leaves, d) == resolved_codes(leaves, p)
                &&& resolved_names(leaves, d) == resolved_names(leaves, p)
            }
        }),
{
    let p = Seq::new((4 - d.len()) as nat, |i: int| '0') + d;
    assert forall|i: int| 0 <= i < p.len() implies is_ascii_digit(#[trigger] p[i]) by {
        if i >= 4 - d.len() {
            assert(p[i] == d[i - (4 - d.len())]);
        }
    }
    lemma_digits_code(d);
    lemma_digits_code(p);
    assert(padded_digits(d) == p);
    assert(padded_digits(p) == p);
    let n = leaves.len() as int;
    match last_numeric(leaves, p, n) {
        Some(k) => {},
        None => {
            lemma_last_full(leaves, d, n);
            lemma_last_full(leaves, p, n);
            if last_full(leaves, d, n) is Some {
                let k = last_full(leaves, d, n)->0;
                assert(section_code(leaf_code(leaves[k]), 4));
            }
            if last_full(leaves, p, n) is Some {
                let k = last_full(leaves, p, n)->0;
                assert(section_code(leaf_code(leaves[k]), 4));
            }
        },
    }
    if resolved_leaf(leaves, d) is Some {
        lemma_last_full(leaves, resolved_full_code(leaves, d), n);
        lemma_last_full(leaves, resolved_full_code(leaves, p), n);
    }
}

} // verus!
