use industry_excel_checker::hierarchy::{
    normalize_category_code, parse_category_range, CategoryRepository, CategorySet,
    HierarchyIndex, IndustryCategory,
};
use std::path::PathBuf;

fn row(cells: &[(usize, &str)]) -> Vec<Option<String>> {
    let mut row = vec![None; 9];
    for (index, text) in cells {
        row[*index] = Some((*text).to_owned());
    }
    row
}

fn sample_rows() -> Vec<Vec<Option<String>>> {
    vec![
        row(&[(1, "农、林、牧、渔业"), (7, "A"), (8, "农、林、牧、渔业")]),
        row(&[(1, "农业"), (7, "A01"), (8, "农业")]),
        row(&[(1, "其他农业"), (4, "190"), (6, "A019"), (7, "A0190"), (8, "其他农业")]),
    ]
}

fn category(id: u64, codes: [&str; 4], names: [&str; 4]) -> IndustryCategory {
    IndustryCategory {
        id,
        level1_code: codes[0].to_owned(),
        level1_name: names[0].to_owned(),
        level2_code: codes[1].to_owned(),
        level2_name: names[1].to_owned(),
        level3_code: codes[2].to_owned(),
        level3_name: names[2].to_owned(),
        level4_code: codes[3].to_owned(),
        level4_name: names[3].to_owned(),
    }
}

fn sample_set() -> CategorySet {
    CategorySet::new(vec![
        category(1, ["C", "C38", "C383", "C3831"], ["制造业", "电气机械", "电线电缆", "电线"]),
        category(2, ["C", "C38", "C383", "C3833"], ["制造业", "电气机械", "电线电缆", "光缆"]),
        category(3, ["A", "A01", "A019", "A0190"], ["农业大类", "农业", "其他农业", "其他农业"]),
    ])
}

#[test]
fn numeric_leaf_codes_are_zero_padded_and_use_explicit_third_level() {
    let categories = parse_category_range(&sample_rows()).unwrap();
    let index = HierarchyIndex::from_categories(&categories).unwrap();
    let path = index.resolve("0190");
    assert!(path.found_in_reference);
    assert_eq!(path.full_code, "A0190");
    assert_eq!(path.codes, vec!["A", "A01", "A019", "A0190"]);
}

#[test]
fn parsed_categories_take_names_from_their_rows() {
    let categories = parse_category_range(&sample_rows()).unwrap();
    assert_eq!(categories.version, CategorySet::VERSION);
    assert_eq!(categories.categories.len(), 1);
    let leaf = &categories.categories[0];
    assert_eq!(leaf.id, 1);
    assert_eq!(leaf.names(), vec!["农、林、牧、渔业", "农业", "其他农业", "其他农业"]);
}

#[test]
fn parse_reports_rows_that_cannot_be_read() {
    let mut rows = sample_rows();
    rows[2][7] = Some("A01X".to_owned());
    assert_eq!(
        parse_category_range(&rows).err(),
        Some("行业分类表第 3 行的四级完整代码无效：A01X".to_owned())
    );
    let mut rows = sample_rows();
    rows[2][4] = Some("191".to_owned());
    assert_eq!(
        parse_category_range(&rows).err(),
        Some("行业分类表第 3 行的 E/H 代码不一致：0191 与 A0190".to_owned())
    );
    let mut rows = sample_rows();
    rows[2][4] = None;
    assert_eq!(
        parse_category_range(&rows).err(),
        Some("行业分类表第 3 行的 E 列四级数字代码无效".to_owned())
    );
    let mut rows = sample_rows();
    rows[1][7] = None;
    assert_eq!(
        parse_category_range(&rows).err(),
        Some("行业分类表第 3 行缺少二级分类 A01".to_owned())
    );
    let mut rows = sample_rows();
    rows[2][1] = None;
    rows[2][8] = Some("  ".to_owned());
    assert_eq!(
        parse_category_range(&rows).err(),
        Some("行业分类表第 3 行的四级分类名称为空".to_owned())
    );
    let empty: Vec<Vec<Option<String>>> = vec![row(&[(1, "标题")])];
    assert_eq!(parse_category_range(&empty).err(), Some("行业细类列表不能为空".to_owned()));
}

#[test]
fn first_non_empty_name_is_recorded_for_a_code() {
    let rows = vec![
        row(&[(7, "A")]),
        row(&[(1, "农林牧渔"), (7, "A")]),
        row(&[(1, "另一个名称"), (7, "A")]),
        row(&[(1, "农业"), (7, "A01")]),
        row(&[(1, "其他农业"), (4, "0190"), (6, "A019"), (7, "A0190")]),
    ];
    let categories = parse_category_range(&rows).unwrap();
    let leaf = &categories.categories[0];
    assert_eq!(leaf.level1_name, "农林牧渔");
    assert_eq!(leaf.level3_code, "A019");
    assert_eq!(leaf.level3_name, "其他农业");
}

#[test]
fn resolve_finds_full_and_numeric_codes() {
    let index = HierarchyIndex::from_categories(&sample_set()).unwrap();
    assert_eq!(index.leaf_count(), 3);
    let path = index.resolve(" c3833 ");
    assert!(path.found_in_reference);
    assert_eq!(path.input_code, "c3833");
    assert_eq!(path.full_code, "C3833");
    assert_eq!(path.names, vec!["制造业", "电气机械", "电线电缆", "光缆"]);
    assert_eq!(path.display(), "C 制造业 / C38 电气机械 / C383 电线电缆 / C3833 光缆");
    let numeric = index.resolve("3831");
    assert_eq!(numeric.full_code, "C3831");
    let short = index.resolve("190");
    assert_eq!(short.full_code, "A0190");
}

#[test]
fn unknown_codes_infer_their_levels() {
    let index = HierarchyIndex::from_categories(&sample_set()).unwrap();
    let path = index.resolve("F5123");
    assert!(!path.found_in_reference);
    assert_eq!(path.codes, vec!["F", "F51", "F512", "F5123"]);
    assert_eq!(path.names, vec!["", "", "", ""]);
    assert_eq!(path.display(), "F / F51 / F512 / F5123");
    let other = index.resolve("X-1");
    assert_eq!(other.full_code, "X1");
    assert_eq!(other.codes, vec!["X1"]);
    let empty = index.resolve("  ");
    assert!(empty.codes.is_empty());
    assert_eq!(empty.display(), "");
}

#[test]
fn category_validation_reports_each_problem() {
    let good = category(1, ["C", "C38", "C383", "C3831"], ["a", "b", "c", "d"]);
    assert_eq!(good.validate(), Ok(()));
    let bad_format = category(1, ["C", "C3", "C383", "C3831"], ["a", "b", "c", "d"]);
    assert_eq!(bad_format.validate(), Err("分类代码格式应依次为 A、A01、A011、A0111".to_owned()));
    let bad_prefix = category(1, ["C", "C38", "C384", "C3831"], ["a", "b", "c", "d"]);
    assert_eq!(bad_prefix.validate(), Err("四级分类代码必须保持逐级前缀关系".to_owned()));
    let no_name = category(1, ["C", "C38", "C383", "C3831"], ["a", " ", "c", "d"]);
    assert_eq!(no_name.validate(), Err("一级至四级分类名称均不能为空".to_owned()));
}

#[test]
fn category_set_validation_reports_conflicts() {
    assert_eq!(sample_set().validate(), Ok(()));
    assert_eq!(CategorySet::new(vec![]).validate(), Err("行业细类列表不能为空".to_owned()));
    let mut set = sample_set();
    set.categories[1].id = 1;
    assert_eq!(set.validate(), Err("行业细类 ID 1 无效或重复".to_owned()));
    let mut set = sample_set();
    set.categories[1].level4_code = "c3831".to_owned();
    set.categories[1].level3_code = "C383".to_owned();
    assert_eq!(set.validate(), Err("四级分类代码 C3831 存在重复记录".to_owned()));
    let mut set = sample_set();
    set.categories[1].level2_name = "电机".to_owned();
    assert_eq!(
        set.validate(),
        Err("分类代码 C38 存在不一致名称：“电气机械”与“电机”".to_owned())
    );
    assert_eq!(sample_set().next_id(), 4);
}

#[test]
fn normalizing_a_category_trims_and_upper_cases() {
    let mut c = category(5, [" c ", "c-38", "c383", "c3831 "], [" 制造业 ", "b", "c", "d"]);
    c.normalize();
    assert_eq!(c.codes(), vec!["C", "C38", "C383", "C3831"]);
    assert_eq!(c.level1_name, "制造业");
    assert_eq!(c.id, 5);
    assert_eq!(normalize_category_code(" a-01.9 "), "A019");
}

#[test]
fn category_repository_keeps_its_path() {
    let repository = CategoryRepository::at(PathBuf::from("categories.json"));
    assert_eq!(repository.path(), &PathBuf::from("categories.json"));
    let mut stored = sample_set();
    stored.version = 2;
    assert_eq!(
        CategoryRepository::check_loaded(stored).err(),
        Some("行业细类配置版本 2 不受支持，当前版本为 1".to_owned())
    );
    assert!(CategoryRepository::check_loaded(sample_set()).is_ok());
}

#[test]
fn an_empty_index_knows_no_leaf() {
    let index = HierarchyIndex::default();
    assert_eq!(index.leaf_count(), 0);
    let path = index.resolve("C3831");
    assert!(!path.found_in_reference);
    assert_eq!(path.full_code, "C3831");
}

#[test]
fn short_numeric_codes_resolve_like_padded_ones() {
    let index = HierarchyIndex::from_categories(&sample_set()).unwrap();
    let short = index.resolve("190");
    let padded = index.resolve("0190");
    assert!(short.found_in_reference && padded.found_in_reference);
    assert_eq!(short.full_code, "A0190");
    assert_eq!(short.codes, padded.codes);
    assert_eq!(short.names, padded.names);
    assert!(!index.resolve("19").found_in_reference);
    assert!(!index.resolve("0019").found_in_reference);
}

#[test]
fn each_leaf_code_resolves_to_its_category() {
    let set = sample_set();
    let index = HierarchyIndex::from_categories(&set).unwrap();
    for category in &set.categories {
        let path = index.resolve(&category.level4_code);
        assert!(path.found_in_reference);
        assert_eq!(path.input_code, category.level4_code.trim());
        assert_eq!(path.full_code, normalize_category_code(&category.level4_code));
        assert_eq!(path.codes, category.codes());
        assert_eq!(path.names, category.names());
    }
}
