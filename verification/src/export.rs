//! The decisions of the export of a checked workbook: which checks the
//! output must pass, which annotation cells may be written, and which cells
//! receive which values.

use vstd::prelude::*;
use crate::checker::{
    check_row_views, column_index, column_index_to_label, column_label, column_label_to_index,
    lemma_changed_rows_have_size, sheet_rows, AnalysisReport, CheckRow, CheckRowView, RowStatus,
};
use crate::hierarchy::CategoryView;
use crate::model::{MetricValues, RuleSet};
use crate::model::CompanySize;
use crate::text::{
    chars_of, decimal, decimal_string, eq_ignore_case, eq_ignore_case_exec, join_strings, joined,
    string_views, trim_chars, trim_seq,
};

verus! {

/// The header written above the annotations.
pub const ANNOTATION_HEADER: &'static str = "核对修改说明";

/// The outcome of the checks of the output file, once it is known whether
/// it is the source file, whether it exists, and what its extension is.
pub open spec fn output_outcome(
    same_as_source: bool,
    extension: Option<Seq<char>>,
    output_exists: bool,
    shown_output: Seq<char>,
) -> Result<(), Seq<char>> {
    if same_as_source {
        Err("输出文件不能覆盖源数据，请选择新的 .xlsx 文件"@)
    } else if extension is None || !eq_ignore_case(extension->0, "xlsx"@) {
        Err("输出文件必须使用 .xlsx 扩展名"@)
    } else if output_exists {
        Err("输出文件已存在，请选择新的 .xlsx 文件："@ + shown_output)
    } else {
        Ok(())
    }
}

/// Checks the output file before anything is written.
pub fn check_output(
    same_as_source: bool,
    extension: Option<String>,
    output_exists: bool,
    shown_output: &str,
) -> (r: Result<(), String>)
    ensures
        match output_outcome(
            same_as_source,
            match extension {
                Some(e) => Some(e@),
                None => None,
            },
            output_exists,
            shown_output@,
        ) {
            Ok(()) => r is Ok,
            Err(m) => r matches Err(e) && e@ == m,
        },
{
    if same_as_source {
        return Err("输出文件不能覆盖源数据，请选择新的 .xlsx 文件".to_owned());
    }
    let xlsx = match &extension {
        Some(e) => eq_ignore_case_exec(&chars_of(e.as_str()), "xlsx"),
        None => false,
    };
    if !xlsx {
        return Err("输出文件必须使用 .xlsx 扩展名".to_owned());
    }
    if output_exists {
        let mut m = "输出文件已存在，请选择新的 .xlsx 文件：".to_owned();
        m.append(shown_output);
        return Err(m);
    }
    Ok(())
}

/// The column of the annotations of a report, or the message when it is
/// not a column from `J` on.
pub open spec fn annotation_index(column: Seq<char>) -> Result<nat, Seq<char>> {
    match column_index(column) {
        Err(m) => Err(m),
        Ok(i) => if i <= 9 {
            Err("标注列不能占用源数据 A-I 列；请选择 J 或之后的空列"@)
        } else {
            Ok(i)
        },
    }
}

pub fn annotation_column_index(report: &AnalysisReport) -> (r: Result<u32, String>)
    ensures
        match annotation_index(report.annotation_column@) {
            Ok(i) => r matches Ok(k) && k == i,
            Err(m) => r matches Err(e) && e@ == m,
        },
{
    let index = match column_label_to_index(report.annotation_column.as_str()) {
        Ok(i) => i,
        Err(e) => {
            return Err(e);
        },
    };
    if index <= 9 {
        return Err("标注列不能占用源数据 A-I 列；请选择 J 或之后的空列".to_owned());
    }
    Ok(index as u32)
}

/// A value to write into a cell of the worksheet.
#[derive(Clone, Debug)]
pub struct CellWrite {
    pub column: u32,
    pub row: u32,
    pub value: String,
}

/// A cell write, by the text of its value.
pub struct CellWriteView {
    pub column: u32,
    pub row: u32,
    pub value: Seq<char>,
}

impl View for CellWrite {
    type V = CellWriteView;

    open spec fn view(&self) -> CellWriteView {
        CellWriteView { column: self.column, row: self.row, value: self.value@ }
    }
}

pub open spec fn write_views(w: Seq<CellWrite>) -> Seq<CellWriteView> {
    w.map_values(|c: CellWrite| c@)
}

/// The text of an annotation cell before the export, by row: `None` where
/// the worksheet has no such cell.
pub open spec fn existing_value(existing: Seq<Option<String>>, row: u32) -> Option<Seq<char>> {
    if (row as int) < existing.len() {
        match existing[row as int] {
            Some(s) => Some(s@),
            None => None,
        }
    } else {
        None
    }
}

/// Writing `new` over the existing cell would overwrite other content.
pub open spec fn conflicts_with(existing: Seq<Option<String>>, row: u32, new: Seq<char>) -> bool {
    match existing_value(existing, row) {
        Some(v) => trim_seq(v).len() > 0 && v != new,
        None => false,
    }
}

/// The row gets an annotation.
pub open spec fn annotated(row: CheckRowView, annotate_skipped: bool) -> bool {
    row.status == RowStatus::Changed || (row.status == RowStatus::Skipped && annotate_skipped)
}

/// The cells, named like `Q12`, whose content the annotations of the first
/// `n` rows would overwrite.
pub open spec fn row_conflicts(
    existing: Seq<Option<String>>,
    label: Seq<char>,
    rows: Seq<CheckRowView>,
    annotate_skipped: bool,
    n: int,
) -> Seq<Seq<char>>
    decreases n,
{
    if n <= 0 {
        Seq::empty()
    } else {
        let prev = row_conflicts(existing, label, rows, annotate_skipped, n - 1);
        let row = rows[n - 1];
        if annotated(row, annotate_skipped) && conflicts_with(
            existing,
            row.row_number,
            row.annotation,
        ) {
            prev.push(label + decimal(row.row_number as nat))
        } else {
            prev
        }
    }
}

/// All the cells the export would overwrite: the header cell first.
pub open spec fn annotation_conflicts(
    existing: Seq<Option<String>>,
    index: nat,
    rows: Seq<CheckRowView>,
    annotate_skipped: bool,
) -> Seq<Seq<char>> {
    let label = column_label(index);
    let header = if conflicts_with(existing, 1, ANNOTATION_HEADER@) {
        seq![label + "1"@]
    } else {
        Seq::empty()
    };
    header + row_conflicts(existing, label, rows, annotate_skipped, rows.len() as int)
}

/// The message that stops an export over existing content: the first
/// eight cells, and the count where there are more.
pub open spec fn conflict_message(conflicts: Seq<Seq<char>>) -> Seq<char> {
    let shown = if conflicts.len() > 8 { conflicts.take(8) } else { conflicts };
    let suffix = if conflicts.len() > 8 {
        " 等 "@ + decimal(conflicts.len()) + " 个单元格"@
    } else {
        Seq::empty()
    };
    "标注列已有内容，导出已取消："@ + joined(shown, "、"@) + suffix + "；请清空这些单元格或更换标注列"@
}

/// The writes for the first `n` rows: for a changed row its size in column
/// C and its note, for a skipped row its note where skipped rows are
/// annotated; or the message for a changed row without a size.
pub open spec fn row_writes(rows: Seq<CheckRowView>, annotate_skipped: bool, index: u32, n: int) -> Result<Seq<CellWriteView>, Seq<char>>
    decreases n,
{
    if n <= 0 {
        Ok(Seq::empty())
    } else {
        match row_writes(rows, annotate_skipped, index, n - 1) {
            Err(m) => Err(m),
            Ok(prev) => {
                let row = rows[n - 1];
                if row.status == RowStatus::Changed {
                    match row.calculated_size {
                        None => Err("第 "@ + decimal(row.row_number as nat) + " 行缺少计算结果"@),
                        Some(size) => Ok(
                            prev.push(CellWriteView { column: 3, row: row.row_number, value: size.name() }).push(
                                CellWriteView { column: index, row: row.row_number, value: row.annotation },
                            ),
                        ),
                    }
                } else if row.status == RowStatus::Skipped && annotate_skipped {
                    Ok(prev.push(CellWriteView { column: index, row: row.row_number, value: row.annotation }))
                } else {
                    Ok(prev)
                }
            },
        }
    }
}

/// The plan of an export into annotation column `index`: the header, then
/// the writes of the rows; or the message that stops it.
pub open spec fn export_plan(
    existing: Seq<Option<String>>,
    index: u32,
    rows: Seq<CheckRowView>,
    annotate_skipped: bool,
) -> Result<Seq<CellWriteView>, Seq<char>> {
    let conflicts = annotation_conflicts(existing, index as nat, rows, annotate_skipped);
    if conflicts.len() > 0 {
        Err(conflict_message(conflicts))
    } else {
        match row_writes(rows, annotate_skipped, index, rows.len() as int) {
            Err(m) => Err(m),
            Ok(w) => Ok(seq![CellWriteView { column: index, row: 1, value: ANNOTATION_HEADER@ }] + w),
        }
    }
}

fn existing_chars(existing: &Vec<Option<String>>, row: u32) -> (r: Option<Vec<char>>)
    ensures
        match existing_value(existing@, row) {
            Some(v) => r matches Some(x) && x@ == v,
            None => r is None,
        },
{
    if (row as usize) < existing.len() {
        match &existing[row as usize] {
            Some(s) => Some(chars_of(s.as_str())),
            None => None,
        }
    } else {
        None
    }
}

fn conflicts_with_exec(existing: &Vec<Option<String>>, row: u32, new: &str) -> (r: bool)
    ensures
        r == conflicts_with(existing@, row, new@),
{
    match existing_chars(existing, row) {
        Some(v) => trim_chars(&v).len() > 0 && !crate::text::chars_eq_str(&v, new),
        None => false,
    }
}

/// The cells that the export would overwrite, as `annotation_conflicts`.
pub fn find_annotation_conflicts(existing: &Vec<Option<String>>, index: u32, report: &AnalysisReport) -> (r: Vec<String>)
    ensures
        string_views(r@) == annotation_conflicts(
            existing@,
            index as nat,
            check_row_views(report.rows@),
            report.annotate_skipped_rows,
        ),
{
    let ghost rows = check_row_views(report.rows@);
    let label = column_index_to_label(index as usize);
    let mut conflicts: Vec<String> = Vec::new();
    if conflicts_with_exec(existing, 1, ANNOTATION_HEADER) {
        let mut c = label.clone();
        c.append("1");
        conflicts.push(c);
    }
    let ghost header = string_views(conflicts@);
    let mut k: usize = 0;
    while k < report.rows.len()
        invariant
            rows == check_row_views(report.rows@),
            k <= report.rows.len(),
            label@ == column_label(index as nat),
            string_views(conflicts@) == header + row_conflicts(
                existing@,
                label@,
                rows,
                report.annotate_skipped_rows,
                k as int,
            ),
        decreases report.rows.len() - k,
    {
        let row = &report.rows[k];
        assert(rows[k as int] == row@);
        let will_annotate = row.status == RowStatus::Changed || (row.status == RowStatus::Skipped
            && report.annotate_skipped_rows);
        if will_annotate && conflicts_with_exec(existing, row.row_number, row.annotation.as_str()) {
            let mut c = label.clone();
            c.append(decimal_string(row.row_number as u64).as_str());
            let ghost before = string_views(conflicts@);
            conflicts.push(c);
            assert(string_views(conflicts@) =~= before.push(c@));
        }
        k += 1;
    }
    proof {
        if conflicts_with(existing@, 1, ANNOTATION_HEADER@) {
            assert(header =~= seq![column_label(index as nat) + "1"@]);
        } else {
            assert(header =~= Seq::<Seq<char>>::empty());
        }
    }
    conflicts
}

/// Plans the export of a report into annotation column `index`, given the
/// text of that column's cells before the export by row number.
pub fn plan_export(existing: &Vec<Option<String>>, index: u32, report: &AnalysisReport) -> (r: Result<Vec<CellWrite>, String>)
    ensures
        match export_plan(existing@, index, check_row_views(report.rows@), report.annotate_skipped_rows) {
            Ok(w) => r matches Ok(v) && write_views(v@) == w,
            Err(m) => r matches Err(e) && e@ == m,
        },
{
    let ghost rows = check_row_views(report.rows@);
    let conflicts = find_annotation_conflicts(existing, index, report);
    if conflicts.len() > 0 {
        let count = conflicts.len();
        let mut shown: Vec<String> = Vec::new();
        let mut k: usize = 0;
        while k < count && k < 8
            invariant
                count == conflicts.len(),
                k <= count,
                k <= 8,
                shown.len() == k,
                forall|j: int| 0 <= j < k ==> #[trigger] shown@[j]@ == conflicts@[j]@,
            decreases 8 - k,
        {
            shown.push(conflicts[k].clone());
            k += 1;
        }
        assert(string_views(shown@) =~= string_views(conflicts@).take(k as int));
        let mut m = "标注列已有内容，导出已取消：".to_owned();
        m.append(join_strings(&shown, "、").as_str());
        if count > 8 {
            m.append(" 等 ");
            m.append(decimal_string(count as u64).as_str());
            m.append(" 个单元格");
        } else {
            assert(string_views(conflicts@).take(k as int) =~= string_views(conflicts@));
        }
        m.append("；请清空这些单元格或更换标注列");
        return Err(m);
    }
    let mut writes: Vec<CellWrite> = Vec::new();
    writes.push(CellWrite { column: index, row: 1, value: ANNOTATION_HEADER.to_owned() });
    let ghost head = write_views(writes@);
    assert(row_writes(rows, report.annotate_skipped_rows, index, 0) == Ok::<Seq<CellWriteView>, Seq<char>>(Seq::empty()));
    let mut k: usize = 0;
    while k < report.rows.len()
        invariant
            rows == check_row_views(report.rows@),
            k <= report.rows.len(),
            annotation_conflicts(existing@, index as nat, rows, report.annotate_skipped_rows).len() == 0,
            head == seq![CellWriteView { column: index, row: 1, value: ANNOTATION_HEADER@ }],
            row_writes(rows, report.annotate_skipped_rows, index, k as int) matches Ok(w)
                && write_views(writes@) == head + w,
        decreases report.rows.len() - k,
    {
        let row = &report.rows[k];
        assert(rows[k as int] == row@);
        let ghost before = write_views(writes@);
        if row.status == RowStatus::Changed {
            match row.calculated_size {
                Some(size) => {
                    writes.push(CellWrite { column: 3, row: row.row_number, value: size.as_str().to_owned() });
                    writes.push(CellWrite { column: index, row: row.row_number, value: row.annotation.clone() });
                    assert(write_views(writes@) =~= before.push(write_views(writes@)[before.len() as int]).push(write_views(writes@)[before.len() + 1int]));
                },
                None => {
                    let mut m = "第 ".to_owned();
                    m.append(decimal_string(row.row_number as u64).as_str());
                    m.append(" 行缺少计算结果");
                    assert(m@ =~= "第 "@ + decimal(row.row_number as nat) + " 行缺少计算结果"@);
                    assert(export_plan(existing@, index, rows, report.annotate_skipped_rows) == Err::<Seq<CellWriteView>, Seq<char>>(m@)) by {
                        lemma_writes_fail(rows, report.annotate_skipped_rows, index, k + 1);
                    }
                    return Err(m);
                },
            }
        } else if row.status == RowStatus::Skipped && report.annotate_skipped_rows {
            writes.push(CellWrite { column: index, row: row.row_number, value: row.annotation.clone() });
            assert(write_views(writes@) =~= before.push(write_views(writes@)[before.len() as int]));
        }
        k += 1;
    }
    Ok(writes)
}

/// Writes that fail by row `n` fail with the same message.
pub proof fn lemma_writes_fail(rows: Seq<CheckRowView>, annotate_skipped: bool, index: u32, n: int)
    requires
        0 <= n <= rows.len(),
        row_writes(rows, annotate_skipped, index, n) is Err,
    ensures
        row_writes(rows, annotate_skipped, index, rows.len() as int) == row_writes(
            rows,
            annotate_skipped,
            index,
            n,
        ),
    decreases rows.len() - n,
{
    if n < rows.len() {
        lemma_writes_fail(rows, annotate_skipped, index, n + 1);
    }
}

/// The last column of the worksheet's auto filter once the annotation
/// column is included: unchanged where it already reaches that column.
pub fn filter_end_column(end_column: u32, index: u32) -> (r: u32)
    ensures
        r == if end_column < index { index } else { end_column },
{
    if end_column < index {
        index
    } else {
        end_column
    }
}


/// The writes for the rows of a check never lack a size when every changed
/// row has one, as every check made by `analyze_sheet` does.
pub proof fn lemma_writes_with_sizes(rows: Seq<CheckRowView>, annotate_skipped: bool, index: u32, n: int)
    requires
        0 <= n <= rows.len(),
        forall|k: int| 0 <= k < rows.len() && (#[trigger] rows[k]).status == RowStatus::Changed
            ==> rows[k].calculated_size is Some,
    ensures
        row_writes(rows, annotate_skipped, index, n) is Ok,
    decreases n,
{
    if n > 0 {
        lemma_writes_with_sizes(rows, annotate_skipped, index, n - 1);
        assert(rows[n - 1].status == RowStatus::Changed ==> rows[n - 1].calculated_size is Some);
    }
}

/// A write into column C, or into the annotation column over no other
/// content.
pub open spec fn write_in_place(c: CellWriteView, existing: Seq<Option<String>>, index: u32) -> bool {
    &&& c.column == 3 || c.column == index
    &&& c.column == index ==> !conflicts_with(existing, c.row, c.value)
}

/// The writes for the first `n` rows go into column C or the annotation
/// column, and those into the annotation column overwrite no other
/// content where the notes of those rows are in no conflict.
pub proof fn lemma_row_writes_cells(
    existing: Seq<Option<String>>,
    label: Seq<char>,
    rows: Seq<CheckRowView>,
    annotate_skipped: bool,
    index: u32,
    n: int,
)
    requires
        0 <= n <= rows.len(),
        index > 9,
        row_writes(rows, annotate_skipped, index, n) is Ok,
        row_conflicts(existing, label, rows, annotate_skipped, n).len() == 0,
    ensures
        forall|w: int| 0 <= w < row_writes(rows, annotate_skipped, index, n)->Ok_0.len() ==> write_in_place(
            #[trigger] row_writes(rows, annotate_skipped, index, n)->Ok_0[w],
            existing,
            index,
        ),
    decreases n,
{
    if n > 0 {
        let prev_conflicts = row_conflicts(existing, label, rows, annotate_skipped, n - 1);
        assert(prev_conflicts.len() == 0);
        lemma_row_writes_cells(existing, label, rows, annotate_skipped, index, n - 1);
        let prev = row_writes(rows, annotate_skipped, index, n - 1)->Ok_0;
        let cur = row_writes(rows, annotate_skipped, index, n)->Ok_0;
        assert forall|w: int| 0 <= w < cur.len() implies write_in_place(#[trigger] cur[w], existing, index) by {
            if w < prev.len() {
                assert(cur[w] == prev[w]);
            } else {
                let row = rows[n - 1];
                assert(!(annotated(row, annotate_skipped) && conflicts_with(existing, row.row_number, row.annotation)));
                if row.status == RowStatus::Changed {
                    let s = row.calculated_size->0;
                    assert(cur == prev.push(CellWriteView { column: 3, row: row.row_number, value: s.name() }).push(
                        CellWriteView { column: index, row: row.row_number, value: row.annotation },
                    ));
                } else if row.status == RowStatus::Skipped && annotate_skipped {
                    assert(cur == prev.push(CellWriteView { column: index, row: row.row_number, value: row.annotation }));
                } else {
                    assert(cur == prev);
                }
            }
        }
    }
}

/// An export writes only into column C and the annotation column: first
/// its header into row 1 of the annotation column, and never over other
/// content of the annotation column.
pub proof fn lemma_export_cells(
    existing: Seq<Option<String>>,
    index: u32,
    rows: Seq<CheckRowView>,
    annotate_skipped: bool,
)
    requires
        index > 9,
        export_plan(existing, index, rows, annotate_skipped) is Ok,
    ensures
        export_plan(existing, index, rows, annotate_skipped)->Ok_0.len() > 0,
        export_plan(existing, index, rows, annotate_skipped)->Ok_0[0] == (CellWriteView {
            column: index,
            row: 1,
            value: ANNOTATION_HEADER@,
        }),
        forall|w: int| 0 <= w < export_plan(existing, index, rows, annotate_skipped)->Ok_0.len() ==> write_in_place(
            #[trigger] export_plan(existing, index, rows, annotate_skipped)->Ok_0[w],
            existing,
            index,
        ),
{
    let label = column_label(index as nat);
    let header: Seq<Seq<char>> = if conflicts_with(existing, 1, ANNOTATION_HEADER@) {
        seq![label + "1"@]
    } else {
        Seq::empty()
    };
    let conflicts = annotation_conflicts(existing, index as nat, rows, annotate_skipped);
    assert(conflicts == header + row_conflicts(existing, label, rows, annotate_skipped, rows.len() as int));
    assert(header.len() == 0);
    lemma_row_writes_cells(existing, label, rows, annotate_skipped, index, rows.len() as int);
    let w = row_writes(rows, annotate_skipped, index, rows.len() as int)->Ok_0;
    let plan = export_plan(existing, index, rows, annotate_skipped)->Ok_0;
    assert(plan == seq![CellWriteView { column: index, row: 1, value: ANNOTATION_HEADER@ }] + w);
    assert forall|x: int| 0 <= x < plan.len() implies write_in_place(#[trigger] plan[x], existing, index) by {
        if x > 0 {
            assert(plan[x] == w[x - 1]);
        }
    }
}


/// The rows of every check made by `analyze_sheet` can be exported: no
/// changed row lacks its size.
pub proof fn lemma_checked_rows_export(
    leaves: Seq<CategoryView>,
    rules: RuleSet,
    rows: Seq<Vec<Option<String>>>,
    metrics: Seq<MetricValues>,
    annotate_skipped: bool,
    index: u32,
)
    ensures
        ({
            let checked = sheet_rows(leaves, rules, rows, metrics, rows.len() as int);
            row_writes(checked, annotate_skipped, index, checked.len() as int) is Ok
        }),
{
    let checked = sheet_rows(leaves, rules, rows, metrics, rows.len() as int);
    lemma_changed_rows_have_size(leaves, rules, rows, metrics, rows.len() as int);
    lemma_writes_with_sizes(checked, annotate_skipped, index, checked.len() as int);
}

/// Where none of the writes of the first `n` rows into the annotation
/// column lands on other content, those rows raise no conflict.
pub proof fn lemma_no_conflicts_where_unwritten(
    existing: Seq<Option<String>>,
    label: Seq<char>,
    rows: Seq<CheckRowView>,
    annotate_skipped: bool,
    index: u32,
    n: int,
)
    requires
        0 <= n <= rows.len(),
        row_writes(rows, annotate_skipped, index, n) is Ok,
        forall|k: int| 0 <= k < row_writes(rows, annotate_skipped, index, n)->Ok_0.len()
            && (#[trigger] row_writes(rows, annotate_skipped, index, n)->Ok_0[k]).column == index
            ==> !conflicts_with(
                existing,
                row_writes(rows, annotate_skipped, index, n)->Ok_0[k].row,
                row_writes(rows, annotate_skipped, index, n)->Ok_0[k].value,
            ),
    ensures
        row_conflicts(existing, label, rows, annotate_skipped, n).len() == 0,
    decreases n,
{
    if n > 0 {
        let w = row_writes(rows, annotate_skipped, index, n)->Ok_0;
        let prev = row_writes(rows, annotate_skipped, index, n - 1)->Ok_0;
        assert(row_writes(rows, annotate_skipped, index, n - 1) is Ok);
        assert(prev.len() <= w.len());
        assert forall|k: int| 0 <= k < prev.len() implies w[k] == #[trigger] prev[k] by {}
        lemma_no_conflicts_where_unwritten(existing, label, rows, annotate_skipped, index, n - 1);
        let row = rows[n - 1];
        if row.status == RowStatus::Changed || (row.status == RowStatus::Skipped && annotate_skipped) {
            let last = w[w.len() - 1];
            assert(last == CellWriteView { column: index, row: row.row_number, value: row.annotation });
        }
    }
}

/// An export is refused for existing content only over cells it would
/// write: where row 1 of the annotation column is free for the header and
/// no write of a row into the annotation column lands on other content,
/// the export goes ahead with the header and those writes. A skipped row
/// that is not annotated never stops it.
pub proof fn lemma_plan_conflicts_only_where_written(
    existing: Seq<Option<String>>,
    index: u32,
    rows: Seq<CheckRowView>,
    annotate_skipped: bool,
)
    requires
        !conflicts_with(existing, 1, ANNOTATION_HEADER@),
        row_writes(rows, annotate_skipped, index, rows.len() as int) is Ok,
        forall|k: int| 0 <= k < row_writes(rows, annotate_skipped, index, rows.len() as int)->Ok_0.len()
            && (#[trigger] row_writes(rows, annotate_skipped, index, rows.len() as int)->Ok_0[k]).column
            == index ==> !conflicts_with(
                existing,
                row_writes(rows, annotate_skipped, index, rows.len() as int)->Ok_0[k].row,
                row_writes(rows, annotate_skipped, index, rows.len() as int)->Ok_0[k].value,
            ),
    ensures
        export_plan(existing, index, rows, annotate_skipped) == Ok::<Seq<CellWriteView>, Seq<char>>(
            seq![CellWriteView { column: index, row: 1, value: ANNOTATION_HEADER@ }]
                + row_writes(rows, annotate_skipped, index, rows.len() as int)->Ok_0,
        ),
{
    let label = column_label(index as nat);
    lemma_no_conflicts_where_unwritten(existing, label, rows, annotate_skipped, index, rows.len() as int);
    let conflicts = annotation_conflicts(existing, index as nat, rows, annotate_skipped);
    assert(conflicts =~= Seq::<Seq<char>>::empty() + row_conflicts(existing, label, rows, annotate_skipped, rows.len() as int));
    assert(conflicts.len() == 0);
}

/// The write `w` puts into the sheet what row `row` calls for: its
/// calculated size into column C where it is changed, or its note into the
/// annotation column where it is changed, or skipped and skipped rows are
/// annotated.
pub open spec fn write_for_row(w: CellWriteView, row: CheckRowView, annotate_skipped: bool, index: u32) -> bool {
    &&& w.row == row.row_number
    &&& ((w.column == 3 && row.status == RowStatus::Changed && row.calculated_size is Some && w.value
        == row.calculated_size->0.name()) || (w.column == index && w.value == row.annotation && (row.status == RowStatus::Changed
        || (row.status == RowStatus::Skipped && annotate_skipped))))
}

/// What the writes of the first `n` rows add to those of the rows before.
proof fn lemma_row_writes_step(rows: Seq<CheckRowView>, annotate_skipped: bool, index: u32, n: int)
    requires
        0 < n <= rows.len(),
        row_writes(rows, annotate_skipped, index, n) is Ok,
    ensures
        row_writes(rows, annotate_skipped, index, n - 1) is Ok,
        ({
            let w = row_writes(rows, annotate_skipped, index, n)->Ok_0;
            let prev = row_writes(rows, annotate_skipped, index, n - 1)->Ok_0;
            let row = rows[n - 1];
            &&& prev.len() <= w.len()
            &&& forall|j: int| 0 <= j < prev.len() ==> w[j] == #[trigger] prev[j]
            &&& forall|j: int| prev.len() <= j < w.len() ==> write_for_row(#[trigger] w[j], row, annotate_skipped, index)
            &&& row.status == RowStatus::Changed ==> w.len() == prev.len() + 2 && w[prev.len() as int].column == 3
                && w[w.len() - 1].column == index
            &&& (row.status == RowStatus::Skipped && annotate_skipped) ==> w.len() == prev.len() + 1
                && w[w.len() - 1].column == index
        }),
{
}

/// Every write of an export's rows is called for by one of the rows, and
/// goes into column C or the annotation column.
pub proof fn lemma_writes_called_for(rows: Seq<CheckRowView>, annotate_skipped: bool, index: u32, n: int)
    requires
        0 <= n <= rows.len(),
        row_writes(rows, annotate_skipped, index, n) is Ok,
    ensures
        forall|j: int| 0 <= j < row_writes(rows, annotate_skipped, index, n)->Ok_0.len() ==> exists|k: int|
            0 <= k < n && write_for_row(
                #[trigger] row_writes(rows, annotate_skipped, index, n)->Ok_0[j],
                #[trigger] rows[k],
                annotate_skipped,
                index,
            ),
    decreases n,
{
    if n > 0 {
        lemma_row_writes_step(rows, annotate_skipped, index, n);
        lemma_writes_called_for(rows, annotate_skipped, index, n - 1);
        let w = row_writes(rows, annotate_skipped, index, n)->Ok_0;
        let prev = row_writes(rows, annotate_skipped, index, n - 1)->Ok_0;
        assert forall|j: int| 0 <= j < w.len() implies exists|k: int| 0 <= k < n && write_for_row(
            #[trigger] w[j],
            #[trigger] rows[k],
            annotate_skipped,
            index,
        ) by {
            if j < prev.len() {
                assert(w[j] == prev[j]);
                let k = choose|k: int| 0 <= k < n - 1 && write_for_row(prev[j], #[trigger] rows[k], annotate_skipped, index);
                assert(write_for_row(w[j], rows[k], annotate_skipped, index));
            } else {
                assert(write_for_row(w[j], rows[n - 1], annotate_skipped, index));
            }
        }
    }
}

/// Every changed row gets its calculated size in column C.
pub proof fn lemma_changed_rows_get_sizes(rows: Seq<CheckRowView>, annotate_skipped: bool, index: u32, n: int)
    requires
        0 <= n <= rows.len(),
        row_writes(rows, annotate_skipped, index, n) is Ok,
    ensures
        forall|k: int| 0 <= k < n && (#[trigger] rows[k]).status == RowStatus::Changed ==> exists|j: int|
            0 <= j < row_writes(rows, annotate_skipped, index, n)->Ok_0.len() && write_for_row(
                #[trigger] row_writes(rows, annotate_skipped, index, n)->Ok_0[j],
                rows[k],
                annotate_skipped,
                index,
            ) && row_writes(rows, annotate_skipped, index, n)->Ok_0[j].column == 3,
    decreases n,
{
    if n > 0 {
        lemma_row_writes_step(rows, annotate_skipped, index, n);
        lemma_changed_rows_get_sizes(rows, annotate_skipped, index, n - 1);
        let w = row_writes(rows, annotate_skipped, index, n)->Ok_0;
        let prev = row_writes(rows, annotate_skipped, index, n - 1)->Ok_0;
        assert forall|k: int| 0 <= k < n && (#[trigger] rows[k]).status == RowStatus::Changed implies exists|j: int|
            0 <= j < w.len() && write_for_row(#[trigger] w[j], rows[k], annotate_skipped, index) && w[j].column == 3 by {
            if k < n - 1 {
                let j = choose|j: int| 0 <= j < prev.len() && write_for_row(#[trigger] prev[j], rows[k], annotate_skipped, index)
                    && prev[j].column == 3;
                assert(w[j] == prev[j]);
            } else {
                let j = prev.len() as int;
                assert(write_for_row(w[j], rows[k], annotate_skipped, index));
            }
        }
    }
}

/// Every changed row gets its note in the annotation column, and so does
/// every skipped row where skipped rows are annotated.
pub proof fn lemma_noted_rows_get_notes(rows: Seq<CheckRowView>, annotate_skipped: bool, index: u32, n: int)
    requires
        0 <= n <= rows.len(),
        index != 3,
        row_writes(rows, annotate_skipped, index, n) is Ok,
    ensures
        forall|k: int| 0 <= k < n && ((#[trigger] rows[k]).status == RowStatus::Changed || (rows[k].status
            == RowStatus::Skipped && annotate_skipped)) ==> exists|j: int|
            0 <= j < row_writes(rows, annotate_skipped, index, n)->Ok_0.len() && write_for_row(
                #[trigger] row_writes(rows, annotate_skipped, index, n)->Ok_0[j],
                rows[k],
                annotate_skipped,
                index,
            ) && row_writes(rows, annotate_skipped, index, n)->Ok_0[j].column == index,
    decreases n,
{
    if n > 0 {
        lemma_row_writes_step(rows, annotate_skipped, index, n);
        lemma_noted_rows_get_notes(rows, annotate_skipped, index, n - 1);
        let w = row_writes(rows, annotate_skipped, index, n)->Ok_0;
        let prev = row_writes(rows, annotate_skipped, index, n - 1)->Ok_0;
        assert forall|k: int| 0 <= k < n && ((#[trigger] rows[k]).status == RowStatus::Changed || (rows[k].status
            == RowStatus::Skipped && annotate_skipped)) implies exists|j: int|
            0 <= j < w.len() && write_for_row(#[trigger] w[j], rows[k], annotate_skipped, index) && w[j].column
                == index by {
            if k < n - 1 {
                let j = choose|j: int| 0 <= j < prev.len() && write_for_row(#[trigger] prev[j], rows[k], annotate_skipped, index)
                    && prev[j].column == index;
                assert(w[j] == prev[j]);
            } else {
                let j = w.len() - 1;
                assert(write_for_row(w[j], rows[k], annotate_skipped, index));
            }
        }
    }
}

} // verus!
