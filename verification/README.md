# industry_excel_checker

Checks the company size written in a bank's source workbook against the
size that a classification standard gives each company from its industry
and its metrics (employees, assets, revenue), and marks the rows to change.

- `src/` is the library, verified with Verus: the hierarchy of industry
  categories and its lookup (`hierarchy`), the standard's rules and the
  classification (`model`, `rules`), the check of a worksheet (`checker`),
  the plan of the exported workbook (`export`), the settings (`settings`),
  and the decisions behind the screens: searches, edits and removals
  (`workbench`). Worksheets come in as rows of cell texts (`sheet`);
  numbers are binary64 bit patterns ordered as floats order (`number`).
- `app/` is the desktop application around it: the `eframe` window, the
  workbooks read with `calamine` and written with `umya-spreadsheet`, the
  JSON files of the repositories, and the floating-point parsing of cells.
- `tests/` exercises the library on concrete values.
