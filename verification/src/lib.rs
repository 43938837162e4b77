//! Classification of companies into size bands by industry, checked against
//! a hierarchy of industry categories.

pub mod text;
pub mod number;
pub mod model;
pub mod pattern;
pub mod paths;
pub mod sheet;
pub mod hierarchy;
pub mod checker;
pub mod export;
pub mod rules;
pub mod settings;
pub mod workbench;

pub use checker::{
    analyze_sheet, default_output_path, AnalysisReport, AnalysisSummary, CheckOptions, CheckRow,
    RowStatus,
};
pub use hierarchy::{
    parse_category_range, CategoryRepository, CategorySet, HierarchyIndex, IndustryCategory,
    IndustryPath,
};
pub use model::{CompanySize, IndustryRule, MetricKind, MetricRule, MetricValues, RuleSet};
pub use number::Number;
pub use rules::{parse_standard_range, RuleRepository};
pub use settings::{AppSettings, SettingsRepository};
