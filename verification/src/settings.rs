//! The settings the application remembers between runs.

use vstd::prelude::*;
use std::path::PathBuf;
use crate::checker::{column_index, column_label_to_index, DEFAULT_ANNOTATION_COLUMN};
use crate::text::{decimal, decimal_string, outcome};

verus! {

/// The settings of the application.
#[derive(Clone, Debug)]
pub struct AppSettings {
    pub version: u32,
    pub annotation_column: String,
    pub annotate_skipped_rows: bool,
    pub last_source_path: Option<PathBuf>,
    pub last_output_path: Option<PathBuf>,
}

impl Default for AppSettings {
    fn default() -> (r: AppSettings)
        ensures
            r.version == AppSettings::VERSION,
            r.annotation_column@ == DEFAULT_ANNOTATION_COLUMN@,
            r.annotate_skipped_rows,
            r.last_source_path is None,
            r.last_output_path is None,
    {
        AppSettings {
            version: Self::VERSION,
            annotation_column: DEFAULT_ANNOTATION_COLUMN.to_owned(),
            annotate_skipped_rows: true,
            last_source_path: None,
            last_output_path: None,
        }
    }
}

impl AppSettings {
    pub const VERSION: u32 = 1;

    /// The problem `validate` reports, if any.
    pub open spec fn check(self) -> Result<(), Seq<char>> {
        if self.version != Self::VERSION {
            Err("应用设置版本 "@ + decimal(self.version as nat) + " 不受支持，当前版本为 "@ + decimal(
                Self::VERSION as nat,
            ))
        } else {
            match column_index(self.annotation_column@) {
                Err(m) => Err(m),
                Ok(i) => if i <= 9 {
                    Err("标注列不能占用源数据 A-I 列"@)
                } else {
                    Ok(())
                },
            }
        }
    }

    pub fn validate(&self) -> (r: Result<(), String>)
        ensures
            outcome(r) == self.check(),
    {
        if self.version != Self::VERSION {
            let mut m = "应用设置版本 ".to_owned();
            m.append(decimal_string(self.version as u64).as_str());
            m.append(" 不受支持，当前版本为 ");
            m.append(decimal_string(Self::VERSION as u64).as_str());
            return Err(m);
        }
        let index = match column_label_to_index(self.annotation_column.as_str()) {
            Ok(i) => i,
            Err(e) => {
                return Err(e);
            },
        };
        if index <= 9 {
            return Err("标注列不能占用源数据 A-I 列".to_owned());
        }
        Ok(())
    }
}

/// Where the settings are kept.
#[derive(Clone, Debug)]
pub struct SettingsRepository {
    path: PathBuf,
}

impl SettingsRepository {
    /// The file of the repository.
    pub closed spec fn file(self) -> PathBuf {
        self.path
    }

    pub fn at(path: PathBuf) -> (r: SettingsRepository)
        ensures
            r.file() == path,
    {
        SettingsRepository { path }
    }

    pub fn path(&self) -> (r: &PathBuf)
        ensures
            *r == self.file(),
    {
        &self.path
    }
}

} // verus!
