use industry_excel_checker::settings::{AppSettings, SettingsRepository};
use std::path::PathBuf;

#[test]
fn default_settings_are_valid() {
    let settings = AppSettings::default();
    assert_eq!(settings.version, AppSettings::VERSION);
    assert_eq!(settings.annotation_column, "Q");
    assert!(settings.annotate_skipped_rows);
    assert!(settings.last_source_path.is_none());
    assert_eq!(settings.validate(), Ok(()));
}

#[test]
fn settings_validation_reports_version_and_column() {
    let mut settings = AppSettings::default();
    settings.version = 2;
    assert_eq!(settings.validate(), Err("应用设置版本 2 不受支持，当前版本为 1".to_owned()));
    let mut settings = AppSettings::default();
    settings.annotation_column = "C".to_owned();
    assert_eq!(settings.validate(), Err("标注列不能占用源数据 A-I 列".to_owned()));
    settings.annotation_column = "AA".to_owned();
    settings.last_source_path = Some(PathBuf::from("输入.xlsx"));
    assert_eq!(settings.validate(), Ok(()));
}

#[test]
fn settings_repository_keeps_its_path() {
    let repository = SettingsRepository::at(PathBuf::from("settings.json"));
    assert_eq!(repository.path(), &PathBuf::from("settings.json"));
}
