use rust_ingest::settings::Settings;

#[test]
fn default_settings_are_those_of_a_plain_run() {
    let settings = Settings::default();
    assert_eq!(settings.path, ".");
    assert!(settings.include_patterns.is_empty());
    assert!(settings.exclude_patterns.is_empty());
    assert_eq!(settings.max_size, 100);
    assert_eq!(settings.output, "digest.txt");
}
