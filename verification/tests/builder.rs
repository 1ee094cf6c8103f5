use log_retention::builder::{BuildError, LevelFilter, LoggingBuilder};

#[test]
fn a_new_builder_lacks_the_names() {
    let checked = LoggingBuilder::new().finish();
    assert_eq!(checked.err(), Some(BuildError::MissingRequiredFields));
}

#[test]
fn each_name_is_required() {
    let no_app = LoggingBuilder::new().qualifier("org").organization("example").finish();
    assert_eq!(no_app.err(), Some(BuildError::MissingRequiredFields));
    let no_qualifier = LoggingBuilder::new().app_name("tool").organization("example").finish();
    assert_eq!(no_qualifier.err(), Some(BuildError::MissingRequiredFields));
    let no_organization = LoggingBuilder::new().app_name("tool").qualifier("org").finish();
    assert_eq!(no_organization.err(), Some(BuildError::MissingRequiredFields));
    let emptied =
        LoggingBuilder::new().app_name("tool").qualifier("org").organization("x").app_name("");
    assert_eq!(emptied.finish().err(), Some(BuildError::MissingRequiredFields));
}

#[test]
fn the_error_says_what_is_missing() {
    assert_eq!(BuildError::MissingRequiredFields.message(), "Missing required fields");
}

#[test]
fn finish_hands_over_what_was_set() {
    let config = LoggingBuilder::new()
        .app_name("tool")
        .qualifier("org")
        .organization("example")
        .global_level(LevelFilter::Warn)
        .finish()
        .unwrap();
    assert_eq!(config.app_name, "tool");
    assert_eq!(config.qualifier, "org");
    assert_eq!(config.organization, "example");
    assert_eq!(config.global_level, LevelFilter::Warn);
    assert!(config.level_for.is_empty());
    assert_eq!(config.level_of("tool::net"), None);
}

#[test]
fn the_global_level_starts_at_debug() {
    let config =
        LoggingBuilder::new().app_name("a").qualifier("b").organization("c").finish().unwrap();
    assert_eq!(config.global_level, LevelFilter::Debug);
}

#[test]
fn a_later_setting_replaces_an_earlier_one() {
    let config = LoggingBuilder::new()
        .app_name("tool")
        .app_name("other")
        .qualifier("org")
        .organization("example")
        .level_for("hyper", LevelFilter::Info)
        .level_for("tool::net", LevelFilter::Trace)
        .level_for("hyper", LevelFilter::Off)
        .finish()
        .unwrap();
    assert_eq!(config.app_name, "other");
    assert_eq!(
        config.level_for,
        vec![("hyper".to_string(), LevelFilter::Off), ("tool::net".to_string(), LevelFilter::Trace)]
    );
    assert_eq!(config.level_of("hyper"), Some(LevelFilter::Off));
    assert_eq!(config.level_of("tool::net"), Some(LevelFilter::Trace));
    assert_eq!(config.level_of("tool"), None);
}
