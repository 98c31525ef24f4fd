use lost_commander::config::Settings;
use lost_commander::journal::Keep;
use lost_commander::pathname::Style;

/// The shells whose commands can be recorded.
fn journaled() -> Vec<String> {
    vec!["/bin/bash".to_string(), "/usr/bin/fish".to_string()]
}

#[test]
fn every_shell_is_offered_unless_the_setting_says_otherwise() {
    let found: Vec<String> = ["/bin/bash", "/bin/dash", "/usr/bin/fish", "/bin/sh"]
        .iter()
        .map(|s| s.to_string())
        .collect();

    // The default: the machine's answer, untouched. Which shell to use is
    // the user's decision, not a logging feature's.
    let settings = Settings::default();
    assert!(!settings.only_journaled_shells());
    assert_eq!(settings.shells_to_offer(found.clone(), &journaled()), found);

    let strict = Settings {
        journaled_shells_only: Some(true),
        ..Settings::default()
    };
    assert_eq!(
        strict.shells_to_offer(found.clone(), &journaled()),
        vec!["/bin/bash".to_string(), "/usr/bin/fish".to_string()]
    );
}

#[test]
fn narrowing_never_leaves_someone_with_no_shell_at_all() {
    // A machine with nothing but sh on it would otherwise offer none, and
    // a file manager that cannot open a terminal because of a logging
    // preference has its priorities the wrong way round.
    let strict = Settings {
        journaled_shells_only: Some(true),
        ..Settings::default()
    };
    let only_posix = vec!["/bin/sh".to_string(), "/bin/dash".to_string()];
    assert_eq!(strict.shells_to_offer(only_posix.clone(), &journaled()), only_posix);
}

#[test]
fn a_journal_is_kept_unless_it_is_turned_off() {
    assert!(Settings::default().keeps_a_journal());
    assert!(Settings::default().journal(Some("/tmp/journal")).is_some());
    assert!(Settings::default().journal(None).is_none());
    let quiet = Settings {
        journal: Some(false),
        ..Settings::default()
    };
    assert!(!quiet.keeps_a_journal());
    assert!(quiet.journal(Some("/tmp/journal")).is_none());
}

#[test]
fn the_days_kept_are_thirty_or_what_was_said_or_all() {
    assert_eq!(Settings::default().keep(), Keep(30));
    let week = Settings {
        journal_days: Some(7),
        ..Settings::default()
    };
    assert_eq!(week.keep(), Keep(7));
    let ever = Settings {
        journal_days: Some(0),
        ..Settings::default()
    };
    assert_eq!(ever.keep(), Keep(0));
}

#[test]
fn the_settings_have_a_file_of_their_own() {
    assert_eq!(
        Settings::config_path(Style::Unix, Some("/home/u/.config")).as_deref(),
        Some("/home/u/.config/lost-commander/settings.toml")
    );
    assert_eq!(Settings::config_path(Style::Unix, None), None);
}
