use zipin::storage::{
    asset_stamp_is_current, entry_suffix, forget_action, help_text, is_current_asset_version,
    is_user_owned, legacy_entry_action, parse_cli_arg, str_ends_with, str_eq, CliCommand,
    ForgetAction, LegacyEntryAction, ASSET_VERSION,
};

#[test]
fn string_helpers() {
    assert!(str_eq("abc", "abc"));
    assert!(!str_eq("abc", "abd"));
    assert!(!str_eq("ab", "abc"));
    assert!(str_ends_with("luna.userdb", ".userdb"));
    assert!(!str_ends_with("db", ".userdb"));
    assert!(str_ends_with("x", ""));
}

#[test]
fn user_owned_names() {
    assert!(is_user_owned("luna_pinyin.userdb"));
    assert!(is_user_owned("luna_pinyin.userdb.txt"));
    assert!(is_user_owned("default.custom.yaml"));
    assert!(is_user_owned("user.yaml"));
    assert!(is_user_owned("build"));
    assert!(!is_user_owned("luna_pinyin.schema.yaml"));
    assert!(!is_user_owned("builds"));
}

#[test]
fn legacy_migration_decisions() {
    assert_eq!(legacy_entry_action("shared", false, true), LegacyEntryAction::Skip);
    assert_eq!(legacy_entry_action("user", false, true), LegacyEntryAction::Skip);
    assert_eq!(legacy_entry_action("build", false, true), LegacyEntryAction::MoveToUser);
    assert_eq!(legacy_entry_action("essay.txt", true, false), LegacyEntryAction::RemoveFile);
    assert_eq!(legacy_entry_action("opencc", false, true), LegacyEntryAction::RemoveDir);
    assert_eq!(legacy_entry_action("odd", false, false), LegacyEntryAction::Keep);
}

#[test]
fn forget_decisions() {
    assert_eq!(forget_action("luna.userdb", true, false), ForgetAction::RemoveDir);
    assert_eq!(forget_action("luna.userdb", false, true), ForgetAction::Keep);
    assert_eq!(forget_action("luna.userdb.txt", false, true), ForgetAction::RemoveFile);
    assert_eq!(forget_action("user.yaml", false, true), ForgetAction::RemoveFile);
    assert_eq!(forget_action("default.custom.yaml", false, true), ForgetAction::Keep);
    assert_eq!(entry_suffix(1), "y");
    assert_eq!(entry_suffix(0), "ies");
    assert_eq!(entry_suffix(3), "ies");
}

#[test]
fn asset_stamp_is_trimmed_before_comparing() {
    assert!(asset_stamp_is_current("v0.1.0"));
    assert!(asset_stamp_is_current("  v0.1.0\n"));
    assert!(!asset_stamp_is_current("v0.0.9\n"));
    assert!(is_current_asset_version(ASSET_VERSION));
    assert!(!is_current_asset_version(" v0.1.0"));
}

#[test]
fn cli_arguments() {
    assert_eq!(parse_cli_arg("--licenses"), CliCommand::Licenses);
    assert_eq!(parse_cli_arg("--forget"), CliCommand::Forget);
    assert_eq!(parse_cli_arg("--help"), CliCommand::Help);
    assert_eq!(parse_cli_arg("-h"), CliCommand::Help);
    assert_eq!(parse_cli_arg("--version"), CliCommand::Version);
    assert_eq!(parse_cli_arg("-V"), CliCommand::Version);
    assert_eq!(parse_cli_arg("--bogus"), CliCommand::Unknown);
}

#[test]
fn help_lists_options() {
    let h = help_text();
    assert!(h.starts_with("zipin — terminal Chinese input method."));
    assert!(h.contains("--forget"));
    assert!(h.ends_with("launch.\n"));
}

#[test]
fn asset_stamp_trims_unicode_white_space_only() {
    assert!(asset_stamp_is_current("\u{3000}v0.1.0\u{a0}\r\n"));
    assert!(asset_stamp_is_current("\u{2009}v0.1.0\u{85}"));
    assert!(!asset_stamp_is_current("\u{200b}v0.1.0"));
    assert!(!asset_stamp_is_current("v0.1.0\u{feff}"));
}
