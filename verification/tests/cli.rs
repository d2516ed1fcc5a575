use riftx::{
    check_confirmation, check_new_password, default_pack_output, default_unpack_output,
    disclaimer, password_from_env, resolve_password, ByteCounter, PasswordError,
};

#[test]
fn env_var_used_when_no_flag() {
    let pw = resolve_password(None, Some("from_env".to_string())).unwrap();
    assert_eq!(pw, "from_env");
}

#[test]
fn flag_takes_precedence_over_env_var() {
    let pw = resolve_password(Some("from_flag"), Some("from_env".to_string())).unwrap();
    assert_eq!(pw, "from_flag");
}

#[test]
fn empty_env_var_falls_through_to_confirmation() {
    let result = password_from_env(Some(String::new()));
    assert!(result.is_none());
    assert!(resolve_password(None, Some(String::new())).is_none());
}

#[test]
fn confirmation_path_uses_env_var_without_prompting() {
    let pw = resolve_password(None, Some("scripted".to_string())).unwrap();
    assert_eq!(pw, "scripted");
}

#[test]
fn no_flag_and_no_env_var_means_prompting() {
    assert!(resolve_password(None, None).is_none());
}

#[test]
fn new_password_rules() {
    assert_eq!(check_new_password(""), Err(PasswordError::Empty));
    assert_eq!(check_new_password("x"), Ok(()));
    assert_eq!(check_confirmation("secret", "secret"), Ok(()));
    assert_eq!(check_confirmation("secret", "secreT"), Err(PasswordError::Mismatch));
    assert_eq!(check_confirmation("secret", "secret "), Err(PasswordError::Mismatch));
}

#[test]
fn default_output_names() {
    assert_eq!(default_pack_output(Some("my-project")), "my-project.riftx");
    assert_eq!(default_pack_output(None), "archive.riftx");
    assert_eq!(default_unpack_output(Some("backup")), "backup");
    assert_eq!(default_unpack_output(None), "archive");
}

#[test]
fn disclaimer_text_is_the_notice() {
    let text = disclaimer().unwrap();
    assert!(text.starts_with("Copyright (c) 2026, Ludovico Pestarino\n"));
    assert!(text.ends_with("the data provided by this tool."));
    assert_eq!(text.lines().count(), 4);
}

#[test]
fn byte_counter_refreshes_every_256_kib() {
    let mut counter = ByteCounter::new();
    assert_eq!(counter.next_refresh_at(), 0);
    assert!(counter.record(10));
    assert_eq!(counter.next_refresh_at(), 262_154);
    assert!(!counter.record(262_143));
    assert!(counter.record(1));
    assert_eq!(counter.count(), 262_154);
    assert!(!counter.record(100));
    assert_eq!(counter.count(), 262_254);
}
