use stupid_fish::hack::{register_step, RegisterAction, SendOutcome};
use stupid_fish::hack::{
    auto_socket_id, boss_address_name, command_name, form_address_with, pid_le_bytes, wait_goes_on,
    wait_timed_out, ALLOW_LOADING_HISTORY_FROM_FILES,
};

#[test]
fn tests_tests() -> std::io::Result<()> {
    assert_eq!(ALLOW_LOADING_HISTORY_FROM_FILES, false);
    Ok(())
}

#[test]
fn address_is_pid_prefix_and_id() {
    assert_eq!(
        form_address_with(4242, "uds-status"),
        "4242/57b8ce61-d64293cc-da5ed9e2-d8458614/uds-status"
    );
    assert_eq!(form_address_with(0, ""), "0/57b8ce61-d64293cc-da5ed9e2-d8458614/");
    assert_eq!(
        form_address_with(u32::MAX, "history-provider"),
        "4294967295/57b8ce61-d64293cc-da5ed9e2-d8458614/history-provider"
    );
}

#[test]
fn auto_ids_count_up_in_decimal() {
    assert_eq!(auto_socket_id(0), "auto/0");
    assert_eq!(auto_socket_id(10), "auto/10");
    assert_eq!(auto_socket_id(u64::MAX), "auto/18446744073709551615");
}

#[test]
fn command_name_is_first_word() {
    assert_eq!(command_name("ls -la"), Some("ls".to_string()));
    assert_eq!(command_name("  \tgit  status "), Some("git".to_string()));
    assert_eq!(command_name("vim\nfile"), Some("vim".to_string()));
    assert_eq!(command_name("\u{3000}caf\u{e9} x"), Some("caf\u{e9}".to_string()));
    assert_eq!(command_name("make"), Some("make".to_string()));
}

#[test]
fn command_name_of_blank_line_is_none() {
    assert_eq!(command_name(""), None);
    assert_eq!(command_name("   \t\n"), None);
    assert_eq!(command_name("\u{a0}\u{2003}"), None);
}

#[test]
fn boss_address_is_trimmed() {
    assert_eq!(boss_address_name("  boss-socket\n"), "boss-socket");
    assert_eq!(boss_address_name("a b"), "a b");
    assert_eq!(boss_address_name("\t \n"), "");
    assert_eq!(boss_address_name(""), "");
    assert_eq!(boss_address_name("\u{2003}x\u{3000}"), "x");
}

#[test]
fn pid_bytes_are_little_endian() {
    assert_eq!(pid_le_bytes(0x0102_0304), [4, 3, 2, 1]);
    assert_eq!(pid_le_bytes(1), [1, 0, 0, 0]);
    assert_eq!(pid_le_bytes(u32::MAX), [255, 255, 255, 255]);
    assert_eq!(pid_le_bytes(123_456), 123_456u32.to_le_bytes());
}

#[test]
fn waits_and_deadlines() {
    assert!(wait_goes_on(Some(0), 2_000_000_000));
    assert!(wait_goes_on(Some(2_000_000_000), 2_000_000_000));
    assert!(!wait_goes_on(Some(2_000_000_001), 2_000_000_000));
    assert!(!wait_goes_on(None, 2_000_000_000));
    assert!(!wait_timed_out(Some(999_999_999), 1_000_000_000));
    assert!(wait_timed_out(Some(1_000_000_000), 1_000_000_000));
    assert!(wait_timed_out(None, 1_000_000_000));
}

#[test]
fn distinct_processes_or_ids_get_distinct_addresses() {
    assert_ne!(form_address_with(1, "a"), form_address_with(11, "a"));
    assert_ne!(form_address_with(1, "a"), form_address_with(1, "b"));
    assert_ne!(form_address_with(12, "x"), form_address_with(1, "x"));
}

#[test]
fn registration_steps() {
    assert_eq!(register_step(SendOutcome::Sent), RegisterAction::Done);
    assert_eq!(register_step(SendOutcome::Refused), RegisterAction::PauseAndRetry);
    assert_eq!(register_step(SendOutcome::Failed), RegisterAction::Fail);
}
