use herdr_tg::lock::{read_pid, LockError, LOCK_FILE};

#[test]
fn a_held_lock_names_the_process_and_no_jargon() {
    let said = LockError::Held { pid: Some(4242) }.describe();
    assert!(said.contains("4242"), "{said}");
    for jargon in ["flock", "EWOULDBLOCK", "Errno", "LockError", "None"] {
        assert!(!said.contains(jargon), "jargon reached the operator: {said}");
    }
    assert_eq!(
        said,
        "another copy of this bridge is already running (process 4242), and only one can hold \
         the Telegram line. Stop that one first:  systemctl --user stop herdr-tg"
    );
}

#[test]
fn a_holder_that_has_not_named_itself_is_not_named() {
    let said = LockError::Held { pid: None }.describe();
    assert_eq!(
        said,
        "another copy of this bridge is already running, and only one can hold the Telegram \
         line. It started moments ago and has not named itself yet; try again in a second, or \
         stop it:  systemctl --user stop herdr-tg"
    );
}

#[test]
fn a_lock_that_could_not_be_tried_says_where() {
    let e = LockError::Io {
        path: "/state/hub.lock".to_string(),
        source: "Permission denied (os error 13)".to_string(),
    };
    assert_eq!(
        e.describe(),
        "could not use the state directory at /state/hub.lock: Permission denied (os error 13)"
    );
    assert_eq!(LOCK_FILE, "hub.lock");
}

#[test]
fn the_pid_is_read_back_as_std_parses_it() {
    for text in ["4242", " 4242\n", "+7", "0", "007", "4294967295", "", "   ", "+", "-1", "12a",
                 "4294967296", "99999999999999999999", "1 2", "\u{a0}55\u{3000}"] {
        assert_eq!(read_pid(text), text.trim().parse::<u32>().ok(), "{text:?}");
    }
}
