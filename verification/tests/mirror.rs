use std::collections::BTreeSet;

use herdr_tg::mirror::{hash, new_since, worth_relaying, Mirror};

const P: &str = "w1:p1";

/// The core: a settled screen with new prose on it produces one message.
#[test]
fn new_prose_on_a_settled_screen_is_relayed_once() {
    let mut m = Mirror::default();
    let first = "Checking each theme for hue collisions.";
    m.prime(P, first);

    let second = "Checking each theme for hue collisions.\n\
                  retro-82 has blue equal to magenta, so no collision-free set exists.";
    assert!(
        m.observe(P, second).is_none(),
        "must wait for the screen to settle"
    );
    let out = m.observe(P, second).expect("settled, with new prose");
    assert!(out.contains("retro-82"));
    assert!(
        !out.contains("Checking each theme"),
        "resent what was already sent: {out}"
    );

    // Offered again unchanged, it says nothing.
    assert!(m.observe(P, second).is_none());
}

/// A screen still changing is a screen mid-thought.
#[test]
fn a_moving_screen_is_never_relayed() {
    let mut m = Mirror::default();
    m.prime(P, "start");
    for frame in [
        "⠋ thinking about the palette problem now",
        "⠙ thinking about the palette problem now",
        "⠹ thinking about the palette problem now",
    ] {
        assert!(
            m.observe(P, frame).is_none(),
            "relayed a moving frame: {frame}"
        );
    }
}

/// Startup must not dump a screenful of history into the topic as though it had just been said.
#[test]
fn priming_relays_nothing() {
    let mut m = Mirror::default();
    let screen = "A long-running session that has been going for hours and hours already.";
    m.prime(P, screen);
    assert!(m.observe(P, screen).is_none());
}

/// Tool output is most of the volume and none of the conversation.
#[test]
fn output_is_not_relayed_even_when_it_is_new() {
    let mut m = Mirror::default();
    m.prime(P, "before");
    let noisy = "before\n$ cargo test --workspace\n   Compiling herdr-tg v0.1.0\n\
                 +  return resolve(cls)\nthread 'main' panicked at src/lib.rs:42:9";
    assert!(m.observe(P, noisy).is_none());
    assert!(m.observe(P, noisy).is_none(), "output reached the chat");
}

/// An agent explaining itself around a snippet is the normal case — keep the words.
#[test]
fn prose_around_a_snippet_keeps_the_prose() {
    let mut m = Mirror::default();
    m.prime(P, "x");
    let mixed = "x\nI rewrote the resolver so the class decides the chain.\n\
                 +  return resolve(cls)\nThat removes the last hard-coded model name.";
    m.observe(P, mixed);
    let out = m.observe(P, mixed).expect("prose present");
    assert!(out.contains("rewrote the resolver"));
    assert!(out.contains("last hard-coded"));
    assert!(
        !out.contains("return resolve"),
        "code leaked into the message: {out}"
    );
}

#[test]
fn a_short_flicker_is_below_the_relay_threshold() {
    let mut m = Mirror::default();
    m.prime(P, "working");
    let tiny = "working\nok";
    m.observe(P, tiny);
    assert!(m.observe(P, tiny).is_none());
}

/// When the screen scrolls past everything we last saw, the anchor is gone; relaying the whole
/// visible screen is better than losing what was said.
#[test]
fn a_scrolled_screen_relays_what_is_visible() {
    assert_eq!(
        new_since(
            "an old line that has scrolled away",
            "a completely different screen now"
        )
        .as_deref(),
        Some("a completely different screen now")
    );
}

#[test]
fn the_anchor_finds_the_boundary() {
    let prev = "line one is here\nline two is here";
    let now = "line one is here\nline two is here\nline three is new";
    assert_eq!(new_since(prev, now).as_deref(), Some("line three is new"));
}

/// A redraw can reprint a paragraph the anchor cannot recognise as old.
#[test]
fn the_same_paragraph_printed_twice_is_sent_once() {
    let mut m = Mirror::default();
    m.prime(P, "");
    let para = "I have finished the migration and every test is green now.";
    m.observe(P, para);
    assert!(m.observe(P, para).is_some());

    // The screen churns, then redraws the same paragraph.
    m.observe(P, "⠋ working");
    m.observe(P, "⠋ working");
    m.observe(P, para);
    assert!(
        m.observe(P, para).is_none(),
        "the same paragraph was sent twice"
    );
}

#[test]
fn panes_that_left_the_herd_are_forgotten() {
    let mut m = Mirror::default();
    m.prime(P, "x");
    m.prime("w2:p1", "y");
    m.retain(&["w2:p1".to_string()].into_iter().collect::<BTreeSet<String>>());
    assert!(!m.has_seen(P));
    assert!(m.has_seen("w2:p1"));
}

// ----- further cases -----

#[test]
fn the_anchor_is_the_last_matching_line_and_trimmed() {
    // The anchor is the previous screen's last line of eight or more characters, trimmed, and it is
    // found at its LAST occurrence on the new screen.
    let prev = "short\n   the anchor line   \nok";
    let now = "the anchor line\nfirst new\nthe anchor line\n  second new  \n";
    assert_eq!(new_since(prev, now).as_deref(), Some("second new"));
}

#[test]
fn a_screen_with_nothing_after_the_anchor_has_nothing_new() {
    assert_eq!(new_since("a settled line here", "a settled line here\n   \n"), None);
    assert_eq!(new_since("anything at all here", ""), None);
}

#[test]
fn a_previous_screen_with_no_substantial_line_has_no_anchor() {
    // Nothing of eight characters: everything on the new screen is new.
    assert_eq!(new_since("ok\n  hi  ", "ok\nhi there").as_deref(), Some("ok\nhi there"));
}

#[test]
fn crlf_line_endings_are_lines_too() {
    let prev = "line one is here\r\n";
    let now = "line one is here\r\nline two is new\r\n";
    assert_eq!(new_since(prev, now).as_deref(), Some("line two is new"));
}

#[test]
fn only_prose_lines_of_enough_length_are_worth_relaying() {
    assert_eq!(worth_relaying("ok"), None);
    assert_eq!(worth_relaying("$ ls -la\n+ added line\n"), None);
    // Exactly forty characters of prose is enough; thirty-nine is not.
    let forty = "Abcdefghij abcdefghij abcdefghij abcdef.";
    assert_eq!(forty.chars().count(), 40);
    assert_eq!(worth_relaying(forty).as_deref(), Some(forty));
    assert_eq!(worth_relaying(&forty[1..]), None);
    let mixed = "  I changed the parser today.  \n$ cargo build\nAnd the tests pass again now.";
    assert_eq!(
        worth_relaying(mixed).as_deref(),
        Some("  I changed the parser today.  \nAnd the tests pass again now.")
    );
}

#[test]
fn the_hash_is_the_same_for_the_same_text_and_differs_for_another() {
    assert_eq!(hash("a paragraph"), hash("a paragraph"));
    assert_ne!(hash("a paragraph"), hash("another paragraph"));
}

#[test]
fn panes_do_not_share_a_debounce() {
    let mut m = Mirror::default();
    let para = "I have finished the migration and every test is green now.";
    m.prime("a", "");
    m.prime("b", "");
    m.observe("a", para);
    // Pane b has never shown this screen, so it is not settled for b.
    assert!(m.observe("b", para).is_none());
    assert!(m.observe("a", para).is_some());
    assert!(m.observe("b", para).is_some());
}
