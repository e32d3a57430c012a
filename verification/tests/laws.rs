//! The laws that Verus proves, on concrete values.

use herdr_tg::lock::LockError;
use herdr_tg::media::{extension_for, mime_from_telegram_path};
use herdr_tg::mirror::Mirror;
use herdr_tg::stamp::utc_stamp;

#[test]
fn a_relayed_screen_offered_again_says_nothing() {
    let mut m = Mirror::default();
    m.prime("p", "");
    let para = "I have finished the migration and every test is green now.";
    assert!(m.observe("p", para).is_none());
    assert!(m.observe("p", para).is_some());
    assert!(m.observe("p", para).is_none());
}

#[test]
fn retain_keeps_the_panes_that_stay() {
    let mut m = Mirror::default();
    m.prime("a", "x");
    m.prime("b", "y");
    m.retain(&["a".to_string(), "c".to_string()].into_iter().collect());
    assert!(m.has_seen("a"));
    assert!(!m.has_seen("b"));
    assert!(!m.has_seen("c"));
}

#[test]
fn every_day_of_a_leap_cycle_is_a_real_date_in_order() {
    // The days from 1970 to 2370 in order: each stamp is a valid date one day after the last.
    let mut last: Option<(u64, u64, u64)> = None;
    for day in 0..146_097u64 {
        let s = utc_stamp(day * 86_400);
        let y: u64 = s[..4].parse().unwrap();
        let m: u64 = s[4..6].parse().unwrap();
        let d: u64 = s[6..8].parse().unwrap();
        let leap = y % 4 == 0 && (y % 100 != 0 || y % 400 == 0);
        let len = match m {
            2 => if leap { 29 } else { 28 },
            4 | 6 | 9 | 11 => 30,
            _ => 31,
        };
        assert!((1..=12).contains(&m) && d >= 1 && d <= len, "{s}");
        if let Some((ly, lm, ld)) = last {
            let next = if ld < len_of(ly, lm) {
                (ly, lm, ld + 1)
            } else if lm < 12 {
                (ly, lm + 1, 1)
            } else {
                (ly + 1, 1, 1)
            };
            assert_eq!((y, m, d), next, "{s}");
        } else {
            assert_eq!((y, m, d), (1970, 1, 1));
        }
        last = Some((y, m, d));
    }
}

fn len_of(y: u64, m: u64) -> u64 {
    let leap = y % 4 == 0 && (y % 100 != 0 || y % 400 == 0);
    match m {
        2 => if leap { 29 } else { 28 },
        4 | 6 | 9 | 11 => 30,
        _ => 31,
    }
}

#[test]
fn every_line_of_what_is_relayed_reads_as_prose() {
    let fresh = "$ cargo test --workspace\n\
                 I rewrote the resolver so it no longer loops on a cycle.\n\
                 +    return resolve(next);\n\
                 \n\
                 Next I will look at why the cache misses on a cold start.\r\n\
                 ok";
    let w = herdr_tg::mirror::worth_relaying(fresh).unwrap();
    for line in w.lines() {
        let t = line.trim();
        assert!(!t.is_empty(), "{w:?}");
        assert!(t.contains(' '), "{w:?}");
        assert!(t.ends_with('.') || t.ends_with('!') || t.ends_with('?') || t.ends_with(':'));
        assert!(!t.starts_with('$') && !t.starts_with('+'), "{w:?}");
    }
    assert_eq!(w.lines().count(), 2, "{w:?}");
}

#[test]
fn retain_with_a_set_built_from_names_keeps_exactly_those() {
    let mut m = Mirror::default();
    m.prime("w1:p1", "x");
    m.prime("w2:p1", "y");
    let alive = herdr_tg::table::pane_names(&vec!["w2:p1".to_string(), "w3:p1".to_string()]);
    assert_eq!(alive.len(), 2);
    m.retain(&alive);
    assert!(!m.has_seen("w1:p1"));
    assert!(m.has_seen("w2:p1"));
}

#[test]
fn an_unchanged_screen_has_nothing_substantial() {
    let screen = "$ cargo build\n   Compiling the crate now\nok\n  done  \n";
    match herdr_tg::mirror::new_since(screen, screen) {
        None => {}
        Some(f) => {
            for l in f.lines() {
                assert!(l.trim().chars().count() < 8, "{f:?}");
            }
        }
    }
    assert_eq!(herdr_tg::mirror::new_since(screen, screen).as_deref(), Some("ok\n  done"));
}

#[test]
fn a_photo_mime_reads_back_through_its_extension() {
    for p in ["photos/file_1.jpg", "photos/file_2.JPEG", "photos/f.png", "x.WebP"] {
        let m = mime_from_telegram_path(p).unwrap();
        let e = extension_for(m).unwrap();
        assert_eq!(mime_from_telegram_path(&format!("x.{e}")), Some(m), "{p}");
    }
}

#[test]
fn a_held_lock_is_told_in_plain_words_for_every_pid() {
    for pid in [None, Some(0), Some(7), Some(4242), Some(u32::MAX)] {
        let s = LockError::Held { pid }.describe();
        for jargon in ["flock", "EWOULDBLOCK", "Errno", "LockError", "None"] {
            assert!(!s.contains(jargon), "{s}");
        }
        match pid {
            Some(p) => assert!(s.contains(&p.to_string()), "{s}"),
            None => assert!(s.contains("has not named itself yet"), "{s}"),
        }
    }
}

#[test]
fn a_count_never_passes_its_ceiling() {
    let mut c = herdr_tg::media::CappedCount::new(10);
    for len in [3usize, 4, 5, 3, 0, 1, usize::MAX] {
        if c.fits(len) {
            c.record(len);
        }
        assert!(c.written() <= 10);
    }
    assert_eq!(c.written(), 10);
    assert!(c.hit_the_ceiling());
}

#[test]
fn stamps_sort_as_their_moments() {
    let moments = [0u64, 59, 60, 3_599, 3_600, 86_399, 86_400, 951_782_400, 1_700_000_000, 253_402_300_799];
    for w in moments.windows(2) {
        assert!(utc_stamp(w[0]) < utc_stamp(w[1]), "{} {}", w[0], w[1]);
    }
}
