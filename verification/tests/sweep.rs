use herdr_tg::sweep::{is_quiet, plan_sweep, removal_order, ProjectListing, SweepEntry};

const SEC: i128 = 1_000_000_000;
const SHELF: i128 = 48 * 60 * 60 * SEC;

fn entry(age_secs: i128, size: u64, now: i128) -> SweepEntry {
    SweepEntry { regular: true, written: now - age_secs * SEC, size }
}

#[test]
fn old_media_is_removed_oldest_first_past_the_cap() {
    // In listing order, with names chosen so that "oldest" and "alphabetically
    // first" disagree. Past the cap the oldest goes first; past the shelf life a file goes
    // whatever the cap says; what is left is exactly the newest that still fit.
    let now: i128 = 1_788_650_095 * SEC;
    let files = vec![
        entry(300, 300, now),            // zz-oldest
        entry(240, 300, now),            // aa-second
        entry(180, 300, now),            // mm-third
        entry(120, 300, now),            // bb-fourth
        entry(60, 300, now),             // yy-newest
        entry(3 * 24 * 60 * 60, 10, now), // stale
    ];
    let gone = plan_sweep(&files, now, SHELF, 1_000);
    assert_eq!(gone, vec![true, true, false, false, false, true]);
    let bytes: u64 = files.iter().zip(&gone).filter(|(_, g)| **g).map(|(f, _)| f.size).sum();
    assert_eq!(bytes, 610);
    // A second sweep of what was left takes nothing.
    let left: Vec<SweepEntry> = files
        .into_iter()
        .zip(gone)
        .filter(|(_, g)| !*g)
        .map(|(f, _)| f)
        .collect();
    assert_eq!(plan_sweep(&left, now, SHELF, 1_000), vec![false, false, false]);
}

#[test]
fn only_regular_files_are_counted_or_taken() {
    let now: i128 = 10_000 * SEC;
    let files = vec![
        SweepEntry { regular: false, written: 0, size: 5_000 },
        entry(10, 600, now),
        entry(5, 600, now),
    ];
    assert_eq!(plan_sweep(&files, now, SHELF, 1_000), vec![false, true, false]);
}

#[test]
fn files_written_at_the_same_moment_go_in_listing_order() {
    let now: i128 = 10_000 * SEC;
    let files = vec![entry(10, 400, now), entry(10, 400, now), entry(10, 400, now)];
    assert_eq!(plan_sweep(&files, now, SHELF, 500), vec![true, true, false]);
}

#[test]
fn a_file_from_the_future_is_fresh_and_the_shelf_life_is_exclusive() {
    let now: i128 = 1_000_000 * SEC;
    let files = vec![
        SweepEntry { regular: true, written: now + SEC, size: 1 },
        SweepEntry { regular: true, written: now - SHELF, size: 1 },
        SweepEntry { regular: true, written: now - SHELF - 1, size: 1 },
    ];
    assert_eq!(plan_sweep(&files, now, SHELF, 1_000), vec![false, false, true]);
}

#[test]
fn a_tree_under_its_cap_loses_nothing() {
    let now: i128 = 10_000 * SEC;
    let files = vec![entry(1, 100, now), entry(2, 100, now)];
    assert_eq!(plan_sweep(&files, now, SHELF, 200), vec![false, false]);
    assert_eq!(plan_sweep(&Vec::<SweepEntry>::new(), now, SHELF, 0), Vec::<bool>::new());
}

#[test]
fn only_a_directory_whose_last_write_has_aged_out_is_quiet() {
    let shelf: i128 = 172_800 * 1_000_000_000;
    let now: i128 = 1_000_000 * 1_000_000_000;
    let old = now - shelf - 1;
    assert!(is_quiet(true, Some(old), now, shelf));
    assert!(!is_quiet(true, Some(now - shelf), now, shelf));
    assert!(!is_quiet(false, Some(old), now, shelf));
    assert!(!is_quiet(true, None, now, shelf));
    assert!(!is_quiet(true, Some(now + 5), now, shelf));
}

#[test]
fn quiet_conversations_are_tried_before_their_project_and_nothing_else_is() {
    let listing = vec![
        ProjectListing { quiet: true, conversations_quiet: vec![true, false, true] },
        ProjectListing { quiet: false, conversations_quiet: vec![true] },
        ProjectListing { quiet: true, conversations_quiet: vec![] },
    ];
    assert_eq!(
        removal_order(&listing),
        vec![(0, Some(0)), (0, Some(2)), (0, None), (1, Some(0)), (2, None)]
    );
    assert!(removal_order(&vec![]).is_empty());
}
