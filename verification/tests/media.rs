use std::path::Path;
use std::time::{Duration, UNIX_EPOCH};

use herdr_tg::media::{
    clock_reading, extension_for, join_path, stamp_at, stamp_of_reading, mime_from_telegram_path, minted_name, refusal_for_open,
    refusal_for_step, refuse_unopenable, Addr, FileKind, MediaStore, NotSendable, OpenFailure,
    OpenedDirFacts, OpenedFileFacts, SegmentFacts, MAX_LANE, SEND_CEILING, SHELF_LIFE_SECS,
    TREE_CAP,
};
use herdr_tg::stamp::utc_stamp;

#[test]
fn a_photos_mime_is_read_off_telegrams_own_path_and_only_off_that() {
    assert_eq!(
        mime_from_telegram_path("photos/file_123.jpg"),
        Some("image/jpeg")
    );
    assert_eq!(
        mime_from_telegram_path("photos/file_123.JPEG"),
        Some("image/jpeg")
    );
    assert_eq!(mime_from_telegram_path("documents/file_9.pdf"), None);
    assert_eq!(mime_from_telegram_path("noext"), None);
}

#[test]
fn a_minted_name_is_the_moment_a_random_suffix_and_an_extension_only_from_the_table() {
    // `<yyyymmdd>-<hhmmss>-<8 hex>` and, for a mime the table knows, its extension. Nothing
    // else can reach the name: a declared mime that is not exactly a table key — including
    // one with a path or a parameter tacked on — earns no extension at all.
    let dir = Path::new("/state/media/p/-");
    let minted = MediaStore::mint("/state/media/p/-", Some("image/png"));
    let p = Path::new(&minted);
    let name = p.file_name().unwrap().to_str().unwrap();
    assert!(
        name.len() == "20260905-231455-9f3a1c2e.png".len()
            && name.ends_with(".png")
            && name[..8].chars().all(|c| c.is_ascii_digit())
            && &name[8..9] == "-"
            && name[9..15].chars().all(|c| c.is_ascii_digit())
            && &name[15..16] == "-"
            && name[16..24].chars().all(|c| c.is_ascii_hexdigit()),
        "{name}"
    );
    assert_eq!(p.parent(), Some(dir));
    for odd in [
        "application/x-sh",
        "image/png; charset=../../x",
        "IMAGE/PNG",
        "../../../etc/passwd",
        "",
    ] {
        let minted = MediaStore::mint("/state/media/p/-", Some(odd));
        let p = Path::new(&minted);
        let name = p.file_name().unwrap().to_str().unwrap();
        assert_eq!(name.len(), 24, "{odd:?} named an extension: {name}");
        assert!(!name.contains('/') && !name.contains('.'), "{name}");
    }
    assert_eq!(utc_stamp(0), "19700101-000000");
    assert_eq!(utc_stamp(1_788_650_095), "20260905-231455");
}

// ----- further cases -----

#[test]
fn a_minted_name_is_exactly_the_stamp_the_bytes_and_the_extension() {
    assert_eq!(
        minted_name(1_788_650_095, [0x9f, 0x3a, 0x1c, 0x2e], Some("image/png")),
        "20260905-231455-9f3a1c2e.png"
    );
    assert_eq!(
        minted_name(0, [0, 1, 0xab, 0xff], None),
        "19700101-000000-0001abff"
    );
    assert_eq!(
        minted_name(86_399, [0, 0, 0, 0], Some("text/plain; x")),
        "19700101-235959-00000000"
    );
}

#[test]
fn the_stamp_crosses_leap_days_and_centuries() {
    assert_eq!(utc_stamp(951_782_400), "20000229-000000");
    assert_eq!(utc_stamp(951_868_800), "20000301-000000");
    assert_eq!(utc_stamp(4_107_542_400), "21000301-000000");
    assert_eq!(utc_stamp(4_107_542_399), "21000228-235959");
    assert_eq!(utc_stamp(1_709_164_800), "20240229-000000");
    assert_eq!(utc_stamp(253_402_300_799), "99991231-235959");
    assert_eq!(utc_stamp(253_402_300_800), "100000101-000000");
}

#[test]
fn every_extension_comes_from_the_table_and_only_for_its_exact_key() {
    let table = [
        ("image/jpeg", "jpg"),
        ("image/png", "png"),
        ("image/webp", "webp"),
        ("image/gif", "gif"),
        ("application/pdf", "pdf"),
        ("text/plain", "txt"),
        ("text/markdown", "md"),
        ("text/csv", "csv"),
        ("application/json", "json"),
        ("audio/ogg", "ogg"),
        ("audio/mpeg", "mp3"),
        ("video/mp4", "mp4"),
        ("application/zip", "zip"),
    ];
    for (mime, ext) in table {
        assert_eq!(extension_for(mime), Some(ext));
        assert_eq!(extension_for(&format!("{mime} ")), None);
        assert_eq!(extension_for(&mime.to_uppercase()), None);
    }
    assert_eq!(extension_for("image/svg+xml"), None);
}

#[test]
fn a_photo_path_without_a_known_extension_earns_nothing() {
    assert_eq!(mime_from_telegram_path("photos/file.tar.PNG"), Some("image/png"));
    assert_eq!(mime_from_telegram_path("photos/file.webp"), Some("image/webp"));
    assert_eq!(mime_from_telegram_path("photos/file."), None);
    assert_eq!(mime_from_telegram_path("photos.jpg/file"), None);
    assert_eq!(mime_from_telegram_path("x.Jpg"), Some("image/jpeg"));
}

#[test]
fn a_name_the_hub_opens_is_one_plain_segment() {
    for good in ["shot.png", "-", "a b", "é", &"x".repeat(MAX_LANE)] {
        assert!(MediaStore::name_is_openable(good), "{good:?}");
    }
    for bad in [
        "",
        ".",
        "..",
        "a/b",
        "a\\b",
        "tab\there",
        "bell\u{7}",
        "del\u{7f}",
        "c1\u{85}",
        &"x".repeat(MAX_LANE + 1),
        &"é".repeat(33),
    ] {
        assert!(!MediaStore::name_is_openable(bad), "{bad:?}");
    }
    assert!(MediaStore::name_is_openable(&"é".repeat(32)));
    assert_eq!(
        refuse_unopenable("../x"),
        Err(NotSendable::NotAFile(
            "the name is not one the hub will open".to_string()
        ))
    );
    assert_eq!(refuse_unopenable("x"), Ok(()));
}

#[test]
fn the_projects_own_voice_is_the_dash_segment() {
    let store = MediaStore::new("/tmp/state/media");
    assert_eq!(store.cap(), TREE_CAP);
    assert_eq!(store.shelf_life(), SHELF_LIFE_SECS);
    let segs = store.dir_for(&Addr::project_itself("p-9f3a1c2e5b7d"));
    assert_eq!(
        segs,
        vec![
            "/tmp/state/media".to_string(),
            "/tmp/state/media/p-9f3a1c2e5b7d".to_string(),
            "/tmp/state/media/p-9f3a1c2e5b7d/-".to_string(),
        ]
    );
    let segs = store.dir_for(&Addr::lane_of("p-9f3a1c2e5b7d", "w1").unwrap());
    assert_eq!(segs[2], "/tmp/state/media/p-9f3a1c2e5b7d/w1");
    let small = MediaStore::new("media/").with_cap(1_000);
    assert_eq!(small.cap(), 1_000);
    assert_eq!(small.dir_for(&Addr::project_itself("p"))[1], "media/p");
}

#[test]
fn the_owner_can_be_moved_for_a_test() {
    let mut store = MediaStore::new("/x");
    store.expect_owner(4242);
    assert_eq!(store.owner(), 4242);
}

#[test]
fn a_path_is_joined_as_std_joins_it() {
    for (dir, seg) in [("a", "b"), ("a/", "b"), ("", "b"), ("a", "/b"), ("/", "b"), ("a", "")] {
        let want = Path::new(dir).join(seg);
        assert_eq!(join_path(dir, seg), want.to_str().unwrap(), "{dir:?} {seg:?}");
    }
}

#[test]
fn a_segment_that_is_not_the_hubs_own_is_refused_by_name() {
    let owner = 1000;
    let ok = SegmentFacts { is_link: false, is_dir: true, uid: owner, mode: 0o40700 };
    assert_eq!(herdr_tg::media::judge_segment("/m/p", &ok, owner), Ok(()));
    let link = SegmentFacts { is_link: true, ..ok };
    assert_eq!(
        herdr_tg::media::judge_segment("/m/p", &link, owner),
        Err("/m/p is a link, not a directory; the hub will not write through it".to_string())
    );
    let file = SegmentFacts { is_dir: false, ..ok };
    assert_eq!(
        herdr_tg::media::judge_segment("/m/p", &file, owner),
        Err("/m/p is not a directory".to_string())
    );
    let theirs = SegmentFacts { uid: 0, ..ok };
    assert_eq!(
        herdr_tg::media::judge_segment("/m/p", &theirs, owner),
        Err("/m/p is owned by uid 0, not by this hub (uid 1000); nothing here made it".to_string())
    );
    let wide = SegmentFacts { mode: 0o40755, ..ok };
    let refused = herdr_tg::media::judge_segment("/m/p-9f3a1c2e5b7d", &wide, owner).unwrap_err();
    assert!(refused.contains("p-9f3a1c2e5b7d") && refused.contains("755"), "{refused}");
    assert_eq!(
        refused,
        "/m/p-9f3a1c2e5b7d is mode 755, not 700; anyone on this machine could read what he sent"
    );
}

#[test]
fn an_opened_directory_on_the_way_is_held_to_the_same_rules() {
    let owner = 7;
    let ok = OpenedDirFacts { is_dir: true, uid: owner, mode: 0o700 };
    assert_eq!(herdr_tg::media::judge_opened_dir("the outbox", &ok, owner), Ok(()));
    assert_eq!(
        herdr_tg::media::judge_opened_dir("the outbox", &OpenedDirFacts { mode: 0o770, ..ok }, owner),
        Err(NotSendable::NotAFile(
            "the outbox is mode 770, not 700; anyone on this machine could put a file in it"
                .to_string()
        ))
    );
    assert_eq!(
        herdr_tg::media::judge_opened_dir("the outbox", &OpenedDirFacts { uid: 8, ..ok }, owner),
        Err(NotSendable::NotAFile(
            "the outbox is owned by uid 8, not by this hub (uid 7)".to_string()
        ))
    );
    assert_eq!(
        herdr_tg::media::judge_opened_dir("the outbox", &OpenedDirFacts { is_dir: false, ..ok }, owner),
        Err(NotSendable::NotAFile("the outbox is not a directory".to_string()))
    );
}

#[test]
fn a_second_name_for_a_file_is_refused_and_a_copy_goes() {
    let owner = 1000;
    let copy = OpenedFileFacts { kind: FileKind::Regular, uid: owner, nlink: 1, size: 23 };
    assert_eq!(herdr_tg::media::judge_opened_file(&copy, owner, 1_000), Ok(23));
    let linked = OpenedFileFacts { nlink: 2, ..copy };
    let Err(NotSendable::NotAFile(why)) = herdr_tg::media::judge_opened_file(&linked, owner, 1_000)
    else {
        panic!("a file with another name was accepted");
    };
    assert!(why.contains("another name"), "{why}");
    assert_eq!(
        why,
        "it has another name outside this outbox (2 in all), and the hub sends only files written for it"
    );
    assert_eq!(
        herdr_tg::media::judge_opened_file(&OpenedFileFacts { size: 1_001, ..copy }, owner, 1_000),
        Err(NotSendable::TooBig(1_001))
    );
    assert_eq!(
        herdr_tg::media::judge_opened_file(&OpenedFileFacts { size: -1, ..copy }, owner, SEND_CEILING),
        Err(NotSendable::TooBig(u64::MAX))
    );
    assert_eq!(
        herdr_tg::media::judge_opened_file(&OpenedFileFacts { kind: FileKind::Pipe, ..copy }, owner, 1_000),
        Err(NotSendable::NotAFile("it is a pipe, not a regular file".to_string()))
    );
    assert_eq!(
        herdr_tg::media::judge_opened_file(&OpenedFileFacts { uid: 3, ..copy }, owner, 1_000),
        Err(NotSendable::NotAFile(
            "it is owned by uid 3, not by this hub (uid 1000); nothing in this design wrote it"
                .to_string()
        ))
    );
}

#[test]
fn a_refused_open_says_why() {
    assert_eq!(
        refusal_for_open(OpenFailure::Link, "x"),
        NotSendable::NotAFile("it is a link, and the hub follows none".to_string())
    );
    assert_eq!(
        refusal_for_open(OpenFailure::Socket, "x"),
        NotSendable::NotAFile("it is a socket, not a regular file".to_string())
    );
    assert_eq!(
        refusal_for_open(OpenFailure::Other, "No such file or directory (os error 2)"),
        NotSendable::NotAFile(
            "it could not be opened: No such file or directory (os error 2)".to_string()
        )
    );
    assert_eq!(
        refusal_for_step("the outbox could not be opened", "denied"),
        NotSendable::NotAFile("the outbox could not be opened: denied".to_string())
    );
}

#[test]
fn a_download_past_the_ceiling_is_cut_off_where_the_ceiling_is() {
    let mut count = herdr_tg::media::CappedCount::new(100);
    assert!(count.fits(60), "under");
    count.record(60);
    assert!(!count.fits(60), "wrote past the ceiling");
    assert!(count.hit_the_ceiling());
    assert_eq!(count.written(), 60, "the count moved for bytes that were refused");
    assert!(count.fits(40));
    count.record(40);
    assert_eq!(count.written(), 100);
    assert!(!count.fits(1));
    assert!(!count.fits(usize::MAX));
    count.record(1);
    assert_eq!(count.written(), 100);
}

#[test]
fn the_address_rules_refuse_the_dash_and_anything_that_is_not_one_segment() {
    assert!(Addr::lane_of("p", "-").is_none());
    assert!(Addr::lane_of("p", "").is_none());
    assert!(Addr::lane_of("p", "a/b").is_none());
    assert!(Addr::lane_of("p", "..").is_none());
    assert!(Addr::lane_of("p", &"w".repeat(65)).is_none());
    let a = Addr::lane_of("p", "--").unwrap();
    assert_eq!(a.project(), "p");
    assert_eq!(a.lane(), Some("--"));
    assert_eq!(a.segment(), "--");
    assert_eq!(Addr::project_itself("p").segment(), "-");
    assert_eq!(Addr::project_itself("p").lane(), None);
    let store = MediaStore::new("/m");
    assert_ne!(store.dir_for(&a)[2], store.dir_for(&Addr::project_itself("p"))[2]);
}

#[test]
fn a_clock_before_the_epoch_stamps_as_the_epoch() {
    assert_eq!(stamp_of_reading(None), "19700101-000000");
    assert_eq!(stamp_of_reading(Some(86_400)), "19700102-000000");
    assert_eq!(stamp_at(&(UNIX_EPOCH - Duration::from_secs(5))), "19700101-000000");
    assert_eq!(stamp_at(&(UNIX_EPOCH + Duration::from_secs(86_401))), "19700102-000001");
    assert_eq!(clock_reading(&(UNIX_EPOCH - Duration::from_secs(5))), None);
    assert_eq!(clock_reading(&(UNIX_EPOCH + Duration::from_millis(2_500))), Some(2));
}

#[test]
fn a_moment_is_stamped_as_itself() {
    let at = UNIX_EPOCH + Duration::from_secs(1_700_000_000);
    assert_eq!(stamp_at(&at), utc_stamp(1_700_000_000));
    assert_eq!(stamp_at(&at), "20231114-221320");
}
