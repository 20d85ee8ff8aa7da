use wlrix_desktop::trash::{candidate_name, civil_from_days, percent_encode, record_name, timestamp, trash_dir_from, trashinfo};

/// The deletion date for the present moment, as the program stamps it.
fn now() -> String {
    let seconds = std::time::SystemTime::now()
        .duration_since(std::time::UNIX_EPOCH)
        .expect("after the epoch")
        .as_secs();
    timestamp(seconds)
}
#[test]
fn paths_are_percent_encoded_for_the_record() {
    // Spaces and non-ASCII both turn up in real filenames, and an unencoded `Path=` is a
    // record a file manager cannot parse.
    assert_eq!(percent_encode("/home/a/b c.txt"), "/home/a/b%20c.txt");
    assert_eq!(percent_encode("/home/a/%.txt"), "/home/a/%25.txt");
    assert_eq!(
        percent_encode("/home/a/メモ.txt"),
        "/home/a/%E3%83%A1%E3%83%A2.txt"
    );
    // Separators stay readable, and the unreserved set is left alone.
    assert_eq!(percent_encode("/a-b_c.d~e/f"), "/a-b_c.d~e/f");
}

#[test]
fn the_deletion_date_is_the_shape_the_spec_asks_for() {
    let stamp = now();
    assert_eq!(stamp.len(), 19, "{stamp}");
    assert_eq!(stamp.as_bytes()[10], b'T', "{stamp}");
    // Sane year, rather than 1970 or something absurd.
    let year: i32 = stamp[..4].parse().expect("a year");
    assert!((2020..2200).contains(&year), "{stamp}");
}

#[test]
fn the_calendar_maths_is_right_on_the_days_that_catch_people_out() {
    // Epoch, a leap day, and a century that is not a leap year.
    assert_eq!(civil_from_days(0), (1970, 1, 1));
    assert_eq!(civil_from_days(59), (1970, 3, 1));
    assert_eq!(civil_from_days(11_016), (2000, 2, 29));
    assert_eq!(civil_from_days(11_017), (2000, 3, 1));
    // 2024 is a leap year; 2026 is not, so February ends a day earlier.
    assert_eq!(civil_from_days(19_782), (2024, 2, 29));
    assert_eq!(civil_from_days(20_512), (2026, 2, 28));
    assert_eq!(civil_from_days(20_513), (2026, 3, 1));
}

#[test]
fn a_known_moment_is_stamped_in_utc() {
    assert_eq!(timestamp(0), "1970-01-01T00:00:00");
    assert_eq!(timestamp(951_782_400 + 3_723), "2000-02-29T01:02:03");
}

#[test]
fn a_clashing_name_is_numbered_before_its_extension() {
    assert_eq!(candidate_name("notes.txt", 0), "notes.txt");
    assert_eq!(candidate_name("notes.txt", 1), "notes.2.txt");
    assert_eq!(candidate_name("README", 1), "README.2");
    assert_eq!(candidate_name(".hidden", 1), ".hidden.2");
}

#[test]
fn the_record_is_named_after_the_trashed_file() {
    assert_eq!(record_name("notes.2.txt"), "notes.2.txt.trashinfo");
}

#[test]
fn the_record_carries_the_encoded_path_and_the_date() {
    let record = trashinfo("/home/a/b c.txt", "2026-03-01T12:00:00");
    assert!(record.starts_with("[Trash Info]\n"), "{record}");
    assert!(record.contains("Path=/home/a/b%20c.txt\n"), "{record}");
    assert!(record.contains("DeletionDate=2026-03-01T12:00:00"), "{record}");
}

#[test]
fn the_trash_lives_under_the_data_home() {
    assert_eq!(trash_dir_from(Some("/data"), Some("/home/a")).as_deref(), Some("/data/Trash"));
    assert_eq!(trash_dir_from(None, Some("/home/a")).as_deref(), Some("/home/a/.local/share/Trash"));
    assert_eq!(trash_dir_from(None, None), None);
}
