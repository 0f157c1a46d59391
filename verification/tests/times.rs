use hep_ci::clock::{
    make_run_id, minute_text_at, now_text, now_ts, run_id_at, second_text_at, started_text,
    started_text_at, ts_from,
};

#[test]
fn the_clock_begins_in_1970() {
    assert_eq!(run_id_at(0, 0), "19700101-000000");
    assert_eq!(second_text_at(0, 0), "1970-01-01 00:00:00");
    assert_eq!(minute_text_at(0, 0), "1970-01-01 00:00");
    assert_eq!(run_id_at(-1, 0), "19691231-235959");
}

#[test]
fn moments_are_written_by_the_calendar() {
    assert_eq!(run_id_at(1709210096, 0), "20240229-123456");
    assert_eq!(second_text_at(1709210096, 0), "2024-02-29 12:34:56");
    assert_eq!(minute_text_at(1709210096, 0), "2024-02-29 12:34");
    assert_eq!(second_text_at(951782400, 0), "2000-02-29 00:00:00");
    assert_eq!(second_text_at(4107542400, 0), "2100-03-01 00:00:00");
}

#[test]
fn offsets_move_the_time() {
    assert_eq!(run_id_at(1709210096, 3600), "20240229-133456");
    assert_eq!(run_id_at(1709210096, -45296), "20240229-000000");
    assert_eq!(run_id_at(1709210096, -45297), "20240228-235959");
    assert_eq!(run_id_at(0, 86399), "19700101-235959");
    assert_eq!(run_id_at(0, -86399), "19691231-000001");
}

#[test]
fn far_years_have_a_sign() {
    assert_eq!(minute_text_at(253402300800, 0), "+10000-01-01 00:00");
    assert_eq!(minute_text_at(-62167219200, 0), "0000-01-01 00:00");
    assert_eq!(minute_text_at(-62167219201, 0), "-0001-12-31 23:59");
    assert_eq!(minute_text_at(-62135596800, 0), "0001-01-01 00:00");
}

#[test]
fn the_calendar_has_ends() {
    assert_eq!(second_text_at(-8334601228800, 0), "-262143-01-01 00:00:00");
    assert_eq!(second_text_at(8210266876799, 0), "+262142-12-31 23:59:59");
    assert_eq!(second_text_at(8210266876799, 1), "+262143-01-01 00:00:00");
    assert_eq!(second_text_at(-8334601228800, -1), "-262144-12-31 23:59:59");
    assert_eq!(second_text_at(8210266876799, 86399), "+262143-01-01 23:59:58");
    assert_eq!(second_text_at(-8334601228800, -86399), "-262144-12-31 00:00:01");
}

#[test]
fn a_start_without_an_offset_has_no_text() {
    assert_eq!(started_text_at(1709210096, Some(0)), "2024-02-29 12:34");
    assert_eq!(started_text_at(1709210096, Some(-3600)), "2024-02-29 11:34");
    assert_eq!(started_text_at(1709210096, None), "");
}

#[test]
fn a_start_outside_the_calendar_has_no_text() {
    assert_eq!(started_text(8210266876800), "");
    assert_eq!(started_text(i64::MAX as u64), "");
    assert_eq!(started_text(i64::MAX as u64 + 1), "");
    assert_eq!(started_text(8210266876799).is_empty(), false);
}

#[test]
fn a_start_is_written_to_the_minute() {
    let t = started_text(1709210096);
    assert_eq!(t.len(), 16);
    assert!(t.starts_with("2024-02-"));
    // the number of a moment just before 1970, as a run of the log may hold it
    let t = started_text(u64::MAX);
    assert!(t.starts_with("1969-12-31") || t.starts_with("1970-01-01"));
}

#[test]
fn run_ids_are_timestamps() {
    let id = make_run_id();
    assert_eq!(id.len(), 15);
    for (i, c) in id.chars().enumerate() {
        if i == 8 {
            assert_eq!(c, '-');
        } else {
            assert!(c.is_ascii_digit());
        }
    }
    assert_eq!(now_text().len(), 19);
}

#[test]
fn the_clock_counts_seconds() {
    let a = now_ts();
    let b = now_ts();
    assert!(a > 1_600_000_000);
    assert!(a <= b && b <= a + 5);
    assert_eq!(ts_from(Some(17)), 17);
    assert_eq!(ts_from(None), 0);
}
