use sghtmltopdf_core::pdf::options::{
    current_datetime, current_pdf_date, datetime_from_unix, pdf_date_from_unix, producer_string,
    seconds_from_clock, DocumentMetadata,
};

#[test]
fn pdf_dates_are_formatted_in_utc() {
    assert_eq!(pdf_date_from_unix(0), "D:19700101000000Z");
    assert_eq!(pdf_date_from_unix(1_784_939_696), "D:20260725003456Z");
    assert_eq!(pdf_date_from_unix(1_709_164_800), "D:20240229000000Z");
}

#[test]
fn the_document_title_is_only_used_when_the_option_is_absent() {
    let mut meta = DocumentMetadata::default();
    meta.fill_title_from_document(Some("HTMLのtitle".to_string()));
    assert_eq!(meta.title.as_deref(), Some("HTMLのtitle"));

    let mut meta = DocumentMetadata { title: Some("CLI指定".to_string()), ..Default::default() };
    meta.fill_title_from_document(Some("HTMLのtitle".to_string()));
    assert_eq!(meta.title.as_deref(), Some("CLI指定"));

    let mut meta = DocumentMetadata::default();
    meta.fill_title_from_document(Some("   ".to_string()));
    assert_eq!(meta.title, None);
}

#[test]
fn dates_before_the_epoch_count_backwards() {
    assert_eq!(datetime_from_unix(-1), (1969, 12, 31, 23, 59, 59));
    assert_eq!(pdf_date_from_unix(-86_400), "D:19691231000000Z");
    assert_eq!(datetime_from_unix(951_782_400), (2000, 2, 29, 0, 0, 0));
    assert_eq!(datetime_from_unix(4_107_542_400), (2100, 3, 1, 0, 0, 0));
}

#[test]
fn a_missing_title_stays_missing() {
    let mut meta = DocumentMetadata::default();
    meta.fill_title_from_document(None);
    assert_eq!(meta.title, None);
    assert_eq!(meta.author, None);
}

#[test]
fn the_producer_names_the_renderer_and_its_version() {
    let p = producer_string();
    assert!(p.starts_with("sghtmltopdf "));
    assert!(p.ends_with("0.1.0"));
}

#[test]
fn an_unreadable_clock_falls_back_to_the_epoch() {
    assert_eq!(seconds_from_clock(None), 0);
    assert_eq!(seconds_from_clock(Some(1_709_164_800)), 1_709_164_800);
}

#[test]
fn the_current_date_is_after_this_code_was_written() {
    let (year, month, day, hour, minute, second) = current_datetime();
    assert!(year >= 2024);
    assert!((1..=12).contains(&month) && (1..=31).contains(&day));
    assert!(hour < 24 && minute < 60 && second < 60);
    let date = current_pdf_date();
    assert_eq!(date.len(), 17);
    assert!(date.starts_with("D:2") && date.ends_with('Z'));
}
