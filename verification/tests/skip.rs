use dublette::skip::{SkipError, SkipReason, SkippedFile};

#[test]
fn tags_are_stable_snake_case() {
    assert_eq!(SkipReason::DecodeFailed.tag(), "decode_failed");
    assert_eq!(SkipReason::TooShort.tag(), "too_short");
    assert_eq!(
        SkipReason::UnsupportedContainer.tag(),
        "unsupported_container"
    );
    assert_eq!(SkipReason::Unreadable.tag(), "unreadable");
}

#[test]
fn io_errors_are_unreadable() {
    let error = SkipError::from(std::io::Error::other("disk on fire"));
    assert_eq!(error.reason, SkipReason::Unreadable);
    assert_eq!(error.detail, "disk on fire");
}

#[test]
fn skip_error_new_keeps_reason_and_detail() {
    let error = SkipError::new(SkipReason::TooShort, "short".to_string());
    assert_eq!(error.reason, SkipReason::TooShort);
    assert_eq!(error.detail, "short");
}

#[test]
fn skipped_file_new_takes_error_fields() {
    let error = SkipError::new(SkipReason::DecodeFailed, "bad stream".to_string());
    let skipped = SkippedFile::new("music/x.mp3".to_string(), error);
    assert_eq!(skipped.path, "music/x.mp3");
    assert_eq!(skipped.reason, SkipReason::DecodeFailed);
    assert_eq!(skipped.detail, "bad stream");
}
