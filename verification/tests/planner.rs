use std::io::Cursor;

use dublette::dedupe::{finish_report, DeduplicationReport, DuplicateGroup, MediaKind};
use dublette::hash::hash_image_bytes;
use dublette::report::format_json;
use dublette::run::{exit_status, run_steps, OutputStep};
use dublette::scan::match_pass;
use dublette::skip::{SkipError, SkipReason, SkippedFile};
use image::{DynamicImage, ImageBuffer, ImageOutputFormat, Rgb, RgbImage};

fn png(img: RgbImage) -> Vec<u8> {
    let mut out = Cursor::new(Vec::new());
    DynamicImage::ImageRgb8(img).write_to(&mut out, ImageOutputFormat::Png).unwrap();
    out.into_inner()
}

fn gradient() -> Vec<u8> {
    png(ImageBuffer::from_fn(64, 64, |x, _| Rgb([x as u8, x as u8, x as u8])))
}

fn checkerboard(block: u32) -> Vec<u8> {
    png(ImageBuffer::from_fn(64, 64, |x, y| {
        if ((x / block) + (y / block)) % 2 == 0 {
            Rgb([255, 255, 255])
        } else {
            Rgb([0, 0, 0])
        }
    }))
}

/// Hashes the files as the image pass does and assembles the report.
fn plan_images(files: &[(&str, Vec<u8>)], threshold: u32, include_empty: bool, empty: Vec<String>) -> DeduplicationReport {
    let paths: Vec<String> = files.iter().map(|(p, _)| p.to_string()).collect();
    let outcomes: Vec<Result<Vec<u8>, String>> =
        files.iter().map(|(p, b)| hash_image_bytes(p, b, "png")).collect();
    let (groups, skipped) = match_pass(&paths, outcomes, threshold, MediaKind::Image);
    finish_report(groups, empty, skipped, include_empty)
}

#[test]
fn plan_identical_images_yield_one_group_kind_image() {
    let report = plan_images(&[("/d/a.png", gradient()), ("/d/b.png", gradient())], 0, false, vec![]);
    assert_eq!(report.groups.len(), 1);
    assert_eq!(report.groups[0].kind, MediaKind::Image);
    assert_eq!(report.groups[0].keep, "/d/a.png");
    assert_eq!(report.groups[0].duplicates, vec!["/d/b.png"]);
}

#[test]
fn plan_to_delete_uses_pathbuf_not_string() {
    let report = plan_images(&[("/d/a.png", gradient()), ("/d/b.png", gradient())], 0, false, vec![]);
    assert_eq!(report.to_delete, vec!["/d/b.png".to_string()]);
}

#[test]
fn plan_threshold_zero_excludes_near_matches() {
    let a = checkerboard(8);
    let b = checkerboard(16);
    let ha = hash_image_bytes("/d/a.png", &a, "png").unwrap();
    let hb = hash_image_bytes("/d/b.png", &b, "png").unwrap();
    let distance = dublette::hash::hash_distance_exec(&ha, &hb);
    assert!(distance > 0, "test setup expects non-zero distance");
    let report = plan_images(&[("/d/a.png", a.clone()), ("/d/b.png", b.clone())], 0, false, vec![]);
    assert!(report.groups.is_empty());
    let report = plan_images(&[("/d/a.png", a), ("/d/b.png", b)], distance, false, vec![]);
    assert_eq!(report.groups.len(), 1);
}

#[test]
fn plan_unreadable_image_recorded_as_skipped() {
    let report = plan_images(&[("/d/bad.png", b"not-an-image-payload".to_vec())], 0, false, vec![]);
    assert!(report.groups.is_empty());
    assert_eq!(report.skipped.len(), 1);
    assert_eq!(report.skipped[0].path, "/d/bad.png");
    assert!(report.skipped[0].reason.starts_with("failed to open /d/bad.png: "));
}

#[test]
fn plan_include_empty_populates_empty_files_and_to_delete() {
    let report = plan_images(&[], 0, true, vec!["/d/empty.jpg".to_string()]);
    assert_eq!(report.empty_files, vec!["/d/empty.jpg"]);
    assert!(report.to_delete.contains(&"/d/empty.jpg".to_string()));
    let report = plan_images(&[], 0, false, vec!["/d/empty.jpg".to_string()]);
    assert!(report.empty_files.is_empty());
    assert!(!report.to_delete.contains(&"/d/empty.jpg".to_string()));
}

#[test]
fn json_report_has_every_field() {
    let report = plan_images(&[("/d/a.png", gradient()), ("/d/b.png", gradient())], 0, false, vec![]);
    let skipped = vec![SkippedFile::new(
        "/d/c.mp3".to_string(),
        SkipError::new(SkipReason::DecodeFailed, "ffmpeg could not decode audio from /d/c.mp3".to_string()),
    )];
    let warnings = vec!["ffmpeg not found on PATH; skipping video pass".to_string()];
    let text = format_json(&report, true, &skipped, &warnings);
    let v: serde_json::Value = serde_json::from_str(&text).unwrap();
    assert_eq!(v["dry_run"], serde_json::Value::Bool(true));
    assert_eq!(v["groups"][0]["keep"], "/d/a.png");
    assert_eq!(v["groups"][0]["duplicates"][0], "/d/b.png");
    assert_eq!(v["total_duplicates"], 1);
    assert_eq!(v["empty_files"].as_array().unwrap().len(), 0);
    assert_eq!(v["skipped"][0]["path"], "/d/c.mp3");
    assert_eq!(v["skipped"][0]["reason"], "decode_failed");
    assert_eq!(v["skipped"][0]["detail"], "ffmpeg could not decode audio from /d/c.mp3");
    assert_eq!(v["total_skipped"], 1);
    assert_eq!(v["warnings"][0], "ffmpeg not found on PATH; skipping video pass");
    assert_eq!(v.as_object().unwrap().len(), 7);
}

#[test]
fn json_empty_case() {
    let report = DeduplicationReport { groups: vec![], empty_files: vec![], skipped: vec![], to_delete: vec![] };
    let json = format_json(&report, false, &vec![], &vec![]);
    let parsed: serde_json::Value = serde_json::from_str(&json).unwrap();
    assert_eq!(parsed["total_duplicates"], 0);
    assert!(parsed["groups"].as_array().unwrap().is_empty());
    assert!(parsed["empty_files"].as_array().unwrap().is_empty());
}

#[test]
fn report_json_output_valid() {
    let report = DeduplicationReport {
        groups: vec![DuplicateGroup {
            kind: MediaKind::Image,
            keep: "a.jpg".to_string(),
            duplicates: vec!["b.jpg".to_string()],
        }],
        empty_files: vec!["empty.jpg".to_string()],
        skipped: vec![],
        to_delete: vec!["b.jpg".to_string()],
    };
    let json = format_json(&report, true, &vec![], &vec![]);
    let parsed: serde_json::Value = serde_json::from_str(&json).unwrap();
    assert_eq!(parsed["dry_run"], true);
    assert_eq!(parsed["total_duplicates"], 1);
    assert_eq!(parsed["empty_files"][0], "empty.jpg");
    assert_eq!(parsed["groups"][0]["keep"], "a.jpg");
    assert_eq!(parsed["groups"][0]["duplicates"][0], "b.jpg");
}

fn labels(steps: &[OutputStep]) -> Vec<String> {
    steps
        .iter()
        .map(|s| match s {
            OutputStep::Json => "json".to_string(),
            OutputStep::EmptyTable => "empty-table".to_string(),
            OutputStep::DuplicatesTable => "table".to_string(),
            OutputStep::NoDuplicates => "none".to_string(),
            OutputStep::Delete(l, p) => format!("delete {l} {}", p.join(",")),
            OutputStep::WouldDelete(n) => format!("would {n}"),
            OutputStep::RemovedTotal => "removed".to_string(),
        })
        .collect()
}

#[test]
fn dry_run_deletes_nothing() {
    let report = plan_images(&[("/d/a.png", gradient()), ("/d/b.png", gradient())], 0, true, vec!["/d/e.jpg".to_string()]);
    let steps = run_steps(&report.groups, &report.empty_files, true, false);
    assert_eq!(labels(&steps), vec!["empty-table", "table", "would 1"]);
    let steps = run_steps(&report.groups, &report.empty_files, false, false);
    assert_eq!(
        labels(&steps),
        vec!["empty-table", "table", "delete empty /d/e.jpg", "delete duplicate /d/b.png", "removed"]
    );
    let steps = run_steps(&report.groups, &report.empty_files, false, true);
    assert_eq!(labels(&steps), vec!["json", "delete empty /d/e.jpg", "delete duplicate /d/b.png"]);
    let steps = run_steps(&vec![], &vec![], true, false);
    assert_eq!(labels(&steps), vec!["none"]);
}

#[test]
fn exit_status_is_1_for_dry_run_with_duplicates() {
    assert_eq!(exit_status(true, true), 1);
    assert_eq!(exit_status(true, false), 0);
    assert_eq!(exit_status(false, true), 0);
    assert_eq!(exit_status(false, false), 0);
}
