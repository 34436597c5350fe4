use std::sync::Arc;

use faint_light::server::autostart::{desktop_entry, wide};
use faint_light::server::form::Form;
use faint_light::server::logs::{newer_half, text_lines, LogBuffer, LogWriter, CAPACITY};
use faint_light::server::nova::{percent_decode, request_json_field, session_token};
use faint_light::server::solve::{content_disposition, derived_name};
use faint_light::server::store::{format_time, Artifact, JobStatus, Store, ARTIFACT_BUDGET};
use faint_light::server::version;
use faint_light::server::web::{lookup, page};

fn form(fields: &[(&str, &str)]) -> Form {
    Form {
        file: None,
        fields: fields
            .iter()
            .map(|(k, v)| (k.to_string(), v.to_string()))
            .collect(),
    }
}

#[test]
fn api_percent_decoding() {
    assert_eq!(
        percent_decode("%7B%22apikey%22%3A+%22abc%22%7D"),
        r#"{"apikey": "abc"}"#
    );
}

#[test]
fn nova_percent_decoding() {
    assert_eq!(
        percent_decode("%7B%22apikey%22%3A+%22abc%22%7D"),
        r#"{"apikey": "abc"}"#
    );
}

#[test]
fn percent_decoding_leaves_broken_escapes() {
    assert_eq!(percent_decode("100%"), "100%");
    assert_eq!(percent_decode("%4"), "%4");
    assert_eq!(percent_decode("%zz%41"), "%zzA");
    assert_eq!(percent_decode("%+4x"), "\u{4}x");
    assert_eq!(percent_decode("a+b"), "a b");
    assert_eq!(percent_decode("%FF!"), "\u{FFFD}!");
}

#[test]
fn request_json_comes_from_its_field() {
    assert_eq!(
        request_json_field("x=1&request-json=%7B%7D&request-json=no").as_deref(),
        Some("{}")
    );
    assert_eq!(request_json_field("request-json").as_deref(), Some(""));
    assert_eq!(request_json_field("{\"a\": 1}"), None);
}

#[test]
fn flags_accept_the_usual_spellings() {
    let f = form(&[
        ("a", "1"),
        ("b", "true"),
        ("c", "ON"),
        ("d", ""),
        ("e", "0"),
        ("f", "no"),
    ]);
    for name in ["a", "b", "c", "d"] {
        assert!(f.flag(name), "{name} should be true");
    }
    for name in ["e", "f", "missing"] {
        assert!(!f.flag(name), "{name} should be false");
    }
}

#[test]
fn fields_are_found_in_arrival_order() {
    let f = form(&[("a", "first"), ("b", " yes "), ("a", "second")]);
    assert_eq!(f.field("a"), Some("first"));
    assert_eq!(f.field("z"), None);
    assert!(f.flag("b"));
}

#[test]
fn uploads_need_a_non_empty_file() {
    let mut f = form(&[]);
    assert_eq!(f.take_upload().unwrap_err(), "no file field in upload");
    f.file = Some(("a.fits".into(), Vec::new()));
    assert_eq!(f.take_upload().unwrap_err(), "empty upload");
    f.file = Some(("a.fits".into(), vec![1, 2]));
    assert_eq!(f.take_upload().unwrap(), ("a.fits".to_string(), vec![1, 2]));
    assert!(f.file.is_none());
}

#[test]
fn splits_writes_into_lines() {
    let mut buf = LogBuffer::new();
    let mut w = LogWriter::new();
    w.write(&mut buf, b"INFO first\nINFO sec");
    assert_eq!(buf.snapshot().1, "INFO first\n");
    w.write(&mut buf, b"ond\n");
    assert_eq!(buf.snapshot().1, "INFO first\nINFO second\n");
}

#[test]
fn one_write_or_two_log_the_same() {
    let mut a = LogBuffer::new();
    let mut wa = LogWriter::new();
    wa.write(&mut a, b"x\ny");
    wa.write(&mut a, b"z\r\nw");
    let mut b = LogBuffer::new();
    let mut wb = LogWriter::new();
    wb.write(&mut b, b"x\nyz\r\nw");
    assert_eq!(a.snapshot(), b.snapshot());
    assert_eq!(a.snapshot().1, "x\nyz\n");
}

#[test]
fn appends_incrementally_until_the_reader_falls_behind() {
    let mut buf = LogBuffer::new();
    buf.push("one".into());
    let (v, text) = buf.appended_since(0).unwrap();
    assert_eq!((v, text.as_str()), (1, "one\n"));
    buf.push("two".into());
    assert_eq!(buf.appended_since(v).unwrap().1, "two\n");
    assert_eq!(buf.appended_since(2).unwrap().1, "");
    for i in 0..CAPACITY + 5 {
        buf.push(format!("line {i}"));
    }
    assert!(buf.appended_since(2).is_none());
}

#[test]
fn drops_the_oldest_lines_past_capacity() {
    let mut buf = LogBuffer::new();
    for i in 0..CAPACITY + 10 {
        buf.push(format!("line {i}"));
    }
    let (version, text) = buf.snapshot();
    assert_eq!(version as usize, CAPACITY + 10);
    assert!(text.starts_with("line 10\n"));
    assert_eq!(text.lines().count(), CAPACITY);
}

#[test]
fn restored_history_is_the_first_splice() {
    let mut buf = LogBuffer::new();
    buf.restore("from the first run\r\nsecond\n", std::path::PathBuf::from("x.log"));
    assert_eq!(buf.version(), 2);
    assert_eq!(buf.appended_since(0).unwrap().1, "from the first run\nsecond\n");
    assert_eq!(buf.file(), Some(std::path::PathBuf::from("x.log")));
    buf.clear();
    assert_eq!(buf.snapshot(), (3, String::new()));
}

#[test]
fn the_file_is_checked_every_64_kib() {
    let mut buf = LogBuffer::new();
    assert!(buf.plan_append(10).is_none());
    buf.restore("", std::path::PathBuf::from("y.log"));
    assert_eq!(buf.plan_append(3).map(|p| p.1), Some(true));
    assert_eq!(buf.plan_append(3).map(|p| p.1), Some(false));
    assert_eq!(buf.plan_append(65530).map(|p| p.1), Some(false));
    assert_eq!(buf.plan_append(0).map(|p| p.1), Some(true));
}

#[test]
fn lines_split_like_str_lines() {
    assert_eq!(text_lines("a\r\nb\n\nc\r"), vec!["a", "b", "", "c\r"]);
    assert!(text_lines("").is_empty());
    assert_eq!(newer_half("1\n2\n3\n4\n5"), "3\n4\n5\n");
}

#[test]
fn derived_names_are_safe_and_keep_the_stem() {
    assert_eq!(
        derived_name("m42_light.jpg", "solved.fits"),
        "m42_light.solved.fits"
    );
    assert_eq!(
        derived_name("/tmp/sub dir/M 42.fit", "skyview.svg"),
        "M_42.skyview.svg"
    );
    assert_eq!(derived_name("...", "solved.fits"), "image.solved.fits");
    assert_eq!(derived_name("", "solved.fits"), "image.solved.fits");
    assert!(!derived_name("../../etc/passwd", "solved.fits").contains(['/', '\\']));
}

#[test]
fn time_formatting() {
    assert_eq!(format_time(1_752_100_000, 0), "2025-07-09 22:26:40.000000");
}

#[test]
fn time_formatting_keeps_microseconds_and_old_dates() {
    assert_eq!(format_time(0, 42), "1970-01-01 00:00:00.000042");
    assert_eq!(format_time(-1, 999_999), "1969-12-31 23:59:59.999999");
    assert_eq!(format_time(951_782_400, 0), "2000-02-29 00:00:00.000000");
}

fn artifact(len: usize) -> Artifact {
    Artifact {
        content_type: "application/fits",
        filename: "x.fits".into(),
        bytes: Arc::new(vec![0u8; len]),
    }
}

#[test]
fn create_and_finish() {
    let mut s: Store<u32> = Store::default();
    let (sub, job) = s.create("a.fits".into());
    assert_eq!(s.submission(sub).unwrap().job, job);
    assert!(matches!(s.job(job).unwrap().status, JobStatus::Solving));
    s.finish(job, JobStatus::Failure("x".into()));
    assert!(matches!(s.job(job).unwrap().status, JobStatus::Failure(_)));
    assert!(s.job(job).unwrap().finished.is_some());
}

#[test]
fn ids_are_fresh() {
    let mut s: Store<u32> = Store::default();
    let (a, b) = s.create("a".into());
    let (c, d) = s.create("b".into());
    assert_eq!((a, b, c, d), (1, 2, 3, 4));
    assert!(s.job(a).is_none());
    assert!(s.submission(b).is_none());
    s.finish(d, JobStatus::Success(Box::new(7)));
    assert!(matches!(s.job(d).unwrap().status, JobStatus::Success(ref v) if **v == 7));
}

#[test]
fn artifacts_are_retrievable_and_replaceable() {
    let mut s: Store<u32> = Store::default();
    s.put_artifact(1, "fits", artifact(10));
    s.put_artifact(1, "skyview", artifact(20));
    assert_eq!(s.artifact(1, "fits").unwrap().bytes.len(), 10);
    assert_eq!(s.artifact(1, "skyview").unwrap().bytes.len(), 20);
    assert!(s.artifact(2, "fits").is_none());
    s.put_artifact(1, "fits", artifact(30));
    assert_eq!(s.artifact(1, "fits").unwrap().bytes.len(), 30);
    assert_eq!(s.cached_count(), 2);
}

#[test]
fn the_oldest_artifacts_are_evicted_past_the_budget() {
    let mut s: Store<u32> = Store::default();
    let big = ARTIFACT_BUDGET / 2 + 1;
    for job in 1..=3 {
        s.put_artifact(job, "fits", artifact(big));
    }
    assert!(s.artifact(1, "fits").is_none(), "oldest should be gone");
    assert!(s.artifact(3, "fits").is_some(), "newest must survive");
    assert!(s.cached_bytes() <= ARTIFACT_BUDGET);
}

#[test]
fn an_oversized_artifact_is_still_served_once() {
    let mut s: Store<u32> = Store::default();
    s.put_artifact(1, "fits", artifact(ARTIFACT_BUDGET + 1));
    assert!(s.artifact(1, "fits").is_some());
}

#[test]
fn the_page_stamps_the_version() {
    let p = page("<p>{{VERSION}}</p><a href=\"/api/v1/solve\">{{VERSION}}{{VERSION</a>");
    assert_eq!(p, "<p>0.1.1a</p><a href=\"/api/v1/solve\">0.1.1a{{VERSION</a>");
    assert_eq!(version(), "0.1.1a");
}

#[test]
fn only_embedded_assets_are_served() {
    assert_eq!(lookup("style.css"), Some("text/css; charset=utf-8"));
    assert_eq!(lookup("favicon.ico"), Some("image/x-icon"));
    assert_eq!(lookup("faint-light-logo.png"), Some("image/png"));
    assert!(lookup("../Cargo.toml").is_none());
}

#[test]
fn autostart_entry_and_wide_strings() {
    let e = desktop_entry("/opt/faint light/fl");
    assert!(e.starts_with("[Desktop Entry]\nType=Application\n"));
    assert!(e.contains("Exec=\"/opt/faint light/fl\"\n"));
    assert!(e.ends_with("X-GNOME-Autostart-enabled=true\n"));
    assert_eq!(wide("a\u{1F600}"), vec![0x61, 0xD83D, 0xDE00, 0]);
}

#[test]
fn counters_a_caller_checks_before_writing() {
    let mut s: Store<u32> = Store::default();
    assert_eq!(s.last_issued(), 0);
    s.create("a".into());
    assert_eq!(s.last_issued(), 2);

    let mut buf = LogBuffer::new();
    let mut w = LogWriter::new();
    assert_eq!(w.pending_len(), 0);
    w.write(&mut buf, b"one\ntw");
    assert_eq!(w.pending_len(), 2);
    assert_eq!(buf.line_count(), 1);
    w.write(&mut buf, b"o\nthree\n");
    assert_eq!(w.pending_len(), 0);
    assert_eq!(buf.line_count(), 3);
}

#[test]
fn a_new_session_reads_back_what_the_last_one_wrote() {
    // What a session appends to its file is each of its lines and a
    // newline, which is the text of its snapshot.
    let path = std::path::PathBuf::from("faint-light.log");
    let mut first = LogBuffer::new();
    first.restore("", path.clone());
    let mut w = LogWriter::new();
    w.write(&mut first, b"from the first run\n");
    let file = first.snapshot().1;

    let mut second = LogBuffer::new();
    second.restore(&file, path.clone());
    assert_eq!(second.snapshot().1, "from the first run\n");
    let mut w2 = LogWriter::new();
    w2.write(&mut second, b"from the second run\n");
    assert_eq!(second.snapshot().1, "from the first run\nfrom the second run\n");

    // Clearing empties the buffer; the file is emptied with it.
    second.clear();
    assert_eq!(second.snapshot().1, "");
    let mut third = LogBuffer::new();
    third.restore("", path);
    assert_eq!(third.snapshot().1, "");
}

#[test]
fn stamping_leaves_no_placeholder() {
    for t in ["{{{{VERSION}}}}", "{{VER{{VERSION}}SION}}", "{{VERSION}}{{VERSION}}", "{{VERSION"] {
        let p = page(t);
        assert!(!p.contains("{{VERSION}}"), "{t} -> {p}");
    }
    assert_eq!(page("{{VER{{VERSION}}SION}}"), format!("{{{{VER{}SION}}}}", version()));
}

#[test]
fn session_tokens_are_32_hex_digits_of_the_scramble() {
    assert_eq!(session_token(0, 0), "00000000000000000000000000000000");
    assert_eq!(session_token(1, 0), "90109fb9eca23189639d398ae977beb1");
    assert_eq!(
        session_token(1_700_000_000_123_456_789, 4242),
        "8811bf3d8e41bf79f63372482d4fd455"
    );
}

#[test]
fn downloads_are_named_in_the_disposition() {
    assert_eq!(
        content_disposition("attachment", "m42_light.solved.fits"),
        "attachment; filename=\"m42_light.solved.fits\""
    );
    assert_eq!(content_disposition("inline", "x.png"), "inline; filename=\"x.png\"");
}

/// A page template of the shape the server ships: version stamps, the API
/// links and the assets it loads.
const SAMPLE_TEMPLATE: &str = "<!doctype html><html><head><title>faint_light {{VERSION}}</title>\
<link rel=\"stylesheet\" href=\"/assets/style.css\">\
<link rel=\"icon\" href=\"/assets/favicon-32.png\">\
</head><body><img src=\"/assets/faint-light-logo.png\" alt=\"faint_light\">\
<p>faint_light {{VERSION}} answers <code>/api/v1/solve</code> and <code>/api/upload</code>.</p>\
<script src=\"/assets/app.js\"></script></body></html>";

#[test]
fn the_page_carries_the_version_and_the_api_links() {
    let p = page(SAMPLE_TEMPLATE);
    assert!(p.contains(version()));
    assert!(!p.contains("{{VERSION}}"));
    assert!(p.contains("/api/v1/solve"));
    assert!(p.contains("faint_light"), "the release check greps for it");
}

#[test]
fn every_asset_the_page_references_is_embedded() {
    let p = page(SAMPLE_TEMPLATE);
    let mut seen = 0;
    for chunk in p.split("/assets/").skip(1) {
        let name: String = chunk
            .chars()
            .take_while(|c| c.is_ascii_alphanumeric() || "-_.".contains(*c))
            .collect();
        assert!(
            lookup(&name).is_some(),
            "{name} is referenced but not embedded"
        );
        seen += 1;
    }
    assert!(
        seen >= 3,
        "expected the stylesheet, the script and the logo"
    );
    assert!(lookup("favicon.ico").is_some());
    assert!(lookup("../Cargo.toml").is_none());
}

#[test]
fn splicing_what_was_appended_gives_a_fresh_snapshot() {
    let mut buf = LogBuffer::new();
    buf.push("one".to_string());
    buf.push("two".to_string());
    let (v0, t0) = buf.snapshot();
    buf.push("three".to_string());
    let (v1, t1) = buf.appended_since(v0).unwrap();
    assert_eq!(buf.snapshot(), (v1, format!("{t0}{t1}")));

    let mut full = LogBuffer::new();
    for i in 0..CAPACITY {
        full.push(format!("line {i}"));
    }
    let (v0, t0) = full.snapshot();
    full.push("late a".to_string());
    full.push("late b".to_string());
    let (v1, t1) = full.appended_since(v0).unwrap();
    let spliced = format!("{t0}{t1}");
    let without_two: String = spliced.splitn(3, '\n').nth(2).unwrap().to_string();
    assert_eq!(full.snapshot(), (v1, without_two));
}

#[test]
fn clearing_forces_earlier_readers_to_rebuild() {
    let mut buf = LogBuffer::new();
    buf.push("a".to_string());
    buf.push("b".to_string());
    let v0 = buf.version();
    buf.clear();
    assert_eq!(buf.snapshot(), (v0 + 1, String::new()));
    buf.push("c".to_string());
    for v in 0..=v0 {
        assert!(buf.appended_since(v).is_none());
    }
    assert_eq!(buf.appended_since(v0 + 1).unwrap().1, "c\n");
}

#[test]
fn the_buffer_holds_the_newest_lines_since_the_last_clear() {
    let mut buf = LogBuffer::new();
    buf.push("before".to_string());
    buf.clear();
    for i in 0..CAPACITY + 3 {
        buf.push(format!("{i}"));
    }
    let (v, text) = buf.snapshot();
    assert_eq!(v, (CAPACITY + 5) as u64);
    assert_eq!(text.lines().count(), CAPACITY);
    assert!(text.starts_with("3\n4\n"));
    assert!(text.ends_with(&format!("{}\n", CAPACITY + 2)));
}
