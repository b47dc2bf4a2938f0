use mbx_verify::batch::{exit_code, is_mbx_file_name, summary_line, tally_outcomes, FileOutcome};
use mbx_verify::canonical::{normalize_floats, write_compact};
use mbx_verify::info::{extract_package_info, package_info_would_panic};
use mbx_verify::json::{Json, JsonMember, JsonNumber};
use mbx_verify::text::{decimal_string, lower_hex};
use mbx_verify::timestamp::{
    format_duration, format_timestamp_ms, month_day_offset, parse_iso_timestamp_approx,
    scan_iso_timestamp, IsoScan,
};
use mbx_verify::verify::{verification_would_panic, verify_mbx_value, MbxError};
use sha2::Digest;

fn num(f: f64) -> Json {
    Json::Number(JsonNumber { f64_bits: f.to_bits(), unsigned: None, fixed6: format!("{:.6}", f) })
}

fn uint(u: u64) -> Json {
    Json::Number(JsonNumber {
        f64_bits: (u as f64).to_bits(),
        unsigned: Some(u),
        fixed6: format!("{:.6}", u as f64),
    })
}

fn s(t: &str) -> Json {
    Json::Str(t.to_string())
}

fn obj(members: Vec<(&str, Json)>) -> Json {
    Json::Object(
        members.into_iter().map(|(k, v)| JsonMember { key: k.to_string(), value: v }).collect(),
    )
}

fn minimal_doc(hash: &str) -> Json {
    obj(vec![
        ("format", s("AiBenchLab-MBX")),
        ("format_version", s("2.0")),
        ("created_at", uint(0)),
        ("content_hash", s(hash)),
        ("score", num(0.5)),
    ])
}

#[test]
fn format_timestamp_ms_writes_exact_dates() {
    assert_eq!(format_timestamp_ms(1767225600000), "2026-01-01T00:00:00Z");
    assert_eq!(format_timestamp_ms(0), "1970-01-01T00:00:00Z");
    assert_eq!(format_timestamp_ms(999), "1970-01-01T00:00:00Z");
    assert_eq!(format_timestamp_ms(1709395800000), "2024-03-02T16:10:00Z");
    assert_eq!(format_timestamp_ms(951782400000), "2000-02-29T00:00:00Z");
    assert_eq!(format_timestamp_ms(4102444799000), "2099-12-31T23:59:59Z");
}

#[test]
fn parse_iso_timestamp_approx_reads_fields() {
    assert_eq!(parse_iso_timestamp_approx("2026-03-02T14:30:00Z"), Some(1772461800));
    assert_eq!(parse_iso_timestamp_approx("  2026-01-01T00:00:00Z \n"), Some(1767225600));
    assert_eq!(parse_iso_timestamp_approx("2026-01-01T01:00:00.123+00:00"), Some(1767229200));
    assert_eq!(parse_iso_timestamp_approx("1970-01-01T00:00:00"), Some(0));
    assert_eq!(parse_iso_timestamp_approx("2026-01-01T00:00"), None);
    assert_eq!(parse_iso_timestamp_approx("abcd-01-01T00:00:00Z"), None);
    assert_eq!(parse_iso_timestamp_approx("2026-01-01T0x:00:00Z"), None);
}

#[test]
fn scan_iso_timestamp_reports_panicking_inputs() {
    assert_eq!(scan_iso_timestamp("1969-12-31T23:59:59Z"), IsoScan::Panics);
    assert_eq!(scan_iso_timestamp("1970-01-00T00:00:00Z"), IsoScan::Panics);
    assert_eq!(scan_iso_timestamp("ab\u{20ac}d-01-01T00:00:00Z"), IsoScan::Panics);
    assert_eq!(scan_iso_timestamp("2026-01-01T00:00:00Z"), IsoScan::Read(Some(1767225600)));
    assert_eq!(scan_iso_timestamp("short"), IsoScan::Read(None));
}

#[test]
fn month_day_offset_follows_common_year() {
    assert_eq!(month_day_offset(1), 0);
    assert_eq!(month_day_offset(3), 59);
    assert_eq!(month_day_offset(12), 334);
    assert_eq!(month_day_offset(0), 0);
    assert_eq!(month_day_offset(13), 0);
}

#[test]
fn format_duration_drops_empty_leading_units() {
    assert_eq!(format_duration(3600), "1h 0m 0s");
    assert_eq!(format_duration(3725), "1h 2m 5s");
    assert_eq!(format_duration(61), "1m 1s");
    assert_eq!(format_duration(5), "5s");
    assert_eq!(format_duration(0), "0s");
}

#[test]
fn decimal_and_hex_text() {
    assert_eq!(decimal_string(0), "0");
    assert_eq!(decimal_string(2048), "2048");
    assert_eq!(decimal_string(u64::MAX), "18446744073709551615");
    assert_eq!(lower_hex(&[0x0a, 0x14, 0x1e, 0xff]), "0a141eff");
}

#[test]
fn compact_text_matches_serde_json() {
    let text = r#"{"a":"x\"y\\z\n","b":[true,false,null,"\u0001é"],"c":{},"d":[]}"#;
    let value: serde_json::Value = serde_json::from_str(text).unwrap();
    let doc = obj(vec![
        ("a", s("x\"y\\z\n")),
        ("b", Json::Array(vec![Json::Bool(true), Json::Bool(false), Json::Null, s("\u{1}é")])),
        ("c", Json::Object(vec![])),
        ("d", Json::Array(vec![])),
    ]);
    assert_eq!(write_compact(&doc).unwrap(), serde_json::to_string(&value).unwrap());
}

#[test]
fn normalization_turns_every_number_into_text_and_is_idempotent() {
    let mut doc = Json::Array(vec![uint(42), num(-1.5), s("7"), Json::Null]);
    normalize_floats(&mut doc);
    let once = write_compact(&doc).unwrap();
    assert_eq!(once, r#"["42.000000","-1.500000","7",null]"#);
    normalize_floats(&mut doc);
    assert_eq!(write_compact(&doc).unwrap(), once);
}

#[test]
fn computed_hash_ignores_stored_hash() {
    let a = verify_mbx_value(&minimal_doc("")).ok().unwrap();
    let b = verify_mbx_value(&minimal_doc("anything")).ok().unwrap();
    assert_eq!(a.computed_hash, b.computed_hash);
    assert!(!a.verified);
    let c = verify_mbx_value(&minimal_doc(&a.computed_hash)).ok().unwrap();
    assert!(c.verified);
    assert_eq!(c.stored_hash, a.computed_hash);
}

#[test]
fn computed_hash_is_sha256_of_canonical_text() {
    // The canonical text of the minimal document, as the specification writes it.
    let canonical = r#"{"format":"AiBenchLab-MBX","format_version":"2.0","created_at":"0.000000","content_hash":"","score":"0.500000"}"#;
    let expected = format!("{:x}", sha2::Sha256::digest(canonical.as_bytes()));
    let r = verify_mbx_value(&minimal_doc("x")).ok().unwrap();
    assert_eq!(r.computed_hash, expected);
}

#[test]
fn missing_content_hash_is_appended_before_hashing() {
    let doc = obj(vec![("format", s("AiBenchLab-MBX")), ("format_version", s("2.0"))]);
    let canonical = r#"{"format":"AiBenchLab-MBX","format_version":"2.0","content_hash":""}"#;
    let expected = format!("{:x}", sha2::Sha256::digest(canonical.as_bytes()));
    let r = verify_mbx_value(&doc).ok().unwrap();
    assert_eq!(r.computed_hash, expected);
    assert_eq!(r.stored_hash, "");
    assert!(!r.verified);
}

#[test]
fn error_messages() {
    match verify_mbx_value(&Json::Array(vec![])) {
        Err(e) => assert_eq!(e.message(), "MBX file must be a JSON object"),
        Ok(_) => panic!("expected an error"),
    }
    let doc = obj(vec![("format", s("Other"))]);
    match verify_mbx_value(&doc) {
        Err(MbxError::NotMbxFormat(f)) => assert_eq!(f, "Other"),
        _ => panic!("expected a format error"),
    }
    let doc = obj(vec![("format", uint(1))]);
    match verify_mbx_value(&doc) {
        Err(e) => assert_eq!(e.message(), "Not an AiBenchLab MBX file (format: \"\")"),
        Ok(_) => panic!("expected an error"),
    }
    let doc = obj(vec![("format", s("AiBenchLab-MBX")), ("format_version", s("1.0"))]);
    match verify_mbx_value(&doc) {
        Err(e) => assert_eq!(
            e.message(),
            "Unsupported format version: \"1.0\". This tool only supports MBX v2.0."
        ),
        Ok(_) => panic!("expected an error"),
    }
}

#[test]
fn package_info_fields() {
    let session = obj(vec![
        ("name", s("Run")),
        ("model_ids", Json::Array(vec![s("a"), uint(3), s("b")])),
        ("start_time", s("2026-01-01T00:00:00Z")),
        ("end_time", s("2026-01-01T01:02:03Z")),
        (
            "test_results",
            Json::Array(vec![
                obj(vec![("score", num(10.0)), ("anomalies", Json::Array(vec![Json::Null, Json::Null]))]),
                obj(vec![("score", s("n/a"))]),
                obj(vec![("score", num(20.0)), ("anomalies", Json::Array(vec![Json::Null]))]),
            ]),
        ),
    ]);
    let doc = obj(vec![
        ("created_at", uint(1709395800000)),
        ("app_version", s("0.7.0")),
        ("session", session),
        (
            "hardware",
            obj(vec![
                ("cpu", obj(vec![("brand", s("CPU X"))])),
                ("gpus", Json::Array(vec![])),
                ("memory", obj(vec![("total_bytes", uint(68719476736))])),
            ]),
        ),
        ("benchmark_config", obj(vec![("temperature", num(0.7)), ("max_tokens", uint(2048))])),
    ]);
    assert!(!package_info_would_panic(&doc));
    let info = extract_package_info(&doc);
    assert_eq!(info.session_name, "Run");
    assert_eq!(info.model_ids, "a, b");
    assert_eq!(info.test_count, 3);
    assert_eq!(info.created_at, "2024-03-02T16:10:00Z");
    assert_eq!(info.app_version, "0.7.0");
    let hw = info.hardware_summary.unwrap();
    assert_eq!(hw.cpu, "CPU X");
    assert_eq!(hw.gpu, "None");
    assert_eq!(hw.ram_gb, "64");
    assert_eq!(hw.fingerprint_hash, "unknown");
    let cfg = info.config_summary.unwrap();
    assert_eq!(cfg.suite_id, "unknown");
    assert_eq!(cfg.temperature_bits, Some(0.7f64.to_bits()));
    assert_eq!(cfg.max_tokens, "2048");
    assert_eq!(info.score_bits.unwrap(), vec![10.0f64.to_bits(), 20.0f64.to_bits()]);
    assert_eq!(info.anomaly_count, Some(3));
    assert_eq!(info.session_duration, Some("1h 2m 3s".to_string()));
}

#[test]
fn package_info_defaults() {
    let info = extract_package_info(&obj(vec![]));
    assert_eq!(info.session_name, "unknown");
    assert_eq!(info.model_ids, "none");
    assert_eq!(info.test_count, 0);
    assert_eq!(info.created_at, "unknown");
    assert_eq!(info.app_version, "unknown");
    assert!(info.hardware_summary.is_none());
    assert!(info.config_summary.is_none());
    assert!(info.score_bits.is_none());
    assert!(info.anomaly_count.is_none());
    assert!(info.session_duration.is_none());
}

#[test]
fn session_ending_before_start_has_no_duration() {
    let session = obj(vec![
        ("start_time", s("2026-01-01T02:00:00Z")),
        ("end_time", s("2026-01-01T01:00:00Z")),
    ]);
    let info = extract_package_info(&obj(vec![("session", session)]));
    assert!(info.session_duration.is_none());
}

#[test]
fn panicking_timestamps_are_detected_before_verification() {
    let session = obj(vec![
        ("start_time", s("1969-01-01T00:00:00Z")),
        ("end_time", s("2026-01-01T01:00:00Z")),
    ]);
    let doc = obj(vec![
        ("format", s("AiBenchLab-MBX")),
        ("format_version", s("2.0")),
        ("session", session),
    ]);
    assert!(package_info_would_panic(&doc));
    assert!(verification_would_panic(&doc));
    let not_mbx = obj(vec![("session", obj(vec![
        ("start_time", s("1969-01-01T00:00:00Z")),
        ("end_time", s("x")),
    ]))]);
    assert!(package_info_would_panic(&not_mbx));
    assert!(!verification_would_panic(&not_mbx));
}

#[test]
fn mbx_file_names() {
    assert!(is_mbx_file_name("dir/run.mbx.json"));
    assert!(is_mbx_file_name("a.mbx.json"));
    assert!(!is_mbx_file_name("other.json"));
    assert!(!is_mbx_file_name("run.mbx.json.bak"));
    assert!(!is_mbx_file_name("mbx.json"));
}

#[test]
fn tally_and_exit_code() {
    let outcomes = vec![FileOutcome::Verified, FileOutcome::Error, FileOutcome::Verified];
    let t = tally_outcomes(&outcomes);
    assert_eq!((t.verified, t.failed, t.errors), (2, 0, 1));
    assert_eq!(exit_code(&t), 1);
    assert_eq!(summary_line(&t), "Results: 2 verified, 0 failed, 1 errors");
    let all_good = tally_outcomes(&vec![FileOutcome::Verified]);
    assert_eq!(exit_code(&all_good), 0);
    assert_eq!(exit_code(&tally_outcomes(&vec![])), 0);
}
