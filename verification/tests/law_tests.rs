use mbx_verify::batch::{exit_code, summary_line, tally_outcomes, FileOutcome};
use mbx_verify::canonical::write_compact;
use mbx_verify::json::{Json, JsonMember};
use mbx_verify::timestamp::{format_timestamp_ms, parse_iso_timestamp_approx};
use mbx_verify::verify::verify_mbx_value;

fn s(t: &str) -> Json {
    Json::Str(t.to_string())
}

fn obj(members: Vec<(&str, Json)>) -> Json {
    Json::Object(
        members.into_iter().map(|(k, v)| JsonMember { key: k.to_string(), value: v }).collect(),
    )
}

fn doc(session: &str, hash: &str) -> Json {
    obj(vec![
        ("format", s("AiBenchLab-MBX")),
        ("format_version", s("2.0")),
        ("content_hash", s(hash)),
        ("session", obj(vec![("name", s(session))])),
    ])
}

#[test]
fn string_literals_are_escaped_as_serde_json_does() {
    let text = "q\"b\\x\u{8}\t\n\u{c}\r\u{1}\u{1f} /\u{e9}\u{7f}";
    let written = write_compact(&s(text)).unwrap();
    assert_eq!(written, serde_json::to_string(text).unwrap());
    assert_eq!(written, "\"q\\\"b\\\\x\\b\\t\\n\\f\\r\\u0001\\u001f /\u{e9}\u{7f}\"");
    let key_doc = obj(vec![("k\"\n", s(""))]);
    assert_eq!(write_compact(&key_doc).unwrap(), "{\"k\\\"\\n\":\"\"}");
}

#[test]
fn every_mbx_v2_document_verifies_without_error() {
    let r = verify_mbx_value(&doc("Run", "")).map_err(|e| e.message()).unwrap();
    assert!(!r.verified);
    assert_eq!(r.computed_hash.len(), 64);
    let hashed = doc("Run", &r.computed_hash);
    assert!(verify_mbx_value(&hashed).map_err(|e| e.message()).unwrap().verified);
}

#[test]
fn edited_document_fails_with_old_hash() {
    let original = verify_mbx_value(&doc("Run", "")).map_err(|e| e.message()).unwrap().computed_hash;
    let edited = verify_mbx_value(&doc("Run 2", &original)).map_err(|e| e.message()).unwrap();
    assert_ne!(edited.computed_hash, original);
    assert!(!edited.verified);
    let same_text = verify_mbx_value(&doc("Run", "anything")).map_err(|e| e.message()).unwrap();
    assert_eq!(same_text.computed_hash, original);
}

#[test]
fn written_timestamps_read_back_as_their_seconds() {
    for ms in [0u64, 999, 1767225600000, 1767229200123, 951782400000, 1709251199000, 4133980799000]
    {
        let text = format_timestamp_ms(ms);
        assert_eq!(parse_iso_timestamp_approx(&text), Some(ms / 1000), "{text}");
    }
    // From March on in a leap year the reading is one day short.
    let text = format_timestamp_ms(1709395800000);
    assert_eq!(parse_iso_timestamp_approx(&text), Some(1709395800 - 86400));
}

#[test]
fn timestamp_text_order_follows_time_order() {
    let times = [
        0u64,
        59_000,
        3_600_000,
        86_399_000,
        86_400_000,
        951_782_400_000,
        1_709_395_800_000,
        1_767_225_600_000,
        253_402_300_799_000,
    ];
    for pair in times.windows(2) {
        assert!(format_timestamp_ms(pair[0]) <= format_timestamp_ms(pair[1]));
    }
}

#[test]
fn batch_tally_ignores_listing_order() {
    let a = vec![FileOutcome::Verified, FileOutcome::Failed, FileOutcome::Verified, FileOutcome::Error];
    let b = vec![FileOutcome::Error, FileOutcome::Verified, FileOutcome::Verified, FileOutcome::Failed];
    let (ta, tb) = (tally_outcomes(&a), tally_outcomes(&b));
    assert_eq!(ta, tb);
    assert_eq!(summary_line(&ta), summary_line(&tb));
    assert_eq!(exit_code(&ta), exit_code(&tb));
    assert_eq!(summary_line(&ta), "Results: 2 verified, 1 failed, 1 errors");
}
