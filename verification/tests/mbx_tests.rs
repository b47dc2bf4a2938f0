use mbx_verify::batch::{exit_code, is_mbx_file_name, summary_line, tally_outcomes, FileOutcome};
use mbx_verify::canonical::{normalize_floats, write_compact};
use mbx_verify::info::extract_package_info;
use mbx_verify::json::{Json, JsonMember, JsonNumber};
use mbx_verify::timestamp::{
    format_duration, format_timestamp_ms, month_day_offset, parse_iso_timestamp_approx,
    scan_iso_timestamp, IsoScan,
};
use mbx_verify::verify::{verification_would_panic, verify_mbx_value, MbxError, VerifyResult};
use sha2::{Digest, Sha256};

/// The library's document for a serde_json value.
fn to_json(v: &serde_json::Value) -> Json {
    match v {
        serde_json::Value::Null => Json::Null,
        serde_json::Value::Bool(b) => Json::Bool(*b),
        serde_json::Value::Number(n) => {
            let f = n.as_f64().unwrap();
            Json::Number(JsonNumber {
                f64_bits: f.to_bits(),
                unsigned: n.as_u64(),
                fixed6: format!("{:.6}", f),
            })
        }
        serde_json::Value::String(s) => Json::Str(s.clone()),
        serde_json::Value::Array(items) => Json::Array(items.iter().map(to_json).collect()),
        serde_json::Value::Object(map) => Json::Object(
            map.iter()
                .map(|(k, v)| JsonMember { key: k.clone(), value: to_json(v) })
                .collect(),
        ),
    }
}

/// Verifies the text of an MBX file, as the command-line tool does.
fn verify_mbx_content(content: &str) -> Result<VerifyResult, String> {
    let value: serde_json::Value =
        serde_json::from_str(content).map_err(|e| format!("Invalid JSON: {e}"))?;
    let doc = to_json(&value);
    assert!(!verification_would_panic(&doc));
    verify_mbx_value(&doc).map_err(|e| e.message())
}

/// Reference normalization on serde_json values: every number to "%.6f".
fn reference_normalize(value: &mut serde_json::Value) {
    match value {
        serde_json::Value::Number(n) => {
            if let Some(f) = n.as_f64() {
                *value = serde_json::Value::String(format!("{:.6}", f));
            }
        }
        serde_json::Value::Array(arr) => arr.iter_mut().for_each(reference_normalize),
        serde_json::Value::Object(map) => map.values_mut().for_each(reference_normalize),
        _ => {}
    }
}

/// The content hash as the exporter computes it, with serde_json and sha2.
fn compute_hash_for_value(value: &mut serde_json::Value) -> String {
    value.as_object_mut().unwrap().insert(
        "content_hash".to_string(),
        serde_json::Value::String(String::new()),
    );
    let mut clone = value.clone();
    reference_normalize(&mut clone);
    let canonical = serde_json::to_string(&clone).unwrap();
    format!("{:x}", Sha256::digest(canonical.as_bytes()))
}

const TEST_MBX: &str = r#"{
    "format": "AiBenchLab-MBX",
    "format_version": "2.0",
    "created_at": 1709395800000,
    "app_version": "0.7.0-beta",
    "content_hash": "",
    "session": {
        "id": "test-session",
        "name": "Test Session",
        "model_ids": ["gpt-4"],
        "model_descriptors": [],
        "test_suites": ["suite_1"],
        "start_time": "2026-01-01T00:00:00Z",
        "end_time": "2026-01-01T01:00:00Z",
        "status": "completed",
        "thermal_abort_triggered": false,
        "max_gpu_temperature": null,
        "peak_vram_used_gb": null,
        "vram_total_gb": null,
        "gpu_name": null,
        "gpu_vram_mb": null,
        "driver_version": null,
        "os_name": null,
        "backend_type": null,
        "backend_version": null,
        "model_hash": null,
        "quantization": null,
        "context_requested": null,
        "context_actual": null,
        "template_mode": null,
        "temperature_history": [],
        "test_results": [
            {
                "id": "result_1",
                "provider_id": "openai",
                "model_name": "gpt-4",
                "test_id": "test_1",
                "session_id": "test-session",
                "output": "Hello world",
                "execution_time_ms": 1500,
                "tokens_generated": 100,
                "score": 85.5,
                "test_category": "reasoning",
                "test_intent": null,
                "test_prompt": null,
                "required_capabilities": [],
                "disallowed_capabilities": [],
                "scoring_criteria": {},
                "programming_language": null,
                "ttft_ms": null,
                "tpot_ms": null,
                "e2e_latency_ms": null,
                "tps": null,
                "anomalies": [],
                "plugin_id": null
            }
        ],
        "context_summary": null,
        "total_tests": null,
        "completed_tests": null,
        "signature": null,
        "public_key": null,
        "hardware_fingerprint": null,
        "is_signed": false,
        "tamper_detected": false,
        "anomaly_summary": {
            "total_anomaly_count": 0,
            "tests_with_anomalies": 0
        },
        "plugin_ids": [],
        "selected_domains": [],
        "selected_languages": [],
        "plugin_versions": {},
        "scoring_engine_version": null,
        "suite_version": null,
        "baseline_session_id": null,
        "comparison_delta_score": null,
        "comparison_delta_latency": null,
        "model_run_statuses": [],
        "prompt_template_mode": null
    },
    "hardware": {
        "cpu": {
            "brand": "Ryzen 9 7950X",
            "physical_cores": 16,
            "logical_cores": 32,
            "frequency_mhz": 4500,
            "architecture": "Zen 4"
        },
        "gpus": [{
            "vendor": "NVIDIA",
            "name": "RTX 4090",
            "memory_bytes": 25769803776
        }],
        "memory": {
            "total_bytes": 68719476736,
            "available_bytes": 34359738368,
            "used_bytes": 34359738368
        },
        "os": {
            "name": "Windows",
            "version": "11",
            "arch": "x86_64"
        }
    },
    "hardware_fingerprint": {
        "cpu_brand_hash": "abc123",
        "cpu_physical_cores": 16,
        "cpu_logical_cores": 32,
        "gpu_name_hash": "def456",
        "gpu_memory_gb": 24,
        "ram_total_gb": 64,
        "os_hash": "ghi789",
        "combined_hash": "combined_abc123"
    },
    "benchmark_config": {
        "test_suite_id": "suite_1",
        "model_ids": ["gpt-4"],
        "temperature": 0.7,
        "max_tokens": 2048
    }
}"#;

/// A minimal valid MBX v2 file with a correct content hash.
fn build_test_mbx() -> String {
    let mut value: serde_json::Value = serde_json::from_str(TEST_MBX).unwrap();
    let hash = compute_hash_for_value(&mut value);
    value
        .as_object_mut()
        .unwrap()
        .insert("content_hash".to_string(), serde_json::Value::String(hash));
    serde_json::to_string_pretty(&value).unwrap()
}

fn text_of<'a>(v: &'a Json, path: &[&str]) -> &'a str {
    let mut cur = v;
    for key in path {
        cur = cur.get(key).unwrap();
    }
    cur.as_str().unwrap()
}

#[test]
fn test_valid_mbx_passes_verification() {
    let content = build_test_mbx();
    let result = verify_mbx_content(&content).unwrap();
    assert!(
        result.verified,
        "Expected PASS but got FAIL.\n  Stored:   {}\n  Computed: {}",
        result.stored_hash, result.computed_hash
    );
}

#[test]
fn test_tampered_score_fails_verification() {
    let content = build_test_mbx();
    let tampered = content.replace("85.5", "99.9");
    let result = verify_mbx_content(&tampered).unwrap();
    assert!(!result.verified, "Expected FAIL for tampered score but got PASS");
}

#[test]
fn test_tampered_model_name_fails_verification() {
    let content = build_test_mbx();
    let tampered = content.replace("\"gpt-4\"", "\"gpt-5\"");
    let result = verify_mbx_content(&tampered).unwrap();
    assert!(!result.verified, "Expected FAIL for tampered model name but got PASS");
}

#[test]
fn test_tampered_app_version_fails_verification() {
    let content = build_test_mbx();
    let tampered = content.replace("0.7.0-beta", "0.7.0-HACKED");
    let result = verify_mbx_content(&tampered).unwrap();
    assert!(!result.verified, "Expected FAIL for tampered app version but got PASS");
}

#[test]
fn test_malformed_json_returns_error() {
    let result = verify_mbx_content("this is not json {{{");
    assert!(result.is_err());
    assert!(result.err().unwrap().contains("Invalid JSON"));
}

#[test]
fn test_non_object_json_returns_error() {
    let result = verify_mbx_content("[1, 2, 3]");
    assert!(result.is_err());
    assert!(result.err().unwrap().contains("JSON object"));
}

#[test]
fn test_wrong_format_identifier_returns_error() {
    let content = build_test_mbx();
    let tampered = content.replace("AiBenchLab-MBX", "SomethingElse");
    let result = verify_mbx_content(&tampered);
    assert!(result.is_err());
    assert!(result.err().unwrap().contains("Not an AiBenchLab MBX file"));
}

#[test]
fn test_v1_format_version_returns_error() {
    let mut value: serde_json::Value = serde_json::from_str(&build_test_mbx()).unwrap();
    value.as_object_mut().unwrap().insert(
        "format_version".to_string(),
        serde_json::Value::String("1.0".to_string()),
    );
    let content = serde_json::to_string_pretty(&value).unwrap();
    let result = verify_mbx_content(&content);
    assert!(result.is_err());
    let err = result.err().unwrap();
    assert!(
        err.contains("Unsupported format version") && err.contains("1.0"),
        "Expected clear v1 error, got: {err}"
    );
}

#[test]
fn test_normalize_floats_matches_mbx_rs() {
    let value: serde_json::Value = serde_json::from_str(
        r#"{"score": 0.123456789, "nested": {"arr": [1.1, 2.2, 3.3], "int": 42, "str": "hello"}}"#,
    )
    .unwrap();
    let mut doc = to_json(&value);
    normalize_floats(&mut doc);
    assert_eq!(text_of(&doc, &["score"]), "0.123457");
    let arr = doc.get("nested").unwrap().get("arr").unwrap().as_array().unwrap();
    assert_eq!(arr[0].as_str().unwrap(), "1.100000");
    assert_eq!(arr[1].as_str().unwrap(), "2.200000");
    assert_eq!(arr[2].as_str().unwrap(), "3.300000");
    assert_eq!(text_of(&doc, &["nested", "int"]), "42.000000");
    assert_eq!(text_of(&doc, &["nested", "str"]), "hello");
}

#[test]
fn test_hash_output_is_64_char_lowercase_hex() {
    let content = build_test_mbx();
    let result = verify_mbx_content(&content).unwrap();
    assert_eq!(result.computed_hash.len(), 64);
    assert!(
        result
            .computed_hash
            .chars()
            .all(|c| c.is_ascii_hexdigit() && !c.is_ascii_uppercase()),
        "Hash must be lowercase hex: {}",
        result.computed_hash
    );
}

#[test]
fn test_empty_content_hash_fails_verification() {
    let mut value: serde_json::Value = serde_json::from_str(&build_test_mbx()).unwrap();
    value.as_object_mut().unwrap().insert(
        "content_hash".to_string(),
        serde_json::Value::String(String::new()),
    );
    let content = serde_json::to_string_pretty(&value).unwrap();
    let result = verify_mbx_content(&content).unwrap();
    assert!(!result.verified, "Empty content_hash should fail verification");
}

#[test]
fn test_batch_directory_counting() {
    // Two valid files, one tampered file, and a JSON file that is no MBX export.
    let valid = build_test_mbx();
    let tampered = valid.replace("85.5", "99.9");
    let files = vec![
        ("good1.mbx.json", valid.clone()),
        ("good2.mbx.json", valid.clone()),
        ("bad.mbx.json", tampered),
        ("other.json", "{}".to_string()),
    ];
    let mut outcomes = Vec::new();
    for (name, content) in &files {
        if !is_mbx_file_name(name) {
            continue;
        }
        outcomes.push(match verify_mbx_content(content) {
            Ok(r) if r.verified => FileOutcome::Verified,
            Ok(_) => FileOutcome::Failed,
            Err(_) => FileOutcome::Error,
        });
    }
    let tally = tally_outcomes(&outcomes);
    let code = exit_code(&tally);
    assert_eq!(code, 1, "Batch should return 1 when any file fails");
    assert_eq!((tally.verified, tally.failed, tally.errors), (2, 1, 0));
    assert_eq!(summary_line(&tally), "Results: 2 verified, 1 failed, 0 errors");
}

#[test]
fn test_format_timestamp_ms() {
    // 2026-01-01T00:00:00Z in milliseconds
    let ts = format_timestamp_ms(1767225600000);
    assert!(ts.starts_with("2026-"), "Expected 2026, got: {ts}");
    assert!(ts.ends_with('Z'));
}

#[test]
fn test_info_extraction() {
    let content = build_test_mbx();
    let value: serde_json::Value = serde_json::from_str(&content).unwrap();
    let doc = to_json(&value);
    let info = extract_package_info(&doc);
    assert_eq!(info.session_name, "Test Session");
    assert_eq!(info.model_ids, "gpt-4");
    assert_eq!(info.test_count, 1);
    assert_eq!(info.app_version, "0.7.0-beta");
    assert!(info.hardware_summary.is_some());
    assert!(info.config_summary.is_some());
    let scores: Vec<f64> = info
        .score_bits
        .unwrap()
        .iter()
        .map(|b| f64::from_bits(*b))
        .collect();
    assert!(!scores.is_empty());
    let min = scores.iter().cloned().fold(f64::INFINITY, f64::min);
    let max = scores.iter().cloned().fold(f64::NEG_INFINITY, f64::max);
    assert!((min - 85.5).abs() < 0.01);
    assert!((max - 85.5).abs() < 0.01);
    assert_eq!(scores.len(), 1);
}
