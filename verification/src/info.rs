//! The summary of an MBX package shown beside the verification result:
//! session, models, test count, export time, hardware, configuration,
//! scores, anomalies and session duration.
use vstd::prelude::*;
use crate::json::{
    Json, JsonValue, get_in, str_in, array_in, u64_in, text_or, values_of, str_member_or,
    lemma_array_value, with_member, lemma_member_value_after_set,
    lemma_member_value_after_set_other,
};
use crate::text::{decimal_text, decimal_string};
use crate::timestamp::{
    utc_timestamp_text, format_timestamp_ms, iso_scan, IsoScan, duration_text, format_duration,
    parse_iso_timestamp_approx, scan_iso_timestamp,
};

verus! {

broadcast use lemma_array_value;

/// The hardware lines of the summary.
pub struct HardwareSummary {
    pub cpu: String,
    pub gpu: String,
    pub ram_gb: String,
    pub fingerprint_hash: String,
}

/// The mathematical value of a [`HardwareSummary`].
pub struct HardwareView {
    pub cpu: Seq<char>,
    pub gpu: Seq<char>,
    pub ram_gb: Seq<char>,
    pub fingerprint_hash: Seq<char>,
}

impl View for HardwareSummary {
    type V = HardwareView;

    open spec fn view(&self) -> HardwareView {
        HardwareView {
            cpu: self.cpu@,
            gpu: self.gpu@,
            ram_gb: self.ram_gb@,
            fingerprint_hash: self.fingerprint_hash@,
        }
    }
}

/// The configuration lines of the summary. The temperature is a float: it is
/// kept as the bit pattern of its `f64` value, for the caller to write out.
pub struct ConfigSummary {
    pub suite_id: String,
    pub temperature_bits: Option<u64>,
    pub max_tokens: String,
}

/// The mathematical value of a [`ConfigSummary`].
pub struct ConfigView {
    pub suite_id: Seq<char>,
    pub temperature_bits: Option<u64>,
    pub max_tokens: Seq<char>,
}

impl View for ConfigSummary {
    type V = ConfigView;

    open spec fn view(&self) -> ConfigView {
        ConfigView {
            suite_id: self.suite_id@,
            temperature_bits: self.temperature_bits,
            max_tokens: self.max_tokens@,
        }
    }
}

/// What the summary shows of a package. Scores are floats: they are kept as
/// the bit patterns of their `f64` values, for the caller to take the
/// minimum, maximum and mean of.
pub struct PackageInfo {
    pub session_name: String,
    pub model_ids: String,
    pub test_count: usize,
    pub created_at: String,
    pub app_version: String,
    pub hardware_summary: Option<HardwareSummary>,
    pub config_summary: Option<ConfigSummary>,
    pub score_bits: Option<Vec<u64>>,
    pub anomaly_count: Option<usize>,
    pub session_duration: Option<String>,
}

/// The mathematical value of a [`PackageInfo`].
pub struct PackageInfoView {
    pub session_name: Seq<char>,
    pub model_ids: Seq<char>,
    pub test_count: nat,
    pub created_at: Seq<char>,
    pub app_version: Seq<char>,
    pub hardware_summary: Option<HardwareView>,
    pub config_summary: Option<ConfigView>,
    pub score_bits: Option<Seq<u64>>,
    pub anomaly_count: Option<nat>,
    pub session_duration: Option<Seq<char>>,
}

impl View for PackageInfo {
    type V = PackageInfoView;

    open spec fn view(&self) -> PackageInfoView {
        PackageInfoView {
            session_name: self.session_name@,
            model_ids: self.model_ids@,
            test_count: self.test_count as nat,
            created_at: self.created_at@,
            app_version: self.app_version@,
            hardware_summary: match self.hardware_summary {
                Some(h) => Some(h@),
                None => None,
            },
            config_summary: match self.config_summary {
                Some(c) => Some(c@),
                None => None,
            },
            score_bits: match self.score_bits {
                Some(s) => Some(s@),
                None => None,
            },
            anomaly_count: match self.anomaly_count {
                Some(n) => Some(n as nat),
                None => None,
            },
            session_duration: match self.session_duration {
                Some(d) => Some(d@),
                None => None,
            },
        }
    }
}

/// The first item of an optional array.
pub open spec fn first_in(items: Option<Seq<JsonValue>>) -> Option<JsonValue> {
    match items {
        Some(items) => if items.len() > 0 {
            Some(items[0])
        } else {
            None
        },
        None => None,
    }
}

/// The hardware summary: present when the package has a `hardware` member.
pub open spec fn hardware_summary_of(doc: JsonValue) -> Option<HardwareView> {
    match doc.get("hardware"@) {
        None => None,
        Some(hw) => Some(
            HardwareView {
                cpu: text_or(str_in(get_in(hw.get("cpu"@), "brand"@)), "unknown"@),
                gpu: text_or(
                    str_in(get_in(first_in(array_in(hw.get("gpus"@))), "name"@)),
                    "None"@,
                ),
                ram_gb: decimal_text(
                    (match u64_in(get_in(hw.get("memory"@), "total_bytes"@)) {
                        Some(b) => b,
                        None => 0,
                    }) as nat / 1073741824,
                ),
                fingerprint_hash: text_or(
                    str_in(get_in(doc.get("hardware_fingerprint"@), "combined_hash"@)),
                    "unknown"@,
                ),
            },
        ),
    }
}

/// Builds the hardware summary of a package.
pub fn extract_hardware_summary(value: &Json) -> (res: Option<HardwareSummary>)
    ensures
        match res {
            Some(h) => hardware_summary_of(value@) == Some(h@),
            None => hardware_summary_of(value@) is None,
        },
{
    let hw = match value.get("hardware") {
        Some(hw) => hw,
        None => return None,
    };
    let cpu = match hw.get("cpu") {
        Some(c) => str_member_or(c, "brand", "unknown"),
        None => String::from_str("unknown"),
    };
    let gpu = match hw.get("gpus") {
        Some(g) => match g.as_array() {
            Some(arr) => if arr.len() > 0 {
                str_member_or(&arr[0], "name", "None")
            } else {
                String::from_str("None")
            },
            None => String::from_str("None"),
        },
        None => String::from_str("None"),
    };
    let ram_bytes = match hw.get("memory") {
        Some(m) => match m.get("total_bytes") {
            Some(t) => match t.as_u64() {
                Some(b) => b,
                None => 0,
            },
            None => 0,
        },
        None => 0,
    };
    let ram_gb = decimal_string(ram_bytes / (1024 * 1024 * 1024));
    let fingerprint_hash = match value.get("hardware_fingerprint") {
        Some(f) => str_member_or(f, "combined_hash", "unknown"),
        None => String::from_str("unknown"),
    };
    Some(HardwareSummary { cpu, gpu, ram_gb, fingerprint_hash })
}

/// The configuration summary: present when the package has a
/// `benchmark_config` member.
pub open spec fn config_summary_of(doc: JsonValue) -> Option<ConfigView> {
    match doc.get("benchmark_config"@) {
        None => None,
        Some(cfg) => Some(
            ConfigView {
                suite_id: text_or(str_in(cfg.get("test_suite_id"@)), "unknown"@),
                temperature_bits: match cfg.get("temperature"@) {
                    Some(t) => t.as_f64_bits(),
                    None => None,
                },
                max_tokens: match u64_in(cfg.get("max_tokens"@)) {
                    Some(t) => decimal_text(t as nat),
                    None => "unknown"@,
                },
            },
        ),
    }
}

/// Builds the configuration summary of a package.
pub fn extract_config_summary(value: &Json) -> (res: Option<ConfigSummary>)
    ensures
        match res {
            Some(c) => config_summary_of(value@) == Some(c@),
            None => config_summary_of(value@) is None,
        },
{
    let cfg = match value.get("benchmark_config") {
        Some(cfg) => cfg,
        None => return None,
    };
    let suite_id = str_member_or(cfg, "test_suite_id", "unknown");
    let temperature_bits = match cfg.get("temperature") {
        Some(t) => t.as_f64_bits(),
        None => None,
    };
    let max_tokens = match cfg.get("max_tokens") {
        Some(t) => match t.as_u64() {
            Some(n) => decimal_string(n),
            None => String::from_str("unknown"),
        },
        None => String::from_str("unknown"),
    };
    Some(ConfigSummary { suite_id, temperature_bits, max_tokens })
}

/// The scores of the test results, in order: the `f64` bit pattern of every
/// `score` member that is a number.
pub open spec fn score_bits_of(results: Seq<JsonValue>) -> Seq<u64>
    decreases results.len(),
{
    if results.len() == 0 {
        Seq::empty()
    } else {
        score_bits_of(results.drop_last()) + match results.last().get("score"@) {
            Some(s) => match s.as_f64_bits() {
                Some(b) => seq![b],
                None => Seq::empty(),
            },
            None => Seq::empty(),
        }
    }
}

/// Collects the numeric scores of the test results.
pub fn collect_score_bits(results: &Vec<Json>) -> (scores: Vec<u64>)
    ensures
        scores@ == score_bits_of(values_of(results@)),
{
    let ghost all = values_of(results@);
    let mut scores: Vec<u64> = Vec::new();
    let mut i: usize = 0;
    while i < results.len()
        invariant
            i <= results@.len(),
            all == values_of(results@),
            scores@ == score_bits_of(all.take(i as int)),
        decreases results@.len() - i,
    {
        proof {
            assert(all.take(i + 1).drop_last() =~= all.take(i as int));
            assert(all.take(i + 1).last() == results@[i as int]@);
        }
        match results[i].get("score") {
            Some(s) => match s.as_f64_bits() {
                Some(b) => {
                    scores.push(b);
                },
                None => {},
            },
            None => {},
        }
        proof {
            assert(scores@ =~= score_bits_of(all.take(i + 1)));
        }
        i = i + 1;
    }
    proof {
        assert(all.take(results@.len() as int) =~= all);
    }
    scores
}

/// The number of anomalies over the test results: the lengths of all the
/// `anomalies` members that are arrays, added up.
pub open spec fn anomaly_total(results: Seq<JsonValue>) -> nat
    decreases results.len(),
{
    if results.len() == 0 {
        0
    } else {
        anomaly_total(results.drop_last()) + match array_in(results.last().get("anomalies"@)) {
            Some(a) => a.len(),
            None => 0,
        }
    }
}

/// The anomaly total only grows as results are added.
proof fn lemma_anomaly_total_prefix(results: Seq<JsonValue>, i: int)
    requires
        0 <= i <= results.len(),
    ensures
        anomaly_total(results.take(i)) <= anomaly_total(results),
    decreases results.len() - i,
{
    if i < results.len() {
        assert(results.drop_last().take(i) =~= results.take(i));
        lemma_anomaly_total_prefix(results.drop_last(), i);
    } else {
        assert(results.take(i) =~= results);
    }
}

/// Counts the anomalies over the test results. The count must fit a `usize`
/// (the sum that is taken panics on overflow).
pub fn count_anomalies(results: &Vec<Json>) -> (count: usize)
    requires
        anomaly_total(values_of(results@)) <= usize::MAX,
    ensures
        count == anomaly_total(values_of(results@)),
{
    let ghost all = values_of(results@);
    let mut count: usize = 0;
    let mut i: usize = 0;
    while i < results.len()
        invariant
            i <= results@.len(),
            all == values_of(results@),
            anomaly_total(all) <= usize::MAX,
            count == anomaly_total(all.take(i as int)),
        decreases results@.len() - i,
    {
        proof {
            assert(all.take(i + 1).drop_last() =~= all.take(i as int));
            assert(all.take(i + 1).last() == results@[i as int]@);
            lemma_anomaly_total_prefix(all, i + 1);
        }
        match results[i].get("anomalies") {
            Some(a) => match a.as_array() {
                Some(list) => {
                    count = count + list.len();
                },
                None => {},
            },
            None => {},
        }
        i = i + 1;
    }
    proof {
        assert(all.take(results@.len() as int) =~= all);
    }
    count
}

/// The texts of the string items of an array, in order.
pub open spec fn strings_of(items: Seq<JsonValue>) -> Seq<Seq<char>>
    decreases items.len(),
{
    if items.len() == 0 {
        Seq::empty()
    } else {
        strings_of(items.drop_last()) + match items.last().as_str() {
            Some(s) => seq![s],
            None => Seq::empty(),
        }
    }
}

/// Texts joined with `", "` between them.
pub open spec fn comma_space_joined(texts: Seq<Seq<char>>) -> Seq<char>
    decreases texts.len(),
{
    if texts.len() == 0 {
        Seq::empty()
    } else if texts.len() == 1 {
        texts[0]
    } else {
        comma_space_joined(texts.drop_last()) + seq![',', ' '] + texts.last()
    }
}

/// The string items of an array joined with `", "`.
pub fn join_string_items(items: &Vec<Json>) -> (res: String)
    ensures
        res@ == comma_space_joined(strings_of(values_of(items@))),
{
    let ghost all = values_of(items@);
    let mut out = String::new();
    let mut any = false;
    let mut i: usize = 0;
    proof {
        reveal_strlit(", ");
        assert(", "@ == seq![',', ' ']);
    }
    while i < items.len()
        invariant
            i <= items@.len(),
            all == values_of(items@),
            any == (strings_of(all.take(i as int)).len() > 0),
            out@ == comma_space_joined(strings_of(all.take(i as int))),
            ", "@ == seq![',', ' '],
        decreases items@.len() - i,
    {
        proof {
            assert(all.take(i + 1).drop_last() =~= all.take(i as int));
            assert(all.take(i + 1).last() == items@[i as int]@);
        }
        match items[i].as_str() {
            Some(s) => {
                let ghost before = strings_of(all.take(i as int));
                if any {
                    out.append(", ");
                }
                out.append(s.as_str());
                proof {
                    let after = strings_of(all.take(i + 1));
                    assert(after =~= before.push(s@));
                    assert(after.drop_last() =~= before);
                    if before.len() == 0 {
                        assert(out@ =~= s@);
                    }
                }
                any = true;
            },
            None => {
                proof {
                    assert(strings_of(all.take(i + 1)) =~= strings_of(all.take(i as int)));
                }
            },
        }
        i = i + 1;
    }
    proof {
        assert(all.take(items@.len() as int) =~= all);
    }
    out
}

/// The duration of a session, from its `start_time` and `end_time`: present
/// when both are strings that read as timestamps and the end is not earlier.
pub open spec fn session_duration_of(session: Option<JsonValue>) -> Option<Seq<char>> {
    match session {
        None => None,
        Some(s) => match (str_in(s.get("start_time"@)), str_in(s.get("end_time"@))) {
            (Some(start), Some(end)) => match iso_scan(start) {
                IsoScan::Read(Some(a)) => match iso_scan(end) {
                    IsoScan::Read(Some(b)) => if a <= b {
                        Some(duration_text((b - a) as nat))
                    } else {
                        None
                    },
                    _ => None,
                },
                _ => None,
            },
            _ => None,
        },
    }
}

/// Reading the session's timestamps panics: the start time does, or it reads
/// as a timestamp and the end time panics.
pub open spec fn session_duration_panics(session: Option<JsonValue>) -> bool {
    match session {
        None => false,
        Some(s) => match (str_in(s.get("start_time"@)), str_in(s.get("end_time"@))) {
            (Some(start), Some(end)) => iso_scan(start) is Panics || (iso_scan(start) matches IsoScan::Read(Some(_)) && iso_scan(end) is Panics),
            _ => false,
        },
    }
}

/// Works out how long the session ran, from its start and end timestamps.
pub fn extract_session_duration(session: Option<&Json>) -> (res: Option<String>)
    requires
        !session_duration_panics(match session {
            Some(s) => Some(s@),
            None => None,
        }),
    ensures
        match res {
            Some(d) => session_duration_of(match session {
                Some(s) => Some(s@),
                None => None,
            }) == Some(d@),
            None => session_duration_of(match session {
                Some(s) => Some(s@),
                None => None,
            }) is None,
        },
{
    let session = match session {
        Some(s) => s,
        None => return None,
    };
    let start = match session.get("start_time") {
        Some(v) => match v.as_str() {
            Some(t) => t,
            None => return None,
        },
        None => return None,
    };
    let end = match session.get("end_time") {
        Some(v) => match v.as_str() {
            Some(t) => t,
            None => return None,
        },
        None => return None,
    };
    let start_secs = match parse_iso_timestamp_approx(start.as_str()) {
        Some(t) => t,
        None => return None,
    };
    let end_secs = match parse_iso_timestamp_approx(end.as_str()) {
        Some(t) => t,
        None => return None,
    };
    if end_secs < start_secs {
        return None;
    }
    Some(format_duration(end_secs - start_secs))
}

/// Extracting the summary of the package panics: reading its session's
/// timestamps panics, or its anomaly count overflows a `usize`.
pub open spec fn package_info_panics(doc: JsonValue) -> bool {
    ||| (match array_in(get_in(doc.get("session"@), "test_results"@)) {
        Some(results) => anomaly_total(results) > usize::MAX,
        None => false,
    })
    ||| session_duration_panics(doc.get("session"@))
}

/// The summary of a package.
pub open spec fn package_info_of(doc: JsonValue) -> PackageInfoView {
    let session = doc.get("session"@);
    let results = array_in(get_in(session, "test_results"@));
    PackageInfoView {
        session_name: text_or(str_in(get_in(session, "name"@)), "unknown"@),
        model_ids: match array_in(get_in(session, "model_ids"@)) {
            Some(ids) => comma_space_joined(strings_of(ids)),
            None => "none"@,
        },
        test_count: match results {
            Some(r) => r.len(),
            None => 0,
        },
        created_at: match u64_in(doc.get("created_at"@)) {
            Some(ms) => utc_timestamp_text(ms as nat),
            None => "unknown"@,
        },
        app_version: text_or(str_in(doc.get("app_version"@)), "unknown"@),
        hardware_summary: hardware_summary_of(doc),
        config_summary: config_summary_of(doc),
        score_bits: match results {
            Some(r) => Some(score_bits_of(r)),
            None => None,
        },
        anomaly_count: match results {
            Some(r) => Some(anomaly_total(r)),
            None => None,
        },
        session_duration: session_duration_of(session),
    }
}

/// The optional value behind an optional reference.
pub open spec fn value_in(v: Option<&Json>) -> Option<JsonValue> {
    match v {
        Some(v) => Some(v@),
        None => None,
    }
}

/// Extracts the summary of a package for display.
pub fn extract_package_info(value: &Json) -> (info: PackageInfo)
    requires
        !package_info_panics(value@),
    ensures
        info@ == package_info_of(value@),
{
    let app_version = str_member_or(value, "app_version", "unknown");
    let created_at = match value.get("created_at") {
        Some(c) => match c.as_u64() {
            Some(ms) => format_timestamp_ms(ms),
            None => String::from_str("unknown"),
        },
        None => String::from_str("unknown"),
    };
    let session = value.get("session");
    let session_name = match session {
        Some(s) => str_member_or(s, "name", "unknown"),
        None => String::from_str("unknown"),
    };
    let model_list = match session {
        Some(s) => match s.get("model_ids") {
            Some(ids) => ids.as_array(),
            None => None,
        },
        None => None,
    };
    let model_ids = match model_list {
        Some(ids) => join_string_items(ids),
        None => String::from_str("none"),
    };
    let test_results = match session {
        Some(s) => match s.get("test_results") {
            Some(r) => r.as_array(),
            None => None,
        },
        None => None,
    };
    let test_count = match test_results {
        Some(r) => r.len(),
        None => 0,
    };
    let hardware_summary = extract_hardware_summary(value);
    let config_summary = extract_config_summary(value);
    let score_bits = match test_results {
        Some(r) => Some(collect_score_bits(r)),
        None => None,
    };
    let anomaly_count = match test_results {
        Some(r) => Some(count_anomalies(r)),
        None => None,
    };
    let session_duration = extract_session_duration(session);
    PackageInfo {
        session_name,
        model_ids,
        test_count,
        created_at,
        app_version,
        hardware_summary,
        config_summary,
        score_bits,
        anomaly_count,
        session_duration,
    }
}

/// Whether extracting the summary of a package would panic (see
/// `package_info_panics`), so that a caller can stop first.
pub fn package_info_would_panic(value: &Json) -> (res: bool)
    ensures
        res == package_info_panics(value@),
{
    let session = value.get("session");
    let mut overflows = false;
    match session {
        Some(s) => match s.get("test_results") {
            Some(r) => match r.as_array() {
                Some(results) => {
                    overflows = anomaly_total_overflows(results);
                },
                None => {},
            },
            None => {},
        },
        None => {},
    }
    if overflows {
        return true;
    }
    let s = match session {
        Some(s) => s,
        None => return false,
    };
    let start = match s.get("start_time") {
        Some(v) => match v.as_str() {
            Some(t) => t,
            None => return false,
        },
        None => return false,
    };
    let end = match s.get("end_time") {
        Some(v) => match v.as_str() {
            Some(t) => t,
            None => return false,
        },
        None => return false,
    };
    match scan_iso_timestamp(start.as_str()) {
        IsoScan::Panics => true,
        IsoScan::Read(Some(_)) => match scan_iso_timestamp(end.as_str()) {
            IsoScan::Panics => true,
            IsoScan::Read(_) => false,
        },
        IsoScan::Read(None) => false,
    }
}

/// Whether the anomaly count over the test results exceeds `usize::MAX`.
fn anomaly_total_overflows(results: &Vec<Json>) -> (res: bool)
    ensures
        res == (anomaly_total(values_of(results@)) > usize::MAX),
{
    let ghost all = values_of(results@);
    let mut count: usize = 0;
    let mut i: usize = 0;
    while i < results.len()
        invariant
            i <= results@.len(),
            all == values_of(results@),
            count == anomaly_total(all.take(i as int)),
        decreases results@.len() - i,
    {
        proof {
            assert(all.take(i + 1).drop_last() =~= all.take(i as int));
            assert(all.take(i + 1).last() == results@[i as int]@);
        }
        match results[i].get("anomalies") {
            Some(a) => match a.as_array() {
                Some(list) => {
                    if count > usize::MAX - list.len() {
                        proof {
                            lemma_anomaly_total_prefix(all, i + 1);
                        }
                        return true;
                    }
                    count = count + list.len();
                },
                None => {},
            },
            None => {},
        }
        i = i + 1;
    }
    proof {
        assert(all.take(results@.len() as int) =~= all);
    }
    false
}

/// A test result carries a score that is a number.
pub open spec fn has_numeric_score(r: JsonValue) -> bool {
    r.get("score"@) matches Some(JsonValue::Number(_))
}

/// The `f64` bit pattern of a test result's numeric score.
pub open spec fn score_of(r: JsonValue) -> u64 {
    match r.get("score"@) {
        Some(JsonValue::Number(n)) => n.f64_bits,
        _ => 0,
    }
}

/// No score is left out or changed: with no results there are no scores,
/// and adding a result appends its score when that is a number (any number,
/// zero included) and nothing otherwise.
pub proof fn law_scores_append_each_numeric_score(results: Seq<JsonValue>, r: JsonValue)
    ensures
        score_bits_of(Seq::empty()) == Seq::<u64>::empty(),
        score_bits_of(results.push(r)) == score_bits_of(results) + (if has_numeric_score(r) {
            seq![score_of(r)]
        } else {
            Seq::<u64>::empty()
        }),
{
    assert(results.push(r).drop_last() =~= results);
}

/// The collected scores are exactly the numeric scores of the results, in
/// the order of the results: one for every result whose score is a number.
pub proof fn law_scores_are_the_numeric_scores_in_order(results: Seq<JsonValue>)
    ensures
        score_bits_of(results) == results.filter(|r: JsonValue| has_numeric_score(r)).map_values(
            |r: JsonValue| score_of(r),
        ),
        score_bits_of(results).len() == results.filter(|r: JsonValue| has_numeric_score(r)).len(),
    decreases results.len(),
{
    let pred = |r: JsonValue| has_numeric_score(r);
    let f = |r: JsonValue| score_of(r);
    reveal(Seq::filter);
    if results.len() == 0 {
        assert(results.filter(pred) =~= Seq::<JsonValue>::empty());
        assert(results.filter(pred).map_values(f) =~= Seq::<u64>::empty());
    } else {
        let init = results.drop_last();
        law_scores_are_the_numeric_scores_in_order(init);
        assert(init.push(results.last()) =~= results);
        law_scores_append_each_numeric_score(init, results.last());
        if pred(results.last()) {
            assert(results.filter(pred) == init.filter(pred).push(results.last()));
            assert(results.filter(pred).map_values(f) =~= init.filter(pred).map_values(f) + seq![
                score_of(results.last()),
            ]);
        } else {
            assert(results.filter(pred) == init.filter(pred));
            assert(score_bits_of(results) =~= score_bits_of(init));
        }
    }
}

/// The number of anomalies a test result lists: the length of its
/// `anomalies` array, or none when it has no such array.
pub open spec fn anomalies_listed(r: JsonValue) -> nat {
    match r.get("anomalies"@) {
        Some(JsonValue::Array(a)) => a.len(),
        _ => 0,
    }
}

/// Every anomaly is counted: with no results the count is 0, and adding a
/// result whose `anomalies` array holds k items raises the count by exactly k.
pub proof fn law_anomaly_count_adds_every_listed_anomaly(results: Seq<JsonValue>, r: JsonValue)
    ensures
        anomaly_total(Seq::empty()) == 0,
        anomaly_total(results.push(r)) == anomaly_total(results) + anomalies_listed(r),
{
    assert(results.push(r).drop_last() =~= results);
}

/// The anomaly count is the sum over two runs of results of their counts:
/// joining two lists of results adds their anomaly counts.
pub proof fn law_anomaly_count_is_additive(a: Seq<JsonValue>, b: Seq<JsonValue>)
    ensures
        anomaly_total(a + b) == anomaly_total(a) + anomaly_total(b),
    decreases b.len(),
{
    if b.len() == 0 {
        assert(a + b =~= a);
    } else {
        let init = b.drop_last();
        law_anomaly_count_is_additive(a, init);
        assert((a + b).drop_last() =~= a + init);
        assert((a + b).last() == b.last());
    }
}

/// The text of a string member, if the value is an object that has one.
pub open spec fn string_member(v: Option<JsonValue>, key: Seq<char>) -> Option<Seq<char>> {
    match v {
        Some(o) => match o.get(key) {
            Some(JsonValue::Str(t)) => Some(t),
            _ => None,
        },
        None => None,
    }
}

/// The fingerprint shown is the package's own top-level
/// `hardware_fingerprint.combined_hash` when that is a string, and "unknown"
/// only otherwise; the CPU is `hardware.cpu.brand`, the GPU the name of the
/// first of `hardware.gpus`, each with its default.
pub proof fn law_hardware_summary_fields(doc: JsonValue)
    requires
        doc.get("hardware"@) is Some,
    ensures
        hardware_summary_of(doc) matches Some(h) && {
            &&& h.fingerprint_hash == (match string_member(
                doc.get("hardware_fingerprint"@),
                "combined_hash"@,
            ) {
                Some(t) => t,
                None => "unknown"@,
            })
            &&& h.cpu == (match string_member(doc.get("hardware"@)->Some_0.get("cpu"@), "brand"@) {
                Some(t) => t,
                None => "unknown"@,
            })
        },
        doc.get("hardware"@)->Some_0.get("gpus"@) matches Some(JsonValue::Array(gpus)) ==> (
        gpus.len() > 0 && string_member(Some(gpus[0]), "name"@) is Some ==> hardware_summary_of(
            doc,
        )->Some_0.gpu == string_member(Some(gpus[0]), "name"@)->Some_0),
{
}

/// The RAM shown is the whole number of gibibytes in
/// `hardware.memory.total_bytes`: the number n with n GiB <= total < (n + 1) GiB.
pub proof fn law_hardware_ram_is_whole_gibibytes(doc: JsonValue, total: u64)
    requires
        doc.get("hardware"@) is Some,
        get_in(doc.get("hardware"@)->Some_0.get("memory"@), "total_bytes"@) matches Some(
            JsonValue::Number(n),
        ) && n.unsigned == Some(total),
    ensures
        exists|g: nat|
            g * 1073741824 <= total < (g + 1) * 1073741824 && hardware_summary_of(doc)->Some_0.ram_gb
                == decimal_text(g),
{
    let g = total as nat / 1073741824;
    assert(g * 1073741824 <= total < (g + 1) * 1073741824) by (nonlinear_arith)
        requires
            g == total as nat / 1073741824,
    ;
    assert(hardware_summary_of(doc)->Some_0.ram_gb == decimal_text(g));
}

/// The fingerprint does not depend on the `hardware` member: replacing it by
/// any other value leaves the fingerprint shown unchanged.
pub proof fn law_fingerprint_ignores_hardware_member(
    members: Seq<(Seq<char>, JsonValue)>,
    other: JsonValue,
)
    requires
        JsonValue::Object(members).get("hardware"@) is Some,
    ensures
        hardware_summary_of(
            JsonValue::Object(with_member(members, "hardware"@, other)),
        )->Some_0.fingerprint_hash == hardware_summary_of(
            JsonValue::Object(members),
        )->Some_0.fingerprint_hash,
{
    reveal_strlit("hardware");
    reveal_strlit("hardware_fingerprint");
    assert("hardware"@.len() != "hardware_fingerprint"@.len());
    lemma_member_value_after_set(members, "hardware"@, other);
    lemma_member_value_after_set_other(members, "hardware"@, other, "hardware_fingerprint"@);
}

/// The configuration shown is read from `benchmark_config`: the suite is its
/// string `test_suite_id` ("unknown" only when there is none), the maximum
/// tokens its unsigned `max_tokens` in decimal, the temperature the value of
/// its numeric `temperature`.
pub proof fn law_config_summary_fields(doc: JsonValue)
    requires
        doc.get("benchmark_config"@) is Some,
    ensures
        config_summary_of(doc) is Some,
        config_summary_of(doc)->Some_0.suite_id == (match string_member(
            doc.get("benchmark_config"@),
            "test_suite_id"@,
        ) {
            Some(t) => t,
            None => "unknown"@,
        }),
        doc.get("benchmark_config"@)->Some_0.get("max_tokens"@) matches Some(JsonValue::Number(n))
            ==> (n.unsigned matches Some(t) ==> config_summary_of(doc)->Some_0.max_tokens
            == decimal_text(t as nat)),
        doc.get("benchmark_config"@)->Some_0.get("temperature"@) matches Some(JsonValue::Number(n))
            ==> config_summary_of(doc)->Some_0.temperature_bits == Some(n.f64_bits),
{
}

/// The duration of a session is the time from its start to its end: when
/// both timestamps read as seconds a <= b, whatever dates they fall on, it
/// is b - a written in hours, minutes and seconds; when the end reads as
/// earlier than the start, there is none.
pub proof fn law_session_duration_is_elapsed_time(
    session: JsonValue,
    start: Seq<char>,
    end: Seq<char>,
    a: u64,
    b: u64,
)
    requires
        session.get("start_time"@) == Some(JsonValue::Str(start)),
        session.get("end_time"@) == Some(JsonValue::Str(end)),
        iso_scan(start) == IsoScan::Read(Some(a)),
        iso_scan(end) == IsoScan::Read(Some(b)),
    ensures
        a <= b ==> session_duration_of(Some(session)) == Some(duration_text((b - a) as nat)),
        b < a ==> session_duration_of(Some(session)) is None,
{
}

/// An item of an array is a string.
pub open spec fn is_string(v: JsonValue) -> bool {
    v is Str
}

/// The text of a string item.
pub open spec fn string_text(v: JsonValue) -> Seq<char> {
    match v {
        JsonValue::Str(t) => t,
        _ => Seq::empty(),
    }
}

/// The model list keeps exactly the string items of `model_ids`, in order:
/// the items that are not strings are skipped, nothing else is.
pub proof fn law_model_ids_are_the_string_items_in_order(items: Seq<JsonValue>)
    ensures
        strings_of(items) == items.filter(|v: JsonValue| is_string(v)).map_values(
            |v: JsonValue| string_text(v),
        ),
    decreases items.len(),
{
    let pred = |v: JsonValue| is_string(v);
    let f = |v: JsonValue| string_text(v);
    reveal(Seq::filter);
    if items.len() == 0 {
        assert(items.filter(pred).map_values(f) =~= Seq::<Seq<char>>::empty());
    } else {
        let init = items.drop_last();
        law_model_ids_are_the_string_items_in_order(init);
        if pred(items.last()) {
            assert(items.filter(pred).map_values(f) =~= init.filter(pred).map_values(f).push(
                string_text(items.last()),
            ));
            assert(strings_of(items) =~= strings_of(init).push(string_text(items.last())));
        } else {
            assert(items.filter(pred) == init.filter(pred));
            assert(strings_of(items) =~= strings_of(init));
        }
    }
}

/// Model names are joined by `", "`: one name is shown as it is, and each
/// further name is added after a comma and a space.
pub proof fn law_model_names_joined_by_comma_space(texts: Seq<Seq<char>>, t: Seq<char>)
    ensures
        comma_space_joined(Seq::empty()) == Seq::<char>::empty(),
        comma_space_joined(seq![t]) == t,
        texts.len() > 0 ==> comma_space_joined(texts.push(t)) == comma_space_joined(texts) + seq![
            ',',
            ' ',
        ] + t,
{
    assert(texts.push(t).drop_last() =~= texts);
}

/// The package lines: the session name is `session.name` ("unknown" when it
/// is not a string), the test count is the length of
/// `session.test_results` (0 when it is not an array), the export time is
/// the UTC date-time of the millisecond count `created_at`, the app version
/// is `app_version` ("unknown" when it is not a string), and the scores and
/// anomaly count are taken over `session.test_results` when it is an array.
pub proof fn law_package_info_fields(doc: JsonValue)
    ensures
        package_info_of(doc).session_name == (match string_member(doc.get("session"@), "name"@) {
            Some(t) => t,
            None => "unknown"@,
        }),
        package_info_of(doc).test_count == (match get_in(doc.get("session"@), "test_results"@) {
            Some(JsonValue::Array(r)) => r.len(),
            _ => 0,
        }),
        doc.get("created_at"@) matches Some(JsonValue::Number(n)) ==> (n.unsigned matches Some(ms)
            ==> package_info_of(doc).created_at == utc_timestamp_text(ms as nat)),
        package_info_of(doc).app_version == (match string_member(Some(doc), "app_version"@) {
            Some(t) => t,
            None => "unknown"@,
        }),
        package_info_of(doc).model_ids == (match get_in(doc.get("session"@), "model_ids"@) {
            Some(JsonValue::Array(ids)) => comma_space_joined(strings_of(ids)),
            _ => "none"@,
        }),
        package_info_of(doc).score_bits == (match get_in(doc.get("session"@), "test_results"@) {
            Some(JsonValue::Array(r)) => Some(score_bits_of(r)),
            _ => None,
        }),
        package_info_of(doc).anomaly_count == (match get_in(doc.get("session"@), "test_results"@) {
            Some(JsonValue::Array(r)) => Some(anomaly_total(r)),
            _ => None,
        }),
        package_info_of(doc).hardware_summary == hardware_summary_of(doc),
        package_info_of(doc).config_summary == config_summary_of(doc),
        package_info_of(doc).session_duration == session_duration_of(doc.get("session"@)),
{
}

/// Without a usable first GPU name the GPU shown is "None".
pub proof fn law_hardware_gpu_default(doc: JsonValue)
    requires
        doc.get("hardware"@) is Some,
        !(doc.get("hardware"@)->Some_0.get("gpus"@) matches Some(JsonValue::Array(gpus)) && gpus.len()
            > 0 && string_member(Some(gpus[0]), "name"@) is Some),
    ensures
        hardware_summary_of(doc)->Some_0.gpu == "None"@,
{
}

} // verus!
