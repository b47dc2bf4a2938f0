//! Verification of an MBX v2 document: the format checks, the clearing of the
//! stored content hash, normalization, canonical serialization, SHA-256, and
//! the comparison with the stored hash.
use vstd::prelude::*;
use crate::json::{
    Json, JsonValue, is_first_key, with_member, set_member, str_member_or, str_eq,
    text_or, str_in, members_of, lemma_object_value, keys_distinct,
};
use crate::canonical::{
    normalized, compact_text, normalized_copy, write_compact, lemma_normalized_object,
};
use crate::digest::{
    content_hash, content_hash_text, is_lower_hex_64, sha256_digest,
    lemma_content_hash_identifies_text,
};
use vstd::utf8::encode_utf8;
use crate::info::{
    PackageInfo, PackageInfoView, extract_package_info, package_info_of, package_info_panics,
    package_info_would_panic,
};

verus! {

/// Why a document is not verified at all.
pub enum MbxError {
    /// The document is not a JSON object.
    NotAnObject,
    /// Member `format` is not `"AiBenchLab-MBX"`; holds the format found
    /// (empty when there is no such string member).
    NotMbxFormat(String),
    /// Member `format_version` is not `"2.0"`; holds the version found.
    UnsupportedVersion(String),
    /// The canonical text could not be written; holds the serializer's message.
    Serialization(String),
}

/// The mathematical value of an [`MbxError`].
pub enum MbxErrorView {
    NotAnObject,
    NotMbxFormat(Seq<char>),
    UnsupportedVersion(Seq<char>),
    Serialization(Seq<char>),
}

impl View for MbxError {
    type V = MbxErrorView;

    open spec fn view(&self) -> MbxErrorView {
        match self {
            MbxError::NotAnObject => MbxErrorView::NotAnObject,
            MbxError::NotMbxFormat(f) => MbxErrorView::NotMbxFormat(f@),
            MbxError::UnsupportedVersion(v) => MbxErrorView::UnsupportedVersion(v@),
            MbxError::Serialization(e) => MbxErrorView::Serialization(e@),
        }
    }
}

impl MbxErrorView {
    /// The message that reports the error.
    pub open spec fn message(self) -> Seq<char> {
        match self {
            MbxErrorView::NotAnObject => "MBX file must be a JSON object"@,
            MbxErrorView::NotMbxFormat(f) => "Not an AiBenchLab MBX file (format: \""@ + f + "\")"@,
            MbxErrorView::UnsupportedVersion(v) => "Unsupported format version: \""@ + v
                + "\". This tool only supports MBX v2.0."@,
            MbxErrorView::Serialization(e) => "Failed to serialize JSON: "@ + e,
        }
    }
}

impl MbxError {
    /// The message that reports the error.
    pub fn message(&self) -> (m: String)
        ensures
            m@ == self@.message(),
    {
        match self {
            MbxError::NotAnObject => String::from_str("MBX file must be a JSON object"),
            MbxError::NotMbxFormat(f) => {
                let mut m = String::from_str("Not an AiBenchLab MBX file (format: \"");
                m.append(f.as_str());
                m.append("\")");
                m
            },
            MbxError::UnsupportedVersion(v) => {
                let mut m = String::from_str("Unsupported format version: \"");
                m.append(v.as_str());
                m.append("\". This tool only supports MBX v2.0.");
                m
            },
            MbxError::Serialization(e) => {
                let mut m = String::from_str("Failed to serialize JSON: ");
                m.append(e.as_str());
                m
            },
        }
    }
}

/// The outcome of verifying a well-formed MBX document.
pub struct VerifyResult {
    /// The computed hash equals the stored one.
    pub verified: bool,
    /// The `content_hash` the document carries (empty when it has none).
    pub stored_hash: String,
    /// The content hash computed from the document.
    pub computed_hash: String,
    /// The summary of the package, for display.
    pub info: Option<PackageInfo>,
}

/// The mathematical value of a [`VerifyResult`].
pub struct VerifyOutcome {
    pub verified: bool,
    pub stored_hash: Seq<char>,
    pub computed_hash: Seq<char>,
    pub info: Option<PackageInfoView>,
}

impl View for VerifyResult {
    type V = VerifyOutcome;

    open spec fn view(&self) -> VerifyOutcome {
        VerifyOutcome {
            verified: self.verified,
            stored_hash: self.stored_hash@,
            computed_hash: self.computed_hash@,
            info: match self.info {
                Some(i) => Some(i@),
                None => None,
            },
        }
    }
}

/// The `format` member's text, empty when there is none.
pub open spec fn format_of(doc: JsonValue) -> Seq<char> {
    text_or(str_in(doc.get("format"@)), Seq::empty())
}

/// The `format_version` member's text, empty when there is none.
pub open spec fn format_version_of(doc: JsonValue) -> Seq<char> {
    text_or(str_in(doc.get("format_version"@)), Seq::empty())
}

/// The stored content hash, empty when there is none.
pub open spec fn stored_hash_of(doc: JsonValue) -> Seq<char> {
    text_or(str_in(doc.get("content_hash"@)), Seq::empty())
}

/// The document with its `content_hash` member set to the empty string.
pub open spec fn hash_cleared(doc: JsonValue) -> JsonValue {
    match doc {
        JsonValue::Object(members) => JsonValue::Object(
            with_member(members, "content_hash"@, JsonValue::Str(Seq::empty())),
        ),
        _ => doc,
    }
}

/// The canonical text of a document: clear the stored hash, normalize the
/// numbers, write compact JSON. (A normalized document is always written:
/// see `law_normalized_document_is_written`.)
pub open spec fn canonical_text(doc: JsonValue) -> Seq<char> {
    match compact_text(normalized(hash_cleared(doc))) {
        Some(text) => text,
        None => Seq::empty(),
    }
}

/// The content hash computed from a document: the hash of its canonical text.
pub open spec fn computed_hash_of(doc: JsonValue) -> Seq<char> {
    content_hash_text(canonical_text(doc))
}

/// What verifying a document gives.
pub open spec fn verification(doc: JsonValue) -> Result<VerifyOutcome, MbxErrorView> {
    if !(doc is Object) {
        Err(MbxErrorView::NotAnObject)
    } else if format_of(doc) != "AiBenchLab-MBX"@ {
        Err(MbxErrorView::NotMbxFormat(format_of(doc)))
    } else if format_version_of(doc) != "2.0"@ {
        Err(MbxErrorView::UnsupportedVersion(format_version_of(doc)))
    } else {
        Ok(
            VerifyOutcome {
                verified: computed_hash_of(doc) == stored_hash_of(doc),
                stored_hash: stored_hash_of(doc),
                computed_hash: computed_hash_of(doc),
                info: Some(package_info_of(doc)),
            },
        )
    }
}

/// The document is an object with the MBX v2 format identifiers.
pub open spec fn is_mbx_v2(doc: JsonValue) -> bool {
    &&& doc is Object
    &&& format_of(doc) == "AiBenchLab-MBX"@
    &&& format_version_of(doc) == "2.0"@
}

/// Verifying the document panics: it passes the format checks and extracting
/// its summary panics.
pub open spec fn verification_panics(doc: JsonValue) -> bool {
    is_mbx_v2(doc) && package_info_panics(doc)
}

/// The members of an object, with each value normalized.
pub open spec fn normalized_members(members: Seq<(Seq<char>, JsonValue)>) -> Seq<
    (Seq<char>, JsonValue),
> {
    Seq::new(members.len(), |i: int| (members[i].0, normalized(members[i].1)))
}

/// The document that is hashed keeps an object's keys distinct: normalizing
/// leaves the keys as they are, and clearing the stored hash sets a member.
pub proof fn lemma_hashed_document_keys_distinct(members: Seq<(Seq<char>, JsonValue)>)
    requires
        keys_distinct(members),
    ensures
        keys_distinct(normalized_members(members)),
        keys_distinct(
            with_member(normalized_members(members), "content_hash"@, JsonValue::Str(Seq::empty())),
        ),
{
    let nm = normalized_members(members);
    assert forall|i: int, j: int| 0 <= i < j < nm.len() implies nm[i].0 != nm[j].0 by {
        assert(nm[i].0 == members[i].0 && nm[j].0 == members[j].0);
    }
    crate::json::lemma_with_member_keeps_keys_distinct(
        nm,
        "content_hash"@,
        JsonValue::Str(Seq::empty()),
    );
}

/// Setting a string member and then normalizing is normalizing and then
/// setting it: a string is its own normalization and keys do not move.
pub proof fn lemma_set_string_then_normalize(
    members: Seq<(Seq<char>, JsonValue)>,
    key: Seq<char>,
    text: Seq<char>,
)
    ensures
        normalized(JsonValue::Object(with_member(members, key, JsonValue::Str(text))))
            == JsonValue::Object(
            with_member(normalized_members(members), key, JsonValue::Str(text)),
        ),
{
    let nm = normalized_members(members);
    let set = with_member(members, key, JsonValue::Str(text));
    lemma_normalized_object(set);
    assert forall|j: int| 0 <= j < members.len() implies #[trigger] nm[j].0 == members[j].0 by {}
    assert forall|i: int| is_first_key(members, key, i) <==> is_first_key(nm, key, i) by {
        if 0 <= i < members.len() {
            assert(nm[i].0 == members[i].0);
            assert((forall|j: int| 0 <= j < i ==> members[j].0 != key) <==> (forall|j: int|
                0 <= j < i ==> nm[j].0 != key)) by {
                assert forall|j: int| 0 <= j < i implies nm[j].0 == members[j].0 by {}
            }
        }
    }
    if exists|i: int| is_first_key(members, key, i) {
        let c = choose|i: int| is_first_key(members, key, i);
        assert(is_first_key(nm, key, c));
        let d = choose|i: int| is_first_key(nm, key, i);
        crate::json::lemma_first_key_unique(nm, key, c, d);
        assert(normalized_members(set) =~= nm.update(c, (key, JsonValue::Str(text))));
    } else {
        assert(!exists|i: int| is_first_key(nm, key, i));
        assert(normalized_members(set) =~= nm.push((key, JsonValue::Str(text))));
    }
}

/// The computed hash does not depend on what the document stores as its
/// content hash: setting member `content_hash` of an object to any value
/// leaves the computed hash unchanged, since that member is cleared before
/// hashing.
pub proof fn law_computed_hash_ignores_stored_hash(
    members: Seq<(Seq<char>, JsonValue)>,
    stored: JsonValue,
)
    ensures
        computed_hash_of(
            JsonValue::Object(with_member(members, "content_hash"@, stored)),
        ) == computed_hash_of(JsonValue::Object(members)),
{
    crate::json::lemma_with_member_twice(
        members,
        "content_hash"@,
        stored,
        JsonValue::Str(Seq::empty()),
    );
}

/// A document that stores the hash computed from it verifies: storing the
/// computed hash in `content_hash`, as an exporter does, gives a document
/// whose verification passes and reports that hash.
pub proof fn law_exported_document_verifies(members: Seq<(Seq<char>, JsonValue)>)
    requires
        is_mbx_v2(JsonValue::Object(members)),
    ensures
        ({
            let h = computed_hash_of(JsonValue::Object(members));
            let exported = JsonValue::Object(
                with_member(members, "content_hash"@, JsonValue::Str(h)),
            );
            &&& verification(exported) matches Ok(outcome)
            &&& outcome.verified
            &&& outcome.stored_hash == h
            &&& outcome.computed_hash == h
        }),
{
    let h = computed_hash_of(JsonValue::Object(members));
    reveal_strlit("content_hash");
    reveal_strlit("format");
    reveal_strlit("format_version");
    assert("content_hash"@.len() == 12 && "format"@.len() == 6 && "format_version"@.len() == 14);
    assert("content_hash"@ != "format"@);
    assert("content_hash"@ != "format_version"@);
    crate::json::lemma_member_value_after_set(members, "content_hash"@, JsonValue::Str(h));
    crate::json::lemma_member_value_after_set_other(
        members,
        "content_hash"@,
        JsonValue::Str(h),
        "format"@,
    );
    crate::json::lemma_member_value_after_set_other(
        members,
        "content_hash"@,
        JsonValue::Str(h),
        "format_version"@,
    );
    law_computed_hash_ignores_stored_hash(members, JsonValue::Str(h));
}

/// Two documents have the same computed hash exactly when they have the same
/// canonical text, provided SHA-256 does not collide on the UTF-8 bytes of
/// their two canonical texts.
pub proof fn law_hash_identifies_canonical_text(d1: JsonValue, d2: JsonValue)
    requires
        sha256_digest(encode_utf8(canonical_text(d1))) == sha256_digest(
            encode_utf8(canonical_text(d2)),
        ) ==> encode_utf8(canonical_text(d1)) == encode_utf8(canonical_text(d2)),
    ensures
        computed_hash_of(d1) == computed_hash_of(d2) <==> canonical_text(d1) == canonical_text(
            d2,
        ),
{
    lemma_content_hash_identifies_text(canonical_text(d1), canonical_text(d2));
}

/// An edit is detected: when a document carries the hash computed from
/// another document whose canonical text differs, it does not verify
/// (provided SHA-256 does not collide on the two canonical texts).
pub proof fn law_edited_document_fails(original: JsonValue, edited: JsonValue)
    requires
        is_mbx_v2(edited),
        canonical_text(original) != canonical_text(edited),
        stored_hash_of(edited) == computed_hash_of(original),
        sha256_digest(encode_utf8(canonical_text(original))) == sha256_digest(
            encode_utf8(canonical_text(edited)),
        ) ==> encode_utf8(canonical_text(original)) == encode_utf8(canonical_text(edited)),
    ensures
        verification(edited) matches Ok(outcome) && !outcome.verified,
{
    law_hash_identifies_canonical_text(original, edited);
}

/// Verifies an MBX document: checks that it is an object whose `format` is
/// `"AiBenchLab-MBX"` and whose `format_version` is `"2.0"`, then recomputes
/// its content hash and compares it with the stored one.
pub fn verify_mbx_value(value: &Json) -> (res: Result<VerifyResult, MbxError>)
    requires
        !verification_panics(value@),
    ensures
        match res {
            Ok(r) => verification(value@) == Ok::<VerifyOutcome, MbxErrorView>(r@)
                && is_lower_hex_64(r.computed_hash@) && (r.verified ==> is_lower_hex_64(
                r.stored_hash@,
            )),
            Err(e) => verification(value@) == Err::<VerifyOutcome, MbxErrorView>(e@),
        },
        res is Ok <==> is_mbx_v2(value@),
{
    let members = match value {
        Json::Object(members) => members,
        _ => {
            return Err(MbxError::NotAnObject);
        },
    };
    proof {
        lemma_object_value(*members);
        reveal_strlit("");
        assert(""@ =~= Seq::<char>::empty());
    }
    let format = str_member_or(value, "format", "");
    if !str_eq(format.as_str(), "AiBenchLab-MBX") {
        return Err(MbxError::NotMbxFormat(format));
    }
    let version = str_member_or(value, "format_version", "");
    if !str_eq(version.as_str(), "2.0") {
        return Err(MbxError::UnsupportedVersion(version));
    }
    let info = extract_package_info(value);
    let stored_hash = str_member_or(value, "content_hash", "");

    let normalized_doc = normalized_copy(value);
    let ghost nd = normalized_doc@;
    proof {
        lemma_normalized_object(members_of(members@));
        assert(nd == JsonValue::Object(normalized_members(members_of(members@))));
    }
    let mut cleared = match normalized_doc {
        Json::Object(ms) => {
            proof {
                lemma_object_value(ms);
            }
            ms
        },
        _ => Vec::new(),
    };
    proof {
        assert(members_of(cleared@) =~= normalized_members(members_of(members@)));
        lemma_set_string_then_normalize(members_of(members@), "content_hash"@, Seq::empty());
    }
    set_member(&mut cleared, String::from_str("content_hash"), Json::Str(String::new()));
    let hash_input = Json::Object(cleared);
    proof {
        lemma_object_value(cleared);
        assert(hash_input@ == normalized(hash_cleared(value@)));
    }
    proof {
        crate::canonical::law_normalized_document_is_written(hash_cleared(value@));
    }
    let canonical = match write_compact(&hash_input) {
        Ok(text) => text,
        Err(e) => {
            return Err(MbxError::Serialization(e));
        },
    };
    let computed_hash = content_hash(canonical.as_str());
    let verified = computed_hash == stored_hash;
    Ok(VerifyResult { verified, stored_hash, computed_hash, info: Some(info) })
}

/// Whether verifying the document would panic (see `verification_panics`),
/// so that a caller can stop first.
pub fn verification_would_panic(value: &Json) -> (res: bool)
    ensures
        res == verification_panics(value@),
{
    match value {
        Json::Object(members) => {
            proof {
                lemma_object_value(*members);
                reveal_strlit("");
                assert(""@ =~= Seq::<char>::empty());
            }
            let format = str_member_or(value, "format", "");
            let version = str_member_or(value, "format_version", "");
            str_eq(format.as_str(), "AiBenchLab-MBX") && str_eq(version.as_str(), "2.0")
                && package_info_would_panic(value)
        },
        _ => false,
    }
}

} // verus!
