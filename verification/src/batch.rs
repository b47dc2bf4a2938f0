//! Batch verification bookkeeping: which files are MBX exports, how the
//! outcomes of a run are counted, and the exit status of the run.
use vstd::prelude::*;
use vstd::string::StringSliceAdditionalSpecFns;
use crate::text::{decimal_text, push_decimal};
use vstd::utf8::{encode_utf8, is_ascii_chars, is_ascii_chars_encode_utf8};

verus! {

/// How verifying one file ended.
#[derive(Clone, Copy, Debug, PartialEq, Eq, Structural)]
pub enum FileOutcome {
    /// The stored hash matches.
    Verified,
    /// The stored hash does not match.
    Failed,
    /// The file could not be read or is not a verifiable MBX v2 document.
    Error,
}

/// The counts of a batch run.
#[derive(Clone, Copy, Debug, PartialEq, Eq, Structural)]
pub struct BatchTally {
    pub verified: u32,
    pub failed: u32,
    pub errors: u32,
}

/// The bytes of the file-name suffix of an MBX export, `.mbx.json`.
pub open spec fn mbx_suffix() -> Seq<u8> {
    seq![46u8, 109u8, 98u8, 120u8, 46u8, 106u8, 115u8, 111u8, 110u8]
}

/// The text ends with the bytes `suffix`.
pub open spec fn ends_with_bytes(text: Seq<u8>, suffix: Seq<u8>) -> bool {
    text.len() >= suffix.len() && text.subrange(text.len() - suffix.len(), text.len() as int)
        == suffix
}

/// Whether a path names an MBX export: its text ends with `.mbx.json` (so its
/// extension is `json`).
pub fn is_mbx_file_name(path: &str) -> (res: bool)
    ensures
        res == ends_with_bytes(path.spec_bytes(), mbx_suffix()),
{
    let bytes = path.as_bytes();
    let suffix: [u8; 9] = [46, 109, 98, 120, 46, 106, 115, 111, 110];
    if bytes.len() < 9 {
        return false;
    }
    let start = bytes.len() - 9;
    let mut i: usize = 0;
    while i < 9
        invariant
            i <= 9,
            start + 9 == bytes@.len(),
            start <= usize::MAX - 9,
            bytes@ == path.spec_bytes(),
            suffix@ == mbx_suffix(),
            forall|j: int| 0 <= j < i ==> bytes@[start + j] == mbx_suffix()[j],
        decreases 9 - i,
    {
        if bytes[start + i] != suffix[i] {
            proof {
                assert(bytes@.subrange(start as int, bytes@.len() as int)[i as int] != mbx_suffix()[i as int]);
            }
            return false;
        }
        i = i + 1;
    }
    proof {
        assert(bytes@.subrange(start as int, bytes@.len() as int) =~= mbx_suffix());
    }
    true
}

/// The UTF-8 bytes of two texts one after the other are the bytes of each.
proof fn lemma_encode_utf8_concat(a: Seq<char>, b: Seq<char>)
    ensures
        encode_utf8(a + b) == encode_utf8(a) + encode_utf8(b),
    decreases a.len(),
{
    if a.len() == 0 {
        assert(a + b =~= b);
        assert(encode_utf8(a) + encode_utf8(b) =~= encode_utf8(b));
    } else {
        assert((a + b).drop_first() =~= a.drop_first() + b);
        assert((a + b)[0] == a[0]);
        lemma_encode_utf8_concat(a.drop_first(), b);
        assert(encode_utf8(a + b) =~= encode_utf8(a) + encode_utf8(b));
    }
}

/// The suffix that marks an MBX export is the text `.mbx.json`, and every
/// name that ends with that text is taken as an export, whatever comes before.
pub proof fn law_mbx_file_names(prefix: Seq<char>)
    ensures
        mbx_suffix() == encode_utf8(".mbx.json"@),
        ends_with_bytes(encode_utf8(prefix + ".mbx.json"@), mbx_suffix()),
{
    reveal_strlit(".mbx.json");
    let t = ".mbx.json"@;
    assert(is_ascii_chars(t));
    is_ascii_chars_encode_utf8(t);
    assert(encode_utf8(t) =~= mbx_suffix());
    lemma_encode_utf8_concat(prefix, t);
    let all = encode_utf8(prefix + t);
    assert(all.subrange(all.len() - 9, all.len() as int) =~= mbx_suffix());
}

/// How many of the outcomes are `kind`.
pub open spec fn count_of(outcomes: Seq<FileOutcome>, kind: FileOutcome) -> nat
    decreases outcomes.len(),
{
    if outcomes.len() == 0 {
        0
    } else {
        count_of(outcomes.drop_last(), kind) + if outcomes.last() == kind {
            1nat
        } else {
            0nat
        }
    }
}

/// Every outcome is counted once: the three counts add up to the number of
/// files, so a run exits with status 0 exactly when every file verified.
pub proof fn law_every_outcome_counted_once(outcomes: Seq<FileOutcome>)
    ensures
        count_of(outcomes, FileOutcome::Verified) + count_of(outcomes, FileOutcome::Failed)
            + count_of(outcomes, FileOutcome::Error) == outcomes.len(),
        (count_of(outcomes, FileOutcome::Failed) == 0 && count_of(outcomes, FileOutcome::Error)
            == 0) <==> count_of(outcomes, FileOutcome::Verified) == outcomes.len(),
    decreases outcomes.len(),
{
    if outcomes.len() > 0 {
        law_every_outcome_counted_once(outcomes.drop_last());
    }
}

/// How many of the outcomes are `kind` is how often `kind` occurs among them.
proof fn lemma_count_of_multiset(outcomes: Seq<FileOutcome>, kind: FileOutcome)
    ensures
        count_of(outcomes, kind) == outcomes.to_multiset().count(kind),
    decreases outcomes.len(),
{
    broadcast use vstd::multiset::group_multiset_axioms;
    if outcomes.len() == 0 {
        outcomes.to_multiset_ensures();
        assert(!outcomes.contains(kind));
    } else {
        let init = outcomes.drop_last();
        lemma_count_of_multiset(init, kind);
        assert(init.push(outcomes.last()) =~= outcomes);
        vstd::seq_lib::to_multiset_build(init, outcomes.last());
    }
}

/// The outcome of a batch run does not depend on the order in which the
/// files were listed: two runs whose outcomes are the same up to order have
/// the same counts, hence the same closing line and exit status.
pub proof fn law_tally_ignores_order(a: Seq<FileOutcome>, b: Seq<FileOutcome>)
    requires
        a.to_multiset() == b.to_multiset(),
    ensures
        count_of(a, FileOutcome::Verified) == count_of(b, FileOutcome::Verified),
        count_of(a, FileOutcome::Failed) == count_of(b, FileOutcome::Failed),
        count_of(a, FileOutcome::Error) == count_of(b, FileOutcome::Error),
{
    lemma_count_of_multiset(a, FileOutcome::Verified);
    lemma_count_of_multiset(b, FileOutcome::Verified);
    lemma_count_of_multiset(a, FileOutcome::Failed);
    lemma_count_of_multiset(b, FileOutcome::Failed);
    lemma_count_of_multiset(a, FileOutcome::Error);
    lemma_count_of_multiset(b, FileOutcome::Error);
}

/// Counts the outcomes of a batch run.
pub fn tally_outcomes(outcomes: &Vec<FileOutcome>) -> (t: BatchTally)
    requires
        outcomes@.len() <= u32::MAX,
    ensures
        t.verified == count_of(outcomes@, FileOutcome::Verified),
        t.failed == count_of(outcomes@, FileOutcome::Failed),
        t.errors == count_of(outcomes@, FileOutcome::Error),
        t.verified + t.failed + t.errors == outcomes@.len(),
{
    let mut t = BatchTally { verified: 0, failed: 0, errors: 0 };
    let mut i: usize = 0;
    while i < outcomes.len()
        invariant
            i <= outcomes@.len() <= u32::MAX,
            t.verified == count_of(outcomes@.take(i as int), FileOutcome::Verified),
            t.failed == count_of(outcomes@.take(i as int), FileOutcome::Failed),
            t.errors == count_of(outcomes@.take(i as int), FileOutcome::Error),
            t.verified + t.failed + t.errors == i,
        decreases outcomes@.len() - i,
    {
        proof {
            assert(outcomes@.take(i + 1).drop_last() =~= outcomes@.take(i as int));
        }
        match outcomes[i] {
            FileOutcome::Verified => {
                t.verified = t.verified + 1;
            },
            FileOutcome::Failed => {
                t.failed = t.failed + 1;
            },
            FileOutcome::Error => {
                t.errors = t.errors + 1;
            },
        }
        i = i + 1;
    }
    proof {
        assert(outcomes@.take(outcomes@.len() as int) =~= outcomes@);
    }
    t
}

/// The exit status of a run: 1 when any file failed or could not be
/// verified, 0 otherwise.
pub fn exit_code(t: &BatchTally) -> (code: i32)
    ensures
        code == (if t.failed > 0 || t.errors > 0 {
            1i32
        } else {
            0i32
        }),
{
    if t.failed > 0 || t.errors > 0 {
        1
    } else {
        0
    }
}

/// The closing line of a batch run.
pub open spec fn summary_text(t: BatchTally) -> Seq<char> {
    "Results: "@ + decimal_text(t.verified as nat) + " verified, "@ + decimal_text(t.failed as nat)
        + " failed, "@ + decimal_text(t.errors as nat) + " errors"@
}

/// Writes the closing line of a batch run, such as
/// `Results: 12 verified, 1 failed, 0 errors`.
pub fn summary_line(t: &BatchTally) -> (line: String)
    ensures
        line@ == summary_text(*t),
{
    let mut line = String::from_str("Results: ");
    push_decimal(&mut line, t.verified as u64);
    line.append(" verified, ");
    push_decimal(&mut line, t.failed as u64);
    line.append(" failed, ");
    push_decimal(&mut line, t.errors as u64);
    line.append(" errors");
    line
}

} // verus!
