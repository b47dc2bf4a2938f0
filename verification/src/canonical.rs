//! The canonical form of an MBX document: every number turned into its
//! six-decimal text, then the tree written as compact JSON.
use vstd::prelude::*;
use crate::text::hex_char;
use crate::json::{
    Json, JsonMember, JsonValue, values_of, members_of, lemma_array_value, lemma_object_value,
};

verus! {

broadcast use {lemma_array_value, lemma_object_value};

/// The document with every number replaced by the string of its value
/// written with exactly six decimal places; strings, booleans and nulls
/// unchanged, array order and object member order kept.
pub open spec fn normalized(v: JsonValue) -> JsonValue
    decreases v,
{
    match v {
        JsonValue::Number(n) => JsonValue::Str(n.fixed6),
        JsonValue::Array(items) => JsonValue::Array(
            Seq::new(
                items.len(),
                |i: int|
                    if 0 <= i < items.len() {
                        normalized(items[i])
                    } else {
                        JsonValue::Null
                    },
            ),
        ),
        JsonValue::Object(members) => JsonValue::Object(
            Seq::new(
                members.len(),
                |i: int|
                    if 0 <= i < members.len() {
                        (members[i].0, normalized(members[i].1))
                    } else {
                        (Seq::empty(), JsonValue::Null)
                    },
            ),
        ),
        _ => v,
    }
}

/// The document holds no number anywhere.
pub open spec fn number_free(v: JsonValue) -> bool
    decreases v,
{
    match v {
        JsonValue::Number(_) => false,
        JsonValue::Array(items) => forall|i: int|
            0 <= i < items.len() ==> #[trigger] number_free(items[i]),
        JsonValue::Object(members) => forall|i: int|
            0 <= i < members.len() ==> #[trigger] number_free(members[i].1),
        _ => true,
    }
}

/// Normalizing an array normalizes each item.
pub broadcast proof fn lemma_normalized_array(items: Seq<JsonValue>)
    ensures
        #[trigger] normalized(JsonValue::Array(items)) == JsonValue::Array(
            Seq::new(items.len(), |i: int| normalized(items[i])),
        ),
{
    reveal_with_fuel(normalized, 2);
    assert(normalized(JsonValue::Array(items))->Array_0 =~= Seq::new(
        items.len(),
        |i: int| normalized(items[i]),
    ));
}

/// Normalizing an object normalizes each member value and keeps the keys.
pub broadcast proof fn lemma_normalized_object(members: Seq<(Seq<char>, JsonValue)>)
    ensures
        #[trigger] normalized(JsonValue::Object(members)) == JsonValue::Object(
            Seq::new(members.len(), |i: int| (members[i].0, normalized(members[i].1))),
        ),
{
    reveal_with_fuel(normalized, 2);
    assert(normalized(JsonValue::Object(members))->Object_0 =~= Seq::new(
        members.len(),
        |i: int| (members[i].0, normalized(members[i].1)),
    ));
}

/// After normalization no number is left anywhere in the document.
pub proof fn law_normalization_leaves_no_number(v: JsonValue)
    ensures
        number_free(normalized(v)),
    decreases v,
{
    match v {
        JsonValue::Array(items) => {
            lemma_normalized_array(items);
            assert forall|i: int| 0 <= i < items.len() implies number_free(
                #[trigger] normalized(items[i]),
            ) by {
                law_normalization_leaves_no_number(items[i]);
            }
            reveal_with_fuel(number_free, 2);
        },
        JsonValue::Object(members) => {
            lemma_normalized_object(members);
            assert forall|i: int| 0 <= i < members.len() implies number_free(
                #[trigger] normalized(members[i].1),
            ) by {
                law_normalization_leaves_no_number(members[i].1);
            }
            reveal_with_fuel(number_free, 2);
        },
        _ => {},
    }
}

/// Normalizing twice is normalizing once: after the first pass every number
/// is text, and text is left as it is.
pub proof fn law_normalization_idempotent(v: JsonValue)
    ensures
        normalized(normalized(v)) == normalized(v),
    decreases v,
{
    match v {
        JsonValue::Array(items) => {
            let n = Seq::new(items.len(), |i: int| normalized(items[i]));
            lemma_normalized_array(items);
            lemma_normalized_array(n);
            assert forall|i: int| 0 <= i < items.len() implies #[trigger] normalized(n[i]) == n[i] by {
                law_normalization_idempotent(items[i]);
            }
            assert(Seq::new(n.len(), |i: int| normalized(n[i])) =~= n);
        },
        JsonValue::Object(members) => {
            let n = Seq::new(members.len(), |i: int| (members[i].0, normalized(members[i].1)));
            lemma_normalized_object(members);
            lemma_normalized_object(n);
            assert forall|i: int| 0 <= i < members.len() implies #[trigger] normalized(n[i].1)
                == n[i].1 by {
                law_normalization_idempotent(members[i].1);
            }
            assert(Seq::new(n.len(), |i: int| (n[i].0, normalized(n[i].1))) =~= n);
        },
        _ => {},
    }
}

/// A copy of `v` with every number replaced by its six-decimal text.
pub fn normalized_copy(v: &Json) -> (res: Json)
    ensures
        res@ == normalized(v@),
    decreases v,
{
    match v {
        Json::Null => Json::Null,
        Json::Bool(b) => Json::Bool(*b),
        Json::Number(n) => Json::Str(n.fixed6.clone()),
        Json::Str(s) => Json::Str(s.clone()),
        Json::Array(items) => {
            let mut out: Vec<Json> = Vec::new();
            let mut i: usize = 0;
            while i < items.len()
                invariant
                    *v == Json::Array(*items),
                    i <= items@.len(),
                    out@.len() == i,
                    forall|j: int| 0 <= j < i ==> #[trigger] out@[j]@ == normalized(items@[j]@),
                decreases items@.len() - i,
            {
                proof {
                    let w = *v;
                    assert(decreases_to!(w => w->Array_0));
                    assert(decreases_to!(w->Array_0 => w->Array_0@));
                    assert(decreases_to!(w->Array_0@ => w->Array_0@[i as int]));
                }
                let item = normalized_copy(&items[i]);
                out.push(item);
                i = i + 1;
            }
            proof {
                assert(values_of(out@) =~= Seq::new(
                    values_of(items@).len(),
                    |j: int| normalized(values_of(items@)[j]),
                ));
                lemma_normalized_array(values_of(items@));
            }
            Json::Array(out)
        },
        Json::Object(members) => {
            let mut out: Vec<JsonMember> = Vec::new();
            let mut i: usize = 0;
            while i < members.len()
                invariant
                    *v == Json::Object(*members),
                    i <= members@.len(),
                    out@.len() == i,
                    forall|j: int|
                        0 <= j < i ==> #[trigger] out@[j].key@ == members@[j].key@
                            && out@[j].value@ == normalized(members@[j].value@),
                decreases members@.len() - i,
            {
                proof {
                    let w = *v;
                    assert(decreases_to!(w => w->Object_0));
                    assert(decreases_to!(w->Object_0 => w->Object_0@));
                    assert(decreases_to!(w->Object_0@ => w->Object_0@[i as int]));
                    assert(decreases_to!(w->Object_0@[i as int] => w->Object_0@[i as int].value));
                }
                let value = normalized_copy(&members[i].value);
                out.push(JsonMember { key: members[i].key.clone(), value });
                i = i + 1;
            }
            proof {
                let m = members_of(members@);
                assert(members_of(out@) =~= Seq::new(
                    m.len(),
                    |j: int| (m[j].0, normalized(m[j].1)),
                ));
                lemma_normalized_object(m);
            }
            Json::Object(out)
        },
    }
}

/// Replaces every number in `value` by the string of its value written with
/// exactly six decimal places, everywhere in the tree.
pub fn normalize_floats(value: &mut Json)
    ensures
        final(value)@ == normalized(old(value)@),
{
    let n = normalized_copy(value);
    *value = n;
}

/// The error type of serde_json.
#[verifier::external_type_specification]
#[verifier::external_body]
pub struct ExJsonError(serde_json::Error);

/// How serde_json writes one character inside a string literal: `"` and `\`
/// behind a backslash; backspace, tab, line feed, form feed and carriage
/// return as `\b \t \n \f \r`; any other character below U+0020 as
/// `\u00` and two lowercase hex digits; every other character as it is.
pub open spec fn escaped_char(c: char) -> Seq<char> {
    if c == '"' {
        seq!['\\', '"']
    } else if c == '\\' {
        seq!['\\', '\\']
    } else if c == '\u{8}' {
        seq!['\\', 'b']
    } else if c == '\t' {
        seq!['\\', 't']
    } else if c == '\n' {
        seq!['\\', 'n']
    } else if c == '\u{c}' {
        seq!['\\', 'f']
    } else if c == '\r' {
        seq!['\\', 'r']
    } else if (c as int) < 32 {
        seq!['\\', 'u', '0', '0', hex_char((c as int) / 16), hex_char((c as int) % 16)]
    } else {
        seq![c]
    }
}

/// The characters of `s`, each escaped as in a JSON string literal.
pub open spec fn escaped_text(s: Seq<char>) -> Seq<char>
    decreases s.len(),
{
    if s.len() == 0 {
        Seq::empty()
    } else {
        escaped_text(s.drop_last()) + escaped_char(s.last())
    }
}

/// The JSON string literal that serde_json writes for `text`: the escaped
/// text between double quotes.
pub open spec fn json_string_literal(text: Seq<char>) -> Seq<char> {
    seq!['"'] + escaped_text(text) + seq!['"']
}

/// Writes `text` as a JSON string literal with `serde_json::to_string`.
/// Trusted: serde_json writes a string into a byte vector, which cannot fail,
/// and escapes it by its `ESCAPE` table as `json_string_literal` states.
#[verifier::external_body]
fn quote_json_string(text: &str) -> (res: Result<String, serde_json::Error>)
    ensures
        match res {
            Ok(quoted) => quoted@ == json_string_literal(text@),
            Err(_) => false,
        },
{
    serde_json::to_string(text)
}

/// The message of a serde_json error, as its `Display` writes it.
/// Trusted for nothing: no contract is stated of the text.
#[verifier::external_body]
fn json_error_message(e: &serde_json::Error) -> String {
    e.to_string()
}

/// The text a writer produced, or none when it failed.
pub open spec fn text_result(r: Result<String, String>) -> Option<Seq<char>> {
    match r {
        Ok(s) => Some(s@),
        Err(_) => None,
    }
}

/// `next` appended to the comma-separated `prefix`; nothing once either fails.
pub open spec fn comma_join(prefix: Option<Seq<char>>, next: Option<Seq<char>>, first: bool) -> Option<
    Seq<char>,
> {
    match (prefix, next) {
        (Some(p), Some(t)) => Some(
            if first {
                t
            } else {
                p + seq![','] + t
            },
        ),
        _ => None,
    }
}

/// A text wrapped in an opening and a closing character.
pub open spec fn bracketed(open: char, body: Option<Seq<char>>, close: char) -> Option<Seq<char>> {
    match body {
        Some(b) => Some(seq![open] + b + seq![close]),
        None => None,
    }
}

/// The compact text of one object member: the key literal, a colon, the value.
pub open spec fn member_text(key: Seq<char>, value_text: Option<Seq<char>>) -> Option<Seq<char>> {
    match value_text {
        Some(t) => Some(json_string_literal(key) + seq![':'] + t),
        None => None,
    }
}

/// The document written as compact JSON: no whitespace, array items and
/// object members in their order, strings as serde_json writes them. A number has no text here: the canonical
/// form is only taken of documents whose numbers have all been turned into
/// text.
pub open spec fn compact_text(v: JsonValue) -> Option<Seq<char>>
    decreases v,
{
    match v {
        JsonValue::Null => Some(seq!['n', 'u', 'l', 'l']),
        JsonValue::Bool(b) => Some(
            if b {
                seq!['t', 'r', 'u', 'e']
            } else {
                seq!['f', 'a', 'l', 's', 'e']
            },
        ),
        JsonValue::Number(_) => None,
        JsonValue::Str(s) => Some(json_string_literal(s)),
        JsonValue::Array(items) => bracketed('[', items_text(items), ']'),
        JsonValue::Object(members) => bracketed('{', members_text(members), '}'),
    }
}

/// The compact texts of `items`, separated by commas.
pub open spec fn items_text(items: Seq<JsonValue>) -> Option<Seq<char>>
    decreases items,
{
    if items.len() == 0 {
        Some(Seq::empty())
    } else {
        comma_join(
            items_text(items.drop_last()),
            compact_text(items[items.len() - 1]),
            items.len() == 1,
        )
    }
}

/// The compact texts of the members, separated by commas.
pub open spec fn members_text(members: Seq<(Seq<char>, JsonValue)>) -> Option<Seq<char>>
    decreases members,
{
    if members.len() == 0 {
        Some(Seq::empty())
    } else {
        let last = members[members.len() - 1];
        proof {
            assert(decreases_to!(members => members[members.len() - 1]));
        }
        comma_join(
            members_text(members.drop_last()),
            member_text(last.0, compact_text(last.1)),
            members.len() == 1,
        )
    }
}

/// Once a prefix of the items fails to be written, the whole list fails the same way.
pub proof fn lemma_items_failure(items: Seq<JsonValue>, i: int)
    requires
        0 <= i <= items.len(),
        items_text(items.take(i)) is None,
    ensures
        items_text(items) == items_text(items.take(i)),
    decreases items.len() - i,
{
    if i == items.len() {
        assert(items.take(i) =~= items);
    } else {
        assert(items.drop_last().take(i) =~= items.take(i));
        lemma_items_failure(items.drop_last(), i);
    }
}

/// Once a prefix of the members fails to be written, the whole object fails the same way.
pub proof fn lemma_members_failure(members: Seq<(Seq<char>, JsonValue)>, i: int)
    requires
        0 <= i <= members.len(),
        members_text(members.take(i)) is None,
    ensures
        members_text(members) == members_text(members.take(i)),
    decreases members.len() - i,
{
    if i == members.len() {
        assert(members.take(i) =~= members);
    } else {
        assert(members.drop_last().take(i) =~= members.take(i));
        lemma_members_failure(members.drop_last(), i);
    }
}

/// Items that can each be written can be written as a list.
pub proof fn lemma_items_text_written(items: Seq<JsonValue>)
    requires
        forall|i: int| 0 <= i < items.len() ==> #[trigger] compact_text(items[i]) is Some,
    ensures
        items_text(items) is Some,
    decreases items.len(),
{
    if items.len() > 0 {
        lemma_items_text_written(items.drop_last());
        assert(compact_text(items[items.len() - 1]) is Some);
    }
}

/// Members whose values can each be written can be written as an object body.
pub proof fn lemma_members_text_written(members: Seq<(Seq<char>, JsonValue)>)
    requires
        forall|i: int| 0 <= i < members.len() ==> #[trigger] compact_text(members[i].1) is Some,
    ensures
        members_text(members) is Some,
    decreases members.len(),
{
    if members.len() > 0 {
        lemma_members_text_written(members.drop_last());
        assert(compact_text(members[members.len() - 1].1) is Some);
    }
}

/// Every normalized document can be written as compact JSON: normalization
/// leaves no number, and everything else has a compact text.
pub proof fn law_normalized_document_is_written(v: JsonValue)
    ensures
        compact_text(normalized(v)) is Some,
    decreases v,
{
    match v {
        JsonValue::Array(items) => {
            let n = Seq::new(items.len(), |i: int| normalized(items[i]));
            lemma_normalized_array(items);
            assert forall|i: int| 0 <= i < n.len() implies #[trigger] compact_text(n[i]) is Some by {
                law_normalized_document_is_written(items[i]);
            }
            lemma_items_text_written(n);
        },
        JsonValue::Object(members) => {
            let n = Seq::new(members.len(), |i: int| (members[i].0, normalized(members[i].1)));
            lemma_normalized_object(members);
            assert forall|i: int| 0 <= i < n.len() implies #[trigger] compact_text(n[i].1) is Some by {
                law_normalized_document_is_written(members[i].1);
            }
            lemma_members_text_written(n);
        },
        _ => {},
    }
}

/// The compact texts of the items, separated by commas.
#[verifier::rlimit(30)]
fn write_compact_items(items: &Vec<Json>) -> (res: Result<String, String>)
    ensures
        text_result(res) == items_text(values_of(items@)),
    decreases items, 0nat,
{
    let ghost vals = values_of(items@);
    let mut body = String::new();
    let mut i: usize = 0;
    proof {
        reveal_strlit(",");
    }
    while i < items.len()
        invariant
            i <= items@.len(),
            vals == values_of(items@),
            items_text(vals.take(i as int)) == Some(body@),
            ","@ == seq![','],
        decreases items@.len() - i,
    {
        proof {
            assert(vals.take(i + 1).drop_last() =~= vals.take(i as int));
            assert(vals.take(i + 1)[i as int] == items@[i as int]@);
            assert(decreases_to!(items => items@));
            assert(decreases_to!(items@ => items@[i as int]));
        }
        match write_compact(&items[i]) {
            Ok(t) => {
                let ghost prefix = body@;
                if i > 0 {
                    body.append(",");
                }
                body.append(t.as_str());
                proof {
                    if i == 0 {
                        assert(prefix =~= Seq::<char>::empty());
                        assert(body@ =~= t@);
                    } else {
                        assert(body@ =~= prefix + seq![','] + t@);
                    }
                }
            },
            Err(e) => {
                proof {
                    lemma_items_failure(vals, i + 1);
                }
                return Err(e);
            },
        }
        i = i + 1;
    }
    proof {
        assert(vals.take(items@.len() as int) =~= vals);
    }
    Ok(body)
}

/// The compact texts of the members, separated by commas.
#[verifier::rlimit(30)]
fn write_compact_members(members: &Vec<JsonMember>) -> (res: Result<String, String>)
    ensures
        text_result(res) == members_text(members_of(members@)),
    decreases members, 0nat,
{
    let ghost m = members_of(members@);
    let mut body = String::new();
    let mut i: usize = 0;
    proof {
        reveal_strlit(",");
        reveal_strlit(":");
    }
    while i < members.len()
        invariant
            i <= members@.len(),
            m == members_of(members@),
            members_text(m.take(i as int)) == Some(body@),
            ","@ == seq![','],
            ":"@ == seq![':'],
        decreases members@.len() - i,
    {
        proof {
            assert(m.take(i + 1).drop_last() =~= m.take(i as int));
            assert(m.take(i + 1)[i as int] == (members@[i as int].key@, members@[i as int].value@));
            assert(decreases_to!(members => members@));
            assert(decreases_to!(members@ => members@[i as int]));
            assert(decreases_to!(members@[i as int] => members@[i as int].value));
        }
        let quoted = quote_json_string(members[i].key.as_str());
        match quoted {
            Err(e) => {
                proof {
                    lemma_members_failure(m, i + 1);
                }
                return Err(json_error_message(&e));
            },
            Ok(q) => {
                match write_compact(&members[i].value) {
                    Ok(t) => {
                        let ghost prefix = body@;
                        if i > 0 {
                            body.append(",");
                        }
                        body.append(q.as_str());
                        body.append(":");
                        body.append(t.as_str());
                        proof {
                            if i == 0 {
                                assert(prefix =~= Seq::<char>::empty());
                                assert(body@ =~= q@ + seq![':'] + t@);
                            } else {
                                assert(body@ =~= prefix + seq![','] + (q@ + seq![':'] + t@));
                            }
                        }
                    },
                    Err(e) => {
                        proof {
                            lemma_members_failure(m, i + 1);
                        }
                        return Err(e);
                    },
                }
            },
        }
        i = i + 1;
    }
    proof {
        assert(m.take(members@.len() as int) =~= m);
    }
    Ok(body)
}

/// Writes a document as compact JSON (see `compact_text`). On failure the
/// error holds the message of serde_json's error (empty for a number, which
/// has no text here).
pub fn write_compact(v: &Json) -> (res: Result<String, String>)
    ensures
        text_result(res) == compact_text(v@),
    decreases v, 1nat,
{
    match v {
        Json::Null => {
            proof {
                reveal_strlit("null");
                assert("null"@ == seq!['n', 'u', 'l', 'l']);
            }
            Ok(String::from_str("null"))
        },
        Json::Bool(b) => {
            proof {
                reveal_strlit("true");
                reveal_strlit("false");
                assert("true"@ == seq!['t', 'r', 'u', 'e']);
                assert("false"@ == seq!['f', 'a', 'l', 's', 'e']);
            }
            if *b {
                Ok(String::from_str("true"))
            } else {
                Ok(String::from_str("false"))
            }
        },
        Json::Number(_) => Err(String::new()),
        Json::Str(s) => match quote_json_string(s.as_str()) {
            Ok(quoted) => Ok(quoted),
            Err(e) => Err(json_error_message(&e)),
        },
        Json::Array(items) => {
            proof {
                let w = *v;
                assert(decreases_to!(w => w->Array_0));
            }
            assert(compact_text(v@) == bracketed('[', items_text(values_of(items@)), ']'));
            match write_compact_items(items) {
                Ok(body) => {
                    proof {
                        reveal_strlit("[");
                        reveal_strlit("]");
                    }
                    let mut out = String::from_str("[");
                    out.append(body.as_str());
                    out.append("]");
                    assert(out@ =~= seq!['['] + body@ + seq![']']);
                    Ok(out)
                },
                Err(e) => Err(e),
            }
        },
        Json::Object(members) => {
            proof {
                let w = *v;
                assert(decreases_to!(w => w->Object_0));
            }
            assert(compact_text(v@) == bracketed('{', members_text(members_of(members@)), '}'));
            match write_compact_members(members) {
                Ok(body) => {
                    proof {
                        reveal_strlit("{");
                        reveal_strlit("}");
                    }
                    let mut out = String::from_str("{");
                    out.append(body.as_str());
                    out.append("}");
                    assert(out@ =~= seq!['{'] + body@ + seq!['}']);
                    Ok(out)
                },
                Err(e) => Err(e),
            }
        },
    }
}

} // verus!
