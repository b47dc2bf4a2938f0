//! The JSON document model that the MBX logic works on, and the queries the
//! logic makes of it.
use vstd::prelude::*;
use vstd::string::StringSliceAdditionalSpecFns;

verus! {

/// A JSON number, held as the readings that the MBX logic makes of it:
/// the bit pattern of its value as an IEEE 754 double, its value as an
/// unsigned 64-bit integer when it was written as one, and its value written
/// with exactly six decimal places (the form the content hash is taken over).
pub struct JsonNumber {
    pub f64_bits: u64,
    pub unsigned: Option<u64>,
    pub fixed6: String,
}

/// The mathematical value of a [`JsonNumber`].
pub struct NumberValue {
    pub f64_bits: u64,
    pub unsigned: Option<u64>,
    pub fixed6: Seq<char>,
}

impl View for JsonNumber {
    type V = NumberValue;

    open spec fn view(&self) -> NumberValue {
        NumberValue { f64_bits: self.f64_bits, unsigned: self.unsigned, fixed6: self.fixed6@ }
    }
}

/// One `"key": value` member of a JSON object.
pub struct JsonMember {
    pub key: String,
    pub value: Json,
}

/// A JSON document. Object members keep the order in which they were written.
pub enum Json {
    Null,
    Bool(bool),
    Number(JsonNumber),
    Str(String),
    Array(Vec<Json>),
    Object(Vec<JsonMember>),
}

/// The mathematical value of a JSON document.
pub enum JsonValue {
    Null,
    Bool(bool),
    Number(NumberValue),
    Str(Seq<char>),
    Array(Seq<JsonValue>),
    Object(Seq<(Seq<char>, JsonValue)>),
}

impl View for Json {
    type V = JsonValue;

    open spec fn view(&self) -> JsonValue
        decreases self,
    {
        match self {
            Json::Null => JsonValue::Null,
            Json::Bool(b) => JsonValue::Bool(*b),
            Json::Number(n) => JsonValue::Number(n@),
            Json::Str(s) => JsonValue::Str(s@),
            Json::Array(items) => JsonValue::Array(
                Seq::new(
                    items@.len(),
                    |i: int|
                        if 0 <= i < items@.len() {
                            items@[i].view()
                        } else {
                            JsonValue::Null
                        },
                ),
            ),
            Json::Object(members) => JsonValue::Object(
                Seq::new(
                    members@.len(),
                    |i: int|
                        if 0 <= i < members@.len() {
                            (members@[i].key@, members@[i].value.view())
                        } else {
                            (Seq::empty(), JsonValue::Null)
                        },
                ),
            ),
        }
    }
}

/// The values of a sequence of documents.
pub open spec fn values_of(items: Seq<Json>) -> Seq<JsonValue> {
    Seq::new(items.len(), |i: int| items[i]@)
}

/// The key/value pairs of a sequence of members.
pub open spec fn members_of(members: Seq<JsonMember>) -> Seq<(Seq<char>, JsonValue)> {
    Seq::new(members.len(), |i: int| (members[i].key@, members[i].value@))
}

/// The value of an array is the sequence of the values of its items.
pub broadcast proof fn lemma_array_value(items: Vec<Json>)
    ensures
        #[trigger] Json::Array(items)@ == JsonValue::Array(values_of(items@)),
{
    reveal_with_fuel(<Json as View>::view, 2);
    assert(Json::Array(items)@.as_array().unwrap() =~= values_of(items@));
}

/// The value of an object is the sequence of its keys and member values.
pub broadcast proof fn lemma_object_value(members: Vec<JsonMember>)
    ensures
        #[trigger] Json::Object(members)@ == JsonValue::Object(members_of(members@)),
{
    reveal_with_fuel(<Json as View>::view, 2);
    let m = match Json::Object(members)@ {
        JsonValue::Object(m) => m,
        _ => Seq::empty(),
    };
    assert(m =~= members_of(members@));
}

/// `i` is the position of the first member named `key`.
pub open spec fn is_first_key(members: Seq<(Seq<char>, JsonValue)>, key: Seq<char>, i: int) -> bool {
    &&& 0 <= i < members.len()
    &&& members[i].0 == key
    &&& forall|j: int| 0 <= j < i ==> members[j].0 != key
}

/// The value of the first member named `key`, if there is one.
pub open spec fn member_value(members: Seq<(Seq<char>, JsonValue)>, key: Seq<char>) -> Option<
    JsonValue,
> {
    if exists|i: int| is_first_key(members, key, i) {
        Some(members[choose|i: int| is_first_key(members, key, i)].1)
    } else {
        None
    }
}

/// There is exactly one first position of a key.
pub proof fn lemma_first_key_unique(
    members: Seq<(Seq<char>, JsonValue)>,
    key: Seq<char>,
    i: int,
    j: int,
)
    requires
        is_first_key(members, key, i),
        is_first_key(members, key, j),
    ensures
        i == j,
{
}

impl JsonValue {
    /// The value of member `key` of an object; nothing for any other value.
    pub open spec fn get(self, key: Seq<char>) -> Option<JsonValue> {
        match self {
            JsonValue::Object(members) => member_value(members, key),
            _ => None,
        }
    }

    pub open spec fn as_str(self) -> Option<Seq<char>> {
        match self {
            JsonValue::Str(s) => Some(s),
            _ => None,
        }
    }

    pub open spec fn as_array(self) -> Option<Seq<JsonValue>> {
        match self {
            JsonValue::Array(items) => Some(items),
            _ => None,
        }
    }

    pub open spec fn as_u64(self) -> Option<u64> {
        match self {
            JsonValue::Number(n) => n.unsigned,
            _ => None,
        }
    }

    pub open spec fn as_f64_bits(self) -> Option<u64> {
        match self {
            JsonValue::Number(n) => Some(n.f64_bits),
            _ => None,
        }
    }
}

/// The object members with member `key` set to `value`: the first member
/// named `key` takes the new value in place, and when there is none a new
/// member is appended (the insertion rule of an insertion-ordered map).
pub open spec fn with_member(
    members: Seq<(Seq<char>, JsonValue)>,
    key: Seq<char>,
    value: JsonValue,
) -> Seq<(Seq<char>, JsonValue)> {
    if exists|i: int| is_first_key(members, key, i) {
        members.update(choose|i: int| is_first_key(members, key, i), (key, value))
    } else {
        members.push((key, value))
    }
}

/// When some member is named `key`, a first such member exists.
pub proof fn lemma_first_key_exists(members: Seq<(Seq<char>, JsonValue)>, key: Seq<char>, j: int)
    requires
        0 <= j < members.len(),
        members[j].0 == key,
    ensures
        exists|i: int| is_first_key(members, key, i),
    decreases j,
{
    if exists|k: int| 0 <= k < j && members[k].0 == key {
        let k = choose|k: int| 0 <= k < j && members[k].0 == key;
        lemma_first_key_exists(members, key, k);
    } else {
        assert(is_first_key(members, key, j));
    }
}

/// Setting a member twice is setting it once to the second value.
pub proof fn lemma_with_member_twice(
    members: Seq<(Seq<char>, JsonValue)>,
    key: Seq<char>,
    first: JsonValue,
    second: JsonValue,
)
    ensures
        with_member(with_member(members, key, first), key, second) == with_member(
            members,
            key,
            second,
        ),
{
    let once = with_member(members, key, first);
    if exists|i: int| is_first_key(members, key, i) {
        let c = choose|i: int| is_first_key(members, key, i);
        assert(is_first_key(once, key, c));
        let d = choose|i: int| is_first_key(once, key, i);
        lemma_first_key_unique(once, key, c, d);
        assert(with_member(once, key, second) =~= members.update(c, (key, second)));
    } else {
        let n = members.len() as int;
        assert forall|j: int| 0 <= j < n implies members[j].0 != key by {
            if members[j].0 == key {
                lemma_first_key_exists(members, key, j);
            }
        }
        assert(is_first_key(once, key, n));
        let d = choose|i: int| is_first_key(once, key, i);
        lemma_first_key_unique(once, key, n, d);
        assert(with_member(once, key, second) =~= members.push((key, second)));
    }
}

/// After setting member `key`, reading `key` gives the value set.
pub proof fn lemma_member_value_after_set(
    members: Seq<(Seq<char>, JsonValue)>,
    key: Seq<char>,
    value: JsonValue,
)
    ensures
        member_value(with_member(members, key, value), key) == Some(value),
{
    let set = with_member(members, key, value);
    if exists|i: int| is_first_key(members, key, i) {
        let c = choose|i: int| is_first_key(members, key, i);
        assert(is_first_key(set, key, c));
        let d = choose|i: int| is_first_key(set, key, i);
        lemma_first_key_unique(set, key, c, d);
    } else {
        let n = members.len() as int;
        assert forall|j: int| 0 <= j < n implies members[j].0 != key by {
            if members[j].0 == key {
                lemma_first_key_exists(members, key, j);
            }
        }
        assert(is_first_key(set, key, n));
        let d = choose|i: int| is_first_key(set, key, i);
        lemma_first_key_unique(set, key, n, d);
    }
}

/// Setting member `key` leaves every other member as it was.
pub proof fn lemma_member_value_after_set_other(
    members: Seq<(Seq<char>, JsonValue)>,
    key: Seq<char>,
    value: JsonValue,
    other: Seq<char>,
)
    requires
        other != key,
    ensures
        member_value(with_member(members, key, value), other) == member_value(members, other),
{
    let set = with_member(members, key, value);
    assert forall|i: int| is_first_key(set, other, i) <==> is_first_key(members, other, i) by {
        if 0 <= i < members.len() {
            assert((forall|j: int| 0 <= j < i ==> set[j].0 != other) <==> (forall|j: int|
                0 <= j < i ==> members[j].0 != other)) by {
                assert forall|j: int| 0 <= j < i implies (set[j].0 == other <==> members[j].0
                    == other) by {}
            }
        }
    }
    if exists|i: int| is_first_key(members, other, i) {
        let c = choose|i: int| is_first_key(members, other, i);
        let d = choose|i: int| is_first_key(set, other, i);
        lemma_first_key_unique(set, other, c, d);
    }
}

/// No two members of an object share a key, as in a parsed serde_json map.
/// The library does not rely on it: lookups take the first member named
/// a key, which is the only one when keys are distinct.
pub open spec fn keys_distinct(members: Seq<(Seq<char>, JsonValue)>) -> bool {
    forall|i: int, j: int| 0 <= i < j < members.len() ==> members[i].0 != members[j].0
}

/// With distinct keys, the member named `key` is the first one so named.
pub proof fn lemma_distinct_key_is_first(
    members: Seq<(Seq<char>, JsonValue)>,
    key: Seq<char>,
    i: int,
)
    requires
        keys_distinct(members),
        0 <= i < members.len(),
        members[i].0 == key,
    ensures
        is_first_key(members, key, i),
        member_value(members, key) == Some(members[i].1),
{
    let c = choose|c: int| is_first_key(members, key, c);
    lemma_first_key_unique(members, key, i, c);
}

/// Setting a member keeps the keys of an object distinct.
pub proof fn lemma_with_member_keeps_keys_distinct(
    members: Seq<(Seq<char>, JsonValue)>,
    key: Seq<char>,
    value: JsonValue,
)
    requires
        keys_distinct(members),
    ensures
        keys_distinct(with_member(members, key, value)),
{
    let set = with_member(members, key, value);
    if exists|i: int| is_first_key(members, key, i) {
        let c = choose|i: int| is_first_key(members, key, i);
        assert forall|i: int, j: int| 0 <= i < j < set.len() implies set[i].0 != set[j].0 by {
            if i != c && j != c {
                assert(set[i] == members[i] && set[j] == members[j]);
            }
        }
    } else {
        assert forall|i: int, j: int| 0 <= i < j < set.len() implies set[i].0 != set[j].0 by {
            if j == members.len() {
                if members[i].0 == key {
                    lemma_first_key_exists(members, key, i);
                }
            }
        }
    }
}

/// Sets member `key` of an object to `value`, as an insertion-ordered map
/// does: in place when the key is present, appended otherwise.
pub fn set_member(members: &mut Vec<JsonMember>, key: String, value: Json)
    ensures
        members_of(final(members)@) == with_member(members_of(old(members)@), key@, value@),
        keys_distinct(members_of(old(members)@)) ==> keys_distinct(members_of(final(members)@)),
{
    proof {
        if keys_distinct(members_of(members@)) {
            lemma_with_member_keeps_keys_distinct(members_of(members@), key@, value@);
        }
    }
    let ghost m = members_of(members@);
    let mut i: usize = 0;
    while i < members.len()
        invariant
            m == members_of(members@),
            members@ == old(members)@,
            i <= members@.len(),
            forall|j: int| 0 <= j < i ==> m[j].0 != key@,
        decreases members@.len() - i,
    {
        if str_eq(members[i].key.as_str(), key.as_str()) {
            proof {
                assert(is_first_key(m, key@, i as int));
                let c = choose|c: int| is_first_key(m, key@, c);
                lemma_first_key_unique(m, key@, i as int, c);
            }
            let ghost kv = key@;
            let ghost vv = value@;
            members.set(i, JsonMember { key, value });
            proof {
                assert(members_of(members@) =~= m.update(i as int, (kv, vv)));
            }
            return;
        }
        i = i + 1;
    }
    let ghost kv = key@;
    let ghost vv = value@;
    members.push(JsonMember { key, value });
    proof {
        assert(members_of(members@) =~= m.push((kv, vv)));
    }
}

/// `get` applied to an optional value.
pub open spec fn get_in(v: Option<JsonValue>, key: Seq<char>) -> Option<JsonValue> {
    match v {
        Some(v) => v.get(key),
        None => None,
    }
}

/// `as_str` applied to an optional value.
pub open spec fn str_in(v: Option<JsonValue>) -> Option<Seq<char>> {
    match v {
        Some(v) => v.as_str(),
        None => None,
    }
}

/// `as_array` applied to an optional value.
pub open spec fn array_in(v: Option<JsonValue>) -> Option<Seq<JsonValue>> {
    match v {
        Some(v) => v.as_array(),
        None => None,
    }
}

/// `as_u64` applied to an optional value.
pub open spec fn u64_in(v: Option<JsonValue>) -> Option<u64> {
    match v {
        Some(v) => v.as_u64(),
        None => None,
    }
}

/// The text of an optional string, or `default` when there is none.
pub open spec fn text_or(s: Option<Seq<char>>, default: Seq<char>) -> Seq<char> {
    match s {
        Some(s) => s,
        None => default,
    }
}

/// The text of member `key` when it is a string, or `default` otherwise.
pub fn str_member_or(value: &Json, key: &str, default: &str) -> (s: String)
    ensures
        s@ == text_or(str_in(value@.get(key@)), default@),
{
    match value.get(key) {
        Some(v) => match v.as_str() {
            Some(t) => t.clone(),
            None => String::from_str(default),
        },
        None => String::from_str(default),
    }
}

/// Whether two strings are equal, compared through their UTF-8 bytes.
pub fn str_eq(a: &str, b: &str) -> (res: bool)
    ensures
        res == (a@ == b@),
{
    let x = a.as_bytes();
    let y = b.as_bytes();
    if x.len() != y.len() {
        return false;
    }
    let mut i: usize = 0;
    while i < x.len()
        invariant
            x@ == a.spec_bytes(),
            y@ == b.spec_bytes(),
            x@.len() == y@.len(),
            i <= x@.len(),
            forall|j: int| 0 <= j < i ==> x@[j] == y@[j],
        decreases x@.len() - i,
    {
        if x[i] != y[i] {
            return false;
        }
        i = i + 1;
    }
    proof {
        assert(x@ =~= y@);
        vstd::utf8::encode_utf8_decode_utf8(a@);
        vstd::utf8::encode_utf8_decode_utf8(b@);
    }
    true
}

impl Json {
    /// The value of member `key` when this is an object.
    pub fn get(&self, key: &str) -> (res: Option<&Json>)
        ensures
            match res {
                Some(r) => self@.get(key@) == Some(r@),
                None => self@.get(key@) is None,
            },
    {
        match self {
            Json::Object(members) => {
                proof {
                    lemma_object_value(*members);
                }
                let ghost m = members_of(members@);
                let mut i: usize = 0;
                while i < members.len()
                    invariant
                        m == members_of(members@),
                        self@ == JsonValue::Object(m),
                        i <= members@.len(),
                        forall|j: int| 0 <= j < i ==> m[j].0 != key@,
                    decreases members@.len() - i,
                {
                    if str_eq(members[i].key.as_str(), key) {
                        assert(is_first_key(m, key@, i as int));
                        proof {
                            let c = choose|c: int| is_first_key(m, key@, c);
                            lemma_first_key_unique(m, key@, i as int, c);
                        }
                        return Some(&members[i].value);
                    }
                    i = i + 1;
                }
                None
            },
            _ => None,
        }
    }

    pub fn as_str(&self) -> (res: Option<&String>)
        ensures
            match res {
                Some(s) => self@.as_str() == Some(s@),
                None => self@.as_str() is None,
            },
    {
        match self {
            Json::Str(s) => Some(s),
            _ => None,
        }
    }

    pub fn as_array(&self) -> (res: Option<&Vec<Json>>)
        ensures
            match res {
                Some(a) => self@.as_array() == Some(values_of(a@)),
                None => self@.as_array() is None,
            },
    {
        match self {
            Json::Array(items) => {
                proof {
                    lemma_array_value(*items);
                }
                Some(items)
            },
            _ => None,
        }
    }

    pub fn as_u64(&self) -> (res: Option<u64>)
        ensures
            res == self@.as_u64(),
    {
        match self {
            Json::Number(n) => n.unsigned,
            _ => None,
        }
    }

    pub fn as_f64_bits(&self) -> (res: Option<u64>)
        ensures
            res == self@.as_f64_bits(),
    {
        match self {
            Json::Number(n) => Some(n.f64_bits),
            _ => None,
        }
    }
}

} // verus!
