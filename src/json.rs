//! A parsed record: a tree of null, boolean, number, string, array and object nodes.
use vstd::prelude::*;

verus! {

#[verifier::external_type_specification]
#[verifier::external_body]
pub struct ExValue(serde_json::Value);

/// One node of a parsed record.
///
/// A number keeps its source text: nothing here computes with numbers.
/// An object's members are kept in order; lookup takes the last member of a name.
pub enum Json {
    Null,
    Bool(bool),
    Number(String),
    Str(String),
    Array(Vec<Json>),
    Object(Vec<(String, Json)>),
}

/// The value of the last member named `key` among `members`.
pub open spec fn lookup(members: Seq<(String, Json)>, key: Seq<char>) -> Option<Json>
    decreases members.len(),
{
    if members.len() == 0 {
        None
    } else if members.last().0@ == key {
        Some(members.last().1)
    } else {
        lookup(members.drop_last(), key)
    }
}

/// The member `key` of `j`, when `j` is an object that has one.
pub open spec fn member(j: Json, key: Seq<char>) -> Option<Json> {
    match j {
        Json::Object(members) => lookup(members@, key),
        _ => None,
    }
}

/// The text of member `key` of `j`, when it is a string.
pub open spec fn str_member(j: Json, key: Seq<char>) -> Option<Seq<char>> {
    match member(j, key) {
        Some(Json::Str(s)) => Some(s@),
        _ => None,
    }
}

/// The record that a line of text holds, when it is valid JSON.
pub uninterp spec fn parsed_json(line: Seq<char>) -> Option<Json>;

/// What one line of input turned out to be.
pub enum Line {
    /// A record.
    Record(Json),
    /// Whitespace only: skipped without a diagnostic.
    Blank,
    /// Anything else: skipped with a diagnostic.
    Invalid,
}

pub open spec fn is_json_whitespace(c: char) -> bool {
    c == ' ' || c == '\t' || c == '\n' || c == '\r' || c == '\x0c'
}

pub open spec fn is_blank(s: Seq<char>) -> bool {
    forall|i: int| 0 <= i < s.len() ==> is_json_whitespace(#[trigger] s[i])
}

impl Json {
    /// The member `key` of this node (the last one of that name), if it is an object.
    pub fn get(&self, key: &str) -> (r: Option<&Json>)
        ensures
            r is Some ==> member(*self, key@) == Some(*r->0),
            r is None ==> member(*self, key@) is None,
    {
        match self {
            Json::Object(members) => {
                assert(member(*self, key@) == lookup(members@, key@));
                let key_string = String::from_str(key);
                let mut i: usize = members.len();
                assert(members@.take(i as int) =~= members@);
                while i > 0
                    invariant
                        i <= members@.len(),
                        key_string@ == key@,
                        member(*self, key@) == lookup(members@, key@),
                        lookup(members@, key@) == lookup(members@.take(i as int), key@),
                    decreases i,
                {
                    assert(members@.take(i as int).drop_last() =~= members@.take(i - 1));
                    let m = &members[i - 1];
                    if m.0 == key_string {
                        assert(members@.take(i as int).last() == *m);
                        assert(lookup(members@.take(i as int), key@) == Some(m.1));
                        return Some(&m.1);
                    }
                    i = i - 1;
                }
                assert(members@.take(0) =~= Seq::<(String, Json)>::empty());
                None
            },
            _ => None,
        }
    }

    /// The text of the member `key` of this node, if it is a string.
    pub fn get_str(&self, key: &str) -> (r: Option<&String>)
        ensures
            r is Some ==> str_member(*self, key@) == Some(r->0@),
            r is None ==> str_member(*self, key@) is None,
    {
        match self.get(key) {
            Some(Json::Str(s)) => Some(s),
            _ => None,
        }
    }
}

/// Relies on serde_json::from_str: the value parsed from `s`, which depends on `s` alone.
#[verifier::external_body]
fn parse_json(s: &str) -> (r: Option<Json>)
    ensures
        r == parsed_json(s@),
{
    serde_json::from_str::<serde_json::Value>(s).ok().map(from_value)
}

/// Relies on serde_json's `Value` variants, `Number`'s text and `Map`'s members.
#[verifier::external_body]
fn from_value(v: serde_json::Value) -> Json {
    match v {
        serde_json::Value::Null => Json::Null,
        serde_json::Value::Bool(b) => Json::Bool(b),
        serde_json::Value::Number(n) => Json::Number(n.to_string()),
        serde_json::Value::String(s) => Json::Str(s),
        serde_json::Value::Array(a) => Json::Array(a.into_iter().map(from_value).collect()),
        serde_json::Value::Object(m) => Json::Object(m.into_iter().map(|(k, v)| (k, from_value(v))).collect()),
    }
}

/// Whether every character of `s` is JSON whitespace.
pub fn blank(s: &str) -> (r: bool)
    ensures
        r == is_blank(s@),
{
    let n = s.unicode_len();
    let mut i: usize = 0;
    while i < n
        invariant
            n == s@.len(),
            i <= n,
            forall|j: int| 0 <= j < i ==> is_json_whitespace(#[trigger] s@[j]),
        decreases n - i,
    {
        let c = s.get_char(i);
        if !(c == ' ' || c == '\t' || c == '\n' || c == '\r' || c == '\x0c') {
            return false;
        }
        i = i + 1;
    }
    true
}

/// Classifies one line of input: a record, a blank line, or an invalid one.
pub fn parse_line(s: &str) -> (r: Line)
    ensures
        parsed_json(s@) matches Some(j) ==> r == Line::Record(j),
        parsed_json(s@) is None && is_blank(s@) ==> r is Blank,
        parsed_json(s@) is None && !is_blank(s@) ==> r is Invalid,
{
    match parse_json(s) {
        Some(j) => Line::Record(j),
        None => if blank(s) {
            Line::Blank
        } else {
            Line::Invalid
        },
    }
}

} // verus!
