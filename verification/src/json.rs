//! JSON strings, as serde_json writes and reads them.

use vstd::prelude::*;

verus! {

/// The JSON string literal that serde_json writes for `s`.
pub uninterp spec fn json_quoted(s: Seq<char>) -> Seq<char>;

/// What serde_json's writer does for `s` when it writes the literal `q`: the
/// literal is quoted, holds no line break (control characters are escaped),
/// and its reader gives `s` back, alone or as the first value of a stream,
/// whatever follows the closing quote.
pub open spec fn written_readably(s: Seq<char>, q: Seq<char>) -> bool {
    &&& q.len() >= 2 && q[0] == '"' && q[q.len() - 1] == '"'
    &&& forall|i: int| 0 <= i < q.len() ==> q[i] != '\n' && q[i] != '\r'
    &&& json_string_read(q) == Ok::<Seq<char>, Seq<char>>(s)
    &&& forall|rest: Seq<char>| #[trigger] json_leading_string(q + rest) == Some(Ok::<(Seq<char>, Seq<char>), Seq<char>>((s, rest)))
}

/// The literal that serde_json writes for `s` reads back as `s`.
pub open spec fn reads_back(s: Seq<char>) -> bool {
    written_readably(s, json_quoted(s))
}

/// `serde_json::to_string` on a string: its JSON literal, quotes included.
/// Serializing a `str` has no error path in serde_json (it writes into a
/// `Vec<u8>`), so the empty string that stands for a failure is never returned.
/// The literal is `"`, the string with `"`, `\\` and the characters below
/// U+0020 escaped, and `"`; `from_str` and a stream deserializer read it back
/// (a stream stops right after a string's closing quote).
#[verifier::external_body]
pub fn quote_json(s: &str) -> (r: String)
    ensures
        r@ == json_quoted(s@),
        written_readably(s@, r@),
{
    match serde_json::to_string(s) {
        Ok(text) => text,
        Err(_) => String::new(),
    }
}

/// What serde_json reads from `raw` as a JSON string: the string, or the text
/// of its error.
pub uninterp spec fn json_string_read(raw: Seq<char>) -> Result<Seq<char>, Seq<char>>;

/// `serde_json::from_str::<String>`: the string that `raw` holds as a JSON
/// literal, or the text of the error.
#[verifier::external_body]
pub fn read_json_string(raw: &str) -> (r: Result<String, String>)
    ensures
        match (r, json_string_read(raw@)) {
            (Ok(s), Ok(t)) => s@ == t,
            (Err(e), Err(t)) => e@ == t,
            _ => false,
        },
{
    match serde_json::from_str::<String>(raw) {
        Ok(value) => Ok(value),
        Err(error) => Err(error.to_string()),
    }
}

/// What a stream of JSON strings yields first from `line`: nothing, the text
/// of an error, or the string together with the text after it.
pub uninterp spec fn json_leading_string(line: Seq<char>) -> Option<Result<(Seq<char>, Seq<char>), Seq<char>>>;

/// `serde_json::Deserializer::from_str(line).into_iter::<String>()`, first
/// item: the string that starts `line` and what follows it (cut at the
/// stream's byte offset), or the text of the error, or nothing when `line`
/// holds no value.
#[verifier::external_body]
pub fn read_leading_json_string(line: &str) -> (r: Option<Result<(String, String), String>>)
    ensures
        match (r, json_leading_string(line@)) {
            (None, None) => true,
            (Some(Ok((s, rest))), Some(Ok((t, u)))) => s@ == t && rest@ == u,
            (Some(Err(e)), Some(Err(t))) => e@ == t,
            _ => false,
        },
{
    let mut stream = serde_json::Deserializer::from_str(line).into_iter::<String>();
    match stream.next() {
        None => None,
        Some(Err(error)) => Some(Err(error.to_string())),
        Some(Ok(value)) => Some(Ok((value, line[stream.byte_offset()..].to_string()))),
    }
}

} // verus!
