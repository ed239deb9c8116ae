//! What the diagnostic log records: levels, the cleaning of every value that
//! reaches a log line, the log line itself, and where the logs live.

use crate::text::{lower_all, lowercase, alnum, chars_of, is_alnum, is_space, lead_ws, lower, push_char, space, str_eq, string_of_range, to_lower, trim, trimmed};
use crate::rich_text::{jms, jv, jvs, Json, JsonView, Member};
use vstd::prelude::*;

verus! {

/// How much is logged, from the least to the most.
#[derive(Clone, Copy, Debug, PartialEq, Eq, Structural)]
pub enum Level {
    Error,
    Warn,
    Info,
    Debug,
    Trace,
}

impl Level {
    pub open spec fn name(self) -> Seq<char> {
        match self {
            Level::Error => "ERROR"@,
            Level::Warn => "WARN"@,
            Level::Info => "INFO"@,
            Level::Debug => "DEBUG"@,
            Level::Trace => "TRACE"@,
        }
    }

    pub open spec fn rank_spec(self) -> u8 {
        match self {
            Level::Error => 1,
            Level::Warn => 2,
            Level::Info => 3,
            Level::Debug => 4,
            Level::Trace => 5,
        }
    }

    /// The name written in a log line.
    pub fn as_str(self) -> (s: &'static str)
        ensures
            s@ == self.name(),
    {
        match self {
            Level::Error => "ERROR",
            Level::Warn => "WARN",
            Level::Info => "INFO",
            Level::Debug => "DEBUG",
            Level::Trace => "TRACE",
        }
    }

    /// The verbosity of the level, from 1 for errors to 5 for traces.
    pub fn rank(self) -> (r: u8)
        ensures
            r == self.rank_spec(),
    {
        match self {
            Level::Error => 1,
            Level::Warn => 2,
            Level::Info => 3,
            Level::Debug => 4,
            Level::Trace => 5,
        }
    }

    /// A record at this level is written when the logger is set to `threshold`
    /// or a more verbose level.
    pub fn enabled(self, threshold: Level) -> (b: bool)
        ensures
            b == (self.rank_spec() <= threshold.rank_spec()),
    {
        self.rank() <= threshold.rank()
    }
}

/// The level named by `value`, trimmed and in any ASCII case.
pub open spec fn level_named(value: Seq<char>) -> Option<Level> {
    let v = lower_all(trim(value));
    if v == "error"@ {
        Some(Level::Error)
    } else if v == "warn"@ {
        Some(Level::Warn)
    } else if v == "info"@ {
        Some(Level::Info)
    } else if v == "debug"@ {
        Some(Level::Debug)
    } else if v == "trace"@ {
        Some(Level::Trace)
    } else {
        None
    }
}

pub open spec fn level_error() -> Seq<char> {
    "日志级别必须是 error、warn、info、debug 或 trace"@
}

/// Reads a level name, as the settings and the front end give it.
pub fn parse_level(value: &str) -> (r: Result<Level, String>)
    ensures
        match level_named(value@) {
            Some(l) => r == Ok::<Level, String>(l),
            None => r matches Err(m) && m@ == level_error(),
        },
{
    let t = trimmed(value);
    let v = lowercase(t.as_str());
    if str_eq(v.as_str(), "error") {
        Ok(Level::Error)
    } else if str_eq(v.as_str(), "warn") {
        Ok(Level::Warn)
    } else if str_eq(v.as_str(), "info") {
        Ok(Level::Info)
    } else if str_eq(v.as_str(), "debug") {
        Ok(Level::Debug)
    } else if str_eq(v.as_str(), "trace") {
        Ok(Level::Trace)
    } else {
        Err(crate::text::owned("日志级别必须是 error、warn、info、debug 或 trace"))
    }
}

impl std::str::FromStr for Level {
    type Err = String;

    fn from_str(value: &str) -> (r: Result<Self, Self::Err>)
        ensures
            match level_named(value@) {
                Some(l) => r == Ok::<Level, String>(l),
                None => r matches Err(m) && m@ == level_error(),
            },
    {
        parse_level(value)
    }
}

// ---------------------------------------------------------------------------
// Cleaning what is logged.

/// A character kept in an event name; others become `_`.
pub open spec fn identifier_char(c: char) -> char {
    if is_alnum(c) || c == '_' || c == '-' || c == '.' { c } else { '_' }
}

/// An event name: its first 80 characters, each outside `[A-Za-z0-9_.-]` replaced by `_`.
pub open spec fn clean_identifier_spec(s: Seq<char>) -> Seq<char> {
    s.take(if s.len() < 80 { s.len() as int } else { 80 }).map_values(|c: char| identifier_char(c))
}

/// Reduces an event name to a safe identifier.
pub fn clean_identifier(value: &str) -> (r: String)
    ensures
        r@ == clean_identifier_spec(value@),
{
    let v = chars_of(value);
    let n = if v.len() < 80 { v.len() } else { 80 };
    let mut out = String::new();
    let mut i: usize = 0;
    while i < n
        invariant
            i <= n <= v.len(),
            v@ == value@,
            n == (if v.len() < 80 { v.len() } else { 80 }),
            out@ == v@.take(i as int).map_values(|c: char| identifier_char(c)),
        decreases n - i,
    {
        let c = v[i];
        let k = if alnum(c) || c == '_' || c == '-' || c == '.' { c } else { '_' };
        push_char(&mut out, k);
        i += 1;
        assert(out@ =~= v@.take(i as int).map_values(|c: char| identifier_char(c)));
    }
    assert(v@.take(n as int) =~= value@.take(n as int));
    out
}

/// Line breaks become spaces.
pub open spec fn one_line(s: Seq<char>) -> Seq<char> {
    s.map_values(|c: char| if c == '\r' || c == '\n' { ' ' } else { c })
}

/// A text on one line, cut to `limit` characters with `…` where it was cut.
pub open spec fn clean_text_spec(s: Seq<char>, limit: nat) -> Seq<char> {
    let l = one_line(s);
    if l.len() > limit { l.take(limit as int).push('…') } else { l }
}

/// Puts a text on one line and cuts it to `limit` characters.
pub fn clean_text(value: &str, limit: usize) -> (r: String)
    ensures
        r@ == clean_text_spec(value@, limit as nat),
{
    let v = chars_of(value);
    let n = if v.len() < limit { v.len() } else { limit };
    let mut out = String::new();
    let mut i: usize = 0;
    while i < n
        invariant
            i <= n <= v.len(),
            v@ == value@,
            out@ == one_line(v@.take(i as int)),
        decreases n - i,
    {
        let c = v[i];
        push_char(&mut out, if c == '\r' || c == '\n' { ' ' } else { c });
        i += 1;
        assert(out@ =~= one_line(v@.take(i as int)));
    }
    if v.len() > limit {
        push_char(&mut out, '…');
        assert(out@ =~= one_line(value@).take(limit as int).push('…'));
    } else {
        assert(v@.take(n as int) =~= v@);
    }
    out
}

/// The ASCII letters and digits of `s`, lower-cased.
pub open spec fn key_letters(s: Seq<char>) -> Seq<char> {
    lower_all(s.filter(|c: char| is_alnum(c)))
}

/// A key whose value must never be logged.
pub open spec fn sensitive(key: Seq<char>) -> bool {
    let k = key_letters(key);
    k == "apikey"@ || k == "authorization"@ || k == "password"@ || k == "passwd"@ || k == "token"@
        || k == "accesstoken"@ || k == "refreshtoken"@ || k == "secret"@ || k == "clientsecret"@
}

/// Whether the value under `key` is a credential, whatever the key's case and punctuation.
pub fn is_sensitive_key(key: &str) -> (b: bool)
    ensures
        b == sensitive(key@),
{
    let v = chars_of(key);
    let mut out = String::new();
    let mut i: usize = 0;
    assert(v@.take(0).filter(|c: char| is_alnum(c)) =~= Seq::<char>::empty()) by {
        reveal(Seq::filter);
    }
    while i < v.len()
        invariant
            i <= v.len(),
            v@ == key@,
            out@ == lower_all(v@.take(i as int).filter(|c: char| is_alnum(c))),
        decreases v.len() - i,
    {
        let c = v[i];
        let ghost t = v@.take(i + 1);
        proof {
            assert(t.drop_last() =~= v@.take(i as int));
            reveal(Seq::filter);
        }
        if alnum(c) {
            push_char(&mut out, to_lower(c));
            assert(t.filter(|c: char| is_alnum(c)) == v@.take(i as int).filter(|c: char| is_alnum(c)).push(c));
        } else {
            assert(t.filter(|c: char| is_alnum(c)) == v@.take(i as int).filter(|c: char| is_alnum(c)));
        }
        i += 1;
        assert(out@ =~= lower_all(v@.take(i as int).filter(|c: char| is_alnum(c))));
    }
    assert(v@.take(v.len() as int) =~= v@);
    let k = out.as_str();
    str_eq(k, "apikey") || str_eq(k, "authorization") || str_eq(k, "password") || str_eq(k, "passwd")
        || str_eq(k, "token") || str_eq(k, "accesstoken") || str_eq(k, "refreshtoken") || str_eq(k, "secret")
        || str_eq(k, "clientsecret")
}

/// The first position of `c` in `s`, if any.
pub open spec fn first_of(s: Seq<char>, c: char) -> Option<int> {
    if exists|i: int| 0 <= i < s.len() && s[i] == c {
        Some(choose|i: int| 0 <= i < s.len() && s[i] == c && forall|j: int| 0 <= j < i ==> s[j] != c)
    } else {
        None
    }
}

/// An error message as logged: an HTTP status line without the response body
/// that follows its colon, or the message put on one line and cut to 400
/// characters.
pub open spec fn clean_error_spec(s: Seq<char>) -> Seq<char> {
    let t = s.skip(lead_ws(s) as int);
    if t.len() >= 5 && t.take(5) == "HTTP "@ {
        match first_of(t, ':') {
            Some(i) => t.take(i),
            None => t,
        }
    } else {
        clean_text_spec(t, 400)
    }
}

/// Strips what an error message may echo of the translated text.
pub fn clean_error(value: &str) -> (r: String)
    ensures
        r@ == clean_error_spec(value@),
{
    let v = chars_of(value);
    let mut i: usize = 0;
    while i < v.len() && space(v[i])
        invariant
            i <= v.len(),
            v@ == value@,
            forall|j: int| 0 <= j < i ==> is_space(#[trigger] v@[j]),
        decreases v.len() - i,
    {
        i += 1;
    }
    proof {
        crate::text::lemma_lead_ws(v@, i as int);
    }
    let rest = string_of_range(&v, i, v.len());
    let ghost t = value@.skip(i as int);
    assert(rest@ =~= t);
    if crate::text::str_starts_with(rest.as_str(), "HTTP ") {
        proof {
            reveal_strlit("HTTP ");
        }
        let r = chars_of(rest.as_str());
        let mut k: usize = 0;
        while k < r.len() && r[k] != ':'
            invariant
                k <= r.len(),
                r@ == t,
                forall|j: int| 0 <= j < k ==> r@[j] != ':',
            decreases r.len() - k,
        {
            k += 1;
        }
        if k < r.len() {
            proof {
                let w = choose|x: int| 0 <= x < t.len() && t[x] == ':' && forall|j: int| 0 <= j < x ==> t[j] != ':';
                assert(0 <= k < t.len() && t[k as int] == ':' && forall|j: int| 0 <= j < k ==> t[j] != ':');
                assert(w == k) by {
                    if w < k {
                        assert(t[w] != ':');
                    } else if w > k {
                        assert(t[k as int] != ':');
                    }
                }
            }
            string_of_range(&r, 0, k)
        } else {
            assert(!exists|x: int| 0 <= x < t.len() && t[x] == ':');
            rest
        }
    } else {
        proof {
            reveal_strlit("HTTP ");
        }
        clean_text(rest.as_str(), 400)
    }
}


// ---------------------------------------------------------------------------
// Where the logs live.

/// An absolute path in normal form: `/`-separated, with no empty, `.` or `..`
/// component and no trailing separator.
pub open spec fn normal_path(p: Seq<char>) -> bool {
    &&& p.len() > 0
    &&& p[0] == '/'
    &&& p.len() > 1 ==> p.last() != '/'
    &&& forall|i: int| 0 <= i < p.len() - 1 && #[trigger] p[i] == '/' ==> p[i + 1] != '/'
    &&& forall|i: int| 0 <= i < p.len() - 1 && #[trigger] p[i] == '/' && p[i + 1] == '.' ==> i + 2 < p.len() && p[i + 2]
        != '/' && p[i + 2] != '.'
}

/// The last position of `c` in `s[..e]`.
pub open spec fn last_in(s: Seq<char>, e: int, c: char) -> Option<int>
    decreases e,
{
    if e <= 0 {
        None
    } else if s[e - 1] == c {
        Some(e - 1)
    } else {
        last_in(s, e - 1, c)
    }
}

/// Where the parent of the path `p[..e]` ends, if it has one.
pub open spec fn parent_end(p: Seq<char>, e: int) -> Option<int> {
    if e <= 1 {
        None
    } else {
        match last_in(p, e, '/') {
            Some(i) => if i == 0 { Some(1int) } else { Some(i) },
            None => None,
        }
    }
}

/// The path `p[..e]` names a file with the extension `app`, in any ASCII case.
pub open spec fn is_bundle(p: Seq<char>, e: int) -> bool {
    match last_in(p, e, '/') {
        Some(slash) => match last_in(p, e, '.') {
            Some(dot) => dot > slash + 1 && lower_all(p.subrange(dot + 1, e)) == "app"@,
            None => false,
        },
        None => false,
    }
}

/// The first of `p[..e]` and its ancestors that is an application bundle.
pub open spec fn bundle_from(p: Seq<char>, e: int) -> Option<int>
    decreases e,
{
    if e <= 0 {
        None
    } else if is_bundle(p, e) {
        Some(e)
    } else {
        match parent_end(p, e) {
            Some(q) => if 0 <= q < e { bundle_from(p, q) } else { None },
            None => None,
        }
    }
}

/// The directory that holds the application: on macOS the one holding its
/// `.app` bundle, elsewhere the one holding the executable.
pub open spec fn application_directory_spec(p: Seq<char>, macos: bool) -> Result<Seq<char>, Seq<char>> {
    if macos && bundle_from(p, p.len() as int) is Some {
        match parent_end(p, bundle_from(p, p.len() as int)->0) {
            Some(q) => Ok(p.take(q)),
            None => Err("无法确定 .app 所在目录"@),
        }
    } else {
        match parent_end(p, p.len() as int) {
            Some(q) => Ok(p.take(q)),
            None => Err("无法确定应用程序所在目录"@),
        }
    }
}

proof fn lemma_last_in(s: Seq<char>, e: int, c: char)
    requires
        e <= s.len(),
    ensures
        last_in(s, e, c) matches Some(i) ==> 0 <= i < e && s[i] == c,
        last_in(s, e, c) is None ==> forall|j: int| 0 <= j < e ==> s[j] != c,
        last_in(s, e, c) matches Some(i) ==> forall|j: int| i < j < e ==> s[j] != c,
    decreases e,
{
    if e > 0 {
        lemma_last_in(s, e - 1, c);
    }
}

fn last_in_exec(v: &Vec<char>, e: usize, c: char) -> (r: Option<usize>)
    requires
        e <= v.len(),
    ensures
        match r {
            Some(i) => last_in(v@, e as int, c) == Some(i as int),
            None => last_in(v@, e as int, c) is None,
        },
{
    proof {
        lemma_last_in(v@, e as int, c);
    }
    let mut k = e;
    while k > 0
        invariant
            k <= e <= v.len(),
            last_in(v@, e as int, c) == last_in(v@, k as int, c),
        decreases k,
    {
        if v[k - 1] == c {
            return Some(k - 1);
        }
        k -= 1;
    }
    None
}

fn parent_end_exec(v: &Vec<char>, e: usize) -> (r: Option<usize>)
    requires
        e <= v.len(),
    ensures
        match r {
            Some(q) => parent_end(v@, e as int) == Some(q as int) && q < e,
            None => parent_end(v@, e as int) is None,
        },
{
    proof {
        lemma_last_in(v@, e as int, '/');
    }
    if e <= 1 {
        return None;
    }
    match last_in_exec(v, e, '/') {
        Some(0) => Some(1),
        Some(i) => Some(i),
        None => None,
    }
}

fn is_bundle_exec(v: &Vec<char>, e: usize) -> (b: bool)
    requires
        e <= v.len(),
    ensures
        b == is_bundle(v@, e as int),
{
    proof {
        lemma_last_in(v@, e as int, '/');
        lemma_last_in(v@, e as int, '.');
    }
    match last_in_exec(v, e, '/') {
        None => false,
        Some(slash) => match last_in_exec(v, e, '.') {
            None => false,
            Some(dot) => {
                if dot > slash + 1 {
                    let ext = string_of_range(v, dot + 1, e);
                    let low = lowercase(ext.as_str());
                    str_eq(low.as_str(), "app")
                } else {
                    false
                }
            },
        },
    }
}

/// The directory that holds the application whose executable is `executable`.
pub fn application_directory(executable: &str, macos: bool) -> (r: Result<String, String>)
    requires
        normal_path(executable@),
    ensures
        match application_directory_spec(executable@, macos) {
            Ok(d) => r matches Ok(s) && s@ == d,
            Err(m) => r matches Err(s) && s@ == m,
        },
{
    let v = chars_of(executable);
    let ghost p = v@;
    if macos {
        let mut e = v.len();
        let mut found = false;
        while e > 0 && !found
            invariant
                e <= v.len(),
                p == v@,
                !found ==> bundle_from(p, p.len() as int) == bundle_from(p, e as int),
                found ==> bundle_from(p, p.len() as int) == Some(e as int),
            decreases e, if found { 0int } else { 1int },
        {
            if is_bundle_exec(&v, e) {
                found = true;
            } else {
                match parent_end_exec(&v, e) {
                    Some(q) => {
                        e = q;
                    },
                    None => {
                        e = 0;
                    },
                }
            }
        }
        if found {
            return match parent_end_exec(&v, e) {
                Some(q) => {
                    assert(p.subrange(0, q as int) =~= p.take(q as int));
                    Ok(string_of_range(&v, 0, q))
                },
                None => Err(crate::text::owned("无法确定 .app 所在目录")),
            };
        }
    }
    match parent_end_exec(&v, v.len()) {
        Some(q) => {
            assert(p.subrange(0, q as int) =~= p.take(q as int));
            Ok(string_of_range(&v, 0, q))
        },
        None => Err(crate::text::owned("无法确定应用程序所在目录")),
    }
}


// ---------------------------------------------------------------------------
// Cleaning the structured context of a log line.

/// The context of a log line as it is written: credentials redacted, error
/// messages stripped, texts on one line and cut, arrays cut to 50 items, and
/// anything nested deeper than five levels replaced.
pub open spec fn cleaned(j: JsonView, depth: nat) -> JsonView
    decreases j, 1int,
{
    if depth > 5 {
        JsonView::Str("[TRUNCATED]"@)
    } else {
        match j {
            JsonView::Object(ms) => JsonView::Object(cleaned_members(ms, depth)),
            JsonView::Array(vs) => JsonView::Array(cleaned_items(vs, depth, if vs.len() < 50 { vs.len() as int } else { 50 })),
            JsonView::Str(s) => JsonView::Str(clean_text_spec(s, 800)),
            other => other,
        }
    }
}

/// The first `n` items, cleaned.
pub open spec fn cleaned_items(vs: Seq<JsonView>, depth: nat, n: int) -> Seq<JsonView>
    decreases vs, n,
{
    if n <= 0 || n > vs.len() {
        Seq::empty()
    } else {
        cleaned_items(vs, depth, n - 1).push(cleaned(vs[n - 1], depth + 1))
    }
}

pub open spec fn cleaned_members(ms: Seq<(Seq<char>, JsonView)>, depth: nat) -> Seq<(Seq<char>, JsonView)>
    decreases ms, 0int,
{
    if ms.len() == 0 {
        Seq::empty()
    } else {
        let k = ms.last().0;
        let v = ms.last().1;
        cleaned_members(ms.drop_last(), depth).push((k, if sensitive(k) {
            JsonView::Str("[REDACTED]"@)
        } else if lower_all(k) == "error"@ {
            match v {
                JsonView::Str(e) => JsonView::Str(clean_error_spec(e)),
                _ => cleaned(v, depth + 1),
            }
        } else {
            cleaned(v, depth + 1)
        }))
    }
}

fn clean_items(v: &Vec<Json>, depth: usize) -> (out: Vec<Json>)
    requires
        depth <= 5,
    ensures
        jvs(out@) == cleaned_items(jvs(v@), depth as nat, if v@.len() < 50 { v@.len() as int } else { 50 }),
    decreases v@, 2int,
{
    let n = if v.len() < 50 { v.len() } else { 50 };
    let ghost all = jvs(v@);
    proof {
        crate::rich_text::lemma_jvs(v@);
    }
    let mut out: Vec<Json> = Vec::new();
    let mut i: usize = 0;
    while i < n
        invariant
            i <= n <= v.len(),
            depth <= 5,
            all == jvs(v@),
            all.len() == v@.len(),
            forall|k: int| 0 <= k < v@.len() ==> #[trigger] all[k] == jv(v@[k]),
            jvs(out@) == cleaned_items(all, depth as nat, i as int),
        decreases n - i,
    {
        let c = clean_json(&v[i], depth + 1);
        let ghost before = out@;
        out.push(c);
        proof {
            assert(out@.drop_last() =~= before);
            assert(all[i as int] == jv(v@[i as int]));
        }
        i += 1;
    }
    out
}

fn clean_members(o: &Vec<Member>, depth: usize) -> (out: Vec<Member>)
    requires
        depth <= 5,
    ensures
        jms(out@) == cleaned_members(jms(o@), depth as nat),
    decreases o@, 2int,
{
    let ghost all = jms(o@);
    proof {
        crate::rich_text::lemma_jms(o@);
    }
    let mut out: Vec<Member> = Vec::new();
    let mut i: usize = 0;
    while i < o.len()
        invariant
            i <= o.len(),
            depth <= 5,
            all == jms(o@),
            all.len() == o@.len(),
            forall|k: int| 0 <= k < o@.len() ==> #[trigger] all[k] == (o@[k].key@, jv(o@[k].value)),
            jms(out@) == cleaned_members(all.take(i as int), depth as nat),
        decreases o.len() - i,
    {
        let key = o[i].key.as_str();
        let ghost k = o@[i as int].key@;
        let ghost vv = jv(o@[i as int].value);
        let value = if is_sensitive_key(key) {
            Json::Str(crate::text::owned("[REDACTED]"))
        } else if str_eq(lowercase(key).as_str(), "error") {
            match &o[i].value {
                Json::Str(e) => {
                    assert(vv == JsonView::Str(e@));
                    Json::Str(clean_error(e.as_str()))
                },
                other => {
                    assert(!(vv is Str));
                    clean_json(other, depth + 1)
                },
            }
        } else {
            clean_json(&o[i].value, depth + 1)
        };
        let ghost expected = if sensitive(k) {
            JsonView::Str("[REDACTED]"@)
        } else if lower_all(k) == "error"@ {
            match vv {
                JsonView::Str(e) => JsonView::Str(clean_error_spec(e)),
                _ => cleaned(vv, (depth + 1) as nat),
            }
        } else {
            cleaned(vv, (depth + 1) as nat)
        };
        assert(jv(value) == expected);
        let ghost before = out@;
        let ghost before_view = jms(out@);
        out.push(Member { key: o[i].key.clone(), value });
        proof {
            assert(out@.drop_last() =~= before);
            assert(jms(out@) == before_view.push((k, expected)));
            let t = all.take(i + 1);
            assert(t.drop_last() =~= all.take(i as int));
            assert(t.last() == (k, vv));
            assert(cleaned_members(t, depth as nat) == cleaned_members(all.take(i as int), depth as nat).push((k, expected)));
        }
        i += 1;
    }
    assert(all.take(o.len() as int) =~= all);
    out
}

/// Cleans the context of a log line, `depth` levels down.
pub fn clean_json(value: &Json, depth: usize) -> (r: Json)
    ensures
        jv(r) == cleaned(jv(*value), depth as nat),
    decreases *value, 3int,
{
    if depth > 5 {
        return Json::Str(crate::text::owned("[TRUNCATED]"));
    }
    match value {
        Json::Object(o) => Json::Object(clean_members(o, depth)),
        Json::Array(v) => {
            proof {
                crate::rich_text::lemma_jvs(v@);
            }
            Json::Array(clean_items(v, depth))
        },
        Json::Str(s) => Json::Str(clean_text(s.as_str(), 800)),
        other => crate::rich_text::copy_json(other),
    }
}

/// Cleans the context of a log line (`clean_value` at the top level).
pub fn clean_value(value: &Json) -> (r: Json)
    ensures
        jv(r) == cleaned(jv(*value), 0),
{
    clean_json(value, 0)
}

} // verus!
