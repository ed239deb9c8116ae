//! The language file format (`lang/*.snbt`): a compound of string or
//! string-list values, read by a small recursive-descent parser and written
//! back in one canonical layout.

use crate::text::{
    byte_offset, chars_of, clamped_utf8_len, decimal, is_space, push_char, push_decimal, push_str,
    space, string_of_range,
};
use vstd::prelude::*;

verus! {

/// A language value: one string, or a list of lines.
#[derive(Clone, Debug, PartialEq)]
pub enum LangValue {
    Text(String),
    Lines(Vec<String>),
}

/// The abstract form of a language value.
pub enum LangVal {
    Text(Seq<char>),
    Lines(Seq<Seq<char>>),
}

impl View for LangValue {
    type V = LangVal;

    open spec fn view(&self) -> LangVal {
        match self {
            LangValue::Text(s) => LangVal::Text(s@),
            LangValue::Lines(v) => LangVal::Lines(v@.map_values(|x: String| x@)),
        }
    }
}

/// Keys and values in file order.
pub type LangMap = Vec<(String, LangValue)>;

/// The abstract form of a language map.
pub open spec fn map_view(m: Seq<(String, LangValue)>) -> Seq<(Seq<char>, LangVal)> {
    m.map_values(|e: (String, LangValue)| (e.0@, e.1@))
}

/// Why a text is not a language file.
#[derive(Clone, Copy, Debug, PartialEq, Eq, Structural)]
pub enum ParseIssue {
    /// The character expected at the position before the offset is missing.
    Missing(usize, char),
    UnexpectedEnd,
    NeedQuote,
    IncompleteEscape,
    Unterminated,
    MissingKey,
    BadValue,
}

// ---------------------------------------------------------------------------
// The grammar, stated over character positions.

pub open spec fn is_quote(c: char) -> bool {
    c == '\'' || c == '"'
}

pub open spec fn skip_ws(t: Seq<char>, p: int) -> int
    decreases t.len() - p,
{
    if 0 <= p < t.len() && is_space(t[p]) {
        skip_ws(t, p + 1)
    } else {
        p
    }
}

pub open spec fn line_end(t: Seq<char>, p: int) -> int
    decreases t.len() - p,
{
    if 0 <= p < t.len() && t[p] != '\n' {
        line_end(t, p + 1)
    } else {
        p
    }
}

/// A `//` or `#` comment starts at `p`.
pub open spec fn comment_at(t: Seq<char>, p: int) -> bool {
    (0 <= p && p + 1 < t.len() && t[p] == '/' && t[p + 1] == '/') || (0 <= p < t.len() && t[p]
        == '#')
}

pub proof fn lemma_skip_ws(t: Seq<char>, p: int)
    requires
        0 <= p <= t.len(),
    ensures
        p <= skip_ws(t, p) <= t.len(),
        forall|i: int| p <= i < skip_ws(t, p) ==> is_space(#[trigger] t[i]),
        skip_ws(t, p) < t.len() ==> !is_space(t[skip_ws(t, p)]),
    decreases t.len() - p,
{
    if p < t.len() && is_space(t[p]) {
        lemma_skip_ws(t, p + 1);
    }
}

pub proof fn lemma_line_end(t: Seq<char>, p: int)
    requires
        0 <= p <= t.len(),
    ensures
        p <= line_end(t, p) <= t.len(),
        0 <= p < t.len() && t[p] != '\n' ==> line_end(t, p) > p,
    decreases t.len() - p,
{
    if p < t.len() && t[p] != '\n' {
        lemma_line_end(t, p + 1);
    }
}

/// Skips white space and comments.
pub open spec fn skip(t: Seq<char>, p: int) -> int
    decreases t.len() - p,
{
    if 0 <= p <= t.len() {
        let q = skip_ws(t, p);
        if comment_at(t, q) {
            proof {
                lemma_skip_ws(t, p);
                lemma_line_end(t, q);
            }
            skip(t, line_end(t, q))
        } else {
            q
        }
    } else {
        p
    }
}

pub proof fn lemma_skip(t: Seq<char>, p: int)
    requires
        0 <= p <= t.len(),
    ensures
        p <= skip(t, p) <= t.len(),
        !comment_at(t, skip(t, p)),
        skip(t, p) < t.len() ==> !is_space(t[skip(t, p)]),
    decreases t.len() - p,
{
    let q = skip_ws(t, p);
    lemma_skip_ws(t, p);
    if comment_at(t, q) {
        lemma_line_end(t, q);
        lemma_skip(t, line_end(t, q));
    }
}

pub open spec fn unescape(c: char) -> char {
    if c == 'n' {
        '\n'
    } else if c == 'r' {
        '\r'
    } else if c == 't' {
        '\t'
    } else {
        c
    }
}

/// The body of a string quoted by `q`, from `p` on, after the characters `acc`
/// were read: the text and the position after the closing quote.
pub open spec fn str_body(t: Seq<char>, p: int, q: char, acc: Seq<char>) -> Result<
    (Seq<char>, int),
    ParseIssue,
>
    decreases t.len() - p,
{
    if !(0 <= p < t.len()) {
        Err(ParseIssue::Unterminated)
    } else if t[p] == q {
        Ok((acc, p + 1))
    } else if t[p] == '\\' {
        if p + 1 >= t.len() {
            Err(ParseIssue::IncompleteEscape)
        } else {
            str_body(t, p + 2, q, acc.push(unescape(t[p + 1])))
        }
    } else {
        str_body(t, p + 1, q, acc.push(t[p]))
    }
}

pub proof fn lemma_str_body(t: Seq<char>, p: int, q: char, acc: Seq<char>)
    requires
        0 <= p,
    ensures
        str_body(t, p, q, acc) matches Ok((_, e)) ==> p < e <= t.len(),
        str_body(t, p, q, acc) matches Err(i) ==> !(i is Missing),
    decreases t.len() - p,
{
    if 0 <= p < t.len() && t[p] != q {
        if t[p] == '\\' {
            if p + 1 < t.len() {
                lemma_str_body(t, p + 2, q, acc.push(unescape(t[p + 1])));
            }
        } else {
            lemma_str_body(t, p + 1, q, acc.push(t[p]));
        }
    }
}

/// A quoted string at `p`.
pub open spec fn string_at(t: Seq<char>, p: int) -> Result<(Seq<char>, int), ParseIssue> {
    if !(0 <= p < t.len()) {
        Err(ParseIssue::UnexpectedEnd)
    } else if !is_quote(t[p]) {
        Err(ParseIssue::NeedQuote)
    } else {
        str_body(t, p + 1, t[p], seq![])
    }
}

pub proof fn lemma_string_at(t: Seq<char>, p: int)
    requires
        0 <= p,
    ensures
        string_at(t, p) matches Ok((_, e)) ==> p < e <= t.len(),
        string_at(t, p) matches Err(i) ==> !(i is Missing),
{
    if 0 <= p < t.len() && is_quote(t[p]) {
        lemma_str_body(t, p + 1, t[p], seq![]);
    }
}

pub open spec fn key_end(t: Seq<char>, p: int) -> int
    decreases t.len() - p,
{
    if 0 <= p < t.len() && !is_space(t[p]) && t[p] != ':' {
        key_end(t, p + 1)
    } else {
        p
    }
}

pub proof fn lemma_key_end(t: Seq<char>, p: int)
    requires
        0 <= p <= t.len(),
    ensures
        p <= key_end(t, p) <= t.len(),
    decreases t.len() - p,
{
    if p < t.len() && !is_space(t[p]) && t[p] != ':' {
        lemma_key_end(t, p + 1);
    }
}

/// A key: a quoted string, or the characters up to white space or `:`.
pub open spec fn key_at(t: Seq<char>, p: int) -> Result<(Seq<char>, int), ParseIssue> {
    if 0 <= p < t.len() && is_quote(t[p]) {
        string_at(t, p)
    } else {
        let e = key_end(t, p);
        if e == p {
            Err(ParseIssue::MissingKey)
        } else {
            Ok((t.subrange(p, e), e))
        }
    }
}

pub proof fn lemma_key_at(t: Seq<char>, p: int)
    requires
        0 <= p <= t.len(),
    ensures
        key_at(t, p) matches Ok((_, e)) ==> p < e <= t.len(),
        key_at(t, p) matches Err(i) ==> !(i is Missing),
{
    lemma_string_at(t, p);
    lemma_key_end(t, p);
}

/// Position after an optional `,` at `p`.
pub open spec fn after_comma(t: Seq<char>, p: int) -> int {
    if 0 <= p < t.len() && t[p] == ',' {
        p + 1
    } else {
        p
    }
}

/// The strings of a list, from `p` on, after the lines `acc` were read.
pub open spec fn lines_from(t: Seq<char>, p: int, acc: Seq<Seq<char>>) -> Result<
    (Seq<Seq<char>>, int),
    ParseIssue,
>
    decreases t.len() - p,
{
    if 0 <= p <= t.len() {
        let q = skip(t, p);
        if 0 <= q < t.len() && t[q] == ']' {
            Ok((acc, q + 1))
        } else {
            match string_at(t, q) {
                Err(e) => Err(e),
                Ok((s, r)) => {
                    proof {
                        lemma_skip(t, p);
                        lemma_string_at(t, q);
                        lemma_skip(t, r);
                    }
                    lines_from(t, after_comma(t, skip(t, r)), acc.push(s))
                },
            }
        }
    } else {
        Err(ParseIssue::UnexpectedEnd)
    }
}

/// A value at `p`: a quoted string or a list of quoted strings.
pub open spec fn value_at(t: Seq<char>, p: int) -> Result<(LangVal, int), ParseIssue> {
    if 0 <= p < t.len() && is_quote(t[p]) {
        match string_at(t, p) {
            Ok((s, e)) => Ok((LangVal::Text(s), e)),
            Err(e) => Err(e),
        }
    } else if 0 <= p < t.len() && t[p] == '[' {
        match lines_from(t, p + 1, seq![]) {
            Ok((v, e)) => Ok((LangVal::Lines(v), e)),
            Err(e) => Err(e),
        }
    } else {
        Err(ParseIssue::BadValue)
    }
}

pub proof fn lemma_lines_from(t: Seq<char>, p: int, acc: Seq<Seq<char>>)
    requires
        0 <= p <= t.len(),
    ensures
        lines_from(t, p, acc) matches Ok((_, e)) ==> p < e <= t.len(),
        lines_from(t, p, acc) matches Err(i) ==> !(i is Missing),
    decreases t.len() - p,
{
    let q = skip(t, p);
    lemma_skip(t, p);
    if !(0 <= q < t.len() && t[q] == ']') {
        lemma_string_at(t, q);
        if let Ok((s, r)) = string_at(t, q) {
            lemma_skip(t, r);
            lemma_lines_from(t, after_comma(t, skip(t, r)), acc.push(s));
        }
    }
}

pub proof fn lemma_value_at(t: Seq<char>, p: int)
    requires
        0 <= p <= t.len(),
    ensures
        value_at(t, p) matches Ok((_, e)) ==> p < e <= t.len(),
        value_at(t, p) matches Err(i) ==> !(i is Missing),
{
    lemma_string_at(t, p);
    if p < t.len() {
        lemma_lines_from(t, p + 1, seq![]);
    }
}

/// The position after the character that an expectation consumed.
pub open spec fn bumped(t: Seq<char>, p: int) -> int {
    if 0 <= p < t.len() {
        p + 1
    } else {
        p
    }
}

/// The entries of the compound, from `p` on, after the entries `acc` were read.
pub open spec fn entries_from(t: Seq<char>, p: int, acc: Seq<(Seq<char>, LangVal)>) -> Result<
    Seq<(Seq<char>, LangVal)>,
    ParseIssue,
>
    decreases t.len() - p,
{
    if 0 <= p <= t.len() {
        let q = skip(t, p);
        if 0 <= q < t.len() && t[q] == '}' {
            Ok(acc)
        } else {
            match key_at(t, q) {
                Err(e) => Err(e),
                Ok((k, r)) => {
                    let r1 = skip(t, r);
                    if !(0 <= r1 < t.len() && t[r1] == ':') {
                        Err(ParseIssue::Missing(bumped(t, r1) as usize, ':'))
                    } else {
                        let r2 = skip(t, r1 + 1);
                        match value_at(t, r2) {
                            Err(e) => Err(e),
                            Ok((v, r3)) => {
                                proof {
                                    lemma_skip(t, p);
                                    lemma_key_at(t, q);
                                    lemma_skip(t, r);
                                    lemma_skip(t, r1 + 1);
                                    lemma_value_at(t, r2);
                                    lemma_skip(t, r3);
                                }
                                entries_from(t, after_comma(t, skip(t, r3)), acc.push((k, v)))
                            },
                        }
                    }
                },
            }
        }
    } else {
        Err(ParseIssue::UnexpectedEnd)
    }
}

/// A whole language file, once leading byte-order marks are removed.
pub open spec fn document(t: Seq<char>) -> Result<Seq<(Seq<char>, LangVal)>, ParseIssue> {
    let q = skip(t, 0);
    if 0 <= q < t.len() && t[q] == '{' {
        entries_from(t, q + 1, seq![])
    } else {
        Err(ParseIssue::Missing(bumped(t, q) as usize, '{'))
    }
}

pub open spec fn bom_end(t: Seq<char>, p: int) -> int
    decreases t.len() - p,
{
    if 0 <= p < t.len() && t[p] == '\u{feff}' {
        bom_end(t, p + 1)
    } else {
        p
    }
}

/// The text without its leading byte-order marks.
pub open spec fn without_bom(t: Seq<char>) -> Seq<char> {
    t.subrange(bom_end(t, 0), t.len() as int)
}

pub proof fn lemma_bom_end(t: Seq<char>, p: int)
    requires
        0 <= p <= t.len(),
    ensures
        p <= bom_end(t, p) <= t.len(),
    decreases t.len() - p,
{
    if p < t.len() && t[p] == '\u{feff}' {
        lemma_bom_end(t, p + 1);
    }
}

/// The message that reports `issue` in the text `t`.
pub open spec fn issue_message(t: Seq<char>, issue: ParseIssue) -> Seq<char> {
    match issue {
        ParseIssue::Missing(p, c) => "SNBT 在偏移 "@ + decimal(clamped_utf8_len(t.take(p as int))) + " 处缺少 "@
            + seq![c],
        ParseIssue::UnexpectedEnd => "字符串意外结束"@,
        ParseIssue::NeedQuote => "需要引号字符串"@,
        ParseIssue::IncompleteEscape => "转义序列不完整"@,
        ParseIssue::Unterminated => "字符串没有结束引号"@,
        ParseIssue::MissingKey => "缺少 SNBT key"@,
        ParseIssue::BadValue => "语言值必须是字符串或字符串数组"@,
    }
}

// ---------------------------------------------------------------------------
// The parser.

struct Parser {
    text: Vec<char>,
    pos: usize,
}

impl Parser {
    fn peek(&self) -> (c: Option<char>)
        ensures
            c == (if self.pos < self.text@.len() {
                Some(self.text@[self.pos as int])
            } else {
                None::<char>
            }),
    {
        if self.pos < self.text.len() {
            Some(self.text[self.pos])
        } else {
            None
        }
    }

    fn peek_is(&self, c: char) -> (b: bool)
        ensures
            b == (self.pos < self.text@.len() && self.text@[self.pos as int] == c),
    {
        self.pos < self.text.len() && self.text[self.pos] == c
    }

    fn skip(&mut self)
        requires
            old(self).pos <= old(self).text@.len(),
        ensures
            final(self).text@ == old(self).text@,
            final(self).pos == skip(old(self).text@, old(self).pos as int),
    {
        let ghost t = self.text@;
        let ghost start = self.pos as int;
        proof {
            lemma_skip(t, start);
        }
        loop
            invariant
                self.text@ == t,
                self.pos <= t.len(),
                skip(t, self.pos as int) == skip(t, start),
            ensures
                self.text@ == t,
                self.pos == skip(t, start),
            decreases t.len() - self.pos,
        {
            let ghost outer = self.pos as int;
            while self.pos < self.text.len() && space(self.text[self.pos])
                invariant
                    self.text@ == t,
                    outer <= self.pos <= t.len(),
                    skip_ws(t, self.pos as int) == skip_ws(t, outer),
                decreases t.len() - self.pos,
            {
                self.pos += 1;
            }
            let p = self.pos;
            let comment = (p < self.text.len() && p + 1 < self.text.len() && self.text[p] == '/'
                && self.text[p + 1] == '/') || (p < self.text.len() && self.text[p] == '#');
            if comment {
                proof {
                    lemma_skip_ws(t, outer);
                    lemma_line_end(t, p as int);
                }
                while self.pos < self.text.len() && self.text[self.pos] != '\n'
                    invariant
                        self.text@ == t,
                        p <= self.pos <= t.len(),
                        line_end(t, self.pos as int) == line_end(t, p as int),
                    decreases t.len() - self.pos,
                {
                    self.pos += 1;
                }
            } else {
                break;
            }
        }
    }

    fn string(&mut self) -> (r: Result<String, ParseIssue>)
        requires
            old(self).pos <= old(self).text@.len(),
        ensures
            final(self).text@ == old(self).text@,
            final(self).pos <= final(self).text@.len(),
            match string_at(old(self).text@, old(self).pos as int) {
                Ok((s, e)) => r matches Ok(x) && x@ == s && final(self).pos == e,
                Err(i) => r == Err::<String, ParseIssue>(i),
            },
    {
        let ghost t = self.text@;
        if self.pos >= self.text.len() {
            return Err(ParseIssue::UnexpectedEnd);
        }
        let q = self.text[self.pos];
        if q != '\'' && q != '"' {
            return Err(ParseIssue::NeedQuote);
        }
        let ghost p0 = self.pos as int;
        self.pos += 1;
        let mut out = String::new();
        let result: Result<String, ParseIssue>;
        loop
            invariant_except_break
                str_body(t, self.pos as int, q, out@) == str_body(t, p0 + 1, q, seq![]),
            invariant
                self.text@ == t,
                0 <= p0 < t.len(),
                1 <= self.pos <= t.len(),
                q == t[p0],
            ensures
                self.text@ == t,
                self.pos <= t.len(),
                match str_body(t, p0 + 1, q, seq![]) {
                    Ok((s, e)) => result matches Ok(x) && x@ == s && self.pos == e,
                    Err(i) => result == Err::<String, ParseIssue>(i),
                },
            decreases t.len() - self.pos,
        {
            if self.pos >= self.text.len() {
                result = Err(ParseIssue::Unterminated);
                break;
            }
            let c = self.text[self.pos];
            self.pos += 1;
            if c == q {
                result = Ok(out);
                break;
            }
            if c == '\\' {
                if self.pos >= self.text.len() {
                    result = Err(ParseIssue::IncompleteEscape);
                    break;
                }
                let e = self.text[self.pos];
                self.pos += 1;
                let u = if e == 'n' {
                    '\n'
                } else if e == 'r' {
                    '\r'
                } else if e == 't' {
                    '\t'
                } else {
                    e
                };
                push_char(&mut out, u);
            } else {
                push_char(&mut out, c);
            }
        }
        result
    }

    fn key(&mut self) -> (r: Result<String, ParseIssue>)
        requires
            old(self).pos <= old(self).text@.len(),
        ensures
            final(self).text@ == old(self).text@,
            final(self).pos <= final(self).text@.len(),
            match key_at(old(self).text@, old(self).pos as int) {
                Ok((s, e)) => r matches Ok(x) && x@ == s && final(self).pos == e,
                Err(i) => r == Err::<String, ParseIssue>(i),
            },
    {
        let ghost t = self.text@;
        if self.pos < self.text.len() && (self.text[self.pos] == '\'' || self.text[self.pos]
            == '"') {
            return self.string();
        }
        let start = self.pos;
        while self.pos < self.text.len() && !space(self.text[self.pos]) && self.text[self.pos]
            != ':'
            invariant
                self.text@ == t,
                start <= self.pos <= t.len(),
                key_end(t, self.pos as int) == key_end(t, start as int),
            decreases t.len() - self.pos,
        {
            self.pos += 1;
        }
        if start == self.pos {
            Err(ParseIssue::MissingKey)
        } else {
            Ok(string_of_range(&self.text, start, self.pos))
        }
    }

    fn value(&mut self) -> (r: Result<LangValue, ParseIssue>)
        requires
            old(self).pos <= old(self).text@.len(),
        ensures
            final(self).text@ == old(self).text@,
            final(self).pos <= final(self).text@.len(),
            match value_at(old(self).text@, old(self).pos as int) {
                Ok((v, e)) => r matches Ok(x) && x@ == v && final(self).pos == e,
                Err(i) => r == Err::<LangValue, ParseIssue>(i),
            },
    {
        let ghost t = self.text@;
        if self.peek_is('\'') || self.peek_is('"') {
            match self.string() {
                Ok(s) => Ok(LangValue::Text(s)),
                Err(e) => Err(e),
            }
        } else if self.peek_is('[') {
            let n = self.text.len();
            let ghost p0 = self.pos as int;
            self.pos += 1;
            let mut v: Vec<String> = Vec::new();
            assert(v@.map_values(|x: String| x@) =~= Seq::<Seq<char>>::empty());
            let result: Result<LangValue, ParseIssue>;
            loop
                invariant_except_break
                    lines_from(t, self.pos as int, v@.map_values(|x: String| x@)) == lines_from(
                        t,
                        p0 + 1,
                        seq![],
                    ),
                invariant
                    self.text@ == t,
                    n == t.len(),
                    0 <= p0 < t.len(),
                    self.pos <= t.len(),
                ensures
                    self.text@ == t,
                    self.pos <= t.len(),
                    match lines_from(t, p0 + 1, seq![]) {
                        Ok((ls, e)) => result matches Ok(x) && x@ == LangVal::Lines(ls) && self.pos == e,
                        Err(i) => result == Err::<LangValue, ParseIssue>(i),
                    },
                decreases t.len() - self.pos,
            {
                let ghost before = self.pos as int;
                self.skip();
                proof {
                    lemma_skip(t, before);
                }
                if self.peek_is(']') {
                    self.pos += 1;
                    result = Ok(LangValue::Lines(v));
                    break;
                }
                let ghost q = self.pos as int;
                let s = match self.string() {
                    Ok(s) => s,
                    Err(e) => {
                        result = Err(e);
                        break;
                    },
                };
                proof {
                    lemma_string_at(t, q);
                }
                let ghost prev = v@.map_values(|x: String| x@);
                let ghost sv = s@;
                v.push(s);
                assert(v@.map_values(|x: String| x@) =~= prev.push(sv));
                let ghost r = self.pos as int;
                self.skip();
                proof {
                    lemma_skip(t, r);
                }
                if self.peek_is(',') {
                    self.pos += 1;
                }
            }
            result
        } else {
            Err(ParseIssue::BadValue)
        }
    }
}


impl Parser {
    fn compound(&mut self) -> (r: Result<LangMap, ParseIssue>)
        requires
            old(self).pos == 0,
        ensures
            final(self).text@ == old(self).text@,
            match document(old(self).text@) {
                Ok(es) => r matches Ok(m) && map_view(m@) == es,
                Err(i) => r == Err::<LangMap, ParseIssue>(i),
            },
    {
        let ghost t = self.text@;
        let n = self.text.len();
        self.skip();
        proof {
            lemma_skip(t, 0);
        }
        if !self.peek_is('{') {
            let p = if self.pos < n {
                self.pos + 1
            } else {
                self.pos
            };
            return Err(ParseIssue::Missing(p, '{'));
        }
        let ghost p0 = self.pos as int;
        self.pos += 1;
        let mut out: LangMap = Vec::new();
        assert(map_view(out@) =~= Seq::<(Seq<char>, LangVal)>::empty());
        let result: Result<LangMap, ParseIssue>;
        loop
            invariant_except_break
                entries_from(t, self.pos as int, map_view(out@)) == entries_from(
                    t,
                    p0 + 1,
                    seq![],
                ),
            invariant
                self.text@ == t,
                n == t.len(),
                0 <= p0 < t.len(),
                self.pos <= t.len(),
            ensures
                self.text@ == t,
                match entries_from(t, p0 + 1, seq![]) {
                    Ok(es) => result matches Ok(m) && map_view(m@) == es,
                    Err(i) => result == Err::<LangMap, ParseIssue>(i),
                },
            decreases t.len() - self.pos,
        {
            let ghost before = self.pos as int;
            self.skip();
            proof {
                lemma_skip(t, before);
            }
            if self.peek_is('}') {
                self.pos += 1;
                result = Ok(out);
                break;
            }
            let ghost q = self.pos as int;
            let k = match self.key() {
                Ok(k) => k,
                Err(e) => {
                    result = Err(e);
                    break;
                },
            };
            proof {
                lemma_key_at(t, q);
            }
            let ghost r = self.pos as int;
            self.skip();
            proof {
                lemma_skip(t, r);
            }
            if !self.peek_is(':') {
                let p = if self.pos < n {
                    self.pos + 1
                } else {
                    self.pos
                };
                result = Err(ParseIssue::Missing(p, ':'));
                break;
            }
            self.pos += 1;
            let ghost r1 = self.pos as int;
            self.skip();
            proof {
                lemma_skip(t, r1);
            }
            let ghost r2 = self.pos as int;
            let v = match self.value() {
                Ok(v) => v,
                Err(e) => {
                    result = Err(e);
                    break;
                },
            };
            proof {
                lemma_value_at(t, r2);
            }
            let ghost prev = map_view(out@);
            let ghost entry = (k@, v@);
            out.push((k, v));
            assert(map_view(out@) =~= prev.push(entry));
            let ghost r3 = self.pos as int;
            self.skip();
            proof {
                lemma_skip(t, r3);
            }
            if self.peek_is(',') {
                self.pos += 1;
            }
        }
        result
    }
}

/// The message that reports `issue` in the characters `t`.
fn issue_text(t: &Vec<char>, issue: ParseIssue) -> (s: String)
    requires
        issue matches ParseIssue::Missing(p, _) ==> p <= t.len(),
    ensures
        s@ == issue_message(t@, issue),
{
    match issue {
        ParseIssue::Missing(p, c) => {
            let mut s = String::new();
            push_str(&mut s, "SNBT 在偏移 ");
            push_decimal(&mut s, byte_offset(t, p));
            push_str(&mut s, " 处缺少 ");
            push_char(&mut s, c);
            assert(s@ =~= issue_message(t@, issue));
            s
        },
        ParseIssue::UnexpectedEnd => "字符串意外结束".to_owned(),
        ParseIssue::NeedQuote => "需要引号字符串".to_owned(),
        ParseIssue::IncompleteEscape => "转义序列不完整".to_owned(),
        ParseIssue::Unterminated => "字符串没有结束引号".to_owned(),
        ParseIssue::MissingKey => "缺少 SNBT key".to_owned(),
        ParseIssue::BadValue => "语言值必须是字符串或字符串数组".to_owned(),
    }
}

/// Reads a language file. Leading byte-order marks are ignored, and so is
/// anything after the closing brace.
pub fn parse(text: &str) -> (r: Result<LangMap, String>)
    ensures
        match document(without_bom(text@)) {
            Ok(es) => r matches Ok(m) && map_view(m@) == es,
            Err(i) => r matches Err(msg) && msg@ == issue_message(without_bom(text@), i),
        },
{
    let all = chars_of(text);
    let mut b: usize = 0;
    while b < all.len() && all[b] == '\u{feff}'
        invariant
            b <= all.len(),
            all@ == text@,
            bom_end(text@, b as int) == bom_end(text@, 0),
        decreases all.len() - b,
    {
        b += 1;
    }
    let mut chars: Vec<char> = Vec::new();
    let mut i = b;
    while i < all.len()
        invariant
            b <= i <= all.len(),
            all@ == text@,
            chars@ == all@.subrange(b as int, i as int),
        decreases all.len() - i,
    {
        chars.push(all[i]);
        i += 1;
        assert(chars@ =~= all@.subrange(b as int, i as int));
    }
    assert(chars@ == without_bom(text@));
    let ghost t = chars@;
    let mut parser = Parser { text: chars, pos: 0 };
    let len = parser.text.len();
    let r = parser.compound();
    assert(parser.text@ == t);
    match r {
        Ok(m) => Ok(m),
        Err(issue) => {
            proof {
                lemma_document_issue(t);
            }
            Err(issue_text(&parser.text, issue))
        },
    }
}

/// Positions reported by the parser never pass the end of the text.
pub proof fn lemma_document_issue(t: Seq<char>)
    requires
        t.len() <= usize::MAX,
    ensures
        document(t) matches Err(ParseIssue::Missing(p, _)) ==> p <= t.len(),
{
    let q = skip(t, 0);
    lemma_skip(t, 0);
    if 0 <= q < t.len() && t[q] == '{' {
        lemma_entries_issue(t, q + 1, seq![]);
    }
}

pub proof fn lemma_entries_issue(t: Seq<char>, p: int, acc: Seq<(Seq<char>, LangVal)>)
    requires
        0 <= p <= t.len(),
        t.len() <= usize::MAX,
    ensures
        entries_from(t, p, acc) matches Err(ParseIssue::Missing(x, _)) ==> x <= t.len(),
    decreases t.len() - p,
{
    let q = skip(t, p);
    lemma_skip(t, p);
    if !(0 <= q < t.len() && t[q] == '}') {
        lemma_key_at(t, q);
        match key_at(t, q) {
            Err(e) => {
                assert(entries_from(t, p, acc) == Err::<Seq<(Seq<char>, LangVal)>, ParseIssue>(e));
                assert(!(e is Missing));
            },
            Ok((k, r)) => {
                let r1 = skip(t, r);
                lemma_skip(t, r);
                if 0 <= r1 < t.len() && t[r1] == ':' {
                    let r2 = skip(t, r1 + 1);
                    lemma_skip(t, r1 + 1);
                    lemma_value_at(t, r2);
                    match value_at(t, r2) {
                        Err(e) => {
                            assert(!(e is Missing));
                        },
                        Ok((v, r3)) => {
                            lemma_skip(t, r3);
                            lemma_entries_issue(t, after_comma(t, skip(t, r3)), acc.push((k, v)));
                        },
                    }
                } else {
                    let x = bumped(t, r1);
                    assert(0 <= x <= t.len());
                    assert((x as usize) as int == x);
                }
            },
        }
    }
}


// ---------------------------------------------------------------------------
// The canonical layout that the writer produces.

pub open spec fn esc_char(c: char) -> Seq<char> {
    if c == '\\' {
        seq!['\\', '\\']
    } else if c == '"' {
        seq!['\\', '"']
    } else if c == '\n' {
        seq!['\\', 'n']
    } else if c == '\r' {
        seq!['\\', 'r']
    } else if c == '\t' {
        seq!['\\', 't']
    } else {
        seq![c]
    }
}

/// `s` with backslash, double quote, newline, carriage return and tab escaped.
pub open spec fn escape(s: Seq<char>) -> Seq<char>
    decreases s.len(),
{
    if s.len() == 0 {
        seq![]
    } else {
        esc_char(s[0]) + escape(s.drop_first())
    }
}

/// `s` escaped between double quotes.
pub open spec fn quoted(s: Seq<char>) -> Seq<char> {
    seq!['"'] + escape(s) + seq!['"']
}

pub open spec fn line_end_text(last: bool) -> Seq<char> {
    if last {
        seq!['\n']
    } else {
        seq![',', '\n']
    }
}

/// One line of a list value, indented by four spaces.
pub open spec fn line_piece(s: Seq<char>, last: bool) -> Seq<char> {
    seq![' ', ' ', ' ', ' '] + quoted(s) + line_end_text(last)
}

/// The lines `ls[j..]` of a list value.
pub open spec fn lines_text(ls: Seq<Seq<char>>, j: int) -> Seq<char>
    decreases ls.len() - j,
{
    if 0 <= j < ls.len() {
        line_piece(ls[j], j + 1 == ls.len()) + lines_text(ls, j + 1)
    } else {
        seq![]
    }
}

pub open spec fn value_text(v: LangVal) -> Seq<char> {
    match v {
        LangVal::Text(s) => quoted(s),
        LangVal::Lines(ls) => seq!['[', '\n'] + lines_text(ls, 0) + seq![' ', ' ', ']'],
    }
}

/// One entry of the compound, indented by two spaces.
pub open spec fn entry_piece(e: (Seq<char>, LangVal), last: bool) -> Seq<char> {
    seq![' ', ' '] + quoted(e.0) + seq![':', ' '] + value_text(e.1) + line_end_text(last)
}

/// The entries `m[j..]` of the compound.
pub open spec fn entries_text(m: Seq<(Seq<char>, LangVal)>, j: int) -> Seq<char>
    decreases m.len() - j,
{
    if 0 <= j < m.len() {
        entry_piece(m[j], j + 1 == m.len()) + entries_text(m, j + 1)
    } else {
        seq![]
    }
}

/// The whole file that the writer produces for `m`.
pub open spec fn dump_text(m: Seq<(Seq<char>, LangVal)>) -> Seq<char> {
    seq!['{', '\n'] + entries_text(m, 0) + seq!['}', '\n']
}

pub proof fn lemma_escape_concat(a: Seq<char>, b: Seq<char>)
    ensures
        escape(a + b) == escape(a) + escape(b),
    decreases a.len(),
{
    if a.len() == 0 {
        assert(a + b =~= b);
        assert(escape(a) + escape(b) =~= escape(b));
    } else {
        assert((a + b).drop_first() =~= a.drop_first() + b);
        lemma_escape_concat(a.drop_first(), b);
        assert((a + b)[0] == a[0]);
        assert(escape(a + b) =~= esc_char(a[0]) + (escape(a.drop_first()) + escape(b)));
    }
}

pub proof fn lemma_escape_step(s: Seq<char>, i: int)
    requires
        0 <= i < s.len(),
    ensures
        escape(s.take(i + 1)) == escape(s.take(i)) + esc_char(s[i]),
{
    assert(s.take(i + 1) =~= s.take(i) + seq![s[i]]);
    lemma_escape_concat(s.take(i), seq![s[i]]);
    let one = seq![s[i]];
    assert(one[0] == s[i]);
    assert(one.drop_first() =~= Seq::<char>::empty());
    assert(escape(one.drop_first()) =~= Seq::<char>::empty());
    assert(escape(one) =~= esc_char(s[i]));
}

fn push_escaped_char(out: &mut String, c: char)
    ensures
        final(out)@ == old(out)@ + esc_char(c),
{
    if c == '\\' {
        push_char(out, '\\');
        push_char(out, '\\');
    } else if c == '"' {
        push_char(out, '\\');
        push_char(out, '"');
    } else if c == '\n' {
        push_char(out, '\\');
        push_char(out, 'n');
    } else if c == '\r' {
        push_char(out, '\\');
        push_char(out, 'r');
    } else if c == '\t' {
        push_char(out, '\\');
        push_char(out, 't');
    } else {
        push_char(out, c);
    }
    assert(final(out)@ =~= old(out)@ + esc_char(c));
}

/// Writes `s` escaped between double quotes.
fn push_quoted(out: &mut String, s: &str)
    ensures
        final(out)@ == old(out)@ + quoted(s@),
{
    let cs = chars_of(s);
    let ghost base = out@;
    push_char(out, '"');
    let mut i: usize = 0;
    while i < cs.len()
        invariant
            i <= cs.len(),
            cs@ == s@,
            out@ == base + seq!['"'] + escape(cs@.take(i as int)),
        decreases cs.len() - i,
    {
        proof {
            lemma_escape_step(cs@, i as int);
        }
        push_escaped_char(out, cs[i]);
        i += 1;
        assert(out@ =~= base + seq!['"'] + escape(cs@.take(i as int)));
    }
    assert(cs@.take(cs.len() as int) =~= cs@);
    push_char(out, '"');
    assert(out@ =~= base + quoted(s@));
}

fn push_line_end(out: &mut String, last: bool)
    ensures
        final(out)@ == old(out)@ + line_end_text(last),
{
    if !last {
        push_char(out, ',');
    }
    push_char(out, '\n');
    assert(final(out)@ =~= old(out)@ + line_end_text(last));
}

fn push_value(out: &mut String, v: &LangValue)
    ensures
        final(out)@ == old(out)@ + value_text(v@),
{
    match v {
        LangValue::Text(s) => push_quoted(out, s.as_str()),
        LangValue::Lines(lines) => {
            let ghost base = out@;
            let ghost ls = lines@.map_values(|x: String| x@);
            push_char(out, '[');
            push_char(out, '\n');
            let mut j: usize = 0;
            while j < lines.len()
                invariant
                    j <= lines.len(),
                    ls == lines@.map_values(|x: String| x@),
                    out@ + lines_text(ls, j as int) == base + seq!['[', '\n'] + lines_text(ls, 0),
                decreases lines.len() - j,
            {
                let ghost before = out@;
                push_char(out, ' ');
                push_char(out, ' ');
                push_char(out, ' ');
                push_char(out, ' ');
                push_quoted(out, lines[j].as_str());
                push_line_end(out, j + 1 == lines.len());
                assert(out@ =~= before + line_piece(ls[j as int], j + 1 == ls.len()));
                assert(out@ + lines_text(ls, j + 1) =~= before + lines_text(ls, j as int));
                j += 1;
            }
            assert(lines_text(ls, j as int) =~= Seq::<char>::empty());
            assert(out@ =~= base + seq!['[', '\n'] + lines_text(ls, 0));
            push_char(out, ' ');
            push_char(out, ' ');
            push_char(out, ']');
            assert(out@ =~= base + value_text(v@));
        },
    }
}

/// Writes the language map in the canonical layout: one entry per line, keys
/// and strings in double quotes, list values one line per string.
pub fn dump(values: &LangMap) -> (r: String)
    ensures
        r@ == dump_text(map_view(values@)),
{
    let ghost m = map_view(values@);
    let mut out = String::new();
    push_char(&mut out, '{');
    push_char(&mut out, '\n');
    let ghost base = out@;
    let mut i: usize = 0;
    while i < values.len()
        invariant
            i <= values.len(),
            m == map_view(values@),
            base == seq!['{', '\n'],
            out@ + entries_text(m, i as int) == base + entries_text(m, 0),
        decreases values.len() - i,
    {
        let ghost before = out@;
        push_char(&mut out, ' ');
        push_char(&mut out, ' ');
        push_quoted(&mut out, values[i].0.as_str());
        push_char(&mut out, ':');
        push_char(&mut out, ' ');
        push_value(&mut out, &values[i].1);
        push_line_end(&mut out, i + 1 == values.len());
        assert(m[i as int] == (values@[i as int].0@, values@[i as int].1@));
        assert(out@ =~= before + entry_piece(m[i as int], i + 1 == m.len()));
        assert(out@ + entries_text(m, i + 1) =~= before + entries_text(m, i as int));
        i += 1;
    }
    assert(entries_text(m, i as int) =~= Seq::<char>::empty());
    push_char(&mut out, '}');
    push_char(&mut out, '\n');
    assert(out@ =~= dump_text(m));
    out
}


// ---------------------------------------------------------------------------
// Reading back what the writer wrote.

/// `t` holds `x` at position `b`.
pub open spec fn at(t: Seq<char>, b: int, x: Seq<char>) -> bool {
    &&& 0 <= b
    &&& b + x.len() <= t.len()
    &&& forall|i: int| 0 <= i < x.len() ==> t[b + i] == #[trigger] x[i]
}

pub proof fn lemma_at_split(t: Seq<char>, b: int, x: Seq<char>, y: Seq<char>)
    requires
        at(t, b, x + y),
    ensures
        at(t, b, x),
        at(t, b + x.len(), y),
{
    assert forall|i: int| 0 <= i < x.len() implies t[b + i] == #[trigger] x[i] by {
        assert((x + y)[i] == x[i]);
    }
    assert forall|i: int| 0 <= i < y.len() implies t[b + x.len() + i] == #[trigger] y[i] by {
        assert((x + y)[x.len() + i] == y[i]);
    }
}

pub proof fn lemma_at_char(t: Seq<char>, b: int, x: Seq<char>, i: int)
    requires
        at(t, b, x),
        0 <= i < x.len(),
    ensures
        t[b + i] == x[i],
{
}

/// White space up to a character that starts no comment is all that `skip` passes.
pub proof fn lemma_skip_to(t: Seq<char>, p: int, q: int)
    requires
        0 <= p <= q < t.len(),
        forall|i: int| p <= i < q ==> is_space(#[trigger] t[i]),
        !is_space(t[q]),
        t[q] != '/',
        t[q] != '#',
    ensures
        skip(t, p) == q,
    decreases q - p,
{
    if p < q {
        lemma_skip_to(t, p + 1, q);
        lemma_skip_ws(t, p + 1);
        assert(skip_ws(t, p) == skip_ws(t, p + 1));
    }
    lemma_skip_ws_to(t, p, q);
}

pub proof fn lemma_skip_ws_to(t: Seq<char>, p: int, q: int)
    requires
        0 <= p <= q < t.len(),
        forall|i: int| p <= i < q ==> is_space(#[trigger] t[i]),
        !is_space(t[q]),
    ensures
        skip_ws(t, p) == q,
    decreases q - p,
{
    if p < q {
        lemma_skip_ws_to(t, p + 1, q);
    }
}

pub proof fn lemma_str_body_escape(t: Seq<char>, p: int, s: Seq<char>, acc: Seq<char>)
    requires
        at(t, p, escape(s) + seq!['"']),
    ensures
        str_body(t, p, '"', acc) == Ok::<(Seq<char>, int), ParseIssue>(
            (acc + s, p + escape(s).len() + 1),
        ),
    decreases s.len(),
{
    if s.len() == 0 {
        assert((escape(s) + seq!['"'])[0] == '"');
        assert(t[p + 0] == '"');
        assert(acc + s =~= acc);
    } else {
        let c = s[0];
        let rest = s.drop_first();
        assert(escape(s) + seq!['"'] =~= esc_char(c) + (escape(rest) + seq!['"']));
        lemma_at_split(t, p, esc_char(c), escape(rest) + seq!['"']);
        let e = esc_char(c);
        if c == '\\' || c == '"' || c == '\n' || c == '\r' || c == '\t' {
            assert(e.len() == 2);
            lemma_at_char(t, p, e, 0);
            lemma_at_char(t, p, e, 1);
            assert(t[p] == '\\');
            assert(unescape(t[p + 1]) == c);
            lemma_str_body_escape(t, p + 2, rest, acc.push(c));
            assert(acc.push(c) + rest =~= acc + s);
        } else {
            assert(e.len() == 1);
            lemma_at_char(t, p, e, 0);
            assert(t[p] == c);
            lemma_str_body_escape(t, p + 1, rest, acc.push(c));
            assert(acc.push(c) + rest =~= acc + s);
        }
    }
}

pub proof fn lemma_string_quoted(t: Seq<char>, p: int, s: Seq<char>)
    requires
        at(t, p, quoted(s)),
    ensures
        string_at(t, p) == Ok::<(Seq<char>, int), ParseIssue>((s, p + quoted(s).len())),
{
    assert(quoted(s) =~= seq!['"'] + (escape(s) + seq!['"']));
    lemma_at_split(t, p, seq!['"'], escape(s) + seq!['"']);
    lemma_at_char(t, p, seq!['"'], 0);
    lemma_str_body_escape(t, p + 1, s, seq![]);
    assert(Seq::<char>::empty() + s =~= s);
}

/// `lines_from` only looks at where `skip` lands.
pub proof fn lemma_lines_from_skip(t: Seq<char>, x: int, y: int, acc: Seq<Seq<char>>)
    requires
        0 <= x <= t.len(),
        0 <= y <= t.len(),
        skip(t, x) == skip(t, y),
    ensures
        lines_from(t, x, acc) == lines_from(t, y, acc),
{
}

/// `entries_from` only looks at where `skip` lands.
pub proof fn lemma_entries_from_skip(
    t: Seq<char>,
    x: int,
    y: int,
    acc: Seq<(Seq<char>, LangVal)>,
)
    requires
        0 <= x <= t.len(),
        0 <= y <= t.len(),
        skip(t, x) == skip(t, y),
    ensures
        entries_from(t, x, acc) == entries_from(t, y, acc),
{
}

pub proof fn lemma_lines_read(t: Seq<char>, ls: Seq<Seq<char>>, j: int, b: int, acc: Seq<Seq<char>>)
    requires
        0 <= j <= ls.len(),
        1 <= b,
        t[b - 1] == '\n',
        at(t, b, lines_text(ls, j) + seq![' ', ' ', ']']),
    ensures
        lines_from(t, b - 1, acc) == Ok::<(Seq<Seq<char>>, int), ParseIssue>(
            (acc + ls.subrange(j, ls.len() as int), b + lines_text(ls, j).len() + 3),
        ),
    decreases ls.len() - j,
{
    let tail3 = seq![' ', ' ', ']'];
    if j == ls.len() {
        assert(lines_text(ls, j) =~= Seq::<char>::empty());
        assert(lines_text(ls, j) + tail3 =~= tail3);
        lemma_at_char(t, b, tail3, 0);
        lemma_at_char(t, b, tail3, 1);
        lemma_at_char(t, b, tail3, 2);
        lemma_skip_to(t, b - 1, b + 2);
        assert(acc + ls.subrange(j, ls.len() as int) =~= acc);
    } else {
        let last = j + 1 == ls.len();
        let s = ls[j];
        let piece = line_piece(s, last);
        let rest = lines_text(ls, j + 1);
        assert(lines_text(ls, j) == piece + rest);
        assert(lines_text(ls, j) + tail3 =~= piece + (rest + tail3));
        lemma_at_split(t, b, piece, rest + tail3);
        let sp4 = seq![' ', ' ', ' ', ' '];
        assert(piece =~= sp4 + (quoted(s) + line_end_text(last)));
        lemma_at_split(t, b, sp4, quoted(s) + line_end_text(last));
        lemma_at_split(t, b + 4, quoted(s), line_end_text(last));
        lemma_at_char(t, b, sp4, 0);
        lemma_at_char(t, b, sp4, 1);
        lemma_at_char(t, b, sp4, 2);
        lemma_at_char(t, b, sp4, 3);
        lemma_at_char(t, b + 4, quoted(s), 0);
        lemma_skip_to(t, b - 1, b + 4);
        lemma_string_quoted(t, b + 4, s);
        let r = b + 4 + quoted(s).len();
        let b2 = b + piece.len();
        assert(b2 == r + line_end_text(last).len());
        if last {
            lemma_at_char(t, r, line_end_text(last), 0);
            assert(rest =~= Seq::<char>::empty());
            assert(rest + tail3 =~= tail3);
            lemma_at_char(t, b2, tail3, 0);
            lemma_at_char(t, b2, tail3, 1);
            lemma_at_char(t, b2, tail3, 2);
            lemma_skip_to(t, r, r + 3);
            lemma_skip(t, r);
            lemma_lines_read(t, ls, j + 1, b2, acc.push(s));
            lemma_skip_to(t, r + 3, r + 3);
            lemma_lines_from_skip(t, r + 3, b2 - 1, acc.push(s));
        } else {
            lemma_at_char(t, r, line_end_text(last), 0);
            lemma_at_char(t, r, line_end_text(last), 1);
            lemma_skip_to(t, r, r);
            lemma_lines_read(t, ls, j + 1, b2, acc.push(s));
        }
        assert(acc.push(s) + ls.subrange(j + 1, ls.len() as int) =~= acc + ls.subrange(
            j,
            ls.len() as int,
        ));
    }
}

pub proof fn lemma_value_read(t: Seq<char>, p: int, v: LangVal)
    requires
        at(t, p, value_text(v)),
    ensures
        value_at(t, p) == Ok::<(LangVal, int), ParseIssue>((v, p + value_text(v).len())),
{
    match v {
        LangVal::Text(s) => {
            lemma_at_char(t, p, quoted(s), 0);
            lemma_string_quoted(t, p, s);
        },
        LangVal::Lines(ls) => {
            let head = seq!['[', '\n'];
            let body = lines_text(ls, 0) + seq![' ', ' ', ']'];
            assert(value_text(v) =~= head + body);
            lemma_at_split(t, p, head, body);
            lemma_at_char(t, p, head, 0);
            lemma_at_char(t, p, head, 1);
            lemma_lines_read(t, ls, 0, p + 2, seq![]);
            assert(Seq::<Seq<char>>::empty() + ls.subrange(0, ls.len() as int) =~= ls);
        },
    }
}

pub proof fn lemma_entries_read(
    t: Seq<char>,
    m: Seq<(Seq<char>, LangVal)>,
    j: int,
    b: int,
    acc: Seq<(Seq<char>, LangVal)>,
)
    requires
        0 <= j <= m.len(),
        1 <= b,
        t[b - 1] == '\n',
        at(t, b, entries_text(m, j) + seq!['}', '\n']),
    ensures
        entries_from(t, b - 1, acc) == Ok::<Seq<(Seq<char>, LangVal)>, ParseIssue>(
            acc + m.subrange(j, m.len() as int),
        ),
    decreases m.len() - j,
{
    let close = seq!['}', '\n'];
    if j == m.len() {
        assert(entries_text(m, j) =~= Seq::<char>::empty());
        assert(entries_text(m, j) + close =~= close);
        lemma_at_char(t, b, close, 0);
        lemma_skip_to(t, b - 1, b);
        assert(acc + m.subrange(j, m.len() as int) =~= acc);
    } else {
        let last = j + 1 == m.len();
        let e = m[j];
        let piece = entry_piece(e, last);
        let rest = entries_text(m, j + 1);
        assert(entries_text(m, j) == piece + rest);
        assert(entries_text(m, j) + close =~= piece + (rest + close));
        lemma_at_split(t, b, piece, rest + close);
        let sp2 = seq![' ', ' '];
        let colon = seq![':', ' '];
        let vt = value_text(e.1);
        let le = line_end_text(last);
        assert(piece =~= sp2 + (quoted(e.0) + (colon + (vt + le))));
        lemma_at_split(t, b, sp2, quoted(e.0) + (colon + (vt + le)));
        let kp = b + 2;
        lemma_at_split(t, kp, quoted(e.0), colon + (vt + le));
        let r = kp + quoted(e.0).len();
        lemma_at_split(t, r, colon, vt + le);
        lemma_at_split(t, r + 2, vt, le);
        lemma_at_char(t, b, sp2, 0);
        lemma_at_char(t, b, sp2, 1);
        lemma_at_char(t, kp, quoted(e.0), 0);
        lemma_skip_to(t, b - 1, kp);
        lemma_string_quoted(t, kp, e.0);
        lemma_at_char(t, r, colon, 0);
        lemma_at_char(t, r, colon, 1);
        lemma_skip_to(t, r, r);
        lemma_value_read(t, r + 2, e.1);
        match e.1 {
            LangVal::Text(s) => {
                lemma_at_char(t, r + 2, quoted(s), 0);
            },
            LangVal::Lines(ls) => {
                assert(vt =~= seq!['['] + (seq!['\n'] + lines_text(ls, 0) + seq![' ', ' ', ']']));
                lemma_at_char(t, r + 2, vt, 0);
            },
        }
        lemma_skip_to(t, r + 1, r + 2);
        let r3 = r + 2 + vt.len();
        let b2 = b + piece.len();
        assert(b2 == r3 + le.len());
        if last {
            lemma_at_char(t, r3, le, 0);
            assert(rest =~= Seq::<char>::empty());
            assert(rest + close =~= close);
            lemma_at_char(t, b2, close, 0);
            lemma_skip_to(t, r3, r3 + 1);
            lemma_entries_read(t, m, j + 1, b2, acc.push(e));
            lemma_skip_to(t, r3 + 1, r3 + 1);
            lemma_entries_from_skip(t, r3 + 1, b2 - 1, acc.push(e));
        } else {
            lemma_at_char(t, r3, le, 0);
            lemma_at_char(t, r3, le, 1);
            lemma_skip_to(t, r3, r3);
            lemma_entries_read(t, m, j + 1, b2, acc.push(e));
        }
        assert(acc.push(e) + m.subrange(j + 1, m.len() as int) =~= acc + m.subrange(
            j,
            m.len() as int,
        ));
    }
}

/// Reading back what `dump` wrote gives the same entries, in the same order:
/// the writer and the reader of language files round-trip.
pub proof fn lemma_dump_then_parse(m: Seq<(Seq<char>, LangVal)>)
    ensures
        without_bom(dump_text(m)) == dump_text(m),
        document(dump_text(m)) == Ok::<Seq<(Seq<char>, LangVal)>, ParseIssue>(m),
{
    let t = dump_text(m);
    let open = seq!['{', '\n'];
    let body = entries_text(m, 0) + seq!['}', '\n'];
    assert(t =~= open + body);
    assert forall|i: int| 0 <= i < t.len() implies t[0 + i] == #[trigger] t[i] by {}
    assert(at(t, 0, open + body));
    lemma_at_split(t, 0, open, body);
    lemma_at_char(t, 0, open, 0);
    lemma_at_char(t, 0, open, 1);
    assert(bom_end(t, 0) == 0);
    assert(t.subrange(0, t.len() as int) =~= t);
    lemma_skip_to(t, 0, 0);
    lemma_entries_read(t, m, 0, 2, seq![]);
    assert(Seq::<(Seq<char>, LangVal)>::empty() + m.subrange(0, m.len() as int) =~= m);
}

/// `parse(&dump(values))` gives back `values`: a law stated over the two
/// executable functions' own contracts.
pub proof fn lemma_parse_reads_dump(values: Seq<(String, LangValue)>)
    ensures
        document(without_bom(dump_text(map_view(values)))) == Ok::<
            Seq<(Seq<char>, LangVal)>,
            ParseIssue,
        >(map_view(values)),
{
    lemma_dump_then_parse(map_view(values));
}


// ---------------------------------------------------------------------------
// What a one-entry language file reads as.

proof fn lemma_key_end_run(t: Seq<char>, p: int, k: Seq<char>)
    requires
        0 <= p,
        p + k.len() <= t.len(),
        t.subrange(p, p + k.len()) == k,
        forall|i: int| 0 <= i < k.len() ==> !is_space(#[trigger] k[i]) && k[i] != ':',
        p + k.len() < t.len() ==> (is_space(t[p + k.len()]) || t[p + k.len()] == ':'),
    ensures
        key_end(t, p) == p + k.len(),
    decreases k.len(),
{
    if k.len() > 0 {
        assert(t[p] == k[0]);
        let k2 = k.drop_first();
        assert(t.subrange(p + 1, p + 1 + k2.len()) =~= k2) by {
            assert forall|i: int| 0 <= i < k2.len() implies t.subrange(p + 1, p + 1 + k2.len())[i] == k2[i] by {
                assert(t[p + 1 + i] == t.subrange(p, p + k.len())[i + 1]);
            }
        }
        assert forall|i: int| 0 <= i < k2.len() implies !is_space(#[trigger] k2[i]) && k2[i] != ':' by {
            assert(k2[i] == k[i + 1]);
        }
        lemma_key_end_run(t, p + 1, k2);
    }
}

proof fn lemma_str_body_run(t: Seq<char>, p: int, q: char, acc: Seq<char>, v: Seq<char>)
    requires
        0 <= p,
        p + v.len() < t.len(),
        t.subrange(p, p + v.len()) == v,
        forall|i: int| 0 <= i < v.len() ==> #[trigger] v[i] != q && v[i] != '\\',
        t[p + v.len()] == q,
    ensures
        str_body(t, p, q, acc) == Ok::<(Seq<char>, int), ParseIssue>((acc + v, p + v.len() + 1)),
    decreases v.len(),
{
    if v.len() == 0 {
        assert(acc + v =~= acc);
    } else {
        assert(t[p] == v[0]);
        let v2 = v.drop_first();
        assert(t.subrange(p + 1, p + 1 + v2.len()) =~= v2) by {
            assert forall|i: int| 0 <= i < v2.len() implies t.subrange(p + 1, p + 1 + v2.len())[i] == v2[i] by {
                assert(t[p + 1 + i] == t.subrange(p, p + v.len())[i + 1]);
            }
        }
        assert forall|i: int| 0 <= i < v2.len() implies #[trigger] v2[i] != q && v2[i] != '\\' by {
            assert(v2[i] == v[i + 1]);
        }
        lemma_str_body_run(t, p + 1, q, acc.push(v[0]), v2);
        assert(acc.push(v[0]) + v2 =~= acc + v);
    }
}

/// A bare key: the characters up to white space or `:`, not starting a
/// quoted key, a comment or the end of the compound. Dots, digits and
/// letters of any case all belong to it, as in `chapter.0C812DF8.title`.
pub open spec fn bare_key(k: Seq<char>) -> bool {
    &&& k.len() > 0
    &&& forall|i: int| 0 <= i < k.len() ==> !is_space(#[trigger] k[i]) && k[i] != ':'
    &&& !is_quote(k[0]) && k[0] != '#' && k[0] != '}'
    &&& !(k.len() > 1 && k[0] == '/' && k[1] == '/')
}

/// The file `{k: "v"}`.
pub open spec fn one_entry_file(k: Seq<char>, v: Seq<char>) -> Seq<char> {
    seq!['{'] + k + seq![':', ' ', '"'] + v + seq!['"', '}']
}

/// A file that holds one entry with a bare key and a plain double-quoted text
/// reads as that key with that text, whatever characters the key holds besides
/// white space and `:`.
pub proof fn law_bare_keys_read_whole(k: Seq<char>, v: Seq<char>)
    requires
        bare_key(k),
        forall|i: int| 0 <= i < v.len() ==> #[trigger] v[i] != '"' && v[i] != '\\',
    ensures
        document(without_bom(one_entry_file(k, v))) == Ok::<Seq<(Seq<char>, LangVal)>, ParseIssue>(seq![(k, LangVal::Text(v))]),
{
    let t = one_entry_file(k, v);
    let n = k.len() as int;
    let m = v.len() as int;
    assert(t.len() == n + m + 6);
    assert(t[0] == '{');
    assert(bom_end(t, 0) == 0);
    assert(t.subrange(0, t.len() as int) =~= t);
    assert(without_bom(t) == t);
    assert(!is_space('{')) by {
        assert(('{' as u32) == 0x7b);
    }
    assert(!comment_at(t, 0));
    assert(skip_ws(t, 0) == 0);
    assert(skip(t, 0) == 0);
    // the key
    assert(t[1] == k[0]);
    assert(!is_space(t[1]));
    assert(skip_ws(t, 1) == 1);
    assert(!comment_at(t, 1)) by {
        if n > 1 {
            assert(t[2] == k[1]);
        } else {
            assert(t[2] == ':');
        }
    }
    assert(skip(t, 1) == 1);
    assert(t.subrange(1, 1 + n) =~= k) by {
        assert forall|i: int| 0 <= i < n implies t.subrange(1, 1 + n)[i] == k[i] by {
            assert(t[1 + i] == k[i]);
        }
    }
    assert(t[1 + n] == ':');
    lemma_key_end_run(t, 1, k);
    assert(key_at(t, 1) == Ok::<(Seq<char>, int), ParseIssue>((k, 1 + n)));
    // the colon
    assert(!is_space(':')) by {
        assert((':' as u32) == 0x3a);
    }
    assert(skip_ws(t, 1 + n) == 1 + n);
    assert(!comment_at(t, 1 + n));
    assert(skip(t, 1 + n) == 1 + n);
    // the value
    assert(t[2 + n] == ' ');
    assert(is_space(' ')) by {
        assert((' ' as u32) == 0x20);
    }
    assert(t[3 + n] == '"');
    assert(!is_space('"')) by {
        assert(('"' as u32) == 0x22);
    }
    assert(skip_ws(t, 3 + n) == 3 + n);
    assert(skip_ws(t, 2 + n) == 3 + n);
    assert(!comment_at(t, 3 + n));
    assert(skip(t, 2 + n) == 3 + n);
    assert(t.subrange(4 + n, 4 + n + m) =~= v) by {
        assert forall|i: int| 0 <= i < m implies t.subrange(4 + n, 4 + n + m)[i] == v[i] by {
            assert(t[4 + n + i] == v[i]);
        }
    }
    assert(t[4 + n + m] == '"');
    lemma_str_body_run(t, 4 + n, '"', seq![], v);
    assert(seq![] + v =~= v);
    assert(string_at(t, 3 + n) == Ok::<(Seq<char>, int), ParseIssue>((v, 5 + n + m)));
    assert(value_at(t, 3 + n) == Ok::<(LangVal, int), ParseIssue>((LangVal::Text(v), 5 + n + m)));
    // the end
    assert(t[5 + n + m] == '}');
    assert(!is_space('}')) by {
        assert(('}' as u32) == 0x7d);
    }
    assert(skip_ws(t, 5 + n + m) == 5 + n + m);
    assert(!comment_at(t, 5 + n + m));
    assert(skip(t, 5 + n + m) == 5 + n + m);
    assert(after_comma(t, 5 + n + m) == 5 + n + m);
    assert(entries_from(t, 5 + n + m, seq![(k, LangVal::Text(v))]) == Ok::<Seq<(Seq<char>, LangVal)>, ParseIssue>(seq![(k, LangVal::Text(v))]));
    assert(seq![].push((k, LangVal::Text(v))) =~= seq![(k, LangVal::Text(v))]);
}

} // verus!
