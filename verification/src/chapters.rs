//! Chapter files (`chapters/*.snbt`): a token walker that finds the string
//! values of the player-facing fields, and the writer that puts translations
//! back into exactly those strings.
//!
//! Positions (`start`, `end`) are character positions in the file text.

use crate::snbt::{
    at, comment_at, is_quote, lemma_at_char, lemma_at_split, lemma_line_end, lemma_skip_ws, line_end,
    skip_ws, unescape,
};
use crate::text::{
    alpha, byte_offset, chars_of, clamped_utf8_len, decimal, is_alpha, push_char, push_decimal,
    push_str, space, string_of, string_of_range,
};
use vstd::prelude::*;

verus! {

/// A translatable string of a chapter file.
#[derive(Clone, Debug)]
pub struct Segment {
    pub path: String,
    pub key: String,
    pub source: String,
    pub start: usize,
    pub end: usize,
    pub quote: char,
    pub index: usize,
    pub cache_id: String,
}

/// The abstract form of a found string: the field name, the decoded text,
/// the span of the literal (quotes included) and its quote character.
pub struct Found {
    pub key: Seq<char>,
    pub value: Seq<char>,
    pub start: int,
    pub end: int,
    pub quote: char,
}

/// Why a chapter text was refused.
pub enum ChapterFault {
    NeedQuote(int),
    Unclosed(int),
    MissingValue(Seq<char>),
    ListUnclosed,
    Unmatched(char),
    UnclosedString,
    UnclosedBracket,
}

// ---------------------------------------------------------------------------
// Scanning, stated over character positions.

/// After white space and comments; a comment runs up to and including its newline.
pub open spec fn trivia_end(t: Seq<char>, p: int) -> int
    decreases t.len() - p,
{
    if 0 <= p <= t.len() {
        let q = skip_ws(t, p);
        if comment_at(t, q) {
            let e = line_end(t, q);
            if e < t.len() {
                proof {
                    lemma_skip_ws(t, p);
                    lemma_line_end(t, q);
                }
                trivia_end(t, e + 1)
            } else {
                t.len() as int
            }
        } else {
            q
        }
    } else {
        p
    }
}

pub proof fn lemma_trivia_end(t: Seq<char>, p: int)
    requires
        0 <= p <= t.len(),
    ensures
        p <= trivia_end(t, p) <= t.len(),
    decreases t.len() - p,
{
    let q = skip_ws(t, p);
    lemma_skip_ws(t, p);
    if comment_at(t, q) {
        let e = line_end(t, q);
        lemma_line_end(t, q);
        if e < t.len() {
            lemma_trivia_end(t, e + 1);
        }
    }
}

pub open spec fn is_punct(c: char) -> bool {
    c == '{' || c == '}' || c == '[' || c == ']' || c == '(' || c == ')' || c == ':' || c == ','
}

/// End of an unquoted token.
pub open spec fn bare_end(t: Seq<char>, p: int) -> int
    decreases t.len() - p,
{
    if 0 <= p < t.len() && !is_space(t[p]) && !is_punct(t[p]) && !comment_at(t, p) {
        bare_end(t, p + 1)
    } else {
        p
    }
}

pub open spec fn is_space(c: char) -> bool {
    crate::text::is_space(c)
}

pub proof fn lemma_bare_end(t: Seq<char>, p: int)
    requires
        0 <= p <= t.len(),
    ensures
        p <= bare_end(t, p) <= t.len(),
    decreases t.len() - p,
{
    if p < t.len() && !is_space(t[p]) && !is_punct(t[p]) && !comment_at(t, p) {
        lemma_bare_end(t, p + 1);
    }
}

/// The position of the quote `q` that closes a string, scanning from `p`.
pub open spec fn closing(t: Seq<char>, p: int, q: char, escaped: bool) -> Option<int>
    decreases t.len() - p,
{
    if !(0 <= p < t.len()) {
        None
    } else if escaped {
        closing(t, p + 1, q, false)
    } else if t[p] == '\\' {
        closing(t, p + 1, q, true)
    } else if t[p] == q {
        Some(p)
    } else {
        closing(t, p + 1, q, false)
    }
}

pub proof fn lemma_closing(t: Seq<char>, p: int, q: char, escaped: bool)
    requires
        0 <= p,
    ensures
        closing(t, p, q, escaped) matches Some(c) ==> p <= c < t.len() && t[c] == q,
    decreases t.len() - p,
{
    if 0 <= p < t.len() {
        if escaped || t[p] == '\\' || t[p] != q {
            lemma_closing(t, p + 1, q, !escaped && t[p] == '\\');
        }
    }
}

/// Escape sequences resolved: `\n`, `\r`, `\t` become control characters,
/// any other escaped character stands for itself, and a final lone backslash stays.
pub open spec fn decode(s: Seq<char>) -> Seq<char>
    decreases s.len(),
{
    if s.len() == 0 {
        seq![]
    } else if s[0] == '\\' {
        if s.len() == 1 {
            seq!['\\']
        } else {
            seq![unescape(s[1])] + decode(s.subrange(2, s.len() as int))
        }
    } else {
        seq![s[0]] + decode(s.drop_first())
    }
}

/// The quoted string literal at `start`.
pub open spec fn token_at(t: Seq<char>, start: int) -> Result<Found, ChapterFault> {
    if !(0 <= start < t.len() && is_quote(t[start])) {
        Err(ChapterFault::NeedQuote(start))
    } else {
        match closing(t, start + 1, t[start], false) {
            None => Err(ChapterFault::Unclosed(start)),
            Some(c) => Ok(
                Found {
                    key: seq![],
                    value: decode(t.subrange(start + 1, c)),
                    start,
                    end: c + 1,
                    quote: t[start],
                },
            ),
        }
    }
}

pub proof fn lemma_token_at(t: Seq<char>, start: int)
    requires
        0 <= start,
    ensures
        token_at(t, start) matches Ok(f) ==> f.start == start && start < f.end <= t.len(),
{
    if 0 <= start < t.len() && is_quote(t[start]) {
        lemma_closing(t, start + 1, t[start], false);
    }
}

pub open spec fn is_translatable_key_spec(k: Seq<char>) -> bool {
    k == "title"@ || k == "subtitle"@ || k == "description"@ || k == "text"@ || k == "name"@
}

/// Whether some character is an ASCII letter.
pub open spec fn has_letter(s: Seq<char>) -> bool {
    exists|i: int| 0 <= i < s.len() && is_alpha(#[trigger] s[i])
}

/// The found list after offering the token `f` of the field `key`: strings
/// without any ASCII letter are not worth translating.
pub open spec fn offered(out: Seq<Found>, key: Seq<char>, f: Found) -> Seq<Found> {
    if has_letter(f.value) {
        out.push(Found { key, ..f })
    } else {
        out
    }
}

pub open spec fn opener(c: char) -> char {
    if c == ']' {
        '['
    } else if c == '}' {
        '{'
    } else {
        '('
    }
}

/// The strings directly inside a target list, from `pos` on, with the open
/// brackets `stack`: the found list and the position after the list.
pub open spec fn list_from(
    t: Seq<char>,
    pos: int,
    stack: Seq<char>,
    key: Seq<char>,
    out: Seq<Found>,
) -> Result<(Seq<Found>, int), ChapterFault>
    decreases t.len() - pos,
{
    if !(0 <= pos < t.len()) {
        Err(ChapterFault::ListUnclosed)
    } else {
        let p = trivia_end(t, pos);
        if p >= t.len() {
            Err(ChapterFault::ListUnclosed)
        } else {
            let c = t[p];
            proof {
                lemma_trivia_end(t, pos);
            }
            if is_quote(c) {
                match token_at(t, p) {
                    Err(e) => Err(e),
                    Ok(f) => {
                        proof {
                            lemma_token_at(t, p);
                        }
                        list_from(
                            t,
                            f.end,
                            stack,
                            key,
                            if stack =~= seq!['['] {
                                offered(out, key, f)
                            } else {
                                out
                            },
                        )
                    },
                }
            } else if c == '[' || c == '{' || c == '(' {
                list_from(t, p + 1, stack.push(c), key, out)
            } else if c == ']' || c == '}' || c == ')' {
                if stack.len() == 0 || stack.last() != opener(c) {
                    Err(ChapterFault::Unmatched(c))
                } else if stack.len() == 1 {
                    Ok((out, p + 1))
                } else {
                    list_from(t, p + 1, stack.drop_last(), key, out)
                }
            } else {
                list_from(t, p + 1, stack, key, out)
            }
        }
    }
}

/// The walk over the whole text from `pos` on, with the strings `out` found so far.
pub open spec fn walk(t: Seq<char>, pos: int, out: Seq<Found>) -> Result<Seq<Found>, ChapterFault>
    decreases t.len() - pos,
{
    if !(0 <= pos <= t.len()) {
        Ok(out)
    } else {
        let p = trivia_end(t, pos);
        if p >= t.len() {
            Ok(out)
        } else {
            let c = t[p];
            proof {
                lemma_trivia_end(t, pos);
                lemma_token_at(t, p);
                lemma_bare_end(t, p);
            }
            if is_punct(c) && !is_quote(c) {
                walk(t, p + 1, out)
            } else if !is_quote(c) && bare_end(t, p) == p {
                walk(t, p + 1, out)
            } else {
                let kt: Result<(Seq<char>, int), ChapterFault> = if is_quote(c) {
                    match token_at(t, p) {
                        Err(e) => Err(e),
                        Ok(f) => Ok((f.value, f.end)),
                    }
                } else {
                    Ok((t.subrange(p, bare_end(t, p)), bare_end(t, p)))
                };
                match kt {
                    Err(e) => Err(e),
                    Ok((key, tend)) => {
                        let colon = trivia_end(t, tend);
                        proof {
                            lemma_trivia_end(t, tend);
                        }
                        if !is_translatable_key_spec(key) || colon >= t.len() || t[colon] != ':' {
                            walk(t, tend, out)
                        } else {
                            let value = trivia_end(t, colon + 1);
                            proof {
                                lemma_trivia_end(t, colon + 1);
                                lemma_token_at(t, value);
                            }
                            if value >= t.len() {
                                Err(ChapterFault::MissingValue(key))
                            } else if is_quote(t[value]) {
                                match token_at(t, value) {
                                    Err(e) => Err(e),
                                    Ok(f) => walk(t, f.end, offered(out, key, f)),
                                }
                            } else if t[value] == '[' {
                                match list_from(t, value + 1, seq!['['], key, out) {
                                    Err(e) => Err(e),
                                    Ok((o2, _)) => walk(t, value + 1, o2),
                                }
                            } else {
                                walk(t, value, out)
                            }
                        }
                    },
                }
            }
        }
    }
}


/// The message that reports `f` in the text `t`.
pub open spec fn fault_message(t: Seq<char>, f: ChapterFault) -> Seq<char> {
    match f {
        ChapterFault::NeedQuote(p) => "章节 SNBT 在偏移 "@ + decimal(clamped_utf8_len(t.take(p)))
            + " 处需要引号字符串"@,
        ChapterFault::Unclosed(p) => "章节 SNBT 在偏移 "@ + decimal(clamped_utf8_len(t.take(p)))
            + " 处的字符串没有结束引号"@,
        ChapterFault::MissingValue(k) => "章节字段 "@ + k + " 缺少值"@,
        ChapterFault::ListUnclosed => "章节 SNBT 的目标字符串列表没有结束括号"@,
        ChapterFault::Unmatched(c) => "章节 SNBT 的 "@ + seq![c] + " 没有匹配的起始括号"@,
        ChapterFault::UnclosedString => "章节 SNBT 存在未闭合的字符串"@,
        ChapterFault::UnclosedBracket => "章节 SNBT 存在未闭合的括号"@,
    }
}

fn offset_message(t: &Vec<char>, p: usize, unclosed: bool) -> (s: String)
    requires
        p <= t.len(),
    ensures
        s@ == fault_message(
            t@,
            if unclosed {
                ChapterFault::Unclosed(p as int)
            } else {
                ChapterFault::NeedQuote(p as int)
            },
        ),
{
    let mut s = String::new();
    push_str(&mut s, "章节 SNBT 在偏移 ");
    push_decimal(&mut s, byte_offset(t, p));
    if unclosed {
        push_str(&mut s, " 处的字符串没有结束引号");
    } else {
        push_str(&mut s, " 处需要引号字符串");
    }
    s
}

fn unmatched_message(c: char) -> (s: String)
    ensures
        s@ == fault_message(seq![], ChapterFault::Unmatched(c)),
{
    let mut s = String::new();
    push_str(&mut s, "章节 SNBT 的 ");
    push_char(&mut s, c);
    push_str(&mut s, " 没有匹配的起始括号");
    s
}

// ---------------------------------------------------------------------------
// Scanning.

fn trivia_end_of(t: &Vec<char>, p: usize) -> (r: usize)
    requires
        p <= t.len(),
    ensures
        r == trivia_end(t@, p as int),
        p <= r <= t.len(),
{
    let ghost tt = t@;
    proof {
        lemma_trivia_end(tt, p as int);
    }
    let mut pos = p;
    loop
        invariant
            p <= pos <= t.len(),
            trivia_end(tt, pos as int) == trivia_end(tt, p as int),
            t@ == tt,
        ensures
            pos == trivia_end(tt, p as int),
        decreases t.len() - pos,
    {
        let ghost outer = pos as int;
        while pos < t.len() && space(t[pos])
            invariant
                outer <= pos <= t.len(),
                skip_ws(tt, pos as int) == skip_ws(tt, outer),
                t@ == tt,
            decreases t.len() - pos,
        {
            pos += 1;
        }
        proof {
            lemma_skip_ws(tt, outer);
        }
        let comment = (pos < t.len() && pos + 1 < t.len() && t[pos] == '/' && t[pos + 1] == '/')
            || (pos < t.len() && t[pos] == '#');
        if !comment {
            break;
        }
        let start = pos;
        proof {
            lemma_line_end(tt, start as int);
        }
        while pos < t.len() && t[pos] != '\n'
            invariant
                start <= pos <= t.len(),
                line_end(tt, pos as int) == line_end(tt, start as int),
                t@ == tt,
            decreases t.len() - pos,
        {
            pos += 1;
        }
        if pos < t.len() {
            pos += 1;
        } else {
            break;
        }
    }
    pos
}

fn bare_end_of(t: &Vec<char>, p: usize) -> (r: usize)
    requires
        p <= t.len(),
    ensures
        r == bare_end(t@, p as int),
{
    let mut pos = p;
    while pos < t.len()
        invariant
            p <= pos <= t.len(),
            bare_end(t@, pos as int) == bare_end(t@, p as int),
        ensures
            pos == bare_end(t@, p as int),
        decreases t.len() - pos,
    {
        let c = t[pos];
        let comment = (pos + 1 < t.len() && c == '/' && t[pos + 1] == '/') || c == '#';
        if space(c) || c == '{' || c == '}' || c == '[' || c == ']' || c == '(' || c == ')' || c
            == ':' || c == ',' || comment {
            break;
        }
        pos += 1;
    }
    pos
}

/// The decoded contents of `s[from..to]`.
fn decode_range(s: &Vec<char>, from: usize, to: usize) -> (r: String)
    requires
        from <= to <= s.len(),
    ensures
        r@ == decode(s@.subrange(from as int, to as int)),
{
    let mut out = String::new();
    let mut i = from;
    while i < to
        invariant
            from <= i <= to <= s.len(),
            out@ + decode(s@.subrange(i as int, to as int)) == decode(
                s@.subrange(from as int, to as int),
            ),
        decreases to - i,
    {
        let ghost rest = s@.subrange(i as int, to as int);
        let c = s[i];
        if c == '\\' {
            if i + 1 < to {
                let e = s[i + 1];
                let u = if e == 'n' {
                    '\n'
                } else if e == 'r' {
                    '\r'
                } else if e == 't' {
                    '\t'
                } else {
                    e
                };
                assert(rest.subrange(2, rest.len() as int) =~= s@.subrange(i + 2, to as int));
                push_char(&mut out, u);
                i += 2;
            } else {
                push_char(&mut out, '\\');
                i += 1;
                assert(s@.subrange(i as int, to as int) =~= Seq::<char>::empty());
            }
        } else {
            assert(rest.drop_first() =~= s@.subrange(i + 1, to as int));
            push_char(&mut out, c);
            i += 1;
        }
        assert(out@ + decode(s@.subrange(i as int, to as int)) =~= decode(
            s@.subrange(from as int, to as int),
        ));
    }
    assert(s@.subrange(i as int, to as int) =~= Seq::<char>::empty());
    out
}

/// A string token of the file, in executable form.
/// A string literal read from a chapter text: its field, decoded value, span
/// (quotes included) and quote character.
pub struct Token {
    pub key: String,
    pub value: String,
    pub start: usize,
    pub end: usize,
    pub quote: char,
}

impl View for Token {
    type V = Found;

    open spec fn view(&self) -> Found {
        Found {
            key: self.key@,
            value: self.value@,
            start: self.start as int,
            end: self.end as int,
            quote: self.quote,
        }
    }
}

spec fn found_view(v: Seq<Token>) -> Seq<Found> {
    v.map_values(|x: Token| x@)
}

/// Reads the string literal that starts at `start`.
pub fn quoted_token(t: &Vec<char>, start: usize) -> (r: Result<Token, String>)
    requires
        start <= t.len(),
    ensures
        match token_at(t@, start as int) {
            Ok(f) => r matches Ok(x) && x@ == Found { key: seq![], ..f },
            Err(e) => r matches Err(m) && m@ == fault_message(t@, e),
        },
{
    if start >= t.len() || (t[start] != '\'' && t[start] != '"') {
        return Err(offset_message(t, start, false));
    }
    let quote = t[start];
    let mut position = start + 1;
    let mut escaped = false;
    while position < t.len()
        invariant
            start < position <= t.len(),
            quote == t@[start as int],
            quote == '\'' || quote == '"',
            closing(t@, position as int, quote, escaped) == closing(
                t@,
                start + 1,
                quote,
                false,
            ),
        decreases t.len() - position,
    {
        let c = t[position];
        if escaped {
            escaped = false;
        } else if c == '\\' {
            escaped = true;
        } else if c == quote {
            return Ok(
                Token {
                    key: String::new(),
                    value: decode_range(t, start + 1, position),
                    start,
                    end: position + 1,
                    quote,
                },
            );
        }
        position += 1;
    }
    Err(offset_message(t, start, true))
}

fn is_translatable_chars(k: &Vec<char>) -> (b: bool)
    ensures
        b == is_translatable_key_spec(k@),
{
    let s = string_of(k);
    is_translatable_key(s.as_str())
}

/// The five fields whose string values players read.
pub fn is_translatable_key(value: &str) -> (b: bool)
    ensures
        b == is_translatable_key_spec(value@),
{
    let v = chars_of(value);
    let r = eq_lit(&v, "title") || eq_lit(&v, "subtitle") || eq_lit(&v, "description")
        || eq_lit(&v, "text") || eq_lit(&v, "name");
    r
}

fn eq_lit(v: &Vec<char>, lit: &str) -> (b: bool)
    ensures
        b == (v@ == lit@),
{
    let w = chars_of(lit);
    if v.len() != w.len() {
        return false;
    }
    let mut i: usize = 0;
    while i < v.len()
        invariant
            v.len() == w.len(),
            w@ == lit@,
            i <= v.len(),
            forall|j: int| 0 <= j < i ==> v@[j] == w@[j],
        decreases v.len() - i,
    {
        if v[i] != w[i] {
            return false;
        }
        i += 1;
    }
    assert(v@ =~= w@);
    true
}

fn any_letter(s: &String) -> (b: bool)
    ensures
        b == has_letter(s@),
{
    let v = chars_of(s.as_str());
    let mut i: usize = 0;
    while i < v.len()
        invariant
            i <= v.len(),
            v@ == s@,
            forall|j: int| 0 <= j < i ==> !is_alpha(#[trigger] v@[j]),
        decreases v.len() - i,
    {
        if alpha(v[i]) {
            return true;
        }
        i += 1;
    }
    false
}

fn offer(out: &mut Vec<Token>, key: &String, token: Token)
    ensures
        found_view(final(out)@) == offered(found_view(old(out)@), key@, token@),
{
    let ghost before = found_view(out@);
    if any_letter(&token.value) {
        let t = Token { key: key.clone(), ..token };
        let ghost tv = t@;
        out.push(t);
        assert(found_view(out@) =~= before.push(tv));
    }
}


fn collect_list_strings(t: &Vec<char>, start: usize, key: &String, out: &mut Vec<Token>) -> (r:
    Result<usize, String>)
    requires
        start < t.len(),
    ensures
        match list_from(t@, start + 1, seq!['['], key@, found_view(old(out)@)) {
            Ok((o, e)) => r == Ok::<usize, String>(e as usize) && found_view(final(out)@) == o,
            Err(f) => r matches Err(m) && m@ == fault_message(t@, f),
        },
{
    let ghost goal = list_from(t@, start + 1, seq!['['], key@, found_view(out@));
    let mut stack: Vec<char> = Vec::new();
    stack.push('[');
    assert(stack@ =~= seq!['[']);
    let mut position = start + 1;
    loop
        invariant
            start < position <= t.len(),
            goal == list_from(t@, start + 1, seq!['['], key@, found_view(old(out)@)),
            list_from(t@, position as int, stack@, key@, found_view(out@)) == goal,
        decreases t.len() - position,
    {
        if position >= t.len() {
            return Err("章节 SNBT 的目标字符串列表没有结束括号".to_owned());
        }
        let ghost before = position as int;
        position = trivia_end_of(t, position);
        if position >= t.len() {
            return Err("章节 SNBT 的目标字符串列表没有结束括号".to_owned());
        }
        let character = t[position];
        if character == '\'' || character == '"' {
            proof {
                lemma_token_at(t@, position as int);
            }
            let token = match quoted_token(t, position) {
                Ok(token) => token,
                Err(m) => return Err(m),
            };
            position = token.end;
            if stack.len() == 1 && stack[0] == '[' {
                assert(stack@ =~= seq!['[']);
                offer(out, key, token);
            } else {
                assert(!(stack@ =~= seq!['['])) by {
                    if stack@ =~= seq!['['] {
                        assert(stack@.len() == 1 && stack@[0] == '[');
                    }
                }
            }
            continue;
        }
        if character == '[' || character == '{' || character == '(' {
            stack.push(character);
        } else if character == ']' || character == '}' || character == ')' {
            let expected = if character == ']' {
                '['
            } else if character == '}' {
                '{'
            } else {
                '('
            };
            if stack.len() == 0 || stack[stack.len() - 1] != expected {
                return Err(unmatched_message(character));
            }
            stack.pop();
            if stack.len() == 0 {
                return Ok(position + 1);
            }
        }
        position += 1;
    }
}

/// Every string value of a player-facing field, in the order the walk meets them.
fn walk_text(t: &Vec<char>) -> (r: Result<Vec<Token>, String>)
    ensures
        match walk(t@, 0, seq![]) {
            Ok(o) => r matches Ok(v) && found_view(v@) == o,
            Err(f) => r matches Err(m) && m@ == fault_message(t@, f),
        },
{
    let mut out: Vec<Token> = Vec::new();
    assert(found_view(out@) =~= Seq::<Found>::empty());
    let mut position: usize = 0;
    loop
        invariant
            position <= t.len(),
            walk(t@, position as int, found_view(out@)) == walk(t@, 0, seq![]),
        decreases t.len() - position,
    {
        let ghost before = position as int;
        position = trivia_end_of(t, position);
        if position >= t.len() {
            return Ok(out);
        }
        let p = position;
        let character = t[p];
        proof {
            lemma_token_at(t@, p as int);
            lemma_bare_end(t@, p as int);
        }
        let (key, token_end) = if character == '\'' || character == '"' {
            let token = match quoted_token(t, p) {
                Ok(token) => token,
                Err(m) => return Err(m),
            };
            (token.value, token.end)
        } else if character == '{' || character == '}' || character == '[' || character == ']'
            || character == '(' || character == ')' || character == ':' || character == ',' {
            position = p + 1;
            continue;
        } else {
            let end = bare_end_of(t, p);
            if end == p {
                position = p + 1;
                continue;
            }
            (string_of_range(t, p, end), end)
        };
        let colon = trivia_end_of(t, token_end);
        if !is_translatable_key(key.as_str()) || colon >= t.len() || t[colon] != ':' {
            position = token_end;
            continue;
        }
        let value = trivia_end_of(t, colon + 1);
        if value >= t.len() {
            let mut m = String::new();
            push_str(&mut m, "章节字段 ");
            push_str(&mut m, key.as_str());
            push_str(&mut m, " 缺少值");
            return Err(m);
        }
        let value_start = t[value];
        if value_start == '\'' || value_start == '"' {
            let token = match quoted_token(t, value) {
                Ok(token) => token,
                Err(m) => return Err(m),
            };
            proof {
                lemma_token_at(t@, value as int);
            }
            position = token.end;
            offer(&mut out, &key, token);
        } else if value_start == '[' {
            match collect_list_strings(t, value, &key, &mut out) {
                Ok(_) => {},
                Err(m) => return Err(m),
            }
            position = value + 1;
        } else {
            position = value;
        }
    }
}

// ---------------------------------------------------------------------------
// Source order.

/// Where a stable insertion puts an item with position `x` into `s`:
/// after every item that does not start later.
pub open spec fn insert_pos(x: int, s: Seq<Found>) -> int
    decreases s.len(),
{
    if s.len() == 0 {
        0
    } else if s.last().start <= x {
        s.len() as int
    } else {
        insert_pos(x, s.drop_last())
    }
}

/// A stable sort by start position.
pub open spec fn sort_by_start(s: Seq<Found>) -> Seq<Found>
    decreases s.len(),
{
    if s.len() == 0 {
        s
    } else {
        let rest = sort_by_start(s.drop_last());
        rest.insert(insert_pos(s.last().start, rest), s.last())
    }
}

pub proof fn lemma_insert_pos(x: int, s: Seq<Found>)
    ensures
        0 <= insert_pos(x, s) <= s.len(),
    decreases s.len(),
{
    if s.len() > 0 && s.last().start > x {
        lemma_insert_pos(x, s.drop_last());
    }
}

pub proof fn lemma_sort_len(s: Seq<Found>)
    ensures
        sort_by_start(s).len() == s.len(),
    decreases s.len(),
{
    if s.len() > 0 {
        lemma_sort_len(s.drop_last());
        lemma_insert_pos(s.last().start, sort_by_start(s.drop_last()));
    }
}

fn sort_tokens(v: Vec<Token>) -> (r: Vec<Token>)
    ensures
        found_view(r@) == sort_by_start(found_view(v@)),
{
    let ghost fv = found_view(v@);
    let n = v.len();
    let mut sorted: Vec<Token> = Vec::new();
    let mut rest = v;
    let mut i: usize = 0;
    assert(fv.take(0) =~= Seq::<Found>::empty());
    assert(found_view(sorted@) =~= Seq::<Found>::empty());
    while rest.len() > 0
        invariant
            i <= fv.len(),
            fv.len() == n,
            found_view(rest@) =~= fv.subrange(i as int, fv.len() as int),
            found_view(sorted@) == sort_by_start(fv.take(i as int)),
        decreases rest.len(),
    {
        let ghost before = found_view(rest@);
        assert(before.len() == rest@.len());
        assert(before.len() == fv.len() - i);
        let x = rest.remove(0);
        let ghost xv = x@;
        assert(xv == before[0]);
        assert(i < fv.len());
        assert(fv.subrange(i as int, fv.len() as int)[0] == fv[i as int]);
        assert(xv == fv[i as int]);
        assert(found_view(rest@) =~= before.subrange(1, before.len() as int));
        assert(found_view(rest@) =~= fv.subrange(i + 1, fv.len() as int));
        let ghost s0 = found_view(sorted@);
        let mut k = sorted.len();
        assert(s0.take(k as int) =~= s0);
        while k > 0 && sorted[k - 1].start > x.start
            invariant
                k <= sorted.len(),
                s0 == found_view(sorted@),
                s0.len() == sorted.len(),
                xv == x@,
                insert_pos(xv.start, s0.take(k as int)) == insert_pos(xv.start, s0),
            decreases k,
        {
            assert(s0.take(k as int).drop_last() =~= s0.take(k - 1));
            assert(s0.take(k as int).last() == s0[k - 1]);
            assert(s0[k - 1].start == sorted@[k - 1].start as int);
            k -= 1;
        }
        assert(insert_pos(xv.start, s0.take(k as int)) == k as int) by {
            if k > 0 {
                assert(s0.take(k as int).last() == s0[k - 1]);
                assert(s0[k - 1].start == sorted@[k - 1].start as int);
            }
        }
        sorted.insert(k, x);
        assert(fv.take(i + 1).drop_last() =~= fv.take(i as int));
        assert(fv.take(i + 1).last() == xv);
        assert(found_view(sorted@) =~= s0.insert(k as int, xv));
        i += 1;
    }
    assert(i == fv.len());
    assert(fv.take(i as int) =~= fv);
    sorted
}


// ---------------------------------------------------------------------------
// Structure check.

pub open spec fn is_open(c: char) -> bool {
    c == '[' || c == '{' || c == '('
}

pub open spec fn is_close(c: char) -> bool {
    c == ']' || c == '}' || c == ')'
}

/// Brackets balance outside strings and comments, and every string is closed.
pub open spec fn structure_from(
    t: Seq<char>,
    i: int,
    stack: Seq<char>,
    quote: Option<char>,
    escaped: bool,
    comment: bool,
) -> Result<(), ChapterFault>
    decreases t.len() - i,
{
    if !(0 <= i < t.len()) {
        if quote is Some || escaped {
            Err(ChapterFault::UnclosedString)
        } else if stack.len() > 0 {
            Err(ChapterFault::UnclosedBracket)
        } else {
            Ok(())
        }
    } else {
        let c = t[i];
        if comment {
            structure_from(t, i + 1, stack, quote, escaped, c != '\n')
        } else if quote is Some {
            if escaped {
                structure_from(t, i + 1, stack, quote, false, false)
            } else if c == '\\' {
                structure_from(t, i + 1, stack, quote, true, false)
            } else if c == quote->0 {
                structure_from(t, i + 1, stack, None, false, false)
            } else {
                structure_from(t, i + 1, stack, quote, false, false)
            }
        } else if c == '/' && i + 1 < t.len() && t[i + 1] == '/' {
            structure_from(t, i + 2, stack, None, false, true)
        } else if c == '#' {
            structure_from(t, i + 1, stack, None, false, true)
        } else if is_quote(c) {
            structure_from(t, i + 1, stack, Some(c), false, false)
        } else if is_open(c) {
            structure_from(t, i + 1, stack.push(c), None, false, false)
        } else if is_close(c) {
            if stack.len() == 0 || stack.last() != opener(c) {
                Err(ChapterFault::Unmatched(c))
            } else {
                structure_from(t, i + 1, stack.drop_last(), None, false, false)
            }
        } else {
            structure_from(t, i + 1, stack, None, false, false)
        }
    }
}

pub open spec fn structure(t: Seq<char>) -> Result<(), ChapterFault> {
    structure_from(t, 0, seq![], None, false, false)
}

fn check_structure(t: &Vec<char>) -> (r: Result<(), String>)
    ensures
        match structure(t@) {
            Ok(()) => r is Ok,
            Err(f) => r matches Err(m) && m@ == fault_message(t@, f),
        },
{
    let mut stack: Vec<char> = Vec::new();
    let mut quote: Option<char> = None;
    let mut escaped = false;
    let mut comment = false;
    let mut i: usize = 0;
    while i < t.len()
        invariant
            structure_from(t@, i as int, stack@, quote, escaped, comment) == structure(t@),
            quote is None ==> !escaped,
        decreases t.len() - i,
    {
        let c = t[i];
        if comment {
            if c == '\n' {
                comment = false;
            }
            i += 1;
            continue;
        }
        match quote {
            Some(d) => {
                if escaped {
                    escaped = false;
                } else if c == '\\' {
                    escaped = true;
                } else if c == d {
                    quote = None;
                }
                i += 1;
                continue;
            },
            None => {},
        }
        if c == '/' && i + 1 < t.len() && t[i + 1] == '/' {
            comment = true;
            i += 2;
            continue;
        }
        if c == '#' {
            comment = true;
        } else if c == '\'' || c == '"' {
            quote = Some(c);
        } else if c == '[' || c == '{' || c == '(' {
            stack.push(c);
        } else if c == ']' || c == '}' || c == ')' {
            let expected = if c == ']' {
                '['
            } else if c == '}' {
                '{'
            } else {
                '('
            };
            if stack.len() == 0 || stack[stack.len() - 1] != expected {
                return Err(unmatched_message(c));
            }
            stack.pop();
        }
        i += 1;
    }
    if quote.is_some() || escaped {
        return Err("章节 SNBT 存在未闭合的字符串".to_owned());
    }
    if stack.len() > 0 {
        return Err("章节 SNBT 存在未闭合的括号".to_owned());
    }
    Ok(())
}

/// Checks that brackets balance outside strings and comments and that every
/// string is closed.
pub fn validate_structure(text: &str) -> (r: Result<(), String>)
    ensures
        match structure(text@) {
            Ok(()) => r is Ok,
            Err(f) => r matches Err(m) && m@ == fault_message(text@, f),
        },
{
    check_structure(&chars_of(text))
}

// ---------------------------------------------------------------------------
// Quoting.

pub open spec fn qesc_char(c: char, q: char) -> Seq<char> {
    if c == '\\' {
        seq!['\\', '\\']
    } else if c == q {
        seq!['\\', q]
    } else if c == '\n' {
        seq!['\\', 'n']
    } else if c == '\r' {
        seq!['\\', 'r']
    } else if c == '\t' {
        seq!['\\', 't']
    } else {
        seq![c]
    }
}

pub open spec fn qesc(s: Seq<char>, q: char) -> Seq<char>
    decreases s.len(),
{
    if s.len() == 0 {
        seq![]
    } else {
        qesc_char(s[0], q) + qesc(s.drop_first(), q)
    }
}

/// `s` as a string literal in quotes `q`.
pub open spec fn quote_text(s: Seq<char>, q: char) -> Seq<char> {
    seq![q] + qesc(s, q) + seq![q]
}

fn push_quote_text(out: &mut Vec<char>, s: &Vec<char>, q: char)
    ensures
        final(out)@ == old(out)@ + quote_text(s@, q),
{
    let ghost base = out@;
    out.push(q);
    let mut i: usize = 0;
    assert(s@.subrange(0, s.len() as int) =~= s@);
    assert(quote_text(s@, q).drop_last() =~= seq![q] + qesc(s@, q));
    assert(out@ + qesc(s@.subrange(0, s.len() as int), q) =~= base + quote_text(s@, q).drop_last());
    while i < s.len()
        invariant
            i <= s.len(),
            out@ + qesc(s@.subrange(i as int, s.len() as int), q) == base + quote_text(s@, q).drop_last(),
        decreases s.len() - i,
    {
        let ghost before = out@;
        let c = s[i];
        let ghost rest = s@.subrange(i as int, s.len() as int);
        assert(rest.drop_first() =~= s@.subrange(i + 1, s.len() as int));
        if c == '\\' {
            out.push('\\');
            out.push('\\');
        } else if c == q {
            out.push('\\');
            out.push(q);
        } else if c == '\n' {
            out.push('\\');
            out.push('n');
        } else if c == '\r' {
            out.push('\\');
            out.push('r');
        } else if c == '\t' {
            out.push('\\');
            out.push('t');
        } else {
            out.push(c);
        }
        assert(out@ =~= before + qesc_char(c, q));
        i += 1;
        assert(out@ + qesc(s@.subrange(i as int, s.len() as int), q) =~= before + qesc(rest, q));
    }
    assert(s@.subrange(i as int, s.len() as int) =~= Seq::<char>::empty());
    assert(s@.subrange(0, s.len() as int) =~= s@);
    out.push(q);
    assert(out@ =~= base + quote_text(s@, q));
}

/// Reading back a string literal that quoting produced gives the same
/// text and ends at the closing quote, whatever the text holds: a
/// translation cannot break out of the literal it replaces.
pub proof fn lemma_quoted_literal_reads_back(t: Seq<char>, p: int, s: Seq<char>, q: char)
    requires
        is_quote(q),
        at(t, p, qesc(s, q) + seq![q]),
    ensures
        closing(t, p, q, false) == Some(p + qesc(s, q).len()),
        decode(t.subrange(p, p + qesc(s, q).len())) == s,
    decreases s.len(),
{
    if s.len() == 0 {
        assert((qesc(s, q) + seq![q])[0] == q);
        assert(t[p + 0] == q);
        assert(t.subrange(p, p) =~= Seq::<char>::empty());
        assert(s =~= Seq::<char>::empty());
    } else {
        let c = s[0];
        let rest = s.drop_first();
        let e = qesc_char(c, q);
        assert(qesc(s, q) + seq![q] =~= e + (qesc(rest, q) + seq![q]));
        lemma_at_split(t, p, e, qesc(rest, q) + seq![q]);
        lemma_quoted_literal_reads_back(t, p + e.len(), rest, q);
        let whole = t.subrange(p, p + qesc(s, q).len());
        if c == '\\' || c == q || c == '\n' || c == '\r' || c == '\t' {
            lemma_at_char(t, p, e, 0);
            lemma_at_char(t, p, e, 1);
            assert(t[p] == '\\');
            assert(closing(t, p + 1, q, true) == closing(t, p + 2, q, false));
            assert(whole[0] == '\\');
            assert(whole[1] == t[p + 1]);
            assert(unescape(t[p + 1]) == c);
            assert(whole.subrange(2, whole.len() as int) =~= t.subrange(p + 2, p + qesc(s, q).len()));
            assert(decode(whole) =~= seq![c] + rest);
        } else {
            lemma_at_char(t, p, e, 0);
            assert(t[p] == c);
            assert(whole[0] == c);
            assert(whole.drop_first() =~= t.subrange(p + 1, p + qesc(s, q).len()));
            assert(decode(whole) =~= seq![c] + rest);
        }
        assert(seq![c] + rest =~= s);
    }
}

/// Decoding undoes quoting: the literal that `quote` writes with a quote
/// character is read back by `quoted_token` as one token that spans the whole
/// literal, with that quote character and the text it was given.
pub proof fn law_quote_then_read(s: Seq<char>, q: char)
    requires
        is_quote(q),
    ensures
        token_at(quote_text(s, q), 0) == Ok::<Found, ChapterFault>(
            Found { key: seq![], value: s, start: 0, end: quote_text(s, q).len() as int, quote: q },
        ),
{
    let t = quote_text(s, q);
    assert(t =~= seq![q] + (qesc(s, q) + seq![q]));
    assert forall|i: int| 0 <= i < t.len() implies t[0 + i] == #[trigger] t[i] by {}
    assert(at(t, 0, seq![q] + (qesc(s, q) + seq![q])));
    lemma_at_split(t, 0, seq![q], qesc(s, q) + seq![q]);
    lemma_quoted_literal_reads_back(t, 1, s, q);
}


/// `s` as a string literal in quotes `q`, with backslash, the quote, newline,
/// carriage return and tab escaped.
pub fn quote(s: &str, q: char) -> (r: String)
    ensures
        r@ == quote_text(s@, q),
{
    let mut out: Vec<char> = Vec::new();
    push_quote_text(&mut out, &chars_of(s), q);
    assert(out@ =~= quote_text(s@, q));
    string_of(&out)
}

// ---------------------------------------------------------------------------
// Extraction.

/// The segment identifier: file name, position in source order, field name.
pub open spec fn cache_id_text(file_name: Seq<char>, index: int, key: Seq<char>) -> Seq<char> {
    file_name + seq![':'] + decimal(index as nat) + seq![':'] + key
}

/// `v` is the segment list of the found strings `f`, in order.
pub open spec fn segments_of(
    v: Seq<Segment>,
    f: Seq<Found>,
    path: Seq<char>,
    file_name: Seq<char>,
) -> bool {
    &&& v.len() == f.len()
    &&& forall|i: int|
        0 <= i < v.len() ==> {
            &&& (#[trigger] v[i]).path@ == path
            &&& v[i].key@ == f[i].key
            &&& v[i].source@ == f[i].value
            &&& v[i].start == f[i].start
            &&& v[i].end == f[i].end
            &&& v[i].quote == f[i].quote
            &&& v[i].index == i
            &&& v[i].cache_id@ == cache_id_text(file_name, i, f[i].key)
        }
}

/// What extraction finds in the text `t`: after the structure check, the
/// walk's strings in source order.
pub open spec fn extracted(t: Seq<char>) -> Result<Seq<Found>, ChapterFault> {
    match structure(t) {
        Err(f) => Err(f),
        Ok(()) => match walk(t, 0, seq![]) {
            Err(f) => Err(f),
            Ok(o) => Ok(sort_by_start(o)),
        },
    }
}

fn extract_tokens(t: &Vec<char>) -> (r: Result<Vec<Token>, String>)
    ensures
        match extracted(t@) {
            Ok(f) => r matches Ok(v) && found_view(v@) == f,
            Err(e) => r matches Err(m) && m@ == fault_message(t@, e),
        },
{
    match check_structure(t) {
        Ok(()) => {},
        Err(m) => return Err(m),
    }
    match walk_text(t) {
        Ok(v) => Ok(sort_tokens(v)),
        Err(m) => Err(m),
    }
}

/// The translatable strings of a chapter file's text: the string values of
/// `title`, `subtitle`, `description`, `text` and `name` fields (strings
/// directly inside a list value count, and so do fields nested in it), that
/// hold an ASCII letter, in source order. `file_name` names the file in the
/// segment identifiers.
pub fn extract(path: &str, file_name: &str, text: &str) -> (r: Result<Vec<Segment>, String>)
    ensures
        match extracted(text@) {
            Ok(f) => r matches Ok(v) && segments_of(v@, f, path@, file_name@),
            Err(e) => r matches Err(m) && m@ == fault_message(text@, e),
        },
{
    let t = chars_of(text);
    let tokens = match extract_tokens(&t) {
        Ok(v) => v,
        Err(m) => return Err(m),
    };
    let ghost f = found_view(tokens@);
    let mut out: Vec<Segment> = Vec::new();
    let mut rest = tokens;
    let mut index: usize = 0;
    let n = rest.len();
    while rest.len() > 0
        invariant
            index <= f.len(),
            f.len() == n,
            found_view(rest@) =~= f.subrange(index as int, f.len() as int),
            out@.len() == index,
            segments_of(out@, f.take(index as int), path@, file_name@),
        decreases rest.len(),
    {
        let ghost before = found_view(rest@);
        assert(before.len() == rest@.len());
        let token = rest.remove(0);
        assert(token@ == before[0]);
        assert(f.subrange(index as int, f.len() as int)[0] == f[index as int]);
        assert(found_view(rest@) =~= before.subrange(1, before.len() as int));
        let mut cache_id = owned_str(file_name);
        push_char(&mut cache_id, ':');
        push_decimal(&mut cache_id, index);
        push_char(&mut cache_id, ':');
        push_str(&mut cache_id, token.key.as_str());
        let ghost tv = token@;
        let seg = Segment {
            path: owned_str(path),
            key: token.key,
            source: token.value,
            start: token.start,
            end: token.end,
            quote: token.quote,
            index,
            cache_id,
        };
        let ghost prev = out@;
        out.push(seg);
        proof {
            assert(f.take(index + 1) =~= f.take(index as int).push(tv));
            assert forall|i: int| 0 <= i < out@.len() implies {
                &&& (#[trigger] out@[i]).path@ == path@
                &&& out@[i].key@ == f.take(index + 1)[i].key
                &&& out@[i].source@ == f.take(index + 1)[i].value
                &&& out@[i].start == f.take(index + 1)[i].start
                &&& out@[i].end == f.take(index + 1)[i].end
                &&& out@[i].quote == f.take(index + 1)[i].quote
                &&& out@[i].index == i
                &&& out@[i].cache_id@ == cache_id_text(file_name@, i, f.take(index + 1)[i].key)
            } by {
                if i < index {
                    assert(out@[i] == prev[i]);
                    assert(f.take(index + 1)[i] == f.take(index as int)[i]);
                }
            }
        }
        index += 1;
    }
    assert(f.take(index as int) =~= f);
    Ok(out)
}

fn owned_str(s: &str) -> (r: String)
    ensures
        r@ == s@,
{
    s.to_owned()
}

// ---------------------------------------------------------------------------
// Write-back.

/// The first replacement for the position `i`.
pub open spec fn first_replacement(reps: Seq<(usize, Seq<char>)>, i: int) -> Option<Seq<char>>
    decreases reps.len(),
{
    if reps.len() == 0 {
        None
    } else if reps[0].0 == i {
        Some(reps[0].1)
    } else {
        first_replacement(reps.drop_first(), i)
    }
}

/// Some position has two replacements.
pub open spec fn has_duplicate(reps: Seq<(usize, Seq<char>)>) -> bool {
    exists|i: int, j: int| 0 <= i < j < reps.len() && reps[i].0 == reps[j].0
}

/// The found strings from index `j` on that have a replacement, with it.
pub open spec fn chosen(f: Seq<Found>, reps: Seq<(usize, Seq<char>)>, j: int) -> Seq<
    (Found, Seq<char>),
>
    decreases f.len() - j,
{
    if 0 <= j < f.len() {
        match first_replacement(reps, j) {
            Some(x) => seq![(f[j], x)] + chosen(f, reps, j + 1),
            None => chosen(f, reps, j + 1),
        }
    } else {
        seq![]
    }
}

/// Where a stable insertion puts an item into a list sorted by decreasing start.
pub open spec fn insert_pos_desc(x: int, s: Seq<(Found, Seq<char>)>) -> int
    decreases s.len(),
{
    if s.len() == 0 {
        0
    } else if s.last().0.start >= x {
        s.len() as int
    } else {
        insert_pos_desc(x, s.drop_last())
    }
}

/// A stable sort by decreasing start position.
pub open spec fn sort_desc(s: Seq<(Found, Seq<char>)>) -> Seq<(Found, Seq<char>)>
    decreases s.len(),
{
    if s.len() == 0 {
        s
    } else {
        let rest = sort_desc(s.drop_last());
        rest.insert(insert_pos_desc(s.last().0.start, rest), s.last())
    }
}

pub open spec fn clamp(x: int, lo: int, hi: int) -> int {
    if x < lo {
        lo
    } else if x > hi {
        hi
    } else {
        x
    }
}

/// The text with the literal of `m` replaced by its translation, quoted alike.
pub open spec fn splice(t: Seq<char>, m: (Found, Seq<char>)) -> Seq<char> {
    let s = clamp(m.0.start, 0, t.len() as int);
    let e = clamp(m.0.end, s, t.len() as int);
    t.subrange(0, s) + quote_text(m.1, m.0.quote) + t.subrange(e, t.len() as int)
}

/// The text after all replacements, applied in the order of `ms`.
pub open spec fn spliced(t: Seq<char>, ms: Seq<(Found, Seq<char>)>) -> Seq<char>
    decreases ms.len(),
{
    if ms.len() == 0 {
        t
    } else {
        spliced(splice(t, ms[0]), ms.drop_first())
    }
}

/// What writing the replacements into the text `t` gives: the new text and
/// the number of replaced strings, or why nothing is written.
pub open spec fn rendered(t: Seq<char>, reps: Seq<(usize, Seq<char>)>) -> Result<
    (Seq<char>, nat),
    Seq<char>,
> {
    match structure(t) {
        Err(f) => Err(fault_message(t, f)),
        Ok(()) => if has_duplicate(reps) {
            Err("章节写回包含重复的翻译位置"@)
        } else {
            match extracted(t) {
                Err(f) => Err(fault_message(t, f)),
                Ok(f) => {
                    let ms = chosen(f, reps, 0);
                    if ms.len() != reps.len() {
                        Err("章节写回位置与原文件不一致，已取消写入"@)
                    } else {
                        let out = spliced(t, sort_desc(ms));
                        match structure(out) {
                            Err(e) => Err(fault_message(out, e)),
                            Ok(()) => Ok((out, ms.len())),
                        }
                    }
                },
            }
        },
    }
}

fn splice_exec(t: Vec<char>, start: usize, end: usize, text: &Vec<char>, q: char) -> (r: Vec<char>)
    ensures
        r@ == splice(
            t@,
            (Found { key: seq![], value: seq![], start: start as int, end: end as int, quote: q }, text@),
        ),
{
    let s = if start > t.len() {
        t.len()
    } else {
        start
    };
    let e = if end < s {
        s
    } else if end > t.len() {
        t.len()
    } else {
        end
    };
    let mut out: Vec<char> = Vec::new();
    let mut i: usize = 0;
    while i < s
        invariant
            i <= s <= t.len(),
            out@ == t@.subrange(0, i as int),
        decreases s - i,
    {
        out.push(t[i]);
        i += 1;
        assert(out@ =~= t@.subrange(0, i as int));
    }
    push_quote_text(&mut out, text, q);
    let ghost mid = out@;
    let mut j = e;
    while j < t.len()
        invariant
            s <= e <= j <= t.len(),
            out@ == mid + t@.subrange(e as int, j as int),
        decreases t.len() - j,
    {
        out.push(t[j]);
        j += 1;
        assert(out@ =~= mid + t@.subrange(e as int, j as int));
    }
    out
}

/// A found string with its translation, in executable form.
struct Choice {
    start: usize,
    end: usize,
    quote: char,
    text: Vec<char>,
    value: Ghost<Found>,
}

spec fn choice_view(c: Choice) -> (Found, Seq<char>) {
    (c.value@, c.text@)
}

spec fn choices_view(v: Seq<Choice>) -> Seq<(Found, Seq<char>)> {
    v.map_values(|c: Choice| choice_view(c))
}

spec fn choice_ok(c: Choice) -> bool {
    c.value@.start == c.start && c.value@.end == c.end && c.value@.quote == c.quote
}

fn find_replacement(reps: &Vec<(usize, String)>, i: usize) -> (r: Option<usize>)
    ensures
        match first_replacement(reps_view(reps@), i as int) {
            None => r is None,
            Some(x) => r matches Some(k) && k < reps.len() && reps@[k as int].1@ == x,
        },
{
    let mut k: usize = 0;
    assert(reps_view(reps@).subrange(0, reps.len() as int) =~= reps_view(reps@));
    while k < reps.len()
        invariant
            k <= reps.len(),
            first_replacement(reps_view(reps@).subrange(k as int, reps.len() as int), i as int)
                == first_replacement(reps_view(reps@), i as int),
        decreases reps.len() - k,
    {
        let ghost rest = reps_view(reps@).subrange(k as int, reps.len() as int);
        assert(rest.drop_first() =~= reps_view(reps@).subrange(k + 1, reps.len() as int));
        assert(rest[0] == reps_view(reps@)[k as int]);
        if reps[k].0 == i {
            return Some(k);
        }
        k += 1;
    }
    None
}

pub open spec fn reps_view(reps: Seq<(usize, String)>) -> Seq<(usize, Seq<char>)> {
    reps.map_values(|r: (usize, String)| (r.0, r.1@))
}

fn duplicate_positions(reps: &Vec<(usize, String)>) -> (b: bool)
    ensures
        b == has_duplicate(reps_view(reps@)),
{
    let ghost rv = reps_view(reps@);
    let mut j: usize = 0;
    while j < reps.len()
        invariant
            j <= reps.len(),
            rv == reps_view(reps@),
            forall|a: int, b: int| 0 <= a < b < j ==> rv[a].0 != rv[b].0,
        decreases reps.len() - j,
    {
        let mut a: usize = 0;
        while a < j
            invariant
                a <= j < reps.len(),
                rv == reps_view(reps@),
                forall|x: int| 0 <= x < a ==> rv[x].0 != rv[j as int].0,
            decreases j - a,
        {
            if reps[a].0 == reps[j].0 {
                assert(rv[a as int].0 == rv[j as int].0);
                return true;
            }
            a += 1;
        }
        j += 1;
    }
    false
}

/// Writes the translations into the text of a chapter file. Each replacement
/// names a segment by its index in source order; every literal keeps its
/// quote character and the translation is escaped for it. Nothing is written
/// when the text or the result is malformed, when a position repeats, or when
/// a position names no segment.
pub fn render_replacements(text: &str, replacements: &Vec<(usize, String)>) -> (r: Result<
    (String, usize),
    String,
>)
    ensures
        match rendered(text@, reps_view(replacements@)) {
            Ok((out, n)) => r matches Ok((s, k)) && s@ == out && k == n,
            Err(m) => r matches Err(x) && x@ == m,
        },
{
    let t = chars_of(text);
    let ghost rv = reps_view(replacements@);
    match check_structure(&t) {
        Ok(()) => {},
        Err(m) => return Err(m),
    }
    if duplicate_positions(replacements) {
        return Err("章节写回包含重复的翻译位置".to_owned());
    }
    let tokens = match extract_tokens(&t) {
        Ok(v) => v,
        Err(m) => return Err(m),
    };
    let ghost f = found_view(tokens@);
    // The chosen strings, in source order.
    let mut picked: Vec<Choice> = Vec::new();
    let mut i: usize = 0;
    while i < tokens.len()
        invariant
            i <= tokens.len(),
            f == found_view(tokens@),
            rv == reps_view(replacements@),
            choices_view(picked@) + chosen(f, rv, i as int) == chosen(f, rv, 0),
            forall|k: int| 0 <= k < picked@.len() ==> choice_ok(#[trigger] picked@[k]),
        decreases tokens.len() - i,
    {
        let ghost before = choices_view(picked@);
        assert(f.len() == tokens@.len());
        match find_replacement(replacements, i) {
            Some(k) => {
                assert(rv[k as int].1 == replacements@[k as int].1@);
                let c = Choice {
                    start: tokens[i].start,
                    end: tokens[i].end,
                    quote: tokens[i].quote,
                    text: chars_of(replacements[k].1.as_str()),
                    value: Ghost(f[i as int]),
                };
                picked.push(c);
                assert(choices_view(picked@) =~= before.push((f[i as int], rv[k as int].1)));
            },
            None => {},
        }
        i += 1;
        assert(choices_view(picked@) + chosen(f, rv, i as int) =~= chosen(f, rv, 0));
    }
    assert(chosen(f, rv, i as int) =~= Seq::<(Found, Seq<char>)>::empty());
    assert(choices_view(picked@) =~= chosen(f, rv, 0));
    if picked.len() != replacements.len() {
        return Err("章节写回位置与原文件不一致，已取消写入".to_owned());
    }
    let count = picked.len();
    // Stable sort by decreasing start.
    let ghost cv = choices_view(picked@);
    let mut sorted: Vec<Choice> = Vec::new();
    let mut rest = picked;
    let mut n: usize = 0;
    assert(cv.take(0) =~= Seq::<(Found, Seq<char>)>::empty());
    assert(choices_view(sorted@) =~= Seq::<(Found, Seq<char>)>::empty());
    while rest.len() > 0
        invariant
            n <= cv.len(),
            cv.len() == count,
            choices_view(rest@) =~= cv.subrange(n as int, cv.len() as int),
            choices_view(sorted@) == sort_desc(cv.take(n as int)),
            forall|k: int| 0 <= k < rest@.len() ==> choice_ok(#[trigger] rest@[k]),
            forall|k: int| 0 <= k < sorted@.len() ==> choice_ok(#[trigger] sorted@[k]),
        decreases rest.len(),
    {
        let ghost before = choices_view(rest@);
        assert(before.len() == rest@.len());
        let x = rest.remove(0);
        let ghost xv = choice_view(x);
        assert(choice_ok(x));
        assert(xv == before[0]);
        assert(cv.subrange(n as int, cv.len() as int)[0] == cv[n as int]);
        assert(choices_view(rest@) =~= before.subrange(1, before.len() as int));
        let ghost s0 = choices_view(sorted@);
        let mut k = sorted.len();
        assert(s0.take(k as int) =~= s0);
        while k > 0 && sorted[k - 1].start < x.start
            invariant
                k <= sorted.len(),
                s0 == choices_view(sorted@),
                s0.len() == sorted.len(),
                xv == choice_view(x),
                choice_ok(x),
                forall|j: int| 0 <= j < sorted@.len() ==> choice_ok(#[trigger] sorted@[j]),
                insert_pos_desc(xv.0.start, s0.take(k as int)) == insert_pos_desc(xv.0.start, s0),
            decreases k,
        {
            assert(s0.take(k as int).drop_last() =~= s0.take(k - 1));
            assert(s0.take(k as int).last() == s0[k - 1]);
            assert(choice_ok(sorted@[k - 1]));
            k -= 1;
        }
        assert(insert_pos_desc(xv.0.start, s0.take(k as int)) == k as int) by {
            if k > 0 {
                assert(s0.take(k as int).last() == s0[k - 1]);
                assert(choice_ok(sorted@[k - 1]));
            }
        }
        sorted.insert(k, x);
        assert(cv.take(n + 1).drop_last() =~= cv.take(n as int));
        assert(cv.take(n + 1).last() == xv);
        assert(choices_view(sorted@) =~= s0.insert(k as int, xv));
        n += 1;
    }
    assert(cv.take(n as int) =~= cv);
    // Apply the replacements from the end of the text backwards.
    let ghost order = choices_view(sorted@);
    assert(order.subrange(0, order.len() as int) =~= order);
    let mut out = t;
    let mut j: usize = 0;
    while j < sorted.len()
        invariant
            j <= sorted.len(),
            order == choices_view(sorted@),
            forall|k: int| 0 <= k < sorted@.len() ==> choice_ok(#[trigger] sorted@[k]),
            spliced(out@, order.subrange(j as int, order.len() as int)) == spliced(t@, order),
        decreases sorted.len() - j,
    {
        let ghost rest_order = order.subrange(j as int, order.len() as int);
        assert(rest_order.drop_first() =~= order.subrange(j + 1, order.len() as int));
        assert(choice_ok(sorted@[j as int]));
        let ghost m = order[j as int];
        let ghost prev = out@;
        let next = splice_exec(out, sorted[j].start, sorted[j].end, &sorted[j].text, sorted[j].quote);
        assert(next@ == splice(prev, m));
        out = next;
        j += 1;
    }
    assert(order.subrange(j as int, order.len() as int) =~= Seq::<(Found, Seq<char>)>::empty());
    match check_structure(&out) {
        Ok(()) => {},
        Err(m) => return Err(m),
    }
    Ok((string_of(&out), count))
}


// ---------------------------------------------------------------------------
// What every extracted string is.

/// `x` is a translatable string of `t`: the value of a field with one of the
/// five names, holding an ASCII letter, read from the literal at `x.start`.
pub open spec fn genuine(t: Seq<char>, x: Found) -> bool {
    &&& is_translatable_key_spec(x.key)
    &&& has_letter(x.value)
    &&& token_at(t, x.start) == Ok::<Found, ChapterFault>(Found { key: seq![], ..x })
}

pub open spec fn all_genuine(t: Seq<char>, s: Seq<Found>) -> bool {
    forall|i: int| 0 <= i < s.len() ==> genuine(t, #[trigger] s[i])
}

/// The strings are in source order.
pub open spec fn by_start(s: Seq<Found>) -> bool {
    forall|i: int, j: int| 0 <= i < j < s.len() ==> (#[trigger] s[i]).start <= (#[trigger] s[j]).start
}

proof fn lemma_offered_genuine(t: Seq<char>, out: Seq<Found>, key: Seq<char>, f: Found, at: int)
    requires
        all_genuine(t, out),
        is_translatable_key_spec(key),
        token_at(t, at) == Ok::<Found, ChapterFault>(f),
        f.start == at,
        f.key == Seq::<char>::empty(),
    ensures
        all_genuine(t, offered(out, key, f)),
{
    if has_letter(f.value) {
        let n = out.push(Found { key, ..f });
        assert(Found { key: seq![], ..Found { key, ..f } } == f);
        assert forall|i: int| 0 <= i < n.len() implies genuine(t, #[trigger] n[i]) by {
            if i < out.len() {
                assert(n[i] == out[i]);
            }
        }
    }
}

proof fn lemma_list_genuine(t: Seq<char>, pos: int, stack: Seq<char>, key: Seq<char>, out: Seq<Found>)
    requires
        all_genuine(t, out),
        is_translatable_key_spec(key),
    ensures
        list_from(t, pos, stack, key, out) matches Ok((o, _)) ==> all_genuine(t, o),
    decreases t.len() - pos,
{
    if 0 <= pos < t.len() {
        let p = trivia_end(t, pos);
        lemma_trivia_end(t, pos);
        if p < t.len() {
            let c = t[p];
            if is_quote(c) {
                lemma_token_at(t, p);
                match token_at(t, p) {
                    Err(_) => {},
                    Ok(f) => {
                        let next = if stack =~= seq!['['] {
                            lemma_offered_genuine(t, out, key, f, p);
                            offered(out, key, f)
                        } else {
                            out
                        };
                        lemma_list_genuine(t, f.end, stack, key, next);
                    },
                }
            } else if c == '[' || c == '{' || c == '(' {
                lemma_list_genuine(t, p + 1, stack.push(c), key, out);
            } else if c == ']' || c == '}' || c == ')' {
                if stack.len() == 0 || stack.last() != opener(c) {
                } else if stack.len() == 1 {
                } else {
                    lemma_list_genuine(t, p + 1, stack.drop_last(), key, out);
                }
            } else {
                lemma_list_genuine(t, p + 1, stack, key, out);
            }
        }
    }
}

proof fn lemma_walk_genuine(t: Seq<char>, pos: int, out: Seq<Found>)
    requires
        all_genuine(t, out),
    ensures
        walk(t, pos, out) matches Ok(o) ==> all_genuine(t, o),
    decreases t.len() - pos,
{
    if 0 <= pos <= t.len() {
        let p = trivia_end(t, pos);
        lemma_trivia_end(t, pos);
        if p < t.len() {
            let c = t[p];
            lemma_token_at(t, p);
            lemma_bare_end(t, p);
            if is_punct(c) && !is_quote(c) {
                lemma_walk_genuine(t, p + 1, out);
            } else if !is_quote(c) && bare_end(t, p) == p {
                lemma_walk_genuine(t, p + 1, out);
            } else {
                let kt: Result<(Seq<char>, int), ChapterFault> = if is_quote(c) {
                    match token_at(t, p) {
                        Err(e) => Err(e),
                        Ok(f) => Ok((f.value, f.end)),
                    }
                } else {
                    Ok((t.subrange(p, bare_end(t, p)), bare_end(t, p)))
                };
                match kt {
                    Err(_) => {},
                    Ok((key, tend)) => {
                        let colon = trivia_end(t, tend);
                        lemma_trivia_end(t, tend);
                        if !is_translatable_key_spec(key) || colon >= t.len() || t[colon] != ':' {
                            lemma_walk_genuine(t, tend, out);
                        } else {
                            let value = trivia_end(t, colon + 1);
                            lemma_trivia_end(t, colon + 1);
                            lemma_token_at(t, value);
                            if value >= t.len() {
                            } else if is_quote(t[value]) {
                                match token_at(t, value) {
                                    Err(_) => {},
                                    Ok(f) => {
                                        lemma_offered_genuine(t, out, key, f, value);
                                        lemma_walk_genuine(t, f.end, offered(out, key, f));
                                    },
                                }
                            } else if t[value] == '[' {
                                lemma_list_genuine(t, value + 1, seq!['['], key, out);
                                match list_from(t, value + 1, seq!['['], key, out) {
                                    Err(_) => {},
                                    Ok((o2, _)) => lemma_walk_genuine(t, value + 1, o2),
                                }
                            } else {
                                lemma_walk_genuine(t, value, out);
                            }
                        }
                    },
                }
            }
        }
    }
}

proof fn lemma_insert_pos_split(x: int, s: Seq<Found>)
    requires
        by_start(s),
    ensures
        forall|k: int| 0 <= k < insert_pos(x, s) ==> (#[trigger] s[k]).start <= x,
        forall|k: int| insert_pos(x, s) <= k < s.len() ==> (#[trigger] s[k]).start > x,
    decreases s.len(),
{
    lemma_insert_pos(x, s);
    if s.len() > 0 && s.last().start > x {
        let d = s.drop_last();
        assert(by_start(d)) by {
            assert forall|i: int, j: int| 0 <= i < j < d.len() implies (#[trigger] d[i]).start <= (#[trigger] d[j]).start by {
                assert(d[i] == s[i] && d[j] == s[j]);
            }
        }
        lemma_insert_pos_split(x, d);
        assert forall|k: int| insert_pos(x, s) <= k < s.len() implies (#[trigger] s[k]).start > x by {
            if k < d.len() {
                assert(s[k] == d[k]);
            }
        }
        assert forall|k: int| 0 <= k < insert_pos(x, s) implies (#[trigger] s[k]).start <= x by {
            assert(s[k] == d[k]);
        }
    } else if s.len() > 0 {
        assert forall|k: int| 0 <= k < insert_pos(x, s) implies (#[trigger] s[k]).start <= x by {
            assert(s[k].start <= s[s.len() - 1].start);
        }
    }
}

proof fn lemma_sort_by_start(t: Seq<char>, s: Seq<Found>)
    requires
        all_genuine(t, s),
    ensures
        all_genuine(t, sort_by_start(s)),
        by_start(sort_by_start(s)),
        sort_by_start(s).len() == s.len(),
    decreases s.len(),
{
    if s.len() > 0 {
        let d = s.drop_last();
        assert(all_genuine(t, d)) by {
            assert forall|i: int| 0 <= i < d.len() implies genuine(t, #[trigger] d[i]) by {
                assert(d[i] == s[i]);
            }
        }
        lemma_sort_by_start(t, d);
        let rest = sort_by_start(d);
        let x = s.last();
        let q = insert_pos(x.start, rest);
        lemma_insert_pos_split(x.start, rest);
        lemma_insert_pos(x.start, rest);
        let n = rest.insert(q, x);
        assert(n.len() == rest.len() + 1);
        assert(genuine(t, s[s.len() - 1]));
        assert forall|i: int| 0 <= i < n.len() implies genuine(t, #[trigger] n[i]) by {
            if i < q {
                assert(n[i] == rest[i]);
            } else if i > q {
                assert(n[i] == rest[i - 1]);
            }
        }
        assert forall|i: int, j: int| 0 <= i < j < n.len() implies (#[trigger] n[i]).start <= (#[trigger] n[j]).start by {
            if j < q {
                assert(n[i] == rest[i] && n[j] == rest[j]);
            } else if j == q {
                assert(n[i] == rest[i]);
            } else if i < q {
                assert(n[i] == rest[i] && n[j] == rest[j - 1]);
            } else if i == q {
                assert(n[j] == rest[j - 1]);
            } else {
                assert(n[i] == rest[i - 1] && n[j] == rest[j - 1]);
            }
        }
    }
}

/// Every string that extraction finds is the value of a `title`,
/// `subtitle`, `description`, `text` or `name` field, holds an ASCII letter,
/// and is read from the literal that starts where it says; the strings come
/// in source order.
pub proof fn law_extracted_strings(t: Seq<char>)
    ensures
        extracted(t) matches Ok(f) ==> by_start(f) && all_genuine(t, f),
{
    lemma_walk_genuine(t, 0, seq![]);
    if let Ok(o) = walk(t, 0, seq![]) {
        lemma_sort_by_start(t, o);
    }
}

} // verus!
