//! Format protection: format codes, placeholders, resource ids, selectors,
//! paths, URLs and numbers are replaced by opaque placeholders `⟨P_n⟩` before
//! a text is translated, and put back afterwards.

use crate::text::{chars_of, decimal, digit_char, push_char, push_decimal, push_str, starts_at, string_of_range, utf8_len, pairs_view};
use vstd::prelude::*;

verus! {

/// The byte ranges of the successive non-overlapping matches of the regular
/// expression `pattern` in `text`.
pub uninterp spec fn regex_matches(pattern: Seq<char>, text: Seq<char>) -> Seq<(usize, usize)>;

/// `b` bytes of the UTF-8 encoding of `s` end on a character boundary.
pub open spec fn on_boundary(s: Seq<char>, b: int) -> bool {
    exists|c: int| 0 <= c <= s.len() && utf8_len(s.take(c)) == b
}

/// `regex::Regex::new(pattern)` and `find_iter(text)`: the byte ranges of
/// the successive non-overlapping matches. As the crate documents, each
/// range starts no later than it ends, both ends fall on character
/// boundaries, and each match starts no earlier than the previous one ends.
/// A pattern that does not compile yields no match (the patterns of this
/// module are constants that compile). For the expression of Minecraft format
/// codes, every `&` or `§` followed by an ASCII character of its class is a
/// match: no earlier match can take either character, since neither `&` nor
/// `§` belongs to the class, even ignoring case.
#[verifier::external_body]
pub fn find_matches(pattern: &str, text: &str) -> (r: Vec<(usize, usize)>)
    ensures
        r@ == regex_matches(pattern@, text@),
        pattern@ == format_code_pattern() ==> forall|i: int| #![trigger format_code_at(text@, i)] format_code_at(text@, i)
            ==> exists|k: int| 0 <= k < r@.len() && r@[k].0 as int == utf8_len(text@.take(i))
                && r@[k].1 as int == utf8_len(text@.take(i + 2)),
        forall|i: int| 0 <= i < r@.len() ==> (#[trigger] r@[i]).0 <= r@[i].1 && on_boundary(text@, r@[i].0 as int)
            && on_boundary(text@, r@[i].1 as int),
        forall|i: int, j: int| 0 <= i && j == i + 1 && j < r@.len() ==> (#[trigger] r@[i]).1 <= (#[trigger] r@[j]).0,
{
    match regex::Regex::new(pattern) {
        Ok(re) => re.find_iter(text).map(|m| (m.start(), m.end())).collect(),
        Err(_) => Vec::new(),
    }
}

/// The character position at which `b` bytes of the UTF-8 encoding of `s` end.
pub open spec fn char_index(s: Seq<char>, b: int) -> int {
    choose|c: int| 0 <= c <= s.len() && utf8_len(s.take(c)) == b
}

proof fn lemma_utf8_prefix_strict(s: Seq<char>, a: int, b: int)
    requires
        0 <= a < b <= s.len(),
    ensures
        utf8_len(s.take(a)) < utf8_len(s.take(b)),
    decreases b - a,
{
    assert(s.take(b).drop_last() =~= s.take(b - 1));
    if a < b - 1 {
        lemma_utf8_prefix_strict(s, a, b - 1);
    }
}

/// The character position of a byte offset that falls on a boundary.
fn char_index_exec(v: &Vec<char>, b: usize) -> (c: usize)
    requires
        on_boundary(v@, b as int),
    ensures
        c == char_index(v@, b as int),
        c <= v.len(),
{
    let ghost c0 = char_index(v@, b as int);
    let mut c: usize = 0;
    let mut n: usize = 0;
    while c < v.len() && n < b
        invariant
            c <= v.len(),
            n == utf8_len(v@.take(c as int)),
            n <= b,
            0 <= c0 <= v.len(),
            utf8_len(v@.take(c0)) == b,
            c <= c0,
        decreases v.len() - c,
    {
        proof {
            assert(v@.take(c + 1).drop_last() =~= v@.take(c as int));
        }
        let ch = v[c];
        let w: usize = if (ch as u32) < 0x80 {
            1
        } else if (ch as u32) < 0x800 {
            2
        } else if (ch as u32) < 0x10000 {
            3
        } else {
            4
        };
        proof {
            lemma_utf8_prefix_strict(v@, c as int, c0);
            if c + 1 < c0 {
                lemma_utf8_prefix_strict(v@, c + 1, c0);
            }
        }
        n = n + w;
        c += 1;
    }
    proof {
        if c < c0 {
            lemma_utf8_prefix_strict(v@, c as int, c0);
        }
    }
    c
}

/// The character position at which the UTF-8 encoding of the first `c`
/// characters ends is `c`.
proof fn lemma_char_index_of(s: Seq<char>, c: int)
    requires
        0 <= c <= s.len(),
    ensures
        char_index(s, utf8_len(s.take(c)) as int) == c,
{
    let b = utf8_len(s.take(c)) as int;
    assert(0 <= c <= s.len() && utf8_len(s.take(c)) == b);
    let x = char_index(s, b);
    if x < c {
        lemma_utf8_prefix_strict(s, x, c);
    } else if x > c {
        lemma_utf8_prefix_strict(s, c, x);
    }
}

/// The matches of `pattern` in `t`, as character ranges.
pub open spec fn char_matches(pattern: Seq<char>, t: Seq<char>) -> Seq<(int, int)> {
    regex_matches(pattern, t).map_values(|m: (usize, usize)| (char_index(t, m.0 as int), char_index(t, m.1 as int)))
}

/// The matches of `pattern` in `text` as character ranges, each within the text.
fn char_ranges(pattern: &str, text: &str, v: &Vec<char>) -> (r: Vec<(usize, usize)>)
    requires
        v@ == text@,
    ensures
        r@.map_values(|m: (usize, usize)| (m.0 as int, m.1 as int)) == char_matches(pattern@, text@),
        forall|i: int| 0 <= i < r@.len() ==> (#[trigger] r@[i]).0 <= r@[i].1 <= v.len(),
        pattern@ == format_code_pattern() ==> codes_found(text@),
{
    let bytes = find_matches(pattern, text);
    proof {
        if pattern@ == format_code_pattern() {
            assert forall|i: int| format_code_at(text@, i) implies #[trigger] char_matches(format_code_pattern(), text@).contains((i, i + 2)) by {
                let k = choose|k: int| 0 <= k < bytes@.len() && bytes@[k].0 as int == utf8_len(text@.take(i))
                    && bytes@[k].1 as int == utf8_len(text@.take(i + 2));
                lemma_char_index_of(text@, i);
                lemma_char_index_of(text@, i + 2);
                let cm = char_matches(format_code_pattern(), text@);
                assert(cm[k] == (i, i + 2));
            }
        }
    }
    let mut out: Vec<(usize, usize)> = Vec::new();
    let mut i: usize = 0;
    while i < bytes.len()
        invariant
            i <= bytes.len(),
            v@ == text@,
            bytes@ == regex_matches(pattern@, text@),
            forall|k: int| 0 <= k < bytes@.len() ==> (#[trigger] bytes@[k]).0 <= bytes@[k].1 && on_boundary(text@, bytes@[k].0 as int)
                && on_boundary(text@, bytes@[k].1 as int),
            out@.map_values(|m: (usize, usize)| (m.0 as int, m.1 as int)) == char_matches(pattern@, text@).take(i as int),
            forall|k: int| 0 <= k < out@.len() ==> (#[trigger] out@[k]).0 <= out@[k].1 <= v.len(),
        decreases bytes.len() - i,
    {
        let (s, e) = bytes[i];
        let cs = char_index_exec(v, s);
        let ce = char_index_exec(v, e);
        proof {
            let x = choose|c: int| 0 <= c <= v@.len() && utf8_len(v@.take(c)) == s as int;
            let y = choose|c: int| 0 <= c <= v@.len() && utf8_len(v@.take(c)) == e as int;
            if ce < cs {
                lemma_utf8_prefix_strict(v@, ce as int, cs as int);
            }
        }
        let ghost before = out@.map_values(|m: (usize, usize)| (m.0 as int, m.1 as int));
        out.push((cs, ce));
        proof {
            let cm = char_matches(pattern@, text@);
            assert(out@.map_values(|m: (usize, usize)| (m.0 as int, m.1 as int)) =~= before.push((cs as int, ce as int)));
            assert(cm[i as int] == (cs as int, ce as int));
            assert(cm.take(i + 1) =~= cm.take(i as int).push(cm[i as int]));
        }
        i += 1;
    }
    assert(char_matches(pattern@, text@).take(bytes.len() as int) =~= char_matches(pattern@, text@));
    out
}


/// The expressions of what must survive translation unchanged, in the order
/// in which they are tried.
pub open spec fn format_patterns() -> Seq<Seq<char>> {
    seq![
        r"(?i)[&§][0-9a-fk-orz]"@,
        r"%(?:\d+\$)?[-+# 0,(]*\d*(?:\.\d+)?[bcdeEufFgGosxX]"@,
        r"<[^<>\n]+>"@,
        r"\{\{[^{}\n]+\}\}"@,
        r"\{[@A-Za-z][^{}\n]*\}"@,
        r"@[pares]\b(?:\[[^\]\n]*\])?"@,
        r"#[a-z][a-z0-9_.-]*:[a-z0-9_./-]+"@,
        r"[a-z][a-z0-9_.-]*:[a-z0-9_./-]+"@,
        r"(?i)\b(?:[a-z0-9_.-]+:[a-z0-9_.-]+(?:/[a-z0-9_.-]+)+|(?:assets|config|data|kubejs|models|recipes|textures|ftbquests|chapters|lang|scripts)/[a-z0-9_./-]+|[a-z0-9_.-]+(?:/[a-z0-9_.-]+)+\.[a-z0-9]+)\b"@,
        r#"\\[nrt\"'\\]"#@,
        r#"https?://[^\s\"')\]]+"#@,
        r"#[0-9a-fA-F]{6}\b"@,
        r"\b[vV]?\d+(?:\.\d+)+\b"@,
        r"\b\d+(?:[.,]\d+)?(?:%|[a-zA-Z]+)?\b"@,
    ]
}

fn format_pattern_list() -> (v: Vec<&'static str>)
    ensures
        v@.map_values(|p: &'static str| p@) == format_patterns(),
{
    let v = vec![
        r"(?i)[&§][0-9a-fk-orz]",
        r"%(?:\d+\$)?[-+# 0,(]*\d*(?:\.\d+)?[bcdeEufFgGosxX]",
        r"<[^<>\n]+>",
        r"\{\{[^{}\n]+\}\}",
        r"\{[@A-Za-z][^{}\n]*\}",
        r"@[pares]\b(?:\[[^\]\n]*\])?",
        r"#[a-z][a-z0-9_.-]*:[a-z0-9_./-]+",
        r"[a-z][a-z0-9_.-]*:[a-z0-9_./-]+",
        r"(?i)\b(?:[a-z0-9_.-]+:[a-z0-9_.-]+(?:/[a-z0-9_.-]+)+|(?:assets|config|data|kubejs|models|recipes|textures|ftbquests|chapters|lang|scripts)/[a-z0-9_./-]+|[a-z0-9_.-]+(?:/[a-z0-9_.-]+)+\.[a-z0-9]+)\b",
        r#"\\[nrt\"'\\]"#,
        r#"https?://[^\s\"')\]]+"#,
        r"#[0-9a-fA-F]{6}\b",
        r"\b[vV]?\d+(?:\.\d+)+\b",
        r"\b\d+(?:[.,]\d+)?(?:%|[a-zA-Z]+)?\b",
    ];
    assert(v@.map_values(|p: &'static str| p@) =~= format_patterns());
    v
}

/// The matches of the patterns from the `k`-th on, pattern by pattern.
pub open spec fn candidates_from(ps: Seq<Seq<char>>, t: Seq<char>, k: int) -> Seq<(int, int)>
    decreases ps.len() - k,
{
    if 0 <= k < ps.len() {
        char_matches(ps[k], t) + candidates_from(ps, t, k + 1)
    } else {
        Seq::empty()
    }
}

/// Match `i` comes before match `j`: it starts earlier, or at the same
/// place and was found first.
pub open spec fn before(cs: Seq<(int, int)>, i: int, j: int) -> bool {
    cs[i].0 < cs[j].0 || (cs[i].0 == cs[j].0 && i < j)
}

/// Match `i` is the first, in that order, after match `cur`.
pub open spec fn is_next(cs: Seq<(int, int)>, cur: Option<int>, i: int) -> bool {
    &&& 0 <= i < cs.len()
    &&& cur matches Some(c) ==> before(cs, c, i)
    &&& forall|j: int| #![trigger cs[j]] 0 <= j < cs.len() && (cur matches Some(c) ==> before(cs, c, j)) ==> j == i || before(cs, i, j)
}

pub open spec fn next_match(cs: Seq<(int, int)>, cur: Option<int>) -> Option<int> {
    if exists|i: int| is_next(cs, cur, i) {
        Some(choose|i: int| is_next(cs, cur, i))
    } else {
        None
    }
}

/// The placeholder of the `n`-th protected piece of a text.
pub open spec fn format_placeholder(n: nat) -> Seq<char> {
    "⟨P_"@ + crate::text::decimal(n) + "⟩"@
}

/// Visits the matches in order (by start, then as found), leaving out a
/// match equal to the one kept just before it, and protects each kept match
/// that starts no earlier than the end of the last protected one. Gives the
/// text from `last` on and the placeholders with what they stand for.
pub open spec fn protect_scan(
    t: Seq<char>,
    cs: Seq<(int, int)>,
    cur: Option<int>,
    kept: Option<(int, int)>,
    last: int,
    n: nat,
    fuel: nat,
) -> (Seq<char>, Seq<(Seq<char>, Seq<char>)>)
    decreases fuel,
{
    if fuel == 0 {
        (t.subrange(last, t.len() as int), Seq::empty())
    } else {
        match next_match(cs, cur) {
            None => (t.subrange(last, t.len() as int), Seq::empty()),
            Some(i) => {
                let (s, e) = cs[i];
                if kept == Some((s, e)) {
                    protect_scan(t, cs, Some(i), kept, last, n, (fuel - 1) as nat)
                } else if s < last {
                    protect_scan(t, cs, Some(i), Some((s, e)), last, n, (fuel - 1) as nat)
                } else {
                    let rest = protect_scan(t, cs, Some(i), Some((s, e)), e, n + 1, (fuel - 1) as nat);
                    (
                        t.subrange(last, s) + format_placeholder(n) + rest.0,
                        seq![(format_placeholder(n), t.subrange(s, e))] + rest.1,
                    )
                }
            },
        }
    }
}

/// A text with its format tokens protected, and the placeholders with the
/// tokens they stand for.
pub open spec fn protected(t: Seq<char>) -> (Seq<char>, Seq<(Seq<char>, Seq<char>)>) {
    let cs = candidates_from(format_patterns(), t, 0);
    protect_scan(t, cs, None, None, 0, 0, cs.len())
}


proof fn lemma_next_unique(cs: Seq<(int, int)>, cur: Option<int>, a: int, b: int)
    requires
        is_next(cs, cur, a),
        is_next(cs, cur, b),
    ensures
        a == b,
{
    assert(cs[b] == cs[b] && cs[a] == cs[a]);
}


pub open spec fn spans_view(v: Seq<(usize, usize)>) -> Seq<(int, int)> {
    v.map_values(|m: (usize, usize)| (m.0 as int, m.1 as int))
}

fn before_exec(cs: &Vec<(usize, usize)>, i: usize, j: usize) -> (b: bool)
    requires
        i < cs.len(),
        j < cs.len(),
    ensures
        b == before(spans_view(cs@), i as int, j as int),
{
    cs[i].0 < cs[j].0 || (cs[i].0 == cs[j].0 && i < j)
}

/// The match that comes next after `cur`, in order of start, then as found.
fn next_exec(cs: &Vec<(usize, usize)>, cur: Option<usize>) -> (r: Option<usize>)
    requires
        cur matches Some(c) ==> c < cs.len(),
    ensures
        match r {
            Some(i) => next_match(spans_view(cs@), match cur { Some(c) => Some(c as int), None => None }) == Some(i as int)
                && i < cs.len(),
            None => next_match(spans_view(cs@), match cur { Some(c) => Some(c as int), None => None }) is None,
        },
{
    let ghost sv = spans_view(cs@);
    let ghost cv = match cur { Some(c) => Some(c as int), None => None::<int> };
    let mut best: Option<usize> = None;
    let mut j: usize = 0;
    while j < cs.len()
        invariant
            j <= cs.len(),
            sv == spans_view(cs@),
            cv == (match cur { Some(c) => Some(c as int), None => None::<int> }),
            cur matches Some(c) ==> c < cs.len(),
            match best {
                Some(b) => b < j && (cv matches Some(c) ==> before(sv, c, b as int)) && forall|x: int|
                    #![trigger sv[x]]
                    0 <= x < j && (cv matches Some(c) ==> before(sv, c, x)) ==> x == b || before(sv, b as int, x),
                None => forall|x: int| #![trigger sv[x]] 0 <= x < j ==> !(cv matches Some(c) ==> before(sv, c, x)),
            },
        decreases cs.len() - j,
    {
        let eligible = match cur {
            Some(c) => before_exec(cs, c, j),
            None => true,
        };
        if eligible {
            match best {
                None => {
                    best = Some(j);
                },
                Some(b) => {
                    if before_exec(cs, j, b) {
                        best = Some(j);
                        proof {
                            assert forall|x: int| #![trigger sv[x]] 0 <= x <= j && (cv matches Some(c) ==> before(sv, c, x)) implies x == j
                                || before(sv, j as int, x) by {
                                if x < j && x != b {
                                    assert(before(sv, b as int, x));
                                }
                            }
                        }
                    }
                },
            }
        }
        j += 1;
    }
    match best {
        Some(b) => {
            proof {
                assert(is_next(sv, cv, b as int));
                lemma_next_unique(sv, cv, b as int, choose|i: int| is_next(sv, cv, i));
            }
            Some(b)
        },
        None => {
            proof {
                if exists|i: int| is_next(sv, cv, i) {
                    let w = choose|i: int| is_next(sv, cv, i);
                    assert(sv[w] == sv[w]);
                }
            }
            None
        },
    }
}

fn range_string(v: &Vec<char>, from: usize, to: usize) -> (s: String)
    requires
        from <= to <= v.len(),
    ensures
        s@ == v@.subrange(from as int, to as int),
{
    string_of_range(v, from, to)
}

/// Replaces the format tokens of `text` by placeholders `⟨P_n⟩` and lists
/// each placeholder with the token it stands for.
pub fn protect(text: &str) -> (r: (String, Vec<(String, String)>))
    ensures
        (r.0@, pairs_view(r.1@)) == protected(text@),
        no_open_bracket(text@) ==> restore_all(r.0@, pairs_view(r.1@)) == text@,
        forall|i: int| #![trigger format_code_at(text@, i)] format_code_at(text@, i) && code_alone(text@, i) ==> exists|k: int|
            0 <= k < r.1@.len() && (#[trigger] r.1@[k]).1@ == text@.subrange(i, i + 2),
{
    let v = chars_of(text);
    let ghost t = v@;
    let pats = format_pattern_list();
    let ghost ps = format_patterns();
    let mut cs: Vec<(usize, usize)> = Vec::new();
    let mut k: usize = 0;
    while k < pats.len()
        invariant
            k <= pats.len(),
            pats@.map_values(|p: &'static str| p@) == ps,
            ps == format_patterns(),
            t == v@,
            t == text@,
            spans_view(cs@) + candidates_from(ps, t, k as int) == candidates_from(ps, t, 0),
            forall|i: int| 0 <= i < cs@.len() ==> (#[trigger] cs@[i]).0 <= cs@[i].1 <= v.len(),
            k > 0 ==> codes_found(t),
        decreases pats.len() - k,
    {
        assert(pats@[k as int]@ == ps[k as int]);
        let found = char_ranges(pats[k], text, &v);
        let ghost before_cs = spans_view(cs@);
        let mut j: usize = 0;
        while j < found.len()
            invariant
                j <= found.len(),
                spans_view(cs@) == before_cs + spans_view(found@).take(j as int),
                forall|i: int| 0 <= i < cs@.len() ==> (#[trigger] cs@[i]).0 <= cs@[i].1 <= v.len(),
                forall|i: int| 0 <= i < found@.len() ==> (#[trigger] found@[i]).0 <= found@[i].1 <= v.len(),
            decreases found.len() - j,
        {
            let ghost prev = spans_view(cs@);
            cs.push(found[j]);
            proof {
                let fv = spans_view(found@);
                assert(spans_view(cs@) =~= prev.push(fv[j as int]));
                assert(fv.take(j + 1) =~= fv.take(j as int).push(fv[j as int]));
            }
            j += 1;
            assert(spans_view(cs@) =~= before_cs + spans_view(found@).take(j as int));
        }
        proof {
            assert(spans_view(found@).take(found.len() as int) =~= spans_view(found@));
            assert(spans_view(found@) == char_matches(ps[k as int], t));
            assert(candidates_from(ps, t, k as int) == char_matches(ps[k as int], t) + candidates_from(ps, t, k + 1));
            assert(spans_view(cs@) + candidates_from(ps, t, k + 1) =~= before_cs + candidates_from(ps, t, k as int));
        }
        k += 1;
    }
    let ghost csv = spans_view(cs@);
    assert(candidates_from(ps, t, k as int) =~= Seq::<(int, int)>::empty());
    assert(csv =~= candidates_from(ps, t, 0));
    proof {
        assert forall|x: int| #![trigger candidates_from(format_patterns(), t, 0)[x]]
            0 <= x < candidates_from(format_patterns(), t, 0).len() implies 0 <= candidates_from(format_patterns(), t, 0)[x].0
            <= candidates_from(format_patterns(), t, 0)[x].1 <= t.len() by {
            assert(csv[x] == (cs@[x].0 as int, cs@[x].1 as int));
        }
        assert forall|i: int| #![trigger format_code_at(text@, i)] format_code_at(text@, i) && code_alone(text@, i) implies
            exists|k: int| 0 <= k < protected(text@).1.len() && (#[trigger] protected(text@).1[k]).1 == text@.subrange(i, i + 2) by {
            law_format_codes_are_protected(t, i);
        }
    }
    let mut out = String::new();
    let mut tokens: Vec<(String, String)> = Vec::new();
    let mut cur: Option<usize> = None;
    let mut kept: Option<(usize, usize)> = None;
    let mut last: usize = 0;
    let mut fuel: usize = cs.len();
    loop
        invariant
            t == v@,
            t == text@,
            csv == spans_view(cs@),
            csv == candidates_from(ps, t, 0),
            ps == format_patterns(),
            forall|i: int| 0 <= i < cs@.len() ==> (#[trigger] cs@[i]).0 <= cs@[i].1 <= v.len(),
            cur matches Some(c) ==> c < cs.len(),
            last <= v.len(),
            ({
                let rest = protect_scan(t, csv, match cur { Some(c) => Some(c as int), None => None }, match kept {
                    Some(p) => Some((p.0 as int, p.1 as int)),
                    None => None,
                }, last as int, tokens.len() as nat, fuel as nat);
                (out@ + rest.0, pairs_view(tokens@) + rest.1) == protect_scan(t, csv, None, None, 0, 0, csv.len())
            }),
        ensures
            last <= v.len(),
            out@ + t.subrange(last as int, t.len() as int) == protected(text@).0,
            pairs_view(tokens@) == protected(text@).1,
        decreases fuel,
    {
        let ghost before = (out@, pairs_view(tokens@));
        let ghost n = tokens.len() as nat;
        let ghost cv = match cur { Some(c) => Some(c as int), None => None::<int> };
        let ghost kv = match kept { Some(p) => Some((p.0 as int, p.1 as int)), None => None::<(int, int)> };
        if fuel == 0 {
            proof {
                let rest = protect_scan(t, csv, cv, kv, last as int, n, fuel as nat);
                assert(rest == (t.subrange(last as int, t.len() as int), Seq::<(Seq<char>, Seq<char>)>::empty()));
                assert(pairs_view(tokens@) + Seq::<(Seq<char>, Seq<char>)>::empty() =~= pairs_view(tokens@));
                assert(protected(text@) == protect_scan(t, csv, None, None, 0, 0, csv.len()));
            }
            break;
        }
        match next_exec(&cs, cur) {
            None => {
                proof {
                    let rest = protect_scan(t, csv, cv, kv, last as int, n, fuel as nat);
                    assert(rest == (t.subrange(last as int, t.len() as int), Seq::<(Seq<char>, Seq<char>)>::empty()));
                    assert(pairs_view(tokens@) + Seq::<(Seq<char>, Seq<char>)>::empty() =~= pairs_view(tokens@));
                    assert(protected(text@) == protect_scan(t, csv, None, None, 0, 0, csv.len()));
                }
                break;
            },
            Some(i) => {
                let (s, e) = cs[i];
                assert(csv[i as int] == (s as int, e as int));
                let same = match kept {
                    Some(p) => p.0 == s && p.1 == e,
                    None => false,
                };
                if same {
                    cur = Some(i);
                } else if s < last {
                    cur = Some(i);
                    kept = Some((s, e));
                } else {
                    let mut ph = String::new();
                    push_str(&mut ph, "⟨P_");
                    push_decimal(&mut ph, tokens.len());
                    push_str(&mut ph, "⟩");
                    let piece = range_string(&v, last, s);
                    push_str(&mut out, piece.as_str());
                    push_str(&mut out, ph.as_str());
                    let token = range_string(&v, s, e);
                    tokens.push((ph, token));
                    proof {
                        let rest = protect_scan(t, csv, Some(i as int), Some((s as int, e as int)), e as int, n + 1, (fuel - 1) as nat);
                        assert(pairs_view(tokens@) =~= before.1.push((format_placeholder(n), t.subrange(s as int, e as int))));
                        assert(out@ + rest.0 =~= before.0 + (t.subrange(last as int, s as int) + format_placeholder(n) + rest.0));
                        assert(pairs_view(tokens@) + rest.1 =~= before.1 + (seq![(format_placeholder(n), t.subrange(s as int, e as int))] + rest.1));
                    }
                    cur = Some(i);
                    kept = Some((s, e));
                    last = e;
                }
            },
        }
        fuel -= 1;
    }
    let tail = range_string(&v, last, v.len());
    push_str(&mut out, tail.as_str());
    proof {
        if no_open_bracket(t) {
            assert forall|k: int| 0 <= k < csv.len() implies 0 <= (#[trigger] csv[k]).0 <= csv[k].1 <= t.len() by {
                assert(csv[k] == (cs@[k].0 as int, cs@[k].1 as int));
            }
            lemma_scan_restores(t, csv, None, None, 0, 0, csv.len());
            assert(t.subrange(0, t.len() as int) =~= t);
        }
    }
    (out, tokens)
}


// ---------------------------------------------------------------------------
// Putting the tokens back.

/// `s` with every occurrence of `f`, from the left and not overlapping,
/// replaced by `r` (`str::replace`; an empty `f` occurs between every two
/// characters and at both ends).
pub open spec fn replace_all(s: Seq<char>, f: Seq<char>, r: Seq<char>) -> Seq<char>
    decreases s.len(),
{
    if f.len() == 0 {
        if s.len() == 0 {
            r
        } else {
            r + seq![s[0]] + replace_all(s.drop_first(), f, r)
        }
    } else if s.len() == 0 {
        Seq::empty()
    } else if starts_at(s, 0, f) {
        r + replace_all(s.skip(f.len() as int), f, r)
    } else {
        seq![s[0]] + replace_all(s.drop_first(), f, r)
    }
}

/// `s` with each placeholder, in turn, replaced by what it stands for.
pub open spec fn restore_all(s: Seq<char>, tokens: Seq<(Seq<char>, Seq<char>)>) -> Seq<char>
    decreases tokens.len(),
{
    if tokens.len() == 0 {
        s
    } else {
        replace_all(restore_all(s, tokens.drop_last()), tokens.last().0, tokens.last().1)
    }
}

/// How many times `x` occurs in `s`.
pub open spec fn count_of(s: Seq<Seq<char>>, x: Seq<char>) -> nat
    decreases s.len(),
{
    if s.len() == 0 {
        0
    } else {
        count_of(s.drop_last(), x) + if s.last() == x { 1nat } else { 0nat }
    }
}

/// `a` and `b` hold the same items as many times each, in any order.
pub open spec fn same_items(a: Seq<Seq<char>>, b: Seq<Seq<char>>) -> bool {
    forall|x: Seq<char>| #[trigger] count_of(a, x) == count_of(b, x)
}

/// The opaque placeholders that the protection of a text may hold.
pub open spec fn placeholder_pattern() -> Seq<char> {
    r"⟨[PG]_\d+⟩"@
}

/// The placeholders that `t` holds, in order.
pub open spec fn placeholders_in(t: Seq<char>) -> Seq<Seq<char>> {
    char_matches(placeholder_pattern(), t).map_values(|m: (int, int)| t.subrange(m.0, m.1))
}

/// A translation with its tokens put back, or its refusal when it does not
/// hold each placeholder exactly as many times as it was given.
pub open spec fn restored(t: Seq<char>, tokens: Seq<(Seq<char>, Seq<char>)>) -> Result<Seq<char>, Seq<char>> {
    if !same_items(placeholders_in(t), tokens.map_values(|p: (Seq<char>, Seq<char>)| p.0)) {
        Err("翻译接口修改、增删或重复了不透明占位符"@)
    } else {
        Ok(restore_all(t, tokens))
    }
}

proof fn lemma_count_absent(s: Seq<Seq<char>>, x: Seq<char>)
    requires
        forall|i: int| 0 <= i < s.len() ==> s[i] != x,
    ensures
        count_of(s, x) == 0,
    decreases s.len(),
{
    if s.len() > 0 {
        lemma_count_absent(s.drop_last(), x);
    }
}

fn count_exec(s: &Vec<String>, x: &str) -> (n: usize)
    ensures
        n == count_of(s@.map_values(|t: String| t@), x@),
{
    let ghost v = s@.map_values(|t: String| t@);
    let mut n: usize = 0;
    let mut i: usize = 0;
    while i < s.len()
        invariant
            i <= s.len(),
            v == s@.map_values(|t: String| t@),
            n == count_of(v.take(i as int), x@),
            n <= i,
        decreases s.len() - i,
    {
        proof {
            assert(v.take(i + 1).drop_last() =~= v.take(i as int));
            assert(v[i as int] == s@[i as int]@);
        }
        if crate::text::str_eq(s[i].as_str(), x) {
            n += 1;
        }
        i += 1;
    }
    assert(v.take(s.len() as int) =~= v);
    n
}

pub fn same_items_exec(a: &Vec<String>, b: &Vec<String>) -> (r: bool)
    ensures
        r == same_items(a@.map_values(|t: String| t@), b@.map_values(|t: String| t@)),
{
    let ghost av = a@.map_values(|t: String| t@);
    let ghost bv = b@.map_values(|t: String| t@);
    let mut i: usize = 0;
    while i < a.len()
        invariant
            i <= a.len(),
            av == a@.map_values(|t: String| t@),
            bv == b@.map_values(|t: String| t@),
            forall|k: int| 0 <= k < i ==> count_of(av, #[trigger] av[k]) == count_of(bv, av[k]),
        decreases a.len() - i,
    {
        assert(av[i as int] == a@[i as int]@);
        if count_exec(a, a[i].as_str()) != count_exec(b, a[i].as_str()) {
            return false;
        }
        i += 1;
    }
    let mut j: usize = 0;
    while j < b.len()
        invariant
            j <= b.len(),
            av == a@.map_values(|t: String| t@),
            bv == b@.map_values(|t: String| t@),
            forall|k: int| 0 <= k < a.len() ==> count_of(av, #[trigger] av[k]) == count_of(bv, av[k]),
            forall|k: int| 0 <= k < j ==> count_of(av, #[trigger] bv[k]) == count_of(bv, bv[k]),
        decreases b.len() - j,
    {
        assert(bv[j as int] == b@[j as int]@);
        if count_exec(a, b[j].as_str()) != count_exec(b, b[j].as_str()) {
            return false;
        }
        j += 1;
    }
    proof {
        assert forall|x: Seq<char>| #[trigger] count_of(av, x) == count_of(bv, x) by {
            if exists|k: int| 0 <= k < av.len() && av[k] == x {
                let k = choose|k: int| 0 <= k < av.len() && av[k] == x;
                assert(count_of(av, av[k]) == count_of(bv, av[k]));
            } else if exists|k: int| 0 <= k < bv.len() && bv[k] == x {
                let k = choose|k: int| 0 <= k < bv.len() && bv[k] == x;
                assert(count_of(av, bv[k]) == count_of(bv, bv[k]));
            } else {
                lemma_count_absent(av, x);
                lemma_count_absent(bv, x);
            }
        }
    }
    true
}

/// `s` with every occurrence of `f` replaced by `r`.
pub fn replace(s: &str, f: &str, r: &str) -> (out: String)
    ensures
        out@ == replace_all(s@, f@, r@),
{
    let v = chars_of(s);
    let w = chars_of(f);
    let mut out = String::new();
    let mut k: usize = 0;
    assert(v@.skip(0) =~= v@);
    while k < v.len()
        invariant
            k <= v.len(),
            v@ == s@,
            w@ == f@,
            out@ + replace_all(v@.skip(k as int), f@, r@) == replace_all(s@, f@, r@),
        decreases v.len() - k,
    {
        let ghost before = out@;
        let ghost rest = v@.skip(k as int);
        assert(rest.drop_first() =~= v@.skip(k + 1));
        assert(rest[0] == v@[k as int]);
        if w.len() == 0 {
            push_str(&mut out, r);
            push_char(&mut out, v[k]);
            assert(out@ + replace_all(v@.skip(k + 1), f@, r@) =~= before + replace_all(rest, f@, r@));
            k += 1;
        } else if crate::text::starts_with_at(&v, k, &w) {
            push_str(&mut out, r);
            proof {
                assert(crate::text::starts_at(rest, 0, f@)) by {
                    assert(rest.subrange(0, f@.len() as int) =~= v@.subrange(k as int, k + f@.len()));
                }
                assert(rest.skip(f@.len() as int) =~= v@.skip(k + w.len()));
                assert(out@ + replace_all(v@.skip(k + w.len()), f@, r@) =~= before + replace_all(rest, f@, r@));
            }
            k += w.len();
        } else {
            push_char(&mut out, v[k]);
            proof {
                assert(!crate::text::starts_at(rest, 0, f@)) by {
                    if crate::text::starts_at(rest, 0, f@) {
                        assert(rest.subrange(0, f@.len() as int) =~= v@.subrange(k as int, k + f@.len()));
                    }
                }
                assert(out@ + replace_all(v@.skip(k + 1), f@, r@) =~= before + replace_all(rest, f@, r@));
            }
            k += 1;
        }
    }
    let ghost rest = v@.skip(k as int);
    assert(rest.len() == 0);
    if w.len() == 0 {
        let ghost before = out@;
        push_str(&mut out, r);
        assert(replace_all(rest, f@, r@) == r@);
    } else {
        assert(replace_all(rest, f@, r@) == Seq::<char>::empty());
        assert(out@ + Seq::<char>::empty() =~= out@);
    }
    out
}


/// Puts the tokens back into a translation, once it is checked to hold each
/// placeholder exactly as many times as it was given.
pub fn restore(text: &str, tokens: &Vec<(String, String)>) -> (r: Result<String, String>)
    ensures
        match restored(text@, pairs_view(tokens@)) {
            Ok(s) => r matches Ok(o) && o@ == s,
            Err(m) => r matches Err(e) && e@ == m,
        },
{
    let v = chars_of(text);
    let ranges = char_ranges(r"⟨[PG]_\d+⟩", text, &v);
    let ghost t = text@;
    let ghost rv = spans_view(ranges@);
    let mut actual: Vec<String> = Vec::new();
    let mut i: usize = 0;
    while i < ranges.len()
        invariant
            i <= ranges.len(),
            v@ == t,
            t == text@,
            rv == spans_view(ranges@),
            rv == char_matches(placeholder_pattern(), t),
            forall|k: int| 0 <= k < ranges@.len() ==> (#[trigger] ranges@[k]).0 <= ranges@[k].1 <= v.len(),
            actual@.map_values(|s: String| s@) == placeholders_in(t).take(i as int),
        decreases ranges.len() - i,
    {
        let (a, b) = ranges[i];
        let ghost before = actual@.map_values(|s: String| s@);
        actual.push(range_string(&v, a, b));
        proof {
            let p = placeholders_in(t);
            assert(rv[i as int] == (a as int, b as int));
            assert(p[i as int] == t.subrange(a as int, b as int));
            assert(actual@.map_values(|s: String| s@) =~= before.push(p[i as int]));
            assert(p.take(i + 1) =~= p.take(i as int).push(p[i as int]));
        }
        i += 1;
    }
    assert(placeholders_in(t).take(ranges.len() as int) =~= placeholders_in(t));
    let ghost tv = pairs_view(tokens@);
    let mut expected: Vec<String> = Vec::new();
    let mut j: usize = 0;
    while j < tokens.len()
        invariant
            j <= tokens.len(),
            tv == pairs_view(tokens@),
            expected@.map_values(|s: String| s@) == tv.map_values(|p: (Seq<char>, Seq<char>)| p.0).take(j as int),
        decreases tokens.len() - j,
    {
        let ghost before = expected@.map_values(|s: String| s@);
        expected.push(tokens[j].0.clone());
        proof {
            let e = tv.map_values(|p: (Seq<char>, Seq<char>)| p.0);
            assert(expected@.map_values(|s: String| s@) =~= before.push(e[j as int]));
            assert(e.take(j + 1) =~= e.take(j as int).push(e[j as int]));
        }
        j += 1;
    }
    assert(tv.map_values(|p: (Seq<char>, Seq<char>)| p.0).take(tokens.len() as int) =~= tv.map_values(
        |p: (Seq<char>, Seq<char>)| p.0,
    ));
    if !same_items_exec(&actual, &expected) {
        return Err(crate::text::owned("翻译接口修改、增删或重复了不透明占位符"));
    }
    let mut value = crate::text::owned(text);
    let mut k: usize = 0;
    while k < tokens.len()
        invariant
            k <= tokens.len(),
            tv == pairs_view(tokens@),
            value@ == restore_all(text@, tv.take(k as int)),
        decreases tokens.len() - k,
    {
        let next = replace(value.as_str(), tokens[k].0.as_str(), tokens[k].1.as_str());
        proof {
            let u = tv.take(k + 1);
            assert(u.drop_last() =~= tv.take(k as int));
            assert(u.last() == (tokens@[k as int].0@, tokens@[k as int].1@));
        }
        value = next;
        k += 1;
    }
    assert(tv.take(tokens.len() as int) =~= tv);
    Ok(value)
}

// ---------------------------------------------------------------------------
// Putting the tokens back into a protected text that came back unchanged.

/// No `⟨` in `s`.
pub open spec fn no_open_bracket(s: Seq<char>) -> bool {
    forall|i: int| 0 <= i < s.len() ==> s[i] != '⟨'
}

/// A placeholder `⟨P_m⟩` with `m >= low` starts at `i` in `s`.
pub open spec fn placeholder_at(s: Seq<char>, i: int, low: nat) -> bool {
    exists|m: nat| m >= low && #[trigger] starts_at(s, i, format_placeholder(m))
}

/// Each `⟨` of `s` starts a placeholder numbered `low` or more.
pub open spec fn brackets_are_placeholders(s: Seq<char>, low: nat) -> bool {
    forall|i: int| 0 <= i < s.len() && s[i] == '⟨' ==> placeholder_at(s, i, low)
}

/// Each placeholder of `tokens` starts with `⟨`.
pub open spec fn tokens_bracketed(tokens: Seq<(Seq<char>, Seq<char>)>) -> bool {
    forall|k: int| 0 <= k < tokens.len() ==> (#[trigger] tokens[k]).0.len() > 0 && tokens[k].0[0] == '⟨'
}

pub open spec fn is_digit_char(c: char) -> bool {
    c == '0' || c == '1' || c == '2' || c == '3' || c == '4' || c == '5' || c == '6' || c == '7' || c == '8' || c == '9'
}

proof fn lemma_decimal_digits(n: nat)
    ensures
        decimal(n).len() >= 1,
        forall|j: int| 0 <= j < decimal(n).len() ==> is_digit_char(#[trigger] decimal(n)[j]),
    decreases n,
{
    if n >= 10 {
        lemma_decimal_digits(n / 10);
        assert forall|j: int| 0 <= j < decimal(n).len() implies is_digit_char(#[trigger] decimal(n)[j]) by {
            if j < decimal(n / 10).len() {
                assert(decimal(n)[j] == decimal(n / 10)[j]);
            }
        }
    }
}

proof fn lemma_digit_injective(x: nat, y: nat)
    requires
        x < 10,
        y < 10,
        digit_char(x) == digit_char(y),
    ensures
        x == y,
{
}

proof fn lemma_decimal_injective(a: nat, b: nat)
    requires
        decimal(a) == decimal(b),
    ensures
        a == b,
    decreases a,
{
    lemma_decimal_digits(a / 10);
    lemma_decimal_digits(b / 10);
    if a >= 10 && b >= 10 {
        assert(decimal(a).drop_last() =~= decimal(a / 10));
        assert(decimal(b).drop_last() =~= decimal(b / 10));
        assert(decimal(a).last() == digit_char(a % 10));
        assert(decimal(b).last() == digit_char(b % 10));
        lemma_digit_injective(a % 10, b % 10);
        lemma_decimal_injective(a / 10, b / 10);
    } else if a < 10 && b < 10 {
        assert(decimal(a)[0] == digit_char(a));
        assert(decimal(b)[0] == digit_char(b));
        lemma_digit_injective(a, b);
    } else if a >= 10 {
        assert(decimal(a).len() >= 2);
    } else if b >= 10 {
        assert(decimal(b).len() >= 2);
    }
}

proof fn lemma_placeholder_shape(n: nat)
    ensures
        format_placeholder(n).len() == decimal(n).len() + 4,
        format_placeholder(n)[0] == '⟨',
        forall|j: int| 1 <= j < format_placeholder(n).len() ==> #[trigger] format_placeholder(n)[j] != '⟨',
        format_placeholder(n)[format_placeholder(n).len() - 1] == '⟩',
        forall|j: int| 3 <= j < format_placeholder(n).len() - 1 ==> is_digit_char(#[trigger] format_placeholder(n)[j]),
        format_placeholder(n).subrange(3, format_placeholder(n).len() - 1) == decimal(n),
{
    reveal_strlit("⟨P_");
    reveal_strlit("⟩");
    lemma_decimal_digits(n);
    let p = format_placeholder(n);
    let d = decimal(n);
    assert forall|j: int| 3 <= j < p.len() - 1 implies is_digit_char(#[trigger] p[j]) by {
        assert(p[j] == d[j - 3]);
    }
    assert forall|j: int| 1 <= j < p.len() implies #[trigger] p[j] != '⟨' by {
        if 3 <= j < p.len() - 1 {
            assert(is_digit_char(p[j]));
        }
    }
    assert(p.subrange(3, p.len() - 1) =~= d);
}

/// Two placeholders that start at the same place are the same.
proof fn lemma_placeholders_differ(s: Seq<char>, i: int, n: nat, m: nat)
    requires
        starts_at(s, i, format_placeholder(n)),
        starts_at(s, i, format_placeholder(m)),
    ensures
        n == m,
{
    lemma_placeholder_shape(n);
    lemma_placeholder_shape(m);
    let pn = format_placeholder(n);
    let pm = format_placeholder(m);
    if pn.len() == pm.len() {
        assert(pn =~= pm);
        assert(pn.subrange(3, pn.len() - 1) == pm.subrange(3, pm.len() - 1));
        lemma_decimal_injective(n, m);
    } else if pn.len() < pm.len() {
        let j = pn.len() - 1;
        assert(pn[j] == s[i + j]);
        assert(pm[j] == s[i + j]);
        assert(is_digit_char(pm[j]));
    } else {
        let j = pm.len() - 1;
        assert(pn[j] == s[i + j]);
        assert(pm[j] == s[i + j]);
        assert(is_digit_char(pn[j]));
    }
}

proof fn lemma_replace_none(q: Seq<char>, f: Seq<char>, r: Seq<char>)
    requires
        f.len() > 0,
        forall|j: int| !#[trigger] starts_at(q, j, f),
    ensures
        replace_all(q, f, r) == q,
    decreases q.len(),
{
    if q.len() > 0 {
        assert(!starts_at(q, 0, f));
        assert forall|j: int| !#[trigger] starts_at(q.drop_first(), j, f) by {
            if starts_at(q.drop_first(), j, f) {
                assert(q.subrange(j + 1, j + 1 + f.len()) =~= q.drop_first().subrange(j, j + f.len()));
                assert(starts_at(q, j + 1, f));
            }
        }
        lemma_replace_none(q.drop_first(), f, r);
        assert(seq![q[0]] + q.drop_first() =~= q);
    }
}

proof fn lemma_replace_after_plain(p: Seq<char>, q: Seq<char>, f: Seq<char>, r: Seq<char>)
    requires
        no_open_bracket(p),
        f.len() > 0,
        f[0] == '⟨',
    ensures
        replace_all(p + q, f, r) == p + replace_all(q, f, r),
    decreases p.len(),
{
    if p.len() == 0 {
        assert(p + q =~= q);
        assert(p + replace_all(q, f, r) =~= replace_all(q, f, r));
    } else {
        let s = p + q;
        assert(s[0] == p[0]);
        assert(!starts_at(s, 0, f)) by {
            if starts_at(s, 0, f) {
                assert(s.subrange(0, f.len() as int)[0] == s[0]);
            }
        }
        assert(s.drop_first() =~= p.drop_first() + q);
        lemma_replace_after_plain(p.drop_first(), q, f, r);
        assert(seq![p[0]] + (p.drop_first() + replace_all(q, f, r)) =~= p + replace_all(q, f, r));
    }
}

proof fn lemma_restore_after_plain(p: Seq<char>, q: Seq<char>, tokens: Seq<(Seq<char>, Seq<char>)>)
    requires
        no_open_bracket(p),
        tokens_bracketed(tokens),
    ensures
        restore_all(p + q, tokens) == p + restore_all(q, tokens),
    decreases tokens.len(),
{
    if tokens.len() > 0 {
        let init = tokens.drop_last();
        assert forall|k: int| 0 <= k < init.len() implies (#[trigger] init[k]).0.len() > 0 && init[k].0[0] == '⟨' by {
            assert(init[k] == tokens[k]);
        }
        lemma_restore_after_plain(p, q, init);
        assert(tokens[tokens.len() - 1] == tokens.last());
        lemma_replace_after_plain(p, restore_all(q, init), tokens.last().0, tokens.last().1);
    }
}

proof fn lemma_restore_first(s: Seq<char>, x: (Seq<char>, Seq<char>), tokens: Seq<(Seq<char>, Seq<char>)>)
    ensures
        restore_all(s, seq![x] + tokens) == restore_all(replace_all(s, x.0, x.1), tokens),
    decreases tokens.len(),
{
    reveal_with_fuel(restore_all, 2);
    if tokens.len() == 0 {
        assert(seq![x] + tokens =~= seq![x]);
        assert(seq![x].drop_last() =~= Seq::<(Seq<char>, Seq<char>)>::empty());
        assert(restore_all(s, Seq::<(Seq<char>, Seq<char>)>::empty()) == s);
        assert(restore_all(replace_all(s, x.0, x.1), tokens) == replace_all(s, x.0, x.1));
    } else {
        assert((seq![x] + tokens).drop_last() =~= seq![x] + tokens.drop_last());
        assert((seq![x] + tokens).last() == tokens.last());
        lemma_restore_first(s, x, tokens.drop_last());
    }
}

proof fn lemma_next_in_range(cs: Seq<(int, int)>, cur: Option<int>)
    ensures
        next_match(cs, cur) matches Some(i) ==> 0 <= i < cs.len(),
{
}

/// What protecting the text from `last` on gives back when each token is put
/// back in place of its placeholder: that text itself.
proof fn lemma_scan_restores(t: Seq<char>, cs: Seq<(int, int)>, cur: Option<int>, kept: Option<(int, int)>, last: int, n: nat, fuel: nat)
    requires
        no_open_bracket(t),
        0 <= last <= t.len(),
        forall|k: int| 0 <= k < cs.len() ==> 0 <= (#[trigger] cs[k]).0 <= cs[k].1 <= t.len(),
    ensures
        ({
            let out = protect_scan(t, cs, cur, kept, last, n, fuel);
            &&& restore_all(out.0, out.1) == t.subrange(last, t.len() as int)
            &&& brackets_are_placeholders(out.0, n)
            &&& tokens_bracketed(out.1)
        }),
    decreases fuel,
{
    let out = protect_scan(t, cs, cur, kept, last, n, fuel);
    lemma_next_in_range(cs, cur);
    if fuel == 0 || next_match(cs, cur) is None {
        let rest = t.subrange(last, t.len() as int);
        assert(out == (rest, Seq::<(Seq<char>, Seq<char>)>::empty()));
        assert forall|i: int| 0 <= i < rest.len() && rest[i] == '⟨' implies placeholder_at(rest, i, n) by {
            assert(rest[i] == t[last + i]);
        }
    } else {
        let i = next_match(cs, cur)->Some_0;
        let (s, e) = cs[i];
        if kept == Some((s, e)) {
            lemma_scan_restores(t, cs, Some(i), kept, last, n, (fuel - 1) as nat);
        } else if s < last {
            lemma_scan_restores(t, cs, Some(i), Some((s, e)), last, n, (fuel - 1) as nat);
        } else {
            lemma_scan_restores(t, cs, Some(i), Some((s, e)), e, n + 1, (fuel - 1) as nat);
            let rest = protect_scan(t, cs, Some(i), Some((s, e)), e, n + 1, (fuel - 1) as nat);
            let a = t.subrange(last, s);
            let x = t.subrange(s, e);
            let p = format_placeholder(n);
            let b = rest.0;
            let toks = rest.1;
            assert(out.0 == a + p + b);
            assert(out.1 == seq![(p, x)] + toks);
            lemma_placeholder_shape(n);
            assert(no_open_bracket(a)) by {
                assert forall|j: int| 0 <= j < a.len() implies a[j] != '⟨' by {
                    assert(a[j] == t[last + j]);
                }
            }
            assert(no_open_bracket(x)) by {
                assert forall|j: int| 0 <= j < x.len() implies x[j] != '⟨' by {
                    assert(x[j] == t[s + j]);
                }
            }
            // The placeholder of this token does not occur again in what follows.
            assert forall|j: int| !#[trigger] starts_at(b, j, p) by {
                if starts_at(b, j, p) {
                    assert(b.subrange(j, j + p.len())[0] == b[j]);
                    assert(b[j] == '⟨');
                    assert(placeholder_at(b, j, n + 1));
                    let m = choose|m: nat| m >= n + 1 && #[trigger] starts_at(b, j, format_placeholder(m));
                    lemma_placeholders_differ(b, j, n, m);
                }
            }
            lemma_replace_none(b, p, x);
            lemma_replace_after_plain(a, p + b, p, x);
            assert((p + b).subrange(0, p.len() as int) =~= p);
            assert(starts_at(p + b, 0, p));
            assert((p + b).skip(p.len() as int) =~= b);
            assert(replace_all(p + b, p, x) == x + replace_all(b, p, x));
            assert(a + p + b =~= a + (p + b));
            assert(replace_all(a + p + b, p, x) =~= (a + x) + b);
            lemma_restore_first(a + p + b, (p, x), toks);
            assert(no_open_bracket(a + x)) by {
                assert forall|j: int| 0 <= j < (a + x).len() implies (a + x)[j] != '⟨' by {
                    if j < a.len() {
                        assert((a + x)[j] == a[j]);
                    } else {
                        assert((a + x)[j] == x[j - a.len()]);
                    }
                }
            }
            lemma_restore_after_plain(a + x, b, toks);
            assert(a + x + t.subrange(e, t.len() as int) =~= t.subrange(last, t.len() as int));
            // Every bracket of the output starts a placeholder numbered `n` or more.
            let o = a + p + b;
            assert forall|j: int| 0 <= j < o.len() && o[j] == '⟨' implies placeholder_at(o, j, n) by {
                if j < a.len() {
                    assert(o[j] == a[j]);
                } else if j < a.len() + p.len() {
                    assert(o[j] == p[j - a.len()]);
                    assert(j == a.len());
                    assert(o.subrange(j, j + p.len()) =~= p);
                    assert(starts_at(o, j, format_placeholder(n)));
                } else {
                    let jb = j - a.len() - p.len();
                    assert(o[j] == b[jb]);
                    assert(placeholder_at(b, jb, n + 1));
                    let m = choose|m: nat| m >= n + 1 && #[trigger] starts_at(b, jb, format_placeholder(m));
                    let pm = format_placeholder(m);
                    assert(o.subrange(j, j + pm.len()) =~= b.subrange(jb, jb + pm.len()));
                    assert(starts_at(o, j, format_placeholder(m)));
                }
            }
            assert forall|k: int| 0 <= k < out.1.len() implies (#[trigger] out.1[k]).0.len() > 0 && out.1[k].0[0] == '⟨' by {
                if k > 0 {
                    assert(out.1[k] == toks[k - 1]);
                }
            }
        }
    }
}


// ---------------------------------------------------------------------------
// Every Minecraft format code is protected.

/// The expression that finds Minecraft format codes.
pub open spec fn format_code_pattern() -> Seq<char> { r"(?i)[&§][0-9a-fk-orz]"@ }

/// A character that follows `&` or `§` in a Minecraft format code: a colour
/// (`0`-`9`, `a`-`f`), a style (`k`-`o`), reset (`r`) or `z`, in either case.
pub open spec fn format_code_char(c: char) -> bool {
    ('0' <= c && c <= '9') || ('a' <= c && c <= 'f') || ('A' <= c && c <= 'F') || ('k' <= c && c <= 'o')
        || ('K' <= c && c <= 'O') || c == 'r' || c == 'R' || c == 'z' || c == 'Z'
}

/// A Minecraft format code starts at `i` in `t`.
pub open spec fn format_code_at(t: Seq<char>, i: int) -> bool {
    0 <= i && i + 1 < t.len() && (t[i] == '&' || t[i] == '§') && format_code_char(t[i + 1])
}

/// The search for format codes finds every format code of `t`.
pub open spec fn codes_found(t: Seq<char>) -> bool {
    forall|i: int| format_code_at(t, i) ==> #[trigger] char_matches(format_code_pattern(), t).contains((i, i + 2))
}

/// Match `x` is still to be visited after `cur`.
pub open spec fn after(cs: Seq<(int, int)>, cur: Option<int>, x: int) -> bool {
    match cur {
        None => true,
        Some(c) => before(cs, c, x),
    }
}

/// How many of the first `k` matches are still to be visited after `cur`.
pub open spec fn remaining(cs: Seq<(int, int)>, cur: Option<int>, k: int) -> nat
    decreases k,
{
    if k <= 0 {
        0
    } else {
        remaining(cs, cur, k - 1) + if after(cs, cur, k - 1) { 1nat } else { 0nat }
    }
}

proof fn lemma_remaining_all(cs: Seq<(int, int)>, k: int)
    requires
        0 <= k,
    ensures
        remaining(cs, None, k) == k,
    decreases k,
{
    if k > 0 {
        lemma_remaining_all(cs, k - 1);
    }
}

proof fn lemma_remaining_positive(cs: Seq<(int, int)>, cur: Option<int>, k: int, x: int)
    requires
        0 <= x < k,
        after(cs, cur, x),
    ensures
        remaining(cs, cur, k) >= 1,
    decreases k,
{
    if x < k - 1 {
        lemma_remaining_positive(cs, cur, k - 1, x);
    }
}

proof fn lemma_remaining_step(cs: Seq<(int, int)>, cur: Option<int>, m: int, k: int)
    requires
        is_next(cs, cur, m),
        0 <= k <= cs.len(),
    ensures
        remaining(cs, Some(m), k) + (if m < k { 1nat } else { 0nat }) == remaining(cs, cur, k),
    decreases k,
{
    if k > 0 {
        lemma_remaining_step(cs, cur, m, k - 1);
        let x = k - 1;
        if x == m {
        } else if after(cs, cur, x) {
            assert(cs[x] == cs[x]);
            assert(before(cs, m, x));
        } else {
            if before(cs, m, x) {
                match cur {
                    Some(c) => {
                        assert(before(cs, c, m));
                    },
                    None => {},
                }
            }
        }
    }
}

proof fn lemma_has_next(cs: Seq<(int, int)>, cur: Option<int>, x: int)
    requires
        0 <= x < cs.len(),
        forall|k: int| 0 <= k < cs.len() ==> 0 <= #[trigger] cs[k].0,
        after(cs, cur, x),
    ensures
        exists|m: int| is_next(cs, cur, m),
    decreases cs[x].0, x,
{
    if !is_next(cs, cur, x) {
        let y = choose|y: int| #![trigger cs[y]] 0 <= y < cs.len() && (cur matches Some(c) ==> before(cs, c, y)) && !(y == x || before(cs, x, y));
        assert(cs[y] == cs[y]);
        lemma_has_next(cs, cur, y);
    }
}

proof fn lemma_first_of_range(cs: Seq<(int, int)>, r: (int, int), x: int)
    requires
        0 <= x < cs.len(),
        cs[x] == r,
    ensures
        exists|j: int| 0 <= j < cs.len() && cs[j] == r && forall|y: int| 0 <= y < j ==> #[trigger] cs[y] != r,
    decreases x,
{
    if exists|y: int| 0 <= y < x && #[trigger] cs[y] == r {
        let y = choose|y: int| 0 <= y < x && #[trigger] cs[y] == r;
        lemma_first_of_range(cs, r, y);
    }
}

/// The scan protects the match `j` of range `(i, i + 2)` when no other match
/// overlaps that range, no match of that range is visited before it, and
/// nothing protected so far reaches past `i`.
proof fn lemma_scan_protects(
    t: Seq<char>,
    cs: Seq<(int, int)>,
    cur: Option<int>,
    kept: Option<(int, int)>,
    last: int,
    n: nat,
    fuel: nat,
    j: int,
    i: int,
)
    requires
        forall|k: int| 0 <= k < cs.len() ==> 0 <= (#[trigger] cs[k]).0 <= cs[k].1 <= t.len(),
        0 <= j < cs.len(),
        cs[j] == (i, i + 2),
        after(cs, cur, j),
        forall|x: int| #![trigger cs[x]] 0 <= x < cs.len() && cs[x] != (i, i + 2) ==> cs[x].1 <= i || cs[x].0 >= i + 2,
        forall|x: int| #![trigger cs[x]] 0 <= x < cs.len() && after(cs, cur, x) && before(cs, x, j) ==> cs[x] != (i, i + 2),
        kept != Some((i, i + 2)),
        last <= i,
        fuel >= remaining(cs, cur, cs.len() as int),
    ensures
        exists|k: int| 0 <= k < protect_scan(t, cs, cur, kept, last, n, fuel).1.len()
            && (#[trigger] protect_scan(t, cs, cur, kept, last, n, fuel).1[k]).1 == t.subrange(i, i + 2),
    decreases fuel,
{
    lemma_remaining_positive(cs, cur, cs.len() as int, j);
    lemma_has_next(cs, cur, j);
    let m = choose|m: int| is_next(cs, cur, m);
    lemma_next_unique(cs, cur, m, choose|m: int| is_next(cs, cur, m));
    assert(next_match(cs, cur) == Some(m));
    let (s, e) = cs[m];
    lemma_remaining_step(cs, cur, m, cs.len() as int);
    assert(cs[j] == cs[j]);
    let out = protect_scan(t, cs, cur, kept, last, n, fuel);
    if m == j {
        assert(fuel > 0);
        assert(kept != Some((s, e)));
        assert(s >= last);
        let rest = protect_scan(t, cs, Some(m), Some((s, e)), e, n + 1, (fuel - 1) as nat);
        assert(out.1 == seq![(format_placeholder(n), t.subrange(s, e))] + rest.1);
        assert(out.1[0].1 == t.subrange(i, i + 2));
        assert(0 < out.1.len());
    } else {
        assert(before(cs, m, j));
        assert(cs[m] != (i, i + 2));
        assert(s <= i);
        assert(e <= i);
        assert forall|x: int| #![trigger cs[x]] 0 <= x < cs.len() && after(cs, Some(m), x) && before(cs, x, j) implies cs[x] != (i, i + 2) by {
            match cur {
                Some(c) => {
                    assert(before(cs, c, m));
                },
                None => {},
            }
        }
        if kept == Some((s, e)) {
            lemma_scan_protects(t, cs, Some(m), kept, last, n, (fuel - 1) as nat, j, i);
            assert(out == protect_scan(t, cs, Some(m), kept, last, n, (fuel - 1) as nat));
        } else if s < last {
            lemma_scan_protects(t, cs, Some(m), Some((s, e)), last, n, (fuel - 1) as nat, j, i);
            assert(out == protect_scan(t, cs, Some(m), Some((s, e)), last, n, (fuel - 1) as nat));
        } else {
            lemma_scan_protects(t, cs, Some(m), Some((s, e)), e, n + 1, (fuel - 1) as nat, j, i);
            let rest = protect_scan(t, cs, Some(m), Some((s, e)), e, n + 1, (fuel - 1) as nat);
            assert(out.1 == seq![(format_placeholder(n), t.subrange(s, e))] + rest.1);
            let k = choose|k: int| 0 <= k < rest.1.len() && (#[trigger] rest.1[k]).1 == t.subrange(i, i + 2);
            assert(out.1[k + 1] == rest.1[k]);
        }
    }
}

/// No other protected expression overlaps the format code at `i`.
pub open spec fn code_alone(t: Seq<char>, i: int) -> bool {
    forall|x: int| #![trigger candidates_from(format_patterns(), t, 0)[x]]
        0 <= x < candidates_from(format_patterns(), t, 0).len() ==> (candidates_from(format_patterns(), t, 0)[x] == (i, i + 2)
        || candidates_from(format_patterns(), t, 0)[x].1 <= i || candidates_from(format_patterns(), t, 0)[x].0 >= i + 2)
}

/// Every Minecraft format code of a text (`&` or `§` followed by `0`-`9`,
/// `a`-`f`, `k`-`o`, `r` or `z`, in either case) that no other protected
/// expression overlaps is protected: one of the tokens is that code. `codes_found`
/// is what the search for format codes gives (see `protect`).
pub proof fn law_format_codes_are_protected(t: Seq<char>, i: int)
    requires
        format_code_at(t, i),
        codes_found(t),
        code_alone(t, i),
        forall|x: int| #![trigger candidates_from(format_patterns(), t, 0)[x]]
            0 <= x < candidates_from(format_patterns(), t, 0).len() ==> 0 <= candidates_from(format_patterns(), t, 0)[x].0
            <= candidates_from(format_patterns(), t, 0)[x].1 <= t.len(),
    ensures
        exists|k: int| 0 <= k < protected(t).1.len() && (#[trigger] protected(t).1[k]).1 == t.subrange(i, i + 2),
{
    let ps = format_patterns();
    let cs = candidates_from(ps, t, 0);
    assert(ps[0] == format_code_pattern());
    assert(cs == char_matches(ps[0], t) + candidates_from(ps, t, 1));
    assert(char_matches(format_code_pattern(), t).contains((i, i + 2)));
    let a = char_matches(ps[0], t);
    let x = choose|x: int| 0 <= x < a.len() && a[x] == (i, i + 2);
    assert(cs[x] == (i, i + 2));
    lemma_first_of_range(cs, (i, i + 2), x);
    let j = choose|j: int| 0 <= j < cs.len() && cs[j] == (i, i + 2) && forall|y: int| 0 <= y < j ==> #[trigger] cs[y] != (i, i + 2);
    assert forall|y: int| #![trigger cs[y]] 0 <= y < cs.len() && after(cs, None, y) && before(cs, y, j) implies cs[y] != (i, i + 2) by {
        if cs[y] == (i, i + 2) {
            assert(y < j);
        }
    }
    lemma_remaining_all(cs, cs.len() as int);
    lemma_scan_protects(t, cs, None, None, 0, 0, cs.len(), j, i);
    let out = protect_scan(t, cs, None, None, 0, 0, cs.len());
    assert(protected(t) == out);
    let k = choose|k: int| 0 <= k < out.1.len() && (#[trigger] out.1[k]).1 == t.subrange(i, i + 2);
    assert(protected(t).1[k].1 == t.subrange(i, i + 2));
}

} // verus!



