//! The curated Minecraft glossary: terms that are replaced by opaque
//! placeholders before a text is sent for translation, and by their curated
//! translation afterwards.

use crate::digest::{hex_lower, sha256_hex, sha256_of};
use crate::text::{alnum, chars_of, is_alnum, lower, lower_all, lowercase, push_char, push_decimal, push_str, str_eq, to_lower, trim, trimmed, pairs_view};
use vstd::prelude::*;
use vstd::utf8::encode_utf8;

verus! {

pub const DEFAULT_FILENAME: &'static str = "minecraft_glossary.json";

/// A curated term.
#[derive(Clone, Debug)]
pub struct Entry {
    pub source: String,
    pub target: String,
    pub case_sensitive: bool,
}

/// A checked glossary, its terms longest first, with the fingerprint of the
/// file it was read from.
#[derive(Clone, Debug)]
pub struct Loaded {
    entries: Vec<Entry>,
    fingerprint: String,
}

/// The length in bytes of a term's source.
pub open spec fn byte_len(e: Entry) -> nat {
    encode_utf8(e.source@).len()
}

/// Two terms that the glossary may not both hold.
pub open spec fn same_term(a: Entry, b: Entry) -> bool {
    a.case_sensitive == b.case_sensitive && if a.case_sensitive {
        a.source@ == b.source@
    } else {
        lower_all(a.source@) == lower_all(b.source@)
    }
}

pub open spec fn blank(s: Seq<char>) -> bool {
    trim(s).len() == 0
}

/// Term `i` is blank or repeats an earlier one.
pub open spec fn bad_entry(es: Seq<Entry>, i: int) -> bool {
    blank(es[i].source@) || blank(es[i].target@) || exists|j: int| 0 <= j < i && same_term(#[trigger] es[j], es[i])
}

pub open spec fn first_bad_entry(es: Seq<Entry>, k: int) -> Option<int>
    decreases es.len() - k,
{
    if 0 <= k < es.len() {
        if bad_entry(es, k) { Some(k) } else { first_bad_entry(es, k + 1) }
    } else {
        None
    }
}

/// Why a glossary file is refused, if it is.
pub open spec fn glossary_problem(version: u32, es: Seq<Entry>) -> Option<Seq<char>> {
    if version == 0 {
        Some("version 必须大于 0"@)
    } else if es.len() == 0 {
        Some("entries 不能为空"@)
    } else {
        match first_bad_entry(es, 0) {
            Some(i) => if blank(es[i].source@) || blank(es[i].target@) {
                Some("source 和 target 不能为空"@)
            } else {
                Some("存在重复术语："@ + es[i].source@)
            },
            None => None,
        }
    }
}

/// The terms of `es` whose source is `n` bytes long, in their order.
pub open spec fn of_length(es: Seq<Entry>, n: nat) -> Seq<Entry> {
    es.filter(|e: Entry| byte_len(e) == n)
}

/// The terms grouped by the lengths `ls`, in that order.
pub open spec fn grouped(ls: Seq<nat>, es: Seq<Entry>) -> Seq<Entry>
    decreases ls.len(),
{
    if ls.len() == 0 {
        Seq::empty()
    } else {
        grouped(ls.drop_last(), es) + of_length(es, ls.last())
    }
}

/// Each length of a term once, longest first.
pub open spec fn lengths_in_order(ls: Seq<nat>, es: Seq<Entry>) -> bool {
    &&& forall|i: int, j: int| 0 <= i < j < ls.len() ==> ls[i] > ls[j]
    &&& forall|j: int| 0 <= j < es.len() ==> ls.contains(byte_len(#[trigger] es[j]))
}

/// The terms longest first, terms of one length in their order (a stable sort).
pub open spec fn longest_first(es: Seq<Entry>, out: Seq<Entry>) -> bool {
    exists|ls: Seq<nat>| lengths_in_order(ls, es) && out == grouped(ls, es)
}

impl Loaded {
    /// Every term has a source.
    pub closed spec fn wf(&self) -> bool {
        forall|i: int| 0 <= i < self.entries@.len() ==> (#[trigger] self.entries@[i]).source@.len() > 0
    }

    pub closed spec fn terms(&self) -> Seq<Entry> {
        self.entries@
    }

    pub closed spec fn fingerprint_spec(&self) -> Seq<char> {
        self.fingerprint@
    }

    /// Checks the terms read from a glossary file (`bytes`, whose version is
    /// `version`) and orders them longest first.
    pub fn from_parts(version: u32, entries: Vec<Entry>, bytes: &[u8]) -> (r: Result<Self, String>)
        ensures
            match glossary_problem(version, entries@) {
                Some(m) => r matches Err(e) && e@ == m,
                None => r matches Ok(g) && g.wf() && longest_first(entries@, g.terms())
                    && g.fingerprint_spec() == hex_lower(sha256_of(bytes@)),
            },
    {
        if version == 0 {
            return Err(crate::text::owned("version 必须大于 0"));
        }
        if entries.len() == 0 {
            return Err(crate::text::owned("entries 不能为空"));
        }
        match find_bad_entry(&entries) {
            Some(i) => {
                if is_blank(entries[i].source.as_str()) || is_blank(entries[i].target.as_str()) {
                    return Err(crate::text::owned("source 和 target 不能为空"));
                }
                let mut m = String::new();
                push_str(&mut m, "存在重复术语：");
                push_str(&mut m, entries[i].source.as_str());
                return Err(m);
            },
            None => {},
        }
        proof {
            lemma_first_bad_entry(entries@, 0);
            assert forall|i: int| 0 <= i < entries@.len() implies (#[trigger] entries@[i]).source@.len() > 0 by {
                assert(!bad_entry(entries@, i));
                let s = entries@[i].source@;
                if s.len() == 0 {
                    assert(crate::text::lead_ws(s) == 0);
                    assert(trim(s).len() == 0);
                }
            }
        }
        let sorted = sort_longest_first(&entries);
        Ok(Loaded { entries: sorted, fingerprint: sha256_hex(bytes) })
    }

    /// The fingerprint of the glossary file, which keys the translation cache.
    pub fn fingerprint(&self) -> (s: &str)
        ensures
            s@ == self.fingerprint_spec(),
    {
        self.fingerprint.as_str()
    }

    /// The number of terms.
    pub fn len(&self) -> (n: usize)
        ensures
            n == self.terms().len(),
    {
        self.entries.len()
    }
}

proof fn lemma_first_bad_entry(es: Seq<Entry>, k: int)
    requires
        0 <= k,
    ensures
        first_bad_entry(es, k) matches Some(i) ==> k <= i < es.len() && bad_entry(es, i),
        first_bad_entry(es, k) is None ==> forall|i: int| k <= i < es.len() ==> !bad_entry(es, i),
    decreases es.len() - k,
{
    if 0 <= k < es.len() {
        lemma_first_bad_entry(es, k + 1);
    }
}

pub(crate) fn is_blank(s: &str) -> (b: bool)
    ensures
        b == blank(s@),
{
    let t = trimmed(s);
    t.as_str().is_empty()
}

fn same_term_exec(a: &Entry, b: &Entry) -> (r: bool)
    ensures
        r == same_term(*a, *b),
{
    if a.case_sensitive != b.case_sensitive {
        return false;
    }
    if a.case_sensitive {
        str_eq(a.source.as_str(), b.source.as_str())
    } else {
        let x = lowercase(a.source.as_str());
        let y = lowercase(b.source.as_str());
        str_eq(x.as_str(), y.as_str())
    }
}

fn find_bad_entry(es: &Vec<Entry>) -> (r: Option<usize>)
    ensures
        match r {
            Some(i) => first_bad_entry(es@, 0) == Some(i as int) && i < es.len(),
            None => first_bad_entry(es@, 0) is None,
        },
{
    proof {
        lemma_first_bad_entry(es@, 0);
    }
    let mut i: usize = 0;
    while i < es.len()
        invariant
            i <= es.len(),
            first_bad_entry(es@, 0) == first_bad_entry(es@, i as int),
        decreases es.len() - i,
    {
        let mut bad = is_blank(es[i].source.as_str()) || is_blank(es[i].target.as_str());
        let mut j: usize = 0;
        while j < i && !bad
            invariant
                j <= i < es.len(),
                !bad ==> forall|x: int| 0 <= x < j ==> !same_term(es@[x], es@[i as int]),
                !bad ==> !blank(es@[i as int].source@) && !blank(es@[i as int].target@),
                bad ==> bad_entry(es@, i as int),
            decreases i - j,
        {
            if same_term_exec(&es[j], &es[i]) {
                bad = true;
            }
            j += 1;
        }
        if bad {
            return Some(i);
        }
        assert(!bad_entry(es@, i as int));
        i += 1;
    }
    None
}

fn utf8_size(s: &str) -> (n: usize)
    ensures
        n == encode_utf8(s@).len(),
{
    s.as_bytes().len()
}

/// The distinct byte lengths of the sources, longest first.
fn lengths_longest_first(es: &Vec<Entry>) -> (ls: Vec<usize>)
    ensures
        lengths_in_order(ls@.map_values(|n: usize| n as nat), es@),
{
    let mut ls: Vec<usize> = Vec::new();
    let mut i: usize = 0;
    while i < es.len()
        invariant
            i <= es.len(),
            ({
                let v = ls@.map_values(|n: usize| n as nat);
                &&& forall|a: int, b: int| 0 <= a < b < v.len() ==> v[a] > v[b]
                &&& forall|j: int| 0 <= j < i ==> v.contains(byte_len(#[trigger] es@[j]))
            }),
        decreases es.len() - i,
    {
        let n = utf8_size(es[i].source.as_str());
        let ghost v = ls@.map_values(|n: usize| n as nat);
        let mut q: usize = 0;
        while q < ls.len() && ls[q] > n
            invariant
                q <= ls.len(),
                v == ls@.map_values(|n: usize| n as nat),
                forall|a: int| 0 <= a < q ==> v[a] > n,
            decreases ls.len() - q,
        {
            q += 1;
        }
        if q < ls.len() && ls[q] == n {
            assert(v[q as int] == n as nat);
        } else {
            ls.insert(q, n);
            proof {
                let w = ls@.map_values(|n: usize| n as nat);
                assert(w =~= v.insert(q as int, n as nat));
                assert forall|a: int, b: int| 0 <= a < b < w.len() implies w[a] > w[b] by {
                    if a < q && b < q {
                        assert(w[a] == v[a] && w[b] == v[b]);
                    } else if a < q && b == q {
                        assert(w[a] == v[a]);
                    } else if a < q {
                        assert(w[a] == v[a] && w[b] == v[b - 1]);
                    } else if a == q {
                        assert(w[b] == v[b - 1]);
                        assert(v[q as int] < n) by {
                            assert(v[q as int] <= n as nat);
                        }
                        if b - 1 > q {
                            assert(v[q as int] > v[b - 1]);
                        }
                    } else {
                        assert(w[a] == v[a - 1] && w[b] == v[b - 1]);
                    }
                }
                assert forall|j: int| 0 <= j <= i implies w.contains(byte_len(#[trigger] es@[j])) by {
                    if j == i {
                        assert(w[q as int] == n as nat);
                    } else {
                        let x = choose|x: int| 0 <= x < v.len() && v[x] == byte_len(es@[j]);
                        if x < q {
                            assert(w[x] == v[x]);
                        } else {
                            assert(w[x + 1] == v[x]);
                        }
                    }
                }
            }
        }
        i += 1;
    }
    ls
}

/// The terms longest first, terms of one length in their order.
fn sort_longest_first(es: &Vec<Entry>) -> (out: Vec<Entry>)
    ensures
        longest_first(es@, out@),
        forall|i: int| 0 <= i < out@.len() ==> es@.contains(#[trigger] out@[i]),
{
    let ls = lengths_longest_first(es);
    let ghost lv = ls@.map_values(|n: usize| n as nat);
    let mut out: Vec<Entry> = Vec::new();
    let mut k: usize = 0;
    while k < ls.len()
        invariant
            k <= ls.len(),
            lv == ls@.map_values(|n: usize| n as nat),
            out@ == grouped(lv.take(k as int), es@),
            forall|i: int| 0 <= i < out@.len() ==> es@.contains(#[trigger] out@[i]),
        decreases ls.len() - k,
    {
        let n = ls[k];
        let ghost start = out@;
        let ghost pred = |e: Entry| byte_len(e) == n as nat;
        let mut j: usize = 0;
        assert(es@.take(0).filter(pred) =~= Seq::<Entry>::empty()) by {
            reveal(Seq::filter);
        }
        assert(start + es@.take(0).filter(pred) =~= start);
        while j < es.len()
            invariant
                j <= es.len(),
                pred == (|e: Entry| byte_len(e) == n as nat),
                out@ == start + es@.take(j as int).filter(pred),
                forall|i: int| 0 <= i < out@.len() ==> es@.contains(#[trigger] out@[i]),
            decreases es.len() - j,
        {
            let ghost t = es@.take(j + 1);
            proof {
                assert(t.drop_last() =~= es@.take(j as int));
                assert(t.last() == es@[j as int]);
                reveal(Seq::filter);
            }
            if utf8_size(es[j].source.as_str()) == n {
                let e = Entry {
                    source: es[j].source.clone(),
                    target: es[j].target.clone(),
                    case_sensitive: es[j].case_sensitive,
                };
                assert(e == es@[j as int]);
                out.push(e);
                assert(t.filter(pred) == es@.take(j as int).filter(pred).push(es@[j as int]));
                assert(out@ =~= start + t.filter(pred));
            } else {
                assert(t.filter(pred) == es@.take(j as int).filter(pred));
            }
            j += 1;
        }
        proof {
            assert(es@.take(es.len() as int) =~= es@);
            let t = lv.take(k + 1);
            assert(t.drop_last() =~= lv.take(k as int));
            assert(t.last() == n as nat);
        }
        k += 1;
    }
    assert(lv.take(ls.len() as int) =~= lv);
    out
}

// ---------------------------------------------------------------------------
// Protecting the terms of a text.

/// A character of a word, for the boundaries of a term.
pub open spec fn word(c: char) -> bool {
    is_alnum(c) || c == '_'
}

/// `a` and `b` are equal up to ASCII case.
pub open spec fn eq_fold(a: Seq<char>, b: Seq<char>) -> bool {
    lower_all(a) == lower_all(b)
}

/// The term `e` stands in `t` at `p`, and does not start or end inside a word
/// where its own first or last character is a word character.
pub open spec fn term_at(t: Seq<char>, p: int, e: Entry) -> bool {
    let s = e.source@;
    let end = p + s.len();
    &&& 0 <= p && end <= t.len()
    &&& if e.case_sensitive { t.subrange(p, end) == s } else { eq_fold(t.subrange(p, end), s) }
    &&& (s.len() > 0 && word(s[0])) ==> (p == 0 || !word(t[p - 1]))
    &&& (s.len() > 0 && word(s.last())) ==> (end == t.len() || !word(t[end]))
}

/// The first term of `es` that stands in `t` at `p`.
pub open spec fn first_term(t: Seq<char>, p: int, es: Seq<Entry>, k: int) -> Option<int>
    decreases es.len() - k,
{
    if 0 <= k < es.len() {
        if term_at(t, p, es[k]) { Some(k) } else { first_term(t, p, es, k + 1) }
    } else {
        None
    }
}

/// The placeholder of the `n`-th term of a text.
pub open spec fn term_placeholder(n: nat) -> Seq<char> {
    "⟨G_"@ + crate::text::decimal(n) + "⟩"@
}

/// The text from `p` on with its terms replaced, given `n` terms replaced
/// before; and the placeholders with the translations they stand for.
pub open spec fn protect_from(t: Seq<char>, es: Seq<Entry>, p: int, n: nat) -> (Seq<char>, Seq<(Seq<char>, Seq<char>)>)
    decreases t.len() - p,
{
    if p < 0 || p >= t.len() {
        (Seq::empty(), Seq::empty())
    } else {
        match first_term(t, p, es, 0) {
            Some(k) => if 0 <= k < es.len() && es[k].source@.len() > 0 && p + es[k].source@.len() <= t.len() {
                let rest = protect_from(t, es, p + es[k].source@.len(), n + 1);
                (term_placeholder(n) + rest.0, seq![(term_placeholder(n), es[k].target@)] + rest.1)
            } else {
                (Seq::empty(), Seq::empty())
            },
            None => {
                let rest = protect_from(t, es, p + 1, n);
                (seq![t[p]] + rest.0, rest.1)
            },
        }
    }
}


proof fn lemma_first_term(t: Seq<char>, p: int, es: Seq<Entry>, k: int)
    requires
        0 <= k,
    ensures
        first_term(t, p, es, k) matches Some(i) ==> k <= i < es.len() && term_at(t, p, es[i]),
    decreases es.len() - k,
{
    if 0 <= k < es.len() {
        lemma_first_term(t, p, es, k + 1);
    }
}

fn word_exec(c: char) -> (b: bool)
    ensures
        b == word(c),
{
    alnum(c) || c == '_'
}

fn term_at_exec(t: &Vec<char>, p: usize, e: &Entry) -> (b: bool)
    requires
        p <= t.len(),
    ensures
        b == term_at(t@, p as int, *e),
{
    let s = chars_of(e.source.as_str());
    if s.len() > t.len() - p {
        return false;
    }
    let end = p + s.len();
    let mut i: usize = 0;
    while i < s.len()
        invariant
            i <= s.len(),
            end == p + s.len() <= t.len(),
            s@ == e.source@,
            forall|j: int| 0 <= j < i ==> (if e.case_sensitive { t@[p + j] == s@[j] } else { lower(t@[p + j]) == lower(s@[j]) }),
        decreases s.len() - i,
    {
        let same = if e.case_sensitive { t[p + i] == s[i] } else { to_lower(t[p + i]) == to_lower(s[i]) };
        if !same {
            proof {
                if e.case_sensitive {
                    assert(t@.subrange(p as int, end as int)[i as int] != s@[i as int]);
                } else {
                    assert(lower_all(t@.subrange(p as int, end as int))[i as int] != lower_all(s@)[i as int]);
                }
            }
            return false;
        }
        i += 1;
    }
    proof {
        if e.case_sensitive {
            assert(t@.subrange(p as int, end as int) =~= s@);
        } else {
            assert(lower_all(t@.subrange(p as int, end as int)) =~= lower_all(s@));
        }
    }
    let left = s.len() > 0 && word_exec(s[0]);
    let right = s.len() > 0 && word_exec(s[s.len() - 1]);
    let left_ok = !left || p == 0 || !word_exec(t[p - 1]);
    let right_ok = !right || end == t.len() || !word_exec(t[end]);
    left_ok && right_ok
}

impl Loaded {
    /// Replaces each glossary term of `text` by a placeholder `⟨G_n⟩`,
    /// trying the longest terms first at each position, and lists each
    /// placeholder with the curated translation it stands for.
    pub fn protect(&self, text: &str) -> (r: (String, Vec<(String, String)>))
        requires
            self.wf(),
        ensures
            (r.0@, pairs_view(r.1@)) == protect_from(text@, self.terms(), 0, 0),
    {
        let t = chars_of(text);
        let ghost es = self.entries@;
        let mut out = String::new();
        let mut tokens: Vec<(String, String)> = Vec::new();
        let mut p: usize = 0;
        while p < t.len()
            invariant
                p <= t.len(),
                t@ == text@,
                es == self.entries@,
                self.wf(),
                ({
                    let rest = protect_from(t@, es, p as int, tokens.len() as nat);
                    (out@ + rest.0, pairs_view(tokens@) + rest.1) == protect_from(t@, es, 0, 0)
                }),
            decreases t.len() - p,
        {
            let mut k: usize = 0;
            while k < self.entries.len() && !term_at_exec(&t, p, &self.entries[k])
                invariant
                    k <= self.entries.len(),
                    p < t.len(),
                    es == self.entries@,
                    first_term(t@, p as int, es, 0) == first_term(t@, p as int, es, k as int),
                decreases self.entries.len() - k,
            {
                k += 1;
            }
            let ghost before = (out@, pairs_view(tokens@));
            let ghost n = tokens.len() as nat;
            if k < self.entries.len() {
                let mut ph = String::new();
                push_str(&mut ph, "⟨G_");
                push_decimal(&mut ph, tokens.len());
                push_str(&mut ph, "⟩");
                let len = chars_of(self.entries[k].source.as_str()).len();
                assert(es[k as int].source@.len() > 0);
                push_str(&mut out, ph.as_str());
                tokens.push((ph, self.entries[k].target.clone()));
                proof {
                    assert(pairs_view(tokens@) =~= before.1.push((term_placeholder(n), es[k as int].target@)));
                    let rest = protect_from(t@, es, p + len, n + 1);
                    assert(out@ + rest.0 =~= before.0 + (term_placeholder(n) + rest.0));
                    assert(pairs_view(tokens@) + rest.1 =~= before.1 + (seq![(term_placeholder(n), es[k as int].target@)] + rest.1));
                }
                p = p + len;
            } else {
                push_char(&mut out, t[p]);
                proof {
                    let rest = protect_from(t@, es, p + 1, n);
                    assert(out@ + rest.0 =~= before.0 + (seq![t@[p as int]] + rest.0));
                }
                p += 1;
            }
        }
        proof {
            let rest = protect_from(t@, es, p as int, tokens.len() as nat);
            assert(out@ + rest.0 =~= out@);
            assert(pairs_view(tokens@) + rest.1 =~= pairs_view(tokens@));
        }
        (out, tokens)
    }
}


/// The term `e` stands at `q` in `t` as a whole word: its text is there (up
/// to ASCII case unless it is case-sensitive), and where it begins or ends
/// with a word character, the text does not continue that word before or
/// after it.
pub open spec fn whole_term_at(t: Seq<char>, q: int, e: Entry) -> bool {
    let s = e.source@;
    let end = q + s.len();
    &&& 0 <= q && end <= t.len() && s.len() > 0
    &&& if e.case_sensitive { t.subrange(q, end) == s } else { lower_all(t.subrange(q, end)) == lower_all(s) }
    &&& word(s[0]) ==> (q == 0 || !word(t[q - 1]))
    &&& word(s[s.len() - 1]) ==> (end == t.len() || !word(t[end]))
}

/// Every placeholder that glossary protection puts in a text stands for a
/// term found there as a whole word: never a term that begins or ends inside
/// a longer word. The `j`-th placeholder is numbered `n + j` and carries the
/// curated translation of its term.
pub proof fn law_terms_replaced_only_as_whole_words(t: Seq<char>, es: Seq<Entry>, p: int, n: nat, j: int)
    requires
        0 <= j < protect_from(t, es, p, n).1.len(),
    ensures
        exists|q: int, k: int|
            #![trigger whole_term_at(t, q, es[k])]
            p <= q && 0 <= k < es.len() && whole_term_at(t, q, es[k])
                && protect_from(t, es, p, n).1[j] == (term_placeholder((n + j) as nat), es[k].target@),
    decreases t.len() - p,
{
    if 0 <= p < t.len() {
        lemma_first_term(t, p, es, 0);
        match first_term(t, p, es, 0) {
            Some(k) => {
                if 0 <= k < es.len() && es[k].source@.len() > 0 && p + es[k].source@.len() <= t.len() {
                    let len = es[k].source@.len() as int;
                    if j == 0 {
                        assert(term_at(t, p, es[k]));
                        assert(es[k].source@.last() == es[k].source@[len - 1]);
                        assert(whole_term_at(t, p, es[k]));
                    } else {
                        law_terms_replaced_only_as_whole_words(t, es, p + len, n + 1, j - 1);
                        let (q, k2) = choose|q: int, k2: int|
                            #![trigger whole_term_at(t, q, es[k2])]
                            p + len <= q && 0 <= k2 < es.len() && whole_term_at(t, q, es[k2])
                                && protect_from(t, es, p + len, n + 1).1[j - 1] == (term_placeholder((n + 1 + (j - 1)) as nat), es[k2].target@);
                        assert((n + 1 + (j - 1)) as nat == (n + j) as nat);
                        assert(whole_term_at(t, q, es[k2]));
                    }
                }
            },
            None => {
                law_terms_replaced_only_as_whole_words(t, es, p + 1, n, j);
            },
        }
    }
}

} // verus!
