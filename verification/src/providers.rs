//! Translation providers: which ones exist, what they need, and how texts are
//! cut for the web services and put back together.

use crate::text::{chars_of, push_str, starts, starts_at, starts_with_at, string_of_range, str_eq, trim, trimmed, strings_view};
use vstd::prelude::*;

verus! {

pub const OPENAI_COMPATIBLE: &'static str = "openai_compatible";
pub const DEEPL: &'static str = "deepl";
pub const GOOGLE_WEB: &'static str = "google_web";
pub const DEEPL_WEB: &'static str = "deepl_web";

/// The name of a supported provider, if `p` is one.
pub open spec fn known_provider(p: Seq<char>) -> bool {
    p == "openai_compatible"@ || p == "deepl"@ || p == "google_web"@ || p == "deepl_web"@
}

/// The free web services, which need no key and take one request at a time.
pub open spec fn web_provider(p: Seq<char>) -> bool {
    p == "google_web"@ || p == "deepl_web"@
}

/// The provider named by `provider` once trimmed, or the refusal of an unknown one.
pub fn normalize(provider: &str) -> (r: Result<&'static str, String>)
    ensures
        match r {
            Ok(p) => known_provider(trim(provider@)) && p@ == trim(provider@),
            Err(m) => !known_provider(trim(provider@)) && m@ == "不支持的翻译提供商："@ + trim(provider@),
        },
{
    let p = trimmed(provider);
    if str_eq(p.as_str(), "openai_compatible") {
        Ok("openai_compatible")
    } else if str_eq(p.as_str(), "deepl") {
        Ok("deepl")
    } else if str_eq(p.as_str(), "google_web") {
        Ok("google_web")
    } else if str_eq(p.as_str(), "deepl_web") {
        Ok("deepl_web")
    } else {
        let mut m = String::new();
        push_str(&mut m, "不支持的翻译提供商：");
        push_str(&mut m, p.as_str());
        Err(m)
    }
}

/// Every provider but the free web services needs an API key.
pub fn requires_api_key(provider: &str) -> (b: bool)
    ensures
        b == !web_provider(provider@),
{
    !(str_eq(provider, "google_web") || str_eq(provider, "deepl_web"))
}

/// The free web services take one request at a time; the others have no limit.
pub fn concurrency_limit(provider: &str) -> (r: Option<usize>)
    ensures
        r == (if web_provider(provider@) { Some(1usize) } else { None }),
{
    if str_eq(provider, "google_web") || str_eq(provider, "deepl_web") {
        Some(1)
    } else {
        None
    }
}

// ---------------------------------------------------------------------------
// Cutting long texts.

/// A character after which a long text may be cut.
pub open spec fn is_break(c: char) -> bool {
    c == '\n' || c == '.' || c == '!' || c == '?' || c == '。' || c == '！' || c == '？' || c == ';'
        || c == '；' || c == ' '
}

/// The last position in `[lo, hi)` whose character is `c`, if any.
pub open spec fn last_of(s: Seq<char>, lo: int, hi: int, c: char) -> Option<int>
    decreases hi - lo,
{
    if lo < hi {
        if s[hi - 1] == c {
            Some(hi - 1)
        } else {
            last_of(s, lo, hi - 1, c)
        }
    } else {
        None
    }
}

/// The last position in `[lo, hi)` whose character is a break, if any.
pub open spec fn last_break(s: Seq<char>, lo: int, hi: int) -> Option<int>
    decreases hi - lo,
{
    if lo < hi {
        if is_break(s[hi - 1]) {
            Some(hi - 1)
        } else {
            last_break(s, lo, hi - 1)
        }
    } else {
        None
    }
}

/// `a` is later than `b`, where no position is earlier than any.
pub open spec fn later(a: Option<int>, b: Option<int>) -> bool {
    match (a, b) {
        (Some(x), Some(y)) => x > y,
        (Some(_), None) => true,
        _ => false,
    }
}

/// Where the piece that starts at `start` ends: after the last break of the
/// window of `max` characters if that keeps at least half of it, else at the
/// window's end; then before a placeholder that the piece would leave open,
/// unless that would leave the piece empty.
pub open spec fn cut_at(s: Seq<char>, start: int, max: int) -> int {
    let end = start + max;
    let first = match last_break(s, start, end) {
        Some(j) => if j + 1 - start >= max / 2 { j + 1 } else { end },
        None => end,
    };
    let open = last_of(s, start, first, '⟨');
    let close = last_of(s, start, first, '⟩');
    let moved = if later(open, close) { open->0 } else { first };
    if moved <= start { end } else { moved }
}

proof fn lemma_last_bounds(s: Seq<char>, lo: int, hi: int, c: char)
    ensures
        last_of(s, lo, hi, c) matches Some(j) ==> lo <= j < hi && s[j] == c,
        last_of(s, lo, hi, c) is None ==> forall|j: int| lo <= j < hi ==> s[j] != c,
        last_of(s, lo, hi, c) matches Some(j) ==> forall|k: int| j < k < hi ==> s[k] != c,
    decreases hi - lo,
{
    if lo < hi {
        lemma_last_bounds(s, lo, hi - 1, c);
    }
}

proof fn lemma_last_break_bounds(s: Seq<char>, lo: int, hi: int)
    ensures
        last_break(s, lo, hi) matches Some(j) ==> lo <= j < hi && is_break(s[j]),
        last_break(s, lo, hi) is None ==> forall|j: int| lo <= j < hi ==> !is_break(s[j]),
        last_break(s, lo, hi) matches Some(j) ==> forall|k: int| j < k < hi ==> !is_break(s[k]),
    decreases hi - lo,
{
    if lo < hi {
        lemma_last_break_bounds(s, lo, hi - 1);
    }
}

proof fn lemma_cut_bounds(s: Seq<char>, start: int, max: int)
    requires
        0 <= start,
        max > 0,
    ensures
        start < cut_at(s, start, max) <= start + max,
{
    let end = start + max;
    lemma_last_break_bounds(s, start, end);
    let first = match last_break(s, start, end) {
        Some(j) => if j + 1 - start >= max / 2 { j + 1 } else { end },
        None => end,
    };
    lemma_last_bounds(s, start, first, '⟨');
}

/// The pieces of `s` from `start` on, each at most `max` characters long.
pub open spec fn pieces_from(s: Seq<char>, start: int, max: int) -> Seq<Seq<char>>
    decreases s.len() - start,
{
    if 0 <= start && max > 0 && s.len() - start > max {
        let cut = cut_at(s, start, max);
        if start < cut <= start + max {
            seq![s.subrange(start, cut)] + pieces_from(s, cut, max)
        } else {
            seq![]
        }
    } else {
        seq![s.subrange(start, s.len() as int)]
    }
}

/// The pieces that a text is cut into for a service that takes at most `max`
/// characters at once.
pub open spec fn pieces(s: Seq<char>, max: int) -> Seq<Seq<char>> {
    if s.len() == 0 {
        seq![Seq::empty()]
    } else {
        pieces_from(s, 0, max)
    }
}


fn is_break_exec(c: char) -> (b: bool)
    ensures
        b == is_break(c),
{
    c == '\n' || c == '.' || c == '!' || c == '?' || c == '。' || c == '！' || c == '？' || c == ';'
        || c == '；' || c == ' '
}

fn last_of_exec(v: &Vec<char>, lo: usize, hi: usize, c: char) -> (r: Option<usize>)
    requires
        lo <= hi <= v.len(),
    ensures
        match last_of(v@, lo as int, hi as int, c) {
            Some(j) => r == Some(j as usize),
            None => r is None,
        },
{
    proof {
        lemma_last_bounds(v@, lo as int, hi as int, c);
    }
    let mut k = hi;
    while k > lo
        invariant
            lo <= k <= hi <= v.len(),
            last_of(v@, lo as int, hi as int, c) == last_of(v@, lo as int, k as int, c),
        decreases k - lo,
    {
        if v[k - 1] == c {
            return Some(k - 1);
        }
        k -= 1;
    }
    None
}

fn cut_exec(v: &Vec<char>, start: usize, max: usize) -> (cut: usize)
    requires
        max > 0,
        start + max < v.len(),
    ensures
        cut == cut_at(v@, start as int, max as int),
{
    proof {
        lemma_last_break_bounds(v@, start as int, (start + max) as int);
    }
    let end = start + max;
    let mut k = end;
    while k > start && !is_break_exec(v[k - 1])
        invariant
            start <= k <= end < v.len(),
            last_break(v@, start as int, end as int) == last_break(v@, start as int, k as int),
        decreases k - start,
    {
        k -= 1;
    }
    let first = if k > start && k - start >= max / 2 {
        k
    } else {
        end
    };
    proof {
        lemma_last_bounds(v@, start as int, first as int, '⟨');
        lemma_last_bounds(v@, start as int, first as int, '⟩');
    }
    let open = last_of_exec(v, start, first, '⟨');
    let close = last_of_exec(v, start, first, '⟩');
    let later_open = match (open, close) {
        (Some(x), Some(y)) => x > y,
        (Some(_), None) => true,
        _ => false,
    };
    let moved = if later_open {
        match open {
            Some(x) => x,
            None => first,
        }
    } else {
        first
    };
    if moved <= start {
        end
    } else {
        moved
    }
}

/// Cuts `text` into pieces of at most `max_chars` characters, preferring to
/// cut after a sentence break and never inside a placeholder when avoidable.
pub fn split_text(text: &str, max_chars: usize) -> (out: Vec<String>)
    requires
        max_chars > 0,
    ensures
        strings_view(out@) == pieces(text@, max_chars as int),
{
    let chars = chars_of(text);
    let mut out: Vec<String> = Vec::new();
    if chars.len() == 0 {
        out.push(String::new());
        assert(strings_view(out@) =~= seq![Seq::<char>::empty()]);
        return out;
    }
    let ghost s = chars@;
    let mut start: usize = 0;
    while chars.len() - start > max_chars
        invariant
            s == chars@,
            chars@ == text@,
            max_chars > 0,
            start <= chars.len(),
            strings_view(out@) + pieces_from(s, start as int, max_chars as int) == pieces_from(s, 0, max_chars as int),
        decreases chars.len() - start,
    {
        let cut = cut_exec(&chars, start, max_chars);
        proof {
            lemma_cut_bounds(s, start as int, max_chars as int);
        }
        let piece = string_of_range(&chars, start, cut);
        let ghost before = strings_view(out@);
        out.push(piece);
        proof {
            assert(strings_view(out@) =~= before.push(s.subrange(start as int, cut as int)));
            assert(pieces_from(s, start as int, max_chars as int) =~= seq![s.subrange(start as int, cut as int)]
                + pieces_from(s, cut as int, max_chars as int));
            assert(strings_view(out@) + pieces_from(s, cut as int, max_chars as int) =~= before + pieces_from(
                s,
                start as int,
                max_chars as int,
            ));
        }
        start = cut;
    }
    let last = string_of_range(&chars, start, chars.len());
    let ghost before = strings_view(out@);
    out.push(last);
    assert(strings_view(out@) =~= before + pieces_from(s, start as int, max_chars as int));
    out
}

/// The characters of the pieces, in order.
pub open spec fn joined(p: Seq<Seq<char>>) -> Seq<char>
    decreases p.len(),
{
    if p.len() == 0 {
        Seq::empty()
    } else {
        p[0] + joined(p.drop_first())
    }
}

proof fn lemma_pieces_from_join(s: Seq<char>, start: int, max: int)
    requires
        0 <= start <= s.len(),
        max > 0,
    ensures
        joined(pieces_from(s, start, max)) == s.subrange(start, s.len() as int),
    decreases s.len() - start,
{
    if s.len() - start > max {
        lemma_cut_bounds(s, start, max);
        let cut = cut_at(s, start, max);
        lemma_pieces_from_join(s, cut, max);
        let p = pieces_from(s, start, max);
        assert(p == seq![s.subrange(start, cut)] + pieces_from(s, cut, max));
        assert(p.drop_first() =~= pieces_from(s, cut, max));
        assert(p[0] == s.subrange(start, cut));
        assert(joined(p) == p[0] + joined(p.drop_first()));
        assert(s.subrange(start, cut) + s.subrange(cut, s.len() as int) =~= s.subrange(start, s.len() as int));
    } else {
        let p = pieces_from(s, start, max);
        assert(p == seq![s.subrange(start, s.len() as int)]);
        assert(p.drop_first() =~= Seq::<Seq<char>>::empty());
        assert(joined(Seq::<Seq<char>>::empty()) == Seq::<char>::empty());
        assert(joined(p) == p[0] + joined(p.drop_first()));
        assert(s.subrange(start, s.len() as int) + Seq::<char>::empty() =~= s.subrange(start, s.len() as int));
    }
}

/// Cutting loses nothing: the pieces, joined, give back the text.
pub proof fn law_pieces_join_to_text(s: Seq<char>, max: int)
    requires
        max > 0,
    ensures
        joined(pieces(s, max)) == s,
{
    if s.len() == 0 {
        let p = pieces(s, max);
        assert(p.len() == 1);
        assert(p.drop_first() =~= Seq::<Seq<char>>::empty());
        assert(joined(Seq::<Seq<char>>::empty()) == Seq::<char>::empty());
        assert(joined(p) == p[0] + joined(p.drop_first()));
        assert(p[0] + Seq::<char>::empty() =~= s);
    } else {
        lemma_pieces_from_join(s, 0, max);
        assert(s.subrange(0, s.len() as int) =~= s);
    }
}

proof fn lemma_pieces_from_fit(s: Seq<char>, start: int, max: int)
    requires
        max > 0,
        0 <= start <= s.len(),
    ensures
        forall|i: int| 0 <= i < pieces_from(s, start, max).len() ==> (#[trigger] pieces_from(s, start, max)[i]).len() <= max,
    decreases s.len() - start,
{
    if s.len() - start > max {
        lemma_cut_bounds(s, start, max);
        let cut = cut_at(s, start, max);
        lemma_pieces_from_fit(s, cut, max);
        let p = pieces_from(s, start, max);
        assert(p == seq![s.subrange(start, cut)] + pieces_from(s, cut, max));
        assert forall|i: int| 0 <= i < p.len() implies (#[trigger] p[i]).len() <= max by {
            if i > 0 {
                assert(p[i] == pieces_from(s, cut, max)[i - 1]);
            }
        }
    }
}

/// No piece is longer than the limit.
pub proof fn law_pieces_fit(s: Seq<char>, max: int)
    requires
        max > 0,
    ensures
        forall|i: int| 0 <= i < pieces(s, max).len() ==> (#[trigger] pieces(s, max)[i]).len() <= max,
{
    if s.len() > 0 {
        lemma_pieces_from_fit(s, 0, max);
    }
}

// ---------------------------------------------------------------------------
// Putting a batch back together.

/// The first position at or after `k` where `t` holds `w`.
pub open spec fn find_from(t: Seq<char>, w: Seq<char>, k: int) -> Option<int>
    decreases t.len() + 1 - k,
{
    if 0 <= k <= t.len() {
        if starts_at(t, k, w) {
            Some(k)
        } else {
            find_from(t, w, k + 1)
        }
    } else {
        None
    }
}

/// The first position where `t` holds `w` (`str::find`).
pub open spec fn find(t: Seq<char>, w: Seq<char>) -> Option<int> {
    find_from(t, w, 0)
}

proof fn lemma_find_from_bounds(t: Seq<char>, w: Seq<char>, k: int)
    requires
        0 <= k,
    ensures
        find_from(t, w, k) matches Some(p) ==> k <= p <= t.len() && starts_at(t, p, w),
    decreases t.len() + 1 - k,
{
    if 0 <= k <= t.len() {
        lemma_find_from_bounds(t, w, k + 1);
    }
}

/// The markers all occur, in order.
pub open spec fn markers_in_order(t: Seq<char>, m: Seq<Seq<char>>) -> bool {
    &&& forall|i: int| 0 <= i < m.len() ==> (#[trigger] find(t, m[i])) is Some
    &&& forall|i: int, j: int| 0 <= i && j == i + 1 && j < m.len() ==> find(t, #[trigger] m[i])->0 < find(t, #[trigger] m[j])->0
}

/// No marker found in order runs into the next one.
pub open spec fn markers_apart(t: Seq<char>, m: Seq<Seq<char>>) -> bool {
    forall|i: int, j: int| 0 <= i && j == i + 1 && j < m.len() && find(t, #[trigger] m[i]) is Some && find(t, #[trigger] m[j]) is Some
        && find(t, m[i])->0 < find(t, m[j])->0 ==> find(t, m[i])->0 + m[i].len() <= find(t, m[j])->0
}

/// The text of entry `i`: what follows its marker up to the next marker,
/// without the line break that joined it to the next entry.
pub open spec fn marked_part(t: Seq<char>, m: Seq<Seq<char>>, i: int) -> Seq<char> {
    let start = find(t, m[i])->0 + m[i].len();
    let end = if i + 1 < m.len() { find(t, m[i + 1])->0 } else { t.len() as int };
    let v = t.subrange(start, end);
    if i + 1 < m.len() && v.len() > 0 && v.last() == '\n' { v.drop_last() } else { v }
}

/// Where some marker is missing, or where the markers are out of order.
pub open spec fn marked_split(t: Seq<char>, m: Seq<Seq<char>>) -> Result<Seq<Seq<char>>, Seq<char>> {
    if exists|i: int| 0 <= i < m.len() && (#[trigger] find(t, m[i])) is None {
        Err("Google 网页翻译未保留批次标记"@)
    } else if !markers_in_order(t, m) {
        Err("Google 网页翻译打乱了批次标记"@)
    } else {
        Ok(Seq::new(m.len(), |i: int| marked_part(t, m, i)))
    }
}

fn find_exec(t: &Vec<char>, w: &Vec<char>) -> (r: Option<usize>)
    ensures
        match r {
            Some(q) => find(t@, w@) == Some(q as int) && q + w.len() <= t.len(),
            None => find(t@, w@) is None,
        },
{
    let mut k: usize = 0;
    loop
        invariant
            k <= t.len(),
            find(t@, w@) == find_from(t@, w@, k as int),
        decreases t.len() - k,
    {
        if starts_with_at(t, k, w) {
            return Some(k);
        }
        if k == t.len() {
            assert(find_from(t@, w@, k + 1) is None);
            return None;
        }
        k += 1;
    }
}

/// Splits the translation of a batch back into its entries by the markers
/// that were put in front of each entry.
pub fn split_marked_translation(text: &str, markers: &Vec<String>) -> (r: Result<Vec<String>, String>)
    requires
        markers_apart(text@, strings_view(markers@)),
    ensures
        match marked_split(text@, strings_view(markers@)) {
            Ok(parts) => r matches Ok(v) && strings_view(v@) == parts,
            Err(m) => r matches Err(e) && e@ == m,
        },
{
    let t = chars_of(text);
    let ghost m = strings_view(markers@);
    let mut positions: Vec<usize> = Vec::new();
    let mut marks: Vec<Vec<char>> = Vec::new();
    let mut i: usize = 0;
    while i < markers.len()
        invariant
            i <= markers.len(),
            t@ == text@,
            m == strings_view(markers@),
            positions.len() == i,
            marks.len() == i,
            forall|j: int| 0 <= j < i ==> #[trigger] marks@[j]@ == m[j],
            forall|j: int| 0 <= j < i ==> find(t@, m[j]) == Some(#[trigger] positions@[j] as int),
            forall|j: int| 0 <= j < i ==> positions@[j] + m[j].len() <= t.len(),
        decreases markers.len() - i,
    {
        let w = chars_of(markers[i].as_str());
        assert(m[i as int] == markers@[i as int]@);
        match find_exec(&t, &w) {
            None => {
                assert(find(text@, m[i as int]) is None);
                return Err(crate::text::owned("Google 网页翻译未保留批次标记"));
            },
            Some(p) => {
                positions.push(p);
                marks.push(w);
            },
        }
        i += 1;
    }
    assert forall|j: int| 0 <= j < m.len() implies (#[trigger] find(text@, m[j])) is Some by {
        assert(find(t@, m[j]) == Some(positions@[j] as int));
    }
    let mut k: usize = 0;
    while positions.len() > 0 && k < positions.len() - 1
        invariant
            t@ == text@,
            m == strings_view(markers@),
            forall|j: int| 0 <= j < m.len() ==> (#[trigger] find(text@, m[j])) is Some,
            positions.len() == m.len(),
            k <= positions.len(),
            forall|j: int| 0 <= j < m.len() ==> find(t@, m[j]) == Some(#[trigger] positions@[j] as int),
            forall|a: int, b: int| 0 <= a && b == a + 1 && b <= k ==> #[trigger] positions@[a] < #[trigger] positions@[b],
        decreases positions.len() - k,
    {
        if positions[k] >= positions[k + 1] {
            assert(find(t@, m[k as int]) == Some(positions@[k as int] as int));
            assert(find(t@, m[k + 1]) == Some(positions@[k + 1] as int));
            assert(!markers_in_order(text@, m)) by {
                if markers_in_order(text@, m) {
                    assert(find(text@, m[k as int])->0 < find(text@, m[k + 1])->0);
                }
            }
            return Err(crate::text::owned("Google 网页翻译打乱了批次标记"));
        }
        k += 1;
    }
    assert(markers_in_order(text@, m)) by {
        assert forall|a: int| 0 <= a < m.len() implies (#[trigger] find(text@, m[a])) is Some by {
            assert(find(t@, m[a]) == Some(positions@[a] as int));
        }
        assert forall|a: int, b: int| 0 <= a && b == a + 1 && b < m.len() implies find(text@, #[trigger] m[a])->0 < find(
            text@,
            #[trigger] m[b],
        )->0 by {
            assert(find(t@, m[a]) == Some(positions@[a] as int));
            assert(find(t@, m[b]) == Some(positions@[b] as int));
            assert(positions@[a] < positions@[b]);
        }
    }
    let mut out: Vec<String> = Vec::new();
    let mut j: usize = 0;
    while j < markers.len()
        invariant
            j <= markers.len() == positions.len() == marks.len() == m.len(),
            t@ == text@,
            markers_in_order(text@, m),
            markers_apart(text@, m),
            forall|a: int| 0 <= a < m.len() ==> #[trigger] marks@[a]@ == m[a],
            forall|a: int| 0 <= a < m.len() ==> find(t@, m[a]) == Some(#[trigger] positions@[a] as int),
            forall|a: int| 0 <= a < m.len() ==> positions@[a] + m[a].len() <= t.len(),
            out.len() == j,
            forall|a: int| 0 <= a < j ==> (#[trigger] out@[a])@ == marked_part(text@, m, a),
        decreases markers.len() - j,
    {
        let start = positions[j] + marks[j].len();
        let end = if j + 1 < positions.len() {
            positions[j + 1]
        } else {
            t.len()
        };
        proof {
            assert(marks@[j as int]@ == m[j as int]);
            if j + 1 < m.len() {
                assert(find(t@, m[j + 1]) == Some(positions@[j + 1] as int));
                assert(find(text@, m[j as int])->0 < find(text@, m[j + 1])->0);
            }
        }
        let mut value = string_of_range(&t, start, end);
        if j + 1 < markers.len() && end > start && t[end - 1] == '\n' {
            let ghost before = value@;
            value = string_of_range(&t, start, end - 1);
            assert(value@ =~= before.drop_last());
        }
        out.push(value);
        j += 1;
    }
    let ghost parts = Seq::new(m.len(), |a: int| marked_part(text@, m, a));
    assert(strings_view(out@) =~= parts);
    Ok(out)
}

// ---------------------------------------------------------------------------
// Packing the units of a batch into requests of the web services.

/// The pieces of the units of a batch, each with its unit's id.
pub open spec fn web_units(batch: Seq<(Seq<char>, Seq<char>)>, piece_max: int) -> Seq<(Seq<char>, Seq<char>)>
    decreases batch.len(),
{
    if batch.len() == 0 {
        Seq::empty()
    } else {
        let (id, text) = batch.last();
        web_units(batch.drop_last(), piece_max) + pieces(text, piece_max).map_values(|p: Seq<char>| (id, p))
    }
}

/// The requests made so far, the one being filled and its size: a piece
/// counts its characters and `overhead`; a request that is not empty is
/// sent before a piece that would take it past `max`.
pub open spec fn packing(units: Seq<(Seq<char>, Seq<char>)>, overhead: int, max: int) -> (Seq<Seq<(Seq<char>, Seq<char>)>>, Seq<(Seq<char>, Seq<char>)>, int)
    decreases units.len(),
{
    if units.len() == 0 {
        (Seq::empty(), Seq::empty(), 0)
    } else {
        let (done, current, size) = packing(units.drop_last(), overhead, max);
        let u = units.last();
        let n = u.1.len() + overhead;
        if current.len() > 0 && size + n > max {
            (done.push(current), seq![u], n)
        } else {
            (done, current.push(u), size + n)
        }
    }
}

/// The requests of a batch, in order.
pub open spec fn packed(units: Seq<(Seq<char>, Seq<char>)>, overhead: int, max: int) -> Seq<Seq<(Seq<char>, Seq<char>)>> {
    let (done, current, _) = packing(units, overhead, max);
    if current.len() > 0 { done.push(current) } else { done }
}

pub open spec fn requests_view(v: Seq<Vec<(String, String)>>) -> Seq<Seq<(Seq<char>, Seq<char>)>> {
    v.map_values(|r: Vec<(String, String)>| pairs_of(r@))
}

pub open spec fn pairs_of(v: Seq<(String, String)>) -> Seq<(Seq<char>, Seq<char>)> {
    v.map_values(|x: (String, String)| (x.0@, x.1@))
}

fn char_count(s: &str) -> (n: usize)
    ensures
        n == s@.len(),
{
    chars_of(s).len()
}

/// Cuts the units of a batch into pieces of at most `piece_max` characters
/// and packs the pieces, in order, into requests of at most `max` (counting
/// `overhead` per piece; a single larger piece makes a request of its own).
pub fn web_requests(batch: &Vec<(String, String)>, piece_max: usize, overhead: usize, max: usize) -> (out: Vec<Vec<(String, String)>>)
    requires
        piece_max > 0,
        max < usize::MAX,
    ensures
        requests_view(out@) == packed(web_units(pairs_of(batch@), piece_max as int), overhead as int, max as int),
{
    let ghost bv = pairs_of(batch@);
    let mut units: Vec<(String, String)> = Vec::new();
    let mut i: usize = 0;
    while i < batch.len()
        invariant
            i <= batch.len(),
            piece_max > 0,
            bv == pairs_of(batch@),
            pairs_of(units@) == web_units(bv.take(i as int), piece_max as int),
        decreases batch.len() - i,
    {
        let ghost t = bv.take(i + 1);
        assert(t.drop_last() =~= bv.take(i as int));
        assert(t.last() == (batch@[i as int].0@, batch@[i as int].1@));
        let ps = split_text(batch[i].1.as_str(), piece_max);
        let ghost base = pairs_of(units@);
        let mut k: usize = 0;
        while k < ps.len()
            invariant
                k <= ps.len(),
                i < batch.len(),
                pairs_of(units@) == base + strings_view(ps@).take(k as int).map_values(|p: Seq<char>| (batch@[i as int].0@, p)),
            decreases ps.len() - k,
        {
            let ghost before = pairs_of(units@);
            units.push((batch[i].0.clone(), ps[k].clone()));
            assert(pairs_of(units@) =~= before.push((batch@[i as int].0@, ps@[k as int]@)));
            assert(strings_view(ps@).take(k + 1) =~= strings_view(ps@).take(k as int).push(ps@[k as int]@));
            k += 1;
        }
        assert(strings_view(ps@).take(ps.len() as int) =~= strings_view(ps@));
        i += 1;
    }
    assert(bv.take(batch.len() as int) =~= bv);
    let ghost uv = pairs_of(units@);
    let cap: usize = max + 1;
    let mut out: Vec<Vec<(String, String)>> = Vec::new();
    let mut current: Vec<(String, String)> = Vec::new();
    let mut size: usize = 0;
    let ghost mut full_size: int = 0;
    let mut j: usize = 0;
    while j < units.len()
        invariant
            j <= units.len(),
            cap == max + 1,
            uv == pairs_of(units@),
            packing(uv.take(j as int), overhead as int, max as int) == (requests_view(out@), pairs_of(current@), full_size),
            full_size >= 0,
            size as int == if full_size > max { cap as int } else { full_size },
        decreases units.len() - j,
    {
        let ghost t = uv.take(j + 1);
        assert(t.drop_last() =~= uv.take(j as int));
        assert(t.last() == uv[j as int]);
        let c = char_count(units[j].1.as_str());
        let ghost n_full: int = c + overhead;
        let n: usize = if c >= cap {
            cap
        } else if overhead >= cap - c {
            cap
        } else {
            c + overhead
        };
        assert(n as int == if n_full > max { cap as int } else { n_full });
        let fits = match size.checked_add(n) {
            Some(total) => total <= max,
            None => false,
        };
        assert(fits == (full_size + n_full <= max));
        let u = (units[j].0.clone(), units[j].1.clone());
        assert((u.0@, u.1@) == uv[j as int]);
        if current.len() > 0 && !fits {
            let full = current;
            let ghost before = requests_view(out@);
            out.push(full);
            assert(requests_view(out@) =~= before.push(pairs_of(full@)));
            current = Vec::new();
            current.push(u);
            assert(pairs_of(current@) =~= seq![uv[j as int]]);
            size = n;
            proof {
                full_size = n_full;
            }
        } else {
            let ghost before = pairs_of(current@);
            current.push(u);
            assert(pairs_of(current@) =~= before.push(uv[j as int]));
            size = match size.checked_add(n) {
                Some(total) => if total > cap { cap } else { total },
                None => cap,
            };
            proof {
                full_size = full_size + n_full;
            }
        }
        j += 1;
    }
    assert(uv.take(units.len() as int) =~= uv);
    if current.len() > 0 {
        let ghost before = requests_view(out@);
        out.push(current);
        assert(requests_view(out@) =~= before.push(pairs_of(current@)));
    }
    out
}

// ---------------------------------------------------------------------------
// The JSON object in the answer of a chat model.

pub open spec fn ends(t: Seq<char>, w: Seq<char>) -> bool {
    t.len() >= w.len() && t.skip(t.len() - w.len()) == w
}

/// The answer without a Markdown code fence around it.
pub open spec fn unfenced(content: Seq<char>) -> Seq<char> {
    let t = trim(content);
    if starts(t, "```"@) {
        let a = if starts(t, "```json"@) { t.skip(7) } else { t.skip(3) };
        let a = trim(a);
        let b = if ends(a, "```"@) { a.take(a.len() - 3) } else { a };
        trim(b)
    } else {
        t
    }
}

/// The first index of `c` in `s`.
pub open spec fn first_index(s: Seq<char>, c: char) -> Option<int>
    decreases s.len(),
{
    if s.len() == 0 {
        None
    } else if s[0] == c {
        Some(0)
    } else {
        match first_index(s.drop_first(), c) {
            Some(i) => Some(i + 1),
            None => None,
        }
    }
}

/// The last index of `c` in `s`.
pub open spec fn last_index(s: Seq<char>, c: char) -> Option<int>
    decreases s.len(),
{
    if s.len() == 0 {
        None
    } else if s.last() == c {
        Some(s.len() - 1)
    } else {
        last_index(s.drop_last(), c)
    }
}

/// The braces of the unfenced answer are in order, or one of them is missing.
pub open spec fn braces_in_order(content: Seq<char>) -> bool {
    let t = unfenced(content);
    match (first_index(t, '{'), last_index(t, '}')) {
        (Some(a), Some(b)) => a <= b,
        _ => true,
    }
}

/// The text of the JSON object of a chat model's answer: the answer without
/// a code fence, from its first `{` to its last `}` when it has both.
pub open spec fn object_text(content: Seq<char>) -> Seq<char> {
    let t = unfenced(content);
    match (first_index(t, '{'), last_index(t, '}')) {
        (Some(a), Some(b)) => t.subrange(a, b + 1),
        _ => t,
    }
}

proof fn lemma_first_index(s: Seq<char>, c: char)
    ensures
        first_index(s, c) matches Some(i) ==> 0 <= i < s.len() && s[i] == c && forall|j: int| 0 <= j < i ==> s[j] != c,
        first_index(s, c) is None ==> forall|j: int| 0 <= j < s.len() ==> s[j] != c,
    decreases s.len(),
{
    if s.len() > 0 {
        lemma_first_index(s.drop_first(), c);
        if s[0] != c {
            assert forall|j: int| 1 <= j < s.len() implies s[j] == s.drop_first()[j - 1] by {}
        }
    }
}

fn find_first(v: &Vec<char>, c: char) -> (r: Option<usize>)
    ensures
        match first_index(v@, c) {
            Some(i) => r matches Some(k) && k == i,
            None => r is None,
        },
{
    proof {
        lemma_first_index(v@, c);
    }
    let mut i: usize = 0;
    while i < v.len()
        invariant
            i <= v.len(),
            forall|j: int| 0 <= j < i ==> v@[j] != c,
            first_index(v@, c) matches Some(k) ==> 0 <= k < v@.len() && v@[k] == c && forall|j: int| 0 <= j < k ==> v@[j] != c,
            first_index(v@, c) is None ==> forall|j: int| 0 <= j < v@.len() ==> v@[j] != c,
        decreases v.len() - i,
    {
        if v[i] == c {
            return Some(i);
        }
        i += 1;
    }
    None
}

proof fn lemma_last_index(s: Seq<char>, c: char)
    ensures
        last_index(s, c) matches Some(i) ==> 0 <= i < s.len(),
    decreases s.len(),
{
    if s.len() > 0 {
        lemma_last_index(s.drop_last(), c);
    }
}

fn find_last(v: &Vec<char>, c: char) -> (r: Option<usize>)
    ensures
        match last_index(v@, c) {
            Some(i) => r matches Some(k) && k == i && k < v@.len(),
            None => r is None,
        },
{
    proof {
        lemma_last_index(v@, c);
    }
    let mut i: usize = v.len();
    assert(v@.take(i as int) =~= v@);
    while i > 0
        invariant
            i <= v.len(),
            last_index(v@, c) == last_index(v@.take(i as int), c),
        decreases i,
    {
        assert(v@.take(i as int).drop_last() =~= v@.take(i - 1));
        assert(v@.take(i as int).last() == v@[i - 1]);
        if v[i - 1] == c {
            return Some(i - 1);
        }
        i -= 1;
    }
    assert(v@.take(0) =~= Seq::<char>::empty());
    None
}

fn starts_exec(v: &Vec<char>, w: &str) -> (b: bool)
    ensures
        b == starts(v@, w@),
{
    let wv = chars_of(w);
    if wv.len() > v.len() {
        return false;
    }
    let mut i: usize = 0;
    while i < wv.len()
        invariant
            i <= wv.len(),
            wv@ == w@,
            wv.len() <= v.len(),
            forall|j: int| 0 <= j < i ==> v@[j] == wv@[j],
        decreases wv.len() - i,
    {
        if v[i] != wv[i] {
            assert(v@.take(wv.len() as int)[i as int] != w@[i as int]);
            return false;
        }
        i += 1;
    }
    assert(v@.take(wv.len() as int) =~= w@);
    true
}

fn ends_exec(v: &Vec<char>, w: &str) -> (b: bool)
    ensures
        b == ends(v@, w@),
{
    let wv = chars_of(w);
    if wv.len() > v.len() {
        return false;
    }
    let off = v.len() - wv.len();
    let mut i: usize = 0;
    while i < wv.len()
        invariant
            i <= wv.len(),
            wv@ == w@,
            off + wv.len() == v.len(),
            forall|j: int| 0 <= j < i ==> v@[off + j] == wv@[j],
        decreases wv.len() - i,
    {
        if v[off + i] != wv[i] {
            assert(v@.skip(off as int)[i as int] != w@[i as int]);
            return false;
        }
        i += 1;
    }
    assert(v@.skip(off as int) =~= w@);
    true
}

/// The text of the JSON object of a chat model's answer.
pub fn json_object_text(content: &str) -> (r: String)
    requires
        braces_in_order(content@),
    ensures
        r@ == object_text(content@),
{
    let t = trimmed(content);
    let tv = chars_of(t.as_str());
    let u: String = if starts_exec(&tv, "```") {
        proof {
            reveal_strlit("```");
            reveal_strlit("```json");
        }
        let skip: usize = if starts_exec(&tv, "```json") { 7 } else { 3 };
        let a = string_of_range(&tv, skip, tv.len());
        assert(a@ =~= tv@.skip(skip as int));
        let a = trimmed(a.as_str());
        let av = chars_of(a.as_str());
        let b = if ends_exec(&av, "```") {
            let cut = string_of_range(&av, 0, av.len() - 3);
            assert(cut@ =~= av@.take(av.len() - 3));
            cut
        } else {
            a
        };
        trimmed(b.as_str())
    } else {
        t
    };
    assert(u@ == unfenced(content@));
    let uv = chars_of(u.as_str());
    let first = find_first(&uv, '{');
    let last = find_last(&uv, '}');
    match (first, last) {
        (Some(a), Some(b)) => {
            assert(last_index(uv@, '}') == Some(b as int));
            assert(b < uv.len());
            string_of_range(&uv, a, b + 1)
        },
        _ => u,
    }
}

} // verus!
