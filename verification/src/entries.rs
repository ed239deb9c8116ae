//! The entries of a task book as the translator sees them: each entry is
//! either plain text, a JSON text component cut into its translatable
//! strings, or a text left untouched; each translatable string becomes a
//! unit with its protected form. Also the format guard that compares a
//! translation with its source.

use crate::cmp::{invalid, invalid_with, refused, refused_with, Record};
use crate::digest::{hex_lower, le_bytes, push_le_u64, push_utf8, sha256_hex, sha256_of};
use crate::error::AppError;
use crate::glossary::{protect_from, Loaded};
use crate::protection::{protect, protected, same_items, same_items_exec};
use crate::rich_text::{canon, canon_json, json_equal, json_written, looks_like_component, looks_like_component_spec, rendered, structure_of, units_view, Document, JsonView};
use crate::text::{chars_of, decimal, push_decimal, push_str, starts, str_eq, strings_view, pairs_view};
use vstd::prelude::*;
use vstd::utf8::encode_utf8;

verus! {

/// A unit to translate.
pub struct Item {
    pub id: String,
    pub entry_id: String,
    pub path: String,
    pub source: String,
    pub protected: String,
    pub tokens: Vec<(String, String)>,
}

/// How an entry is translated.
pub enum EntryKind {
    /// As one unit, named here.
    Plain(String),
    /// Not at all, for the reason given.
    Untouched(String),
    /// As the translatable strings of a component: each pointer with its unit.
    RichText { document: Document, units: Vec<(String, String)> },
}

/// An entry of a task book.
pub struct Entry {
    pub id: String,
    pub source: String,
    pub kind: EntryKind,
}

/// A text protected for translation: format tokens first, then glossary terms.
pub open spec fn protect_for(t: Seq<char>, glossary: Option<&Loaded>) -> (Seq<char>, Seq<(Seq<char>, Seq<char>)>) {
    let p = protected(t);
    match glossary {
        None => p,
        Some(g) => {
            let gp = protect_from(p.0, g.terms(), 0, 0);
            (gp.0, p.1 + gp.1)
        },
    }
}

/// Protects a text for translation, with the glossary if there is one.
pub fn protect_for_translation(text: &str, glossary: Option<&Loaded>) -> (r: (String, Vec<(String, String)>))
    requires
        glossary matches Some(g) ==> g.wf(),
    ensures
        (r.0@, pairs_view(r.1@)) == protect_for(text@, glossary),
{
    let (p, mut tokens) = protect(text);
    match glossary {
        None => (p, tokens),
        Some(g) => {
            let (gp, gt) = g.protect(p.as_str());
            let ghost before = pairs_view(tokens@);
            let mut i: usize = 0;
            while i < gt.len()
                invariant
                    i <= gt.len(),
                    pairs_view(tokens@) == before + pairs_view(gt@).take(i as int),
                decreases gt.len() - i,
            {
                let ghost prev = pairs_view(tokens@);
                tokens.push((gt[i].0.clone(), gt[i].1.clone()));
                proof {
                    let g2 = pairs_view(gt@);
                    assert(pairs_view(tokens@) =~= prev.push(g2[i as int]));
                    assert(g2.take(i + 1) =~= g2.take(i as int).push(g2[i as int]));
                }
                i += 1;
            }
            assert(pairs_view(gt@).take(gt.len() as int) =~= pairs_view(gt@));
            (gp, tokens)
        },
    }
}

/// The name of unit `k` of entry `e`.
pub open spec fn unit_name(e: nat, k: nat) -> Seq<char> {
    "__ftb_unit_"@ + decimal(e) + "_"@ + decimal(k)
}

fn unit_name_exec(e: usize, k: usize) -> (s: String)
    ensures
        s@ == unit_name(e as nat, k as nat),
{
    let mut s = String::new();
    push_str(&mut s, "__ftb_unit_");
    push_decimal(&mut s, e);
    push_str(&mut s, "_");
    push_decimal(&mut s, k);
    s
}

/// A unit, by value.
pub struct ItemView {
    pub id: Seq<char>,
    pub entry_id: Seq<char>,
    pub path: Seq<char>,
    pub source: Seq<char>,
    pub protected: Seq<char>,
    pub tokens: Seq<(Seq<char>, Seq<char>)>,
}

pub open spec fn item_view(i: Item) -> ItemView {
    ItemView {
        id: i.id@,
        entry_id: i.entry_id@,
        path: i.path@,
        source: i.source@,
        protected: i.protected@,
        tokens: pairs_view(i.tokens@),
    }
}

pub open spec fn items_view(v: Seq<Item>) -> Seq<ItemView> {
    v.map_values(|i: Item| item_view(i))
}

/// The unit of the text `source` at `path`.
pub open spec fn unit_of(id: Seq<char>, entry_id: Seq<char>, path: Seq<char>, source: Seq<char>, glossary: Option<&Loaded>) -> ItemView {
    let p = protect_for(source, glossary);
    ItemView { id, entry_id, path, source, protected: p.0, tokens: p.1 }
}

pub open spec fn untouched_reason() -> Seq<char> {
    "疑似 JSON 富文本无法安全解析或包含重复键，已保留原文"@
}

/// How an entry is prepared: `parsed` is its source read as a component
/// (without duplicate keys), if it can be.
pub open spec fn prepared(
    id: Seq<char>,
    source: Seq<char>,
    index: nat,
    parsed: Option<Document>,
    glossary: Option<&Loaded>,
    e: Entry,
    items: Seq<ItemView>,
) -> bool {
    &&& e.id@ == id
    &&& e.source@ == source
    &&& match parsed {
        Some(d) => e.kind matches EntryKind::RichText { document, units } && document.value_spec() == d.value_spec()
            && document.units_spec() == d.units_spec() && units@.len() == d.units_spec().len() && items.len() == d.units_spec().len()
            && forall|k: int| 0 <= k < items.len() ==> {
                &&& (#[trigger] units@[k]).0@ == d.units_spec()[k].0
                &&& units@[k].1@ == unit_name(index, k as nat)
                &&& items[k] == unit_of(unit_name(index, k as nat), id, d.units_spec()[k].0, d.units_spec()[k].1, glossary)
            },
        None => if looks_like_component_spec(source) {
            e.kind matches EntryKind::Untouched(reason) && reason@ == untouched_reason() && items.len() == 0
        } else {
            e.kind matches EntryKind::Plain(unit) && unit@ == unit_name(index, 0) && items == seq![
                unit_of(unit_name(index, 0), id, "$"@, source, glossary),
            ]
        },
    }
}

/// Prepares an entry for translation; `parsed` is its source read as a JSON
/// text component, when it is one without duplicate keys.
pub fn prepare_entry(id: String, source: String, entry_index: usize, parsed: Option<Document>, glossary: Option<&Loaded>) -> (r: (Entry, Vec<Item>))
    requires
        glossary matches Some(g) ==> g.wf(),
    ensures
        prepared(id@, source@, entry_index as nat, parsed, glossary, r.0, items_view(r.1@)),
{
    let ghost parsed_in = parsed;
    match parsed {
        Some(document) => {
            assert(parsed_in == Some(document));
            let mut items: Vec<Item> = Vec::new();
            let mut units: Vec<(String, String)> = Vec::new();
            let us = document.units();
            let mut k: usize = 0;
            while k < us.len()
                invariant
                    k <= us.len(),
                    units_view(us@) == document.units_spec(),
                    glossary matches Some(g) ==> g.wf(),
                    items.len() == k && units.len() == k,
                    forall|j: int| 0 <= j < k ==> {
                        &&& (#[trigger] units@[j]).0@ == document.units_spec()[j].0
                        &&& units@[j].1@ == unit_name(entry_index as nat, j as nat)
                        &&& item_view(items@[j]) == unit_of(unit_name(entry_index as nat, j as nat), id@, document.units_spec()[j].0,
                            document.units_spec()[j].1, glossary)
                    },
                decreases us.len() - k,
            {
                let name = unit_name_exec(entry_index, k);
                let (p, tokens) = protect_for_translation(us[k].source.as_str(), glossary);
                assert(document.units_spec()[k as int] == (us@[k as int].pointer@, us@[k as int].source@));
                items.push(Item {
                    id: name.clone(),
                    entry_id: id.clone(),
                    path: us[k].pointer.clone(),
                    source: us[k].source.clone(),
                    protected: p,
                    tokens,
                });
                units.push((us[k].pointer.clone(), name));
                k += 1;
            }
            let entry = Entry { id, source, kind: EntryKind::RichText { document, units } };
            proof {
                let iv = items_view(items@);
                assert forall|j: int| 0 <= j < iv.len() implies {
                    &&& (#[trigger] units@[j]).0@ == document.units_spec()[j].0
                    &&& units@[j].1@ == unit_name(entry_index as nat, j as nat)
                    &&& iv[j] == unit_of(unit_name(entry_index as nat, j as nat), id@, document.units_spec()[j].0,
                        document.units_spec()[j].1, glossary)
                } by {
                    assert(iv[j] == item_view(items@[j]));
                }
                assert(prepared(id@, source@, entry_index as nat, parsed_in, glossary, entry, iv));
            }
            (entry, items)
        },
        None => {
            if looks_like_component(source.as_str()) {
                let entry = Entry {
                    id,
                    source,
                    kind: EntryKind::Untouched(crate::text::owned("疑似 JSON 富文本无法安全解析或包含重复键，已保留原文")),
                };
                let items: Vec<Item> = Vec::new();
                assert(items_view(items@) =~= Seq::<ItemView>::empty());
                (entry, items)
            } else {
                let name = unit_name_exec(entry_index, 0);
                let (p, tokens) = protect_for_translation(source.as_str(), glossary);
                let mut items: Vec<Item> = Vec::new();
                items.push(Item {
                    id: name.clone(),
                    entry_id: id.clone(),
                    path: crate::text::owned("$"),
                    source: source.clone(),
                    protected: p,
                    tokens,
                });
                let entry = Entry { id, source, kind: EntryKind::Plain(name) };
                assert(items_view(items@) =~= seq![item_view(items@[0])]);
                (entry, items)
            }
        },
    }
}

// ---------------------------------------------------------------------------
// Rendering an entry from the translations of its units.

/// The translation of the unit `key`, if there is one.
pub open spec fn lookup(results: Seq<(Seq<char>, Seq<char>)>, key: Seq<char>) -> Option<Seq<char>>
    decreases results.len(),
{
    if results.len() == 0 {
        None
    } else if results[0].0 == key {
        Some(results[0].1)
    } else {
        lookup(results.drop_first(), key)
    }
}

pub(crate) fn lookup_exec(results: &Vec<(String, String)>, key: &str) -> (r: Option<String>)
    ensures
        match lookup(pairs_view(results@), key@) {
            Some(t) => r matches Some(s) && s@ == t,
            None => r is None,
        },
{
    let ghost rv = pairs_view(results@);
    let mut i: usize = 0;
    assert(rv.skip(0) =~= rv);
    while i < results.len()
        invariant
            i <= results.len(),
            rv == pairs_view(results@),
            lookup(rv, key@) == lookup(rv.skip(i as int), key@),
        decreases results.len() - i,
    {
        assert(rv.skip(i as int).drop_first() =~= rv.skip(i + 1));
        assert(rv.skip(i as int)[0] == rv[i as int]);
        if str_eq(results[i].0.as_str(), key) {
            return Some(results[i].1.clone());
        }
        i += 1;
    }
    None
}

/// The translations of the first `n` units of a component, or the first unit
/// without one.
pub open spec fn unit_translations(units: Seq<(Seq<char>, Seq<char>)>, results: Seq<(Seq<char>, Seq<char>)>, n: int) -> Result<Seq<(Seq<char>, Seq<char>)>, Seq<char>>
    decreases n,
{
    if n <= 0 {
        Ok(Seq::empty())
    } else {
        match unit_translations(units, results, n - 1) {
            Err(m) => Err(m),
            Ok(ts) => match lookup(results, units[n - 1].1) {
                Some(t) => Ok(ts.push((units[n - 1].0, t))),
                None => Err("缺少 JSON 富文本翻译单元："@ + units[n - 1].1),
            },
        }
    }
}

/// The translated text of an entry, or why it cannot be made.
pub open spec fn rendered_entry(e: Entry, results: Seq<(Seq<char>, Seq<char>)>) -> Result<Seq<char>, Seq<char>> {
    match e.kind {
        EntryKind::Untouched(_) => Ok(e.source@),
        EntryKind::Plain(unit) => match lookup(results, unit@) {
            Some(t) => Ok(t),
            None => Err("缺少翻译单元："@ + unit@),
        },
        EntryKind::RichText { document, units } => if units@.len() == 0 {
            Ok(e.source@)
        } else {
            match unit_translations(pairs_view(units@), results, units@.len() as int) {
                Err(m) => Err(m),
                Ok(ts) => match rendered(document.value_spec(), ts, ts.len() as int) {
                    Ok(j) => Ok(json_written(j)),
                    Err(m) => Err(m),
                },
            }
        },
    }
}

proof fn lemma_unit_translations_err(units: Seq<(Seq<char>, Seq<char>)>, results: Seq<(Seq<char>, Seq<char>)>, i: int, n: int)
    requires
        0 <= i < n,
        unit_translations(units, results, i + 1) is Err,
    ensures
        unit_translations(units, results, n) == unit_translations(units, results, i + 1),
    decreases n - i,
{
    if n > i + 1 {
        lemma_unit_translations_err(units, results, i, n - 1);
    }
}

/// The translated text of an entry, from the translations of its units.
pub fn render_entry(entry: &Entry, results: &Vec<(String, String)>) -> (r: Result<String, String>)
    ensures
        match rendered_entry(*entry, pairs_view(results@)) {
            Ok(t) => r matches Ok(s) && s@ == t,
            Err(m) => r matches Err(e) && e@ == m,
        },
{
    match &entry.kind {
        EntryKind::Untouched(_) => Ok(entry.source.clone()),
        EntryKind::Plain(unit) => match lookup_exec(results, unit.as_str()) {
            Some(t) => Ok(t),
            None => {
                let mut m = String::new();
                push_str(&mut m, "缺少翻译单元：");
                push_str(&mut m, unit.as_str());
                Err(m)
            },
        },
        EntryKind::RichText { document, units } => {
            if units.len() == 0 {
                return Ok(entry.source.clone());
            }
            render_units(document, units, results)
        },
    }
}

fn render_units(document: &Document, units: &Vec<(String, String)>, results: &Vec<(String, String)>) -> (r: Result<String, String>)
    ensures
        match unit_translations(pairs_view(units@), pairs_view(results@), units@.len() as int) {
            Err(m) => r matches Err(e) && e@ == m,
            Ok(ts) => match rendered(document.value_spec(), ts, ts.len() as int) {
                Ok(j) => r matches Ok(s) && s@ == json_written(j),
                Err(m) => r matches Err(e) && e@ == m,
            },
        },
{
    let ghost uv = pairs_view(units@);
    let mut translations: Vec<(String, String)> = Vec::new();
    let mut i: usize = 0;
    assert(pairs_view(translations@) =~= Seq::<(Seq<char>, Seq<char>)>::empty());
    while i < units.len()
        invariant
            i <= units.len(),
            uv == pairs_view(units@),
            unit_translations(uv, pairs_view(results@), i as int) == Ok::<Seq<(Seq<char>, Seq<char>)>, Seq<char>>(pairs_view(translations@)),
        decreases units.len() - i,
    {
        assert(uv[i as int] == (units@[i as int].0@, units@[i as int].1@));
        match lookup_exec(results, units[i].1.as_str()) {
            Some(t) => {
                let ghost before = pairs_view(translations@);
                translations.push((units[i].0.clone(), t));
                assert(pairs_view(translations@) =~= before.push((uv[i as int].0, t@)));
            },
            None => {
                let mut m = String::new();
                push_str(&mut m, "缺少 JSON 富文本翻译单元：");
                push_str(&mut m, units[i].1.as_str());
                proof {
                    lemma_unit_translations_err(uv, pairs_view(results@), i as int, units@.len() as int);
                }
                return Err(m);
            },
        }
        i += 1;
    }
    proof {
        lemma_translations_len(uv, pairs_view(results@), units@.len() as int);
    }
    document.render(&translations)
}

proof fn lemma_translations_len(units: Seq<(Seq<char>, Seq<char>)>, results: Seq<(Seq<char>, Seq<char>)>, n: int)
    requires
        0 <= n,
    ensures
        unit_translations(units, results, n) matches Ok(ts) ==> ts.len() == n,
    decreases n,
{
    if n > 0 {
        lemma_translations_len(units, results, n - 1);
    }
}


// ---------------------------------------------------------------------------
// The format guard.

/// How many times `c` occurs in `s`.
pub open spec fn count_char(s: Seq<char>, c: char) -> nat
    decreases s.len(),
{
    if s.len() == 0 {
        0
    } else {
        count_char(s.drop_last(), c) + if s.last() == c { 1nat } else { 0nat }
    }
}

fn count_char_exec(s: &str, c: char) -> (n: usize)
    ensures
        n == count_char(s@, c),
{
    let v = chars_of(s);
    let mut n: usize = 0;
    let mut i: usize = 0;
    while i < v.len()
        invariant
            i <= v.len(),
            v@ == s@,
            n == count_char(v@.take(i as int), c),
            n <= i,
        decreases v.len() - i,
    {
        assert(v@.take(i + 1).drop_last() =~= v@.take(i as int));
        if v[i] == c {
            n += 1;
        }
        i += 1;
    }
    assert(v@.take(v.len() as int) =~= v@);
    n
}

/// The tokens that the placeholders of a protected text stand for.
pub open spec fn originals(tokens: Seq<(Seq<char>, Seq<char>)>) -> Seq<Seq<char>> {
    tokens.map_values(|p: (Seq<char>, Seq<char>)| p.1)
}

/// The structure of a component: itself with its translatable strings
/// marked, and the members of its objects ordered by key, so that two
/// structures compare as JSON data does.
pub open spec fn doc_structure(d: Document) -> JsonView {
    canon(structure_of(d.value_spec(), d.units_spec(), d.units_spec().len() as int))
}

pub open spec fn warn_if(b: bool, m: Seq<char>) -> Seq<Seq<char>> {
    if b { seq![m] } else { Seq::empty() }
}

/// What a translation changed that it must not: the number of line breaks,
/// carriage returns or tabs; the format tokens (in any order); the structure
/// of a JSON text component, which must also stay a component. `source_doc`
/// and `target_doc` are the texts read as components, when they are.
pub open spec fn guard(source: Seq<char>, target: Seq<char>, source_doc: Option<Document>, target_doc: Option<Document>) -> Seq<Seq<char>> {
    warn_if(count_char(source, '\n') != count_char(target, '\n'), "换行数量不一致"@)
        + warn_if(count_char(source, '\r') != count_char(target, '\r'), "回车数量不一致"@)
        + warn_if(count_char(source, '\t') != count_char(target, '\t'), "制表符数量不一致"@)
        + warn_if(!same_items(originals(protected(source).1), originals(protected(target).1)), "格式码、占位符或资源标识不一致"@)
        + match source_doc {
            Some(a) => match target_doc {
                Some(b) => warn_if(doc_structure(a) != doc_structure(b), "JSON 文本组件结构发生变化"@),
                None => seq!["JSON 文本组件不再是有效 JSON"@],
            },
            None => Seq::empty(),
        }
}


fn token_originals(tokens: &Vec<(String, String)>) -> (r: Vec<String>)
    ensures
        strings_view(r@) == originals(pairs_view(tokens@)),
{
    let mut r: Vec<String> = Vec::new();
    let mut i: usize = 0;
    while i < tokens.len()
        invariant
            i <= tokens.len(),
            strings_view(r@) == originals(pairs_view(tokens@)).take(i as int),
        decreases tokens.len() - i,
    {
        let ghost before = strings_view(r@);
        r.push(tokens[i].1.clone());
        proof {
            let o = originals(pairs_view(tokens@));
            assert(strings_view(r@) =~= before.push(o[i as int]));
            assert(o.take(i + 1) =~= o.take(i as int).push(o[i as int]));
        }
        i += 1;
    }
    assert(originals(pairs_view(tokens@)).take(tokens.len() as int) =~= originals(pairs_view(tokens@)));
    r
}

fn push_warning(w: &mut Vec<String>, b: bool, m: &str)
    ensures
        strings_view(final(w)@) == strings_view(old(w)@) + warn_if(b, m@),
{
    if b {
        let ghost before = strings_view(w@);
        w.push(crate::text::owned(m));
        assert(strings_view(w@) =~= before + warn_if(b, m@));
    } else {
        assert(strings_view(w@) =~= strings_view(w@) + warn_if(b, m@));
    }
}

/// The problems of a translation that the format guard finds; `source_doc`
/// and `target_doc` are the source and the translation read as JSON text
/// components, when they are.
pub fn warnings(source: &str, target: &str, source_doc: Option<&Document>, target_doc: Option<&Document>) -> (w: Vec<String>)
    ensures
        strings_view(w@) == guard(source@, target@, match source_doc { Some(d) => Some(*d), None => None }, match target_doc {
            Some(d) => Some(*d),
            None => None,
        }),
{
    let (_, st) = protect(source);
    let (_, tt) = protect(target);
    let mut w: Vec<String> = Vec::new();
    assert(strings_view(w@) =~= Seq::<Seq<char>>::empty());
    push_warning(&mut w, count_char_exec(source, '\n') != count_char_exec(target, '\n'), "换行数量不一致");
    push_warning(&mut w, count_char_exec(source, '\r') != count_char_exec(target, '\r'), "回车数量不一致");
    push_warning(&mut w, count_char_exec(source, '\t') != count_char_exec(target, '\t'), "制表符数量不一致");
    let sc = token_originals(&st);
    let tc = token_originals(&tt);
    push_warning(&mut w, !same_items_exec(&sc, &tc), "格式码、占位符或资源标识不一致");
    let ghost before = strings_view(w@);
    match source_doc {
        Some(a) => match target_doc {
            Some(b) => {
                let x = canon_json(&a.structure());
                let y = canon_json(&b.structure());
                push_warning(&mut w, !json_equal(&x, &y), "JSON 文本组件结构发生变化");
            },
            None => {
                push_warning(&mut w, true, "JSON 文本组件不再是有效 JSON");
            },
        },
        None => {
            assert(strings_view(w@) =~= before + Seq::<Seq<char>>::empty());
        },
    }
    assert(strings_view(w@) =~= guard(source@, target@, match source_doc { Some(d) => Some(*d), None => None }, match target_doc {
        Some(d) => Some(*d),
        None => None,
    }));
    w
}

// ---------------------------------------------------------------------------
// Entries and the files they come from.

/// What the fingerprint of the entries of a task book is taken over: each
/// entry's id and source, each ended by a separator byte.
pub open spec fn entries_bytes(es: Seq<Entry>) -> Seq<u8>
    decreases es.len(),
{
    if es.len() == 0 {
        Seq::empty()
    } else {
        entries_bytes(es.drop_last()) + encode_utf8(es.last().id@) + seq![0u8] + encode_utf8(es.last().source@) + seq![0xffu8]
    }
}

/// The fingerprint of the ids and the sources of the entries.
pub fn source_fingerprint(entries: &Vec<Entry>) -> (s: String)
    ensures
        s@ == hex_lower(sha256_of(entries_bytes(entries@))),
{
    let mut bytes: Vec<u8> = Vec::new();
    let mut i: usize = 0;
    while i < entries.len()
        invariant
            i <= entries.len(),
            bytes@ == entries_bytes(entries@.take(i as int)),
        decreases entries.len() - i,
    {
        push_utf8(&mut bytes, entries[i].id.as_str());
        bytes.push(0);
        push_utf8(&mut bytes, entries[i].source.as_str());
        bytes.push(0xff);
        proof {
            let t = entries@.take(i + 1);
            assert(t.drop_last() =~= entries@.take(i as int));
            assert(t.last() == entries@[i as int]);
        }
        i += 1;
        assert(bytes@ =~= entries_bytes(entries@.take(i as int)));
    }
    assert(entries@.take(entries.len() as int) =~= entries@);
    sha256_hex(bytes.as_slice())
}

/// The source file that an entry comes from: the language file, or the
/// chapter file named by the entry id before its first `:`.
pub open spec fn source_file(mode: Seq<char>, entry_id: Seq<char>) -> Seq<char> {
    if mode == "lang"@ {
        "lang/en_us.snbt"@
    } else {
        "chapters/"@ + match crate::logging::first_of(entry_id, ':') {
            Some(i) => entry_id.take(i),
            None => entry_id,
        }
    }
}

/// The source file of an entry.
pub fn entry_source_file(mode: &str, entry_id: &str) -> (s: String)
    ensures
        s@ == source_file(mode@, entry_id@),
{
    if str_eq(mode, "lang") {
        return crate::text::owned("lang/en_us.snbt");
    }
    let v = chars_of(entry_id);
    let mut k: usize = 0;
    while k < v.len() && v[k] != ':'
        invariant
            k <= v.len(),
            v@ == entry_id@,
            forall|j: int| 0 <= j < k ==> v@[j] != ':',
        decreases v.len() - k,
    {
        k += 1;
    }
    let mut s = String::new();
    push_str(&mut s, "chapters/");
    if k < v.len() {
        proof {
            let w = choose|x: int| 0 <= x < v@.len() && v@[x] == ':' && forall|j: int| 0 <= j < x ==> v@[j] != ':';
            assert(0 <= k < v@.len() && v@[k as int] == ':' && forall|j: int| 0 <= j < k ==> v@[j] != ':');
            assert(w == k) by {
                if w < k {
                    assert(v@[w] != ':');
                } else if w > k {
                    assert(v@[k as int] != ':');
                }
            }
        }
        let head = crate::text::string_of_range(&v, 0, k);
        assert(head@ =~= entry_id@.take(k as int));
        push_str(&mut s, head.as_str());
    } else {
        assert(!exists|x: int| 0 <= x < v@.len() && v@[x] == ':');
        push_str(&mut s, entry_id);
    }
    s
}


// ---------------------------------------------------------------------------
// Checking the records of a CMP file against the current task book.

/// The last unit that fills the place (`entry_id`, `path`), as a map built
/// from the units keeps.
pub open spec fn unit_at(items: Seq<Item>, entry_id: Seq<char>, path: Seq<char>) -> Option<int>
    decreases items.len(),
{
    if items.len() == 0 {
        None
    } else if items.last().entry_id@ == entry_id && items.last().path@ == path {
        Some(items.len() - 1)
    } else {
        unit_at(items.drop_last(), entry_id, path)
    }
}

proof fn lemma_unit_at(items: Seq<Item>, entry_id: Seq<char>, path: Seq<char>)
    ensures
        unit_at(items, entry_id, path) matches Some(k) ==> 0 <= k < items.len(),
    decreases items.len(),
{
    if items.len() > 0 {
        lemma_unit_at(items.drop_last(), entry_id, path);
    }
}

/// What is wrong with one record, if anything.
pub open spec fn record_problem(mode: Seq<char>, r: Record, items: Seq<Item>) -> Option<Seq<char>> {
    match unit_at(items, r.entry_id@, r.path@) {
        None => Some("CMP 包含未知回填位置："@ + r.entry_id@ + " "@ + r.path@),
        Some(k) => if r.file@ != source_file(mode, r.entry_id@) {
            Some("CMP 文件归属被修改："@ + r.entry_id@)
        } else if r.source@ != items[k].source@ {
            Some("CMP 英文原文被修改："@ + r.entry_id@ + " "@ + r.path@ + "。只允许修改箭头右侧中文"@)
        } else {
            None
        },
    }
}

/// The first problem among the records from `i` on.
pub open spec fn first_record_problem(mode: Seq<char>, rs: Seq<Record>, items: Seq<Item>, i: int) -> Option<Seq<char>>
    decreases rs.len() - i,
{
    if 0 <= i < rs.len() {
        match record_problem(mode, rs[i], items) {
            Some(m) => Some(m),
            None => first_record_problem(mode, rs, items, i + 1),
        }
    } else {
        None
    }
}

pub open spec fn count_mismatch(records: nat, items: nat) -> Seq<char> {
    "cmp_records="@ + decimal(records) + " current_items="@ + decimal(items)
}

/// Checks the records of a CMP file against the units of the current task
/// book: as many records as units, each record at a known place, in the
/// file its entry comes from, and with its source unchanged.
pub fn validate_cmp_records(mode: &str, records: &Vec<Record>, items: &Vec<Item>) -> (r: Result<(), AppError>)
    ensures
        records@.len() != items@.len() ==> (r matches Err(e) && refused_with(e, ("CMP 翻译条目数量与当前任务书不一致"@, count_mismatch(records@.len(), items@.len())))),
        records@.len() == items@.len() ==> match first_record_problem(mode@, records@, items@, 0) {
            Some(m) => r matches Err(e) && refused(e, m),
            None => r is Ok,
        },
{
    if records.len() != items.len() {
        let mut m = String::new();
        push_str(&mut m, "cmp_records=");
        push_decimal(&mut m, records.len());
        push_str(&mut m, " current_items=");
        push_decimal(&mut m, items.len());
        return Err(invalid_with("CMP 翻译条目数量与当前任务书不一致", m.as_str()));
    }
    check_records(mode, records, items)
}

/// Checks each record, in order, against the units.
fn check_records(mode: &str, records: &Vec<Record>, items: &Vec<Item>) -> (r: Result<(), AppError>)
    ensures
        match first_record_problem(mode@, records@, items@, 0) {
            Some(m) => r matches Err(e) && refused(e, m),
            None => r is Ok,
        },
{
    let mut i: usize = 0;
    while i < records.len()
        invariant
            i <= records.len(),
            first_record_problem(mode@, records@, items@, 0) == first_record_problem(mode@, records@, items@, i as int),
        decreases records.len() - i,
    {
        let r = &records[i];
        let mut k = items.len();
        let mut found: Option<usize> = None;
        assert(items@.take(items.len() as int) =~= items@);
        while k > 0 && found.is_none()
            invariant
                k <= items.len(),
                found matches Some(x) ==> x < items.len() && unit_at(items@, r.entry_id@, r.path@) == Some(x as int),
                found is None ==> unit_at(items@, r.entry_id@, r.path@) == unit_at(items@.take(k as int), r.entry_id@, r.path@),
            decreases k, if found is None { 1int } else { 0int },
        {
            let ghost t = items@.take(k as int);
            assert(t.drop_last() =~= items@.take(k - 1));
            assert(t.last() == items@[k - 1]);
            if str_eq(items[k - 1].entry_id.as_str(), r.entry_id.as_str()) && str_eq(items[k - 1].path.as_str(), r.path.as_str()) {
                found = Some(k - 1);
            } else {
                k -= 1;
            }
        }
        match found {
            None => {
                let mut m = String::new();
                push_str(&mut m, "CMP 包含未知回填位置：");
                push_str(&mut m, r.entry_id.as_str());
                push_str(&mut m, " ");
                push_str(&mut m, r.path.as_str());
                assert(items@.take(0) =~= Seq::<Item>::empty());
                return Err(invalid(m.as_str()));
            },
            Some(x) => {
                let file = entry_source_file(mode, r.entry_id.as_str());
                if !str_eq(r.file.as_str(), file.as_str()) {
                    let mut m = String::new();
                    push_str(&mut m, "CMP 文件归属被修改：");
                    push_str(&mut m, r.entry_id.as_str());
                    return Err(invalid(m.as_str()));
                }
                if !str_eq(r.source.as_str(), items[x].source.as_str()) {
                    let mut m = String::new();
                    push_str(&mut m, "CMP 英文原文被修改：");
                    push_str(&mut m, r.entry_id.as_str());
                    push_str(&mut m, " ");
                    push_str(&mut m, r.path.as_str());
                    push_str(&mut m, "。只允许修改箭头右侧中文");
                    return Err(invalid(m.as_str()));
                }
            },
        }
        i += 1;
    }
    Ok(())
}

// ---------------------------------------------------------------------------
// The fingerprint of the source files of a task book.

/// The reader that a task book's entries come from.
pub open spec fn reader_tag(mode: Seq<char>) -> Seq<char> {
    if mode == "lang"@ { "lang-parser-v1"@ } else { "chapter-token-walker-v1"@ }
}

/// Each source file, by its path relative to the task book and its bytes,
/// each of the two preceded by its length in eight bytes.
pub open spec fn files_bytes(files: Seq<(Seq<char>, Seq<u8>)>) -> Seq<u8>
    decreases files.len(),
{
    if files.len() == 0 {
        Seq::empty()
    } else {
        let (path, bytes) = files.last();
        let p = encode_utf8(path);
        files_bytes(files.drop_last()) + le_bytes(p.len(), 8) + p + le_bytes(bytes.len(), 8) + bytes
    }
}

/// What the fingerprint of the source files is taken over: a tag, the
/// reader, the fingerprint of the entries, then the files.
pub open spec fn source_files_bytes(mode: Seq<char>, entries: Seq<Entry>, files: Seq<(Seq<char>, Seq<u8>)>) -> Seq<u8> {
    encode_utf8("ftb-translator-source-v2"@) + seq![0u8] + encode_utf8(reader_tag(mode)) + seq![0u8] + encode_utf8(
        hex_lower(sha256_of(entries_bytes(entries))),
    ) + files_bytes(files)
}

pub open spec fn files_view(files: Seq<(String, Vec<u8>)>) -> Seq<(Seq<char>, Seq<u8>)> {
    files.map_values(|f: (String, Vec<u8>)| (f.0@, f.1@))
}

/// The fingerprint of the entries and of the source files they were read
/// from (`files`: each file's path relative to the task book, and its bytes).
pub fn current_source_fingerprint(mode: &str, entries: &Vec<Entry>, files: &Vec<(String, Vec<u8>)>) -> (s: String)
    ensures
        s@ == "v2:"@ + hex_lower(sha256_of(source_files_bytes(mode@, entries@, files_view(files@)))),
{
    let mut bytes: Vec<u8> = Vec::new();
    push_utf8(&mut bytes, "ftb-translator-source-v2");
    bytes.push(0);
    if str_eq(mode, "lang") {
        push_utf8(&mut bytes, "lang-parser-v1");
    } else {
        push_utf8(&mut bytes, "chapter-token-walker-v1");
    }
    bytes.push(0);
    let fp = source_fingerprint(entries);
    push_utf8(&mut bytes, fp.as_str());
    let ghost head = bytes@;
    assert(head =~= encode_utf8("ftb-translator-source-v2"@) + seq![0u8] + encode_utf8(reader_tag(mode@)) + seq![0u8]
        + encode_utf8(hex_lower(sha256_of(entries_bytes(entries@)))));
    let ghost fv = files_view(files@);
    let mut i: usize = 0;
    assert(fv.take(0) =~= Seq::<(Seq<char>, Seq<u8>)>::empty());
    assert(bytes@ =~= head + files_bytes(fv.take(0)));
    while i < files.len()
        invariant
            i <= files.len(),
            fv == files_view(files@),
            bytes@ == head + files_bytes(fv.take(i as int)),
        decreases files.len() - i,
    {
        let ghost t = fv.take(i + 1);
        assert(t.drop_last() =~= fv.take(i as int));
        assert(t.last() == (files@[i as int].0@, files@[i as int].1@));
        let mut path: Vec<u8> = Vec::new();
        push_utf8(&mut path, files[i].0.as_str());
        assert(path@ =~= encode_utf8(files@[i as int].0@));
        let ghost before = bytes@;
        push_le_u64(&mut bytes, path.len() as u64);
        let mut k: usize = 0;
        while k < path.len()
            invariant
                k <= path.len(),
                bytes@ == before + le_bytes(path@.len(), 8) + path@.take(k as int),
            decreases path.len() - k,
        {
            bytes.push(path[k]);
            assert(path@.take(k + 1) =~= path@.take(k as int).push(path@[k as int]));
            k += 1;
        }
        assert(path@.take(path.len() as int) =~= path@);
        let data = &files[i].1;
        push_le_u64(&mut bytes, data.len() as u64);
        let ghost mid = bytes@;
        let mut k: usize = 0;
        while k < data.len()
            invariant
                k <= data.len(),
                bytes@ == mid + data@.take(k as int),
            decreases data.len() - k,
        {
            bytes.push(data[k]);
            assert(data@.take(k + 1) =~= data@.take(k as int).push(data@[k as int]));
            k += 1;
        }
        assert(data@.take(data.len() as int) =~= data@);
        assert(bytes@ =~= head + files_bytes(t));
        i += 1;
    }
    assert(fv.take(files.len() as int) =~= fv);
    let digest = sha256_hex(bytes.as_slice());
    let mut out = String::new();
    push_str(&mut out, "v2:");
    push_str(&mut out, digest.as_str());
    out
}

/// Whether a recorded fingerprint still matches: a version 2 fingerprint is
/// compared with that of the entries and the source files, an older one with
/// that of the entries alone.
pub fn source_fingerprint_matches(recorded: &str, mode: &str, entries: &Vec<Entry>, files: &Vec<(String, Vec<u8>)>) -> (b: bool)
    ensures
        b == if starts(recorded@, "v2:"@) {
            recorded@ == "v2:"@ + hex_lower(sha256_of(source_files_bytes(mode@, entries@, files_view(files@))))
        } else {
            recorded@ == hex_lower(sha256_of(entries_bytes(entries@)))
        },
{
    let v = chars_of(recorded);
    let is_v2 = v.len() >= 3 && v[0] == 'v' && v[1] == '2' && v[2] == ':';
    proof {
        reveal_strlit("v2:");
        if is_v2 {
            assert(recorded@.take(3) =~= "v2:"@);
        } else if recorded@.len() >= 3 {
            if recorded@.take(3) == "v2:"@ {
                assert(recorded@.take(3)[0] == 'v');
                assert(recorded@.take(3)[1] == '2');
                assert(recorded@.take(3)[2] == ':');
            }
        }
    }
    if is_v2 {
        let current = current_source_fingerprint(mode, entries, files);
        str_eq(recorded, current.as_str())
    } else {
        let current = source_fingerprint(entries);
        str_eq(recorded, current.as_str())
    }
}


/// The format guard warns whenever a format code, placeholder or resource id
/// occurs a different number of times in the translation than in the source:
/// a token that was changed, dropped or added is always reported.
pub proof fn law_changed_tokens_are_warned(
    source: Seq<char>,
    target: Seq<char>,
    source_doc: Option<Document>,
    target_doc: Option<Document>,
    token: Seq<char>,
)
    requires
        crate::protection::count_of(originals(protected(source).1), token) != crate::protection::count_of(
            originals(protected(target).1),
            token,
        ),
    ensures
        guard(source, target, source_doc, target_doc).contains("格式码、占位符或资源标识不一致"@),
{
    let a = warn_if(count_char(source, '\n') != count_char(target, '\n'), "换行数量不一致"@)
        + warn_if(count_char(source, '\r') != count_char(target, '\r'), "回车数量不一致"@)
        + warn_if(count_char(source, '\t') != count_char(target, '\t'), "制表符数量不一致"@);
    let w = warn_if(!same_items(originals(protected(source).1), originals(protected(target).1)), "格式码、占位符或资源标识不一致"@);
    assert(!same_items(originals(protected(source).1), originals(protected(target).1)));
    assert(w =~= seq!["格式码、占位符或资源标识不一致"@]);
    let g = guard(source, target, source_doc, target_doc);
    assert(g[a.len() as int] == "格式码、占位符或资源标识不一致"@);
}

} // verus!
