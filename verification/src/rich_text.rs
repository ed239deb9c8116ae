//! Minecraft JSON text components: which strings of a component a player
//! sees (and so are translated), and how translations go back in without
//! touching the rest of the component.

use crate::text::{chars_of, lex_lt, push_decimal, push_str, str_eq, str_less, str_starts_with, string_of_range, trim, trimmed, pairs_view};
use vstd::prelude::*;

verus! {

/// A JSON value. Object members keep the order in which they were read.
#[derive(Debug)]
pub enum Json {
    Null,
    Bool(bool),
    Number(String),
    Str(String),
    Array(Vec<Json>),
    Object(Vec<Member>),
}

/// A member of a JSON object.
#[derive(Debug)]
pub struct Member {
    pub key: String,
    pub value: Json,
}

#[verifier::external_type_specification]
#[verifier::external_body]
pub struct ExValue(serde_json::Value);

/// A translatable string of a component and where it stands (a JSON pointer).
#[derive(Clone, Debug)]
pub struct Unit {
    pub pointer: String,
    pub source: String,
}

/// A parsed component with its translatable strings.
#[derive(Debug)]
pub struct Document {
    value: Json,
    units: Vec<Unit>,
}

/// The value of the first member named `key`.
pub open spec fn member(o: Seq<Member>, key: Seq<char>) -> Option<Json>
    decreases o.len(),
{
    if o.len() == 0 {
        None
    } else if o[0].key@ == key {
        Some(o[0].value)
    } else {
        member(o.drop_first(), key)
    }
}

/// Where the first member named `key` stands.
fn member_index(o: &Vec<Member>, key: &str) -> (r: Option<usize>)
    ensures
        match member(o@, key@) {
            Some(c) => r matches Some(k) && k < o.len() && o@[k as int].value == c && o@[k as int].key@ == key@,
            None => r is None,
        },
{
    let mut i: usize = 0;
    assert(o@.skip(0) =~= o@);
    while i < o.len()
        invariant
            i <= o.len(),
            member(o@, key@) == member(o@.skip(i as int), key@),
        decreases o.len() - i,
    {
        assert(o@.skip(i as int).drop_first() =~= o@.skip(i + 1));
        assert(o@.skip(i as int)[0] == o@[i as int]);
        if str_eq(o[i].key.as_str(), key) {
            return Some(i);
        }
        i += 1;
    }
    None
}

/// A string a player sees: one that is not blank.
pub open spec fn shown(j: Json) -> bool {
    j matches Json::Str(s) && trim(s@).len() > 0
}

/// The unit of `j` at `pointer`, if `j` is a string a player sees.
pub open spec fn string_unit(j: Json, pointer: Seq<char>) -> Seq<(Seq<char>, Seq<char>)> {
    match j {
        Json::Str(s) => if trim(s@).len() > 0 { seq![(pointer, s@)] } else { Seq::empty() },
        _ => Seq::empty(),
    }
}

/// The translatable strings of a component at `pointer`: a string a player
/// sees; each item of an array; of an object, its `text`, its `extra`, `with`
/// and `separator` components, and the text of a `show_text` hover (its
/// `contents` and `value`) or the name of a `show_entity` hover.
pub open spec fn units_of(j: Json, pointer: Seq<char>) -> Seq<(Seq<char>, Seq<char>)>
    decreases j, 0int,
{
    match j {
        Json::Str(_) => string_unit(j, pointer),
        Json::Array(v) => items_units(v@, pointer, 0),
        Json::Object(o) => object_units(o@, pointer),
        _ => Seq::empty(),
    }
}

pub open spec fn items_units(v: Seq<Json>, pointer: Seq<char>, i: int) -> Seq<(Seq<char>, Seq<char>)>
    decreases v, v.len() - i,
{
    if 0 <= i < v.len() {
        units_of(v[i], pointer + "/"@ + crate::text::decimal(i as nat)) + items_units(v, pointer, i + 1)
    } else {
        Seq::empty()
    }
}

pub open spec fn member_units(o: Seq<Member>, key: Seq<char>, pointer: Seq<char>) -> Seq<(Seq<char>, Seq<char>)>
    decreases o, 1int,
{
    match member(o, key) {
        Some(c) => if member_in(o, key, c) { units_of(c, pointer) } else { Seq::empty() },
        None => Seq::empty(),
    }
}

/// `c` is the value of a member of `o` named `key`.
pub open spec fn member_in(o: Seq<Member>, key: Seq<char>, c: Json) -> bool {
    exists|k: int| 0 <= k < o.len() && o[k].key@ == key && #[trigger] o[k].value == c
}

/// The unit of an object's `text`.
pub open spec fn text_units(o: Seq<Member>, pointer: Seq<char>) -> Seq<(Seq<char>, Seq<char>)> {
    match member(o, "text"@) {
        Some(t) => string_unit(t, pointer + "/text"@),
        None => Seq::empty(),
    }
}

/// The units of an object's child components.
pub open spec fn children_units(o: Seq<Member>, pointer: Seq<char>) -> Seq<(Seq<char>, Seq<char>)>
    decreases o, 2int,
{
    member_units(o, "extra"@, pointer + "/extra"@) + member_units(o, "with"@, pointer + "/with"@) + member_units(
        o,
        "separator"@,
        pointer + "/separator"@,
    )
}

/// The units of the hover event `h` of a component at `pointer`.
pub open spec fn hover_units(h: Seq<Member>, pointer: Seq<char>) -> Seq<(Seq<char>, Seq<char>)>
    decreases h, 2int,
{
    match member(h, "action"@) {
        Some(Json::Str(a)) => if a@ == "show_text"@ {
            member_units(h, "contents"@, pointer + "/hoverEvent/contents"@) + member_units(h, "value"@, pointer + "/hoverEvent/value"@)
        } else if a@ == "show_entity"@ {
            match member(h, "contents"@) {
                Some(Json::Object(c)) => if member_in(h, "contents"@, Json::Object(c)) {
                    member_units(c@, "name"@, pointer + "/hoverEvent/contents/name"@)
                } else {
                    Seq::empty()
                },
                _ => Seq::empty(),
            }
        } else {
            Seq::empty()
        },
        _ => Seq::empty(),
    }
}

pub open spec fn object_units(o: Seq<Member>, pointer: Seq<char>) -> Seq<(Seq<char>, Seq<char>)>
    decreases o, 3int,
{
    let hover = match member(o, "hoverEvent"@) {
        Some(Json::Object(h)) => if member_in(o, "hoverEvent"@, Json::Object(h)) {
            hover_units(h@, pointer)
        } else {
            Seq::empty()
        },
        _ => Seq::empty(),
    };
    text_units(o, pointer) + children_units(o, pointer) + hover
}


pub open spec fn units_view(v: Seq<Unit>) -> Seq<(Seq<char>, Seq<char>)> {
    v.map_values(|u: Unit| (u.pointer@, u.source@))
}

fn join(pointer: &str, step: &str) -> (r: String)
    ensures
        r@ == pointer@ + step@,
{
    let mut r = crate::text::owned(pointer);
    push_str(&mut r, step);
    r
}

fn push_string_unit(j: &Json, pointer: String, units: &mut Vec<Unit>)
    ensures
        units_view(final(units)@) == units_view(old(units)@) + string_unit(*j, pointer@),
{
    match j {
        Json::Str(s) => {
            let t = trimmed(s.as_str());
            if !t.as_str().is_empty() {
                let ghost before = units_view(units@);
                units.push(Unit { pointer, source: s.clone() });
                assert(units_view(units@) =~= before + string_unit(*j, pointer@));
            } else {
                assert(units_view(units@) =~= units_view(units@) + Seq::<(Seq<char>, Seq<char>)>::empty());
            }
        },
        _ => {
            assert(units_view(units@) =~= units_view(units@) + Seq::<(Seq<char>, Seq<char>)>::empty());
        },
    }
}

proof fn lemma_member_in(o: Seq<Member>, key: Seq<char>, k: int)
    requires
        0 <= k < o.len(),
        o[k].key@ == key,
    ensures
        member_in(o, key, o[k].value),
{
}

fn collect_member(o: &Vec<Member>, key: &str, pointer: String, units: &mut Vec<Unit>)
    ensures
        units_view(final(units)@) == units_view(old(units)@) + member_units(o@, key@, pointer@),
    decreases o@, 1int,
{
    match member_index(o, key) {
        Some(k) => {
            proof {
                lemma_member_in(o@, key@, k as int);
            }
            collect(&o[k].value, pointer, units);
        },
        None => {
            assert(units_view(units@) =~= units_view(units@) + Seq::<(Seq<char>, Seq<char>)>::empty());
        },
    }
}

fn collect_items(v: &Vec<Json>, pointer: &str, units: &mut Vec<Unit>)
    ensures
        units_view(final(units)@) == units_view(old(units)@) + items_units(v@, pointer@, 0),
    decreases v@, 1int,
{
    let ghost start = units_view(units@);
    let mut i: usize = 0;
    while i < v.len()
        invariant
            i <= v.len(),
            units_view(units@) + items_units(v@, pointer@, i as int) == start + items_units(v@, pointer@, 0),
        decreases v.len() - i,
    {
        let mut p = crate::text::owned(pointer);
        push_str(&mut p, "/");
        push_decimal(&mut p, i);
        let ghost before = units_view(units@);
        collect(&v[i], p, units);
        assert(units_view(units@) + items_units(v@, pointer@, i + 1) =~= before + items_units(v@, pointer@, i as int));
        i += 1;
    }
    assert(units_view(units@) + Seq::<(Seq<char>, Seq<char>)>::empty() =~= units_view(units@));
}

fn collect_hover(h: &Vec<Member>, pointer: &str, units: &mut Vec<Unit>)
    ensures
        units_view(final(units)@) == units_view(old(units)@) + hover_units(h@, pointer@),
    decreases h@, 2int,
{
    let ghost start = units_view(units@);
    match member_index(h, "action") {
        Some(a) => match &h[a].value {
            Json::Str(action) => {
                if str_eq(action.as_str(), "show_text") {
                    collect_member(h, "contents", join(pointer, "/hoverEvent/contents"), units);
                    collect_member(h, "value", join(pointer, "/hoverEvent/value"), units);
                    return;
                } else if str_eq(action.as_str(), "show_entity") {
                    match member_index(h, "contents") {
                        Some(c) => match &h[c].value {
                            Json::Object(cs) => {
                                proof {
                                    lemma_member_in(h@, "contents"@, c as int);
                                }
                                collect_member(cs, "name", join(pointer, "/hoverEvent/contents/name"), units);
                                return;
                            },
                            _ => {},
                        },
                        None => {},
                    }
                }
            },
            _ => {},
        },
        None => {},
    }
    assert(units_view(units@) =~= start + hover_units(h@, pointer@));
}

fn collect_object(o: &Vec<Member>, pointer: &str, units: &mut Vec<Unit>)
    ensures
        units_view(final(units)@) == units_view(old(units)@) + object_units(o@, pointer@),
    decreases o@, 3int,
{
    let ghost start = units_view(units@);
    match member_index(o, "text") {
        Some(k) => push_string_unit(&o[k].value, join(pointer, "/text"), units),
        None => {},
    }
    let ghost t1 = units_view(units@);
    assert(t1 == start + text_units(o@, pointer@));
    collect_member(o, "extra", join(pointer, "/extra"), units);
    collect_member(o, "with", join(pointer, "/with"), units);
    collect_member(o, "separator", join(pointer, "/separator"), units);
    let ghost t2 = units_view(units@);
    assert(t2 =~= t1 + children_units(o@, pointer@));
    match member_index(o, "hoverEvent") {
        Some(k) => match &o[k].value {
            Json::Object(h) => {
                proof {
                    lemma_member_in(o@, "hoverEvent"@, k as int);
                }
                collect_hover(h, pointer, units);
            },
            _ => {},
        },
        None => {},
    }
    assert(units_view(units@) =~= start + object_units(o@, pointer@));
}

/// Adds the translatable strings of the component `j` at `pointer`.
fn collect(j: &Json, pointer: String, units: &mut Vec<Unit>)
    ensures
        units_view(final(units)@) == units_view(old(units)@) + units_of(*j, pointer@),
    decreases *j, 0int,
{
    match j {
        Json::Str(_) => push_string_unit(j, pointer, units),
        Json::Array(v) => collect_items(v, pointer.as_str(), units),
        Json::Object(o) => collect_object(o, pointer.as_str(), units),
        _ => {
            assert(units_view(units@) =~= units_view(units@) + Seq::<(Seq<char>, Seq<char>)>::empty());
        },
    }
}


// ---------------------------------------------------------------------------
// A value, by value.

/// The data that a JSON value holds.
pub enum JsonView {
    Null,
    Bool(bool),
    Number(Seq<char>),
    Str(Seq<char>),
    Array(Seq<JsonView>),
    Object(Seq<(Seq<char>, JsonView)>),
}

pub open spec fn jv(j: Json) -> JsonView
    decreases j, 1int,
{
    match j {
        Json::Null => JsonView::Null,
        Json::Bool(b) => JsonView::Bool(b),
        Json::Number(n) => JsonView::Number(n@),
        Json::Str(s) => JsonView::Str(s@),
        Json::Array(v) => JsonView::Array(jvs(v@)),
        Json::Object(o) => JsonView::Object(jms(o@)),
    }
}

pub open spec fn jvs(s: Seq<Json>) -> Seq<JsonView>
    decreases s, 0int,
{
    if s.len() == 0 {
        Seq::empty()
    } else {
        jvs(s.drop_last()).push(jv(s.last()))
    }
}

pub open spec fn jms(s: Seq<Member>) -> Seq<(Seq<char>, JsonView)>
    decreases s, 0int,
{
    if s.len() == 0 {
        Seq::empty()
    } else {
        jms(s.drop_last()).push((s.last().key@, jv(s.last().value)))
    }
}

pub proof fn lemma_jvs(s: Seq<Json>)
    ensures
        jvs(s).len() == s.len(),
        forall|i: int| 0 <= i < s.len() ==> #[trigger] jvs(s)[i] == jv(s[i]),
    decreases s.len(),
{
    if s.len() > 0 {
        lemma_jvs(s.drop_last());
        assert forall|i: int| 0 <= i < s.len() implies #[trigger] jvs(s)[i] == jv(s[i]) by {
            if i < s.len() - 1 {
                assert(s.drop_last()[i] == s[i]);
            }
        }
    }
}

pub proof fn lemma_jms(s: Seq<Member>)
    ensures
        jms(s).len() == s.len(),
        forall|i: int| 0 <= i < s.len() ==> #[trigger] jms(s)[i] == (s[i].key@, jv(s[i].value)),
    decreases s.len(),
{
    if s.len() > 0 {
        lemma_jms(s.drop_last());
        assert forall|i: int| 0 <= i < s.len() implies #[trigger] jms(s)[i] == (s[i].key@, jv(s[i].value)) by {
            if i < s.len() - 1 {
                assert(s.drop_last()[i] == s[i]);
            }
        }
    }
}

// ---------------------------------------------------------------------------
// serde_json's view of a value.

/// A `serde_json::Value` holding the same value.
#[verifier::external_body]
fn to_value(j: &Json) -> serde_json::Value {
    match j {
        Json::Null => serde_json::Value::Null,
        Json::Bool(b) => serde_json::Value::Bool(*b),
        Json::Number(n) => serde_json::from_str(n).unwrap_or(serde_json::Value::Null),
        Json::Str(s) => serde_json::Value::String(s.clone()),
        Json::Array(v) => serde_json::Value::Array(v.iter().map(to_value).collect()),
        Json::Object(o) => serde_json::Value::Object(o.iter().map(|m| (m.key.clone(), to_value(&m.value))).collect()),
    }
}

/// The value that a `serde_json::Value` holds.
#[verifier::external_body]
fn from_value(v: serde_json::Value) -> Json {
    match v {
        serde_json::Value::Null => Json::Null,
        serde_json::Value::Bool(b) => Json::Bool(b),
        serde_json::Value::Number(n) => Json::Number(n.to_string()),
        serde_json::Value::String(s) => Json::Str(s),
        serde_json::Value::Array(v) => Json::Array(v.into_iter().map(from_value).collect()),
        serde_json::Value::Object(o) => Json::Object(o.into_iter().map(|(key, value)| Member { key, value: from_value(value) }).collect()),
    }
}

/// The text that serde_json writes for a value.
pub uninterp spec fn json_written(j: JsonView) -> Seq<char>;

/// `serde_json::to_string` of the value (which cannot fail: every key is a string).
#[verifier::external_body]
pub fn json_text(j: &Json) -> (s: String)
    ensures
        s@ == json_written(jv(*j)),
{
    serde_json::to_string(&to_value(j)).unwrap_or_default()
}

/// What `serde_json::Value::pointer` finds in a value at a JSON pointer.
pub uninterp spec fn json_at(j: JsonView, pointer: Seq<char>) -> Option<JsonView>;

/// `serde_json::Value::pointer`: the value at `pointer`, if there is one.
#[verifier::external_body]
pub fn json_pointer(j: &Json, pointer: &str) -> (r: Option<Json>)
    ensures
        match r {
            Some(x) => json_at(jv(*j), pointer@) == Some(jv(x)),
            None => json_at(jv(*j), pointer@) is None,
        },
{
    to_value(j).pointer(pointer).map(|v| from_value(v.clone()))
}

/// A value with the value at `pointer`, if there is one, replaced by the string `text`.
pub uninterp spec fn json_with(j: JsonView, pointer: Seq<char>, text: Seq<char>) -> JsonView;

/// `serde_json::Value::pointer_mut` and an assignment of the string `text`.
/// Where the pointer finds a value, reading it back with `pointer` gives the
/// string written (`pointer_mut` returns the place that `pointer` reads).
#[verifier::external_body]
pub fn json_set(j: &Json, pointer: &str, text: &str) -> (r: Json)
    ensures
        jv(r) == json_with(jv(*j), pointer@, text@),
        json_at(jv(*j), pointer@) is Some ==> json_at(jv(r), pointer@) == Some(JsonView::Str(text@)),
{
    let mut value = to_value(j);
    if let Some(target) = value.pointer_mut(pointer) {
        *target = serde_json::Value::String(text.to_string());
    }
    from_value(value)
}

/// serde_json reads `s` as an object or an array.
pub uninterp spec fn parses_as_container(s: Seq<char>) -> bool;

/// `serde_json::from_str::<Value>` and whether the value is an object or an array.
#[verifier::external_body]
pub fn json_container(s: &str) -> (b: bool)
    ensures
        b == parses_as_container(s@),
{
    match serde_json::from_str::<serde_json::Value>(s) {
        Ok(serde_json::Value::Object(_)) | Ok(serde_json::Value::Array(_)) => true,
        _ => false,
    }
}

// ---------------------------------------------------------------------------
// Components.

fn same_items_exec(x: &Vec<Json>, y: &Vec<Json>) -> (r: bool)
    ensures
        r == (jvs(x@) == jvs(y@)),
    decreases x@, 2int,
{
    proof {
        lemma_jvs(x@);
        lemma_jvs(y@);
    }
    if x.len() != y.len() {
        return false;
    }
    let mut i: usize = 0;
    while i < x.len()
        invariant
            i <= x.len() == y.len(),
            jvs(x@).len() == x.len() && jvs(y@).len() == y.len(),
            forall|k: int| 0 <= k < x.len() ==> #[trigger] jvs(x@)[k] == jv(x@[k]),
            forall|k: int| 0 <= k < y.len() ==> #[trigger] jvs(y@)[k] == jv(y@[k]),
            forall|k: int| 0 <= k < i ==> jv(x@[k]) == jv(#[trigger] y@[k]),
        decreases x.len() - i,
    {
        if !json_equal(&x[i], &y[i]) {
            assert(jvs(x@)[i as int] != jvs(y@)[i as int]);
            return false;
        }
        i += 1;
    }
    assert(jvs(x@) =~= jvs(y@)) by {
        assert forall|k: int| 0 <= k < x.len() implies jvs(x@)[k] == jvs(y@)[k] by {
            assert(jv(x@[k]) == jv(y@[k]));
        }
    }
    true
}

fn same_members_exec(x: &Vec<Member>, y: &Vec<Member>) -> (r: bool)
    ensures
        r == (jms(x@) == jms(y@)),
    decreases x@, 2int,
{
    proof {
        lemma_jms(x@);
        lemma_jms(y@);
    }
    if x.len() != y.len() {
        return false;
    }
    let mut i: usize = 0;
    while i < x.len()
        invariant
            i <= x.len() == y.len(),
            jms(x@).len() == x.len() && jms(y@).len() == y.len(),
            forall|k: int| 0 <= k < x.len() ==> #[trigger] jms(x@)[k] == (x@[k].key@, jv(x@[k].value)),
            forall|k: int| 0 <= k < y.len() ==> #[trigger] jms(y@)[k] == (y@[k].key@, jv(y@[k].value)),
            forall|k: int| 0 <= k < i ==> jms(x@)[k] == #[trigger] jms(y@)[k],
        decreases x.len() - i,
    {
        let same = str_eq(x[i].key.as_str(), y[i].key.as_str()) && json_equal(&x[i].value, &y[i].value);
        if !same {
            assert(jms(x@)[i as int] != jms(y@)[i as int]);
            return false;
        }
        i += 1;
    }
    assert(jms(x@) =~= jms(y@));
    true
}

/// Whether two values hold the same data.
pub fn json_equal(a: &Json, b: &Json) -> (r: bool)
    ensures
        r == (jv(*a) == jv(*b)),
    decreases *a, 3int,
{
    match (a, b) {
        (Json::Null, Json::Null) => true,
        (Json::Bool(x), Json::Bool(y)) => *x == *y,
        (Json::Number(x), Json::Number(y)) => str_eq(x.as_str(), y.as_str()),
        (Json::Str(x), Json::Str(y)) => str_eq(x.as_str(), y.as_str()),
        (Json::Array(x), Json::Array(y)) => same_items_exec(x, y),
        (Json::Object(x), Json::Object(y)) => same_members_exec(x, y),
        _ => false,
    }
}

fn copy_items(v: &Vec<Json>) -> (out: Vec<Json>)
    ensures
        jvs(out@) == jvs(v@),
    decreases v@, 2int,
{
    let mut out: Vec<Json> = Vec::new();
    let mut i: usize = 0;
    while i < v.len()
        invariant
            i <= v.len(),
            jvs(out@) == jvs(v@.take(i as int)),
        decreases v.len() - i,
    {
        let c = copy_json(&v[i]);
        let ghost before = out@;
        out.push(c);
        proof {
            assert(out@.drop_last() =~= before);
            let t = v@.take(i + 1);
            assert(t.drop_last() =~= v@.take(i as int));
        }
        i += 1;
    }
    assert(v@.take(v.len() as int) =~= v@);
    out
}

fn copy_members(o: &Vec<Member>) -> (out: Vec<Member>)
    ensures
        jms(out@) == jms(o@),
    decreases o@, 2int,
{
    let mut out: Vec<Member> = Vec::new();
    let mut i: usize = 0;
    while i < o.len()
        invariant
            i <= o.len(),
            jms(out@) == jms(o@.take(i as int)),
        decreases o.len() - i,
    {
        let m = Member { key: o[i].key.clone(), value: copy_json(&o[i].value) };
        let ghost before = out@;
        out.push(m);
        proof {
            assert(out@.drop_last() =~= before);
            let t = o@.take(i + 1);
            assert(t.drop_last() =~= o@.take(i as int));
        }
        i += 1;
    }
    assert(o@.take(o.len() as int) =~= o@);
    out
}

/// A copy of a value.
pub fn copy_json(j: &Json) -> (r: Json)
    ensures
        jv(r) == jv(*j),
    decreases *j, 3int,
{
    match j {
        Json::Null => Json::Null,
        Json::Bool(b) => Json::Bool(*b),
        Json::Number(n) => Json::Number(n.clone()),
        Json::Str(s) => Json::Str(s.clone()),
        Json::Array(v) => Json::Array(copy_items(v)),
        Json::Object(o) => Json::Object(copy_members(o)),
    }
}

// ---------------------------------------------------------------------------
// Values compared as the JSON data model compares them: the members of an
// object by key, in no particular order.

/// Puts a member before the first member whose key sorts after its own.
pub open spec fn insert_member(s: Seq<(Seq<char>, JsonView)>, m: (Seq<char>, JsonView)) -> Seq<(Seq<char>, JsonView)>
    decreases s.len(),
{
    if s.len() == 0 {
        seq![m]
    } else if lex_lt(m.0, s[0].0) {
        seq![m] + s
    } else {
        seq![s[0]] + insert_member(s.drop_first(), m)
    }
}

/// The members ordered by key; members with the same key keep their order.
pub open spec fn sorted_members(s: Seq<(Seq<char>, JsonView)>) -> Seq<(Seq<char>, JsonView)>
    decreases s.len(),
{
    if s.len() == 0 {
        Seq::empty()
    } else {
        insert_member(sorted_members(s.drop_last()), s.last())
    }
}

/// The value with the members of every object ordered by key: two values
/// whose objects have no repeated key are equal as JSON data exactly when
/// their canonical forms are equal.
pub open spec fn canon(j: JsonView) -> JsonView
    decreases j, 1int,
{
    match j {
        JsonView::Array(v) => JsonView::Array(canon_items(v)),
        JsonView::Object(o) => JsonView::Object(sorted_members(canon_members(o))),
        _ => j,
    }
}

pub open spec fn canon_items(s: Seq<JsonView>) -> Seq<JsonView>
    decreases s, 0int,
{
    if s.len() == 0 {
        Seq::empty()
    } else {
        canon_items(s.drop_last()).push(canon(s.last()))
    }
}

pub open spec fn canon_members(s: Seq<(Seq<char>, JsonView)>) -> Seq<(Seq<char>, JsonView)>
    decreases s, 0int,
{
    if s.len() == 0 {
        Seq::empty()
    } else {
        canon_members(s.drop_last()).push((s.last().0, canon(s.last().1)))
    }
}

/// The first place at which `m` goes: before the first key that sorts after its own.
pub open spec fn insert_place(s: Seq<(Seq<char>, JsonView)>, key: Seq<char>, p: int) -> bool {
    0 <= p <= s.len() && (forall|k: int| 0 <= k < p ==> !lex_lt(key, #[trigger] s[k].0)) && (p < s.len() ==> lex_lt(key, s[p].0))
}

proof fn lemma_insert_member(s: Seq<(Seq<char>, JsonView)>, m: (Seq<char>, JsonView), p: int)
    requires
        insert_place(s, m.0, p),
    ensures
        insert_member(s, m) == s.insert(p, m),
    decreases s.len(),
{
    if s.len() == 0 {
        assert(s.insert(p, m) =~= seq![m]);
    } else if lex_lt(m.0, s[0].0) {
        assert(p == 0);
        assert(s.insert(p, m) =~= seq![m] + s);
    } else {
        assert(p > 0);
        let t = s.drop_first();
        assert forall|k: int| 0 <= k < p - 1 implies !lex_lt(m.0, #[trigger] t[k].0) by {
            assert(t[k] == s[k + 1]);
        }
        lemma_insert_member(t, m, p - 1);
        assert(s.insert(p, m) =~= seq![s[0]] + t.insert(p - 1, m));
    }
}

fn insert_member_exec(out: &mut Vec<Member>, m: Member)
    ensures
        jms(final(out)@) == insert_member(jms(old(out)@), (m.key@, jv(m.value))),
{
    let ghost before = jms(out@);
    proof { lemma_jms(out@); }
    let mut p: usize = 0;
    while p < out.len() && !str_less(m.key.as_str(), out[p].key.as_str())
        invariant
            p <= out.len(),
            before == jms(out@),
            before.len() == out@.len(),
            forall|k: int| 0 <= k < before.len() ==> #[trigger] before[k] == (out@[k].key@, jv(out@[k].value)),
            forall|k: int| 0 <= k < p ==> !lex_lt(m.key@, #[trigger] before[k].0),
        decreases out.len() - p,
    {
        assert(before[p as int].0 == out@[p as int].key@);
        p += 1;
    }
    proof {
        if p < out.len() {
            assert(before[p as int].0 == out@[p as int].key@);
        }
        lemma_insert_member(before, (m.key@, jv(m.value)), p as int);
    }
    let ghost old_out = out@;
    out.insert(p, m);
    proof {
        lemma_jms(out@);
        assert(jms(out@) =~= before.insert(p as int, (out@[p as int].key@, jv(out@[p as int].value))));
    }
}

fn canon_vec(v: &Vec<Json>) -> (out: Vec<Json>)
    ensures
        jvs(out@) == canon_items(jvs(v@)),
    decreases v@, 2int,
{
    let mut out: Vec<Json> = Vec::new();
    let mut i: usize = 0;
    while i < v.len()
        invariant
            i <= v.len(),
            jvs(out@) == canon_items(jvs(v@.take(i as int))),
        decreases v.len() - i,
    {
        let c = canon_json(&v[i]);
        let ghost before = out@;
        out.push(c);
        proof {
            assert(out@.drop_last() =~= before);
            let t = v@.take(i + 1);
            assert(t.drop_last() =~= v@.take(i as int));
            assert(jvs(t).drop_last() =~= jvs(v@.take(i as int)));
        }
        i += 1;
    }
    assert(v@.take(v.len() as int) =~= v@);
    out
}

fn canon_obj(o: &Vec<Member>) -> (out: Vec<Member>)
    ensures
        jms(out@) == sorted_members(canon_members(jms(o@))),
    decreases o@, 2int,
{
    let mut out: Vec<Member> = Vec::new();
    let mut i: usize = 0;
    while i < o.len()
        invariant
            i <= o.len(),
            jms(out@) == sorted_members(canon_members(jms(o@.take(i as int)))),
        decreases o.len() - i,
    {
        let m = Member { key: o[i].key.clone(), value: canon_json(&o[i].value) };
        proof {
            let t = o@.take(i + 1);
            assert(t.drop_last() =~= o@.take(i as int));
            assert(jms(t).drop_last() =~= jms(o@.take(i as int)));
            assert(canon_members(jms(t)).drop_last() =~= canon_members(jms(o@.take(i as int))));
        }
        insert_member_exec(&mut out, m);
        i += 1;
    }
    assert(o@.take(o.len() as int) =~= o@);
    out
}

/// The value with the members of every object ordered by key.
pub fn canon_json(j: &Json) -> (r: Json)
    ensures
        jv(r) == canon(jv(*j)),
    decreases *j, 3int,
{
    match j {
        Json::Null => Json::Null,
        Json::Bool(b) => Json::Bool(*b),
        Json::Number(n) => Json::Number(n.clone()),
        Json::Str(s) => Json::Str(s.clone()),
        Json::Array(v) => Json::Array(canon_vec(v)),
        Json::Object(o) => Json::Object(canon_obj(o)),
    }
}

/// A component: an object or an array.
pub open spec fn container(j: Json) -> bool {
    j is Object || j is Array
}

impl Document {
    pub closed spec fn value_spec(&self) -> JsonView {
        jv(self.value)
    }

    pub closed spec fn units_spec(&self) -> Seq<(Seq<char>, Seq<char>)> {
        units_view(self.units@)
    }

    /// The component read from a parsed value, when the value is an object or
    /// an array.
    pub fn from_json(value: Json) -> (r: Option<Document>)
        ensures
            match r {
                Some(d) => container(value) && d.value_spec() == jv(value) && d.units_spec() == units_of(value, Seq::empty()),
                None => !container(value),
            },
    {
        match value {
            Json::Object(_) | Json::Array(_) => {
                let mut units: Vec<Unit> = Vec::new();
                collect(&value, String::new(), &mut units);
                assert(units_view(units@) =~= Seq::<(Seq<char>, Seq<char>)>::empty() + units_of(value, Seq::empty()));
                Some(Document { value, units })
            },
            _ => None,
        }
    }

    /// The translatable strings, in the order they appear.
    pub fn units(&self) -> (r: &Vec<Unit>)
        ensures
            units_view(r@) == self.units_spec(),
    {
        &self.units
    }

    /// The text at `pointer`, if a string stands there.
    pub fn text_at(&self, pointer: &str) -> (r: Option<String>)
        ensures
            match json_at(self.value_spec(), pointer@) {
                Some(JsonView::Str(s)) => r matches Some(t) && t@ == s,
                _ => r is None,
            },
    {
        match json_pointer(&self.value, pointer) {
            Some(Json::Str(s)) => Some(s),
            _ => None,
        }
    }

    /// The component with each translatable string replaced by a marker: two
    /// components with the same structure differ only in what a player reads.
    pub fn structure(&self) -> (r: Json)
        ensures
            jv(r) == structure_of(self.value_spec(), self.units_spec(), self.units_spec().len() as int),
    {
        let mut value = copy_json(&self.value);
        let mut i: usize = 0;
        while i < self.units.len()
            invariant
                i <= self.units.len(),
                jv(value) == structure_of(jv(self.value), units_view(self.units@), i as int),
            decreases self.units.len() - i,
        {
            let p = self.units[i].pointer.as_str();
            if json_pointer(&value, p).is_some() {
                value = json_set(&value, p, "$display_text");
            }
            proof {
                assert(units_view(self.units@)[i as int].0 == self.units@[i as int].pointer@);
            }
            i += 1;
        }
        value
    }

    /// The component with the translations written at their pointers, as text.
    pub fn render(&self, translations: &Vec<(String, String)>) -> (r: Result<String, String>)
        ensures
            match rendered(self.value_spec(), pairs_view(translations@), translations@.len() as int) {
                Ok(j) => r matches Ok(s) && s@ == json_written(j),
                Err(m) => r matches Err(e) && e@ == m,
            },
    {
        let ghost tv = pairs_view(translations@);
        let mut value = copy_json(&self.value);
        let mut i: usize = 0;
        while i < translations.len()
            invariant
                i <= translations.len(),
                tv == pairs_view(translations@),
                rendered(jv(self.value), tv, i as int) == Ok::<JsonView, Seq<char>>(jv(value)),
            decreases translations.len() - i,
        {
            let p = translations[i].0.as_str();
            assert(tv[i as int] == (translations@[i as int].0@, translations@[i as int].1@));
            match json_pointer(&value, p) {
                None => {
                    let mut m = String::new();
                    push_str(&mut m, "JSON 富文本回填路径不存在：");
                    push_str(&mut m, p);
                    proof {
                        lemma_rendered_err(jv(self.value), tv, i as int, translations@.len() as int);
                    }
                    return Err(m);
                },
                Some(Json::Str(_)) => {
                    value = json_set(&value, p, translations[i].1.as_str());
                },
                Some(_) => {
                    let mut m = String::new();
                    push_str(&mut m, "JSON 富文本回填目标不是字符串：");
                    push_str(&mut m, p);
                    proof {
                        lemma_rendered_err(jv(self.value), tv, i as int, translations@.len() as int);
                    }
                    return Err(m);
                },
            }
            i += 1;
        }
        Ok(json_text(&value))
    }
}

/// The component with the first `n` translatable strings replaced by a marker.
pub open spec fn structure_of(j: JsonView, units: Seq<(Seq<char>, Seq<char>)>, n: int) -> JsonView
    decreases n,
{
    if n <= 0 {
        j
    } else {
        let v = structure_of(j, units, n - 1);
        if json_at(v, units[n - 1].0) is Some { json_with(v, units[n - 1].0, "$display_text"@) } else { v }
    }
}

/// The component with the first `n` translations written, or why one cannot be.
pub open spec fn rendered(j: JsonView, ts: Seq<(Seq<char>, Seq<char>)>, n: int) -> Result<JsonView, Seq<char>>
    decreases n,
{
    if n <= 0 {
        Ok(j)
    } else {
        match rendered(j, ts, n - 1) {
            Err(m) => Err(m),
            Ok(v) => match json_at(v, ts[n - 1].0) {
                None => Err("JSON 富文本回填路径不存在："@ + ts[n - 1].0),
                Some(JsonView::Str(_)) => Ok(json_with(v, ts[n - 1].0, ts[n - 1].1)),
                Some(_) => Err("JSON 富文本回填目标不是字符串："@ + ts[n - 1].0),
            },
        }
    }
}

proof fn lemma_rendered_err(j: JsonView, ts: Seq<(Seq<char>, Seq<char>)>, i: int, n: int)
    requires
        0 <= i < n,
        rendered(j, ts, i + 1) is Err,
    ensures
        rendered(j, ts, n) == rendered(j, ts, i + 1),
    decreases n - i,
{
    if n > i + 1 {
        lemma_rendered_err(j, ts, i, n - 1);
    }
}


/// `s` without leading byte-order marks and then white space.
pub open spec fn component_start(s: Seq<char>) -> Seq<char> {
    crate::text::trim_start(crate::text::without_bom(s))
}

/// A text that looks like a JSON component even if it cannot be read as one.
pub open spec fn looks_like_component_spec(s: Seq<char>) -> bool {
    let t = component_start(s);
    parses_as_container(t) || crate::text::starts(t, "{\""@) || crate::text::starts(t, "[{"@) || crate::text::starts(t, "[\""@)
}

/// Whether a text looks like a JSON text component.
pub fn looks_like_component(source: &str) -> (b: bool)
    ensures
        b == looks_like_component_spec(source@),
{
    let v = chars_of(source);
    let mut i: usize = 0;
    assert(v@.skip(0) =~= v@);
    while i < v.len() && v[i] == '\u{feff}'
        invariant
            i <= v.len(),
            v@ == source@,
            crate::text::without_bom(source@) == crate::text::without_bom(v@.skip(i as int)),
        decreases v.len() - i,
    {
        assert(v@.skip(i as int).drop_first() =~= v@.skip(i + 1));
        i += 1;
    }
    let ghost nb = v@.skip(i as int);
    assert(crate::text::without_bom(source@) == nb);
    let mut k = i;
    while k < v.len() && crate::text::space(v[k])
        invariant
            i <= k <= v.len(),
            v@ == source@,
            nb == v@.skip(i as int),
            forall|x: int| 0 <= x < k - i ==> crate::text::is_space(#[trigger] nb[x]),
        decreases v.len() - k,
    {
        k += 1;
    }
    proof {
        crate::text::lemma_lead_ws(nb, k - i);
    }
    let t = string_of_range(&v, k, v.len());
    assert(t@ =~= component_start(source@));
    json_container(t.as_str()) || str_starts_with(t.as_str(), "{\"") || str_starts_with(t.as_str(), "[{")
        || str_starts_with(t.as_str(), "[\"")
}


/// The pointer step of a child component member.
pub open spec fn child_step(key: Seq<char>) -> Seq<char> {
    if key == "extra"@ {
        "/extra"@
    } else if key == "with"@ {
        "/with"@
    } else {
        "/separator"@
    }
}

proof fn lemma_first_member_in(o: Seq<Member>, key: Seq<char>)
    ensures
        member(o, key) matches Some(c) ==> member_in(o, key, c),
    decreases o.len(),
{
    if o.len() > 0 && o[0].key@ != key {
        lemma_first_member_in(o.drop_first(), key);
        if let Some(c) = member(o.drop_first(), key) {
            let k = choose|k: int| 0 <= k < o.drop_first().len() && o.drop_first()[k].key@ == key && #[trigger] o.drop_first()[k].value == c;
            assert(o[k + 1] == o.drop_first()[k]);
        }
    }
}

/// The translatable strings of an object component include those of its
/// child components: whatever its (first) `extra`, `with` or `separator`
/// member holds, read as a component at that member's pointer.
pub proof fn law_child_components_are_collected(o: Vec<Member>, pointer: Seq<char>, key: Seq<char>, c: Json, u: (Seq<char>, Seq<char>))
    requires
        key == "extra"@ || key == "with"@ || key == "separator"@,
        member(o@, key) == Some(c),
        units_of(c, pointer + child_step(key)).contains(u),
    ensures
        units_of(Json::Object(o), pointer).contains(u),
{
    lemma_first_member_in(o@, key);
    let m = member_units(o@, key, pointer + child_step(key));
    assert(m == units_of(c, pointer + child_step(key)));
    let ex = member_units(o@, "extra"@, pointer + "/extra"@);
    let wi = member_units(o@, "with"@, pointer + "/with"@);
    let se = member_units(o@, "separator"@, pointer + "/separator"@);
    let ch = children_units(o@, pointer);
    assert(ch == ex + wi + se);
    let k = choose|k: int| 0 <= k < m.len() && m[k] == u;
    let whole = object_units(o@, pointer);
    let tu = text_units(o@, pointer);
    if key == "extra"@ {
        assert(whole[tu.len() + k] == u);
    } else if key == "with"@ {
        assert(whole[tu.len() + ex.len() + k] == u);
    } else {
        assert(whole[tu.len() + ex.len() + wi.len() + k] == u);
    }
}

} // verus!

