//! The decisions of a translation run: which units go to the provider and in
//! which batches, what each answer of the provider makes of its units, and
//! what a retry keeps of an earlier CMP file.
//!
//! The application runs the loop: it sends the batches, hands each answer to
//! `Tally::absorb`, and reports the events that come back.

use crate::cmp::{record_view, records_view, Record, RecordView};
use crate::digest::{hex_lower, push_utf8, sha256_hex, sha256_of};
use crate::rich_text::{jms, json_at, json_text, json_written, lemma_jms, Document, Json, JsonView, Member};
use vstd::utf8::encode_utf8;
use crate::entries::{
    entry_source_file, item_view, items_view, lookup, lookup_exec, render_entry, rendered_entry, source_file, Entry, EntryKind,
    Item, ItemView,
};
use crate::error::{AppError, ErrorCode};
use crate::protection::{restore, restored};
use crate::providers::{concurrency_limit, requires_api_key, web_provider};
use crate::scan::{auto_value, parse_auto, parse_auto_error};
use crate::storage::Settings;
use crate::text::{chars_of, push_str, str_eq, string_of_range, strings_view, pairs_view};
use vstd::prelude::*;

verus! {

// ---------------------------------------------------------------------------
// Copies.

fn copy_pairs(v: &Vec<(String, String)>) -> (r: Vec<(String, String)>)
    ensures
        pairs_view(r@) == pairs_view(v@),
{
    let mut out: Vec<(String, String)> = Vec::new();
    let mut i: usize = 0;
    while i < v.len()
        invariant
            i <= v.len(),
            out@.len() == i,
            pairs_view(out@) == pairs_view(v@).take(i as int),
        decreases v.len() - i,
    {
        let a = v[i].0.clone();
        let b = v[i].1.clone();
        let ghost before = out@;
        out.push((a, b));
        assert(out@ == before.push((a, b)));
        assert(a@ == v@[i as int].0@ && b@ == v@[i as int].1@);
        assert(pairs_view(out@)[i as int] == pairs_view(v@)[i as int]);
        assert(pairs_view(out@) =~= pairs_view(v@).take(i + 1));
        i += 1;
    }
    assert(pairs_view(v@).take(v.len() as int) =~= pairs_view(v@));
    out
}

/// A copy of a unit.
pub fn copy_item(x: &Item) -> (r: Item)
    ensures
        item_view(r) == item_view(*x),
{
    Item {
        id: x.id.clone(),
        entry_id: x.entry_id.clone(),
        path: x.path.clone(),
        source: x.source.clone(),
        protected: x.protected.clone(),
        tokens: copy_pairs(&x.tokens),
    }
}

// ---------------------------------------------------------------------------
// What each answer of the provider makes of its units.

/// The status of the units of a request that failed with `code`.
pub open spec fn failure_status(code: ErrorCode) -> Seq<char> {
    if code == ErrorCode::RateLimited { "rate_limited"@ } else { "request_failed"@ }
}

/// What the provider answered for a batch: the translated text of each unit
/// by its id, or the status of the failed request.
pub open spec fn answer_view(a: Result<Vec<(String, String)>, AppError>) -> Result<Seq<(Seq<char>, Seq<char>)>, Seq<char>> {
    match a {
        Ok(v) => Ok(pairs_view(v@)),
        Err(e) => Err(failure_status(e.code)),
    }
}

/// The text a unit comes back with (its placeholders restored), or the
/// status that marks it as failed: a failed request, or an answer whose
/// placeholders were changed. A unit missing from the answer keeps its
/// protected text.
pub open spec fn unit_outcome(x: ItemView, answer: Result<Seq<(Seq<char>, Seq<char>)>, Seq<char>>) -> Result<Seq<char>, Seq<char>> {
    match answer {
        Err(status) => Err(status),
        Ok(map) => {
            let raw = match lookup(map, x.id) {
                Some(t) => t,
                None => x.protected,
            };
            match restored(raw, x.tokens) {
                Ok(t) => Ok(t),
                Err(_) => Err("format_guard"@),
            }
        },
    }
}

/// The text that the run keeps for a unit: the translation, or the source
/// when the unit failed.
pub open spec fn kept_text(x: ItemView, answer: Result<Seq<(Seq<char>, Seq<char>)>, Seq<char>>) -> Seq<char> {
    match unit_outcome(x, answer) {
        Ok(t) => t,
        Err(_) => x.source,
    }
}

/// What the application reports while a batch is taken in.
pub enum Event {
    /// A unit was translated.
    Preview { entry_id: String, source: String, target: String },
    /// One more unit is done; `stage` is `translating` or the failure status.
    Progress { stage: String, done: usize },
}

pub enum EventView {
    Preview(Seq<char>, Seq<char>, Seq<char>),
    Progress(Seq<char>, nat),
}

impl View for Event {
    type V = EventView;

    open spec fn view(&self) -> EventView {
        match self {
            Event::Preview { entry_id, source, target } => EventView::Preview(entry_id@, source@, target@),
            Event::Progress { stage, done } => EventView::Progress(stage@, *done as nat),
        }
    }
}

pub open spec fn events_view(v: Seq<Event>) -> Seq<EventView> {
    v.map_values(|e: Event| e@)
}

/// The events of the units of `batch`, when `done` units were done before it.
pub open spec fn batch_events(batch: Seq<ItemView>, answer: Result<Seq<(Seq<char>, Seq<char>)>, Seq<char>>, done: nat) -> Seq<EventView>
    decreases batch.len(),
{
    if batch.len() == 0 {
        Seq::empty()
    } else {
        let x = batch.last();
        let n = done + batch.len();
        batch_events(batch.drop_last(), answer, done) + match unit_outcome(x, answer) {
            Ok(t) => seq![EventView::Preview(x.entry_id, x.source, t), EventView::Progress("translating"@, n)],
            Err(s) => seq![EventView::Progress(s, n)],
        }
    }
}

/// The failed units of `batch`, in order.
pub open spec fn failed_of(batch: Seq<ItemView>, answer: Result<Seq<(Seq<char>, Seq<char>)>, Seq<char>>) -> Seq<ItemView> {
    batch.filter(|x: ItemView| unit_outcome(x, answer) is Err)
}

/// What the provider's answers have made of the units so far.
pub struct Tally {
    /// Each unit's id with the text kept for it, in the order they were taken in.
    pub unit_results: Vec<(String, String)>,
    /// The units that failed.
    pub failed_units: Vec<String>,
    /// The entries of the units that failed.
    pub failed_entries: Vec<String>,
    /// The entry of each failed unit with its status; the latest one of an entry counts.
    pub failure_statuses: Vec<(String, String)>,
}


impl Tally {
    /// Nothing taken in yet.
    pub fn new() -> (t: Self)
        ensures
            t.unit_results@.len() == 0,
            t.failed_units@.len() == 0,
            t.failed_entries@.len() == 0,
            t.failure_statuses@.len() == 0,
    {
        Tally { unit_results: Vec::new(), failed_units: Vec::new(), failed_entries: Vec::new(), failure_statuses: Vec::new() }
    }

    /// Takes in the provider's answer for `batch`: each unit, in order, gets
    /// its translation or, when it failed, its source, and a failed unit is
    /// recorded with its entry and status. Returns what to report.
    pub fn absorb(&mut self, batch: &Vec<Item>, answer: &Result<Vec<(String, String)>, AppError>) -> (events: Vec<Event>)
        requires
            old(self).unit_results@.len() + batch@.len() <= usize::MAX,
        ensures
            ({
                let b = items_view(batch@);
                let a = answer_view(*answer);
                let fails = failed_of(b, a);
                &&& pairs_view(final(self).unit_results@) == pairs_view(old(self).unit_results@) + b.map_values(
                    |x: ItemView| (x.id, kept_text(x, a)),
                )
                &&& strings_view(final(self).failed_units@) == strings_view(old(self).failed_units@) + fails.map_values(
                    |x: ItemView| x.id,
                )
                &&& strings_view(final(self).failed_entries@) == strings_view(old(self).failed_entries@) + fails.map_values(
                    |x: ItemView| x.entry_id,
                )
                &&& pairs_view(final(self).failure_statuses@) == pairs_view(old(self).failure_statuses@) + fails.map_values(
                    |x: ItemView| (x.entry_id, unit_outcome(x, a)->Err_0),
                )
                &&& events_view(events@) == batch_events(b, a, old(self).unit_results@.len() as nat)
            }),
    {
        let ghost b = items_view(batch@);
        let ghost a = answer_view(*answer);
        let ghost r0 = pairs_view(self.unit_results@);
        let ghost u0 = strings_view(self.failed_units@);
        let ghost e0 = strings_view(self.failed_entries@);
        let ghost s0 = pairs_view(self.failure_statuses@);
        let ghost n0 = self.unit_results@.len() as nat;
        let mut events: Vec<Event> = Vec::new();
        let failed_status: Option<&'static str> = match answer {
            Ok(_) => None,
            Err(e) => Some(crate::scan::request_failure_status(e)),
        };
        let mut k: usize = 0;
        while k < batch.len()
            invariant
                k <= batch.len(),
                b == items_view(batch@),
                a == answer_view(*answer),
                n0 + batch@.len() <= usize::MAX,
                match answer {
                    Ok(_) => failed_status is None,
                    Err(e) => failed_status matches Some(s) && s@ == failure_status(e.code),
                },
                pairs_view(self.unit_results@) == r0 + b.take(k as int).map_values(|x: ItemView| (x.id, kept_text(x, a))),
                strings_view(self.failed_units@) == u0 + failed_of(b.take(k as int), a).map_values(|x: ItemView| x.id),
                strings_view(self.failed_entries@) == e0 + failed_of(b.take(k as int), a).map_values(
                    |x: ItemView| x.entry_id,
                ),
                pairs_view(self.failure_statuses@) == s0 + failed_of(b.take(k as int), a).map_values(
                    |x: ItemView| (x.entry_id, unit_outcome(x, a)->Err_0),
                ),
                self.unit_results@.len() == n0 + k,
                events_view(events@) == batch_events(b.take(k as int), a, n0),
            decreases batch.len() - k,
        {
            let x = &batch[k];
            let ghost xv = item_view(*x);
            assert(b[k as int] == xv);
            let outcome: Result<String, String> = match answer {
                Err(_) => match failed_status {
                    Some(s) => Err(crate::text::owned(s)),
                    None => Err(String::new()),
                },
                Ok(map) => {
                    let raw = match crate::entries::lookup_exec(map, x.id.as_str()) {
                        Some(t) => t,
                        None => x.protected.clone(),
                    };
                    match restore(raw.as_str(), &x.tokens) {
                        Ok(t) => Ok(t),
                        Err(_) => Err(crate::text::owned("format_guard")),
                    }
                },
            };
            assert(match (outcome, unit_outcome(xv, a)) {
                (Ok(t), Ok(u)) => t@ == u,
                (Err(t), Err(u)) => t@ == u,
                _ => false,
            });
            let ghost t1 = b.take(k + 1);
            proof {
                assert(t1.drop_last() =~= b.take(k as int));
                assert(t1.last() == xv);
                reveal(Seq::filter);
                assert(failed_of(t1, a) == if unit_outcome(xv, a) is Err {
                    failed_of(b.take(k as int), a).push(xv)
                } else {
                    failed_of(b.take(k as int), a)
                });
            }
            let ghost rv0 = pairs_view(self.unit_results@);
            let ghost uv0 = strings_view(self.failed_units@);
            let ghost ev0 = strings_view(self.failed_entries@);
            let ghost sv0 = pairs_view(self.failure_statuses@);
            let ghost evs0 = events_view(events@);
            match outcome {
                Ok(t) => {
                    let done = self.unit_results.len() + 1;
                    events.push(Event::Preview { entry_id: x.entry_id.clone(), source: x.source.clone(), target: t.clone() });
                    events.push(Event::Progress { stage: crate::text::owned("translating"), done });
                    self.unit_results.push((x.id.clone(), t));
                    assert(pairs_view(self.unit_results@) =~= rv0.push((xv.id, kept_text(xv, a))));
                    assert(strings_view(self.failed_units@) =~= uv0);
                    assert(strings_view(self.failed_entries@) =~= ev0);
                    assert(pairs_view(self.failure_statuses@) =~= sv0);
                },
                Err(status) => {
                    self.failed_entries.push(x.entry_id.clone());
                    self.failure_statuses.push((x.entry_id.clone(), status.clone()));
                    self.failed_units.push(x.id.clone());
                    self.unit_results.push((x.id.clone(), x.source.clone()));
                    let done = self.unit_results.len();
                    events.push(Event::Progress { stage: status, done });
                    assert(pairs_view(self.unit_results@) =~= rv0.push((xv.id, kept_text(xv, a))));
                    assert(strings_view(self.failed_units@) =~= uv0.push(xv.id));
                    assert(strings_view(self.failed_entries@) =~= ev0.push(xv.entry_id));
                    assert(pairs_view(self.failure_statuses@) =~= sv0.push((xv.entry_id, unit_outcome(xv, a)->Err_0)));
                },
            }
            k += 1;
            proof {
                assert(t1.map_values(|x: ItemView| (x.id, kept_text(x, a))) =~= b.take(k - 1).map_values(
                    |x: ItemView| (x.id, kept_text(x, a)),
                ).push((xv.id, kept_text(xv, a))));
                assert(pairs_view(self.unit_results@) =~= r0 + t1.map_values(|x: ItemView| (x.id, kept_text(x, a))));
                assert(strings_view(self.failed_units@) =~= u0 + failed_of(t1, a).map_values(|x: ItemView| x.id));
                assert(strings_view(self.failed_entries@) =~= e0 + failed_of(t1, a).map_values(|x: ItemView| x.entry_id));
                assert(pairs_view(self.failure_statuses@) =~= s0 + failed_of(t1, a).map_values(
                    |x: ItemView| (x.entry_id, unit_outcome(x, a)->Err_0),
                ));
                assert(events_view(events@) =~= batch_events(t1, a, n0));
            }
        }
        assert(b.take(batch.len() as int) =~= b);
        events
    }
}

// ---------------------------------------------------------------------------
// The settings of a run.

/// The free web services translate without a glossary, with automatic batch
/// sizes and concurrency.
pub fn fit_to_provider(settings: &mut Settings)
    ensures
        web_provider(old(settings).provider@) ==> ({
            &&& final(settings).provider == old(settings).provider
            &&& !final(settings).glossary_enabled
            &&& final(settings).batch_size@ == "auto"@
            &&& final(settings).concurrency@ == "auto"@
            &&& final(settings).api_key == old(settings).api_key
            &&& final(settings).base_url == old(settings).base_url
            &&& final(settings).model == old(settings).model
            &&& final(settings).style == old(settings).style
            &&& final(settings).glossary_path == old(settings).glossary_path
            &&& final(settings).glossary_fingerprint == old(settings).glossary_fingerprint
            &&& final(settings).has_api_key == old(settings).has_api_key
            &&& final(settings).credential_backend == old(settings).credential_backend
        }),
        !web_provider(old(settings).provider@) ==> *final(settings) == *old(settings),
{
    if !requires_api_key(settings.provider.as_str()) {
        settings.glossary_enabled = false;
        settings.batch_size = crate::text::owned("auto");
        settings.concurrency = crate::text::owned("auto");
    }
}

/// How many batches run at once: the setting (6 for `auto`), at most 12, and
/// at most what the provider allows.
pub open spec fn concurrency_of(setting: Seq<char>, provider: Seq<char>) -> Option<nat> {
    match auto_value(setting, 6) {
        None => None,
        Some(n) => {
            let m = if n < 12 { n } else { 12 };
            Some(if web_provider(provider) && m > 1 { 1 } else { m })
        },
    }
}

/// The number of batches that run at once.
pub fn concurrency(setting: &str, provider: &str) -> (r: Result<usize, String>)
    ensures
        match concurrency_of(setting@, provider@) {
            Some(n) => r == Ok::<usize, String>(n as usize),
            None => r matches Err(m) && m@ == parse_auto_error(),
        },
{
    let n = match parse_auto(setting, 6) {
        Ok(n) => n,
        Err(m) => return Err(m),
    };
    let mut c = if n < 12 { n } else { 12 };
    match concurrency_limit(provider) {
        Some(limit) => {
            if limit < c {
                c = limit;
            }
        },
        None => {},
    }
    Ok(c)
}

// ---------------------------------------------------------------------------
// Batches.

/// The units of the batches, one batch after the other.
pub open spec fn joined_batches(bs: Seq<Vec<Item>>) -> Seq<ItemView>
    decreases bs.len(),
{
    if bs.len() == 0 {
        Seq::empty()
    } else {
        joined_batches(bs.drop_last()) + items_view(bs.last()@)
    }
}

/// Cuts the pending units into batches of `size`, the last one possibly
/// shorter, keeping their order.
pub fn batches(pending: &Vec<Item>, size: usize) -> (out: Vec<Vec<Item>>)
    requires
        size > 0,
    ensures
        joined_batches(out@) == items_view(pending@),
        forall|k: int| 0 <= k < out@.len() ==> 0 < (#[trigger] out@[k])@.len() <= size,
        forall|k: int| 0 <= k < out@.len() - 1 ==> (#[trigger] out@[k])@.len() == size,
{
    let mut out: Vec<Vec<Item>> = Vec::new();
    let mut current: Vec<Item> = Vec::new();
    let mut i: usize = 0;
    while i < pending.len()
        invariant
            i <= pending.len(),
            size > 0,
            current@.len() < size,
            joined_batches(out@) + items_view(current@) == items_view(pending@).take(i as int),
            forall|k: int| 0 <= k < out@.len() ==> (#[trigger] out@[k])@.len() == size,
        decreases pending.len() - i,
    {
        let ghost before = items_view(current@);
        current.push(copy_item(&pending[i]));
        assert(items_view(current@) =~= before.push(item_view(pending@[i as int])));
        assert(items_view(pending@).take(i + 1) =~= items_view(pending@).take(i as int).push(item_view(pending@[i as int])));
        if current.len() == size {
            let full = current;
            current = Vec::new();
            let ghost old_out = out@;
            out.push(full);
            assert(out@.drop_last() =~= old_out);
            assert(items_view(current@) =~= Seq::<ItemView>::empty());
        }
        i += 1;
    }
    if current.len() > 0 {
        let ghost old_out = out@;
        out.push(current);
        assert(out@.drop_last() =~= old_out);
    } else {
        assert(items_view(current@) =~= Seq::<ItemView>::empty());
    }
    assert(items_view(pending@).take(pending.len() as int) =~= items_view(pending@));
    out
}

// ---------------------------------------------------------------------------
// Retrying the rate-limited entries of an earlier CMP file.

/// Where a record goes.
pub open spec fn place_of(r: Record) -> (Seq<char>, Seq<char>) {
    (r.entry_id@, r.path@)
}

pub open spec fn rate_limited(r: Record) -> bool {
    r.status@ == "rate_limited"@
}

/// The places of the rate-limited records, in order.
pub fn retry_locations(records: &Vec<Record>) -> (out: Vec<(String, String)>)
    ensures
        pairs_view(out@) == records@.filter(|r: Record| rate_limited(r)).map_values(|r: Record| place_of(r)),
{
    let mut out: Vec<(String, String)> = Vec::new();
    let mut i: usize = 0;
    while i < records.len()
        invariant
            i <= records.len(),
            pairs_view(out@) == records@.take(i as int).filter(|r: Record| rate_limited(r)).map_values(
                |r: Record| place_of(r),
            ),
        decreases records.len() - i,
    {
        let r = &records[i];
        proof {
            reveal(Seq::filter);
            assert(records@.take(i + 1).drop_last() =~= records@.take(i as int));
        }
        if str_eq(r.status.as_str(), "rate_limited") {
            let ghost before = pairs_view(out@);
            out.push((r.entry_id.clone(), r.path.clone()));
            assert(pairs_view(out@) =~= before.push(place_of(*r)));
        }
        i += 1;
    }
    assert(records@.take(records.len() as int) =~= records@);
    out
}

/// The place is one of `places`.
pub open spec fn listed(places: Seq<(Seq<char>, Seq<char>)>, p: (Seq<char>, Seq<char>)) -> bool {
    places.contains(p)
}

fn listed_exec(places: &Vec<(String, String)>, entry_id: &str, path: &str) -> (b: bool)
    ensures
        b == listed(pairs_view(places@), (entry_id@, path@)),
{
    let mut i: usize = 0;
    while i < places.len()
        invariant
            i <= places.len(),
            forall|j: int| 0 <= j < i ==> pairs_view(places@)[j] != (entry_id@, path@),
        decreases places.len() - i,
    {
        if str_eq(places[i].0.as_str(), entry_id) && str_eq(places[i].1.as_str(), path) {
            assert(pairs_view(places@)[i as int] == (entry_id@, path@));
            return true;
        }
        i += 1;
    }
    false
}

/// The last record of `rs` at the place `p`.
pub open spec fn last_at(rs: Seq<Record>, p: (Seq<char>, Seq<char>)) -> Option<Record>
    decreases rs.len(),
{
    if rs.len() == 0 {
        None
    } else if place_of(rs.last()) == p {
        Some(rs.last())
    } else {
        last_at(rs.drop_last(), p)
    }
}

/// What a retry keeps of a record of the earlier file: at a retried place
/// the newly made record for it, if there is one; elsewhere the record itself.
pub open spec fn merged(r: Record, generated: Seq<Record>, places: Seq<(Seq<char>, Seq<char>)>) -> Record {
    if listed(places, place_of(r)) {
        match last_at(generated, place_of(r)) {
            Some(g) => g,
            None => r,
        }
    } else {
        r
    }
}

fn last_at_exec(rs: &Vec<Record>, entry_id: &str, path: &str) -> (r: Option<usize>)
    ensures
        match last_at(rs@, (entry_id@, path@)) {
            Some(g) => r matches Some(k) && k < rs@.len() && rs@[k as int] == g,
            None => r is None,
        },
{
    let mut i: usize = rs.len();
    assert(rs@.take(i as int) =~= rs@);
    while i > 0
        invariant
            i <= rs.len(),
            last_at(rs@, (entry_id@, path@)) == last_at(rs@.take(i as int), (entry_id@, path@)),
        decreases i,
    {
        let r = &rs[i - 1];
        assert(rs@.take(i as int).drop_last() =~= rs@.take(i - 1));
        assert(rs@.take(i as int).last() == rs@[i - 1]);
        if str_eq(r.entry_id.as_str(), entry_id) && str_eq(r.path.as_str(), path) {
            return Some(i - 1);
        }
        i -= 1;
    }
    None
}

fn copy_record(r: &Record) -> (c: Record)
    ensures
        c == *r,
{
    Record {
        file: r.file.clone(),
        entry_id: r.entry_id.clone(),
        path: r.path.clone(),
        source: r.source.clone(),
        target: r.target.clone(),
        status: r.status.clone(),
    }
}

/// The records of a retried file: the earlier records in their order, the
/// retried places filled by the newly made records.
pub fn merge_retry(previous: &Vec<Record>, generated: &Vec<Record>, places: &Vec<(String, String)>) -> (out: Vec<Record>)
    ensures
        out@ == previous@.map_values(|r: Record| merged(r, generated@, pairs_view(places@))),
{
    let mut out: Vec<Record> = Vec::new();
    let mut i: usize = 0;
    while i < previous.len()
        invariant
            i <= previous.len(),
            out@ == previous@.take(i as int).map_values(|r: Record| merged(r, generated@, pairs_view(places@))),
        decreases previous.len() - i,
    {
        let r = &previous[i];
        let kept = if listed_exec(places, r.entry_id.as_str(), r.path.as_str()) {
            match last_at_exec(generated, r.entry_id.as_str(), r.path.as_str()) {
                Some(k) => copy_record(&generated[k]),
                None => copy_record(r),
            }
        } else {
            copy_record(r)
        };
        out.push(kept);
        assert(out@ =~= previous@.take(i + 1).map_values(|r: Record| merged(r, generated@, pairs_view(places@))));
        i += 1;
    }
    assert(previous@.take(previous.len() as int) =~= previous@);
    out
}

// ---------------------------------------------------------------------------
// Which units go to the provider.

/// The unit ids of an entry, in order.
pub open spec fn unit_ids(e: Entry) -> Seq<Seq<char>> {
    match e.kind {
        EntryKind::Plain(u) => seq![u@],
        EntryKind::Untouched(_) => Seq::empty(),
        EntryKind::RichText { units, .. } => pairs_view(units@).map_values(|p: (Seq<char>, Seq<char>)| p.1),
    }
}

/// The last unit of `items` with the id `id`.
pub open spec fn item_with(items: Seq<ItemView>, id: Seq<char>) -> Option<ItemView>
    decreases items.len(),
{
    if items.len() == 0 {
        None
    } else if items.last().id == id {
        Some(items.last())
    } else {
        item_with(items.drop_last(), id)
    }
}

/// The units named by `ids` that `items` holds, in the order of `ids`.
pub open spec fn units_named(items: Seq<ItemView>, ids: Seq<Seq<char>>) -> Seq<ItemView>
    decreases ids.len(),
{
    if ids.len() == 0 {
        Seq::empty()
    } else {
        units_named(items, ids.drop_last()) + match item_with(items, ids.last()) {
            Some(x) => seq![x],
            None => Seq::empty(),
        }
    }
}

/// The plan of a run, by value.
pub struct PlanView {
    pub results: Seq<(Seq<char>, Seq<char>)>,
    pub pending: Seq<ItemView>,
    pub hits: nat,
}

/// What the first entries give: an entry without units keeps its source, an
/// entry found in the cache (`cached`, by the entry's index) takes the cached
/// text, and the units of the others wait for the provider.
pub open spec fn planned(entries: Seq<Entry>, items: Seq<ItemView>, cached: Seq<Option<Seq<char>>>) -> PlanView
    decreases entries.len(),
{
    if entries.len() == 0 {
        PlanView { results: Seq::empty(), pending: Seq::empty(), hits: 0 }
    } else {
        let p = planned(entries.drop_last(), items, cached);
        let e = entries.last();
        if unit_ids(e).len() == 0 {
            PlanView { results: p.results.push((e.id@, e.source@)), ..p }
        } else {
            match cached[entries.len() - 1] {
                Some(v) => PlanView { results: p.results.push((e.id@, v)), hits: p.hits + 1, ..p },
                None => PlanView { pending: p.pending + units_named(items, unit_ids(e)), ..p },
            }
        }
    }
}

/// A retry sends only the units at the retried places.
pub open spec fn retried(pending: Seq<ItemView>, places: Seq<(Seq<char>, Seq<char>)>) -> Seq<ItemView> {
    if places.len() == 0 {
        pending
    } else {
        pending.filter(|x: ItemView| listed(places, (x.entry_id, x.path)))
    }
}

/// The outcome of planning a run.
pub struct Plan {
    /// The entries settled without the provider, with their text.
    pub results: Vec<(String, String)>,
    /// The units to send.
    pub pending: Vec<Item>,
    /// How many entries were found in the cache.
    pub hits: usize,
}

fn unit_ids_exec(e: &Entry) -> (r: Vec<String>)
    ensures
        strings_view(r@) == unit_ids(*e),
{
    let mut r: Vec<String> = Vec::new();
    match &e.kind {
        EntryKind::Plain(u) => {
            r.push(u.clone());
            assert(strings_view(r@) =~= seq![u@]);
        },
        EntryKind::Untouched(_) => {
            assert(strings_view(r@) =~= Seq::<Seq<char>>::empty());
        },
        EntryKind::RichText { units, .. } => {
            let mut k: usize = 0;
            while k < units.len()
                invariant
                    k <= units.len(),
                    r@.len() == k,
                    strings_view(r@) == pairs_view(units@).take(k as int).map_values(|p: (Seq<char>, Seq<char>)| p.1),
                decreases units.len() - k,
            {
                let ghost before = strings_view(r@);
                let u = units[k].1.clone();
                r.push(u);
                assert(strings_view(r@) =~= before.push(pairs_view(units@)[k as int].1));
                assert(strings_view(r@) =~= pairs_view(units@).take(k + 1).map_values(|p: (Seq<char>, Seq<char>)| p.1));
                k += 1;
            }
            assert(pairs_view(units@).take(units.len() as int) =~= pairs_view(units@));
        },
    }
    r
}

fn item_with_exec(items: &Vec<Item>, id: &str) -> (r: Option<usize>)
    ensures
        match item_with(items_view(items@), id@) {
            Some(x) => r matches Some(k) && k < items@.len() && item_view(items@[k as int]) == x,
            None => r is None,
        },
{
    let ghost iv = items_view(items@);
    let mut i: usize = items.len();
    assert(iv.take(i as int) =~= iv);
    while i > 0
        invariant
            i <= items.len(),
            iv == items_view(items@),
            item_with(iv, id@) == item_with(iv.take(i as int), id@),
        decreases i,
    {
        assert(iv.take(i as int).drop_last() =~= iv.take(i - 1));
        assert(iv.take(i as int).last() == item_view(items@[i - 1]));
        if str_eq(items[i - 1].id.as_str(), id) {
            return Some(i - 1);
        }
        i -= 1;
    }
    None
}

/// Decides, entry by entry, which entries are settled at once and which
/// units go to the provider; `cached` holds, by entry index, the text the
/// cache has for the entry; `places`, when not empty, limits the units sent
/// to those of a retry.
pub fn plan(entries: &Vec<Entry>, items: &Vec<Item>, cached: &Vec<Option<String>>, places: &Vec<(String, String)>) -> (p: Plan)
    requires
        cached@.len() == entries@.len(),
    ensures
        ({
            let want = planned(entries@, items_view(items@), cached@.map_values(|c: Option<String>| match c {
                Some(s) => Some(s@),
                None => None,
            }));
            &&& pairs_view(p.results@) == want.results
            &&& items_view(p.pending@) == retried(want.pending, pairs_view(places@))
            &&& p.hits == want.hits
        }),
{
    let ghost iv = items_view(items@);
    let ghost cv = cached@.map_values(|c: Option<String>| match c {
        Some(s) => Some(s@),
        None => None,
    });
    let mut results: Vec<(String, String)> = Vec::new();
    let mut pending: Vec<Item> = Vec::new();
    let mut hits: usize = 0;
    let mut i: usize = 0;
    while i < entries.len()
        invariant
            i <= entries.len(),
            cached@.len() == entries@.len(),
            iv == items_view(items@),
            cv == cached@.map_values(|c: Option<String>| match c {
                Some(s) => Some(s@),
                None => None,
            }),
            hits <= i,
            ({
                let w = planned(entries@.take(i as int), iv, cv);
                &&& pairs_view(results@) == w.results
                &&& items_view(pending@) == w.pending
                &&& hits == w.hits
            }),
        decreases entries.len() - i,
    {
        let e = &entries[i];
        let ghost t = entries@.take(i + 1);
        proof {
            assert(t.drop_last() =~= entries@.take(i as int));
            assert(t.last() == *e);
        }
        let ids = unit_ids_exec(e);
        if ids.len() == 0 {
            let ghost before = pairs_view(results@);
            results.push((e.id.clone(), e.source.clone()));
            assert(pairs_view(results@) =~= before.push((e.id@, e.source@)));
        } else {
            assert(cv[i as int] == match cached@[i as int] {
                Some(s) => Some(s@),
                None => None::<Seq<char>>,
            });
            match &cached[i] {
                Some(v) => {
                    let ghost before = pairs_view(results@);
                    results.push((e.id.clone(), v.clone()));
                    assert(pairs_view(results@) =~= before.push((e.id@, v@)));
                    hits += 1;
                },
                None => {
                    let ghost base = items_view(pending@);
                    let mut k: usize = 0;
                    while k < ids.len()
                        invariant
                            k <= ids.len(),
                            iv == items_view(items@),
                            items_view(pending@) == base + units_named(iv, strings_view(ids@).take(k as int)),
                        decreases ids.len() - k,
                    {
                        let ghost tk = strings_view(ids@).take(k + 1);
                        assert(tk.drop_last() =~= strings_view(ids@).take(k as int));
                        assert(tk.last() == ids@[k as int]@);
                        let ghost before = items_view(pending@);
                        match item_with_exec(items, ids[k].as_str()) {
                            Some(j) => {
                                pending.push(copy_item(&items[j]));
                                assert(items_view(pending@) =~= before.push(item_view(items@[j as int])));
                            },
                            None => {},
                        }
                        assert(items_view(pending@) =~= base + units_named(iv, tk));
                        k += 1;
                    }
                    assert(strings_view(ids@).take(ids.len() as int) =~= unit_ids(*e));
                },
            }
        }
        i += 1;
    }
    assert(entries@.take(entries.len() as int) =~= entries@);
    if places.len() > 0 {
        let ghost all = items_view(pending@);
        let mut kept: Vec<Item> = Vec::new();
        let mut k: usize = 0;
        while k < pending.len()
            invariant
                k <= pending.len(),
                all == items_view(pending@),
                items_view(kept@) == all.take(k as int).filter(|x: ItemView| listed(pairs_view(places@), (x.entry_id, x.path))),
            decreases pending.len() - k,
        {
            proof {
                reveal(Seq::filter);
                assert(all.take(k + 1).drop_last() =~= all.take(k as int));
                assert(all.take(k + 1).last() == item_view(pending@[k as int]));
            }
            if listed_exec(places, pending[k].entry_id.as_str(), pending[k].path.as_str()) {
                let ghost before = items_view(kept@);
                kept.push(copy_item(&pending[k]));
                assert(items_view(kept@) =~= before.push(item_view(pending@[k as int])));
            }
            k += 1;
        }
        assert(all.take(pending.len() as int) =~= all);
        pending = kept;
    }
    Plan { results, pending, hits }
}

// ---------------------------------------------------------------------------
// Settling each entry once the provider is done.

/// The text an entry has after the provider: the text settled at planning,
/// else its units put back together, else (when that fails) its source.
pub open spec fn entry_text(e: Entry, settled: Seq<(Seq<char>, Seq<char>)>, units: Seq<(Seq<char>, Seq<char>)>) -> (Seq<char>, bool) {
    match lookup(settled, e.id@) {
        Some(t) => (t, false),
        None => match rendered_entry(e, units) {
            Ok(t) => (t, false),
            Err(_) => (e.source@, true),
        },
    }
}

/// The text of an entry after the provider, and whether putting it back
/// together failed.
pub fn text_of_entry(e: &Entry, settled: &Vec<(String, String)>, units: &Vec<(String, String)>) -> (r: (String, bool))
    ensures
        (r.0@, r.1) == entry_text(*e, pairs_view(settled@), pairs_view(units@)),
{
    match lookup_exec(settled, e.id.as_str()) {
        Some(t) => (t, false),
        None => match render_entry(e, units) {
            Ok(t) => (t, false),
            Err(_) => (e.source.clone(), true),
        },
    }
}

/// How an entry ends a run.
pub struct Concluded {
    /// The text the CMP file proposes.
    pub text: String,
    /// Why the entry needs review, if it does.
    pub warnings: Vec<String>,
    /// The entry failed: left untouched, or not put back together.
    pub failed: bool,
    /// The translation to remember in the cache, if any.
    pub cache: Option<String>,
}

/// An entry left untouched keeps its text and its reason; a translation
/// that the format guard warns about falls back to the source; any other
/// translation that differs from the source goes to the cache.
pub fn settle(e: &Entry, text: String, render_failed: bool, warnings: Vec<String>) -> (c: Concluded)
    ensures
        e.kind matches EntryKind::Untouched(reason) ==> ({
            &&& c.text@ == text@
            &&& strings_view(c.warnings@) == seq![reason@]
            &&& c.failed
            &&& c.cache is None
        }),
        !(e.kind is Untouched) && warnings@.len() > 0 ==> ({
            &&& c.text@ == e.source@
            &&& strings_view(c.warnings@) == strings_view(warnings@)
            &&& c.failed == render_failed
            &&& c.cache is None
        }),
        !(e.kind is Untouched) && warnings@.len() == 0 ==> ({
            &&& c.text@ == text@
            &&& c.warnings@.len() == 0
            &&& c.failed == render_failed
            &&& if text@ != e.source@ { c.cache matches Some(t) && t@ == text@ } else { c.cache is None }
        }),
{
    match &e.kind {
        EntryKind::Untouched(reason) => {
            let mut w: Vec<String> = Vec::new();
            w.push(reason.clone());
            assert(strings_view(w@) =~= seq![reason@]);
            Concluded { text, warnings: w, failed: true, cache: None }
        },
        _ => {
            if warnings.len() > 0 {
                Concluded { text: e.source.clone(), warnings, failed: render_failed, cache: None }
            } else if str_eq(text.as_str(), e.source.as_str()) {
                Concluded { text, warnings, failed: render_failed, cache: None }
            } else {
                let kept = text.clone();
                Concluded { text, warnings, failed: render_failed, cache: Some(kept) }
            }
        },
    }
}

// ---------------------------------------------------------------------------
// The records of the CMP file of a run.

/// The index of the last entry with the id `id`.
pub open spec fn entry_at(entries: Seq<Entry>, id: Seq<char>) -> Option<int>
    decreases entries.len(),
{
    if entries.len() == 0 {
        None
    } else if entries.last().id@ == id {
        Some(entries.len() - 1)
    } else {
        entry_at(entries.drop_last(), id)
    }
}

/// The latest status recorded for the entry `id`.
pub open spec fn latest_status(statuses: Seq<(Seq<char>, Seq<char>)>, id: Seq<char>) -> Option<Seq<char>>
    decreases statuses.len(),
{
    if statuses.len() == 0 {
        None
    } else if statuses.last().0 == id {
        Some(statuses.last().1)
    } else {
        latest_status(statuses.drop_last(), id)
    }
}

/// The target of a unit: the entry's text for plain text, the string at the
/// unit's place in the entry's component, or the source of an untouched entry.
pub open spec fn unit_target(e: Entry, x: ItemView, text: Seq<char>, doc: Option<Document>) -> Option<Seq<char>> {
    match e.kind {
        EntryKind::Plain(_) => Some(text),
        EntryKind::Untouched(_) => Some(x.source),
        EntryKind::RichText { .. } => match doc {
            Some(d) => match json_at(d.value_spec(), x.path) {
                Some(JsonView::Str(t)) => Some(t),
                _ => None,
            },
            None => None,
        },
    }
}

/// The status of a unit's record: the failure status of its entry, else
/// `review` for an entry that warned or failed, else whether it changed.
pub open spec fn unit_status(x: ItemView, target: Seq<char>, flagged: bool, status: Option<Seq<char>>) -> Seq<char> {
    match status {
        Some(s) => s,
        None => if flagged {
            "review"@
        } else if target == x.source {
            "unchanged"@
        } else {
            "translated"@
        },
    }
}

/// The record of one unit, or why it cannot be made.
pub open spec fn unit_record(
    mode: Seq<char>,
    entries: Seq<Entry>,
    x: ItemView,
    texts: Seq<Seq<char>>,
    flagged: Seq<bool>,
    statuses: Seq<(Seq<char>, Seq<char>)>,
    docs: Seq<Option<Document>>,
) -> Result<RecordView, Seq<char>> {
    match entry_at(entries, x.entry_id) {
        None => Err("找不到 CMP 条目 "@ + x.entry_id),
        Some(i) => match unit_target(entries[i], x, texts[i], docs[i]) {
            None => Err("无法从 JSON 富文本读取 CMP 回填位置："@ + x.path),
            Some(t) => Ok(RecordView {
                file: source_file(mode, x.entry_id),
                entry_id: x.entry_id,
                path: x.path,
                source: x.source,
                target: t,
                status: unit_status(x, t, flagged[i], latest_status(statuses, x.entry_id)),
            }),
        },
    }
}

/// The records of the units, in order, or the first reason one cannot be made.
pub open spec fn unit_records(
    mode: Seq<char>,
    entries: Seq<Entry>,
    items: Seq<ItemView>,
    texts: Seq<Seq<char>>,
    flagged: Seq<bool>,
    statuses: Seq<(Seq<char>, Seq<char>)>,
    docs: Seq<Option<Document>>,
) -> Result<Seq<RecordView>, Seq<char>>
    decreases items.len(),
{
    if items.len() == 0 {
        Ok(Seq::empty())
    } else {
        match unit_records(mode, entries, items.drop_last(), texts, flagged, statuses, docs) {
            Err(m) => Err(m),
            Ok(rs) => match unit_record(mode, entries, items.last(), texts, flagged, statuses, docs) {
                Err(m) => Err(m),
                Ok(r) => Ok(rs.push(r)),
            },
        }
    }
}

proof fn lemma_records_err(
    mode: Seq<char>,
    entries: Seq<Entry>,
    items: Seq<ItemView>,
    texts: Seq<Seq<char>>,
    flagged: Seq<bool>,
    statuses: Seq<(Seq<char>, Seq<char>)>,
    docs: Seq<Option<Document>>,
    j: int,
)
    requires
        0 <= j <= items.len(),
        unit_records(mode, entries, items.take(j), texts, flagged, statuses, docs) is Err,
    ensures
        unit_records(mode, entries, items, texts, flagged, statuses, docs) == unit_records(
            mode,
            entries,
            items.take(j),
            texts,
            flagged,
            statuses,
            docs,
        ),
    decreases items.len() - j,
{
    if j < items.len() {
        assert(items.take(j + 1).drop_last() =~= items.take(j));
        lemma_records_err(mode, entries, items, texts, flagged, statuses, docs, j + 1);
    } else {
        assert(items.take(j) =~= items);
    }
}

fn entry_at_exec(entries: &Vec<Entry>, id: &str) -> (r: Option<usize>)
    ensures
        match entry_at(entries@, id@) {
            Some(i) => r matches Some(k) && k == i && 0 <= i < entries@.len(),
            None => r is None,
        },
{
    let mut i: usize = entries.len();
    assert(entries@.take(i as int) =~= entries@);
    while i > 0
        invariant
            i <= entries.len(),
            entry_at(entries@, id@) == entry_at(entries@.take(i as int), id@),
        decreases i,
    {
        assert(entries@.take(i as int).drop_last() =~= entries@.take(i - 1));
        assert(entries@.take(i as int).last() == entries@[i - 1]);
        if str_eq(entries[i - 1].id.as_str(), id) {
            assert(entry_at(entries@.take(i as int), id@) == Some(i - 1));
            return Some(i - 1);
        }
        i -= 1;
    }
    None
}

fn latest_status_exec(statuses: &Vec<(String, String)>, id: &str) -> (r: Option<String>)
    ensures
        match latest_status(pairs_view(statuses@), id@) {
            Some(s) => r matches Some(t) && t@ == s,
            None => r is None,
        },
{
    let ghost sv = pairs_view(statuses@);
    let mut i: usize = statuses.len();
    assert(sv.take(i as int) =~= sv);
    while i > 0
        invariant
            i <= statuses.len(),
            sv == pairs_view(statuses@),
            latest_status(sv, id@) == latest_status(sv.take(i as int), id@),
        decreases i,
    {
        assert(sv.take(i as int).drop_last() =~= sv.take(i - 1));
        assert(sv.take(i as int).last() == sv[i - 1]);
        if str_eq(statuses[i - 1].0.as_str(), id) {
            return Some(statuses[i - 1].1.clone());
        }
        i -= 1;
    }
    None
}

/// Makes the record of each unit: its file, place and source, the target
/// the run proposes, and its status. `texts`, `flagged` (warned or failed)
/// and `docs` (the component read from the text) are given by entry index;
/// `statuses` are the failure statuses of the run.
pub fn records_of_run(
    mode: &str,
    entries: &Vec<Entry>,
    items: &Vec<Item>,
    texts: &Vec<String>,
    flagged: &Vec<bool>,
    statuses: &Vec<(String, String)>,
    docs: &Vec<Option<Document>>,
) -> (r: Result<Vec<Record>, String>)
    requires
        texts@.len() == entries@.len(),
        flagged@.len() == entries@.len(),
        docs@.len() == entries@.len(),
    ensures
        match unit_records(mode@, entries@, items_view(items@), strings_view(texts@), flagged@, pairs_view(statuses@), docs@) {
            Ok(rs) => r matches Ok(v) && records_view(v@) == rs,
            Err(m) => r matches Err(e) && e@ == m,
        },
{
    let ghost iv = items_view(items@);
    let ghost tv = strings_view(texts@);
    let ghost sv = pairs_view(statuses@);
    let mut out: Vec<Record> = Vec::new();
    let mut k: usize = 0;
    assert(iv.take(0) =~= Seq::<ItemView>::empty());
    assert(records_view(out@) =~= Seq::<RecordView>::empty());
    while k < items.len()
        invariant
            k <= items.len(),
            texts@.len() == entries@.len(),
            flagged@.len() == entries@.len(),
            docs@.len() == entries@.len(),
            iv == items_view(items@),
            tv == strings_view(texts@),
            sv == pairs_view(statuses@),
            unit_records(mode@, entries@, iv.take(k as int), tv, flagged@, sv, docs@) == Ok::<Seq<RecordView>, Seq<char>>(
                records_view(out@),
            ),
        decreases items.len() - k,
    {
        let x = &items[k];
        let ghost xv = item_view(*x);
        let ghost t1 = iv.take(k + 1);
        assert(t1.drop_last() =~= iv.take(k as int));
        assert(t1.last() == xv);
        let eid = x.entry_id.as_str();
        assert(eid@ == xv.entry_id);
        let found_entry = entry_at_exec(entries, eid);
        let i = match found_entry {
            Some(i) => {
                assert(entry_at(entries@, xv.entry_id) == Some(i as int));
                i
            },
            None => {
                let mut m = String::new();
                push_str(&mut m, "找不到 CMP 条目 ");
                push_str(&mut m, x.entry_id.as_str());
                proof {
                    lemma_records_err(mode@, entries@, iv, tv, flagged@, sv, docs@, k + 1);
                }
                return Err(m);
            },
        };
        let e = &entries[i];
        assert(tv[i as int] == texts@[i as int]@);
        let target: String = match &e.kind {
            EntryKind::Plain(_) => texts[i].clone(),
            EntryKind::Untouched(_) => x.source.clone(),
            EntryKind::RichText { .. } => {
                let found = match &docs[i] {
                    Some(d) => d.text_at(x.path.as_str()),
                    None => None,
                };
                assert(entries@[i as int] == *e);
                assert(match unit_target(entries@[i as int], xv, tv[i as int], docs@[i as int]) {
                    Some(t) => found matches Some(f) && f@ == t,
                    None => found is None,
                });
                match found {
                    Some(t) => t,
                    None => {
                        let mut m = String::new();
                        push_str(&mut m, "无法从 JSON 富文本读取 CMP 回填位置：");
                        push_str(&mut m, x.path.as_str());
                        proof {
                            assert(entry_at(entries@, xv.entry_id) == Some(i as int));
                            assert(unit_record(mode@, entries@, xv, tv, flagged@, sv, docs@) is Err);
                            assert(unit_records(mode@, entries@, t1, tv, flagged@, sv, docs@) is Err);
                            lemma_records_err(mode@, entries@, iv, tv, flagged@, sv, docs@, k + 1);
                        }
                        return Err(m);
                    },
                }
            },
        };
        let status: String = match latest_status_exec(statuses, x.entry_id.as_str()) {
            Some(s) => s,
            None => if flagged[i] {
                crate::text::owned("review")
            } else if str_eq(target.as_str(), x.source.as_str()) {
                crate::text::owned("unchanged")
            } else {
                crate::text::owned("translated")
            },
        };
        let file = entry_source_file(mode, x.entry_id.as_str());
        let rec = Record {
            file,
            entry_id: x.entry_id.clone(),
            path: x.path.clone(),
            source: x.source.clone(),
            target,
            status,
        };
        let ghost before = records_view(out@);
        out.push(rec);
        assert(records_view(out@) =~= before.push(record_view(rec)));
        k += 1;
    }
    assert(iv.take(items.len() as int) =~= iv);
    Ok(out)
}

// ---------------------------------------------------------------------------
// The cache key of an entry.

/// `s` without the slashes at its end.
pub open spec fn without_trailing_slashes(s: Seq<char>) -> Seq<char>
    decreases s.len(),
{
    if s.len() > 0 && s.last() == '/' {
        without_trailing_slashes(s.drop_last())
    } else {
        s
    }
}

/// The model part of a cache key: the model of the OpenAI-compatible
/// provider, else the provider, the model and the base URL.
pub open spec fn cache_model(s: Settings) -> Seq<char> {
    if s.provider@ == "openai_compatible"@ {
        s.model@
    } else {
        s.provider@ + ":"@ + s.model@ + ":"@ + without_trailing_slashes(s.base_url@)
    }
}

/// The JSON object whose text the cache key hashes; `rich` for a source
/// that is a component with strings to translate.
pub open spec fn cache_json(source: Seq<char>, s: Settings, rich: bool) -> JsonView {
    let base = seq![
        ("source_text"@, JsonView::Str(source)),
        ("model"@, JsonView::Str(cache_model(s))),
        ("target_locale"@, JsonView::Str("zh_cn"@)),
        ("style"@, JsonView::Str(s.style@)),
    ];
    let glossary = if s.glossary_enabled {
        base + seq![
            ("glossary_enabled"@, JsonView::Bool(true)),
            ("glossary_fingerprint"@, JsonView::Str(s.glossary_fingerprint@)),
        ]
    } else {
        base
    };
    JsonView::Object(
        if rich {
            glossary.push(("rich_text_pipeline"@, JsonView::Str("display-fields-v1"@)))
        } else {
            glossary
        },
    )
}

/// The source is a component with strings to translate.
pub open spec fn rich_source(doc: Option<&Document>) -> bool {
    doc matches Some(d) && d.units_spec().len() > 0
}

/// `s` without the slashes at its end (`str::trim_end_matches('/')`).
pub fn trim_trailing_slashes(s: &str) -> (r: String)
    ensures
        r@ == without_trailing_slashes(s@),
{
    let v = chars_of(s);
    let mut n: usize = v.len();
    assert(v@.take(n as int) =~= s@);
    while n > 0 && v[n - 1] == '/'
        invariant
            n <= v@.len(),
            without_trailing_slashes(s@) == without_trailing_slashes(v@.take(n as int)),
        decreases n,
    {
        assert(v@.take(n as int).drop_last() =~= v@.take(n - 1));
        n -= 1;
    }
    assert(v@.subrange(0, n as int) =~= v@.take(n as int));
    string_of_range(&v, 0, n)
}

fn member(key: &str, value: Json) -> (m: Member)
    ensures
        m.key@ == key@,
        m.value == value,
{
    Member { key: crate::text::owned(key), value }
}

/// The key under which the translation of `source` is cached, for the
/// settings of a run; `doc` is the source read as a component, if it is one.
pub fn cache_key(source: &str, settings: &Settings, doc: Option<&Document>) -> (k: String)
    ensures
        k@ == hex_lower(sha256_of(encode_utf8(json_written(cache_json(source@, *settings, rich_source(doc)))))),
{
    let model = if str_eq(settings.provider.as_str(), "openai_compatible") {
        settings.model.clone()
    } else {
        let mut m = String::new();
        push_str(&mut m, settings.provider.as_str());
        push_str(&mut m, ":");
        push_str(&mut m, settings.model.as_str());
        push_str(&mut m, ":");
        let base = trim_trailing_slashes(settings.base_url.as_str());
        push_str(&mut m, base.as_str());
        m
    };
    assert(model@ == cache_model(*settings));
    let rich = match doc {
        Some(d) => {
            let u = d.units();
            assert(crate::rich_text::units_view(u@).len() == u@.len());
            u.len() > 0
        },
        None => false,
    };
    let mut members: Vec<Member> = Vec::new();
    members.push(member("source_text", Json::Str(crate::text::owned(source))));
    members.push(member("model", Json::Str(model)));
    members.push(member("target_locale", Json::Str(crate::text::owned("zh_cn"))));
    members.push(member("style", Json::Str(settings.style.clone())));
    if settings.glossary_enabled {
        members.push(member("glossary_enabled", Json::Bool(true)));
        members.push(member("glossary_fingerprint", Json::Str(settings.glossary_fingerprint.clone())));
    }
    if rich {
        members.push(member("rich_text_pipeline", Json::Str(crate::text::owned("display-fields-v1"))));
    }
    let value = Json::Object(members);
    proof {
        lemma_jms(members@);
        match cache_json(source@, *settings, rich_source(doc)) {
            JsonView::Object(ms) => assert(jms(members@) =~= ms),
            _ => {},
        }
    }
    let text = json_text(&value);
    let mut bytes: Vec<u8> = Vec::new();
    push_utf8(&mut bytes, text.as_str());
    assert(bytes@ =~= encode_utf8(text@));
    sha256_hex(bytes.as_slice())
}


// ---------------------------------------------------------------------------
// The log of the units sent in a run.

/// One unit sent to the provider: its place, its source, the text kept for
/// it and its status.
pub struct UnitLog {
    pub entry_id: String,
    pub path: String,
    pub source: String,
    pub target: String,
    pub status: String,
}

pub struct UnitLogView {
    pub entry_id: Seq<char>,
    pub path: Seq<char>,
    pub source: Seq<char>,
    pub target: Seq<char>,
    pub status: Seq<char>,
}

/// The log line of a unit: the text kept for it (its source when none was
/// kept) and the latest failure status of its entry, else `translated`.
pub open spec fn unit_log(x: ItemView, results: Seq<(Seq<char>, Seq<char>)>, statuses: Seq<(Seq<char>, Seq<char>)>) -> UnitLogView {
    UnitLogView {
        entry_id: x.entry_id,
        path: x.path,
        source: x.source,
        target: match lookup(results, x.id) {
            Some(t) => t,
            None => x.source,
        },
        status: match latest_status(statuses, x.entry_id) {
            Some(st) => st,
            None => "translated"@,
        },
    }
}

pub open spec fn unit_log_view(u: UnitLog) -> UnitLogView {
    UnitLogView { entry_id: u.entry_id@, path: u.path@, source: u.source@, target: u.target@, status: u.status@ }
}

/// The log of the units `pending` of a run, whose kept texts are
/// `unit_results` and failure statuses `statuses`.
pub fn unit_logs(pending: &Vec<Item>, unit_results: &Vec<(String, String)>, statuses: &Vec<(String, String)>) -> (r: Vec<UnitLog>)
    ensures
        r@.len() == pending@.len(),
        forall|k: int| 0 <= k < r@.len() ==> unit_log_view(#[trigger] r@[k])
            == unit_log(item_view(pending@[k]), pairs_view(unit_results@), pairs_view(statuses@)),
{
    let mut r: Vec<UnitLog> = Vec::new();
    let mut i: usize = 0;
    while i < pending.len()
        invariant
            i <= pending.len(),
            r@.len() == i,
            forall|k: int| 0 <= k < i ==> unit_log_view(#[trigger] r@[k])
                == unit_log(item_view(pending@[k]), pairs_view(unit_results@), pairs_view(statuses@)),
        decreases pending.len() - i,
    {
        let x = &pending[i];
        let target = match lookup_exec(unit_results, x.id.as_str()) {
            Some(t) => t,
            None => x.source.clone(),
        };
        let status = match latest_status_exec(statuses, x.entry_id.as_str()) {
            Some(st) => st,
            None => crate::text::owned("translated"),
        };
        r.push(UnitLog { entry_id: x.entry_id.clone(), path: x.path.clone(), source: x.source.clone(), target, status });
        i += 1;
    }
    r
}


/// The records of a run are the records of its units, one by one: the `i`th
/// record is the record of the `i`th unit, and the run is refused exactly
/// when some unit's record cannot be made.
pub proof fn law_records_per_unit(
    mode: Seq<char>,
    entries: Seq<Entry>,
    items: Seq<ItemView>,
    texts: Seq<Seq<char>>,
    flagged: Seq<bool>,
    statuses: Seq<(Seq<char>, Seq<char>)>,
    docs: Seq<Option<Document>>,
)
    ensures
        match unit_records(mode, entries, items, texts, flagged, statuses, docs) {
            Ok(rs) => rs.len() == items.len() && forall|i: int| 0 <= i < items.len() ==> unit_record(
                mode,
                entries,
                #[trigger] items[i],
                texts,
                flagged,
                statuses,
                docs,
            ) == Ok::<RecordView, Seq<char>>(rs[i]),
            Err(_) => exists|i: int| 0 <= i < items.len() && (unit_record(mode, entries, #[trigger] items[i], texts, flagged, statuses, docs) is Err),
        },
    decreases items.len(),
{
    if items.len() > 0 {
        let d = items.drop_last();
        law_records_per_unit(mode, entries, d, texts, flagged, statuses, docs);
        match unit_records(mode, entries, d, texts, flagged, statuses, docs) {
            Ok(rs) => {
                assert forall|i: int| 0 <= i < d.len() implies #[trigger] items[i] == d[i] by {}
                if unit_record(mode, entries, items.last(), texts, flagged, statuses, docs) is Err {
                    assert(items[items.len() - 1] == items.last());
                }
            },
            Err(_) => {
                let i = choose|i: int| 0 <= i < d.len() && (unit_record(mode, entries, #[trigger] d[i], texts, flagged, statuses, docs) is Err);
                assert(items[i] == d[i]);
            },
        }
    }
}


/// The places of the rate-limited records, in order.
pub open spec fn limited_places(records: Seq<Record>) -> Seq<(Seq<char>, Seq<char>)> {
    records.filter(|r: Record| rate_limited(r)).map_values(|r: Record| place_of(r))
}

/// The places to translate again for a retry of the CMP file `records`: its
/// rate-limited records. Refused when there is none.
pub fn retry_places(records: &Vec<Record>) -> (r: Result<Vec<(String, String)>, String>)
    ensures
        limited_places(records@).len() == 0 ==> (r matches Err(m) && m@ == "CMP 中没有可重试的限流条目"@),
        limited_places(records@).len() > 0 ==> (r matches Ok(v) && pairs_view(v@) == limited_places(records@)),
{
    let places = retry_locations(records);
    assert(pairs_view(places@) == limited_places(records@));
    if places.len() == 0 {
        Err(crate::text::owned("CMP 中没有可重试的限流条目"))
    } else {
        Ok(places)
    }
}

impl Concluded {
    /// The entry goes to review: the format guard warned about it, or it failed.
    pub fn needs_review(&self) -> (b: bool)
        ensures
            b == (self.warnings@.len() > 0 || self.failed),
    {
        self.warnings.len() > 0 || self.failed
    }
}

} // verus!
