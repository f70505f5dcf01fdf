//! The schedule: every scheduled item's review state, and the two-stage queue
//! that orders today's reviews.

use crate::date::Date;
use crate::record::{lemma_record_round_trip, parse_record, record_body, record_value, write_record, RecordError};
use crate::review::{rated, RateError, ReviewState, MAX_RATING, PASSING_RATING};
use crate::text::{string_of, file_lines, line_body, chars_of, dec_text, lemma_split_on_nonempty, push_str, split_chars, split_on, write_dec};
use fnv::FnvHashMap;
use std::collections::VecDeque;
use vstd::prelude::*;

verus! {

/// fnv's hasher, carried opaquely inside the map's type.
#[verifier::external_type_specification]
#[verifier::external_body]
pub struct ExFnvHasher(fnv::FnvHasher);

/// std's builder of default hashers, through which fnv's map names its hasher.
#[verifier::external_type_specification]
#[verifier::external_body]
#[verifier::reject_recursive_types(H)]
pub struct ExBuildHasherDefault<H>(std::hash::BuildHasherDefault<H>);

/// A map keyed by item identifier, hashed with fnv.
pub type Table<V> = FnvHashMap<u64, V>;

/// Relies on `Default` for `HashMap` (with fnv's hasher): an empty map.
#[verifier::external_body]
pub(crate) fn table_new<V>() -> (r: Table<V>)
    ensures
        forall|k: u64| !r@.contains_key(k),
{
    FnvHashMap::default()
}

/// Relies on `HashMap::insert`: `id` maps to `v` afterwards, the rest stays.
#[verifier::external_body]
pub(crate) fn table_insert<V>(m: &mut Table<V>, id: u64, v: V)
    ensures
        final(m)@ == old(m)@.insert(id, v),
{
    m.insert(id, v);
}

/// Relies on `HashMap::contains_key`.
#[verifier::external_body]
pub(crate) fn table_contains<V>(m: &Table<V>, id: u64) -> (r: bool)
    ensures
        r == m@.contains_key(id),
{
    m.contains_key(&id)
}

/// Relies on `HashMap::get`: the value that `id` maps to.
#[verifier::external_body]
pub(crate) fn table_get<V>(m: &Table<V>, id: u64) -> (r: Option<&V>)
    ensures
        match r {
            Some(v) => m@.contains_key(id) && *v == m@[id],
            None => !m@.contains_key(id),
        },
{
    m.get(&id)
}

/// Relies on `HashMap::iter`: every entry exactly once, in an order that the
/// hasher decides.
#[verifier::external_body]
fn table_entries(m: &Table<ReviewState>) -> (r: Vec<(u64, ReviewState)>)
    ensures
        lists_entries(m@, r@),
{
    m.iter().map(|(k, v)| (*k, *v)).collect()
}

/// `entries` holds each entry of `m` once, in some order.
pub open spec fn lists_entries(m: Map<u64, ReviewState>, entries: Seq<(u64, ReviewState)>) -> bool {
    &&& forall|i: int, j: int| 0 <= i < j < entries.len() ==> entries[i].0 != entries[j].0
    &&& forall|i: int|
        0 <= i < entries.len() ==> m.contains_key(#[trigger] entries[i].0) && m[entries[i].0]
            == entries[i].1
    &&& forall|k: u64| m.contains_key(k) ==> exists|i: int| 0 <= i < entries.len() && #[trigger] entries[i].0 == k
}

/// Which of the two queues supplies the current item.
#[derive(Clone, Copy, Debug, PartialEq, Eq, Structural)]
pub enum Stage {
    /// New items and items that were just failed.
    Hot,
    /// Items rated 3, asked again once the hot queue is empty.
    Refresh,
}

/// The stage that the queues call for: refresh only while it alone has items.
pub open spec fn stage_for(hot: Seq<u64>, refresh: Seq<u64>) -> Stage {
    if hot.len() == 0 && refresh.len() > 0 {
        Stage::Refresh
    } else {
        Stage::Hot
    }
}

/// Where the item at the front goes after rating `q`: back into hot below 3,
/// into refresh at 3, out of today's session above.
pub open spec fn requeued(hot: Seq<u64>, refresh: Seq<u64>, stage: Stage, q: int) -> (Seq<u64>, Seq<u64>) {
    let (id, hot1, refresh1) = if stage == Stage::Hot {
        (hot[0], hot.drop_first(), refresh)
    } else {
        (refresh[0], hot, refresh.drop_first())
    };
    if q < PASSING_RATING {
        (hot1.push(id), refresh1)
    } else if q == PASSING_RATING {
        (hot1, refresh1.push(id))
    } else {
        (hot1, refresh1)
    }
}

/// Each queued identifier is in `keys` and stands once in one of the queues.
pub open spec fn queues_ok(hot: Seq<u64>, refresh: Seq<u64>, keys: Set<u64>) -> bool {
    &&& hot.no_duplicates()
    &&& refresh.no_duplicates()
    &&& forall|i: int| 0 <= i < hot.len() ==> keys.contains(#[trigger] hot[i]) && !refresh.contains(hot[i])
    &&& forall|i: int| 0 <= i < refresh.len() ==> keys.contains(#[trigger] refresh[i])
}

/// The identifier at the front of the stage that `stage` selects.
pub open spec fn front_of(hot: Seq<u64>, refresh: Seq<u64>, stage: Stage) -> u64 {
    if stage == Stage::Hot {
        hot[0]
    } else {
        refresh[0]
    }
}

/// After a rating of 4 or 5 the rated item has left both stages; after a 3
/// it stands in the refresh stage alone; below 3 in the hot stage alone. The
/// queues stay free of repeats either way.
pub proof fn lemma_requeue_places_item(hot: Seq<u64>, refresh: Seq<u64>, stage: Stage, q: int, keys: Set<u64>)
    requires
        queues_ok(hot, refresh, keys),
        stage == stage_for(hot, refresh),
        hot.len() > 0 || refresh.len() > 0,
        0 <= q <= MAX_RATING,
    ensures
        ({
            let id = front_of(hot, refresh, stage);
            let (h, r) = requeued(hot, refresh, stage, q);
            &&& q > PASSING_RATING ==> !h.contains(id) && !r.contains(id)
            &&& q == PASSING_RATING ==> !h.contains(id) && r.contains(id)
            &&& q < PASSING_RATING ==> h.contains(id) && !r.contains(id)
            &&& queues_ok(h, r, keys)
        }),
{
    let id = front_of(hot, refresh, stage);
    let (h, r) = requeued(hot, refresh, stage, q);
    if stage == Stage::Hot {
        let h1 = hot.drop_first();
        assert(!h1.contains(id)) by {
            if h1.contains(id) {
                let k = choose|k: int| 0 <= k < h1.len() && h1[k] == id;
                assert(hot[k + 1] == hot[0]);
            }
        }
        assert(!refresh.contains(id)) by {
            assert(!refresh.contains(hot[0]));
        }
        assert(keys.contains(id)) by {
            assert(keys.contains(hot[0]));
        }
        assert forall|i: int| 0 <= i < h1.len() implies keys.contains(#[trigger] h1[i]) && !refresh.contains(h1[i]) by {
            assert(h1[i] == hot[i + 1]);
        }
        assert(h1.no_duplicates()) by {
            assert forall|i: int, j: int| 0 <= i < h1.len() && 0 <= j < h1.len() && i != j implies h1[i] != h1[j] by {
                assert(h1[i] == hot[i + 1]);
                assert(h1[j] == hot[j + 1]);
            }
        }
        lemma_push_keeps(h1, refresh, id, keys);
        lemma_push_keeps_refresh(h1, refresh, id, keys);
    } else {
        let r1 = refresh.drop_first();
        assert(hot.len() == 0);
        assert(!r1.contains(id)) by {
            if r1.contains(id) {
                let k = choose|k: int| 0 <= k < r1.len() && r1[k] == id;
                assert(refresh[k + 1] == refresh[0]);
            }
        }
        assert(keys.contains(id)) by {
            assert(keys.contains(refresh[0]));
        }
        assert forall|i: int| 0 <= i < r1.len() implies keys.contains(#[trigger] r1[i]) by {
            assert(r1[i] == refresh[i + 1]);
        }
        assert(r1.no_duplicates()) by {
            assert forall|i: int, j: int| 0 <= i < r1.len() && 0 <= j < r1.len() && i != j implies r1[i] != r1[j] by {
                assert(r1[i] == refresh[i + 1]);
                assert(r1[j] == refresh[j + 1]);
            }
        }
        lemma_push_keeps(hot, r1, id, keys);
        lemma_push_keeps_refresh(hot, r1, id, keys);
    }
}

/// Queues that are fine for some keys are fine for more.
proof fn lemma_queues_ok_grow(hot: Seq<u64>, refresh: Seq<u64>, keys: Set<u64>, more: Set<u64>)
    requires
        queues_ok(hot, refresh, keys),
        keys.subset_of(more),
    ensures
        queues_ok(hot, refresh, more),
{
    assert forall|i: int| 0 <= i < hot.len() implies more.contains(#[trigger] hot[i]) && !refresh.contains(hot[i]) by {
        assert(keys.contains(hot[i]));
    }
    assert forall|i: int| 0 <= i < refresh.len() implies more.contains(#[trigger] refresh[i]) by {
        assert(keys.contains(refresh[i]));
    }
}

/// Pushing a key that neither queue holds onto the hot queue keeps them apart.
proof fn lemma_push_keeps(hot: Seq<u64>, refresh: Seq<u64>, id: u64, keys: Set<u64>)
    requires
        queues_ok(hot, refresh, keys),
        keys.contains(id),
        !hot.contains(id),
        !refresh.contains(id),
    ensures
        queues_ok(hot.push(id), refresh, keys),
        hot.push(id).contains(id),
{
    let h = hot.push(id);
    assert(h[hot.len() as int] == id);
    assert forall|i: int| 0 <= i < h.len() implies keys.contains(#[trigger] h[i]) && !refresh.contains(h[i]) by {
        if i < hot.len() {
            assert(h[i] == hot[i]);
        }
    }
    assert forall|i: int, j: int| 0 <= i < h.len() && 0 <= j < h.len() && i != j implies h[i] != h[j] by {
        if i < hot.len() {
            assert(h[i] == hot[i]);
        }
        if j < hot.len() {
            assert(h[j] == hot[j]);
        }
    }
}

/// Pushing a key that neither queue holds onto the refresh queue keeps them apart.
proof fn lemma_push_keeps_refresh(hot: Seq<u64>, refresh: Seq<u64>, id: u64, keys: Set<u64>)
    requires
        queues_ok(hot, refresh, keys),
        keys.contains(id),
        !hot.contains(id),
        !refresh.contains(id),
    ensures
        queues_ok(hot, refresh.push(id), keys),
        refresh.push(id).contains(id),
{
    let r = refresh.push(id);
    assert(r[refresh.len() as int] == id);
    assert forall|i: int| 0 <= i < hot.len() implies keys.contains(#[trigger] hot[i]) && !r.contains(hot[i]) by {
        if r.contains(hot[i]) {
            let k = choose|k: int| 0 <= k < r.len() && r[k] == hot[i];
            if k < refresh.len() {
                assert(r[k] == refresh[k]);
            }
        }
    }
    assert forall|i: int| 0 <= i < r.len() implies keys.contains(#[trigger] r[i]) by {
        if i < refresh.len() {
            assert(r[i] == refresh[i]);
        }
    }
    assert forall|i: int, j: int| 0 <= i < r.len() && 0 <= j < r.len() && i != j implies r[i] != r[j] by {
        if i < refresh.len() {
            assert(r[i] == refresh[i]);
        }
        if j < refresh.len() {
            assert(r[j] == refresh[j]);
        }
    }
}

/// A line that holds a record holds a valid state.
pub proof fn lemma_record_wf(line: Seq<char>)
    ensures
        record_value(line) is Ok ==> record_value(line)->Ok_0.1.wf(),
{
}

/// The map that a list of records with distinct identifiers makes.
pub open spec fn records_map(recs: Seq<(u64, ReviewState)>) -> Map<u64, ReviewState>
    decreases recs.len(),
{
    if recs.len() == 0 {
        Map::empty()
    } else {
        records_map(recs.drop_last()).insert(recs.last().0, recs.last().1)
    }
}

/// The identifiers of the records that are due on `today`, in file order.
pub open spec fn due_ids(recs: Seq<(u64, ReviewState)>, today: Date) -> Seq<u64>
    decreases recs.len(),
{
    if recs.len() == 0 {
        Seq::empty()
    } else if recs.last().1.next_due.spec_on_or_before(today) {
        due_ids(recs.drop_last(), today).push(recs.last().0)
    } else {
        due_ids(recs.drop_last(), today)
    }
}

/// The records of `lines` in order, or the first line (counted from 1) that
/// holds none, or repeats an identifier, with the reason.
pub open spec fn records_of_lines(lines: Seq<Seq<char>>) -> Result<Seq<(u64, ReviewState)>, (nat, RecordError)>
    decreases lines.len(),
{
    if lines.len() == 0 {
        Ok(Seq::empty())
    } else {
        match records_of_lines(lines.drop_last()) {
            Err(e) => Err(e),
            Ok(recs) => match record_value(line_body(lines.last())) {
                Err(r) => Err((lines.len(), r)),
                Ok((id, s)) => if records_map(recs).contains_key(id) {
                    Err((lines.len(), RecordError::DuplicateId))
                } else {
                    Ok(recs.push((id, s)))
                },
            },
        }
    }
}

/// The text that saving writes for `entries`: one record line each, in order.
pub open spec fn records_text(entries: Seq<(u64, ReviewState)>) -> Seq<char>
    decreases entries.len(),
{
    if entries.len() == 0 {
        Seq::empty()
    } else {
        records_text(entries.drop_last()) + record_body(entries.last().0, entries.last().1) + seq!['\n']
    }
}

/// A session is over exactly when both stages are empty, and scheduling a new
/// item on a finished session (see `Schedule::add_item`) opens it again, with
/// the hot stage current and the new item in front.
pub proof fn lemma_enqueue_reopens(before: Schedule, after: Schedule, id: u64)
    requires
        before.wf(),
        before.spec_is_done(),
        after.spec_hot() == before.spec_hot().push(id),
        after.spec_refresh() == before.spec_refresh(),
        after.spec_stage() == Stage::Hot,
    ensures
        before.spec_hot().len() == 0 && before.spec_refresh().len() == 0,
        !after.spec_is_done(),
        after.spec_stage() == Stage::Hot,
        after.spec_current() == id,
{
    assert(after.spec_hot()[0] == id);
}

/// Once a line fails, every longer run of lines fails at the same line.
proof fn lemma_records_error_stays(lines: Seq<Seq<char>>, k: int)
    requires
        0 <= k <= lines.len(),
        records_of_lines(lines.take(k)) is Err,
    ensures
        records_of_lines(lines) == records_of_lines(lines.take(k)),
    decreases lines.len(),
{
    if lines.len() > k {
        assert(lines.drop_last().take(k) == lines.take(k));
        lemma_records_error_stays(lines.drop_last(), k);
    } else {
        assert(lines.take(k) == lines);
    }
}

/// `text` is what saving writes for `items`: its records, in some order.
pub open spec fn is_saved_text(items: Map<u64, ReviewState>, text: Seq<char>) -> bool {
    exists|entries: Seq<(u64, ReviewState)>| lists_entries(items, entries) && text == records_text(entries)
}

/// The characters of `v` without a carriage return at its end.
fn line_body_of(v: &Vec<char>) -> (r: Vec<char>)
    ensures
        r@ == line_body(v@),
{
    let n = if v.len() > 0 && v[v.len() - 1] == '\r' {
        v.len() - 1
    } else {
        v.len()
    };
    let mut r: Vec<char> = Vec::new();
    for i in 0..n
        invariant
            n <= v@.len(),
            r@ == v@.take(i as int),
    {
        r.push(v[i]);
        assert(v@.take(i as int + 1) == v@.take(i as int).push(v@[i as int]));
    }
    assert(line_body(v@) == v@.take(n as int));
    r
}

/// The record lines, without line feeds, that saving writes for `entries`.
pub open spec fn record_bodies(entries: Seq<(u64, ReviewState)>) -> Seq<Seq<char>> {
    entries.map_values(|e: (u64, ReviewState)| record_body(e.0, e.1))
}

/// Text without the separator extends the last piece.
proof fn lemma_split_extend(x: Seq<char>, y: Seq<char>, sep: char)
    requires
        !y.contains(sep),
    ensures
        split_on(x + y, sep) == split_on(x, sep).update(
            split_on(x, sep).len() - 1,
            split_on(x, sep).last() + y,
        ),
    decreases y.len(),
{
    lemma_split_on_nonempty(x, sep);
    let p = split_on(x, sep);
    if y.len() == 0 {
        assert(x + y == x);
        assert(p.last() + y == p.last());
        assert(p.update(p.len() - 1, p.last()) == p);
    } else {
        let y1 = y.drop_last();
        assert(!y1.contains(sep)) by {
            if y1.contains(sep) {
                let i = choose|i: int| 0 <= i < y1.len() && y1[i] == sep;
                assert(y[i] == sep);
            }
        }
        lemma_split_extend(x, y1, sep);
        assert((x + y).drop_last() == x + y1);
        assert((x + y).last() == y.last());
        assert(y.last() != sep) by {
            assert(y[y.len() - 1] == y.last());
        }
        assert((p.last() + y1).push(y.last()) == p.last() + y);
        lemma_split_on_nonempty(x + y1, sep);
    }
}

/// The saved text splits, at its line feeds, into the record lines and an
/// empty piece after the last line feed.
proof fn lemma_records_text_split(entries: Seq<(u64, ReviewState)>)
    requires
        forall|i: int| 0 <= i < entries.len() ==> (#[trigger] entries[i]).1.wf(),
    ensures
        split_on(records_text(entries), '\n') == record_bodies(entries).push(Seq::<char>::empty()),
    decreases entries.len(),
{
    if entries.len() == 0 {
        assert(records_text(entries) == Seq::<char>::empty());
        assert(record_bodies(entries) == Seq::<Seq<char>>::empty());
    } else {
        let prefix = entries.drop_last();
        let (id, st) = entries.last();
        assert(entries.last() == entries[entries.len() - 1]);
        lemma_records_text_split(prefix);
        lemma_record_round_trip(id, st);
        let t = records_text(prefix);
        let body = record_body(id, st);
        assert(records_text(entries) == t + body + seq!['\n']);
        assert((t + body + seq!['\n']).drop_last() == t + body);
        lemma_split_extend(t, body, '\n');
        assert(record_bodies(entries) == record_bodies(prefix).push(body));
        assert(Seq::<char>::empty() + body == body);
    }
}

/// The saved text's lines are the record lines.
proof fn lemma_records_text_lines(entries: Seq<(u64, ReviewState)>)
    requires
        forall|i: int| 0 <= i < entries.len() ==> (#[trigger] entries[i]).1.wf(),
    ensures
        file_lines(records_text(entries)) == record_bodies(entries),
{
    lemma_records_text_split(entries);
    let p = record_bodies(entries).push(Seq::<char>::empty());
    assert(p.drop_last() == record_bodies(entries));
}

/// With distinct identifiers, the map of the records holds each record and
/// nothing else.
proof fn lemma_records_map_of(entries: Seq<(u64, ReviewState)>)
    requires
        forall|i: int, j: int| 0 <= i < j < entries.len() ==> entries[i].0 != entries[j].0,
    ensures
        forall|i: int| 0 <= i < entries.len() ==> records_map(entries).contains_key(#[trigger] entries[i].0)
            && records_map(entries)[entries[i].0] == entries[i].1,
        forall|k: u64| #[trigger] records_map(entries).contains_key(k) ==> exists|i: int| 0 <= i < entries.len() && entries[i].0 == k,
    decreases entries.len(),
{
    if entries.len() > 0 {
        let prefix = entries.drop_last();
        lemma_records_map_of(prefix);
        let m = records_map(entries);
        assert forall|i: int| 0 <= i < entries.len() implies m.contains_key(#[trigger] entries[i].0)
            && m[entries[i].0] == entries[i].1 by {
            if i < entries.len() - 1 {
                assert(prefix[i] == entries[i]);
                assert(entries[i].0 != entries[entries.len() - 1].0);
            }
        }
        assert forall|k: u64| #[trigger] m.contains_key(k) implies exists|i: int| 0 <= i < entries.len() && entries[i].0 == k by {
            if k != entries.last().0 {
                assert(records_map(prefix).contains_key(k));
                let i = choose|i: int| 0 <= i < prefix.len() && prefix[i].0 == k;
                assert(entries[i] == prefix[i]);
            } else {
                assert(entries[entries.len() - 1].0 == k);
            }
        }
    }
}

/// The record lines of entries with distinct identifiers read back as the
/// entries.
proof fn lemma_records_of_bodies(entries: Seq<(u64, ReviewState)>)
    requires
        forall|i: int| 0 <= i < entries.len() ==> (#[trigger] entries[i]).1.wf(),
        forall|i: int, j: int| 0 <= i < j < entries.len() ==> entries[i].0 != entries[j].0,
    ensures
        records_of_lines(record_bodies(entries)) == Ok::<Seq<(u64, ReviewState)>, (nat, RecordError)>(entries),
    decreases entries.len(),
{
    if entries.len() > 0 {
        let prefix = entries.drop_last();
        let lines = record_bodies(entries);
        let (id, st) = entries.last();
        assert(entries.last() == entries[entries.len() - 1]);
        assert(forall|i: int| 0 <= i < prefix.len() ==> #[trigger] prefix[i] == entries[i]);
        lemma_records_of_bodies(prefix);
        assert(lines.drop_last() == record_bodies(prefix));
        lemma_record_round_trip(id, st);
        let body = record_body(id, st);
        assert(lines.last() == body);
        assert(body.last() != '\r');
        assert(line_body(body) == body);
        lemma_records_map_of(prefix);
        assert(!records_map(prefix).contains_key(id)) by {
            if records_map(prefix).contains_key(id) {
                let i = choose|i: int| 0 <= i < prefix.len() && prefix[i].0 == id;
                assert(entries[i].0 != entries[entries.len() - 1].0);
            }
        }
        assert(prefix.push((id, st)) == entries);
        assert(lines.len() == entries.len());
        assert(record_value(line_body(lines.last())) == Ok::<(u64, ReviewState), RecordError>((id, st)));
    } else {
        assert(record_bodies(entries) =~= Seq::<Seq<char>>::empty());
        assert(entries =~= Seq::<(u64, ReviewState)>::empty());
    }
}

/// Saving and loading back keeps the records: the text that saving writes for
/// sound review states loads without error, and its records make up exactly
/// the map that was saved. Saving the loaded schedule then writes the same
/// records again.
pub proof fn lemma_save_load_round_trip(items: Map<u64, ReviewState>, text: Seq<char>)
    requires
        forall|id: u64| #[trigger] items.contains_key(id) ==> items[id].wf(),
        is_saved_text(items, text),
    ensures
        records_of_lines(file_lines(text)) is Ok,
        records_map(records_of_lines(file_lines(text))->Ok_0) == items,
{
    let entries = choose|entries: Seq<(u64, ReviewState)>| lists_entries(items, entries) && text == records_text(entries);
    assert forall|i: int| 0 <= i < entries.len() implies (#[trigger] entries[i]).1.wf() by {
        assert(items.contains_key(entries[i].0));
    }
    lemma_records_text_lines(entries);
    lemma_records_of_bodies(entries);
    lemma_records_map_of(entries);
    let m = records_map(entries);
    assert forall|k: u64| m.contains_key(k) <==> items.contains_key(k) by {
        if items.contains_key(k) {
            let i = choose|i: int| 0 <= i < entries.len() && #[trigger] entries[i].0 == k;
        }
        if m.contains_key(k) {
            let i = choose|i: int| 0 <= i < entries.len() && entries[i].0 == k;
        }
    }
    assert forall|k: u64| #[trigger] m.contains_key(k) implies m[k] == items[k] by {
        let i = choose|i: int| 0 <= i < entries.len() && entries[i].0 == k;
    }
    assert(m =~= items);
}

/// Why a schedule file could not be loaded.
#[derive(Debug, PartialEq, Eq)]
pub struct LoadError {
    /// The line, counted from 1.
    pub line: usize,
    pub reason: RecordError,
    /// The line's text, without its line end.
    pub content: String,
}

/// The error for line `n` (counted from 1) of `lines`.
pub open spec fn load_error_is(e: LoadError, lines: Seq<Seq<char>>, n: nat, reason: RecordError) -> bool {
    &&& e.line == n
    &&& e.reason == reason
    &&& e.content@ == line_body(lines[n - 1])
}

impl LoadError {
    /// `Error on line <n>: <reason>`; where the line lacks fields, the line
    /// itself follows the reason.
    pub fn message(&self) -> (r: String)
        ensures
            r@ == "Error on line "@ + dec_text(self.line as nat) + ": "@ + self.reason.text() + (if self.reason
                == RecordError::FieldCount {
                self.content@
            } else {
                Seq::<char>::empty()
            }),
    {
        let mut r = String::new();
        push_str(&mut r, "Error on line ");
        write_dec(&mut r, self.line as u64);
        push_str(&mut r, ": ");
        self.reason.describe(&mut r);
        if let RecordError::FieldCount = self.reason {
            push_str(&mut r, self.content.as_str());
        } else {
            assert(r@ == r@ + Seq::<char>::empty());
        }
        r
    }
}

/// Every item's review state, and the queues of today's session.
pub struct Schedule {
    items: Table<ReviewState>,
    stage: Stage,
    hot_stage: VecDeque<u64>,
    refresh_stage: VecDeque<u64>,
}

impl Schedule {
    /// Reads a schedule from the text of its file, one record per line. Items
    /// due on or before `today` are queued in the hot stage, in file order.
    /// The first line that holds no record, or repeats an identifier, fails
    /// the whole load.
    pub fn load(text: &str, today: Date) -> (r: Result<Schedule, LoadError>)
        requires
            today.wf(),
        ensures
            match records_of_lines(file_lines(text@)) {
                Ok(recs) => r is Ok && r->Ok_0.wf() && r->Ok_0.spec_items() == records_map(recs)
                    && r->Ok_0.spec_hot() == due_ids(recs, today) && r->Ok_0.spec_refresh() == Seq::<u64>::empty()
                    && r->Ok_0.spec_stage() == Stage::Hot,
                Err((n, e)) => r is Err && load_error_is(r->Err_0, file_lines(text@), n, e),
            },
    {
        let chars = chars_of(text);
        let pieces = split_chars(chars.as_slice(), '\n');
        proof {
            lemma_split_on_nonempty(text@, '\n');
        }
        let ghost lines = file_lines(text@);
        let n = if pieces[pieces.len() - 1].len() == 0 {
            pieces.len() - 1
        } else {
            pieces.len()
        };
        assert(lines.len() == n);
        let mut sched = Schedule::new();
        let ghost mut recs: Seq<(u64, ReviewState)> = Seq::empty();
        assert(lines.take(0) == Seq::<Seq<char>>::empty());
        for i in 0..n
            invariant
                today.wf(),
                n == lines.len(),
                n <= pieces@.len(),
                lines == file_lines(text@),
                forall|j: int| 0 <= j < n ==> #[trigger] lines[j] == pieces@[j]@,
                records_of_lines(lines.take(i as int)) == Ok::<Seq<(u64, ReviewState)>, (nat, RecordError)>(recs),
                sched.wf(),
                sched.spec_items() == records_map(recs),
                sched.spec_hot() == due_ids(recs, today),
                sched.spec_refresh() == Seq::<u64>::empty(),
                sched.spec_stage() == Stage::Hot,
        {
            let body = line_body_of(&pieces[i]);
            let ghost upto = lines.take(i as int + 1);
            assert(upto.drop_last() == lines.take(i as int));
            assert(upto.last() == pieces@[i as int]@);
            match parse_record(body.as_slice()) {
                Err(e) => {
                    proof {
                        lemma_records_error_stays(lines, i as int + 1);
                    }
                    return Err(LoadError { line: i + 1, reason: e, content: string_of(&body) });
                },
                Ok((id, st)) => {
                    if sched.has_item(id) {
                        proof {
                            lemma_records_error_stays(lines, i as int + 1);
                        }
                        return Err(LoadError { line: i + 1, reason: RecordError::DuplicateId, content: string_of(&body) });
                    }
                    proof {
                        lemma_record_wf(body@);
                    }
                    sched.insert_loaded(id, st, &today);
                    proof {
                        let prev = recs;
                        recs = recs.push((id, st));
                        assert(recs.drop_last() == prev);
                        assert(recs.last() == (id, st));
                    }
                },
            }
        }
        assert(lines.take(n as int) == lines);
        Ok(sched)
    }

    /// Adds a record read from the schedule file, queueing it where it is due.
    fn insert_loaded(&mut self, id: u64, st: ReviewState, today: &Date)
        requires
            old(self).wf(),
            !old(self).spec_items().contains_key(id),
            st.wf(),
            old(self).spec_refresh() == Seq::<u64>::empty(),
            old(self).spec_stage() == Stage::Hot,
        ensures
            final(self).wf(),
            final(self).spec_items() == old(self).spec_items().insert(id, st),
            final(self).spec_hot() == (if st.next_due.spec_on_or_before(*today) {
                old(self).spec_hot().push(id)
            } else {
                old(self).spec_hot()
            }),
            final(self).spec_refresh() == Seq::<u64>::empty(),
            final(self).spec_stage() == Stage::Hot,
    {
        table_insert(&mut self.items, id, st);
        proof {
            let keys = self.spec_items().dom();
            lemma_queues_ok_grow(old(self).spec_hot(), old(self).spec_refresh(), old(self).spec_items().dom(), keys);
        }
        if st.next_due.on_or_before(today) {
            proof {
                let old_hot = old(self).spec_hot();
                assert(!old_hot.contains(id)) by {
                    if old_hot.contains(id) {
                        let k = choose|k: int| 0 <= k < old_hot.len() && old_hot[k] == id;
                    }
                }
                lemma_push_keeps(old_hot, old(self).spec_refresh(), id, self.spec_items().dom());
            }
            self.hot_stage.push_back(id);
        }
    }

    /// The text of the schedule file: one record line per item, in an order
    /// that the map decides.
    pub fn save(&self) -> (r: String)
        ensures
            is_saved_text(self.spec_items(), r@),
    {
        let entries = table_entries(&self.items);
        let mut out = String::new();
        for i in 0..entries.len()
            invariant
                out@ == records_text(entries@.take(i as int)),
        {
            let (id, st) = entries[i];
            write_record(&mut out, id, &st);
            assert(entries@.take(i as int + 1).drop_last() == entries@.take(i as int));
        }
        assert(entries@.take(entries@.len() as int) == entries@);
        out
    }

    pub closed spec fn spec_items(&self) -> Map<u64, ReviewState> {
        self.items@
    }

    pub closed spec fn spec_hot(&self) -> Seq<u64> {
        self.hot_stage@
    }

    pub closed spec fn spec_refresh(&self) -> Seq<u64> {
        self.refresh_stage@
    }

    pub closed spec fn spec_stage(&self) -> Stage {
        self.stage
    }

    /// The states are valid; each queued identifier is scheduled and stands
    /// once in one queue; the stage is the one that the queues call for.
    pub open spec fn wf(&self) -> bool {
        &&& forall|id: u64| #[trigger] self.spec_items().contains_key(id) ==> self.spec_items()[id].wf()
        &&& queues_ok(self.spec_hot(), self.spec_refresh(), self.spec_items().dom())
        &&& self.spec_stage() == stage_for(self.spec_hot(), self.spec_refresh())
    }

    pub open spec fn spec_is_done(&self) -> bool {
        self.spec_hot().len() == 0 && self.spec_refresh().len() == 0
    }

    /// The identifier at the front of the current stage.
    pub open spec fn spec_current(&self) -> u64 {
        if self.spec_stage() == Stage::Hot {
            self.spec_hot()[0]
        } else {
            self.spec_refresh()[0]
        }
    }

    /// A schedule with no items.
    pub fn new() -> (r: Schedule)
        ensures
            r.wf(),
            r.spec_items() == Map::<u64, ReviewState>::empty(),
            r.spec_hot() == Seq::<u64>::empty(),
            r.spec_refresh() == Seq::<u64>::empty(),
            r.spec_stage() == Stage::Hot,
    {
        let items = table_new();
        assert(items@ =~= Map::<u64, ReviewState>::empty());
        Schedule {
            items,
            stage: Stage::Hot,
            hot_stage: VecDeque::new(),
            refresh_stage: VecDeque::new(),
        }
    }

    pub fn stage(&self) -> (r: Stage)
        ensures
            r == self.spec_stage(),
    {
        self.stage
    }

    /// The identifiers in the hot stage, front first.
    pub fn hot(&self) -> (r: Vec<u64>)
        ensures
            r@ == self.spec_hot(),
    {
        let mut r: Vec<u64> = Vec::new();
        for i in 0..self.hot_stage.len()
            invariant
                r@ == self.spec_hot().take(i as int),
        {
            r.push(self.hot_stage[i]);
            assert(self.spec_hot().take(i as int + 1) == self.spec_hot().take(i as int).push(self.spec_hot()[i as int]));
        }
        assert(self.spec_hot().take(self.spec_hot().len() as int) == self.spec_hot());
        r
    }

    /// The identifiers in the refresh stage, front first.
    pub fn refresh(&self) -> (r: Vec<u64>)
        ensures
            r@ == self.spec_refresh(),
    {
        let mut r: Vec<u64> = Vec::new();
        for i in 0..self.refresh_stage.len()
            invariant
                r@ == self.spec_refresh().take(i as int),
        {
            r.push(self.refresh_stage[i]);
            assert(self.spec_refresh().take(i as int + 1) == self.spec_refresh().take(i as int).push(self.spec_refresh()[i as int]));
        }
        assert(self.spec_refresh().take(self.spec_refresh().len() as int) == self.spec_refresh());
        r
    }

    /// The review state of `id`, where it is scheduled.
    pub fn state(&self, id: u64) -> (r: Option<ReviewState>)
        ensures
            r == (if self.spec_items().contains_key(id) {
                Some(self.spec_items()[id])
            } else {
                None::<ReviewState>
            }),
    {
        match table_get(&self.items, id) {
            Some(st) => Some(*st),
            None => None,
        }
    }

    /// True where `id` is already scheduled.
    pub fn has_item(&self, id: u64) -> (r: bool)
        ensures
            r == self.spec_items().contains_key(id),
    {
        table_contains(&self.items, id)
    }

    /// Schedules a new item on `today` and queues it at the back of the hot
    /// stage, which becomes the current stage.
    pub fn add_item(&mut self, id: u64, today: Date)
        requires
            old(self).wf(),
            !old(self).spec_items().contains_key(id),
            today.wf(),
        ensures
            final(self).wf(),
            final(self).spec_items() == old(self).spec_items().insert(id, ReviewState::new_spec(today)),
            final(self).spec_hot() == old(self).spec_hot().push(id),
            final(self).spec_refresh() == old(self).spec_refresh(),
            final(self).spec_stage() == Stage::Hot,
    {
        let s = ReviewState::new(today);
        table_insert(&mut self.items, id, s);
        self.hot_stage.push_back(id);
        self.stage = Stage::Hot;
        proof {
            let keys = self.spec_items().dom();
            let old_hot = old(self).spec_hot();
            let old_refresh = old(self).spec_refresh();
            lemma_queues_ok_grow(old_hot, old_refresh, old(self).spec_items().dom(), keys);
            assert(!old_hot.contains(id)) by {
                if old_hot.contains(id) {
                    let k = choose|k: int| 0 <= k < old_hot.len() && old_hot[k] == id;
                }
            }
            assert(!old_refresh.contains(id)) by {
                if old_refresh.contains(id) {
                    let k = choose|k: int| 0 <= k < old_refresh.len() && old_refresh[k] == id;
                }
            }
            lemma_push_keeps(old_hot, old_refresh, id, keys);
        }
    }

    /// True when both stages are empty: nothing is left for today.
    pub fn is_done(&self) -> (r: bool)
        ensures
            r == self.spec_is_done(),
    {
        self.hot_stage.len() == 0 && self.refresh_stage.len() == 0
    }

    /// Rates the current item `q` on `today` and moves on. In the hot stage the
    /// rating updates the item's review state; in the refresh stage it does
    /// not. The item then goes to the back of the hot stage (below 3), to the
    /// back of the refresh stage (3) or out of today's session (above 3), and
    /// the refresh stage becomes current only while the hot one is empty.
    /// Where the state cannot be updated nothing changes.
    pub fn update_current(&mut self, q: u8, today: Date) -> (r: Result<(), RateError>)
        requires
            old(self).wf(),
            !old(self).spec_is_done(),
            q <= MAX_RATING,
            today.wf(),
        ensures
            final(self).wf(),
            ({
                let id = old(self).spec_current();
                let queues = requeued(old(self).spec_hot(), old(self).spec_refresh(), old(self).spec_stage(), q as int);
                let moved = final(self).spec_hot() == queues.0 && final(self).spec_refresh() == queues.1
                    && final(self).spec_stage() == stage_for(queues.0, queues.1);
                if old(self).spec_stage() == Stage::Refresh {
                    r is Ok && moved && final(self).spec_items() == old(self).spec_items()
                } else {
                    match rated(old(self).spec_items()[id], q as int, today) {
                        Ok(n) => r is Ok && moved && final(self).spec_items() == old(self).spec_items().insert(id, n),
                        Err(e) => r == Err::<(), RateError>(e) && final(self).spec_items() == old(self).spec_items()
                            && final(self).spec_hot() == old(self).spec_hot()
                            && final(self).spec_refresh() == old(self).spec_refresh()
                            && final(self).spec_stage() == old(self).spec_stage(),
                    }
                }
            }),
    {
        let id = self.current();
        proof {
            lemma_requeue_places_item(
                self.spec_hot(),
                self.spec_refresh(),
                self.spec_stage(),
                q as int,
                self.spec_items().dom(),
            );
            if self.spec_stage() == Stage::Hot {
                assert(self.spec_items().contains_key(self.spec_hot()[0]));
            } else {
                assert(self.spec_items().contains_key(self.spec_refresh()[0]));
            }
        }
        if self.stage == Stage::Hot {
            let st = match table_get(&self.items, id) {
                Some(st) => *st,
                None => return Ok(()),
            };
            match st.rate(q, today) {
                Ok(n) => {
                    table_insert(&mut self.items, id, n);
                },
                Err(e) => return Err(e),
            }
            self.hot_stage.pop_front();
        } else {
            self.refresh_stage.pop_front();
        }
        if q < PASSING_RATING {
            self.hot_stage.push_back(id);
        } else if q == PASSING_RATING {
            self.refresh_stage.push_back(id);
        }
        if self.hot_stage.len() == 0 && self.refresh_stage.len() > 0 {
            self.stage = Stage::Refresh;
        } else {
            self.stage = Stage::Hot;
        }
        proof {
            assert(self.spec_items().dom() == old(self).spec_items().dom()) by {
                assert(self.spec_items().dom() =~= old(self).spec_items().dom());
            }
        }
        Ok(())
    }

    /// The item to review now: the front of the current stage.
    pub fn current(&self) -> (r: u64)
        requires
            self.wf(),
            !self.spec_is_done(),
        ensures
            r == self.spec_current(),
    {
        match self.stage {
            Stage::Hot => self.hot_stage[0],
            Stage::Refresh => self.refresh_stage[0],
        }
    }
}

} // verus!
