//! A learning session: the cards, the ones not yet scheduled, and the
//! schedule that orders today's reviews.

use crate::card::Card;
use crate::date::Date;
use crate::review::{rated, RateError, ReviewState, MAX_RATING};
use crate::text::file_lines;
use crate::scheduler::{load_error_is, due_ids, records_map, records_of_lines, is_saved_text, table_get, table_insert, table_new, LoadError, Schedule, Stage, Table, requeued, stage_for};
use std::collections::VecDeque;
use vstd::prelude::*;

verus! {

/// The identifiers of `cards`, in order.
pub open spec fn card_ids(cards: Seq<Card>) -> Seq<u64> {
    cards.map_values(|c: Card| c.spec_id())
}

/// `items` with a fresh state, scheduled on `today`, for each of `ids`.
pub open spec fn with_new_items(items: Map<u64, ReviewState>, ids: Seq<u64>, today: Date) -> Map<u64, ReviewState>
    decreases ids.len(),
{
    if ids.len() == 0 {
        items
    } else {
        with_new_items(items, ids.drop_last(), today).insert(ids.last(), ReviewState::new_spec(today))
    }
}

/// The cards of a session: those already scheduled, by identifier, and those
/// waiting to be, in the order they were given.
pub struct Qa {
    queued: VecDeque<Card>,
    scheduled: Table<Card>,
    schedule: Schedule,
}

impl Qa {
    pub closed spec fn spec_queued(&self) -> Seq<Card> {
        self.queued@
    }

    pub closed spec fn spec_scheduled(&self) -> Map<u64, Card> {
        self.scheduled@
    }

    pub closed spec fn spec_schedule(&self) -> Schedule {
        self.schedule
    }

    /// The schedule is sound, and the waiting cards have distinct identifiers
    /// that the schedule does not hold yet.
    pub open spec fn wf(&self) -> bool {
        &&& self.spec_schedule().wf()
        &&& card_ids(self.spec_queued()).no_duplicates()
        &&& forall|i: int|
            0 <= i < self.spec_queued().len() ==> !self.spec_schedule().spec_items().contains_key(
                #[trigger] self.spec_queued()[i].spec_id(),
            )
    }

    /// Starts a session over `cards`, whose identifiers are distinct, and the
    /// schedule file's text (`None` where there is no file yet). Cards that
    /// the schedule holds are kept by identifier; the others wait, in order.
    pub fn load(cards: Vec<Card>, schedule_text: Option<&str>, today: Date) -> (r: Result<Qa, LoadError>)
        requires
            card_ids(cards@).no_duplicates(),
            today.wf(),
        ensures
            match schedule_text {
                None => r is Ok && r->Ok_0.spec_schedule().spec_items() == Map::<u64, ReviewState>::empty()
                    && r->Ok_0.spec_schedule().spec_is_done(),
                Some(t) => match records_of_lines(file_lines(t@)) {
                    Ok(recs) => r is Ok && r->Ok_0.spec_schedule().spec_items() == records_map(recs)
                        && r->Ok_0.spec_schedule().spec_hot() == due_ids(recs, today)
                        && r->Ok_0.spec_schedule().spec_refresh() == Seq::<u64>::empty(),
                    Err((n, e)) => r is Err && load_error_is(r->Err_0, file_lines(t@), n, e),
                },
            },
            r is Ok ==> {
                let qa = r->Ok_0;
                let items = qa.spec_schedule().spec_items();
                &&& qa.wf()
                &&& qa.spec_queued() == unscheduled(cards@, items)
                &&& forall|id: u64| #[trigger] qa.spec_scheduled().contains_key(id) <==> (items.contains_key(id)
                    && card_ids(cards@).contains(id))
                &&& forall|id: u64| #[trigger] qa.spec_scheduled().contains_key(id) ==> qa.spec_scheduled()[id].spec_id() == id
                &&& forall|i: int| 0 <= i < cards@.len() && items.contains_key(#[trigger] cards@[i].spec_id())
                    ==> qa.spec_scheduled().contains_key(cards@[i].spec_id())
                    && qa.spec_scheduled()[cards@[i].spec_id()] == cards@[i]
            },
    {
        let schedule = match schedule_text {
            Some(t) => match Schedule::load(t, today) {
                Ok(s) => s,
                Err(e) => return Err(e),
            },
            None => Schedule::new(),
        };
        let mut qa = Qa { queued: VecDeque::new(), scheduled: table_new(), schedule };
        let ghost items = qa.schedule.spec_items();
        let ghost sched0 = qa.spec_schedule();
        let ghost all = cards@;
        for c in it: cards.into_iter()
            invariant
                it.seq() == all,
                card_ids(all).no_duplicates(),
                qa.spec_schedule() == sched0,
                sched0.wf(),
                sched0.spec_items() == items,
                qa.spec_queued() == unscheduled(all.take(it.index() as int), items),
                forall|j: int| 0 <= j < qa.spec_queued().len() ==> card_ids(all.take(it.index() as int)).contains(
                    #[trigger] qa.spec_queued()[j].spec_id(),
                ),
                forall|j: int| 0 <= j < qa.spec_queued().len() ==> !items.contains_key(#[trigger] qa.spec_queued()[j].spec_id()),
                card_ids(qa.spec_queued()).no_duplicates(),
                forall|id: u64| #[trigger] qa.spec_scheduled().contains_key(id) <==> (items.contains_key(id)
                    && card_ids(all.take(it.index() as int)).contains(id)),
                forall|id: u64| #[trigger] qa.spec_scheduled().contains_key(id) ==> qa.spec_scheduled()[id].spec_id() == id,
                forall|j: int| 0 <= j < it.index() && items.contains_key(#[trigger] all[j].spec_id())
                    ==> qa.spec_scheduled().contains_key(all[j].spec_id())
                    && qa.spec_scheduled()[all[j].spec_id()] == all[j],
        {
            let ghost k = it.index() as int;
            let ghost sched_before = qa.spec_scheduled();
            assert(all.take(k + 1).drop_last() == all.take(k));
            assert(all.take(k + 1).last() == all[k]);
            assert(c == all[k]);
            assert(card_ids(all.take(k + 1)) == card_ids(all.take(k)).push(all[k].spec_id()));
            assert(!card_ids(all.take(k)).contains(all[k].spec_id())) by {
                if card_ids(all.take(k)).contains(all[k].spec_id()) {
                    let j = choose|j: int| 0 <= j < k && #[trigger] card_ids(all.take(k))[j] == all[k].spec_id();
                    assert(card_ids(all)[j] == card_ids(all)[k]);
                }
            }
            let id = c.id();
            if qa.schedule.has_item(id) {
                let ghost before = qa.spec_scheduled();
                table_insert(&mut qa.scheduled, id, c);
                assert(qa.spec_scheduled() == before.insert(id, c));
                assert(c.spec_id() == id);
                assert(qa.spec_scheduled()[id].spec_id() == id);
            } else {
                let ghost before = qa.spec_queued();
                qa.queued.push_back(c);
                proof {
                    let after = qa.spec_queued();
                    assert(card_ids(after) == card_ids(before).push(id));
                    assert forall|j: int| 0 <= j < after.len() implies card_ids(all.take(k + 1)).contains(
                        #[trigger] after[j].spec_id(),
                    ) by {
                        if j < before.len() {
                            assert(after[j] == before[j]);
                            let m = choose|m: int| 0 <= m < card_ids(all.take(k)).len() && #[trigger] card_ids(all.take(k))[m] == before[j].spec_id();
                            assert(card_ids(all.take(k + 1))[m] == card_ids(all.take(k))[m]);
                        } else {
                            assert(card_ids(all.take(k + 1))[k] == id);
                        }
                    }
                    assert(!card_ids(before).contains(id)) by {
                        if card_ids(before).contains(id) {
                            let m = choose|m: int| 0 <= m < card_ids(before).len() && #[trigger] card_ids(before)[m] == id;
                            assert(card_ids(all.take(k)).contains(before[m].spec_id()));
                        }
                    }
                }
            }
            proof {
                assert forall|id2: u64| #[trigger] card_ids(all.take(k + 1)).contains(id2) <==> (card_ids(all.take(k)).contains(id2) || id2 == id) by {
                    if card_ids(all.take(k + 1)).contains(id2) && id2 != id {
                        let m = choose|m: int| 0 <= m < card_ids(all.take(k + 1)).len() && #[trigger] card_ids(all.take(k + 1))[m] == id2;
                        assert(card_ids(all.take(k))[m] == id2);
                    }
                    if card_ids(all.take(k)).contains(id2) {
                        let m = choose|m: int| 0 <= m < card_ids(all.take(k)).len() && #[trigger] card_ids(all.take(k))[m] == id2;
                        assert(card_ids(all.take(k + 1))[m] == id2);
                    }
                    if id2 == id {
                        assert(card_ids(all.take(k + 1))[k] == id);
                    }
                }
                assert forall|id2: u64| #[trigger] qa.spec_scheduled().contains_key(id2) implies qa.spec_scheduled()[id2].spec_id() == id2
                    && items.contains_key(id2) && card_ids(all.take(k + 1)).contains(id2) by {
                    if id2 != id {
                        assert(sched_before.contains_key(id2));
                        assert(card_ids(all.take(k)).contains(id2));
                    }
                }
                assert forall|j: int| 0 <= j < k + 1 && items.contains_key(#[trigger] all[j].spec_id())
                    implies qa.spec_scheduled().contains_key(all[j].spec_id())
                    && qa.spec_scheduled()[all[j].spec_id()] == all[j] by {
                    if j < k {
                        assert(card_ids(all.take(k))[j] == all[j].spec_id());
                        assert(card_ids(all)[j] != card_ids(all)[k]);
                        assert(sched_before.contains_key(all[j].spec_id()));
                    }
                }
                assert forall|id2: u64| items.contains_key(id2) && #[trigger] card_ids(all.take(k + 1)).contains(id2) implies qa.spec_scheduled().contains_key(id2) by {
                    if id2 != id {
                        assert(card_ids(all.take(k)).contains(id2));
                        assert(sched_before.contains_key(id2));
                    }
                }
            }
        }
        assert(all.take(all.len() as int) == all);
        Ok(qa)
    }
}

impl Qa {
    /// The schedule of this session.
    pub fn schedule(&self) -> (r: &Schedule)
        ensures
            *r == self.spec_schedule(),
    {
        &self.schedule
    }

    /// The text of the schedule file; see `Schedule::save`.
    pub fn save(&self) -> (r: String)
        ensures
            is_saved_text(self.spec_schedule().spec_items(), r@),
    {
        self.schedule.save()
    }

    /// True when nothing is left to review today.
    pub fn is_today_schedule_done(&self) -> (r: bool)
        ensures
            r == self.spec_schedule().spec_is_done(),
    {
        self.schedule.is_done()
    }

    /// True when every card is scheduled: none is waiting.
    pub fn is_all_scheduled(&self) -> (r: bool)
        ensures
            r == (self.spec_queued().len() == 0),
    {
        self.queued.len() == 0
    }

    /// Schedules up to `count` waiting cards on `today`, first come first
    /// served; fewer where fewer are waiting.
    pub fn schedule_more(&mut self, count: usize, today: Date)
        requires
            old(self).wf(),
            today.wf(),
        ensures
            final(self).wf(),
            ({
                let k = if count < old(self).spec_queued().len() {
                    count as int
                } else {
                    old(self).spec_queued().len() as int
                };
                let ids = card_ids(old(self).spec_queued().take(k));
                &&& final(self).spec_queued() == old(self).spec_queued().skip(k)
                &&& final(self).spec_schedule().spec_items() == with_new_items(
                    old(self).spec_schedule().spec_items(),
                    ids,
                    today,
                )
                &&& final(self).spec_schedule().spec_hot() == old(self).spec_schedule().spec_hot() + ids
                &&& final(self).spec_schedule().spec_refresh() == old(self).spec_schedule().spec_refresh()
                &&& k > 0 ==> final(self).spec_schedule().spec_stage() == Stage::Hot
                &&& k == 0 ==> final(self).spec_schedule().spec_stage() == old(self).spec_schedule().spec_stage()
                &&& forall|i: int| 0 <= i < k ==> #[trigger] final(self).spec_scheduled().contains_key(ids[i])
                    && final(self).spec_scheduled()[ids[i]] == old(self).spec_queued()[i]
                &&& forall|id: u64| !ids.contains(id) ==> (#[trigger] final(self).spec_scheduled().contains_key(id)
                    == old(self).spec_scheduled().contains_key(id)) && (old(self).spec_scheduled().contains_key(id)
                    ==> final(self).spec_scheduled()[id] == old(self).spec_scheduled()[id])
            }),
    {
        let ghost q0 = self.spec_queued();
        let ghost s0 = self.spec_schedule();
        let ghost sc0 = self.spec_scheduled();
        assert(card_ids(q0.take(0)) =~= Seq::<u64>::empty());
        let mut done: usize = 0;
        while done < count && self.queued.len() > 0
            invariant
                self.wf(),
                today.wf(),
                done <= count,
                done <= q0.len(),
                self.spec_queued() == q0.skip(done as int),
                self.spec_schedule().spec_items() == with_new_items(s0.spec_items(), card_ids(q0.take(done as int)), today),
                self.spec_schedule().spec_hot() == s0.spec_hot() + card_ids(q0.take(done as int)),
                self.spec_schedule().spec_refresh() == s0.spec_refresh(),
                done > 0 ==> self.spec_schedule().spec_stage() == Stage::Hot,
                done == 0 ==> self.spec_schedule().spec_stage() == s0.spec_stage(),
                forall|i: int| 0 <= i < done ==> #[trigger] self.spec_scheduled().contains_key(card_ids(q0.take(done as int))[i])
                    && self.spec_scheduled()[card_ids(q0.take(done as int))[i]] == q0[i],
                card_ids(q0).no_duplicates(),
                forall|id: u64| !card_ids(q0.take(done as int)).contains(id) ==> (#[trigger] self.spec_scheduled().contains_key(id)
                    == sc0.contains_key(id)) && (sc0.contains_key(id) ==> self.spec_scheduled()[id] == sc0[id]),
            decreases count - done,
        {
            let ghost before = self.spec_queued();
            let ghost sched_before = self.spec_scheduled();
            let card = match self.queued.pop_front() {
                Some(card) => card,
                None => return,
            };
            let id = card.id();
            assert(before[0] == card);
            assert(q0[done as int] == card);
            proof {
                assert(self.spec_queued() == before.drop_first());
                assert(card_ids(self.spec_queued()) =~= card_ids(before).drop_first());
                assert forall|i: int| 0 <= i < self.spec_queued().len() implies !self.spec_schedule().spec_items().contains_key(
                    #[trigger] self.spec_queued()[i].spec_id()) by {
                    assert(self.spec_queued()[i] == before[i + 1]);
                }
                assert(!self.spec_schedule().spec_items().contains_key(id));
            }
            self.schedule.add_item(id, today);
            table_insert(&mut self.scheduled, id, card);
            proof {
                let q = self.spec_queued();
                assert(q0.take(done as int + 1) == q0.take(done as int).push(card));
                assert(card_ids(q0.take(done as int + 1)) == card_ids(q0.take(done as int)).push(id));
                assert(q == q0.skip(done as int + 1));
                assert(card_ids(q).no_duplicates()) by {
                    assert forall|i: int, j: int| 0 <= i < q.len() && 0 <= j < q.len() && i != j implies card_ids(q)[i] != card_ids(q)[j] by {
                        assert(q[i] == before[i + 1]);
                        assert(q[j] == before[j + 1]);
                        assert(card_ids(before)[i + 1] != card_ids(before)[j + 1]);
                    }
                }
                assert forall|i: int| 0 <= i < q.len() implies !self.spec_schedule().spec_items().contains_key(
                    #[trigger] q[i].spec_id()) by {
                    assert(q[i] == before[i + 1]);
                    assert(card_ids(before)[i + 1] != card_ids(before)[0]);
                }
                let ids1 = card_ids(q0.take(done as int + 1));
                assert(ids1.drop_last() == card_ids(q0.take(done as int)));
                assert(ids1.last() == id);
                let ids0 = card_ids(q0.take(done as int));
                assert forall|i: int| 0 <= i < done + 1 implies #[trigger] self.spec_scheduled().contains_key(ids1[i])
                    && self.spec_scheduled()[ids1[i]] == q0[i] by {
                    if i < done {
                        assert(ids1[i] == ids0[i]);
                        assert(q0.take(done as int)[i] == q0[i]);
                        assert(card_ids(q0)[i] != card_ids(q0)[done as int]);
                        assert(sched_before.contains_key(ids1[i]));
                    }
                }
                assert(!ids0.contains(id)) by {
                    if ids0.contains(id) {
                        let m = choose|m: int| 0 <= m < ids0.len() && #[trigger] ids0[m] == id;
                        assert(q0.take(done as int)[m] == q0[m]);
                        assert(card_ids(q0)[m] != card_ids(q0)[done as int]);
                    }
                }
                assert forall|id2: u64| !ids1.contains(id2) implies (#[trigger] self.spec_scheduled().contains_key(id2)
                    == sc0.contains_key(id2)) && (sc0.contains_key(id2) ==> self.spec_scheduled()[id2] == sc0[id2]) by {
                    assert(id2 != id) by {
                        assert(ids1[done as int] == id);
                    }
                    assert(!ids0.contains(id2)) by {
                        if ids0.contains(id2) {
                            let m = choose|m: int| 0 <= m < ids0.len() && #[trigger] ids0[m] == id2;
                            assert(ids1[m] == id2);
                        }
                    }
                }
            }
            done = done + 1;
        }
        proof {
            if done < count {
                assert(q0.skip(done as int).len() == 0);
                assert(done == q0.len());
            }
        }
    }

    /// The card to review now, where the session still has its card.
    pub fn current_card(&self) -> (r: Option<&Card>)
        requires
            self.wf(),
            !self.spec_schedule().spec_is_done(),
        ensures
            match r {
                Some(c) => self.spec_scheduled().contains_key(self.spec_schedule().spec_current())
                    && *c == self.spec_scheduled()[self.spec_schedule().spec_current()],
                None => !self.spec_scheduled().contains_key(self.spec_schedule().spec_current()),
            },
    {
        let id = self.schedule.current();
        table_get(&self.scheduled, id)
    }

    /// Rates the current card; see `Schedule::update_current`.
    pub fn assess_current(&mut self, q: u8, today: Date) -> (r: Result<(), RateError>)
        requires
            old(self).wf(),
            !old(self).spec_schedule().spec_is_done(),
            q <= MAX_RATING,
            today.wf(),
        ensures
            final(self).wf(),
            final(self).spec_queued() == old(self).spec_queued(),
            final(self).spec_scheduled() == old(self).spec_scheduled(),
            ({
                let before = old(self).spec_schedule();
                let after = final(self).spec_schedule();
                let id = before.spec_current();
                let queues = requeued(before.spec_hot(), before.spec_refresh(), before.spec_stage(), q as int);
                let moved = after.spec_hot() == queues.0 && after.spec_refresh() == queues.1 && after.spec_stage()
                    == stage_for(queues.0, queues.1);
                if before.spec_stage() == Stage::Refresh {
                    r is Ok && moved && after.spec_items() == before.spec_items()
                } else {
                    match rated(before.spec_items()[id], q as int, today) {
                        Ok(n) => r is Ok && moved && after.spec_items() == before.spec_items().insert(id, n),
                        Err(e) => r == Err::<(), RateError>(e) && after.spec_items() == before.spec_items()
                            && after.spec_hot() == before.spec_hot() && after.spec_refresh() == before.spec_refresh()
                            && after.spec_stage() == before.spec_stage(),
                    }
                }
            }),
    {
        let r = self.schedule.update_current(q, today);
        proof {
            assert(self.spec_schedule().spec_items().dom() =~= old(self).spec_schedule().spec_items().dom()) by {
                if r is Ok && old(self).spec_schedule().spec_stage() == Stage::Hot {
                    let id = old(self).spec_schedule().spec_current();
                    assert(old(self).spec_schedule().spec_items().contains_key(id)) by {
                        assert(old(self).spec_schedule().spec_items().contains_key(old(self).spec_schedule().spec_hot()[0]));
                    }
                }
            }
            assert forall|i: int| 0 <= i < self.spec_queued().len() implies !self.spec_schedule().spec_items().contains_key(
                #[trigger] self.spec_queued()[i].spec_id()) by {
                assert(!old(self).spec_schedule().spec_items().contains_key(self.spec_queued()[i].spec_id()));
            }
        }
        r
    }
}

/// The cards among `cards` whose identifiers `items` does not hold, in order.
pub open spec fn unscheduled(cards: Seq<Card>, items: Map<u64, ReviewState>) -> Seq<Card>
    decreases cards.len(),
{
    if cards.len() == 0 {
        Seq::empty()
    } else if items.contains_key(cards.last().spec_id()) {
        unscheduled(cards.drop_last(), items)
    } else {
        unscheduled(cards.drop_last(), items).push(cards.last())
    }
}

} // verus!
