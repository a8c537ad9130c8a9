//! Unresolved references: citations the crawl could not turn into links,
//! aggregated into a persisted store with one record per
//! (source statute, alias) pair.  A repeated occurrence increments the
//! record's counter and refreshes its last-seen timestamp instead of
//! duplicating it.

use vstd::prelude::*;
use vstd::string::StringExecFns;
use crate::dictionary::opt_view;
use crate::candidate::clone_opt_string;

verus! {

/// A reference the crawl could not resolve: where it stood, the token or
/// alias, and an optional sample of its surroundings.
pub struct UnresolvedRef {
    pub source_law: String,
    pub alias: String,
    pub sample_context: Option<String>,
}

/// A persisted unresolved-reference record.
pub struct UnresolvedRefRecord {
    pub source_law: String,
    pub alias: String,
    pub first_seen_at: String,
    pub last_seen_at: String,
    pub count: u64,
    pub sample_context: Option<String>,
    pub status: String,
}

/// The persisted store: records in insertion order.
pub struct UnresolvedRefStore {
    pub items: Vec<UnresolvedRefRecord>,
}

/// The mathematical shape of an event.
pub ghost struct EventV {
    pub source: Seq<char>,
    pub alias: Seq<char>,
    pub sample: Option<Seq<char>>,
}

/// The mathematical shape of a record.
pub ghost struct RecV {
    pub source: Seq<char>,
    pub alias: Seq<char>,
    pub first_seen: Seq<char>,
    pub last_seen: Seq<char>,
    pub count: int,
    pub sample: Option<Seq<char>>,
    pub status: Seq<char>,
}

pub open spec fn event_view(e: UnresolvedRef) -> EventV {
    EventV { source: e.source_law@, alias: e.alias@, sample: opt_view(e.sample_context) }
}

pub open spec fn events_view(es: Seq<UnresolvedRef>) -> Seq<EventV> {
    es.map_values(|e: UnresolvedRef| event_view(e))
}

pub open spec fn rec_view(r: UnresolvedRefRecord) -> RecV {
    RecV {
        source: r.source_law@,
        alias: r.alias@,
        first_seen: r.first_seen_at@,
        last_seen: r.last_seen_at@,
        count: r.count as int,
        sample: opt_view(r.sample_context),
        status: r.status@,
    }
}

impl View for UnresolvedRefStore {
    type V = Seq<RecV>;

    open spec fn view(&self) -> Seq<RecV> {
        self.items@.map_values(|r: UnresolvedRefRecord| rec_view(r))
    }
}

/// The first record for `(source, alias)`, or -1.
pub open spec fn find_rec(items: Seq<RecV>, source: Seq<char>, alias: Seq<char>) -> int
    decreases items.len(),
{
    if items.len() == 0 {
        -1
    } else if items[0].source == source && items[0].alias == alias {
        0
    } else {
        let r = find_rec(items.drop_first(), source, alias);
        if r < 0 {
            -1
        } else {
            r + 1
        }
    }
}

pub proof fn lemma_find_rec(items: Seq<RecV>, source: Seq<char>, alias: Seq<char>)
    ensures
        find_rec(items, source, alias) >= 0 ==> find_rec(items, source, alias) < items.len()
            && items[find_rec(items, source, alias)].source == source && items[find_rec(
            items,
            source,
            alias,
        )].alias == alias,
    decreases items.len(),
{
    if items.len() > 0 && !(items[0].source == source && items[0].alias == alias) {
        lemma_find_rec(items.drop_first(), source, alias);
    }
}

/// One event folded into the records: increment-or-insert by
/// (source, alias), refreshing last-seen, keeping first-seen, and filling
/// in a sample only where none is stored yet.
pub open spec fn apply_event(items: Seq<RecV>, ev: EventV, now: Seq<char>) -> Seq<RecV> {
    let i = find_rec(items, ev.source, ev.alias);
    if i >= 0 {
        let old_rec = items[i];
        items.update(
            i,
            RecV {
                last_seen: now,
                count: old_rec.count + 1,
                sample: if old_rec.sample is None && ev.sample is Some {
                    ev.sample
                } else {
                    old_rec.sample
                },
                ..old_rec
            },
        )
    } else {
        items.push(
            RecV {
                source: ev.source,
                alias: ev.alias,
                first_seen: now,
                last_seen: now,
                count: 1,
                sample: ev.sample,
                status: "pending"@,
            },
        )
    }
}

/// All events folded in, in order.
pub open spec fn merge_events(items: Seq<RecV>, evs: Seq<EventV>, now: Seq<char>) -> Seq<RecV>
    decreases evs.len(),
{
    if evs.len() == 0 {
        items
    } else {
        apply_event(merge_events(items, evs.drop_last(), now), evs.last(), now)
    }
}

/// Finds the first record for `(source, alias)` in the store.
fn find_rec_exec(store: &UnresolvedRefStore, source: &String, alias: &String) -> (r: Option<usize>)
    ensures
        match r {
            Some(i) => i < store.items.len() && find_rec(store@, source@, alias@) == i as int,
            None => find_rec(store@, source@, alias@) == -1,
        },
{
    let ghost full = store@;
    let mut i: usize = 0;
    proof {
        assert(full.skip(0) =~= full);
    }
    while i < store.items.len()
        invariant
            full == store@,
            i <= store.items.len(),
            ({
                let r = find_rec(full, source@, alias@);
                (r >= i as int && find_rec(
                    full.skip(i as int),
                    source@,
                    alias@,
                ) == r - i as int) || (r == -1 && find_rec(full.skip(i as int), source@, alias@)
                    == -1)
            }),
        decreases store.items.len() - i,
    {
        let ghost rest = full.skip(i as int);
        proof {
            assert(rest[0] == rec_view(store.items@[i as int]));
            assert(rest.drop_first() =~= full.skip(i as int + 1));
        }
        if store.items[i].source_law.eq(source) && store.items[i].alias.eq(alias) {
            return Some(i);
        }
        i += 1;
    }
    proof {
        assert(full.skip(i as int).len() == 0);
    }
    None
}

/// Folds this run's unresolved events into the persisted records:
/// increment-or-insert semantics by (source statute, alias).  The count
/// bounds keep every increment within the counter's range.
pub fn merge_unresolved_refs(store: &mut UnresolvedRefStore, events: &Vec<UnresolvedRef>, now: &str)
    requires
        events@.len() + 1 <= u64::MAX,
        forall|i: int|
            0 <= i < old(store)@.len() ==> #[trigger] old(store)@[i].count + events@.len()
                <= u64::MAX,
    ensures
        final(store)@ == merge_events(old(store)@, events_view(events@), now@),
{
    let ghost evs = events_view(events@);
    let mut j: usize = 0;
    proof {
        assert(evs.subrange(0, 0) =~= Seq::<EventV>::empty());
    }
    while j < events.len()
        invariant
            evs == events_view(events@),
            evs.len() + 1 <= u64::MAX,
            j <= events.len(),
            store@ == merge_events(old(store)@, evs.subrange(0, j as int), now@),
            forall|i: int|
                0 <= i < store@.len() ==> #[trigger] store@[i].count + (events@.len() - j)
                    <= u64::MAX,
        decreases events.len() - j,
    {
        let ghost items0 = store@;
        let ev = &events[j];
        proof {
            assert(evs[j as int] == event_view(events@[j as int]));
        }
        match find_rec_exec(store, &ev.source_law, &ev.alias) {
            Some(i) => {
                proof {
                    lemma_find_rec(items0, ev.source_law@, ev.alias@);
                }
                proof {
                    assert(store@[i as int].count + (events@.len() - j) <= u64::MAX);
                }
                let rec = &mut store.items[i];
                rec.count = rec.count + 1;
                rec.last_seen_at = String::from_str(now);
                let fill = match (&rec.sample_context, &ev.sample_context) {
                    (None, Some(_)) => true,
                    _ => false,
                };
                if fill {
                    rec.sample_context = clone_opt_string(&ev.sample_context);
                }
                proof {
                    assert(store@ =~= apply_event(items0, evs[j as int], now@));
                }
            },
            None => {
                store.items.push(
                    UnresolvedRefRecord {
                        source_law: ev.source_law.clone(),
                        alias: ev.alias.clone(),
                        first_seen_at: String::from_str(now),
                        last_seen_at: String::from_str(now),
                        count: 1,
                        sample_context: clone_opt_string(&ev.sample_context),
                        status: String::from_str("pending"),
                    },
                );
                proof {
                    assert(store@ =~= apply_event(items0, evs[j as int], now@));
                }
            },
        }
        j += 1;
        proof {
            assert(evs.subrange(0, j as int).drop_last() =~= evs.subrange(0, j - 1));
            assert(evs.subrange(0, j as int).last() == evs[j - 1]);
        }
    }
    proof {
        assert(evs.subrange(0, evs.len() as int) =~= evs);
    }
}

} // verus!
