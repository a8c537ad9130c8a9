//! The crawl orchestrator's state: the breadth-first queue, the visited
//! set keyed by candidate identity, the depth bound, and the pure
//! candidate-resolution decisions.  The surrounding loop performs the
//! network fetches and feeds their outcomes back into this state.

use vstd::prelude::*;
use vstd::string::StringExecFns;
use crate::candidate::LawCandidate;
use crate::extract::{LawRef, LawRefV, refs_view};
use crate::unresolved::{UnresolvedRef, EventV, event_view, events_view};

verus! {

/// One pending crawl step: the title to resolve, its depth, and the
/// statute whose text cited it.
pub struct CrawlQueueEntry {
    pub law_title: String,
    pub depth: usize,
    pub source_law: String,
}

/// The mathematical shape of a queue entry.
pub ghost struct EntryV {
    pub title: Seq<char>,
    pub depth: int,
    pub source: Seq<char>,
}

pub open spec fn entry_view(e: CrawlQueueEntry) -> EntryV {
    EntryV { title: e.law_title@, depth: e.depth as int, source: e.source_law@ }
}

pub open spec fn entries_view(es: Seq<CrawlQueueEntry>) -> Seq<EntryV> {
    es.map_values(|e: CrawlQueueEntry| entry_view(e))
}

/// The crawl state owned for the duration of one run.
pub struct Crawler {
    pub max_depth: usize,
    pub non_interactive: bool,
    pub queue: Vec<CrawlQueueEntry>,
    pub visited: Vec<String>,
    pub unresolved: Vec<UnresolvedRef>,
}

/// The identity keys already visited.
pub open spec fn visited_view(c: Crawler) -> Seq<Seq<char>> {
    c.visited@.map_values(|s: String| s@)
}

/// The queue as entry views.
pub open spec fn queue_view(c: Crawler) -> Seq<EntryV> {
    entries_view(c.queue@)
}

/// The unresolved events recorded so far.
pub open spec fn unresolved_view(c: Crawler) -> Seq<EventV> {
    events_view(c.unresolved@)
}

/// An entry exceeds the crawl's depth bound.
pub open spec fn spec_depth_exceeded(c: Crawler, depth: int) -> bool {
    depth > c.max_depth
}

/// The entries that the references found at `depth` contribute to the
/// queue: one per reference, one level deeper, sourced at the statute the
/// reference was found in.
pub open spec fn enqueued_entries(refs: Seq<LawRefV>, depth: int) -> Seq<EntryV> {
    refs.map_values(|r: LawRefV| EntryV { title: r.title, depth: depth + 1, source: r.source })
}

/// The outcome of marking an identity key: whether it was fresh, and the
/// visited set afterwards.
pub ghost struct MarkOut {
    pub fresh: bool,
    pub visited: Seq<Seq<char>>,
}

pub open spec fn spec_mark(vs: Seq<Seq<char>>, k: Seq<char>) -> MarkOut {
    if vs.contains(k) {
        MarkOut { fresh: false, visited: vs }
    } else {
        MarkOut { fresh: true, visited: vs.push(k) }
    }
}

impl Crawler {
    /// A fresh crawl: the queue holds the root at depth zero, sourced at
    /// itself; nothing is visited and nothing is unresolved.
    pub fn new(root_title: &str, max_depth: usize, non_interactive: bool) -> (r: Crawler)
        ensures
            r.max_depth == max_depth,
            r.non_interactive == non_interactive,
            queue_view(r) =~= seq![
                EntryV { title: root_title@, depth: 0, source: root_title@ },
            ],
            visited_view(r) =~= Seq::<Seq<char>>::empty(),
            unresolved_view(r) =~= Seq::<EventV>::empty(),
    {
        let mut queue: Vec<CrawlQueueEntry> = Vec::new();
        queue.push(
            CrawlQueueEntry {
                law_title: String::from_str(root_title),
                depth: 0,
                source_law: String::from_str(root_title),
            },
        );
        Crawler {
            max_depth,
            non_interactive,
            queue,
            visited: Vec::new(),
            unresolved: Vec::new(),
        }
    }

    /// Takes the next pending entry off the front of the queue.
    pub fn dequeue(&mut self) -> (r: Option<CrawlQueueEntry>)
        ensures
            final(self).max_depth == old(self).max_depth,
            final(self).non_interactive == old(self).non_interactive,
            visited_view(*final(self)) == visited_view(*old(self)),
            unresolved_view(*final(self)) == unresolved_view(*old(self)),
            match r {
                Some(e) => queue_view(*old(self)).len() > 0 && entry_view(e) == queue_view(
                    *old(self),
                )[0] && queue_view(*final(self)) == queue_view(*old(self)).drop_first(),
                None => queue_view(*old(self)).len() == 0 && queue_view(*final(self))
                    == queue_view(*old(self)),
            },
    {
        if self.queue.len() == 0 {
            return None;
        }
        let e = self.queue.remove(0);
        proof {
            assert(queue_view(*self) =~= queue_view(*old(self)).drop_first());
        }
        Some(e)
    }

    /// Whether an entry at `depth` lies beyond the crawl's bound and is to
    /// be dropped.
    pub fn depth_exceeded(&self, depth: usize) -> (r: bool)
        ensures
            r == spec_depth_exceeded(*self, depth as int),
    {
        depth > self.max_depth
    }

    /// Marks an identity key as visited; reports false when it was seen
    /// before, in which case nothing changes.
    pub fn mark_visited_if_new(&mut self, key: &str) -> (fresh: bool)
        ensures
            final(self).max_depth == old(self).max_depth,
            final(self).non_interactive == old(self).non_interactive,
            queue_view(*final(self)) == queue_view(*old(self)),
            unresolved_view(*final(self)) == unresolved_view(*old(self)),
            spec_mark(visited_view(*old(self)), key@) == (MarkOut {
                fresh: fresh,
                visited: visited_view(*final(self)),
            }),
    {
        let ghost vs = visited_view(*self);
        let mut i: usize = 0;
        while i < self.visited.len()
            invariant
                vs == visited_view(*self),
                i <= self.visited.len(),
                forall|m: int| 0 <= m < i ==> vs[m] != key@,
            decreases self.visited.len() - i,
        {
            proof {
                assert(vs[i as int] == self.visited@[i as int]@);
            }
            let ks = String::from_str(key);
            if self.visited[i].eq(&ks) {
                proof {
                    assert(vs.contains(key@));
                }
                return false;
            }
            i += 1;
        }
        proof {
            assert(forall|m: int| 0 <= m < vs.len() ==> vs[m] != key@);
            assert(!vs.contains(key@));
        }
        self.visited.push(String::from_str(key));
        proof {
            assert(visited_view(*self) =~= vs.push(key@));
        }
        true
    }

    /// Records one unresolved reference event.
    pub fn record_unresolved(&mut self, ev: UnresolvedRef)
        ensures
            final(self).max_depth == old(self).max_depth,
            final(self).non_interactive == old(self).non_interactive,
            queue_view(*final(self)) == queue_view(*old(self)),
            visited_view(*final(self)) == visited_view(*old(self)),
            unresolved_view(*final(self)) == unresolved_view(*old(self)).push(event_view(ev)),
    {
        self.unresolved.push(ev);
        proof {
            assert(unresolved_view(*self) =~= unresolved_view(*old(self)).push(
                event_view(self.unresolved@.last()),
            ));
        }
    }

    /// Records every leftover anaphoric token of a rewritten note as an
    /// unresolved event of the note's statute, with no sample context.
    pub fn record_note_tokens(&mut self, source_law: &str, tokens: &Vec<String>)
        ensures
            final(self).max_depth == old(self).max_depth,
            final(self).non_interactive == old(self).non_interactive,
            queue_view(*final(self)) == queue_view(*old(self)),
            visited_view(*final(self)) == visited_view(*old(self)),
            unresolved_view(*final(self)) == unresolved_view(*old(self)) + tokens.deep_view().map_values(
                |a: Seq<char>| EventV { source: source_law@, alias: a, sample: None },
            ),
    {
        let ghost base = unresolved_view(*self);
        let ghost toks = tokens.deep_view();
        let ghost f = |a: Seq<char>| EventV { source: source_law@, alias: a, sample: None };
        let mut i: usize = 0;
        while i < tokens.len()
            invariant
                toks == tokens.deep_view(),
                i <= tokens.len(),
                self.max_depth == old(self).max_depth,
                self.non_interactive == old(self).non_interactive,
                queue_view(*self) == queue_view(*old(self)),
                visited_view(*self) == visited_view(*old(self)),
                base == unresolved_view(*old(self)),
                unresolved_view(*self) =~= base + toks.subrange(0, i as int).map_values(
                    |a: Seq<char>| EventV { source: source_law@, alias: a, sample: None },
                ),
            decreases tokens.len() - i,
        {
            let ev = UnresolvedRef {
                source_law: String::from_str(source_law),
                alias: tokens[i].clone(),
                sample_context: None,
            };
            let ghost evv = event_view(ev);
            let ghost prev = unresolved_view(*self);
            self.unresolved.push(ev);
            i += 1;
            proof {
                assert(unresolved_view(*self) =~= prev.push(evv));
                assert(toks[i - 1] == tokens@[i - 1]@);
                assert(evv == (EventV {
                    source: source_law@,
                    alias: toks[i - 1],
                    sample: None,
                }));
                assert(unresolved_view(*self) =~= base + toks.subrange(0, i as int).map_values(
                    |a: Seq<char>| EventV { source: source_law@, alias: a, sample: None },
                ));
            }
        }
        proof {
            assert(toks.subrange(0, toks.len() as int) =~= toks);
        }
    }

    /// Queues every extracted reference one level deeper than the entry it
    /// was found in.
    pub fn enqueue_refs(&mut self, refs: &Vec<LawRef>, depth: usize)
        requires
            depth < usize::MAX,
        ensures
            final(self).max_depth == old(self).max_depth,
            final(self).non_interactive == old(self).non_interactive,
            visited_view(*final(self)) == visited_view(*old(self)),
            unresolved_view(*final(self)) == unresolved_view(*old(self)),
            queue_view(*final(self)) == queue_view(*old(self)) + enqueued_entries(
                refs_view(refs@),
                depth as int,
            ),
    {
        let ghost base = queue_view(*self);
        let ghost rv = refs_view(refs@);
        let mut i: usize = 0;
        while i < refs.len()
            invariant
                depth < usize::MAX,
                rv == refs_view(refs@),
                i <= refs.len(),
                self.max_depth == old(self).max_depth,
                self.non_interactive == old(self).non_interactive,
                visited_view(*self) == visited_view(*old(self)),
                unresolved_view(*self) == unresolved_view(*old(self)),
                base == queue_view(*old(self)),
                queue_view(*self) =~= base + enqueued_entries(
                    rv.subrange(0, i as int),
                    depth as int,
                ),
            decreases refs.len() - i,
        {
            let e = CrawlQueueEntry {
                law_title: refs[i].law_title.clone(),
                depth: depth + 1,
                source_law: refs[i].source_law.clone(),
            };
            let ghost evv = entry_view(e);
            let ghost prev = queue_view(*self);
            self.queue.push(e);
            i += 1;
            proof {
                assert(queue_view(*self) =~= prev.push(evv));
                assert(rv[i - 1] == crate::extract::law_ref_view(refs@[i - 1]));
                assert(evv == (EntryV {
                    title: rv[i - 1].title,
                    depth: depth + 1,
                    source: rv[i - 1].source,
                }));
                assert(queue_view(*self) =~= base + enqueued_entries(
                    rv.subrange(0, i as int),
                    depth as int,
                ));
            }
        }
        proof {
            assert(rv.subrange(0, rv.len() as int) =~= rv);
        }
    }
}

/// With a depth bound of zero, every entry the queue gains from extracted
/// references — whatever depth they were found at — exceeds the bound and
/// is dropped before being visited: a note is emitted only for the root
/// statute.
pub proof fn lemma_depth_zero_prunes(c: Crawler, refs: Seq<LawRefV>, depth: int)
    requires
        c.max_depth == 0,
        0 <= depth,
    ensures
        forall|i: int|
            0 <= i < enqueued_entries(refs, depth).len() ==> spec_depth_exceeded(
                c,
                #[trigger] enqueued_entries(refs, depth)[i].depth,
            ),
{
}

/// Once an identity key has been marked visited, marking it again — from
/// whatever other statute cited it — reports it as seen; and a key never
/// leaves the visited set when other keys are marked.  Two statutes citing
/// the same third statute therefore produce exactly one note for it.
pub proof fn lemma_visited_once(vs: Seq<Seq<char>>, k: Seq<char>, k2: Seq<char>)
    ensures
        !spec_mark(spec_mark(vs, k).visited, k).fresh,
        spec_mark(vs, k).visited.contains(k),
        vs.contains(k) ==> spec_mark(vs, k2).visited.contains(k),
{
    if !vs.contains(k) {
        assert(spec_mark(vs, k).visited.last() == k);
        assert(spec_mark(vs, k).visited.contains(k));
    }
    if vs.contains(k) {
        if vs.contains(k2) {
            assert(spec_mark(vs, k2).visited.contains(k));
        } else {
            let i = choose|i: int| 0 <= i < vs.len() && vs[i] == k;
            assert(spec_mark(vs, k2).visited[i] == k);
            assert(spec_mark(vs, k2).visited.contains(k));
        }
    }
}

/// What a resolution failure means for the run: at the root the whole run
/// aborts; below it the reference is recorded as unresolved and the branch
/// is pruned while the crawl continues.
pub enum FailureAction {
    AbortRun,
    PruneBranch,
}

/// Decides how a resolution failure at `depth` is handled: fatal only at
/// depth zero.
pub fn resolution_failure_action(depth: usize) -> (r: FailureAction)
    ensures
        r is AbortRun <==> depth == 0,
{
    if depth == 0 {
        FailureAction::AbortRun
    } else {
        FailureAction::PruneBranch
    }
}

/// What the resolution step decides from a search result, before any
/// fetch: a unique candidate is accepted; an empty result is a failure; in
/// non-interactive mode several candidates resolve only through a unique
/// exact-title match; otherwise the caller must prompt for a choice.
pub enum ResolveDecision {
    Resolved(LawCandidate),
    NeedsPrompt,
    NotFound,
    Ambiguous,
}

/// The candidates whose title equals the query exactly, in order.
pub open spec fn exact_matches(cs: Seq<LawCandidate>, title: Seq<char>) -> Seq<LawCandidate>
    decreases cs.len(),
{
    if cs.len() == 0 {
        Seq::empty()
    } else {
        exact_matches(cs.drop_last(), title) + (if cs.last().law_title@ == title {
            seq![cs.last()]
        } else {
            Seq::empty()
        })
    }
}

/// Decides how a search result resolves, without touching the network or
/// the terminal.
pub fn decide_from_candidates(
    candidates: &Vec<LawCandidate>,
    title: &str,
    non_interactive: bool,
) -> (r: ResolveDecision)
    ensures
        ({
            let cs = candidates@;
            match r {
                ResolveDecision::NotFound => cs.len() == 0,
                ResolveDecision::Resolved(c) => (cs.len() == 1 && c == cs[0]) || (cs.len() > 1
                    && non_interactive && exact_matches(cs, title@).len() == 1 && c
                    == exact_matches(cs, title@)[0]),
                ResolveDecision::Ambiguous => cs.len() > 1 && non_interactive && exact_matches(
                    cs,
                    title@,
                ).len() != 1,
                ResolveDecision::NeedsPrompt => cs.len() > 1 && !non_interactive,
            }
        }),
{
    let ghost cs = candidates@;
    if candidates.len() == 0 {
        return ResolveDecision::NotFound;
    }
    if candidates.len() == 1 {
        return ResolveDecision::Resolved(candidates[0].duplicate());
    }
    if !non_interactive {
        return ResolveDecision::NeedsPrompt;
    }
    let ts = String::from_str(title);
    let mut count: usize = 0;
    let mut idx: usize = 0;
    let mut i: usize = 0;
    proof {
        assert(exact_matches(cs.subrange(0, 0), title@) =~= Seq::<LawCandidate>::empty());
    }
    while i < candidates.len()
        invariant
            cs == candidates@,
            ts@ == title@,
            i <= candidates.len(),
            count <= i,
            count == exact_matches(cs.subrange(0, i as int), title@).len(),
            count == 1 ==> idx < i && exact_matches(cs.subrange(0, i as int), title@) =~= seq![
                cs[idx as int],
            ],
        decreases candidates.len() - i,
    {
        let ghost pre = cs.subrange(0, i as int);
        let ghost pre2 = cs.subrange(0, i + 1);
        proof {
            assert(pre2.drop_last() =~= pre);
            assert(pre2.last() == cs[i as int]);
        }
        if candidates[i].law_title.eq(&ts) {
            if count == 0 {
                idx = i;
            }
            count += 1;
        }
        i += 1;
    }
    proof {
        assert(cs.subrange(0, cs.len() as int) =~= cs);
    }
    if count == 1 {
        ResolveDecision::Resolved(candidates[idx].duplicate())
    } else {
        ResolveDecision::Ambiguous
    }
}

/// Accepts a one-based choice among the presented candidates; zero or an
/// index past the end is rejected.
pub fn accept_choice(candidates: &Vec<LawCandidate>, idx: usize) -> (r: Option<LawCandidate>)
    ensures
        r is Some <==> 1 <= idx <= candidates@.len(),
        r matches Some(c) ==> c == candidates@[idx - 1],
{
    if idx == 0 || idx > candidates.len() {
        None
    } else {
        Some(candidates[idx - 1].duplicate())
    }
}

} // verus!
