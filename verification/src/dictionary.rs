//! The name dictionary: normalized alias tokens mapped to a resolved
//! statute identity.  Entries are insert-if-absent — the first registered
//! identity for an alias wins — and a dirty flag records whether the
//! current run inserted anything, so that unchanged state is never
//! rewritten.

use vstd::prelude::*;
use vstd::utf8::encode_utf8;
use vstd::string::StringSliceAdditionalSpecFns;
use crate::candidate::{LawCandidate, LawContents, LawsResponse, LawsResponseLaw};
use crate::normalize::{spec_normalize, normalize_law_ref_title};
use crate::text::{
    TrimClass, trim_both_class, trim_both, contains_sub, check_contains_sub, str_to_chars,
};

verus! {

/// One dictionary entry: the resolved identity an alias maps to.
pub struct LawDictEntry {
    pub law_id: Option<String>,
    pub law_num: Option<String>,
    pub law_title: String,
}

/// An alias together with its entry.
pub struct DictPair {
    pub key: String,
    pub entry: LawDictEntry,
}

/// The mathematical shape of an entry: each field as a character sequence.
pub ghost struct EntryV {
    pub id: Option<Seq<char>>,
    pub num: Option<Seq<char>>,
    pub title: Seq<char>,
}

/// The mathematical shape of a keyed entry.
pub ghost struct PairV {
    pub key: Seq<char>,
    pub entry: EntryV,
}

pub open spec fn opt_view(o: Option<String>) -> Option<Seq<char>> {
    match o {
        Some(s) => Some(s@),
        None => None,
    }
}

pub open spec fn entry_view(e: LawDictEntry) -> EntryV {
    EntryV { id: opt_view(e.law_id), num: opt_view(e.law_num), title: e.law_title@ }
}

pub open spec fn pair_view(p: DictPair) -> PairV {
    PairV { key: p.key@, entry: entry_view(p.entry) }
}

/// The identity a candidate contributes to the dictionary.
pub open spec fn entry_of_candidate(c: LawCandidate) -> EntryV {
    EntryV { id: opt_view(c.law_id), num: opt_view(c.law_num), title: c.law_title@ }
}

/// The identity a fetched body contributes to the dictionary.
pub open spec fn entry_of_contents(c: LawContents) -> EntryV {
    EntryV { id: opt_view(c.law_id), num: opt_view(c.law_num), title: c.law_title@ }
}

/// The identity a listing item contributes to the dictionary.
pub open spec fn entry_of_item(it: LawsResponseLaw) -> EntryV {
    EntryV {
        id: Some(it.law_info.law_id@),
        num: opt_view(it.law_info.law_num),
        title: it.revision_info.law_title@,
    }
}

/// The first entry stored under `key`, scanning in insertion order.
pub open spec fn spec_find(d: Seq<PairV>, key: Seq<char>) -> Option<EntryV>
    decreases d.len(),
{
    if d.len() == 0 {
        None
    } else if d[0].key == key {
        Some(d[0].entry)
    } else {
        spec_find(d.drop_first(), key)
    }
}

/// Insert-if-absent: an alias already present keeps its first identity.
pub open spec fn spec_insert(d: Seq<PairV>, key: Seq<char>, e: EntryV) -> Seq<PairV> {
    if spec_find(d, key) is Some {
        d
    } else {
        d.push(PairV { key: key, entry: e })
    }
}

/// The dictionary: alias entries in insertion order, plus the dirty flag
/// gating end-of-run persistence.
pub struct NameDictionary {
    pub entries: Vec<DictPair>,
    pub dirty: bool,
}

impl View for NameDictionary {
    type V = Seq<PairV>;

    open spec fn view(&self) -> Seq<PairV> {
        self.entries@.map_values(|p: DictPair| pair_view(p))
    }
}

impl NameDictionary {
    /// An empty, clean dictionary.
    pub fn new() -> (r: NameDictionary)
        ensures
            r@ =~= Seq::<PairV>::empty(),
            !r.dirty,
    {
        NameDictionary { entries: Vec::new(), dirty: false }
    }

    /// Whether this run inserted at least one alias; persistence is skipped
    /// otherwise.
    pub fn is_dirty(&self) -> (r: bool)
        ensures
            r == self.dirty,
    {
        self.dirty
    }

    /// Marks the dictionary clean again, after it has been persisted.
    pub fn mark_clean(&mut self)
        ensures
            final(self)@ == old(self)@,
            !final(self).dirty,
    {
        self.dirty = false;
    }

    /// Drops every entry, for a rebuild from the full listing.
    pub fn clear(&mut self)
        ensures
            final(self)@ =~= Seq::<PairV>::empty(),
            final(self).dirty == old(self).dirty,
    {
        self.entries = Vec::new();
    }

    /// Finds the entry stored under exactly `key`.
    pub fn get(&self, key: &String) -> (r: Option<&LawDictEntry>)
        ensures
            match r {
                Some(e) => spec_find(self@, key@) == Some(entry_view(*e)),
                None => spec_find(self@, key@) is None,
            },
    {
        let ghost full = self@;
        let mut i: usize = 0;
        proof {
            assert(self.entries@.skip(0) =~= self.entries@);
        }
        while i < self.entries.len()
            invariant
                i <= self.entries.len(),
                full == self@,
                spec_find(full, key@) == spec_find(
                    self.entries@.skip(i as int).map_values(|p: DictPair| pair_view(p)),
                    key@,
                ),
            decreases self.entries.len() - i,
        {
            let ghost rest = self.entries@.skip(i as int).map_values(|p: DictPair| pair_view(p));
            proof {
                assert(rest[0] == pair_view(self.entries@[i as int]));
            }
            if self.entries[i].key.eq(key) {
                return Some(&self.entries[i].entry);
            }
            proof {
                assert(rest.drop_first() =~= self.entries@.skip(i + 1).map_values(
                    |p: DictPair| pair_view(p),
                ));
            }
            i += 1;
        }
        proof {
            assert(self.entries@.skip(i as int).map_values(|p: DictPair| pair_view(p)).len()
                == 0);
        }
        None
    }

    /// Appends `key -> entry` unless `key` is already present; reports
    /// whether it inserted.  Leaves the dirty flag alone.
    fn push_if_absent(&mut self, key: String, entry: LawDictEntry) -> (added: bool)
        ensures
            final(self)@ == spec_insert(old(self)@, key@, entry_view(entry)),
            added == (spec_find(old(self)@, key@) is None),
            final(self).dirty == old(self).dirty,
            final(self)@.len() == old(self)@.len() + (if added {
                1int
            } else {
                0int
            }),
    {
        let present = match self.get(&key) {
            Some(_) => true,
            None => false,
        };
        if present {
            return false;
        }
        let ghost oldv = self@;
        self.entries.push(DictPair { key, entry });
        proof {
            assert(self@ =~= oldv.push(
                PairV {
                    key: self.entries@.last().key@,
                    entry: entry_view(self.entries@.last().entry),
                },
            ));
        }
        true
    }

    /// Learns both the query alias and the canonical title of a confirmed
    /// candidate; an alias that normalizes to nothing is skipped.  The dirty
    /// flag is raised exactly when something was inserted.
    pub fn register_candidate_aliases(&mut self, query: &str, c: &LawCandidate)
        ensures
            final(self)@ == ({
                let e = entry_of_candidate(*c);
                let d1 = match spec_normalize(query@) {
                    Some(k) => spec_insert(old(self)@, k, e),
                    None => old(self)@,
                };
                match spec_normalize(c.law_title@) {
                    Some(k) => spec_insert(d1, k, e),
                    None => d1,
                }
            }),
            final(self).dirty == (old(self).dirty || final(self)@.len() > old(self)@.len()),
    {
        let mut changed = false;
        match normalize_law_ref_title(query) {
            Some(k) => {
                let entry = LawDictEntry {
                    law_id: crate::candidate::clone_opt_string(&c.law_id),
                    law_num: crate::candidate::clone_opt_string(&c.law_num),
                    law_title: c.law_title.clone(),
                };
                if self.push_if_absent(k, entry) {
                    changed = true;
                }
            },
            None => {},
        }
        match normalize_law_ref_title(c.law_title.as_str()) {
            Some(k) => {
                let entry = LawDictEntry {
                    law_id: crate::candidate::clone_opt_string(&c.law_id),
                    law_num: crate::candidate::clone_opt_string(&c.law_num),
                    law_title: c.law_title.clone(),
                };
                if self.push_if_absent(k, entry) {
                    changed = true;
                }
            },
            None => {},
        }
        if changed {
            self.dirty = true;
        }
    }

    /// Learns the canonical title of a fetched body.  The dirty flag is
    /// raised exactly when something was inserted.
    pub fn register_law_contents(&mut self, law: &LawContents)
        ensures
            final(self)@ == (match spec_normalize(law.law_title@) {
                Some(k) => spec_insert(old(self)@, k, entry_of_contents(*law)),
                None => old(self)@,
            }),
            final(self).dirty == (old(self).dirty || final(self)@.len() > old(self)@.len()),
    {
        match normalize_law_ref_title(law.law_title.as_str()) {
            Some(k) => {
                let entry = LawDictEntry {
                    law_id: crate::candidate::clone_opt_string(&law.law_id),
                    law_num: crate::candidate::clone_opt_string(&law.law_num),
                    law_title: law.law_title.clone(),
                };
                if self.push_if_absent(k, entry) {
                    self.dirty = true;
                }
            },
            None => {},
        }
    }
    /// Folds one listing item into the dictionary: the normalized title,
    /// the raw statute number and a non-blank abbreviation each become an
    /// alias unless already present.
    fn absorb_item(&mut self, it: &LawsResponseLaw) -> (added: bool)
        ensures
            final(self)@ == spec_absorb_one(old(self)@, *it),
            added == (final(self)@.len() > old(self)@.len()),
            final(self).dirty == old(self).dirty,
    {
        let mut added = false;
        match normalize_law_ref_title(it.revision_info.law_title.as_str()) {
            Some(k) => {
                if self.push_if_absent(k, item_entry(it)) {
                    added = true;
                }
            },
            None => {},
        }
        match &it.law_info.law_num {
            Some(n) => {
                if self.push_if_absent(n.clone(), item_entry(it)) {
                    added = true;
                }
            },
            None => {},
        }
        match &it.revision_info.abbrev {
            Some(a) => {
                let ac = str_to_chars(a.as_str());
                let at = trim_both(&ac, TrimClass::Space);
                if at.len() > 0 {
                    if self.push_if_absent(a.clone(), item_entry(it)) {
                        added = true;
                    }
                }
            },
            None => {},
        }
        added
    }

    /// Folds one page of the full listing into the dictionary and reports
    /// whether anything was inserted.  The dirty flag is left alone: the
    /// listing path persists by its own decision, not through the run's
    /// flag.
    pub fn absorb_listing_page(&mut self, page: &LawsResponse) -> (changed: bool)
        ensures
            final(self)@ == spec_absorb(old(self)@, page.laws@),
            changed == (final(self)@.len() > old(self)@.len()),
            final(self).dirty == old(self).dirty,
    {
        let ghost items = page.laws@;
        let ghost d0 = self@;
        let mut changed = false;
        let mut i: usize = 0;
        proof {
            assert(items.subrange(0, 0) =~= Seq::<LawsResponseLaw>::empty());
        }
        while i < page.laws.len()
            invariant
                items == page.laws@,
                d0.len() <= self@.len(),
                i <= page.laws.len(),
                self@ == spec_absorb(d0, items.subrange(0, i as int)),
                changed == (self@.len() > d0.len()),
                self.dirty == old(self).dirty,
            decreases page.laws.len() - i,
        {
            if self.absorb_item(&page.laws[i]) {
                changed = true;
            }
            i += 1;
            proof {
                assert(items.subrange(0, i as int).drop_last() =~= items.subrange(0, i - 1));
                assert(items.subrange(0, i as int).last() == items[i - 1]);
            }
        }
        proof {
            assert(items.subrange(0, items.len() as int) =~= items);
        }
        changed
    }

    /// The key a raw title is looked up under: its normalized form, or the
    /// raw title itself when it does not normalize.
    pub fn lookup(&self, title: &str) -> (r: Option<&LawDictEntry>)
        ensures
            match r {
                Some(e) => spec_find(self@, spec_lookup_key(title@)) == Some(entry_view(*e)),
                None => spec_find(self@, spec_lookup_key(title@)) is None,
            },
    {
        match normalize_law_ref_title(title) {
            Some(k) => self.get(&k),
            None => {
                let k = String::from_str(title);
                self.get(&k)
            },
        }
    }
}

/// The entry a listing item contributes, as an executable value.
fn item_entry(it: &LawsResponseLaw) -> (r: LawDictEntry)
    ensures
        entry_view(r) == entry_of_item(*it),
{
    LawDictEntry {
        law_id: Some(it.law_info.law_id.clone()),
        law_num: crate::candidate::clone_opt_string(&it.law_info.law_num),
        law_title: it.revision_info.law_title.clone(),
    }
}

/// What one listing item adds: normalized title, raw number, non-blank
/// abbreviation, in that order, each insert-if-absent.
pub open spec fn spec_absorb_one(d: Seq<PairV>, it: LawsResponseLaw) -> Seq<PairV> {
    let e = entry_of_item(it);
    let d1 = match spec_normalize(it.revision_info.law_title@) {
        Some(k) => spec_insert(d, k, e),
        None => d,
    };
    let d2 = match it.law_info.law_num {
        Some(n) => spec_insert(d1, n@, e),
        None => d1,
    };
    match it.revision_info.abbrev {
        Some(a) => if trim_both_class(a@, TrimClass::Space).len() > 0 {
            spec_insert(d2, a@, e)
        } else {
            d2
        },
        None => d2,
    }
}

/// A whole listing page folded in, item by item.
pub open spec fn spec_absorb(d: Seq<PairV>, items: Seq<LawsResponseLaw>) -> Seq<PairV>
    decreases items.len(),
{
    if items.len() == 0 {
        d
    } else {
        spec_absorb_one(spec_absorb(d, items.drop_last()), items.last())
    }
}

/// The key a raw title is looked up under.
pub open spec fn spec_lookup_key(title: Seq<char>) -> Seq<char> {
    match spec_normalize(title) {
        Some(k) => k,
        None => title,
    }
}

/// The UTF-8 length of a token, the measure the containment fallback ranks
/// keys by.
pub open spec fn byte_len(t: Seq<char>) -> int {
    (encode_utf8(t).len() as usize) as int
}

/// The index of the best containment-fallback key for `norm`: among keys
/// that occur inside `norm` as a substring, the one of greatest UTF-8
/// length, ties resolved to the earliest-registered key.
pub open spec fn spec_best_key(d: Seq<PairV>, norm: Seq<char>) -> Option<int>
    decreases d.len(),
{
    if d.len() == 0 {
        None
    } else {
        let prev = spec_best_key(d.drop_last(), norm);
        let i = d.len() - 1;
        if contains_sub(norm, d[i].key) && (match prev {
            Some(p) => byte_len(d[i].key) > byte_len(d[p].key),
            None => true,
        }) {
            Some(i)
        } else {
            prev
        }
    }
}

/// What the fragment resolver returns: nothing when the fragment does not
/// normalize; the entry found under the exact normalized token; else the
/// entry of the longest dictionary key contained in the token; else the
/// normalized token itself as a provisional title.
pub open spec fn spec_resolve(d: Seq<PairV>, frag: Seq<char>) -> Option<Seq<char>> {
    match spec_normalize(frag) {
        None => None,
        Some(norm) => match spec_find(d, norm) {
            Some(e) => Some(e.title),
            None => match spec_best_key(d, norm) {
                Some(i) => Some(d[i].entry.title),
                None => Some(norm),
            },
        },
    }
}

/// Resolves an extracted statute-name fragment against the dictionary:
/// exact normalized match first, then longest-containment fallback, then
/// the normalized fragment itself.
pub fn resolve_law_title_from_fragment(fragment: &str, dictionary: &NameDictionary) -> (r: Option<
    String,
>)
    ensures
        r is Some <==> spec_resolve(dictionary@, fragment@) is Some,
        r matches Some(x) ==> spec_resolve(dictionary@, fragment@) matches Some(y) && x@ == y,
{
    let norm = match normalize_law_ref_title(fragment) {
        Some(n) => n,
        None => {
            return None;
        },
    };
    match dictionary.get(&norm) {
        Some(e) => {
            return Some(e.law_title.clone());
        },
        None => {},
    }
    let normc = str_to_chars(norm.as_str());
    let ghost d = dictionary@;
    let mut best: Option<usize> = None;
    let mut idx: usize = 0;
    proof {
        assert(dictionary.entries@.subrange(0, 0).map_values(|p: DictPair| pair_view(p))
            =~= Seq::<PairV>::empty());
    }
    while idx < dictionary.entries.len()
        invariant
            d == dictionary@,
            normc@ == norm@,
            idx <= dictionary.entries.len(),
            ({
                let pref = dictionary.entries@.subrange(0, idx as int).map_values(
                    |p: DictPair| pair_view(p),
                );
                match (best, spec_best_key(pref, normc@)) {
                    (Some(b), Some(sb)) => b == sb && b < idx,
                    (None, None) => true,
                    _ => false,
                }
            }),
        decreases dictionary.entries.len() - idx,
    {
        let ghost pref = dictionary.entries@.subrange(0, idx as int).map_values(
            |p: DictPair| pair_view(p),
        );
        let ghost pref2 = dictionary.entries@.subrange(0, idx + 1).map_values(
            |p: DictPair| pair_view(p),
        );
        proof {
            assert(pref2.drop_last() =~= pref);
            assert(pref2.last() == pair_view(dictionary.entries@[idx as int]));
        }
        let keyc = str_to_chars(dictionary.entries[idx].key.as_str());
        let has = check_contains_sub(&normc, &keyc);
        let mut take = false;
        if has {
            match best {
                Some(b) => {
                    proof {
                        assert(pref2[b as int] == pair_view(dictionary.entries@[b as int]));
                    }
                    let ki = dictionary.entries[idx].key.as_str();
                    let kb = dictionary.entries[b].key.as_str();
                    let li = ki.len();
                    let lb = kb.len();
                    proof {
                        assert(ki.spec_bytes() == encode_utf8(ki@));
                        assert(kb.spec_bytes() == encode_utf8(kb@));
                        assert(li as int == byte_len(dictionary.entries@[idx as int].key@));
                        assert(lb as int == byte_len(dictionary.entries@[b as int].key@));
                    }
                    take = li > lb;
                },
                None => {
                    take = true;
                },
            }
        }
        proof {
            let i = idx as int;
            assert(pref2[i].key == dictionary.entries@[i].key@);
            let prev = spec_best_key(pref, normc@);
            assert(spec_best_key(pref2.drop_last(), normc@) == prev);
            let cond = contains_sub(normc@, pref2[i].key) && (match prev {
                Some(p) => byte_len(pref2[i].key) > byte_len(pref2[p].key),
                None => true,
            });
            assert(take == cond);
            assert(spec_best_key(pref2, normc@) == if cond {
                Some(i)
            } else {
                prev
            });
        }
        if take {
            best = Some(idx);
        }
        idx += 1;
    }
    proof {
        assert(dictionary.entries@.subrange(0, dictionary.entries@.len() as int)
            =~= dictionary.entries@);
    }
    match best {
        Some(b) => Some(dictionary.entries[b].entry.law_title.clone()),
        None => Some(norm),
    }
}

} // verus!
