//! The search-candidate model: what a statute search returns, the identity
//! key used for visited-set deduplication, and the conversion of a raw
//! listing response into deduplicated candidates.

use vstd::prelude::*;
use crate::text::{str_to_chars, chars_to_string, vec_char_eq};

verus! {

/// A statute search result: optional stable identifier, optional statute
/// number, canonical title, optional promulgation date.
pub struct LawCandidate {
    pub law_id: Option<String>,
    pub law_num: Option<String>,
    pub law_title: String,
    pub promulgation_date: Option<String>,
}

/// A fetched statute body normalized for note generation.
pub struct LawContents {
    pub law_id: Option<String>,
    pub law_num: Option<String>,
    pub law_title: String,
    pub markdown: String,
    pub original_xml: Option<String>,
}

/// Statute information independent of a revision, as the listing endpoint
/// reports it.
pub struct LawsLawInfo {
    pub law_id: String,
    pub law_num: Option<String>,
    pub promulgation_date: Option<String>,
}

/// Revision-dependent statute information.
pub struct LawsRevisionInfo {
    pub law_title: String,
    pub abbrev: Option<String>,
}

/// One entry of a listing response.
pub struct LawsResponseLaw {
    pub law_info: LawsLawInfo,
    pub revision_info: LawsRevisionInfo,
}

/// A listing response: the statutes of one page.
pub struct LawsResponse {
    pub laws: Vec<LawsResponseLaw>,
}

/// Clones an optional string, preserving its value exactly.
pub fn clone_opt_string(o: &Option<String>) -> (r: Option<String>)
    ensures
        r == *o,
{
    match o {
        Some(s) => Some(s.clone()),
        None => None,
    }
}

/// The identity key of a candidate, preferring the stable identifier, then
/// the statute number, then the title; the prefix records which field won.
pub open spec fn spec_identity_key(c: LawCandidate) -> Seq<char> {
    match c.law_id {
        Some(id) => seq!['i', 'd', ':'] + id@,
        None => match c.law_num {
            Some(n) => seq!['n', 'u', 'm', ':'] + n@,
            None => seq!['t', 'i', 't', 'l', 'e', ':'] + c.law_title@,
        },
    }
}

impl LawCandidate {
    /// The deduplication key for the visited set: id over number over title,
    /// first non-empty field wins.
    pub fn identity_key(&self) -> (r: String)
        ensures
            r@ == spec_identity_key(*self),
    {
        let mut out: Vec<char> = Vec::new();
        match &self.law_id {
            Some(id) => {
                out.push('i');
                out.push('d');
                out.push(':');
                let mut tail = str_to_chars(id.as_str());
                out.append(&mut tail);
                proof {
                    assert(out@ =~= spec_identity_key(*self));
                }
            },
            None => match &self.law_num {
                Some(n) => {
                    out.push('n');
                    out.push('u');
                    out.push('m');
                    out.push(':');
                    let mut tail = str_to_chars(n.as_str());
                    out.append(&mut tail);
                    proof {
                        assert(out@ =~= spec_identity_key(*self));
                    }
                },
                None => {
                    out.push('t');
                    out.push('i');
                    out.push('t');
                    out.push('l');
                    out.push('e');
                    out.push(':');
                    let mut tail = str_to_chars(self.law_title.as_str());
                    out.append(&mut tail);
                    proof {
                        assert(out@ =~= spec_identity_key(*self));
                    }
                },
            },
        }
        chars_to_string(&out)
    }

    /// The identifier shown in diagnostics: the stable identifier when one
    /// exists, a dash otherwise.
    pub fn id_display(&self) -> (r: &str)
        ensures
            match self.law_id {
                Some(id) => r@ == id@,
                None => r@ == "-"@,
            },
    {
        match &self.law_id {
            Some(id) => id.as_str(),
            None => "-",
        }
    }

    /// Clones the candidate, preserving every field.
    pub fn duplicate(&self) -> (r: LawCandidate)
        ensures
            r == *self,
    {
        LawCandidate {
            law_id: clone_opt_string(&self.law_id),
            law_num: clone_opt_string(&self.law_num),
            law_title: self.law_title.clone(),
            promulgation_date: clone_opt_string(&self.promulgation_date),
        }
    }
}

/// What an optional string contributes to a listing key: its characters, or
/// nothing.
pub open spec fn opt_chars(o: Option<String>) -> Seq<char> {
    match o {
        Some(s) => s@,
        None => Seq::empty(),
    }
}

/// The triple key under which listing entries are deduplicated:
/// `id|num|title`.
pub open spec fn listing_key(item: LawsResponseLaw) -> Seq<char> {
    item.law_info.law_id@ + seq!['|'] + opt_chars(item.law_info.law_num) + seq!['|']
        + item.revision_info.law_title@
}

/// The candidate built from one listing entry.
pub open spec fn candidate_of(item: LawsResponseLaw) -> LawCandidate {
    LawCandidate {
        law_id: Some(item.law_info.law_id),
        law_num: item.law_info.law_num,
        law_title: item.revision_info.law_title,
        promulgation_date: item.law_info.promulgation_date,
    }
}

/// The deduplicated candidate list for a sequence of listing entries: each
/// entry whose triple key was not seen earlier contributes one candidate,
/// in order.
pub open spec fn spec_parse_candidates(items: Seq<LawsResponseLaw>) -> Seq<LawCandidate>
    decreases items.len(),
{
    if items.len() == 0 {
        Seq::empty()
    } else {
        let prev = spec_parse_candidates(items.drop_last());
        let it = items.last();
        if exists|j: int|
            0 <= j < items.len() - 1 && listing_key(items[j]) == listing_key(it) {
            prev
        } else {
            prev.push(candidate_of(it))
        }
    }
}

/// Builds the triple key of a listing entry.
fn build_listing_key(item: &LawsResponseLaw) -> (r: Vec<char>)
    ensures
        r@ == listing_key(*item),
{
    let mut out = str_to_chars(item.law_info.law_id.as_str());
    out.push('|');
    match &item.law_info.law_num {
        Some(n) => {
            let mut tail = str_to_chars(n.as_str());
            out.append(&mut tail);
        },
        None => {},
    }
    out.push('|');
    let mut tail = str_to_chars(item.revision_info.law_title.as_str());
    out.append(&mut tail);
    proof {
        assert(out@ =~= listing_key(*item));
    }
    out
}

/// Converts a listing response into candidates, collapsing entries that
/// share the same `id|num|title` triple to the first occurrence.
pub fn parse_law_candidates(v: &LawsResponse) -> (r: Vec<LawCandidate>)
    ensures
        r@ == spec_parse_candidates(v.laws@),
{
    let ghost items = v.laws@;
    let mut out: Vec<LawCandidate> = Vec::new();
    let mut i: usize = 0;
    proof {
        assert(items.subrange(0, 0) =~= Seq::<LawsResponseLaw>::empty());
    }
    while i < v.laws.len()
        invariant
            items == v.laws@,
            i <= v.laws.len(),
            out@ == spec_parse_candidates(items.subrange(0, i as int)),
        decreases v.laws.len() - i,
    {
        let key_i = build_listing_key(&v.laws[i]);
        let mut dup = false;
        let mut j: usize = 0;
        while j < i
            invariant
                items == v.laws@,
                j <= i < v.laws.len(),
                key_i@ == listing_key(items[i as int]),
                dup == exists|m: int|
                    0 <= m < j && listing_key(items[m]) == listing_key(items[i as int]),
            decreases i - j,
        {
            let key_j = build_listing_key(&v.laws[j]);
            if vec_char_eq(&key_j, &key_i) {
                dup = true;
            }
            j += 1;
        }
        if !dup {
            let item = &v.laws[i];
            let c = LawCandidate {
                law_id: Some(item.law_info.law_id.clone()),
                law_num: clone_opt_string(&item.law_info.law_num),
                law_title: item.revision_info.law_title.clone(),
                promulgation_date: clone_opt_string(&item.law_info.promulgation_date),
            };
            proof {
                assert(c == candidate_of(items[i as int]));
            }
            out.push(c);
        }
        i += 1;
        proof {
            let sub = items.subrange(0, i as int);
            assert(sub.drop_last() =~= items.subrange(0, i - 1));
            assert(sub.last() == items[i - 1]);
            if dup {
                let m = choose|m: int|
                    0 <= m < i - 1 && #[trigger] listing_key(items[m]) == listing_key(
                        items[i - 1],
                    );
                assert(sub[m] == items[m]);
                assert(exists|j: int|
                    0 <= j < sub.len() - 1 && listing_key(sub[j]) == listing_key(sub.last()));
            } else {
                assert forall|j: int|
                    0 <= j < sub.len() - 1 implies listing_key(sub[j]) != listing_key(
                    sub.last(),
                ) by {
                    assert(sub[j] == items[j]);
                }
            }
            assert(out@ =~= spec_parse_candidates(sub));
        }
    }
    proof {
        assert(items.subrange(0, items.len() as int) =~= items);
    }
    out
}

} // verus!
