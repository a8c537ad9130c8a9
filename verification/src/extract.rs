//! The reference extractor: scans rendered statute text for
//! `<name><type-suffix>第<numerals>条` citations, resolves each name
//! fragment against the dictionary, and returns the deduplicated outbound
//! references that seed the crawl queue.

use vstd::prelude::*;
use vstd::string::StringExecFns;
use crate::dictionary::{NameDictionary, PairV, spec_resolve, resolve_law_title_from_fragment};
use crate::lawtext::numeral_run_end;
use crate::text::{
    is_wide_name_char, wide_name_char, copy_range, str_to_chars, chars_to_string,
};

verus! {

/// An extracted outbound reference: where it was found, which statute it
/// names, and which article it cites.
pub struct LawRef {
    pub source_law: String,
    pub law_title: String,
    pub article: String,
}

/// The mathematical shape of a reference.
pub ghost struct LawRefV {
    pub source: Seq<char>,
    pub title: Seq<char>,
    pub article: Seq<char>,
}

pub open spec fn law_ref_view(r: LawRef) -> LawRefV {
    LawRefV { source: r.source_law@, title: r.law_title@, article: r.article@ }
}

pub open spec fn refs_view(rs: Seq<LawRef>) -> Seq<LawRefV> {
    rs.map_values(|r: LawRef| law_ref_view(r))
}

/// The bound on the name run of a scanned citation, wider than the
/// normalizer's because quoted fragments are accepted.
pub open spec fn wide_run_bound() -> int {
    40
}

/// Whether an article citation tail 第&lt;numerals&gt;条 stands at `j`.
pub open spec fn cite_tail_ok(t: Seq<char>, j: int) -> bool {
    &&& 0 <= j < t.len()
    &&& t[j] == '第'
    &&& numeral_run_end(t, j + 1) > j + 1
    &&& numeral_run_end(t, j + 1) < t.len()
    &&& t[numeral_run_end(t, j + 1)] == '条'
}

/// The statute-type suffix a citation takes at `j`: a lone 法 when the
/// article tail follows it directly; otherwise one of the two-character
/// types — 法律 among them — when the tail follows that.  The choice is
/// tail-driven because a one-character 法 that is not followed by 第 still
/// combines with 律 into a valid citation.
pub open spec fn cite_suffix_len(t: Seq<char>, j: int) -> int {
    if 0 <= j < t.len() && t[j] == '法' && cite_tail_ok(t, j + 1) {
        1
    } else if 0 <= j && j + 2 <= t.len() && ((t[j] == '法' && t[j + 1] == '律') || (t[j] == '政'
        && t[j + 1] == '令') || (t[j] == '省' && t[j + 1] == '令') || (t[j] == '府' && t[j + 1]
        == '令') || (t[j] == '規' && t[j + 1] == '則') || (t[j] == '条' && t[j + 1] == '例') || (
    t[j] == '条' && t[j + 1] == '約')) && cite_tail_ok(t, j + 2) {
        2
    } else {
        0
    }
}

/// Whether a full citation with a name run of exactly `k` characters
/// stands at position `i`: name run, statute-type suffix, then
/// 第&lt;numerals&gt;条.
pub open spec fn citation_at(t: Seq<char>, i: int, k: int) -> bool {
    &&& 1 <= k
    &&& i + k <= t.len()
    &&& forall|j: int| i <= j < i + k ==> is_wide_name_char(t[j])
    &&& cite_suffix_len(t, i + k) > 0
}

/// The lazy name-run length at `i`: the smallest `k` at or above `kmin`
/// and at most the bound for which a citation stands; 0 when none does.
pub open spec fn lazy_k(t: Seq<char>, i: int, kmin: int) -> int
    decreases wide_run_bound() + 1 - kmin,
{
    if kmin < 1 || kmin > wide_run_bound() {
        0
    } else if citation_at(t, i, kmin) {
        kmin
    } else {
        lazy_k(t, i, kmin + 1)
    }
}

/// A citation match: its start, the end of its statute-name group
/// (including the type suffix), and the bounds of its numeral group.
pub ghost struct Citation {
    pub start: int,
    pub name_end: int,
    pub dig_start: int,
    pub dig_end: int,
}

pub open spec fn citation_of(t: Seq<char>, i: int, k: int) -> Citation {
    let ne = i + k + cite_suffix_len(t, i + k);
    Citation {
        start: i,
        name_end: ne,
        dig_start: ne + 1,
        dig_end: numeral_run_end(t, ne + 1),
    }
}

/// The leftmost citation at or after position `i`.
pub open spec fn find_citation_from(t: Seq<char>, i: int) -> Option<Citation>
    decreases t.len() - i,
{
    if i < 0 || i >= t.len() {
        None
    } else if lazy_k(t, i, 1) > 0 {
        Some(citation_of(t, i, lazy_k(t, i, 1)))
    } else {
        find_citation_from(t, i + 1)
    }
}

pub proof fn lemma_lazy_props(t: Seq<char>, i: int, kmin: int)
    requires
        0 <= i,
        lazy_k(t, i, kmin) > 0,
    ensures
        kmin <= lazy_k(t, i, kmin) <= wide_run_bound(),
        citation_at(t, i, lazy_k(t, i, kmin)),
    decreases wide_run_bound() + 1 - kmin,
{
    if kmin < 1 || kmin > wide_run_bound() {
    } else if citation_at(t, i, kmin) {
    } else {
        lemma_lazy_props(t, i, kmin + 1);
    }
}

pub proof fn lemma_citation_bounds(t: Seq<char>, i: int)
    requires
        0 <= i,
        find_citation_from(t, i) is Some,
    ensures
        ({
            let c = find_citation_from(t, i)->0;
            &&& i <= c.start < t.len()
            &&& c.start < c.name_end
            &&& c.name_end + 1 == c.dig_start
            &&& c.dig_start < c.dig_end
            &&& c.dig_end + 1 <= t.len()
            &&& i < c.dig_end + 1
        }),
    decreases t.len() - i,
{
    if i >= t.len() {
    } else if lazy_k(t, i, 1) > 0 {
        lemma_lazy_props(t, i, 1);
    } else {
        lemma_citation_bounds(t, i + 1);
    }
}

/// The reference a citation contributes, if its name fragment resolves.
pub open spec fn citation_ref(
    t: Seq<char>,
    c: Citation,
    d: Seq<PairV>,
    source: Seq<char>,
) -> Option<LawRefV> {
    match spec_resolve(d, t.subrange(c.start, c.name_end)) {
        None => None,
        Some(title) => Some(
            LawRefV {
                source: source,
                title: title,
                article: seq!['第'] + t.subrange(c.dig_start, c.dig_end) + seq!['条'],
            },
        ),
    }
}

/// Every citation from position `i` on folded into `acc`, each resolved
/// reference appended once: a document citing the same article several
/// times yields one crawl edge.
pub open spec fn spec_extract_from(
    t: Seq<char>,
    i: int,
    d: Seq<PairV>,
    source: Seq<char>,
    acc: Seq<LawRefV>,
) -> Seq<LawRefV>
    decreases t.len() - i,
{
    if i < 0 || i >= t.len() {
        acc
    } else {
        match find_citation_from(t, i) {
            None => acc,
            Some(c) => {
                let acc2 = match citation_ref(t, c, d, source) {
                    None => acc,
                    Some(r) => if acc.contains(r) {
                        acc
                    } else {
                        acc.push(r)
                    },
                };
                let e = c.dig_end + 1;
                if i < e <= t.len() {
                    spec_extract_from(t, e, d, source, acc2)
                } else {
                    acc2
                }
            },
        }
    }
}

/// Checks whether a name run of exactly `k` characters opens a citation at
/// `i`.
/// Checks for an article citation tail at `j`.
fn cite_tail_exec(v: &Vec<char>, j: usize) -> (r: bool)
    requires
        j <= v.len(),
    ensures
        r == cite_tail_ok(v@, j as int),
{
    if !(j < v.len() && v[j] == '第') {
        return false;
    }
    let de = crate::lawtext::numeral_run_end_exec(v, j + 1);
    de > j + 1 && de < v.len() && v[de] == '条'
}

/// Computes the tail-driven statute-type suffix length at `j`.
pub(crate) fn cite_suffix_exec(v: &Vec<char>, j: usize) -> (r: usize)
    requires
        j <= v.len(),
    ensures
        r == cite_suffix_len(v@, j as int),
{
    if j < v.len() && v[j] == '法' && cite_tail_exec(v, j + 1) {
        return 1;
    }
    if j < v.len() && j + 1 < v.len() && ((v[j] == '法' && v[j + 1] == '律') || (v[j] == '政'
        && v[j + 1] == '令') || (v[j] == '省' && v[j + 1] == '令') || (v[j] == '府' && v[j + 1]
        == '令') || (v[j] == '規' && v[j + 1] == '則') || (v[j] == '条' && v[j + 1] == '例') || (
    v[j] == '条' && v[j + 1] == '約')) && cite_tail_exec(v, j + 2) {
        return 2;
    }
    0
}

fn citation_at_exec(v: &Vec<char>, i: usize, k: usize) -> (r: bool)
    requires
        i <= v.len(),
        k >= 1,
    ensures
        r == citation_at(v@, i as int, k as int),
{
    if !(k <= v.len() && i <= v.len() - k) {
        return false;
    }
    let mut j: usize = 0;
    while j < k
        invariant
            i + k <= v.len(),
            j <= k,
            forall|m: int| i <= m < i + j ==> is_wide_name_char(v@[m]),
        decreases k - j,
    {
        if !wide_name_char(v[i + j]) {
            return false;
        }
        j += 1;
    }
    cite_suffix_exec(v, i + k) > 0
}

/// Computes the lazy name-run length at `i`.
pub(crate) fn lazy_at(v: &Vec<char>, i: usize) -> (r: usize)
    requires
        i <= v.len(),
    ensures
        r == lazy_k(v@, i as int, 1),
{
    let mut k: usize = 1;
    while k <= 40
        invariant
            i <= v.len(),
            1 <= k <= 41,
            lazy_k(v@, i as int, 1) == lazy_k(v@, i as int, k as int),
        decreases 41 - k,
    {
        if citation_at_exec(v, i, k) {
            return k;
        }
        k += 1;
    }
    0
}

/// Compares two references field by field.
fn law_ref_eq(a: &LawRef, b: &LawRef) -> (r: bool)
    ensures
        r == (law_ref_view(*a) == law_ref_view(*b)),
{
    a.source_law.eq(&b.source_law) && a.law_title.eq(&b.law_title) && a.article.eq(&b.article)
}

/// Checks whether `r` is already among `out`.
fn contains_ref(out: &Vec<LawRef>, r: &LawRef) -> (res: bool)
    ensures
        res == refs_view(out@).contains(law_ref_view(*r)),
{
    let mut i: usize = 0;
    while i < out.len()
        invariant
            i <= out.len(),
            forall|m: int| 0 <= m < i ==> refs_view(out@)[m] != law_ref_view(*r),
        decreases out.len() - i,
    {
        proof {
            assert(refs_view(out@)[i as int] == law_ref_view(out@[i as int]));
        }
        if law_ref_eq(&out[i], r) {
            return true;
        }
        i += 1;
    }
    proof {
        assert forall|m: int| 0 <= m < refs_view(out@).len() implies refs_view(out@)[m]
            != law_ref_view(*r) by {
            assert(refs_view(out@)[m] == law_ref_view(out@[m]));
        }
    }
    false
}

/// Scans rendered text for outbound statute citations, resolves each name
/// fragment through the dictionary, and returns the distinct references
/// with `source_law` recorded as their origin.
pub fn extract_external_references(
    markdown: &str,
    dictionary: &NameDictionary,
    source_law: &str,
) -> (r: Vec<LawRef>)
    ensures
        refs_view(r@) == spec_extract_from(
            markdown@,
            0,
            dictionary@,
            source_law@,
            Seq::empty(),
        ),
{
    let v = str_to_chars(markdown);
    let ghost t = v@;
    let ghost d = dictionary@;
    let ghost src = source_law@;
    let mut out: Vec<LawRef> = Vec::new();
    let mut pos: usize = 0;
    proof {
        assert(refs_view(out@) =~= Seq::<LawRefV>::empty());
    }
    while pos < v.len()
        invariant
            t == v@,
            t == markdown@,
            d == dictionary@,
            src == source_law@,
            pos <= v.len(),
            spec_extract_from(t, 0, d, src, Seq::empty()) == spec_extract_from(
                t,
                pos as int,
                d,
                src,
                refs_view(out@),
            ),
        decreases v.len() - pos,
    {
        let mut i = pos;
        let mut k: usize = lazy_at(&v, i);
        while i < v.len() && k == 0
            invariant
                t == v@,
                pos <= i <= v.len(),
                k == lazy_k(t, i as int, 1),
                k == 0 ==> find_citation_from(t, pos as int) == find_citation_from(t, i as int),
                k > 0 ==> i < v.len() && find_citation_from(t, pos as int) == Some(
                    citation_of(t, i as int, k as int),
                ),
            decreases v.len() - i,
        {
            i += 1;
            k = lazy_at(&v, i);
            proof {
                if k > 0 {
                    lemma_lazy_props(t, i as int, 1);
                }
            }
        }
        if k == 0 {
            proof {
                assert(find_citation_from(t, pos as int) is None);
                assert(spec_extract_from(t, pos as int, d, src, refs_view(out@)) == refs_view(
                    out@,
                ));
                assert(t == markdown@ && d == dictionary@ && src == source_law@);
                assert(refs_view(out@) == spec_extract_from(
                    markdown@,
                    0,
                    dictionary@,
                    source_law@,
                    Seq::empty(),
                ));
            }
            return out;
        }
        proof {
            lemma_lazy_props(t, i as int, 1);
            lemma_citation_bounds(t, pos as int);
        }
        let sl = cite_suffix_exec(&v, i + k);
        let name_end = i + k + sl;
        let frag = copy_range(&v, i, name_end);
        let dig_start = name_end + 1;
        let dig_end = crate::lawtext::numeral_run_end_exec(&v, dig_start);
        let ghost c = find_citation_from(t, pos as int)->0;
        proof {
            assert(c == citation_of(t, i as int, k as int));
            assert(frag@ == t.subrange(c.start, c.name_end));
        }
        let frag_s = chars_to_string(&frag);
        let ghost pos0 = pos as int;
        let ghost acc0 = refs_view(out@);
        match resolve_law_title_from_fragment(frag_s.as_str(), dictionary) {
            Some(title) => {
                let mut art: Vec<char> = Vec::new();
                art.push('第');
                let mut digits = copy_range(&v, dig_start, dig_end);
                art.append(&mut digits);
                art.push('条');
                proof {
                    assert(art@ =~= seq!['第'] + t.subrange(c.dig_start, c.dig_end) + seq![
                        '条',
                    ]);
                }
                let candidate = LawRef {
                    source_law: String::from_str(source_law),
                    law_title: title,
                    article: chars_to_string(&art),
                };
                proof {
                    assert(citation_ref(t, c, d, src) == Some(law_ref_view(candidate)));
                }
                if !contains_ref(&out, &candidate) {
                    out.push(candidate);
                    proof {
                        assert(refs_view(out@) =~= acc0.push(law_ref_view(out@.last())));
                    }
                }
            },
            None => {
                proof {
                    assert(citation_ref(t, c, d, src) is None);
                }
            },
        }
        pos = dig_end + 1;
        proof {
            assert(pos <= v.len());
            let acc2 = match citation_ref(t, c, d, src) {
                None => acc0,
                Some(r) => if acc0.contains(r) {
                    acc0
                } else {
                    acc0.push(r)
                },
            };
            assert(refs_view(out@) == acc2);
            assert(spec_extract_from(t, pos0, d, src, acc0) == spec_extract_from(
                t,
                pos as int,
                d,
                src,
                acc2,
            ));
        }
    }
    out
}

} // verus!
