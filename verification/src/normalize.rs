//! The title normalizer: reduces a raw text fragment to a canonical
//! statute-name token, or rejects it.
//!
//! A fragment is trimmed of punctuation, scanned for the *last* occurrence
//! of a statute-name token (a run of name characters ending in a
//! statute-type suffix), stripped of amendment qualifiers, leaked structural
//! markers and connectives, and finally re-checked against the anaphoric
//! rejection list and a minimum length of two characters.

use vstd::prelude::*;
use crate::text::{
    TrimClass, trim_both_class, trim_start_class, trim_both, trim_start, is_name_char, name_char,
    suffix_len_at, suffix_len, ends_with_suffix, seq_ends_with_suffix, is_anaphoric,
    anaphoric_token, matches_at, check_matches_at, copy_range, str_to_chars, chars_to_string,
};

verus! {

/// The bound on the length of the name run in front of a statute-type
/// suffix.
pub open spec fn name_run_bound() -> int {
    30
}

/// The greedy name-run length at position `i`: the largest `k` not above
/// `bound` such that `t[i..i+k]` are all name characters and a statute-type
/// suffix starts at `i + k`; 0 when no such `k` exists.
pub open spec fn greedy_k(t: Seq<char>, i: int, bound: int) -> int
    decreases bound,
{
    if bound <= 0 {
        0
    } else if 1 <= bound && i + bound <= t.len() && (forall|j: int|
        i <= j < i + bound ==> is_name_char(t[j])) && suffix_len_at(t, i + bound) > 0 {
        bound
    } else {
        greedy_k(t, i, bound - 1)
    }
}

proof fn lemma_greedy_props(t: Seq<char>, i: int, bound: int)
    requires
        0 <= i,
        greedy_k(t, i, bound) > 0,
    ensures
        1 <= greedy_k(t, i, bound) <= bound,
        i + greedy_k(t, i, bound) <= t.len(),
        suffix_len_at(t, i + greedy_k(t, i, bound)) > 0,
        i + greedy_k(t, i, bound) + suffix_len_at(t, i + greedy_k(t, i, bound)) <= t.len(),
        forall|j: int| i <= j < i + greedy_k(t, i, bound) ==> is_name_char(t[j]),
    decreases bound,
{
    if bound <= 0 {
    } else if 1 <= bound && i + bound <= t.len() && (forall|j: int|
        i <= j < i + bound ==> is_name_char(t[j])) && suffix_len_at(t, i + bound) > 0 {
    } else {
        lemma_greedy_props(t, i, bound - 1);
    }
}

/// A statute-name match: its start position and its greedy name-run
/// length.
pub ghost struct NameMatch {
    pub s: int,
    pub k: int,
}

/// The leftmost match at or after position `i`.
pub open spec fn find_from(t: Seq<char>, i: int) -> Option<NameMatch>
    decreases t.len() - i,
{
    if i < 0 || i >= t.len() {
        None
    } else if greedy_k(t, i, name_run_bound()) > 0 {
        Some(NameMatch { s: i, k: greedy_k(t, i, name_run_bound()) })
    } else {
        find_from(t, i + 1)
    }
}

/// The end of a match: name run plus suffix.
pub open spec fn match_end(t: Seq<char>, s: int, k: int) -> int {
    s + k + suffix_len_at(t, s + k)
}

proof fn lemma_find_from_props(t: Seq<char>, i: int)
    requires
        0 <= i,
        find_from(t, i) is Some,
    ensures
        i <= find_from(t, i)->0.s < t.len(),
        1 <= find_from(t, i)->0.k,
        i < match_end(t, find_from(t, i)->0.s, find_from(t, i)->0.k) <= t.len(),
    decreases t.len() - i,
{
    if i >= t.len() {
    } else if greedy_k(t, i, name_run_bound()) > 0 {
        lemma_greedy_props(t, i, name_run_bound());
    } else {
        lemma_find_from_props(t, i + 1);
    }
}

/// The last match at or after position `i`.
pub open spec fn last_match_from(t: Seq<char>, i: int) -> Option<NameMatch>
    decreases t.len() - i,
{
    if i < 0 || i >= t.len() {
        None
    } else {
        match find_from(t, i) {
            None => None,
            Some(m) => {
                let e = match_end(t, m.s, m.k);
                let rest = if i < e <= t.len() {
                    last_match_from(t, e)
                } else {
                    None
                };
                match rest {
                    Some(m2) => Some(m2),
                    None => Some(m),
                }
            },
        }
    }
}

/// The last match, when there is one, lies within the text.
pub proof fn lemma_last_match_bounds(t: Seq<char>, i: int)
    requires
        0 <= i,
        last_match_from(t, i) is Some,
    ensures
        ({
            let m = last_match_from(t, i)->0;
            0 <= m.s && m.s < match_end(t, m.s, m.k) <= t.len()
        }),
    decreases t.len() - i,
{
    if i >= t.len() {
    } else {
        match find_from(t, i) {
            None => {},
            Some(m0) => {
                lemma_find_from_props(t, i);
                let e = match_end(t, m0.s, m0.k);
                if i < e <= t.len() {
                    if last_match_from(t, e) is Some {
                        lemma_last_match_bounds(t, e);
                    }
                }
            },
        }
    }
}

/// Strips one leading amendment qualifier: "before amendment", "after
/// amendment", "former", "new".
pub open spec fn strip_qualifier(t: Seq<char>) -> Seq<char> {
    if matches_at(t, 0, seq!['改', '正', '前']) {
        t.subrange(3, t.len() as int)
    } else if matches_at(t, 0, seq!['改', '正', '後']) {
        t.subrange(3, t.len() as int)
    } else if t.len() >= 1 && t[0] == '旧' {
        t.drop_first()
    } else if t.len() >= 1 && t[0] == '新' {
        t.drop_first()
    } else {
        t
    }
}

/// Strips a leading connective 中 ("within/in").
pub open spec fn strip_naka_prefix(t: Seq<char>) -> Seq<char> {
    if t.len() >= 1 && t[0] == '中' {
        t.drop_first()
    } else {
        t
    }
}

/// The index of the last occurrence of `c` in `t`, or -1.
pub open spec fn last_index_of_char(t: Seq<char>, c: char) -> int
    decreases t.len(),
{
    if t.len() == 0 {
        -1
    } else if t.last() == c {
        t.len() - 1
    } else {
        last_index_of_char(t.drop_last(), c)
    }
}

/// Splits on the last connective 中 and keeps the right-hand side when it
/// independently ends in a statute-type suffix.
pub open spec fn split_naka(t: Seq<char>) -> Seq<char> {
    let p = last_index_of_char(t, '中');
    if p >= 0 {
        let right = t.subrange(p + 1, t.len() as int);
        if ends_with_suffix(right) {
            right
        } else {
            t
        }
    } else {
        t
    }
}

/// The post-match refinement: qualifiers, leaked structural markers, the
/// connective, qualifiers again (they may stand on either side of the
/// connective), then the connective split.
pub open spec fn refine_token(tok: Seq<char>) -> Seq<char> {
    split_naka(
        strip_qualifier(
            strip_naka_prefix(
                trim_start_class(strip_qualifier(tok), TrimClass::StructuralMarker),
            ),
        ),
    )
}

/// What the normalizer returns for a fragment: `None` when the fragment is
/// empty after trimming, purely anaphoric, contains no statute-name token,
/// or refines to an anaphoric or too-short token; otherwise the refined
/// token of the last match.
pub open spec fn spec_normalize(s: Seq<char>) -> Option<Seq<char>> {
    let tr = trim_both_class(s, TrimClass::FragmentPunct);
    if tr.len() == 0 {
        None
    } else if is_anaphoric(tr) {
        None
    } else {
        match last_match_from(tr, 0) {
            None => None,
            Some(m) => {
                let tok = tr.subrange(m.s, match_end(tr, m.s, m.k));
                let refined = refine_token(tok);
                if is_anaphoric(refined) {
                    None
                } else if refined.len() >= 2 {
                    Some(refined)
                } else {
                    None
                }
            },
        }
    }
}

/// A returned token is never on the anaphoric-rejection list and never has
/// fewer than two characters, whatever the input was.
pub proof fn lemma_normalize_rejects(s: Seq<char>)
    ensures
        spec_normalize(s) matches Some(tok) ==> !is_anaphoric(tok) && tok.len() >= 2,
{
}

/// Checks that `v[i..i+k]` are all name characters.
fn all_name(v: &Vec<char>, i: usize, k: usize) -> (r: bool)
    requires
        i <= v.len(),
        k <= v.len() - i,
    ensures
        r == (forall|j: int| i <= j < i + k ==> is_name_char(v@[j])),
{
    let mut j: usize = 0;
    while j < k
        invariant
            i <= v.len(),
            k <= v.len() - i,
            j <= k,
            forall|m: int| i <= m < i + j ==> is_name_char(v@[m]),
        decreases k - j,
    {
        if !name_char(v[i + j]) {
            return false;
        }
        j += 1;
    }
    true
}

/// Computes the greedy name-run length at position `i`.
fn greedy_at(v: &Vec<char>, i: usize) -> (r: usize)
    requires
        i <= v.len(),
    ensures
        r == greedy_k(v@, i as int, name_run_bound()),
{
    let mut k: usize = 30;
    while k > 0
        invariant
            i <= v.len(),
            k <= 30,
            greedy_k(v@, i as int, name_run_bound()) == greedy_k(v@, i as int, k as int),
        decreases k,
    {
        if k <= v.len() && i <= v.len() - k && all_name(v, i, k) && suffix_len(v, i + k) > 0 {
            return k;
        }
        k -= 1;
    }
    0
}

/// Finds the last statute-name match in `v`, as its start and name-run
/// length.
fn find_last_match(v: &Vec<char>) -> (r: Option<(usize, usize)>)
    ensures
        match (r, last_match_from(v@, 0)) {
            (Some((s, k)), Some(m)) => s == m.s && k == m.k && s + k <= v.len()
                && suffix_len_at(v@, s as int + k as int) > 0,
            (None, None) => true,
            _ => false,
        },
{
    let ghost t = v@;
    let mut pos: usize = 0;
    let mut cur: Option<(usize, usize)> = None;
    proof {
        assert(t.subrange(0, t.len() as int) =~= t);
    }
    loop
        invariant
            pos <= v.len(),
            t == v@,
            ({
                let full = last_match_from(t, 0);
                let rest = last_match_from(t, pos as int);
                match rest {
                    Some(m) => full == rest,
                    None => match (full, cur) {
                        (Some(fm), Some((cs, ck))) => fm.s == cs && fm.k == ck,
                        (None, None) => true,
                        _ => false,
                    },
                }
            }),
            cur matches Some((cs, ck)) ==> cs + ck <= v.len() && suffix_len_at(
                t,
                cs as int + ck as int,
            ) > 0,
        decreases v.len() - pos,
    {
        let mut i = pos;
        let mut k: usize = greedy_at(v, i);
        proof {
            if k > 0 {
                lemma_greedy_props(t, i as int, name_run_bound());
            }
        }
        while i < v.len() && k == 0
            invariant
                pos <= i <= v.len(),
                t == v@,
                k == greedy_k(t, i as int, name_run_bound()),
                k == 0 ==> find_from(t, pos as int) == find_from(t, i as int),
                k > 0 ==> i < v.len() && find_from(t, pos as int) == Some(
                    NameMatch { s: i as int, k: k as int },
                ),
            decreases v.len() - i,
        {
            i += 1;
            k = greedy_at(v, i);
            proof {
                if k > 0 {
                    lemma_greedy_props(t, i as int, name_run_bound());
                }
            }
        }
        if k == 0 {
            proof {
                assert(i >= v.len());
                assert(find_from(t, i as int) is None);
                assert(last_match_from(t, pos as int) is None);
            }
            return cur;
        }
        proof {
            lemma_greedy_props(t, i as int, name_run_bound());
        }
        let e = i + k + suffix_len(v, i + k);
        proof {
            assert(find_from(t, pos as int) == Some(NameMatch { s: i as int, k: k as int }));
            assert(pos < e <= t.len());
            assert(last_match_from(t, pos as int) == (match last_match_from(t, e as int) {
                Some(m2) => Some(m2),
                None => Some(NameMatch { s: i as int, k: k as int }),
            }));
        }
        cur = Some((i, k));
        pos = e;
    }
}

/// Normalizes a raw fragment to a canonical statute-name token, rejecting
/// purely anaphoric and too-short forms.
pub fn normalize_law_ref_title(s: &str) -> (r: Option<String>)
    ensures
        r is Some <==> spec_normalize(s@) is Some,
        r matches Some(x) ==> spec_normalize(s@) matches Some(y) && x@ == y,
{
    let v = str_to_chars(s);
    let tr = trim_both(&v, TrimClass::FragmentPunct);
    if tr.len() == 0 {
        return None;
    }
    if anaphoric_token(&tr) {
        return None;
    }
    let m = find_last_match(&tr);
    match m {
        None => None,
        Some((s0, k)) => {
            let e = s0 + k + suffix_len(&tr, s0 + k);
            let tok = copy_range(&tr, s0, e);
            let refined = refine(&tok);
            if anaphoric_token(&refined) {
                None
            } else if refined.len() >= 2 {
                Some(chars_to_string(&refined))
            } else {
                None
            }
        },
    }
}

/// Strips one leading amendment qualifier.
fn strip_qual(v: &Vec<char>) -> (r: Vec<char>)
    ensures
        r@ == strip_qualifier(v@),
{
    let before: Vec<char> = vec!['改', '正', '前'];
    let after: Vec<char> = vec!['改', '正', '後'];
    proof {
        assert(before@ =~= seq!['改', '正', '前']);
        assert(after@ =~= seq!['改', '正', '後']);
    }
    if check_matches_at(v, 0, &before) {
        copy_range(v, 3, v.len())
    } else if check_matches_at(v, 0, &after) {
        copy_range(v, 3, v.len())
    } else if v.len() >= 1 && (v[0] == '旧' || v[0] == '新') {
        let r = copy_range(v, 1, v.len());
        proof {
            assert(v@.subrange(1, v@.len() as int) =~= v@.drop_first());
        }
        r
    } else {
        let r = copy_range(v, 0, v.len());
        proof {
            assert(v@.subrange(0, v@.len() as int) =~= v@);
        }
        r
    }
}

/// Applies the full post-match refinement.
fn refine(tok: &Vec<char>) -> (r: Vec<char>)
    ensures
        r@ == refine_token(tok@),
{
    let a = strip_qual(tok);
    let b = trim_start(&a, TrimClass::StructuralMarker);
    let c = if b.len() >= 1 && b[0] == '中' {
        let c0 = copy_range(&b, 1, b.len());
        proof {
            assert(b@.subrange(1, b@.len() as int) =~= b@.drop_first());
        }
        c0
    } else {
        let c0 = copy_range(&b, 0, b.len());
        proof {
            assert(b@.subrange(0, b@.len() as int) =~= b@);
        }
        c0
    };
    let d = strip_qual(&c);
    // split on the last 中, keeping the right side when it ends in a suffix
    let mut q: usize = d.len();
    proof {
        assert(d@.subrange(0, d@.len() as int) =~= d@);
    }
    while q > 0 && d[q - 1] != '中'
        invariant
            q <= d.len(),
            last_index_of_char(d@, '中') == last_index_of_char(d@.subrange(0, q as int), '中'),
        decreases q,
    {
        proof {
            assert(d@.subrange(0, q as int).drop_last() =~= d@.subrange(0, q as int - 1));
        }
        q -= 1;
    }
    if q == 0 {
        proof {
            assert(last_index_of_char(d@, '中') == -1);
        }
        d
    } else {
        proof {
            assert(d@.subrange(0, q as int).last() == d@[q - 1]);
            assert(last_index_of_char(d@, '中') == q - 1);
        }
        let right = copy_range(&d, q, d.len());
        if seq_ends_with_suffix(&right) {
            right
        } else {
            d
        }
    }
}

} // verus!
