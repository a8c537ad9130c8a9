//! Character classes and low-level text helpers shared by the normalizer,
//! the reference extractor and the link rewriter.
//!
//! All statute-text processing works over `Vec<char>` so that every step can
//! be specified over `Seq<char>`; conversion from and to `String` happens at
//! the public boundary.

use vstd::prelude::*;

verus! {

/// Punctuation stripped from both ends of a candidate statute-name fragment:
/// ASCII and fullwidth spaces, round brackets and corner brackets, the
/// ideographic comma and full stop.
pub open spec fn is_fragment_punct(c: char) -> bool {
    c == ' ' || c == '\u{3000}' || c == '（' || c == '）' || c == '(' || c == ')' || c == '「'
        || c == '」' || c == '『' || c == '』' || c == '、' || c == '。'
}

pub fn fragment_punct(c: char) -> (r: bool)
    ensures
        r == is_fragment_punct(c),
{
    c == ' ' || c == '\u{3000}' || c == '（' || c == '）' || c == '(' || c == ')' || c == '「'
        || c == '」' || c == '『' || c == '』' || c == '、' || c == '。'
}

/// Characters with the Unicode `White_Space` property, the set that
/// `str::trim` removes.
pub open spec fn is_space(c: char) -> bool {
    ('\u{0009}' <= c && c <= '\u{000d}') || c == ' ' || c == '\u{0085}' || c == '\u{00a0}'
        || c == '\u{1680}' || ('\u{2000}' <= c && c <= '\u{200a}') || c == '\u{2028}'
        || c == '\u{2029}' || c == '\u{202f}' || c == '\u{205f}' || c == '\u{3000}'
}

pub fn space_char(c: char) -> (r: bool)
    ensures
        r == is_space(c),
{
    ('\u{0009}' <= c && c <= '\u{000d}') || c == ' ' || c == '\u{0085}' || c == '\u{00a0}'
        || c == '\u{1680}' || ('\u{2000}' <= c && c <= '\u{200a}') || c == '\u{2028}'
        || c == '\u{2029}' || c == '\u{202f}' || c == '\u{205f}' || c == '\u{3000}'
}

/// Digits usable in an article / paragraph / item number: Arabic digits and
/// the kanji numerals (including the zero sign).
pub open spec fn is_numeral(c: char) -> bool {
    ('0' <= c && c <= '9') || c == '一' || c == '二' || c == '三' || c == '四' || c == '五'
        || c == '六' || c == '七' || c == '八' || c == '九' || c == '十' || c == '百' || c == '千'
        || c == '〇'
}

pub fn numeral_char(c: char) -> (r: bool)
    ensures
        r == is_numeral(c),
{
    ('0' <= c && c <= '9') || c == '一' || c == '二' || c == '三' || c == '四' || c == '五'
        || c == '六' || c == '七' || c == '八' || c == '九' || c == '十' || c == '百' || c == '千'
        || c == '〇'
}

/// Numerals together with the structural markers for article, paragraph and
/// item; these are stripped from the front of a matched statute-name token
/// when the match boundary swallowed part of a preceding article citation.
pub open spec fn is_structural_marker(c: char) -> bool {
    is_numeral(c) || c == '第' || c == '条' || c == '項' || c == '号'
}

pub fn structural_marker_char(c: char) -> (r: bool)
    ensures
        r == is_structural_marker(c),
{
    numeral_char(c) || c == '第' || c == '条' || c == '項' || c == '号'
}

/// Name characters accepted inside a statute-name token by the normalizer:
/// CJK ideographs, katakana, the long-vowel mark, Latin letters, digits and
/// the middle dot.  Hiragana is deliberately absent so that particles break
/// a name run.
pub open spec fn is_name_char(c: char) -> bool {
    ('\u{4e00}' <= c && c <= '\u{9fa5}') || ('\u{30a1}' <= c && c <= '\u{30f6}') || c == 'ー' || (
    'A' <= c && c <= 'Z') || ('a' <= c && c <= 'z') || ('0' <= c && c <= '9') || c == '・'
}

pub fn name_char(c: char) -> (r: bool)
    ensures
        r == is_name_char(c),
{
    ('\u{4e00}' <= c && c <= '\u{9fa5}') || ('\u{30a1}' <= c && c <= '\u{30f6}') || c == 'ー' || (
    'A' <= c && c <= 'Z') || ('a' <= c && c <= 'z') || ('0' <= c && c <= '9') || c == '・'
}

/// Wider name class used when scanning rendered text for cross-references:
/// additionally hiragana and bracket variants, so that a reference written
/// inside quotation marks is still caught.
pub open spec fn is_wide_name_char(c: char) -> bool {
    is_name_char(c) || ('\u{3041}' <= c && c <= '\u{3093}') || c == '（' || c == '）' || c == '('
        || c == ')' || c == '「' || c == '」' || c == '『' || c == '』'
}

pub fn wide_name_char(c: char) -> (r: bool)
    ensures
        r == is_wide_name_char(c),
{
    name_char(c) || ('\u{3041}' <= c && c <= '\u{3093}') || c == '（' || c == '）' || c == '('
        || c == ')' || c == '「' || c == '」' || c == '『' || c == '』'
}

/// Length of the statute-type suffix starting at position `j` of `t`:
/// 1 for 法, 2 for the two-character statute types, 0 when none starts there.
/// 法律 never has to be recognized on its own: every occurrence already
/// begins with 法.
pub open spec fn suffix_len_at(t: Seq<char>, j: int) -> int {
    if 0 <= j < t.len() && t[j] == '法' {
        1
    } else if 0 <= j && j + 2 <= t.len() && ((t[j] == '政' && t[j + 1] == '令') || (t[j] == '省'
        && t[j + 1] == '令') || (t[j] == '府' && t[j + 1] == '令') || (t[j] == '規' && t[j + 1]
        == '則') || (t[j] == '条' && t[j + 1] == '例') || (t[j] == '条' && t[j + 1] == '約')) {
        2
    } else {
        0
    }
}

pub fn suffix_len(t: &Vec<char>, j: usize) -> (r: usize)
    requires
        j <= t.len(),
    ensures
        r == suffix_len_at(t@, j as int),
{
    if j < t.len() && t[j] == '法' {
        1
    } else if j < t.len() && j + 1 < t.len() && ((t[j] == '政' && t[j + 1] == '令') || (t[j] == '省'
        && t[j + 1] == '令') || (t[j] == '府' && t[j + 1] == '令') || (t[j] == '規' && t[j + 1]
        == '則') || (t[j] == '条' && t[j + 1] == '例') || (t[j] == '条' && t[j + 1] == '約')) {
        2
    } else {
        0
    }
}

/// Whether `t` ends in a statute-type suffix, the test applied to the
/// right-hand side of a connective split: a final 法, or a final
/// two-character type (including 法律, which does not end in 法 itself).
pub open spec fn ends_with_suffix(t: Seq<char>) -> bool {
    (t.len() >= 1 && t[t.len() - 1] == '法') || (t.len() >= 2 && suffix_len_at(t, t.len() - 2)
        == 2) || (t.len() >= 2 && t[t.len() - 2] == '法' && t[t.len() - 1] == '律')
}

pub fn seq_ends_with_suffix(t: &Vec<char>) -> (r: bool)
    ensures
        r == ends_with_suffix(t@),
{
    let n = t.len();
    (n >= 1 && t[n - 1] == '法') || (n >= 2 && suffix_len(t, n - 2) == 2) || (n >= 2 && t[n - 2]
        == '法' && t[n - 1] == '律')
}

/// The purely anaphoric self-references the normalizer rejects: "the same
/// Act", "the same Statute", "this Act", "this Statute", "the
/// aforementioned Act".
pub open spec fn is_anaphoric(t: Seq<char>) -> bool {
    t =~= seq!['同', '法'] || t =~= seq!['同', '法', '律'] || t =~= seq![
        'こ',
        'の',
        '法',
        '律',
    ] || t =~= seq!['本', '法'] || t =~= seq!['前', '記', '法']
}

pub fn anaphoric_token(t: &Vec<char>) -> (r: bool)
    ensures
        r == is_anaphoric(t@),
{
    let r = (t.len() == 2 && t[0] == '同' && t[1] == '法') || (t.len() == 3 && t[0] == '同' && t[1]
        == '法' && t[2] == '律') || (t.len() == 4 && t[0] == 'こ' && t[1] == 'の' && t[2] == '法'
        && t[3] == '律') || (t.len() == 2 && t[0] == '本' && t[1] == '法') || (t.len() == 3 && t[0]
        == '前' && t[1] == '記' && t[2] == '法');
    proof {
        if r {
            assert(is_anaphoric(t@));
        }
        if is_anaphoric(t@) {
            assert(r);
        }
    }
    r
}

/// The character classes that get trimmed from the ends of a token at one
/// step or another: whitespace, periods, whitespace-or-period runs at a
/// file name's tail, path separators, fragment punctuation, structural
/// markers in front of a statute name, space-and-tab runs, heading marks
/// and newlines.
#[derive(Clone, Copy)]
pub enum TrimClass {
    Space,
    Dot,
    Slash,
    FragmentPunct,
    StructuralMarker,
    SpaceTab,
    Hash,
    Newline,
    SpaceDot,
}

pub open spec fn in_class(k: TrimClass, c: char) -> bool {
    match k {
        TrimClass::Space => is_space(c),
        TrimClass::Dot => c == '.',
        TrimClass::Slash => c == '/',
        TrimClass::FragmentPunct => is_fragment_punct(c),
        TrimClass::StructuralMarker => is_structural_marker(c),
        TrimClass::SpaceTab => c == ' ' || c == '\t',
        TrimClass::Hash => c == '#',
        TrimClass::Newline => c == '\n',
        TrimClass::SpaceDot => is_space(c) || c == '.',
    }
}

pub fn check_class(k: TrimClass, c: char) -> (r: bool)
    ensures
        r == in_class(k, c),
{
    match k {
        TrimClass::Space => space_char(c),
        TrimClass::Dot => c == '.',
        TrimClass::Slash => c == '/',
        TrimClass::FragmentPunct => fragment_punct(c),
        TrimClass::StructuralMarker => structural_marker_char(c),
        TrimClass::SpaceTab => c == ' ' || c == '\t',
        TrimClass::Hash => c == '#',
        TrimClass::Newline => c == '\n',
        TrimClass::SpaceDot => space_char(c) || c == '.',
    }
}

/// `t` with every leading character of class `k` removed.
pub open spec fn trim_start_class(t: Seq<char>, k: TrimClass) -> Seq<char>
    decreases t.len(),
{
    if t.len() > 0 && in_class(k, t[0]) {
        trim_start_class(t.drop_first(), k)
    } else {
        t
    }
}

/// `t` with every trailing character of class `k` removed.
pub open spec fn trim_end_class(t: Seq<char>, k: TrimClass) -> Seq<char>
    decreases t.len(),
{
    if t.len() > 0 && in_class(k, t.last()) {
        trim_end_class(t.drop_last(), k)
    } else {
        t
    }
}

pub proof fn lemma_trim_start_at(t: Seq<char>, k: TrimClass, i: int)
    requires
        0 <= i <= t.len(),
        forall|j: int| 0 <= j < i ==> in_class(k, t[j]),
        i == t.len() || !in_class(k, t[i]),
    ensures
        trim_start_class(t, k) == t.subrange(i, t.len() as int),
    decreases i,
{
    if i == 0 {
        assert(t.subrange(0, t.len() as int) =~= t);
    } else {
        let u = t.drop_first();
        assert(forall|j: int| 0 <= j < i - 1 ==> in_class(k, u[j]));
        lemma_trim_start_at(u, k, i - 1);
        assert(u.subrange(i - 1, u.len() as int) =~= t.subrange(i, t.len() as int));
    }
}

pub proof fn lemma_trim_end_at(t: Seq<char>, k: TrimClass, i: int)
    requires
        0 <= i <= t.len(),
        forall|j: int| i <= j < t.len() ==> in_class(k, t[j]),
        i == 0 || !in_class(k, t[i - 1]),
    ensures
        trim_end_class(t, k) == t.subrange(0, i),
    decreases t.len() - i,
{
    if i == t.len() {
        assert(t.subrange(0, t.len() as int) =~= t);
    } else {
        let u = t.drop_last();
        lemma_trim_end_at(u, k, i);
        assert(u.subrange(0, i) =~= t.subrange(0, i));
    }
}

/// Copies `v[from..to]` into a fresh vector.
pub fn copy_range(v: &Vec<char>, from: usize, to: usize) -> (r: Vec<char>)
    requires
        from <= to <= v.len(),
    ensures
        r@ == v@.subrange(from as int, to as int),
{
    let mut r: Vec<char> = Vec::new();
    let mut j: usize = from;
    while j < to
        invariant
            from <= j <= to <= v.len(),
            r@ == v@.subrange(from as int, j as int),
        decreases to - j,
    {
        r.push(v[j]);
        j += 1;
        proof {
            assert(r@ =~= v@.subrange(from as int, j as int));
        }
    }
    r
}

/// Removes leading characters of class `k`.
pub fn trim_start(v: &Vec<char>, k: TrimClass) -> (r: Vec<char>)
    ensures
        r@ == trim_start_class(v@, k),
{
    let mut i: usize = 0;
    while i < v.len() && check_class(k, v[i])
        invariant
            i <= v.len(),
            forall|j: int| 0 <= j < i ==> in_class(k, v@[j]),
        decreases v.len() - i,
    {
        i += 1;
    }
    proof {
        lemma_trim_start_at(v@, k, i as int);
    }
    copy_range(v, i, v.len())
}

/// Removes trailing characters of class `k`.
pub fn trim_end(v: &Vec<char>, k: TrimClass) -> (r: Vec<char>)
    ensures
        r@ == trim_end_class(v@, k),
{
    let mut i: usize = v.len();
    while i > 0 && check_class(k, v[i - 1])
        invariant
            i <= v.len(),
            forall|j: int| i <= j < v.len() ==> in_class(k, v@[j]),
        decreases i,
    {
        i -= 1;
    }
    proof {
        lemma_trim_end_at(v@, k, i as int);
    }
    copy_range(v, 0, i)
}

/// `t` trimmed of class `k` at both ends.
pub open spec fn trim_both_class(t: Seq<char>, k: TrimClass) -> Seq<char> {
    trim_end_class(trim_start_class(t, k), k)
}

/// Removes characters of class `k` from both ends.
pub fn trim_both(v: &Vec<char>, k: TrimClass) -> (r: Vec<char>)
    ensures
        r@ == trim_both_class(v@, k),
{
    let s = trim_start(v, k);
    trim_end(&s, k)
}

/// Whether `pat` occurs in `t` starting at position `i`.
pub open spec fn matches_at(t: Seq<char>, i: int, pat: Seq<char>) -> bool {
    0 <= i && i + pat.len() <= t.len() && t.subrange(i, i + pat.len()) =~= pat
}

/// Checks whether `pat` occurs in `v` at position `i`.
pub fn check_matches_at(v: &Vec<char>, i: usize, pat: &Vec<char>) -> (r: bool)
    requires
        i <= v.len(),
    ensures
        r == matches_at(v@, i as int, pat@),
{
    if pat.len() > v.len() - i {
        return false;
    }
    let mut j: usize = 0;
    while j < pat.len()
        invariant
            i + pat.len() <= v.len(),
            j <= pat.len(),
            forall|m: int| 0 <= m < j ==> v@[i + m] == pat@[m],
        decreases pat.len() - j,
    {
        if v[i + j] != pat[j] {
            assert(v@.subrange(i as int, i + pat.len()) =~= pat@ ==> v@[i + j] == pat@[j as int]);
            return false;
        }
        j += 1;
    }
    proof {
        assert(v@.subrange(i as int, i + pat.len()) =~= pat@);
    }
    true
}

/// The first position at or after `i` holding `c`, or the length of `t`
/// when `c` does not occur there.
pub open spec fn first_at_or_after(t: Seq<char>, i: int, c: char) -> int
    decreases t.len() - i,
{
    if i < 0 || i >= t.len() {
        t.len() as int
    } else if t[i] == c {
        i
    } else {
        first_at_or_after(t, i + 1, c)
    }
}

pub proof fn lemma_first_at_or_after(t: Seq<char>, i: int, c: char)
    requires
        0 <= i <= t.len(),
    ensures
        i <= first_at_or_after(t, i, c) <= t.len(),
        first_at_or_after(t, i, c) < t.len() ==> t[first_at_or_after(t, i, c)] == c,
        forall|j: int| i <= j < first_at_or_after(t, i, c) ==> t[j] != c,
    decreases t.len() - i,
{
    if i < t.len() && t[i] != c {
        lemma_first_at_or_after(t, i + 1, c);
    }
}

/// Finds the first position at or after `i` holding `c`.
pub fn find_char_from(v: &Vec<char>, i: usize, c: char) -> (r: usize)
    requires
        i <= v.len(),
    ensures
        r == first_at_or_after(v@, i as int, c),
{
    let mut j = i;
    while j < v.len()
        invariant
            i <= j <= v.len(),
            first_at_or_after(v@, i as int, c) == first_at_or_after(v@, j as int, c),
        decreases v.len() - j,
    {
        if v[j] == c {
            return j;
        }
        j += 1;
    }
    j
}

/// Whether `pat` occurs somewhere in `t` as a contiguous run.
pub open spec fn contains_sub(t: Seq<char>, pat: Seq<char>) -> bool {
    exists|i: int| matches_at(t, i, pat)
}

/// Checks whether `pat` occurs in `v` as a contiguous run.
pub fn check_contains_sub(v: &Vec<char>, pat: &Vec<char>) -> (r: bool)
    ensures
        r == contains_sub(v@, pat@),
{
    if pat.len() > v.len() {
        proof {
            assert(forall|i: int| !matches_at(v@, i, pat@));
        }
        return false;
    }
    let mut i: usize = 0;
    while i <= v.len() - pat.len()
        invariant
            pat.len() <= v.len(),
            i <= v.len() - pat.len() + 1,
            forall|m: int| 0 <= m < i ==> !matches_at(v@, m, pat@),
        decreases v.len() - pat.len() + 1 - i,
    {
        if check_matches_at(v, i, pat) {
            return true;
        }
        i += 1;
    }
    proof {
        assert(forall|m: int| m >= i ==> !matches_at(v@, m, pat@));
        assert(forall|m: int| !matches_at(v@, m, pat@));
    }
    false
}

/// Compares two character vectors for equality.
pub fn vec_char_eq(a: &Vec<char>, b: &Vec<char>) -> (r: bool)
    ensures
        r == (a@ == b@),
{
    if a.len() != b.len() {
        return false;
    }
    let mut i: usize = 0;
    while i < a.len()
        invariant
            a.len() == b.len(),
            i <= a.len(),
            forall|j: int| 0 <= j < i ==> a@[j] == b@[j],
        decreases a.len() - i,
    {
        if a[i] != b[i] {
            assert(a@ =~= b@ ==> a@[i as int] == b@[i as int]);
            return false;
        }
        i += 1;
    }
    proof {
        assert(a@ =~= b@);
    }
    true
}

/// Converts a string slice to its sequence of characters.
pub fn str_to_chars(s: &str) -> (r: Vec<char>)
    ensures
        r@ == s@,
{
    let n = s.unicode_len();
    let mut r: Vec<char> = Vec::new();
    let mut i: usize = 0;
    while i < n
        invariant
            n == s@.len(),
            i <= n,
            r@ == s@.subrange(0, i as int),
        decreases n - i,
    {
        r.push(s.get_char(i));
        i += 1;
        proof {
            assert(r@ =~= s@.subrange(0, i as int));
        }
    }
    proof {
        assert(r@ =~= s@);
    }
    r
}

/// Relies on `String: FromIterator<&char>`: collecting an iterator over the
/// characters of a vector yields the string made of exactly those
/// characters, in order.
#[verifier::external_body]
pub fn chars_to_string(v: &Vec<char>) -> (r: String)
    ensures
        r@ == v@,
{
    v.iter().collect()
}

} // verus!
