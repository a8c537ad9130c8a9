//! The link rewriter: walks rendered text line by line, turns resolved
//! references into note cross-links, keeps the most recent article heading
//! as the anchor for paragraph and item references, and reports the
//! anaphoric tokens it cannot resolve.
//!
//! Four passes run over each plain line, in an order that keeps later
//! passes from re-matching text produced by earlier ones: external
//! cross-references become protected segments first, then internal article
//! references, then paragraph references, then item references rewrite the
//! remaining plain text.  Heading lines and lines that already carry a link
//! pass through verbatim, which makes the rewriter idempotent.

use vstd::prelude::*;
use crate::normalize::{spec_normalize, normalize_law_ref_title};
use crate::sanitize::{dir_spec, note_target_spec, obsidian_dir, obsidian_note_target};
use crate::lawtext::{
    numeral_run_end, numeral_run_end_exec, spec_heading_anchor, extract_heading_anchor,
};
use crate::extract::{lazy_k, citation_of, find_citation_from};
use crate::text::{
    contains_sub, check_contains_sub, matches_at, first_at_or_after, lemma_first_at_or_after,
    find_char_from, copy_range, str_to_chars, chars_to_string,
};

verus! {

/// A piece of a line under rewriting: protected text (an emitted link)
/// that later passes must not touch, or plain text still open to them.
pub ghost struct SegV {
    pub protected: bool,
    pub text: Seq<char>,
}

struct Segment {
    protected: bool,
    text: Vec<char>,
}

spec fn seg_view(s: Segment) -> SegV {
    SegV { protected: s.protected, text: s.text@ }
}

spec fn segs_view(ss: Seq<Segment>) -> Seq<SegV> {
    ss.map_values(|s: Segment| seg_view(s))
}

/// The link text an external cross-reference becomes:
/// `[[dir/name#第n条|name第n条]]`.
pub open spec fn ext_link(dir: Seq<char>, law: Seq<char>, n: Seq<char>) -> Seq<char> {
    seq!['[', '['] + note_target_spec(dir, law) + seq!['#', '第'] + n + seq!['条', '|'] + law
        + seq!['第'] + n + seq!['条', ']', ']']
}

/// Appends `plain` to the segment list as one plain segment, unless it is
/// empty.
pub open spec fn close_plain(segs: Seq<SegV>, plain: Seq<char>) -> Seq<SegV> {
    if plain.len() > 0 {
        segs.push(SegV { protected: false, text: plain })
    } else {
        segs
    }
}

/// The first pass over a plain line: every citation whose name fragment
/// normalizes becomes a protected link segment; a citation whose fragment
/// does not normalize stays in the running plain text, which keeps the
/// matched characters exactly as the source had them.
pub open spec fn pass1_from(
    t: Seq<char>,
    i: int,
    dir: Seq<char>,
    plain: Seq<char>,
    segs: Seq<SegV>,
) -> Seq<SegV>
    decreases t.len() - i,
{
    if i < 0 || i > t.len() {
        close_plain(segs, plain)
    } else {
        match find_citation_from(t, i) {
            None => close_plain(segs, plain + t.subrange(i, t.len() as int)),
            Some(c) => {
                let pre = t.subrange(i, c.start);
                let frag = t.subrange(c.start, c.name_end);
                let mtext = t.subrange(c.start, c.dig_end + 1);
                let e = c.dig_end + 1;
                if i < e <= t.len() {
                    match spec_normalize(frag) {
                        None => pass1_from(t, e, dir, plain + pre + mtext, segs),
                        Some(law) => {
                            let link = ext_link(dir, law, t.subrange(c.dig_start, c.dig_end));
                            pass1_from(
                                t,
                                e,
                                dir,
                                Seq::empty(),
                                close_plain(segs, plain + pre).push(
                                    SegV { protected: true, text: link },
                                ),
                            )
                        },
                    }
                } else {
                    close_plain(segs, plain + t.subrange(i, t.len() as int))
                }
            },
        }
    }
}

/// The link text an internal article reference becomes:
/// `[[target#第n条|第n条]]`.
pub open spec fn art_link(target: Seq<char>, n: Seq<char>) -> Seq<char> {
    seq!['[', '['] + target + seq!['#', '第'] + n + seq!['条', '|', '第'] + n + seq![
        '条',
        ']',
        ']',
    ]
}

/// The second pass: every `第<numerals>条` in plain text becomes a link to
/// this statute's own note, anchored at the article itself.
pub open spec fn pass2_from(t: Seq<char>, i: int, target: Seq<char>) -> Seq<char>
    decreases t.len() - i,
{
    if i < 0 || i >= t.len() {
        Seq::empty()
    } else if t[i] == '第' && ({
        let d = numeral_run_end(t, i + 1);
        d > i + 1 && d < t.len() && t[d] == '条'
    }) {
        let d = numeral_run_end(t, i + 1);
        art_link(target, t.subrange(i + 1, d)) + (if i < d + 1 <= t.len() {
            pass2_from(t, d + 1, target)
        } else {
            Seq::empty()
        })
    } else {
        seq![t[i]] + pass2_from(t, i + 1, target)
    }
}

/// The link text a paragraph or item reference becomes when an article
/// anchor is in scope: `[[target#anchor|第n項]]` (or 号); with no anchor
/// the reference is left as it stands.
pub open spec fn scoped_link(
    target: Seq<char>,
    anchor: Option<Seq<char>>,
    n: Seq<char>,
    marker: char,
) -> Seq<char> {
    match anchor {
        Some(a) => seq!['[', '['] + target + seq!['#'] + a + seq!['|', '第'] + n + seq![
            marker,
            ']',
            ']',
        ],
        None => seq!['第'] + n + seq![marker],
    }
}

/// The third and fourth passes: `第<numerals>項` and `第<numerals>号`
/// anchored at the most recent article heading.
pub open spec fn scoped_pass_from(
    t: Seq<char>,
    i: int,
    target: Seq<char>,
    anchor: Option<Seq<char>>,
    marker: char,
) -> Seq<char>
    decreases t.len() - i,
{
    if i < 0 || i >= t.len() {
        Seq::empty()
    } else if t[i] == '第' && ({
        let d = numeral_run_end(t, i + 1);
        d > i + 1 && d < t.len() && t[d] == marker
    }) {
        let d = numeral_run_end(t, i + 1);
        scoped_link(target, anchor, t.subrange(i + 1, d), marker) + (if i < d + 1 <= t.len() {
            scoped_pass_from(t, d + 1, target, anchor, marker)
        } else {
            Seq::empty()
        })
    } else {
        seq![t[i]] + scoped_pass_from(t, i + 1, target, anchor, marker)
    }
}

/// One segment rendered: protected text verbatim, plain text through the
/// three substitution passes.
pub open spec fn render_seg(
    s: SegV,
    target: Seq<char>,
    anchor: Option<Seq<char>>,
) -> Seq<char> {
    if s.protected {
        s.text
    } else {
        scoped_pass_from(
            scoped_pass_from(pass2_from(s.text, 0, target), 0, target, anchor, '項'),
            0,
            target,
            anchor,
            '号',
        )
    }
}

/// All segments rendered and joined back into one line.
pub open spec fn render_segs(
    ss: Seq<SegV>,
    target: Seq<char>,
    anchor: Option<Seq<char>>,
) -> Seq<char>
    decreases ss.len(),
{
    if ss.len() == 0 {
        Seq::empty()
    } else {
        render_seg(ss[0], target, anchor) + render_segs(ss.drop_first(), target, anchor)
    }
}

/// The anaphoric tokens the rewriter reports when they survive in a
/// rewritten line: preceding Article, preceding Paragraph, following
/// Article, same Article, same Paragraph.
pub open spec fn tok_zenjou() -> Seq<char> {
    seq!['前', '条']
}

pub open spec fn tok_zenkou() -> Seq<char> {
    seq!['前', '項']
}

pub open spec fn tok_jijou() -> Seq<char> {
    seq!['次', '条']
}

pub open spec fn tok_doujou() -> Seq<char> {
    seq!['同', '条']
}

pub open spec fn tok_doukou() -> Seq<char> {
    seq!['同', '項']
}

/// The anaphoric tokens contained in a rewritten line, in the fixed
/// reporting order.
pub open spec fn spec_unresolved_tokens(text: Seq<char>) -> Seq<Seq<char>> {
    (if contains_sub(text, tok_zenjou()) {
        seq![tok_zenjou()]
    } else {
        Seq::empty()
    }) + (if contains_sub(text, tok_zenkou()) {
        seq![tok_zenkou()]
    } else {
        Seq::empty()
    }) + (if contains_sub(text, tok_jijou()) {
        seq![tok_jijou()]
    } else {
        Seq::empty()
    }) + (if contains_sub(text, tok_doujou()) {
        seq![tok_doujou()]
    } else {
        Seq::empty()
    }) + (if contains_sub(text, tok_doukou()) {
        seq![tok_doukou()]
    } else {
        Seq::empty()
    })
}

/// A line passes through untouched when it is a heading or already carries
/// a link.
pub open spec fn is_passthrough(line: Seq<char>) -> bool {
    (line.len() > 0 && line[0] == '#') || contains_sub(line, seq!['[', '['])
}

/// The anchor in scope after seeing `s`: a new article heading replaces
/// the previous anchor, anything else keeps it.
pub open spec fn anchor_update(s: Seq<char>, anchor: Option<Seq<char>>) -> Option<Seq<char>> {
    match spec_heading_anchor(s) {
        Some(a) => Some(a),
        None => anchor,
    }
}

/// What one line contributes: its rewritten text (with trailing newline),
/// the anchor left in scope, and the unresolved tokens found in it.
pub ghost struct LineOut {
    pub text: Seq<char>,
    pub anchor: Option<Seq<char>>,
    pub unresolved: Seq<Seq<char>>,
}

pub open spec fn spec_line_rewrite(
    line: Seq<char>,
    dir: Seq<char>,
    target: Seq<char>,
    anchor: Option<Seq<char>>,
) -> LineOut {
    if is_passthrough(line) {
        LineOut {
            text: line + seq!['\n'],
            anchor: anchor_update(line, anchor),
            unresolved: Seq::empty(),
        }
    } else {
        let segs = pass1_from(line, 0, dir, Seq::empty(), Seq::empty());
        let text = render_segs(segs, target, anchor);
        LineOut {
            text: text + seq!['\n'],
            anchor: anchor_update(text, anchor),
            unresolved: spec_unresolved_tokens(text),
        }
    }
}

/// The rewritten document and its unresolved tokens.
pub ghost struct RewriteOut {
    pub text: Seq<char>,
    pub unresolved: Seq<Seq<char>>,
}

/// Every line from position `i` on rewritten, threading the article anchor
/// through in document order.
pub open spec fn spec_linkify_from(
    t: Seq<char>,
    i: int,
    dir: Seq<char>,
    target: Seq<char>,
    anchor: Option<Seq<char>>,
) -> RewriteOut
    decreases t.len() + 1 - i,
{
    if i < 0 || i >= t.len() {
        RewriteOut { text: Seq::empty(), unresolved: Seq::empty() }
    } else {
        let p = first_at_or_after(t, i, '\n');
        if i <= p <= t.len() {
            let lo = spec_line_rewrite(t.subrange(i, p), dir, target, anchor);
            let rest = spec_linkify_from(t, p + 1, dir, target, lo.anchor);
            RewriteOut {
                text: lo.text + rest.text,
                unresolved: lo.unresolved + rest.unresolved,
            }
        } else {
            RewriteOut { text: Seq::empty(), unresolved: Seq::empty() }
        }
    }
}

/// The whole rewrite: the anchor scope starts empty and the link target of
/// internal references is the current statute's own note.
pub open spec fn spec_linkify(t: Seq<char>, dir: Seq<char>, cur: Seq<char>) -> RewriteOut {
    spec_linkify_from(t, 0, dir, note_target_spec(dir, cur), None)
}

/// The two-character link opener that marks a line as already rewritten.
pub open spec fn link_opener() -> Seq<char> {
    seq!['[', '[']
}

proof fn lemma_contains_concat_left(a: Seq<char>, b: Seq<char>, p: Seq<char>)
    requires
        contains_sub(a, p),
    ensures
        contains_sub(a + b, p),
{
    let i = choose|i: int| matches_at(a, i, p);
    assert((a + b).subrange(i, i + p.len()) =~= a.subrange(i, i + p.len()));
    assert(matches_at(a + b, i, p));
}

proof fn lemma_contains_concat_right(a: Seq<char>, b: Seq<char>, p: Seq<char>)
    requires
        contains_sub(b, p),
    ensures
        contains_sub(a + b, p),
{
    let i = choose|i: int| matches_at(b, i, p);
    assert((a + b).subrange(a.len() + i, a.len() + i + p.len()) =~= b.subrange(i, i + p.len()));
    assert(matches_at(a + b, a.len() + i, p));
}

/// With no article anchor in scope, the paragraph and item passes leave
/// the text exactly as it stands: each match is rewritten to itself.
proof fn lemma_scoped_none_identity(t: Seq<char>, i: int, target: Seq<char>, marker: char)
    requires
        0 <= i <= t.len(),
    ensures
        scoped_pass_from(t, i, target, None, marker) == t.subrange(i, t.len() as int),
    decreases t.len() - i,
{
    if i >= t.len() {
        assert(t.subrange(i, t.len() as int) =~= Seq::<char>::empty());
    } else if t[i] == '第' && ({
        let d = numeral_run_end(t, i + 1);
        d > i + 1 && d < t.len() && t[d] == marker
    }) {
        let d = numeral_run_end(t, i + 1);
        crate::lawtext::lemma_numeral_run_end(t, i + 1);
        lemma_scoped_none_identity(t, d + 1, target, marker);
        assert(scoped_link(target, None, t.subrange(i + 1, d), marker) =~= t.subrange(i, d + 1));
        assert(t.subrange(i, d + 1) + t.subrange(d + 1, t.len() as int) =~= t.subrange(
            i,
            t.len() as int,
        ));
    } else {
        lemma_scoped_none_identity(t, i + 1, target, marker);
        assert(seq![t[i]] + t.subrange(i + 1, t.len() as int) =~= t.subrange(i, t.len() as int));
    }
}

/// The article pass returns its input unchanged, or its output carries a
/// link opener.
proof fn lemma_pass2_unchanged_or_marked(t: Seq<char>, i: int, target: Seq<char>)
    requires
        0 <= i <= t.len(),
    ensures
        pass2_from(t, i, target) == t.subrange(i, t.len() as int) || contains_sub(
            pass2_from(t, i, target),
            link_opener(),
        ),
    decreases t.len() - i,
{
    if i >= t.len() {
        assert(t.subrange(i, t.len() as int) =~= Seq::<char>::empty());
    } else if t[i] == '第' && ({
        let d = numeral_run_end(t, i + 1);
        d > i + 1 && d < t.len() && t[d] == '条'
    }) {
        let d = numeral_run_end(t, i + 1);
        crate::lawtext::lemma_numeral_run_end(t, i + 1);
        let link = art_link(target, t.subrange(i + 1, d));
        assert(link.subrange(0, 2) =~= link_opener());
        assert(matches_at(link, 0, link_opener()));
        lemma_contains_concat_left(link, pass2_from(t, d + 1, target), link_opener());
    } else {
        lemma_pass2_unchanged_or_marked(t, i + 1, target);
        if pass2_from(t, i + 1, target) == t.subrange(i + 1, t.len() as int) {
            assert(seq![t[i]] + t.subrange(i + 1, t.len() as int) =~= t.subrange(
                i,
                t.len() as int,
            ));
        } else {
            lemma_contains_concat_right(
                seq![t[i]],
                pass2_from(t, i + 1, target),
                link_opener(),
            );
        }
    }
}

/// The paragraph and item passes return their input unchanged, or their
/// output carries a link opener.
proof fn lemma_scoped_unchanged_or_marked(
    t: Seq<char>,
    i: int,
    target: Seq<char>,
    anchor: Option<Seq<char>>,
    marker: char,
)
    requires
        0 <= i <= t.len(),
    ensures
        scoped_pass_from(t, i, target, anchor, marker) == t.subrange(i, t.len() as int)
            || contains_sub(scoped_pass_from(t, i, target, anchor, marker), link_opener()),
    decreases t.len() - i,
{
    if anchor is None {
        lemma_scoped_none_identity(t, i, target, marker);
    } else if i >= t.len() {
        assert(t.subrange(i, t.len() as int) =~= Seq::<char>::empty());
    } else if t[i] == '第' && ({
        let d = numeral_run_end(t, i + 1);
        d > i + 1 && d < t.len() && t[d] == marker
    }) {
        let d = numeral_run_end(t, i + 1);
        crate::lawtext::lemma_numeral_run_end(t, i + 1);
        let link = scoped_link(target, anchor, t.subrange(i + 1, d), marker);
        assert(link.subrange(0, 2) =~= link_opener());
        assert(matches_at(link, 0, link_opener()));
        lemma_contains_concat_left(
            link,
            scoped_pass_from(t, d + 1, target, anchor, marker),
            link_opener(),
        );
    } else {
        lemma_scoped_unchanged_or_marked(t, i + 1, target, anchor, marker);
        if scoped_pass_from(t, i + 1, target, anchor, marker) == t.subrange(
            i + 1,
            t.len() as int,
        ) {
            assert(seq![t[i]] + t.subrange(i + 1, t.len() as int) =~= t.subrange(
                i,
                t.len() as int,
            ));
        } else {
            lemma_contains_concat_right(
                seq![t[i]],
                scoped_pass_from(t, i + 1, target, anchor, marker),
                link_opener(),
            );
        }
    }
}

/// A rendered plain segment is its own text unchanged, or carries a link
/// opener.
proof fn lemma_render_seg_unchanged_or_marked(
    s: SegV,
    target: Seq<char>,
    anchor: Option<Seq<char>>,
)
    requires
        !s.protected,
    ensures
        render_seg(s, target, anchor) == s.text || contains_sub(
            render_seg(s, target, anchor),
            link_opener(),
        ),
{
    let r1 = pass2_from(s.text, 0, target);
    let r2 = scoped_pass_from(r1, 0, target, anchor, '項');
    let r3 = scoped_pass_from(r2, 0, target, anchor, '号');
    lemma_pass2_unchanged_or_marked(s.text, 0, target);
    lemma_scoped_unchanged_or_marked(r1, 0, target, anchor, '項');
    lemma_scoped_unchanged_or_marked(r2, 0, target, anchor, '号');
    assert(s.text.subrange(0, s.text.len() as int) =~= s.text);
    assert(r1.subrange(0, r1.len() as int) =~= r1);
    assert(r2.subrange(0, r2.len() as int) =~= r2);
}

/// The concatenated text of a segment list.
pub open spec fn concat_segs(ss: Seq<SegV>) -> Seq<char>
    decreases ss.len(),
{
    if ss.len() == 0 {
        Seq::empty()
    } else {
        ss[0].text + concat_segs(ss.drop_first())
    }
}

/// Rendering a segment list yields the concatenation of the segment texts
/// unchanged, or output that carries a link opener; a protected segment
/// opening with a link always marks the output.
proof fn lemma_render_segs_unchanged_or_marked(
    ss: Seq<SegV>,
    target: Seq<char>,
    anchor: Option<Seq<char>>,
)
    requires
        forall|k: int|
            0 <= k < ss.len() && (#[trigger] ss[k]).protected ==> matches_at(
                ss[k].text,
                0,
                link_opener(),
            ),
    ensures
        render_segs(ss, target, anchor) == concat_segs(ss) || contains_sub(
            render_segs(ss, target, anchor),
            link_opener(),
        ),
        (exists|k: int| 0 <= k < ss.len() && (#[trigger] ss[k]).protected) ==> contains_sub(
            render_segs(ss, target, anchor),
            link_opener(),
        ),
    decreases ss.len(),
{
    if ss.len() == 0 {
    } else {
        let head = ss[0];
        let rest = ss.drop_first();
        assert(forall|k: int|
            0 <= k < rest.len() && (#[trigger] rest[k]).protected ==> matches_at(
                rest[k].text,
                0,
                link_opener(),
            ));
        lemma_render_segs_unchanged_or_marked(rest, target, anchor);
        let hr = render_seg(head, target, anchor);
        let rr = render_segs(rest, target, anchor);
        if head.protected {
            assert(contains_sub(hr, link_opener()));
            lemma_contains_concat_left(hr, rr, link_opener());
        } else {
            lemma_render_seg_unchanged_or_marked(head, target, anchor);
            if hr == head.text && rr == concat_segs(rest) {
            } else if hr == head.text {
                lemma_contains_concat_right(hr, rr, link_opener());
            } else {
                lemma_contains_concat_left(hr, rr, link_opener());
            }
        }
        if exists|k: int| 0 <= k < ss.len() && (#[trigger] ss[k]).protected {
            let k = choose|k: int| 0 <= k < ss.len() && (#[trigger] ss[k]).protected;
            if k == 0 {
                assert(contains_sub(hr, link_opener()));
                lemma_contains_concat_left(hr, rr, link_opener());
            } else {
                assert(rest[k - 1].protected);
                assert(contains_sub(rr, link_opener()));
                lemma_contains_concat_right(hr, rr, link_opener());
            }
        }
    }
}

/// What segmentation leaves behind: either some protected link segment was
/// emitted after the given prefix, or the whole remainder went into the
/// running plain text.
proof fn lemma_pass1_shape(
    t: Seq<char>,
    i: int,
    dir: Seq<char>,
    plain: Seq<char>,
    segs: Seq<SegV>,
)
    requires
        0 <= i <= t.len(),
    ensures
        ({
            let r = pass1_from(t, i, dir, plain, segs);
            (exists|k: int|
                segs.len() <= k < r.len() && (#[trigger] r[k]).protected && matches_at(
                    r[k].text,
                    0,
                    link_opener(),
                )) || r == close_plain(segs, plain + t.subrange(i, t.len() as int))
        }),
    decreases t.len() - i,
{
    let r = pass1_from(t, i, dir, plain, segs);
    if i >= t.len() {
        match find_citation_from(t, i) {
            None => {},
            Some(_) => {},
        }
    } else {
        match find_citation_from(t, i) {
            None => {},
            Some(c) => {
                crate::extract::lemma_citation_bounds(t, i);
                let pre = t.subrange(i, c.start);
                let frag = t.subrange(c.start, c.name_end);
                let mtext = t.subrange(c.start, c.dig_end + 1);
                let e = c.dig_end + 1;
                match spec_normalize(frag) {
                    None => {
                        lemma_pass1_shape(t, e, dir, plain + pre + mtext, segs);
                        assert(plain + pre + mtext + t.subrange(e, t.len() as int) =~= plain
                            + t.subrange(i, t.len() as int));
                    },
                    Some(law) => {
                        let link = ext_link(dir, law, t.subrange(c.dig_start, c.dig_end));
                        let segs2 = close_plain(segs, plain + pre).push(
                            SegV { protected: true, text: link },
                        );
                        assert(link.subrange(0, 2) =~= link_opener());
                        assert(matches_at(link, 0, link_opener()));
                        lemma_pass1_shape(t, e, dir, Seq::empty(), segs2);
                        let k0 = segs2.len() - 1;
                        assert(segs2[k0].protected && matches_at(
                            segs2[k0].text,
                            0,
                            link_opener(),
                        ));
                        let r2 = pass1_from(t, e, dir, Seq::empty(), segs2);
                        if exists|k: int|
                            segs2.len() <= k < r2.len() && (#[trigger] r2[k]).protected
                                && matches_at(r2[k].text, 0, link_opener()) {
                            let k = choose|k: int|
                                segs2.len() <= k < r2.len() && (#[trigger] r2[k]).protected
                                    && matches_at(r2[k].text, 0, link_opener());
                            assert(segs.len() <= k < r.len() && r[k].protected && matches_at(
                                r[k].text,
                                0,
                                link_opener(),
                            ));
                        } else {
                            assert(r == close_plain(
                                segs2,
                                Seq::empty() + t.subrange(e, t.len() as int),
                            ));
                            assert(r[k0] == segs2[k0]);
                            assert(segs.len() <= k0 < r.len());
                        }
                    },
                }
            },
        }
    }
}

/// Every protected segment the segmentation emits opens with a link: the
/// only protected segments are external-reference links.
proof fn lemma_pass1_protected(
    t: Seq<char>,
    i: int,
    dir: Seq<char>,
    plain: Seq<char>,
    segs: Seq<SegV>,
)
    requires
        0 <= i <= t.len(),
        forall|k: int|
            0 <= k < segs.len() && (#[trigger] segs[k]).protected ==> matches_at(
                segs[k].text,
                0,
                link_opener(),
            ),
    ensures
        ({
            let r = pass1_from(t, i, dir, plain, segs);
            forall|k: int|
                0 <= k < r.len() && (#[trigger] r[k]).protected ==> matches_at(
                    r[k].text,
                    0,
                    link_opener(),
                )
        }),
    decreases t.len() - i,
{
    let r = pass1_from(t, i, dir, plain, segs);
    if i >= t.len() || find_citation_from(t, i) is None {
        assert forall|k: int|
            0 <= k < r.len() && (#[trigger] r[k]).protected implies matches_at(
            r[k].text,
            0,
            link_opener(),
        ) by {
            if k < segs.len() {
                assert(r[k] == segs[k]);
            } else {
                assert(r.len() == segs.len() + 1);
                assert(!r[k].protected);
            }
        }
    } else {
        match find_citation_from(t, i) {
            None => {},
            Some(c) => {
                crate::extract::lemma_citation_bounds(t, i);
                let pre = t.subrange(i, c.start);
                let frag = t.subrange(c.start, c.name_end);
                let e = c.dig_end + 1;
                match spec_normalize(frag) {
                    None => {
                        let mtext = t.subrange(c.start, c.dig_end + 1);
                        lemma_pass1_protected(t, e, dir, plain + pre + mtext, segs);
                        assert(r == pass1_from(t, e, dir, plain + pre + mtext, segs));
                    },
                    Some(law) => {
                        let link = ext_link(dir, law, t.subrange(c.dig_start, c.dig_end));
                        assert(link.subrange(0, 2) =~= link_opener());
                        assert(matches_at(link, 0, link_opener()));
                        let base = close_plain(segs, plain + pre);
                        let segs2 = base.push(SegV { protected: true, text: link });
                        assert forall|k: int|
                            0 <= k < segs2.len() && (#[trigger] segs2[k]).protected implies matches_at(
                            segs2[k].text,
                            0,
                            link_opener(),
                        ) by {
                            if k < segs.len() {
                                assert(base[k] == segs[k]);
                                assert(segs2[k] == segs[k]);
                            } else if k < base.len() {
                                assert(!segs2[k].protected);
                            } else {
                                assert(segs2[k].text == link);
                            }
                        }
                        lemma_pass1_protected(t, e, dir, Seq::empty(), segs2);
                        assert(r == pass1_from(t, e, dir, Seq::empty(), segs2));
                    },
                }
            },
        }
    }
}

/// What one line becomes under the rewrite, before its newline is
/// appended.
pub open spec fn emitted_line(
    line: Seq<char>,
    dir: Seq<char>,
    target: Seq<char>,
    anchor: Option<Seq<char>>,
) -> Seq<char> {
    if is_passthrough(line) {
        line
    } else {
        render_segs(pass1_from(line, 0, dir, Seq::empty(), Seq::empty()), target, anchor)
    }
}

/// The rewrite of one line is its emitted text plus a newline, and leaves
/// the anchor that the emitted text defines.
pub proof fn lemma_line_rewrite_parts(
    line: Seq<char>,
    dir: Seq<char>,
    target: Seq<char>,
    anchor: Option<Seq<char>>,
)
    ensures
        spec_line_rewrite(line, dir, target, anchor).text == emitted_line(
            line,
            dir,
            target,
            anchor,
        ) + seq!['\n'],
        spec_line_rewrite(line, dir, target, anchor).anchor == anchor_update(
            emitted_line(line, dir, target, anchor),
            anchor,
        ),
{
}

/// Rewriting a line that has already been rewritten changes nothing: a
/// line that gained a link passes through verbatim, and a line the rewrite
/// left alone is rewritten to itself again, under the same anchor.  The
/// anchor left in scope is the same either way.
pub proof fn lemma_line_rewrite_idempotent(
    line: Seq<char>,
    dir: Seq<char>,
    target: Seq<char>,
    anchor: Option<Seq<char>>,
)
    ensures
        ({
            let e1 = emitted_line(line, dir, target, anchor);
            emitted_line(e1, dir, target, anchor) == e1 && anchor_update(e1, anchor)
                == spec_line_rewrite(line, dir, target, anchor).anchor
        }),
{
    let e1 = emitted_line(line, dir, target, anchor);
    if is_passthrough(line) {
    } else {
        let segs = pass1_from(line, 0, dir, Seq::empty(), Seq::empty());
        lemma_pass1_shape(line, 0, dir, Seq::empty(), Seq::empty());
        lemma_pass1_protected(line, 0, dir, Seq::empty(), Seq::empty());
        lemma_render_segs_unchanged_or_marked(segs, target, anchor);
        if exists|k: int| 0 <= k < segs.len() && (#[trigger] segs[k]).protected {
            assert(contains_sub(e1, link_opener()));
            assert(is_passthrough(e1));
        } else {
            assert(segs == close_plain(
                Seq::empty(),
                Seq::empty() + line.subrange(0, line.len() as int),
            ));
            assert(Seq::empty() + line.subrange(0, line.len() as int) =~= line);
            if line.len() > 0 {
                assert(segs =~= seq![SegV { protected: false, text: line }]);
                assert(segs.drop_first() =~= Seq::<SegV>::empty());
                assert(concat_segs(Seq::<SegV>::empty()) =~= Seq::<char>::empty());
                assert(concat_segs(segs) == segs[0].text + concat_segs(segs.drop_first()));
                assert(segs[0].text == line);
                assert(line + Seq::<char>::empty() =~= line);
                assert(concat_segs(segs) =~= line);
            } else {
                assert(segs =~= Seq::<SegV>::empty());
                assert(concat_segs(segs) =~= line);
            }
            if render_segs(segs, target, anchor) == concat_segs(segs) {
                assert(e1 == line);
            } else {
                assert(contains_sub(e1, link_opener()));
                assert(is_passthrough(e1));
            }
        }
    }
}

/// Text that contains no newline, the invariant that keeps each rewritten
/// line one line.
pub open spec fn no_nl(t: Seq<char>) -> bool {
    forall|j: int| 0 <= j < t.len() ==> t[j] != '\n'
}

pub open spec fn opt_no_nl(a: Option<Seq<char>>) -> bool {
    match a {
        Some(x) => no_nl(x),
        None => true,
    }
}

proof fn lemma_no_nl_concat(a: Seq<char>, b: Seq<char>)
    requires
        no_nl(a),
        no_nl(b),
    ensures
        no_nl(a + b),
{
    assert forall|j: int| 0 <= j < (a + b).len() implies (a + b)[j] != '\n' by {
        if j < a.len() {
            assert((a + b)[j] == a[j]);
        } else {
            assert((a + b)[j] == b[j - a.len()]);
        }
    }
}

proof fn lemma_no_nl_subrange(t: Seq<char>, lo: int, hi: int)
    requires
        no_nl(t),
        0 <= lo <= hi <= t.len(),
    ensures
        no_nl(t.subrange(lo, hi)),
{
    assert forall|j: int| 0 <= j < hi - lo implies t.subrange(lo, hi)[j] != '\n' by {
        assert(t.subrange(lo, hi)[j] == t[lo + j]);
    }
}

proof fn lemma_no_nl_trim_start(t: Seq<char>, k: crate::text::TrimClass)
    requires
        no_nl(t),
    ensures
        no_nl(crate::text::trim_start_class(t, k)),
    decreases t.len(),
{
    if t.len() > 0 && crate::text::in_class(k, t[0]) {
        assert(no_nl(t.drop_first())) by {
            assert(forall|j: int|
                0 <= j < t.drop_first().len() ==> t.drop_first()[j] == t[j + 1]);
        }
        lemma_no_nl_trim_start(t.drop_first(), k);
    }
}

proof fn lemma_no_nl_trim_end(t: Seq<char>, k: crate::text::TrimClass)
    requires
        no_nl(t),
    ensures
        no_nl(crate::text::trim_end_class(t, k)),
    decreases t.len(),
{
    if t.len() > 0 && crate::text::in_class(k, t.last()) {
        assert(no_nl(t.drop_last())) by {
            assert(forall|j: int| 0 <= j < t.drop_last().len() ==> t.drop_last()[j] == t[j]);
        }
        lemma_no_nl_trim_end(t.drop_last(), k);
    }
}

proof fn lemma_no_nl_trim_both(t: Seq<char>, k: crate::text::TrimClass)
    requires
        no_nl(t),
    ensures
        no_nl(crate::text::trim_both_class(t, k)),
{
    lemma_no_nl_trim_start(t, k);
    lemma_no_nl_trim_end(crate::text::trim_start_class(t, k), k);
}

proof fn lemma_no_nl_drop_first(t: Seq<char>)
    requires
        no_nl(t),
        t.len() >= 1,
    ensures
        no_nl(t.drop_first()),
{
    assert(t.drop_first() =~= t.subrange(1, t.len() as int));
    lemma_no_nl_subrange(t, 1, t.len() as int);
}

/// A normalized statute name consists of characters of the fragment it was
/// cut from: a newline-free fragment yields a newline-free name.
proof fn lemma_no_nl_normalize(s: Seq<char>)
    requires
        no_nl(s),
    ensures
        spec_normalize(s) matches Some(tok) ==> no_nl(tok),
{
    let tr = crate::text::trim_both_class(s, crate::text::TrimClass::FragmentPunct);
    lemma_no_nl_trim_both(s, crate::text::TrimClass::FragmentPunct);
    if tr.len() > 0 && !crate::text::is_anaphoric(tr) {
        match crate::normalize::last_match_from(tr, 0) {
            None => {},
            Some(m) => {
                crate::normalize::lemma_last_match_bounds(tr, 0);
                let e = crate::normalize::match_end(tr, m.s, m.k);
                let tok = tr.subrange(m.s, e);
                lemma_no_nl_subrange(tr, m.s, e);
                lemma_no_nl_refine(tok);
            },
        }
    }
}

proof fn lemma_no_nl_refine(tok: Seq<char>)
    requires
        no_nl(tok),
    ensures
        no_nl(crate::normalize::refine_token(tok)),
{
    lemma_no_nl_strip_qualifier(tok);
    let a = crate::normalize::strip_qualifier(tok);
    lemma_no_nl_trim_start(a, crate::text::TrimClass::StructuralMarker);
    let b = crate::text::trim_start_class(a, crate::text::TrimClass::StructuralMarker);
    let c = crate::normalize::strip_naka_prefix(b);
    assert(no_nl(c)) by {
        if b.len() >= 1 && b[0] == '中' {
            lemma_no_nl_drop_first(b);
        }
    }
    lemma_no_nl_strip_qualifier(c);
    let d = crate::normalize::strip_qualifier(c);
    let p = crate::normalize::last_index_of_char(d, '中');
    if p >= 0 {
        lemma_last_index_bounds(d, '中');
        lemma_no_nl_subrange(d, p + 1, d.len() as int);
    }
}

proof fn lemma_last_index_bounds(t: Seq<char>, ch: char)
    requires
        crate::normalize::last_index_of_char(t, ch) >= 0,
    ensures
        crate::normalize::last_index_of_char(t, ch) < t.len(),
    decreases t.len(),
{
    if t.len() > 0 && t.last() != ch {
        if crate::normalize::last_index_of_char(t.drop_last(), ch) >= 0 {
            lemma_last_index_bounds(t.drop_last(), ch);
        }
    }
}

proof fn lemma_no_nl_strip_qualifier(t: Seq<char>)
    requires
        no_nl(t),
    ensures
        no_nl(crate::normalize::strip_qualifier(t)),
{
    if matches_at(t, 0, seq!['改', '正', '前']) || matches_at(t, 0, seq!['改', '正', '後']) {
        lemma_no_nl_subrange(t, 3, t.len() as int);
    } else if t.len() >= 1 && (t[0] == '旧' || t[0] == '新') {
        lemma_no_nl_drop_first(t);
    }
}

proof fn lemma_no_nl_sanitize(x: Seq<char>)
    requires
        no_nl(x),
    ensures
        no_nl(crate::sanitize::sanitize_spec(x)),
{
    let m = crate::sanitize::replace_hostile(x);
    assert(no_nl(m)) by {
        assert(forall|j: int|
            0 <= j < m.len() ==> m[j] == (if crate::sanitize::is_path_hostile(x[j]) {
                '_'
            } else {
                x[j]
            }));
    }
    lemma_no_nl_trim_start(m, crate::text::TrimClass::Space);
    lemma_no_nl_trim_end(
        crate::text::trim_start_class(m, crate::text::TrimClass::Space),
        crate::text::TrimClass::SpaceDot,
    );
}

proof fn lemma_no_nl_target(dir: Seq<char>, law: Seq<char>)
    requires
        no_nl(dir),
        no_nl(law),
    ensures
        no_nl(note_target_spec(dir, law)),
{
    lemma_no_nl_sanitize(law);
    if dir.len() > 0 {
        assert(no_nl(seq!['/'])) by {
            assert(seq!['/'][0] == '/');
        }
        lemma_no_nl_concat(dir, seq!['/']);
        lemma_no_nl_concat(dir + seq!['/'], crate::sanitize::sanitize_spec(law));
    }
}

proof fn lemma_no_nl_lit2(a: char, b: char)
    requires
        a != '\n',
        b != '\n',
    ensures
        no_nl(seq![a, b]),
{
    assert forall|j: int| 0 <= j < 2 implies seq![a, b][j] != '\n' by {
        if j == 0 {
            assert(seq![a, b][0] == a);
        } else {
            assert(seq![a, b][1] == b);
        }
    }
}

proof fn lemma_no_nl_lit1(a: char)
    requires
        a != '\n',
    ensures
        no_nl(seq![a]),
{
    assert(seq![a][0] == a);
}

proof fn lemma_no_nl_lit3(a: char, b: char, c: char)
    requires
        a != '\n',
        b != '\n',
        c != '\n',
    ensures
        no_nl(seq![a, b, c]),
{
    assert forall|j: int| 0 <= j < 3 implies seq![a, b, c][j] != '\n' by {
        if j == 0 {
            assert(seq![a, b, c][0] == a);
        } else if j == 1 {
            assert(seq![a, b, c][1] == b);
        } else {
            assert(seq![a, b, c][2] == c);
        }
    }
}

proof fn lemma_no_nl_art_link(target: Seq<char>, n: Seq<char>)
    requires
        no_nl(target),
        no_nl(n),
    ensures
        no_nl(art_link(target, n)),
{
    lemma_no_nl_lit2('[', '[');
    lemma_no_nl_lit2('#', '第');
    lemma_no_nl_lit3('条', '|', '第');
    lemma_no_nl_lit3('条', ']', ']');
    lemma_no_nl_concat(seq!['[', '['], target);
    lemma_no_nl_concat(seq!['[', '['] + target, seq!['#', '第']);
    lemma_no_nl_concat(seq!['[', '['] + target + seq!['#', '第'], n);
    lemma_no_nl_concat(seq!['[', '['] + target + seq!['#', '第'] + n, seq!['条', '|', '第']);
    lemma_no_nl_concat(
        seq!['[', '['] + target + seq!['#', '第'] + n + seq!['条', '|', '第'],
        n,
    );
    lemma_no_nl_concat(
        seq!['[', '['] + target + seq!['#', '第'] + n + seq!['条', '|', '第'] + n,
        seq!['条', ']', ']'],
    );
}

proof fn lemma_no_nl_scoped_link(
    target: Seq<char>,
    anchor: Option<Seq<char>>,
    n: Seq<char>,
    marker: char,
)
    requires
        no_nl(target),
        opt_no_nl(anchor),
        no_nl(n),
        marker != '\n',
    ensures
        no_nl(scoped_link(target, anchor, n, marker)),
{
    match anchor {
        Some(a) => {
            lemma_no_nl_lit2('[', '[');
            lemma_no_nl_lit1('#');
            lemma_no_nl_lit2('|', '第');
            lemma_no_nl_lit3(marker, ']', ']');
            lemma_no_nl_concat(seq!['[', '['], target);
            lemma_no_nl_concat(seq!['[', '['] + target, seq!['#']);
            lemma_no_nl_concat(seq!['[', '['] + target + seq!['#'], a);
            lemma_no_nl_concat(seq!['[', '['] + target + seq!['#'] + a, seq!['|', '第']);
            lemma_no_nl_concat(seq!['[', '['] + target + seq!['#'] + a + seq!['|', '第'], n);
            lemma_no_nl_concat(
                seq!['[', '['] + target + seq!['#'] + a + seq!['|', '第'] + n,
                seq![marker, ']', ']'],
            );
        },
        None => {
            lemma_no_nl_lit1('第');
            lemma_no_nl_lit1(marker);
            lemma_no_nl_concat(seq!['第'], n);
            lemma_no_nl_concat(seq!['第'] + n, seq![marker]);
        },
    }
}

proof fn lemma_no_nl_ext_link(dir: Seq<char>, law: Seq<char>, n: Seq<char>)
    requires
        no_nl(dir),
        no_nl(law),
        no_nl(n),
    ensures
        no_nl(ext_link(dir, law, n)),
{
    let target = note_target_spec(dir, law);
    lemma_no_nl_target(dir, law);
    lemma_no_nl_lit2('[', '[');
    lemma_no_nl_lit2('#', '第');
    lemma_no_nl_lit2('条', '|');
    lemma_no_nl_lit1('第');
    lemma_no_nl_lit3('条', ']', ']');
    lemma_no_nl_concat(seq!['[', '['], target);
    lemma_no_nl_concat(seq!['[', '['] + target, seq!['#', '第']);
    lemma_no_nl_concat(seq!['[', '['] + target + seq!['#', '第'], n);
    lemma_no_nl_concat(seq!['[', '['] + target + seq!['#', '第'] + n, seq!['条', '|']);
    lemma_no_nl_concat(seq!['[', '['] + target + seq!['#', '第'] + n + seq!['条', '|'], law);
    lemma_no_nl_concat(
        seq!['[', '['] + target + seq!['#', '第'] + n + seq!['条', '|'] + law,
        seq!['第'],
    );
    lemma_no_nl_concat(
        seq!['[', '['] + target + seq!['#', '第'] + n + seq!['条', '|'] + law + seq!['第'],
        n,
    );
    lemma_no_nl_concat(
        seq!['[', '['] + target + seq!['#', '第'] + n + seq!['条', '|'] + law + seq!['第'] + n,
        seq!['条', ']', ']'],
    );
}

proof fn lemma_no_nl_pass2(t: Seq<char>, i: int, target: Seq<char>)
    requires
        no_nl(t),
        no_nl(target),
        0 <= i <= t.len(),
    ensures
        no_nl(pass2_from(t, i, target)),
    decreases t.len() - i,
{
    if i >= t.len() {
    } else if t[i] == '第' && ({
        let d = numeral_run_end(t, i + 1);
        d > i + 1 && d < t.len() && t[d] == '条'
    }) {
        let d = numeral_run_end(t, i + 1);
        crate::lawtext::lemma_numeral_run_end(t, i + 1);
        lemma_no_nl_subrange(t, i + 1, d);
        lemma_no_nl_art_link(target, t.subrange(i + 1, d));
        lemma_no_nl_pass2(t, d + 1, target);
        lemma_no_nl_concat(art_link(target, t.subrange(i + 1, d)), pass2_from(t, d + 1, target));
    } else {
        lemma_no_nl_lit1(t[i]);
        lemma_no_nl_pass2(t, i + 1, target);
        lemma_no_nl_concat(seq![t[i]], pass2_from(t, i + 1, target));
    }
}

proof fn lemma_no_nl_scoped(
    t: Seq<char>,
    i: int,
    target: Seq<char>,
    anchor: Option<Seq<char>>,
    marker: char,
)
    requires
        no_nl(t),
        no_nl(target),
        opt_no_nl(anchor),
        marker != '\n',
        0 <= i <= t.len(),
    ensures
        no_nl(scoped_pass_from(t, i, target, anchor, marker)),
    decreases t.len() - i,
{
    if i >= t.len() {
    } else if t[i] == '第' && ({
        let d = numeral_run_end(t, i + 1);
        d > i + 1 && d < t.len() && t[d] == marker
    }) {
        let d = numeral_run_end(t, i + 1);
        crate::lawtext::lemma_numeral_run_end(t, i + 1);
        lemma_no_nl_subrange(t, i + 1, d);
        lemma_no_nl_scoped_link(target, anchor, t.subrange(i + 1, d), marker);
        lemma_no_nl_scoped(t, d + 1, target, anchor, marker);
        lemma_no_nl_concat(
            scoped_link(target, anchor, t.subrange(i + 1, d), marker),
            scoped_pass_from(t, d + 1, target, anchor, marker),
        );
    } else {
        lemma_no_nl_lit1(t[i]);
        lemma_no_nl_scoped(t, i + 1, target, anchor, marker);
        lemma_no_nl_concat(seq![t[i]], scoped_pass_from(t, i + 1, target, anchor, marker));
    }
}

/// Every segment text the segmentation produces is newline-free when the
/// line, the running plain text, the previous segments and the directory
/// are.
proof fn lemma_no_nl_pass1(
    t: Seq<char>,
    i: int,
    dir: Seq<char>,
    plain: Seq<char>,
    segs: Seq<SegV>,
)
    requires
        no_nl(t),
        no_nl(dir),
        no_nl(plain),
        0 <= i <= t.len(),
        forall|k: int| 0 <= k < segs.len() ==> no_nl((#[trigger] segs[k]).text),
    ensures
        ({
            let r = pass1_from(t, i, dir, plain, segs);
            forall|k: int| 0 <= k < r.len() ==> no_nl((#[trigger] r[k]).text)
        }),
    decreases t.len() - i,
{
    let r = pass1_from(t, i, dir, plain, segs);
    if i >= t.len() || find_citation_from(t, i) is None {
        lemma_no_nl_subrange(t, i, t.len() as int);
        lemma_no_nl_concat(plain, t.subrange(i, t.len() as int));
        assert forall|k: int| 0 <= k < r.len() implies no_nl((#[trigger] r[k]).text) by {
            if k < segs.len() {
                assert(r[k] == segs[k]);
            } else {
                assert(r[k].text == plain + t.subrange(i, t.len() as int));
            }
        }
    } else {
        match find_citation_from(t, i) {
            None => {},
            Some(c) => {
                crate::extract::lemma_citation_bounds(t, i);
                let pre = t.subrange(i, c.start);
                let frag = t.subrange(c.start, c.name_end);
                let e = c.dig_end + 1;
                lemma_no_nl_subrange(t, i, c.start);
                lemma_no_nl_subrange(t, c.start, c.name_end);
                match spec_normalize(frag) {
                    None => {
                        let mtext = t.subrange(c.start, c.dig_end + 1);
                        lemma_no_nl_subrange(t, c.start, c.dig_end + 1);
                        lemma_no_nl_concat(plain, pre);
                        lemma_no_nl_concat(plain + pre, mtext);
                        lemma_no_nl_pass1(t, e, dir, plain + pre + mtext, segs);
                        assert(r == pass1_from(t, e, dir, plain + pre + mtext, segs));
                    },
                    Some(law) => {
                        lemma_no_nl_normalize(frag);
                        lemma_no_nl_subrange(t, c.dig_start, c.dig_end);
                        lemma_no_nl_ext_link(dir, law, t.subrange(c.dig_start, c.dig_end));
                        let link = ext_link(dir, law, t.subrange(c.dig_start, c.dig_end));
                        lemma_no_nl_concat(plain, pre);
                        let segs2 = close_plain(segs, plain + pre).push(
                            SegV { protected: true, text: link },
                        );
                        assert forall|k: int| 0 <= k < segs2.len() implies no_nl(
                            (#[trigger] segs2[k]).text,
                        ) by {
                            let base = close_plain(segs, plain + pre);
                            if k < segs.len() {
                                assert(segs2[k] == segs[k]);
                            } else if k < base.len() {
                                assert(segs2[k].text == plain + pre);
                            } else {
                                assert(segs2[k].text == link);
                            }
                        }
                        lemma_no_nl_pass1(t, e, dir, Seq::empty(), segs2);
                        assert(r == pass1_from(t, e, dir, Seq::empty(), segs2));
                    },
                }
            },
        }
    }
}

proof fn lemma_no_nl_render_segs(ss: Seq<SegV>, target: Seq<char>, anchor: Option<Seq<char>>)
    requires
        no_nl(target),
        opt_no_nl(anchor),
        forall|k: int| 0 <= k < ss.len() ==> no_nl((#[trigger] ss[k]).text),
    ensures
        no_nl(render_segs(ss, target, anchor)),
    decreases ss.len(),
{
    if ss.len() > 0 {
        let head = ss[0];
        let rest = ss.drop_first();
        assert(forall|k: int| 0 <= k < rest.len() ==> no_nl((#[trigger] rest[k]).text));
        lemma_no_nl_render_segs(rest, target, anchor);
        if head.protected {
        } else {
            let r1 = pass2_from(head.text, 0, target);
            lemma_no_nl_pass2(head.text, 0, target);
            lemma_no_nl_scoped(r1, 0, target, anchor, '項');
            let r2 = scoped_pass_from(r1, 0, target, anchor, '項');
            lemma_no_nl_scoped(r2, 0, target, anchor, '号');
        }
        lemma_no_nl_concat(render_seg(head, target, anchor), render_segs(rest, target, anchor));
    }
}

/// A rewritten line is newline-free when its source line, the directory,
/// the link target and the anchor are.
proof fn lemma_no_nl_emitted(
    line: Seq<char>,
    dir: Seq<char>,
    target: Seq<char>,
    anchor: Option<Seq<char>>,
)
    requires
        no_nl(line),
        no_nl(dir),
        no_nl(target),
        opt_no_nl(anchor),
    ensures
        no_nl(emitted_line(line, dir, target, anchor)),
{
    if !is_passthrough(line) {
        lemma_no_nl_pass1(line, 0, dir, Seq::empty(), Seq::empty());
        lemma_no_nl_render_segs(
            pass1_from(line, 0, dir, Seq::empty(), Seq::empty()),
            target,
            anchor,
        );
    }
}

/// The anchor a newline-free line defines is newline-free.
proof fn lemma_no_nl_anchor_update(s: Seq<char>, anchor: Option<Seq<char>>)
    requires
        no_nl(s),
        opt_no_nl(anchor),
    ensures
        opt_no_nl(anchor_update(s, anchor)),
{
    lemma_no_nl_trim_start(s, crate::text::TrimClass::Hash);
    lemma_no_nl_trim_both(
        crate::text::trim_start_class(s, crate::text::TrimClass::Hash),
        crate::text::TrimClass::Space,
    );
    let c = crate::text::trim_both_class(
        crate::text::trim_start_class(s, crate::text::TrimClass::Hash),
        crate::text::TrimClass::Space,
    );
    match spec_heading_anchor(s) {
        Some(a) => {
            crate::text::lemma_first_at_or_after(c, 0, '条');
            lemma_no_nl_subrange(c, 0, first_at_or_after(c, 0, '条') + 1);
        },
        None => {},
    }
}

proof fn lemma_first_nl_exact(t: Seq<char>, i: int, p: int)
    requires
        0 <= i <= p <= t.len(),
        forall|j: int| i <= j < p ==> t[j] != '\n',
        p == t.len() || t[p] == '\n',
    ensures
        first_at_or_after(t, i, '\n') == p,
    decreases p - i,
{
    if i < p {
        lemma_first_nl_exact(t, i + 1, p);
    }
}

proof fn lemma_first_shift(x: Seq<char>, y: Seq<char>, j: int, c: char)
    requires
        0 <= j,
    ensures
        first_at_or_after(x + y, x.len() + j, c) == x.len() + first_at_or_after(y, j, c),
    decreases y.len() + 1 - j,
{
    let t = x + y;
    if j >= y.len() {
        assert(t.len() == x.len() + y.len());
    } else {
        assert(t[x.len() + j] == y[j]);
        if y[j] == c {
        } else {
            lemma_first_shift(x, y, j + 1, c);
        }
    }
}

/// Rewriting from an offset into a concatenation only sees the suffix.
proof fn lemma_linkify_shift(
    x: Seq<char>,
    y: Seq<char>,
    j: int,
    dir: Seq<char>,
    tg: Seq<char>,
    a: Option<Seq<char>>,
)
    requires
        0 <= j,
    ensures
        spec_linkify_from(x + y, x.len() + j, dir, tg, a) == spec_linkify_from(y, j, dir, tg, a),
    decreases y.len() + 1 - j,
{
    let t = x + y;
    if j >= y.len() {
        assert(t.len() == x.len() + y.len());
    } else {
        lemma_first_shift(x, y, j, '\n');
        let p = first_at_or_after(y, j, '\n');
        lemma_first_at_or_after(y, j, '\n');
        assert(t.subrange(x.len() + j, x.len() + p) =~= y.subrange(j, p));
        let lo = spec_line_rewrite(y.subrange(j, p), dir, tg, a);
        lemma_linkify_shift(x, y, p + 1, dir, tg, lo.anchor);
    }
}

/// Rewriting the rewritten text from any starting line changes nothing.
proof fn lemma_relinkify_from(
    t: Seq<char>,
    i: int,
    dir: Seq<char>,
    tg: Seq<char>,
    a: Option<Seq<char>>,
)
    requires
        0 <= i,
        no_nl(dir),
        no_nl(tg),
        opt_no_nl(a),
    ensures
        ({
            let ro = spec_linkify_from(t, i, dir, tg, a);
            spec_linkify_from(ro.text, 0, dir, tg, a).text == ro.text
        }),
    decreases t.len() + 1 - i,
{
    let ro = spec_linkify_from(t, i, dir, tg, a);
    if i >= t.len() {
    } else {
        let p = first_at_or_after(t, i, '\n');
        lemma_first_at_or_after(t, i, '\n');
        let line = t.subrange(i, p);
        assert(no_nl(line)) by {
            assert(forall|j: int| 0 <= j < line.len() ==> line[j] == t[i + j]);
        }
        let lo = spec_line_rewrite(line, dir, tg, a);
        lemma_line_rewrite_parts(line, dir, tg, a);
        let e1 = emitted_line(line, dir, tg, a);
        lemma_no_nl_emitted(line, dir, tg, a);
        lemma_no_nl_anchor_update(e1, a);
        let rest = spec_linkify_from(t, p + 1, dir, tg, lo.anchor);
        lemma_relinkify_from(t, p + 1, dir, tg, lo.anchor);
        let o = (e1 + seq!['\n']) + rest.text;
        assert(ro.text =~= o);
        assert(o.len() > 0);
        assert forall|j: int| 0 <= j < e1.len() implies o[j] != '\n' by {
            assert(o[j] == e1[j]);
        }
        assert(o[e1.len() as int] == '\n');
        lemma_first_nl_exact(o, 0, e1.len() as int);
        assert(o.subrange(0, e1.len() as int) =~= e1);
        let lo2 = spec_line_rewrite(e1, dir, tg, a);
        lemma_line_rewrite_parts(e1, dir, tg, a);
        lemma_line_rewrite_idempotent(line, dir, tg, a);
        assert(emitted_line(e1, dir, tg, a) == e1);
        assert(lo2.text == e1 + seq!['\n']);
        assert(lo2.anchor == anchor_update(e1, a));
        assert(lo2.anchor == lo.anchor);
        lemma_linkify_shift(e1 + seq!['\n'], rest.text, 0, dir, tg, lo.anchor);
        assert((e1 + seq!['\n']).len() + 0 == e1.len() + 1);
        assert(spec_linkify_from(o, e1.len() as int + 1, dir, tg, lo.anchor) == spec_linkify_from(
            rest.text,
            0,
            dir,
            tg,
            lo.anchor,
        ));
        assert(spec_linkify_from(o, 0, dir, tg, a).text == lo2.text + spec_linkify_from(
            o,
            e1.len() as int + 1,
            dir,
            tg,
            lo2.anchor,
        ).text);
        assert(spec_linkify_from(o, 0, dir, tg, a).text =~= o);
        assert(spec_linkify_from(ro.text, 0, dir, tg, a).text == spec_linkify_from(
            o,
            0,
            dir,
            tg,
            a,
        ).text);
    }
}

/// Running the rewrite over its own output produces no additional
/// substitutions: a line that gained a link passes through verbatim on the
/// second run, and a line the first run left alone is left alone again.
/// The one proviso is that neither the link directory nor the current
/// statute title embeds a newline, which would break the line structure of
/// the emitted links.
pub proof fn lemma_rewrite_idempotent(t: Seq<char>, dir: Seq<char>, cur: Seq<char>)
    requires
        no_nl(dir),
        no_nl(cur),
    ensures
        spec_linkify(spec_linkify(t, dir, cur).text, dir, cur).text == spec_linkify(
            t,
            dir,
            cur,
        ).text,
{
    lemma_no_nl_target(dir, cur);
    lemma_relinkify_from(t, 0, dir, note_target_spec(dir, cur), None);
}

/// The view of an optional anchor.
pub open spec fn opt_vec_view(o: Option<Vec<char>>) -> Option<Seq<char>> {
    match o {
        Some(v) => Some(v@),
        None => None,
    }
}

/// Appends every character of `v` to `out`.
fn push_all(out: &mut Vec<char>, v: &Vec<char>)
    ensures
        final(out)@ == old(out)@ + v@,
{
    let mut i: usize = 0;
    while i < v.len()
        invariant
            i <= v.len(),
            out@ == old(out)@ + v@.subrange(0, i as int),
        decreases v.len() - i,
    {
        out.push(v[i]);
        i += 1;
        proof {
            assert(out@ =~= old(out)@ + v@.subrange(0, i as int));
        }
    }
    proof {
        assert(old(out)@ + v@.subrange(0, v@.len() as int) =~= old(out)@ + v@);
    }
}

/// Appends `v[from..to]` to `out`.
fn push_range(out: &mut Vec<char>, v: &Vec<char>, from: usize, to: usize)
    requires
        from <= to <= v.len(),
    ensures
        final(out)@ == old(out)@ + v@.subrange(from as int, to as int),
{
    let piece = copy_range(v, from, to);
    push_all(out, &piece);
}

/// The second pass applied to one plain run.
fn pass2_exec(text: &Vec<char>, target: &Vec<char>) -> (r: Vec<char>)
    ensures
        r@ == pass2_from(text@, 0, target@),
{
    let ghost t = text@;
    let ghost tg = target@;
    let mut out: Vec<char> = Vec::new();
    let mut i: usize = 0;
    while i < text.len()
        invariant
            t == text@,
            tg == target@,
            i <= text.len(),
            pass2_from(t, 0, tg) == out@ + pass2_from(t, i as int, tg),
        decreases text.len() - i,
    {
        let ghost before = out@;
        let ghost i0 = i as int;
        let c = text[i];
        let mut plain = true;
        if c == '第' {
            let d = numeral_run_end_exec(text, i + 1);
            if d > i + 1 && d < text.len() && text[d] == '条' {
                plain = false;
                out.push('[');
                out.push('[');
                push_all(&mut out, target);
                out.push('#');
                out.push('第');
                push_range(&mut out, text, i + 1, d);
                out.push('条');
                out.push('|');
                out.push('第');
                push_range(&mut out, text, i + 1, d);
                out.push('条');
                out.push(']');
                out.push(']');
                proof {
                    assert(out@ =~= before + art_link(tg, t.subrange(i0 + 1, d as int)));
                }
                i = d + 1;
            }
        }
        if plain {
            out.push(c);
            proof {
                assert(out@ =~= before + seq![t[i0]]);
            }
            i += 1;
        }
        proof {
            assert(pass2_from(t, 0, tg) == out@ + pass2_from(t, i as int, tg));
        }
    }
    proof {
        assert(out@ =~= pass2_from(t, 0, tg));
    }
    out
}

/// The paragraph or item pass applied to one plain run.
fn scoped_exec(text: &Vec<char>, target: &Vec<char>, anchor: &Option<Vec<char>>, marker: char) -> (r:
    Vec<char>)
    requires
        marker == '項' || marker == '号',
    ensures
        r@ == scoped_pass_from(text@, 0, target@, opt_vec_view(*anchor), marker),
{
    let ghost t = text@;
    let ghost tg = target@;
    let ghost av = opt_vec_view(*anchor);
    let mut out: Vec<char> = Vec::new();
    let mut i: usize = 0;
    while i < text.len()
        invariant
            t == text@,
            tg == target@,
            av == opt_vec_view(*anchor),
            i <= text.len(),
            scoped_pass_from(t, 0, tg, av, marker) == out@ + scoped_pass_from(
                t,
                i as int,
                tg,
                av,
                marker,
            ),
        decreases text.len() - i,
    {
        let ghost before = out@;
        let ghost i0 = i as int;
        let c = text[i];
        let mut plain = true;
        if c == '第' {
            let d = numeral_run_end_exec(text, i + 1);
            if d > i + 1 && d < text.len() && text[d] == marker {
                plain = false;
                match anchor {
                    Some(a) => {
                        out.push('[');
                        out.push('[');
                        push_all(&mut out, target);
                        out.push('#');
                        push_all(&mut out, a);
                        out.push('|');
                        out.push('第');
                        push_range(&mut out, text, i + 1, d);
                        out.push(marker);
                        out.push(']');
                        out.push(']');
                    },
                    None => {
                        out.push('第');
                        push_range(&mut out, text, i + 1, d);
                        out.push(marker);
                    },
                }
                proof {
                    assert(out@ =~= before + scoped_link(
                        tg,
                        av,
                        t.subrange(i0 + 1, d as int),
                        marker,
                    ));
                }
                i = d + 1;
            }
        }
        if plain {
            out.push(c);
            proof {
                assert(out@ =~= before + seq![t[i0]]);
            }
            i += 1;
        }
        proof {
            assert(scoped_pass_from(t, 0, tg, av, marker) == out@ + scoped_pass_from(
                t,
                i as int,
                tg,
                av,
                marker,
            ));
        }
    }
    proof {
        assert(out@ =~= scoped_pass_from(t, 0, tg, av, marker));
    }
    out
}

/// The first pass applied to one plain line: citation scanning and
/// protected link emission.
#[verifier::rlimit(100)]
fn pass1_exec(line: &Vec<char>, dir: &str) -> (r: Vec<Segment>)
    ensures
        segs_view(r@) == pass1_from(line@, 0, dir@, Seq::empty(), Seq::empty()),
{
    let ghost t = line@;
    let ghost dv = dir@;
    let mut segs: Vec<Segment> = Vec::new();
    let mut plain: Vec<char> = Vec::new();
    let mut pos: usize = 0;
    proof {
        assert(segs_view(segs@) =~= Seq::<SegV>::empty());
    }
    while pos < line.len()
        invariant
            t == line@,
            dv == dir@,
            pos <= line.len(),
            pass1_from(t, 0, dv, Seq::empty(), Seq::empty()) == pass1_from(
                t,
                pos as int,
                dv,
                plain@,
                segs_view(segs@),
            ),
        decreases line.len() - pos,
    {
        let ghost pos0 = pos as int;
        let ghost plain0 = plain@;
        let ghost segs_h = segs_view(segs@);
        let mut i = pos;
        let mut k: usize = crate::extract::lazy_at(line, i);
        while i < line.len() && k == 0
            invariant
                t == line@,
                pos <= i <= line.len(),
                k == lazy_k(t, i as int, 1),
                k == 0 ==> find_citation_from(t, pos as int) == find_citation_from(t, i as int),
                k > 0 ==> i < line.len() && find_citation_from(t, pos as int) == Some(
                    citation_of(t, i as int, k as int),
                ),
            decreases line.len() - i,
        {
            i += 1;
            k = crate::extract::lazy_at(line, i);
            proof {
                if k > 0 {
                    crate::extract::lemma_lazy_props(t, i as int, 1);
                }
            }
        }
        if k == 0 {
            proof {
                assert(find_citation_from(t, pos as int) is None);
            }
            push_range(&mut plain, line, pos, line.len());
            if plain.len() > 0 {
                segs.push(Segment { protected: false, text: plain });
                proof {
                    assert(segs_view(segs@) =~= segs_view(segs@.drop_last()).push(
                        seg_view(segs@.last()),
                    ));
                }
                return segs;
            }
            return segs;
        }
        proof {
            crate::extract::lemma_lazy_props(t, i as int, 1);
            crate::extract::lemma_citation_bounds(t, pos as int);
        }
        let ghost c = find_citation_from(t, pos as int)->0;
        let sl = crate::extract::cite_suffix_exec(line, i + k);
        let name_end = i + k + sl;
        let dig_start = name_end + 1;
        let dig_end = numeral_run_end_exec(line, dig_start);
        proof {
            assert(c == citation_of(t, i as int, k as int));
        }
        push_range(&mut plain, line, pos, i);
        let ghost plain_pre = plain@;
        let frag = copy_range(line, i, name_end);
        let frag_s = chars_to_string(&frag);
        let ghost segs0 = segs_view(segs@);
        match normalize_law_ref_title(frag_s.as_str()) {
            None => {
                push_range(&mut plain, line, i, dig_end + 1);
                proof {
                    assert(spec_normalize(t.subrange(c.start, c.name_end)) is None);
                    assert(plain@ =~= plain0 + t.subrange(pos0, c.start) + t.subrange(
                        c.start,
                        c.dig_end + 1,
                    ));
                    assert(pass1_from(t, pos0, dv, plain0, segs_h) == pass1_from(
                        t,
                        c.dig_end + 1,
                        dv,
                        plain@,
                        segs_h,
                    ));
                }
            },
            Some(law) => {
                proof {
                    assert(spec_normalize(t.subrange(c.start, c.name_end)) matches Some(l2)
                        && l2 == law@);
                    assert(plain_pre =~= plain0 + t.subrange(pos0, c.start));
                }
                if plain.len() > 0 {
                    segs.push(Segment { protected: false, text: plain });
                    plain = Vec::new();
                    proof {
                        assert(segs_view(segs@) =~= segs0.push(
                            SegV { protected: false, text: plain_pre },
                        ));
                    }
                }
                let ghost segs1 = close_plain(segs0, plain_pre);
                proof {
                    assert(segs_view(segs@) == segs1);
                    assert(plain@ =~= Seq::<char>::empty());
                }
                let target_s = obsidian_note_target(dir, law.as_str());
                let mut link: Vec<char> = Vec::new();
                link.push('[');
                link.push('[');
                let mut tc = str_to_chars(target_s.as_str());
                link.append(&mut tc);
                link.push('#');
                link.push('第');
                push_range(&mut link, line, dig_start, dig_end);
                link.push('条');
                link.push('|');
                let mut lc = str_to_chars(law.as_str());
                link.append(&mut lc);
                link.push('第');
                push_range(&mut link, line, dig_start, dig_end);
                link.push('条');
                link.push(']');
                link.push(']');
                proof {
                    assert(link@ =~= ext_link(
                        dv,
                        law@,
                        t.subrange(c.dig_start, c.dig_end),
                    ));
                }
                segs.push(Segment { protected: true, text: link });
                proof {
                    assert(segs_view(segs@) =~= segs1.push(
                        SegV {
                            protected: true,
                            text: ext_link(dv, law@, t.subrange(c.dig_start, c.dig_end)),
                        },
                    ));
                    assert(pass1_from(t, pos0, dv, plain0, segs_h) == pass1_from(
                        t,
                        c.dig_end + 1,
                        dv,
                        Seq::empty(),
                        segs_view(segs@),
                    ));
                }
            },
        }
        pos = dig_end + 1;
        proof {
            assert(pass1_from(t, 0, dv, Seq::empty(), Seq::empty()) == pass1_from(
                t,
                pos as int,
                dv,
                plain@,
                segs_view(segs@),
            ));
        }
    }
    if plain.len() > 0 {
        segs.push(Segment { protected: false, text: plain });
        proof {
            assert(segs_view(segs@) =~= segs_view(segs@.drop_last()).push(
                seg_view(segs@.last()),
            ));
        }
        return segs;
    }
    segs
}

/// Renders one plain line: segmentation, then the three substitution
/// passes over each plain segment.
fn render_line(line: &Vec<char>, dir: &str, target: &Vec<char>, anchor: &Option<Vec<char>>) -> (r:
    Vec<char>)
    ensures
        r@ == render_segs(
            pass1_from(line@, 0, dir@, Seq::empty(), Seq::empty()),
            target@,
            opt_vec_view(*anchor),
        ),
{
    let segs = pass1_exec(line, dir);
    let ghost sv = segs_view(segs@);
    let ghost tg = target@;
    let ghost av = opt_vec_view(*anchor);
    let mut out: Vec<char> = Vec::new();
    let mut idx: usize = 0;
    proof {
        assert(segs@.skip(0) =~= segs@);
    }
    while idx < segs.len()
        invariant
            sv == segs_view(segs@),
            tg == target@,
            av == opt_vec_view(*anchor),
            idx <= segs.len(),
            render_segs(sv, tg, av) == out@ + render_segs(
                segs_view(segs@.skip(idx as int)),
                tg,
                av,
            ),
        decreases segs.len() - idx,
    {
        let ghost rest = segs_view(segs@.skip(idx as int));
        proof {
            assert(rest[0] == seg_view(segs@[idx as int]));
            assert(rest.drop_first() =~= segs_view(segs@.skip(idx as int + 1)));
        }
        let s = &segs[idx];
        if s.protected {
            push_all(&mut out, &s.text);
        } else {
            let a = pass2_exec(&s.text, target);
            let b = scoped_exec(&a, target, anchor, '項');
            let c = scoped_exec(&b, target, anchor, '号');
            push_all(&mut out, &c);
        }
        idx += 1;
    }
    proof {
        assert(segs_view(segs@.skip(idx as int)).len() == 0);
        assert(out@ =~= render_segs(sv, tg, av));
    }
    out
}

/// Records the anaphoric tokens still present in a rewritten line.
fn push_unresolved(text: &Vec<char>, out: &mut Vec<String>)
    ensures
        final(out).deep_view() == old(out).deep_view() + spec_unresolved_tokens(text@),
{
    let t1: Vec<char> = vec!['前', '条'];
    let t2: Vec<char> = vec!['前', '項'];
    let t3: Vec<char> = vec!['次', '条'];
    let t4: Vec<char> = vec!['同', '条'];
    let t5: Vec<char> = vec!['同', '項'];
    proof {
        assert(t1@ =~= tok_zenjou());
        assert(t2@ =~= tok_zenkou());
        assert(t3@ =~= tok_jijou());
        assert(t4@ =~= tok_doujou());
        assert(t5@ =~= tok_doukou());
    }
    if check_contains_sub(text, &t1) {
        out.push(chars_to_string(&t1));
    }
    if check_contains_sub(text, &t2) {
        out.push(chars_to_string(&t2));
    }
    if check_contains_sub(text, &t3) {
        out.push(chars_to_string(&t3));
    }
    if check_contains_sub(text, &t4) {
        out.push(chars_to_string(&t4));
    }
    if check_contains_sub(text, &t5) {
        out.push(chars_to_string(&t5));
    }
    proof {
        assert(final(out).deep_view() =~= old(out).deep_view() + spec_unresolved_tokens(text@));
    }
}

/// Advances the anchor scope past `s`.
fn update_anchor(s: &Vec<char>, anchor: Option<Vec<char>>) -> (r: Option<Vec<char>>)
    ensures
        opt_vec_view(r) == anchor_update(s@, opt_vec_view(anchor)),
{
    let st = chars_to_string(s);
    match extract_heading_anchor(st.as_str()) {
        Some(a) => Some(str_to_chars(a.as_str())),
        None => anchor,
    }
}

/// Rewrites rendered statute text into cross-linked note text, and returns
/// the anaphoric tokens that remain unresolved, one entry per token kind
/// per line.
#[verifier::rlimit(100)]
pub fn linkify_markdown(markdown: &str, current_law_title: &str, output_dir: &str) -> (r: (
    String,
    Vec<String>,
))
    ensures
        ({
            let ro = spec_linkify(markdown@, dir_spec(output_dir@), current_law_title@);
            r.0@ == ro.text && r.1.deep_view() == ro.unresolved
        }),
{
    let dirs = obsidian_dir(output_dir);
    let target_s = obsidian_note_target(dirs.as_str(), current_law_title);
    let target = str_to_chars(target_s.as_str());
    let v = str_to_chars(markdown);
    let ghost t = v@;
    let ghost dv = dir_spec(output_dir@);
    let ghost tg = note_target_spec(dv, current_law_title@);
    let mut out: Vec<char> = Vec::new();
    let mut unresolved: Vec<String> = Vec::new();
    let mut anchor: Option<Vec<char>> = None;
    let mut i: usize = 0;
    let brbr: Vec<char> = vec!['[', '['];
    proof {
        assert(brbr@ =~= seq!['[', '[']);
        assert(unresolved.deep_view() =~= Seq::<Seq<char>>::empty());
    }
    while i < v.len()
        invariant
            t == v@,
            t == markdown@,
            dv == dir_spec(output_dir@),
            dirs@ == dv,
            tg == target@,
            tg == note_target_spec(dv, current_law_title@),
            brbr@ == seq!['[', '['],
            i <= v.len(),
            spec_linkify_from(t, 0, dv, tg, None).text == out@ + spec_linkify_from(
                t,
                i as int,
                dv,
                tg,
                opt_vec_view(anchor),
            ).text,
            spec_linkify_from(t, 0, dv, tg, None).unresolved == unresolved.deep_view()
                + spec_linkify_from(t, i as int, dv, tg, opt_vec_view(anchor)).unresolved,
        decreases v.len() - i,
    {
        let ghost i0 = i as int;
        let ghost av0 = opt_vec_view(anchor);
        let ghost out0 = out@;
        let ghost un0 = unresolved.deep_view();
        let p = find_char_from(&v, i, '\n');
        proof {
            lemma_first_at_or_after(t, i0, '\n');
        }
        let line = copy_range(&v, i, p);
        let ghost lo = spec_line_rewrite(line@, dv, tg, av0);
        if (line.len() > 0 && line[0] == '#') || check_contains_sub(&line, &brbr) {
            proof {
                assert(is_passthrough(line@));
            }
            push_all(&mut out, &line);
            out.push('\n');
            anchor = update_anchor(&line, anchor);
            proof {
                assert(out@ =~= out0 + lo.text);
                assert(opt_vec_view(anchor) == lo.anchor);
                assert(unresolved.deep_view() =~= un0 + lo.unresolved);
            }
        } else {
            proof {
                assert(!is_passthrough(line@));
            }
            let text = render_line(&line, dirs.as_str(), &target, &anchor);
            push_all(&mut out, &text);
            out.push('\n');
            push_unresolved(&text, &mut unresolved);
            anchor = update_anchor(&text, anchor);
            proof {
                assert(out@ =~= out0 + lo.text);
                assert(opt_vec_view(anchor) == lo.anchor);
                assert(unresolved.deep_view() == un0 + lo.unresolved);
            }
        }
        if p >= v.len() {
            i = v.len();
        } else {
            i = p + 1;
        }
        proof {
            let full = spec_linkify_from(t, 0, dv, tg, None);
            assert(line@ == t.subrange(i0, p as int));
            assert(spec_linkify_from(t, p as int + 1, dv, tg, lo.anchor) == spec_linkify_from(
                t,
                i as int,
                dv,
                tg,
                lo.anchor,
            ));
            assert(spec_linkify_from(t, i0, dv, tg, av0).text == lo.text + spec_linkify_from(
                t,
                i as int,
                dv,
                tg,
                lo.anchor,
            ).text);
            assert(spec_linkify_from(t, i0, dv, tg, av0).unresolved == lo.unresolved
                + spec_linkify_from(t, i as int, dv, tg, lo.anchor).unresolved);
            assert(out@ + spec_linkify_from(t, i as int, dv, tg, opt_vec_view(anchor)).text
                =~= out0 + spec_linkify_from(t, i0, dv, tg, av0).text);
            assert(unresolved.deep_view() + spec_linkify_from(
                t,
                i as int,
                dv,
                tg,
                opt_vec_view(anchor),
            ).unresolved =~= un0 + spec_linkify_from(t, i0, dv, tg, av0).unresolved);
        }
    }
    proof {
        assert(spec_linkify_from(t, i as int, dv, tg, opt_vec_view(anchor)).text
            =~= Seq::<char>::empty());
        assert(spec_linkify_from(t, i as int, dv, tg, opt_vec_view(anchor)).unresolved
            =~= Seq::<Seq<char>>::empty());
        assert(out@ =~= spec_linkify(markdown@, dir_spec(output_dir@), current_law_title@).text);
        assert(unresolved.deep_view() =~= spec_linkify(
            markdown@,
            dir_spec(output_dir@),
            current_law_title@,
        ).unresolved);
    }
    (chars_to_string(&out), unresolved)
}

} // verus!
