//! The fetched statute body: a tagged recursive node tree flattened into
//! block-separated plain text, whitespace-collapsed and split into clean
//! lines, plus the article-heading pass that gives each article line a
//! Markdown heading anchor.

use vstd::prelude::*;
use vstd::string::StringExecFns;
use crate::candidate::{LawContents, LawsLawInfo, LawsRevisionInfo};
use crate::text::{
    TrimClass, trim_both_class, trim_start_class, trim_both, trim_start, is_numeral, numeral_char,
    first_at_or_after, lemma_first_at_or_after, find_char_from, lemma_trim_start_at, in_class,
    check_class, copy_range, str_to_chars, chars_to_string, vec_char_eq,
};

verus! {

/// A node of the structured statute document: leaf text, a plain sequence,
/// or a tagged block.
pub enum LawNode {
    Leaf(String),
    Sequence(Vec<LawNode>),
    Block { tag: String, children: Vec<LawNode> },
}

/// The tags whose blocks force a line break before and after their
/// content.
pub open spec fn is_block_tag(t: Seq<char>) -> bool {
    t == "Law"@ || t == "LawBody"@ || t == "MainProvision"@ || t == "Part"@ || t == "Chapter"@
        || t == "Section"@ || t == "Subsection"@ || t == "Division"@ || t == "Article"@
        || t == "Paragraph"@ || t == "Item"@ || t == "Subitem"@ || t == "SupplProvision"@
        || t == "AppdxTable"@ || t == "AppdxNote"@ || t == "AppdxStyle"@ || t == "Appdx"@
}

/// Checks membership in the block-tag set.
pub fn block_tag(tag: &String) -> (r: bool)
    ensures
        r == is_block_tag(tag@),
{
    tag.eq(&String::from_str("Law")) || tag.eq(&String::from_str("LawBody")) || tag.eq(
        &String::from_str("MainProvision"),
    ) || tag.eq(&String::from_str("Part")) || tag.eq(&String::from_str("Chapter")) || tag.eq(
        &String::from_str("Section"),
    ) || tag.eq(&String::from_str("Subsection")) || tag.eq(&String::from_str("Division"))
        || tag.eq(&String::from_str("Article")) || tag.eq(&String::from_str("Paragraph")) || tag.eq(
        &String::from_str("Item"),
    ) || tag.eq(&String::from_str("Subitem")) || tag.eq(&String::from_str("SupplProvision"))
        || tag.eq(&String::from_str("AppdxTable")) || tag.eq(&String::from_str("AppdxNote"))
        || tag.eq(&String::from_str("AppdxStyle")) || tag.eq(&String::from_str("Appdx"))
}

/// Whether the accumulated text ends in a newline.
pub open spec fn ends_nl(t: Seq<char>) -> bool {
    t.len() > 0 && t.last() == '\n'
}

fn ends_nl_exec(v: &Vec<char>) -> (r: bool)
    ensures
        r == ends_nl(v@),
{
    v.len() > 0 && v[v.len() - 1] == '\n'
}

/// The text accumulated after walking `n`, appended to `acc`: leaf strings
/// verbatim, block tags separated by newlines on both sides unless one is
/// already there.
pub open spec fn spec_append(n: LawNode, acc: Seq<char>) -> Seq<char>
    decreases n, 0int,
{
    match n {
        LawNode::Leaf(s) => acc + s@,
        LawNode::Sequence(cs) => spec_append_from(cs@, 0, acc),
        LawNode::Block { tag, children } => {
            let a1 = if is_block_tag(tag@) && !ends_nl(acc) {
                acc.push('\n')
            } else {
                acc
            };
            let a2 = spec_append_from(children@, 0, a1);
            if is_block_tag(tag@) && !ends_nl(a2) {
                a2.push('\n')
            } else {
                a2
            }
        },
    }
}

/// The children from index `i` on, walked left to right.
pub open spec fn spec_append_from(ns: Seq<LawNode>, i: int, acc: Seq<char>) -> Seq<char>
    decreases ns, ns.len() - i + 1,
{
    if i < 0 || i >= ns.len() {
        acc
    } else {
        spec_append_from(ns, i + 1, spec_append(ns[i], acc))
    }
}

/// Walks the node tree and appends its flattened text to `out`.
pub fn append_law_text(n: &LawNode, out: &mut Vec<char>)
    ensures
        final(out)@ == spec_append(*n, old(out)@),
    decreases *n,
{
    match n {
        LawNode::Leaf(s) => {
            let mut cs = str_to_chars(s.as_str());
            out.append(&mut cs);
        },
        LawNode::Sequence(cs) => {
            append_children(cs, out);
        },
        LawNode::Block { tag, children } => {
            let isb = block_tag(tag);
            if isb && !ends_nl_exec(out) {
                out.push('\n');
            }
            append_children(children, out);
            if isb && !ends_nl_exec(out) {
                out.push('\n');
            }
        },
    }
}

/// Walks each child in order, appending its text.
fn append_children(cs: &Vec<LawNode>, out: &mut Vec<char>)
    ensures
        final(out)@ == spec_append_from(cs@, 0, old(out)@),
    decreases cs@,
{
    let mut i: usize = 0;
    while i < cs.len()
        invariant
            i <= cs.len(),
            spec_append_from(cs@, 0, old(out)@) == spec_append_from(cs@, i as int, out@),
        decreases cs.len() - i,
    {
        proof {
            assert(decreases_to!(cs@ => cs@[i as int]));
        }
        append_law_text(&cs[i], out);
        i += 1;
    }
}

/// What position `i` contributes to the whitespace-collapsed text: a
/// space or tab contributes one space when it opens a run and nothing
/// otherwise; any other character contributes itself.
pub open spec fn ws_contrib(t: Seq<char>, i: int) -> Seq<char> {
    if in_class(TrimClass::SpaceTab, t[i]) {
        if i > 0 && in_class(TrimClass::SpaceTab, t[i - 1]) {
            Seq::empty()
        } else {
            seq![' ']
        }
    } else {
        seq![t[i]]
    }
}

/// Runs of spaces and tabs collapsed to a single space.
pub open spec fn collapse_ws(t: Seq<char>) -> Seq<char>
    decreases t.len(),
{
    if t.len() == 0 {
        Seq::empty()
    } else {
        collapse_ws(t.drop_last()) + ws_contrib(t, t.len() - 1)
    }
}

/// Collapses each run of spaces and tabs to one space.
fn collapse_ws_exec(v: &Vec<char>) -> (r: Vec<char>)
    ensures
        r@ == collapse_ws(v@),
{
    let ghost t = v@;
    let mut out: Vec<char> = Vec::new();
    let mut i: usize = 0;
    while i < v.len()
        invariant
            t == v@,
            i <= v.len(),
            out@ == collapse_ws(t.subrange(0, i as int)),
        decreases v.len() - i,
    {
        let c = v[i];
        if check_class(TrimClass::SpaceTab, c) {
            if i > 0 && check_class(TrimClass::SpaceTab, v[i - 1]) {
            } else {
                out.push(' ');
            }
        } else {
            out.push(c);
        }
        i += 1;
        proof {
            let sub = t.subrange(0, i as int);
            assert(sub.drop_last() =~= t.subrange(0, i - 1));
            assert(sub[i - 1] == t[i - 1]);
            assert(i >= 2 ==> sub[i - 2] == t[i - 2]);
            assert(out@ =~= collapse_ws(sub));
        }
    }
    proof {
        assert(t.subrange(0, t.len() as int) =~= t);
    }
    out
}

/// The trimmed, non-empty lines of `t` from position `i` on.
pub open spec fn clean_lines_from(t: Seq<char>, i: int) -> Seq<Seq<char>>
    decreases t.len() + 1 - i,
{
    if i < 0 || i >= t.len() {
        Seq::empty()
    } else {
        let p = first_at_or_after(t, i, '\n');
        if i <= p <= t.len() {
            let line = trim_both_class(t.subrange(i, p), TrimClass::Space);
            let rest = clean_lines_from(t, p + 1);
            if line.len() == 0 {
                rest
            } else {
                seq![line] + rest
            }
        } else {
            Seq::empty()
        }
    }
}

/// Lines joined by single newlines, with no trailing newline.
pub open spec fn join_nl(ls: Seq<Seq<char>>) -> Seq<char>
    decreases ls.len(),
{
    if ls.len() == 0 {
        Seq::empty()
    } else if ls.len() == 1 {
        ls[0]
    } else {
        ls[0] + seq!['\n'] + join_nl(ls.drop_first())
    }
}

/// The rendered text of a statute body: the tree flattened, whitespace
/// collapsed, lines trimmed, empty lines dropped, and the rest joined by
/// single newlines.
pub open spec fn spec_markdown(n: LawNode) -> Seq<char> {
    join_nl(clean_lines_from(collapse_ws(spec_append(n, Seq::empty())), 0))
}

/// Trims every line, drops the empty ones, and joins the rest with single
/// newlines.
fn clean_and_join(v: &Vec<char>) -> (r: Vec<char>)
    ensures
        r@ == join_nl(clean_lines_from(v@, 0)),
{
    let ghost t = v@;
    let mut out: Vec<char> = Vec::new();
    let mut wrote = false;
    let mut i: usize = 0;
    while i < v.len()
        invariant
            t == v@,
            i <= v.len(),
            !wrote ==> out@ =~= Seq::<char>::empty() && join_nl(clean_lines_from(t, 0)) == join_nl(
                clean_lines_from(t, i as int),
            ),
            wrote ==> join_nl(clean_lines_from(t, 0)) == out@ + (if clean_lines_from(
                t,
                i as int,
            ).len() > 0 {
                seq!['\n'] + join_nl(clean_lines_from(t, i as int))
            } else {
                Seq::<char>::empty()
            }),
        decreases v.len() - i,
    {
        let p = find_char_from(v, i, '\n');
        proof {
            lemma_first_at_or_after(t, i as int, '\n');
        }
        let seg = copy_range(v, i, p);
        let line = trim_both(&seg, TrimClass::Space);
        let ghost lines_i = clean_lines_from(t, i as int);
        let ghost lines_rest = clean_lines_from(t, p + 1 as int);
        proof {
            if line@.len() > 0 {
                assert(lines_i =~= seq![line@] + lines_rest);
                assert(lines_i.drop_first() =~= lines_rest);
            } else {
                assert(lines_i == lines_rest);
            }
        }
        if line.len() > 0 {
            if wrote {
                out.push('\n');
            }
            let mut lc = line;
            out.append(&mut lc);
            wrote = true;
        }
        if p >= v.len() {
            i = v.len();
            proof {
                assert(clean_lines_from(t, i as int) =~= Seq::<Seq<char>>::empty());
                if line@.len() > 0 {
                    assert(join_nl(lines_i) == line@);
                }
            }
        } else {
            i = p + 1;
            proof {
                if line@.len() > 0 {
                    if clean_lines_from(t, i as int).len() > 0 {
                        assert(join_nl(lines_i) == line@ + seq!['\n'] + join_nl(
                            clean_lines_from(t, i as int),
                        ));
                    } else {
                        assert(join_nl(lines_i) == line@);
                    }
                }
            }
        }
    }
    proof {
        assert(clean_lines_from(t, i as int) =~= Seq::<Seq<char>>::empty());
        if !wrote {
            assert(out@ =~= join_nl(clean_lines_from(t, 0)));
        }
    }
    out
}

/// Why a statute body could not be turned into note text.
#[derive(Debug)]
pub enum LawTextError {
    /// The flattened tree contains no text at all.
    EmptyText,
}

/// Flattens a fetched document tree into clean, block-separated note text;
/// a tree with no text at all is an error, an empty note being worse than
/// failing loudly.
pub fn law_full_text_to_markdown(n: &LawNode) -> (r: Result<String, LawTextError>)
    ensures
        match r {
            Ok(s) => s@ == spec_markdown(*n) && s@.len() > 0,
            Err(_) => spec_markdown(*n).len() == 0,
        },
{
    let mut flat: Vec<char> = Vec::new();
    append_law_text(n, &mut flat);
    let collapsed = collapse_ws_exec(&flat);
    let cleaned = clean_and_join(&collapsed);
    if cleaned.len() == 0 {
        Err(LawTextError::EmptyText)
    } else {
        Ok(chars_to_string(&cleaned))
    }
}

/// The first position at or after `i` that does not hold a numeral.
pub open spec fn numeral_run_end(t: Seq<char>, i: int) -> int
    decreases t.len() - i,
{
    if 0 <= i < t.len() && is_numeral(t[i]) {
        numeral_run_end(t, i + 1)
    } else {
        i
    }
}

pub proof fn lemma_numeral_run_end(t: Seq<char>, i: int)
    requires
        0 <= i <= t.len(),
    ensures
        i <= numeral_run_end(t, i) <= t.len(),
    decreases t.len() - i,
{
    if i < t.len() && is_numeral(t[i]) {
        lemma_numeral_run_end(t, i + 1);
    }
}

/// Finds the end of the numeral run starting at `i`.
pub fn numeral_run_end_exec(v: &Vec<char>, i: usize) -> (r: usize)
    requires
        i <= v.len(),
    ensures
        r == numeral_run_end(v@, i as int),
        i <= r <= v.len(),
{
    let mut j = i;
    while j < v.len() && numeral_char(v[j])
        invariant
            i <= j <= v.len(),
            numeral_run_end(v@, i as int) == numeral_run_end(v@, j as int),
        decreases v.len() - j,
    {
        j += 1;
    }
    j
}

/// Where the article token at the head of a line ends: the end of
/// 第&lt;numerals&gt;条, extended over a &lt;numerals&gt; branch suffix when
/// one follows; -1 when the line does not open with an article token.
pub open spec fn article_prefix_end(line: Seq<char>) -> int {
    if line.len() > 0 && line[0] == '第' {
        let e = numeral_run_end(line, 1);
        if e > 1 && e < line.len() && line[e] == '条' {
            if e + 2 <= line.len() && line[e + 1] == 'の' {
                let f = numeral_run_end(line, e + 2);
                if f > e + 2 {
                    f
                } else {
                    e + 1
                }
            } else {
                e + 1
            }
        } else {
            -1
        }
    } else {
        -1
    }
}

/// Finds the end of a leading article token.
fn article_prefix_exec(line: &Vec<char>) -> (r: Option<usize>)
    ensures
        match r {
            Some(e) => article_prefix_end(line@) == e as int && 0 < e <= line.len(),
            None => article_prefix_end(line@) == -1,
        },
{
    if line.len() == 0 || line[0] != '第' {
        return None;
    }
    let e = numeral_run_end_exec(line, 1);
    if !(e > 1 && e < line.len() && line[e] == '条') {
        return None;
    }
    if e + 1 < line.len() && line[e + 1] == 'の' {
        let f = numeral_run_end_exec(line, e + 2);
        if f > e + 2 {
            return Some(f);
        }
    }
    Some(e + 1)
}

/// What one line becomes under the heading pass: heading lines verbatim; a
/// line opening with an article token gets a `##` heading bearing the
/// token, followed by the line itself unless it was nothing but the token;
/// every other line verbatim.  Each emitted line ends in a newline.
pub open spec fn spec_heading_line(line: Seq<char>) -> Seq<char> {
    if line.len() > 0 && line[0] == '#' {
        line + seq!['\n']
    } else {
        let e = article_prefix_end(line);
        if e >= 0 {
            let tok = line.subrange(0, e);
            let base = seq!['#', '#', ' '] + tok + seq!['\n'];
            if trim_both_class(line, TrimClass::Space) == tok {
                base
            } else {
                base + line + seq!['\n']
            }
        } else {
            line + seq!['\n']
        }
    }
}

/// The heading pass applied to every line from position `i` on.
pub open spec fn spec_headings_from(t: Seq<char>, i: int) -> Seq<char>
    decreases t.len() + 1 - i,
{
    if i < 0 || i >= t.len() {
        Seq::empty()
    } else {
        let p = first_at_or_after(t, i, '\n');
        if i <= p <= t.len() {
            spec_heading_line(t.subrange(i, p)) + spec_headings_from(t, p + 1)
        } else {
            Seq::empty()
        }
    }
}

/// Appends the heading-pass rendering of one line.
fn emit_heading_line(line: &Vec<char>, out: &mut Vec<char>)
    ensures
        final(out)@ == old(out)@ + spec_heading_line(line@),
{
    if line.len() > 0 && line[0] == '#' {
        let mut lc = copy_range(line, 0, line.len());
        proof {
            assert(line@.subrange(0, line@.len() as int) =~= line@);
        }
        out.append(&mut lc);
        out.push('\n');
        proof {
            assert(out@ =~= old(out)@ + spec_heading_line(line@));
        }
        return ;
    }
    match article_prefix_exec(line) {
        Some(e) => {
            let tok = copy_range(line, 0, e);
            out.push('#');
            out.push('#');
            out.push(' ');
            let mut tc = copy_range(line, 0, e);
            out.append(&mut tc);
            out.push('\n');
            let tb = trim_both(line, TrimClass::Space);
            if !vec_char_eq(&tb, &tok) {
                let mut lc = copy_range(line, 0, line.len());
                proof {
                    assert(line@.subrange(0, line@.len() as int) =~= line@);
                }
                out.append(&mut lc);
                out.push('\n');
            }
            proof {
                assert(out@ =~= old(out)@ + spec_heading_line(line@));
            }
        },
        None => {
            let mut lc = copy_range(line, 0, line.len());
            proof {
                assert(line@.subrange(0, line@.len() as int) =~= line@);
            }
            out.append(&mut lc);
            out.push('\n');
            proof {
                assert(out@ =~= old(out)@ + spec_heading_line(line@));
            }
        },
    }
}

/// Inserts a `##` heading in front of each line that opens with an article
/// token, so later passes can anchor paragraph references to it.
pub fn ensure_article_headings(markdown: &str) -> (r: String)
    ensures
        r@ == spec_headings_from(markdown@, 0),
{
    let v = str_to_chars(markdown);
    let ghost t = v@;
    let mut out: Vec<char> = Vec::new();
    let mut i: usize = 0;
    while i < v.len()
        invariant
            t == v@,
            i <= v.len(),
            spec_headings_from(t, 0) == out@ + spec_headings_from(t, i as int),
        decreases v.len() - i,
    {
        let ghost i0 = i as int;
        let p = find_char_from(&v, i, '\n');
        proof {
            lemma_first_at_or_after(t, i0, '\n');
        }
        let line = copy_range(&v, i, p);
        let ghost before = out@;
        emit_heading_line(&line, &mut out);
        if p >= v.len() {
            i = v.len();
        } else {
            i = p + 1;
        }
        proof {
            assert(spec_headings_from(t, i0) == spec_heading_line(line@) + spec_headings_from(
                t,
                p as int + 1,
            ));
            assert(spec_headings_from(t, p as int + 1) == spec_headings_from(t, i as int));
            assert(out@ + spec_headings_from(t, i as int) =~= before + (spec_heading_line(line@)
                + spec_headings_from(t, i as int)));
        }
    }
    proof {
        assert(spec_headings_from(t, i as int) =~= Seq::<char>::empty());
        assert(out@ =~= spec_headings_from(t, 0));
    }
    chars_to_string(&out)
}

/// The article anchor a heading line defines: leading `#` marks and
/// whitespace stripped, then the prefix through the first 条 when the rest
/// starts with 第; nothing otherwise.
pub open spec fn spec_heading_anchor(line: Seq<char>) -> Option<Seq<char>> {
    let s = trim_both_class(trim_start_class(line, TrimClass::Hash), TrimClass::Space);
    if s.len() > 0 && s[0] == '第' && first_at_or_after(s, 0, '条') < s.len() {
        Some(s.subrange(0, first_at_or_after(s, 0, '条') + 1))
    } else {
        None
    }
}

/// Extracts the article anchor a heading line defines, if any.
pub fn extract_heading_anchor(line: &str) -> (r: Option<String>)
    ensures
        r is Some <==> spec_heading_anchor(line@) is Some,
        r matches Some(x) ==> spec_heading_anchor(line@) matches Some(y) && x@ == y,
{
    let v = str_to_chars(line);
    let h = trim_start(&v, TrimClass::Hash);
    let s = trim_both(&h, TrimClass::Space);
    if s.len() == 0 || s[0] != '第' {
        return None;
    }
    let e = find_char_from(&s, 0, '条');
    proof {
        lemma_first_at_or_after(s@, 0, '条');
    }
    if e < s.len() {
        let a = copy_range(&s, 0, e + 1);
        Some(chars_to_string(&a))
    } else {
        None
    }
}

/// A fetched statute document: identifying information and the full-text
/// tree.
pub struct LawDataResponse {
    pub law_info: LawsLawInfo,
    pub revision_info: LawsRevisionInfo,
    pub law_full_text: LawNode,
}

/// Converts a fetched document into note-ready contents: the flattened,
/// cleaned text together with the statute's identity.
pub fn parse_law_contents(v: &LawDataResponse) -> (r: Result<LawContents, LawTextError>)
    ensures
        match r {
            Ok(c) => c.markdown@ == spec_markdown(v.law_full_text) && c.markdown@.len() > 0 && (
            c.law_id matches Some(id) && id@ == v.law_info.law_id@) && crate::dictionary::opt_view(
                c.law_num,
            ) == crate::dictionary::opt_view(v.law_info.law_num) && c.law_title@
                == v.revision_info.law_title@ && c.original_xml is None,
            Err(_) => spec_markdown(v.law_full_text).len() == 0,
        },
{
    let markdown = match law_full_text_to_markdown(&v.law_full_text) {
        Ok(m) => m,
        Err(e) => {
            return Err(e);
        },
    };
    Ok(
        LawContents {
            law_id: Some(v.law_info.law_id.clone()),
            law_num: crate::candidate::clone_opt_string(&v.law_info.law_num),
            law_title: v.revision_info.law_title.clone(),
            markdown,
            original_xml: None,
        },
    )
}

} // verus!
