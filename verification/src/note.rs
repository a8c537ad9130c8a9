//! Note rendering: the YAML front matter and the linked body that make up
//! one persisted statute note.

use vstd::prelude::*;
use crate::candidate::LawContents;
use crate::dictionary::opt_view;
use crate::sanitize::{
    sanitize_spec, sanitize_filename, yaml_escape_seq, escape_yaml, dir_spec,
};
use crate::lawtext::{spec_headings_from, ensure_article_headings};
use crate::linkify::{spec_linkify, linkify_markdown};
use crate::text::{TrimClass, trim_end_class, trim_end, str_to_chars, chars_to_string};

verus! {

/// The decimal digit for `d`.
pub open spec fn digit_char(d: int) -> char {
    if d == 0 {
        '0'
    } else if d == 1 {
        '1'
    } else if d == 2 {
        '2'
    } else if d == 3 {
        '3'
    } else if d == 4 {
        '4'
    } else if d == 5 {
        '5'
    } else if d == 6 {
        '6'
    } else if d == 7 {
        '7'
    } else if d == 8 {
        '8'
    } else {
        '9'
    }
}

/// The decimal rendering of a non-negative number.
pub open spec fn dec_digits(n: int) -> Seq<char>
    decreases n,
{
    if n < 10 {
        seq![digit_char(n)]
    } else {
        dec_digits(n / 10) + seq![digit_char(n % 10)]
    }
}

/// Renders one decimal digit.
fn digit_char_exec(d: usize) -> (r: char)
    requires
        d < 10,
    ensures
        r == digit_char(d as int),
{
    if d == 0 {
        '0'
    } else if d == 1 {
        '1'
    } else if d == 2 {
        '2'
    } else if d == 3 {
        '3'
    } else if d == 4 {
        '4'
    } else if d == 5 {
        '5'
    } else if d == 6 {
        '6'
    } else if d == 7 {
        '7'
    } else if d == 8 {
        '8'
    } else {
        '9'
    }
}

/// Renders a number in decimal.
fn usize_to_dec(n: usize) -> (r: Vec<char>)
    ensures
        r@ == dec_digits(n as int),
    decreases n,
{
    if n < 10 {
        let mut r: Vec<char> = Vec::new();
        r.push(digit_char_exec(n));
        proof {
            assert(r@ =~= dec_digits(n as int));
        }
        r
    } else {
        proof {
            assert(n / 10 < n) by (nonlinear_arith)
                requires
                    n >= 10,
            ;
        }
        let mut r = usize_to_dec(n / 10);
        r.push(digit_char_exec(n % 10));
        proof {
            assert(r@ =~= dec_digits(n as int));
        }
        r
    }
}

/// The note's front matter: title, identifier, number and run metadata,
/// each string YAML-escaped inside double quotes.
pub open spec fn spec_frontmatter(
    title: Seq<char>,
    id: Option<Seq<char>>,
    num: Option<Seq<char>>,
    fetched_at: Seq<char>,
    depth: int,
    has_xml: bool,
) -> Seq<char> {
    "---\nlaw_title: \""@ + yaml_escape_seq(title) + "\"\nlaw_id: \""@ + yaml_escape_seq(
        opt_or_empty(id),
    ) + "\"\nlaw_num: \""@ + yaml_escape_seq(opt_or_empty(num)) + "\"\nsource_api: \"v2\"\nfetched_at: \""@
        + fetched_at + "\"\ndepth: "@ + dec_digits(depth) + "\nhas_original_xml: "@ + (if has_xml {
        "true"@
    } else {
        "false"@
    }) + "\n---\n\n"@
}

pub open spec fn opt_or_empty(o: Option<Seq<char>>) -> Seq<char> {
    match o {
        Some(s) => s,
        None => Seq::empty(),
    }
}

/// The complete note body: front matter, then the heading-annotated,
/// link-rewritten text with its trailing newlines reduced to exactly one.
pub open spec fn spec_note_body(law: LawContents, depth: int, fetched_at: Seq<char>, dir: Seq<
    char,
>) -> Seq<char> {
    let base = spec_headings_from(law.markdown@, 0);
    let ro = spec_linkify(base, dir_spec(dir), law.law_title@);
    spec_frontmatter(
        law.law_title@,
        opt_view(law.law_id),
        opt_view(law.law_num),
        fetched_at,
        depth,
        law.original_xml is Some,
    ) + trim_end_class(ro.text, TrimClass::Newline) + seq!['\n']
}

/// The unresolved tokens the note's rewrite reports.
pub open spec fn spec_note_unresolved(law: LawContents, dir: Seq<char>) -> Seq<Seq<char>> {
    spec_linkify(spec_headings_from(law.markdown@, 0), dir_spec(dir), law.law_title@).unresolved
}

/// Renders one statute note: the file name its note is stored under, the
/// full note body, and the anaphoric tokens left unresolved in it.
pub fn render_note(law: &LawContents, depth: usize, fetched_at: &str, output_dir: &str) -> (r: (
    String,
    String,
    Vec<String>,
))
    ensures
        r.0@ == sanitize_spec(law.law_title@),
        r.1@ == spec_note_body(*law, depth as int, fetched_at@, output_dir@),
        r.2.deep_view() == spec_note_unresolved(*law, output_dir@),
{
    let file_name = sanitize_filename(law.law_title.as_str());
    let base = ensure_article_headings(law.markdown.as_str());
    let (linked, unresolved) = linkify_markdown(
        base.as_str(),
        law.law_title.as_str(),
        output_dir,
    );
    let mut body = str_to_chars("---\nlaw_title: \"");
    let esc_title = escape_yaml(law.law_title.as_str());
    let mut piece = str_to_chars(esc_title.as_str());
    body.append(&mut piece);
    let mut piece = str_to_chars("\"\nlaw_id: \"");
    body.append(&mut piece);
    let esc_id = match &law.law_id {
        Some(id) => escape_yaml(id.as_str()),
        None => escape_yaml(""),
    };
    let mut piece = str_to_chars(esc_id.as_str());
    body.append(&mut piece);
    let mut piece = str_to_chars("\"\nlaw_num: \"");
    body.append(&mut piece);
    let esc_num = match &law.law_num {
        Some(num) => escape_yaml(num.as_str()),
        None => escape_yaml(""),
    };
    let mut piece = str_to_chars(esc_num.as_str());
    body.append(&mut piece);
    let mut piece = str_to_chars("\"\nsource_api: \"v2\"\nfetched_at: \"");
    body.append(&mut piece);
    let mut piece = str_to_chars(fetched_at);
    body.append(&mut piece);
    let mut piece = str_to_chars("\"\ndepth: ");
    body.append(&mut piece);
    let mut piece = usize_to_dec(depth);
    body.append(&mut piece);
    let mut piece = str_to_chars("\nhas_original_xml: ");
    body.append(&mut piece);
    let has_xml = match &law.original_xml {
        Some(_) => true,
        None => false,
    };
    let mut piece = if has_xml {
        str_to_chars("true")
    } else {
        str_to_chars("false")
    };
    body.append(&mut piece);
    let mut piece = str_to_chars("\n---\n\n");
    body.append(&mut piece);
    proof {
        reveal_strlit("");
        assert(""@ =~= Seq::<char>::empty());
        assert(body@ =~= spec_frontmatter(
            law.law_title@,
            opt_view(law.law_id),
            opt_view(law.law_num),
            fetched_at@,
            depth as int,
            law.original_xml is Some,
        ));
    }
    let linked_c = str_to_chars(linked.as_str());
    let mut trimmed = trim_end(&linked_c, TrimClass::Newline);
    body.append(&mut trimmed);
    body.push('\n');
    proof {
        assert(body@ =~= spec_note_body(*law, depth as int, fetched_at@, output_dir@));
    }
    (file_name, chars_to_string(&body), unresolved)
}

} // verus!
