//! Filesystem-safe note names, YAML escaping and link-target paths.

use vstd::prelude::*;
use crate::text::{
    TrimClass, trim_both_class, trim_start_class, trim_end_class, trim_both, trim_start,
    trim_end, str_to_chars, chars_to_string,
};

verus! {

/// Characters that may not appear in a note file name.
pub open spec fn is_path_hostile(c: char) -> bool {
    c == '/' || c == '\\' || c == ':' || c == '*' || c == '?' || c == '"' || c == '<' || c == '>'
        || c == '|'
}

pub fn path_hostile(c: char) -> (r: bool)
    ensures
        r == is_path_hostile(c),
{
    c == '/' || c == '\\' || c == ':' || c == '*' || c == '?' || c == '"' || c == '<' || c == '>'
        || c == '|'
}

/// Every path-hostile character replaced by an underscore.
pub open spec fn replace_hostile(t: Seq<char>) -> Seq<char> {
    t.map_values(|c: char| if is_path_hostile(c) { '_' } else { c })
}

/// A statute title reduced to a safe note file name: hostile characters
/// replaced, leading whitespace trimmed, and the whole trailing run of
/// periods and whitespace removed, so the name ends in neither.
pub open spec fn sanitize_spec(t: Seq<char>) -> Seq<char> {
    trim_end_class(trim_start_class(replace_hostile(t), TrimClass::Space), TrimClass::SpaceDot)
}

/// Maps a statute title to the file name its note is stored under.
pub fn sanitize_filename(s: &str) -> (r: String)
    ensures
        r@ == sanitize_spec(s@),
{
    let v = str_to_chars(s);
    let mut mapped: Vec<char> = Vec::new();
    let mut i: usize = 0;
    while i < v.len()
        invariant
            i <= v.len(),
            mapped@ == replace_hostile(v@.subrange(0, i as int)),
        decreases v.len() - i,
    {
        let c = v[i];
        if path_hostile(c) {
            mapped.push('_');
        } else {
            mapped.push(c);
        }
        i += 1;
        proof {
            assert(mapped@ =~= replace_hostile(v@.subrange(0, i as int)));
        }
    }
    proof {
        assert(v@.subrange(0, v@.len() as int) =~= v@);
    }
    let trimmed = trim_start(&mapped, TrimClass::Space);
    let r = trim_end(&trimmed, TrimClass::SpaceDot);
    chars_to_string(&r)
}

/// The expansion of one character under YAML double-quote escaping.
pub open spec fn yaml_escape_char(c: char) -> Seq<char> {
    if c == '\\' {
        seq!['\\', '\\']
    } else if c == '"' {
        seq!['\\', '"']
    } else {
        seq![c]
    }
}

/// The whole string escaped character by character.
pub open spec fn yaml_escape_seq(t: Seq<char>) -> Seq<char>
    decreases t.len(),
{
    if t.len() == 0 {
        Seq::empty()
    } else {
        yaml_escape_seq(t.drop_last()) + yaml_escape_char(t.last())
    }
}

/// Escapes a string for embedding inside a double-quoted YAML scalar.
pub fn escape_yaml(s: &str) -> (r: String)
    ensures
        r@ == yaml_escape_seq(s@),
{
    let v = str_to_chars(s);
    let mut out: Vec<char> = Vec::new();
    let mut i: usize = 0;
    while i < v.len()
        invariant
            i <= v.len(),
            out@ == yaml_escape_seq(v@.subrange(0, i as int)),
        decreases v.len() - i,
    {
        let c = v[i];
        if c == '\\' {
            out.push('\\');
            out.push('\\');
        } else if c == '"' {
            out.push('\\');
            out.push('"');
        } else {
            out.push(c);
        }
        i += 1;
        proof {
            assert(v@.subrange(0, i as int).drop_last() =~= v@.subrange(0, i - 1));
            assert(out@ =~= yaml_escape_seq(v@.subrange(0, i as int)));
        }
    }
    proof {
        assert(v@.subrange(0, v@.len() as int) =~= v@);
    }
    chars_to_string(&out)
}

/// Backslashes turned into forward slashes.
pub open spec fn forward_slashes(t: Seq<char>) -> Seq<char> {
    t.map_values(|c: char| if c == '\\' { '/' } else { c })
}

/// A lone `.` means the current directory and becomes empty.
pub open spec fn drop_lone_dot(t: Seq<char>) -> Seq<char> {
    if t =~= seq!['.'] {
        Seq::empty()
    } else {
        t
    }
}

/// Leading `./` segments stripped repeatedly.
pub open spec fn strip_dot_slash(t: Seq<char>) -> Seq<char>
    decreases t.len(),
{
    if t.len() >= 2 && t[0] == '.' && t[1] == '/' {
        strip_dot_slash(t.subrange(2, t.len() as int))
    } else {
        t
    }
}

/// The configured output directory normalized for use inside a note link.
pub open spec fn dir_spec(t: Seq<char>) -> Seq<char> {
    trim_both_class(strip_dot_slash(drop_lone_dot(forward_slashes(t))), TrimClass::Slash)
}

/// Normalizes the output directory to the relative form used in links.
pub fn obsidian_dir(output_dir: &str) -> (r: String)
    ensures
        r@ == dir_spec(output_dir@),
{
    let v = str_to_chars(output_dir);
    let mut mapped: Vec<char> = Vec::new();
    let mut i: usize = 0;
    while i < v.len()
        invariant
            i <= v.len(),
            mapped@ == forward_slashes(v@.subrange(0, i as int)),
        decreases v.len() - i,
    {
        let c = v[i];
        if c == '\\' {
            mapped.push('/');
        } else {
            mapped.push(c);
        }
        i += 1;
        proof {
            assert(mapped@ =~= forward_slashes(v@.subrange(0, i as int)));
        }
    }
    proof {
        assert(v@.subrange(0, v@.len() as int) =~= v@);
    }
    if mapped.len() == 1 && mapped[0] == '.' {
        proof {
            assert(mapped@ =~= seq!['.']);
            assert(strip_dot_slash(Seq::<char>::empty()) =~= Seq::<char>::empty());
            assert(trim_both_class(Seq::<char>::empty(), TrimClass::Slash)
                =~= Seq::<char>::empty());
        }
        return chars_to_string(&Vec::new());
    }
    assert(drop_lone_dot(mapped@) == mapped@);
    let mut j: usize = 0;
    proof {
        assert(mapped@.subrange(0, mapped@.len() as int) =~= mapped@);
    }
    while j < mapped.len() && j + 1 < mapped.len() && mapped[j] == '.' && mapped[j + 1] == '/'
        invariant
            j <= mapped.len(),
            strip_dot_slash(mapped@) == strip_dot_slash(
                mapped@.subrange(j as int, mapped@.len() as int),
            ),
        decreases mapped.len() - j,
    {
        proof {
            let t = mapped@.subrange(j as int, mapped@.len() as int);
            assert(t.subrange(2, t.len() as int) =~= mapped@.subrange(
                j + 2,
                mapped@.len() as int,
            ));
        }
        j += 2;
    }
    proof {
        let t = mapped@.subrange(j as int, mapped@.len() as int);
        assert(!(t.len() >= 2 && t[0] == '.' && t[1] == '/'));
        assert(strip_dot_slash(t) == t);
    }
    let stripped = crate::text::copy_range(&mapped, j, mapped.len());
    let r = trim_both(&stripped, TrimClass::Slash);
    chars_to_string(&r)
}

/// The link target for a statute title: the sanitized file name, prefixed
/// with the normalized directory when one is configured.
pub open spec fn note_target_spec(dir: Seq<char>, title: Seq<char>) -> Seq<char> {
    if dir.len() == 0 {
        sanitize_spec(title)
    } else {
        dir + seq!['/'] + sanitize_spec(title)
    }
}

/// Builds the `dir/filename` target a note link points at.  `dir` must
/// already be in the normalized form that `obsidian_dir` produces.
pub fn obsidian_note_target(dir: &str, law_title: &str) -> (r: String)
    ensures
        r@ == note_target_spec(dir@, law_title@),
{
    let file = sanitize_filename(law_title);
    if dir.unicode_len() == 0 {
        proof {
            assert(dir@.len() == 0);
        }
        return file;
    }
    let mut out = str_to_chars(dir);
    out.push('/');
    let mut tail = str_to_chars(file.as_str());
    out.append(&mut tail);
    proof {
        assert(out@ =~= dir@ + seq!['/'] + sanitize_spec(law_title@));
    }
    chars_to_string(&out)
}

} // verus!
