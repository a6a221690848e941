//! The rule body formatter: re-indents multi-level enumerations into the
//! canonical tab-depth encoding, joins soft-wrapped lines, and applies the
//! named-article textual fixes.

use vstd::prelude::*;

verus! {

use crate::text::{
    digit_run_end, digit_run_end_vec, is_digit, is_digit_char, is_lower, is_lower_char, is_match,
    match_at, replace_lit, replace_lit_vec, str_to_chars, trim_spec, trim_vec,
};

/// The lettered-item pass: after each newline, a marker of the form
/// "x) " with a lower-case letter is indented one tab, or three for the
/// two deeply nested named articles.
pub open spec fn tag_alpha_from(s: Seq<char>, i: int, deep: bool) -> Seq<char>
    decreases s.len() - i,
{
    if i < 0 || i >= s.len() {
        Seq::empty()
    } else if i + 4 <= s.len() && s[i] == '\n' && is_lower_char(s[i + 1]) && s[i + 2] == ')' && s[i
        + 3] == ' ' {
        seq!['\n'] + (if deep {
            seq!['\t', '\t', '\t']
        } else {
            seq!['\t']
        }) + s.subrange(i + 1, i + 4) + tag_alpha_from(s, i + 4, deep)
    } else {
        seq![s[i]] + tag_alpha_from(s, i + 1, deep)
    }
}

/// The numbered-item pass: after each newline, a marker of the form
/// "12. " is indented two tabs.
pub open spec fn tag_num_from(s: Seq<char>, i: int) -> Seq<char>
    decreases s.len() - i,
{
    if i < 0 || i >= s.len() {
        Seq::empty()
    } else if s[i] == '\n' && digit_run_end(s, i + 1) > i + 1 && digit_run_end(s, i + 1) + 2
        <= s.len() && s[digit_run_end(s, i + 1)] == '.' && s[digit_run_end(s, i + 1) + 1] == ' ' {
        let d = digit_run_end(s, i + 1);
        seq!['\n', '\t', '\t'] + s.subrange(i + 1, d + 2) + tag_num_from(s, d + 2)
    } else {
        seq![s[i]] + tag_num_from(s, i + 1)
    }
}

/// The inner-lettered pass: after each newline, a marker of the form
/// "x. " with a lower-case letter is indented three tabs.
pub open spec fn tag_inner_alpha_from(s: Seq<char>, i: int) -> Seq<char>
    decreases s.len() - i,
{
    if i < 0 || i >= s.len() {
        Seq::empty()
    } else if i + 4 <= s.len() && s[i] == '\n' && is_lower_char(s[i + 1]) && s[i + 2] == '.' && s[i
        + 3] == ' ' {
        seq!['\n', '\t', '\t', '\t'] + s.subrange(i + 1, i + 4) + tag_inner_alpha_from(s, i + 4)
    } else {
        seq![s[i]] + tag_inner_alpha_from(s, i + 1)
    }
}

/// The exceptions-heading pass: a line reading "Ausnahmen:" is indented
/// one tab.
pub open spec fn tag_exceptions_from(s: Seq<char>, i: int) -> Seq<char>
    decreases s.len() - i,
{
    if i < 0 || i >= s.len() {
        Seq::empty()
    } else if i + 12 <= s.len() && is_match(s, "\nAusnahmen:\n"@, i) {
        seq!['\n', '\t'] + s.subrange(i + 1, i + 12) + tag_exceptions_from(s, i + 12)
    } else {
        seq![s[i]] + tag_exceptions_from(s, i + 1)
    }
}

/// The soft-wrap collapse: a newline not followed by a tab becomes a
/// space; the line that followed it is joined to the previous one.
pub open spec fn softwrap_from(s: Seq<char>, i: int) -> Seq<char>
    decreases s.len() - i,
{
    if i < 0 || i >= s.len() {
        Seq::empty()
    } else if i + 2 <= s.len() && s[i] == '\n' && s[i + 1] != '\t' {
        seq![' ', s[i + 1]] + softwrap_from(s, i + 2)
    } else {
        seq![s[i]] + softwrap_from(s, i + 1)
    }
}

/// Start of the maximal digit run ending the text.
pub open spec fn trailing_digit_start(s: Seq<char>) -> int
    decreases s.len(),
{
    if s.len() > 0 && is_digit_char(s[s.len() - 1]) {
        trailing_digit_start(s.drop_last())
    } else {
        s.len() as int
    }
}

/// Page-number leakage removed: a space-prefixed integer at the very end
/// of the text is stripped, space included.
pub open spec fn strip_trailing_num(s: Seq<char>) -> Seq<char> {
    let t = trailing_digit_start(s);
    if t < s.len() && t >= 1 && s[t - 1] == ' ' {
        s.take(t - 1)
    } else {
        s
    }
}

/// Whether this rule is one of the two named articles whose lettered items
/// sit at the deepest level.
pub open spec fn deep_override(nr_chapter: u8, title: Seq<char>) -> bool {
    (title == "Clipping"@ && nr_chapter == 9) || title == "Blocken in den R\u{fc}cken"@
}

/// The whole body formatter, applied to an article span with its header
/// line already dropped (the text starts at the header's newline): the
/// four tagging passes, the soft-wrap collapse, trimming, page-number
/// stripping, the note re-splitting fixes, and the leading-marker tab.
pub open spec fn format_body_spec(s: Seq<char>, deep: bool) -> Seq<char> {
    let t1 = tag_alpha_from(s, 0, deep);
    let t2 = tag_num_from(t1, 0);
    let t3 = tag_inner_alpha_from(t2, 0);
    let t4 = tag_exceptions_from(t3, 0);
    let t5 = softwrap_from(t4, 0);
    let t6 = trim_spec(t5);
    let t7 = strip_trailing_num(t6);
    let t8 = replace_lit(t7, "Anmerkung 1 Targeting"@, "\nAnmerkung 1\nTargeting"@);
    let t9 = replace_lit(
        t8,
        "Anmerkung 2 Verteidigungslose"@,
        "\nAnmerkung 2\nVerteidigungslose"@,
    );
    if t9.len() >= 2 && t9[0] == 'a' && t9[1] == ')' {
        seq!['\t'] + t9
    } else {
        t9
    }
}

/// Executable form of [`tag_alpha_from`], over the whole text.
fn tag_alpha_vec(v: &Vec<char>, deep: bool) -> (out: Vec<char>)
    ensures
        out@ == tag_alpha_from(v@, 0, deep),
{
    let ghost s = v@;
    let mut out: Vec<char> = Vec::new();
    let mut i: usize = 0;
    while i < v.len()
        invariant
            0 <= i <= v@.len(),
            s == v@,
            tag_alpha_from(s, 0, deep) == out@ + tag_alpha_from(s, i as int, deep),
        decreases v@.len() - i,
    {
        let ghost out0 = out@;
        if v.len() - i >= 4 && v[i] == '\n' && is_lower(v[i + 1]) && v[i + 2] == ')' && v[i + 3]
            == ' ' {
            out.push('\n');
            if deep {
                out.push('\t');
                out.push('\t');
                out.push('\t');
            } else {
                out.push('\t');
            }
            out.push(v[i + 1]);
            out.push(v[i + 2]);
            out.push(v[i + 3]);
            proof {
                assert(out@ + tag_alpha_from(s, i + 4, deep) =~= out0 + tag_alpha_from(
                    s,
                    i as int,
                    deep,
                ));
            }
            i += 4;
        } else {
            out.push(v[i]);
            proof {
                assert(out@ + tag_alpha_from(s, i + 1, deep) =~= out0 + tag_alpha_from(
                    s,
                    i as int,
                    deep,
                ));
            }
            i += 1;
        }
    }
    out
}

/// Executable form of [`tag_num_from`], over the whole text.
fn tag_num_vec(v: &Vec<char>) -> (out: Vec<char>)
    ensures
        out@ == tag_num_from(v@, 0),
{
    let ghost s = v@;
    let mut out: Vec<char> = Vec::new();
    let mut i: usize = 0;
    while i < v.len()
        invariant
            0 <= i <= v@.len(),
            s == v@,
            tag_num_from(s, 0) == out@ + tag_num_from(s, i as int),
        decreases v@.len() - i,
    {
        let ghost out0 = out@;
        let mut tagged = false;
        if v[i] == '\n' {
            let d = digit_run_end_vec(v, i + 1);
            if d > i + 1 && v.len() - d >= 2 && v[d] == '.' && v[d + 1] == ' ' {
                tagged = true;
                out.push('\n');
                out.push('\t');
                out.push('\t');
                crate::text::extend_subvec(&mut out, v, i + 1, d + 2);
                proof {
                    assert(out@ + tag_num_from(s, d + 2) =~= out0 + tag_num_from(s, i as int));
                }
                i = d + 2;
            }
        }
        if !tagged {
            out.push(v[i]);
            proof {
                assert(out@ + tag_num_from(s, i + 1) =~= out0 + tag_num_from(s, i as int));
            }
            i += 1;
        }
    }
    out
}

/// Executable form of [`tag_inner_alpha_from`], over the whole text.
fn tag_inner_alpha_vec(v: &Vec<char>) -> (out: Vec<char>)
    ensures
        out@ == tag_inner_alpha_from(v@, 0),
{
    let ghost s = v@;
    let mut out: Vec<char> = Vec::new();
    let mut i: usize = 0;
    while i < v.len()
        invariant
            0 <= i <= v@.len(),
            s == v@,
            tag_inner_alpha_from(s, 0) == out@ + tag_inner_alpha_from(s, i as int),
        decreases v@.len() - i,
    {
        let ghost out0 = out@;
        if v.len() - i >= 4 && v[i] == '\n' && is_lower(v[i + 1]) && v[i + 2] == '.' && v[i + 3]
            == ' ' {
            out.push('\n');
            out.push('\t');
            out.push('\t');
            out.push('\t');
            out.push(v[i + 1]);
            out.push(v[i + 2]);
            out.push(v[i + 3]);
            proof {
                assert(out@ + tag_inner_alpha_from(s, i + 4) =~= out0 + tag_inner_alpha_from(
                    s,
                    i as int,
                ));
            }
            i += 4;
        } else {
            out.push(v[i]);
            proof {
                assert(out@ + tag_inner_alpha_from(s, i + 1) =~= out0 + tag_inner_alpha_from(
                    s,
                    i as int,
                ));
            }
            i += 1;
        }
    }
    out
}

/// Executable form of [`tag_exceptions_from`], over the whole text.
fn tag_exceptions_vec(v: &Vec<char>) -> (out: Vec<char>)
    ensures
        out@ == tag_exceptions_from(v@, 0),
{
    let ghost s = v@;
    let pat = str_to_chars("\nAusnahmen:\n");
    proof {
        reveal_strlit("\nAusnahmen:\n");
    }
    let mut out: Vec<char> = Vec::new();
    let mut i: usize = 0;
    while i < v.len()
        invariant
            0 <= i <= v@.len(),
            s == v@,
            pat@ == "\nAusnahmen:\n"@,
            pat@.len() == 12,
            tag_exceptions_from(s, 0) == out@ + tag_exceptions_from(s, i as int),
        decreases v@.len() - i,
    {
        let ghost out0 = out@;
        if match_at(v, &pat, i) {
            out.push('\n');
            out.push('\t');
            crate::text::extend_subvec(&mut out, v, i + 1, i + 12);
            proof {
                assert(out@ + tag_exceptions_from(s, i + 12) =~= out0 + tag_exceptions_from(
                    s,
                    i as int,
                ));
            }
            i += 12;
        } else {
            out.push(v[i]);
            proof {
                assert(out@ + tag_exceptions_from(s, i + 1) =~= out0 + tag_exceptions_from(
                    s,
                    i as int,
                ));
            }
            i += 1;
        }
    }
    out
}

/// Executable form of [`softwrap_from`], over the whole text.
fn softwrap_vec(v: &Vec<char>) -> (out: Vec<char>)
    ensures
        out@ == softwrap_from(v@, 0),
{
    let ghost s = v@;
    let mut out: Vec<char> = Vec::new();
    let mut i: usize = 0;
    while i < v.len()
        invariant
            0 <= i <= v@.len(),
            s == v@,
            softwrap_from(s, 0) == out@ + softwrap_from(s, i as int),
        decreases v@.len() - i,
    {
        let ghost out0 = out@;
        if v.len() - i >= 2 && v[i] == '\n' && v[i + 1] != '\t' {
            out.push(' ');
            out.push(v[i + 1]);
            proof {
                assert(out@ + softwrap_from(s, i + 2) =~= out0 + softwrap_from(s, i as int));
            }
            i += 2;
        } else {
            out.push(v[i]);
            proof {
                assert(out@ + softwrap_from(s, i + 1) =~= out0 + softwrap_from(s, i as int));
            }
            i += 1;
        }
    }
    out
}

/// Executable form of [`strip_trailing_num`].
fn strip_trailing_num_vec(v: &Vec<char>) -> (out: Vec<char>)
    ensures
        out@ == strip_trailing_num(v@),
{
    let mut t: usize = v.len();
    proof {
        assert(v@.take(v@.len() as int) =~= v@);
    }
    while t > 0 && is_digit(v[t - 1])
        invariant
            t <= v@.len(),
            trailing_digit_start(v@) == trailing_digit_start(v@.take(t as int)),
            forall|k: int| t <= k < v@.len() ==> is_digit_char(v@[k]),
        decreases t,
    {
        proof {
            assert(v@.take(t as int).drop_last() =~= v@.take(t - 1));
        }
        t -= 1;
    }
    proof {
        assert(v@.take(t as int).len() == t);
        if t > 0 {
            assert(v@.take(t as int)[t - 1] == v@[t - 1]);
        }
        assert(trailing_digit_start(v@.take(t as int)) == t);
    }
    if t < v.len() && t >= 1 && v[t - 1] == ' ' {
        crate::text::subvec(v, 0, t - 1)
    } else {
        let r = crate::text::subvec(v, 0, v.len());
        proof {
            assert(r@ =~= v@);
        }
        r
    }
}

/// Apply the whole body formatter to an article span whose header line has
/// been dropped.
pub fn format_body(v: &Vec<char>, deep: bool) -> (out: Vec<char>)
    ensures
        out@ == format_body_spec(v@, deep),
{
    proof {
        reveal_strlit("Anmerkung 1 Targeting");
        reveal_strlit("Anmerkung 2 Verteidigungslose");
    }
    let t1 = tag_alpha_vec(v, deep);
    let t2 = tag_num_vec(&t1);
    let t3 = tag_inner_alpha_vec(&t2);
    let t4 = tag_exceptions_vec(&t3);
    let t5 = softwrap_vec(&t4);
    let t6 = trim_vec(&t5);
    let t7 = strip_trailing_num_vec(&t6);
    let p1 = str_to_chars("Anmerkung 1 Targeting");
    let r1 = str_to_chars("\nAnmerkung 1\nTargeting");
    let t8 = replace_lit_vec(&t7, &p1, &r1);
    let p2 = str_to_chars("Anmerkung 2 Verteidigungslose");
    let r2 = str_to_chars("\nAnmerkung 2\nVerteidigungslose");
    let mut t9 = replace_lit_vec(&t8, &p2, &r2);
    if t9.len() >= 2 && t9[0] == 'a' && t9[1] == ')' {
        let mut out: Vec<char> = Vec::new();
        out.push('\t');
        crate::text::extend_subvec(&mut out, &t9, 0, t9.len());
        proof {
            assert(t9@.subrange(0, t9@.len() as int) =~= t9@);
            assert(out@ =~= format_body_spec(v@, deep));
        }
        out
    } else {
        t9
    }
}

} // verus!
