//! The text normalizer: document-specific literal repairs followed by three
//! rewrite passes that remove page-break artifacts, collapse section
//! preambles into a bare article marker, and delete chapter cover pages.

use vstd::prelude::*;

verus! {

use crate::text::{
    collapse_from, collapse_vec, find_from, find_sub, replace_lit, replace_lit_vec, str_to_chars,
    chars_to_string,
};

/// The page-break rewrite: a line break followed by a form feed vanishes,
/// together with a soft hyphen standing right before it.
pub open spec fn strip_page_breaks_from(s: Seq<char>, i: int) -> Seq<char>
    decreases s.len() - i,
{
    if i < 0 || i >= s.len() {
        Seq::empty()
    } else if i + 3 <= s.len() && s[i] == '-' && s[i + 1] == '\n' && s[i + 2] == '\x0C' {
        strip_page_breaks_from(s, i + 3)
    } else if i + 2 <= s.len() && s[i] == '\n' && s[i + 1] == '\x0C' {
        strip_page_breaks_from(s, i + 2)
    } else {
        seq![s[i]] + strip_page_breaks_from(s, i + 1)
    }
}

/// Executable form of [`strip_page_breaks_from`], over the whole text.
pub fn strip_page_breaks_vec(v: &Vec<char>) -> (out: Vec<char>)
    ensures
        out@ == strip_page_breaks_from(v@, 0),
{
    let ghost s = v@;
    let mut out: Vec<char> = Vec::new();
    let mut i: usize = 0;
    while i < v.len()
        invariant
            0 <= i <= v@.len(),
            s == v@,
            strip_page_breaks_from(s, 0) == out@ + strip_page_breaks_from(s, i as int),
        decreases v@.len() - i,
    {
        let ghost out0 = out@;
        if v.len() - i >= 3 && v[i] == '-' && v[i + 1] == '\n' && v[i + 2] == '\x0C' {
            i += 3;
        } else if v.len() - i >= 2 && v[i] == '\n' && v[i + 1] == '\x0C' {
            i += 2;
        } else {
            out.push(v[i]);
            proof {
                assert(out@ + strip_page_breaks_from(s, i + 1) =~= out0 + strip_page_breaks_from(
                    s,
                    i as int,
                ));
            }
            i += 1;
        }
    }
    out
}

/// A chapter cover page at `i`: a line break, a form feed, two lines, and a
/// blank line. Yields the position just after the blank line.
pub open spec fn chapter_break_at(s: Seq<char>, i: int) -> Option<int> {
    if i + 2 <= s.len() && s[i] == '\n' && s[i + 1] == '\x0C' {
        match find_from(s, seq!['\n'], i + 2) {
            Option::None => Option::None,
            Option::Some(a) => match find_from(s, seq!['\n'], a + 1) {
                Option::None => Option::None,
                Option::Some(b) => if b + 1 < s.len() && s[b + 1] == '\n' {
                    Option::Some(b + 2)
                } else {
                    Option::None
                },
            },
        }
    } else {
        Option::None
    }
}

/// The chapter-cover rewrite: every form-feed-introduced block of two lines
/// followed by a blank line is deleted.
pub open spec fn strip_chapter_breaks_from(s: Seq<char>, i: int) -> Seq<char>
    decreases s.len() - i,
{
    if i < 0 || i >= s.len() {
        Seq::empty()
    } else {
        match chapter_break_at(s, i) {
            Option::Some(e) => if i < e <= s.len() {
                strip_chapter_breaks_from(s, e)
            } else {
                seq![s[i]] + strip_chapter_breaks_from(s, i + 1)
            },
            Option::None => seq![s[i]] + strip_chapter_breaks_from(s, i + 1),
        }
    }
}

/// Executable form of [`strip_chapter_breaks_from`], over the whole text.
pub fn strip_chapter_breaks_vec(v: &Vec<char>) -> (out: Vec<char>)
    ensures
        out@ == strip_chapter_breaks_from(v@, 0),
{
    let ghost s = v@;
    let nl = str_to_chars("\n");
    proof {
        reveal_strlit("\n");
        assert(nl@ =~= seq!['\n']);
    }
    let mut out: Vec<char> = Vec::new();
    let mut i: usize = 0;
    while i < v.len()
        invariant
            0 <= i <= v@.len(),
            s == v@,
            nl@ == seq!['\n'],
            strip_chapter_breaks_from(s, 0) == out@ + strip_chapter_breaks_from(s, i as int),
        decreases v@.len() - i,
    {
        let ghost out0 = out@;
        let mut jump: Option<usize> = None;
        if v.len() - i >= 2 && v[i] == '\n' && v[i + 1] == '\x0C' {
            if let Some(a) = find_sub(v, &nl, i + 2) {
                if let Some(b) = find_sub(v, &nl, a + 1) {
                    if b + 1 < v.len() && v[b + 1] == '\n' {
                        jump = Some(b + 2);
                    }
                }
            }
        }
        match jump {
            Some(e) => {
                proof {
                    assert(chapter_break_at(s, i as int) == Some(e as int));
                }
                i = e;
            },
            None => {
                proof {
                    assert(chapter_break_at(s, i as int) is None);
                }
                out.push(v[i]);
                proof {
                    assert(out@ + strip_chapter_breaks_from(s, i + 1) =~= out0
                        + strip_chapter_breaks_from(s, i as int));
                }
                i += 1;
            },
        }
    }
    out
}

/// The whole normalizer: four literal repairs, then the page-break rewrite,
/// the section-preamble collapse, and the chapter-cover rewrite, in that
/// order.
pub open spec fn normalize_spec(s: Seq<char>) -> Seq<char> {
    let s1 = replace_lit(
        s,
        "Abschnitt 9.1 Pers\u{f6}nliche Fouls\nAlle"@,
        "Artikel 9.1.0 Pers\u{f6}nliche Fouls\nAlle"@,
    );
    let s2 = replace_lit(s1, "Regel 9\nVerhalten von Spielern und anderen"@, Seq::empty());
    let s3 = replace_lit(
        s2,
        "9.1.4 Targeting und Forcible Contact zum Kopf-/Halsbereich\nverteidigungsloser Spieler"@,
        "9.1.4 Targeting und Forcible Contact zum Kopf-/Halsbereich verteidigungsloser Spieler"@,
    );
    let s4 = replace_lit(
        s3,
        "6.1.3 Ber\u{fc}hren, illegales Ber\u{fc}hren und Recovern eines Free\nKicks"@,
        "6.1.3 Ber\u{fc}hren, illegales Ber\u{fc}hren und Recovern eines Free Kicks"@,
    );
    rewrite_passes(s4)
}

/// The three rewrite passes that follow the literal repairs: page breaks,
/// section preambles, chapter covers.
pub open spec fn rewrite_passes(s: Seq<char>) -> Seq<char> {
    let s5 = strip_page_breaks_from(s, 0);
    let s6 = collapse_from(s5, "Abschnitt "@, "Artikel"@, 0);
    strip_chapter_breaks_from(s6, 0)
}

/// The section-preamble collapse patterns are newline-free and distinct,
/// as the idempotence proof needs them.
proof fn proof_section_sides_ok()
    ensures
        crate::text::collapse_sides_ok("Abschnitt "@, "Artikel"@),
{
    reveal_strlit("Abschnitt ");
    reveal_strlit("Artikel");
    let head = "Abschnitt "@;
    let end = "Artikel"@;
    assert(head[1] != end[1]);
    assert(1 < head.len() && 1 < end.len());
}

/// The rewrite passes are idempotent on text without form feeds, which
/// normalized text is: running them again on their own output changes
/// nothing.
pub proof fn lemma_rewrite_passes_idempotent(s: Seq<char>)
    requires
        forall|k: int| 0 <= k < s.len() ==> s[k] != '\x0C',
    ensures
        rewrite_passes(rewrite_passes(s)) == rewrite_passes(s),
{
    proof_section_sides_ok();
    let head = "Abschnitt "@;
    let end = "Artikel"@;
    lemma_page_breaks_id(s, 0);
    assert(strip_page_breaks_from(s, 0) =~= s);
    let t = collapse_from(s, head, end, 0);
    assert forall|k: int| 0 <= k < end.len() implies end[k] != '\x0C' by {
        reveal_strlit("Artikel");
    }
    crate::text::lemma_collapse_chars(s, head, end, 0, '\x0C');
    lemma_chapter_breaks_id(t, 0);
    assert(strip_chapter_breaks_from(t, 0) =~= t);
    assert(rewrite_passes(s) == t);
    lemma_page_breaks_id(t, 0);
    assert(strip_page_breaks_from(t, 0) =~= t);
    crate::text::lemma_collapse_idempotent(s, head, end);
    assert(collapse_from(t, head, end, 0) == t);
    lemma_chapter_breaks_id(t, 0);
    assert(rewrite_passes(t) == t);
}

/// Apply the normalizer to the linearized rulebook text. Pure text
/// rewriting: no step of it can fail, and text without the named defects
/// and markers passes through unchanged.
pub fn preprocess_text(text: String) -> (r: String)
    ensures
        r@ == normalize_spec(text@),
{
    proof {
        proof_literal_lens();
    }
    let v = str_to_chars(text.as_str());
    let p1 = str_to_chars("Abschnitt 9.1 Pers\u{f6}nliche Fouls\nAlle");
    let r1 = str_to_chars("Artikel 9.1.0 Pers\u{f6}nliche Fouls\nAlle");
    let s1 = replace_lit_vec(&v, &p1, &r1);
    let p2 = str_to_chars("Regel 9\nVerhalten von Spielern und anderen");
    let r2: Vec<char> = Vec::new();
    let s2 = replace_lit_vec(&s1, &p2, &r2);
    let p3 = str_to_chars(
        "9.1.4 Targeting und Forcible Contact zum Kopf-/Halsbereich\nverteidigungsloser Spieler",
    );
    let r3 = str_to_chars(
        "9.1.4 Targeting und Forcible Contact zum Kopf-/Halsbereich verteidigungsloser Spieler",
    );
    let s3 = replace_lit_vec(&s2, &p3, &r3);
    let p4 = str_to_chars("6.1.3 Ber\u{fc}hren, illegales Ber\u{fc}hren und Recovern eines Free\nKicks");
    let r4 = str_to_chars("6.1.3 Ber\u{fc}hren, illegales Ber\u{fc}hren und Recovern eines Free Kicks");
    let s4 = replace_lit_vec(&s3, &p4, &r4);
    let s5 = strip_page_breaks_vec(&s4);
    let head = str_to_chars("Abschnitt ");
    let end = str_to_chars("Artikel");
    let s6 = collapse_vec(&s5, &head, &end);
    let s7 = strip_chapter_breaks_vec(&s6);
    proof {
        assert(r2@ =~= Seq::<char>::empty());
    }
    chars_to_string(&s7)
}

/// On text without form feeds the page-break rewrite changes nothing.
pub proof fn lemma_page_breaks_id(s: Seq<char>, i: int)
    requires
        0 <= i <= s.len(),
        forall|k: int| 0 <= k < s.len() ==> s[k] != '\x0C',
    ensures
        strip_page_breaks_from(s, i) == s.subrange(i, s.len() as int),
    decreases s.len() - i,
{
    if i < s.len() {
        lemma_page_breaks_id(s, i + 1);
        assert(seq![s[i]] + s.subrange(i + 1, s.len() as int) =~= s.subrange(i, s.len() as int));
    } else {
        assert(s.subrange(i, s.len() as int) =~= Seq::<char>::empty());
    }
}

/// On text without form feeds the chapter-cover rewrite changes nothing.
pub proof fn lemma_chapter_breaks_id(s: Seq<char>, i: int)
    requires
        0 <= i <= s.len(),
        forall|k: int| 0 <= k < s.len() ==> s[k] != '\x0C',
    ensures
        strip_chapter_breaks_from(s, i) == s.subrange(i, s.len() as int),
    decreases s.len() - i,
{
    if i < s.len() {
        lemma_chapter_breaks_id(s, i + 1);
        assert(chapter_break_at(s, i) is None);
        assert(seq![s[i]] + s.subrange(i + 1, s.len() as int) =~= s.subrange(i, s.len() as int));
    } else {
        assert(s.subrange(i, s.len() as int) =~= Seq::<char>::empty());
    }
}

/// The repair patterns are not empty, which the replacement passes need.
proof fn proof_literal_lens()
    ensures
        "Abschnitt 9.1 Pers\u{f6}nliche Fouls\nAlle"@.len() >= 1,
        "Regel 9\nVerhalten von Spielern und anderen"@.len() >= 1,
        "9.1.4 Targeting und Forcible Contact zum Kopf-/Halsbereich\nverteidigungsloser Spieler"@.len()
            >= 1,
        "6.1.3 Ber\u{fc}hren, illegales Ber\u{fc}hren und Recovern eines Free\nKicks"@.len() >= 1,
        "Abschnitt "@.len() >= 1,
        "Artikel"@.len() >= 1,
    {
    reveal_strlit("Abschnitt 9.1 Pers\u{f6}nliche Fouls\nAlle");
    reveal_strlit("Regel 9\nVerhalten von Spielern und anderen");
    reveal_strlit(
        "9.1.4 Targeting und Forcible Contact zum Kopf-/Halsbereich\nverteidigungsloser Spieler",
    );
    reveal_strlit("6.1.3 Ber\u{fc}hren, illegales Ber\u{fc}hren und Recovern eines Free\nKicks");
    reveal_strlit("Abschnitt ");
    reveal_strlit("Artikel");
}

} // verus!
