//! The interpretation extractor: collapses heading boilerplate down to the
//! repeated record marker, isolates the interpretations region, and scans
//! it for situation/ruling records keyed by article number and a roman
//! numeral index.

use vstd::prelude::*;

verus! {

use crate::roman::{is_roman, is_roman_char, lemma_roman_ivx_pos, roman_ivx, roman_to_u8};
use crate::rule::{
    groups_append, marker_chars, marker_text, parse_article_nr, parse_article_nr_vec, ErrSpec,
    GroupView, InterpretationMap, InterpretationView, Marker, ParseError, RuleInterpretation,
};
use crate::text::{
    at_line_start, chars_to_string, collapse_from, collapse_vec, digit_run_end,
    digit_run_end_vec, find_from, find_sub, is_match, match_at, str_to_chars, subvec, trim_spec,
    trim_vec,
};

/// End of the run of roman digits beginning at `i`.
pub open spec fn roman_run_end(s: Seq<char>, i: int) -> int
    decreases s.len() - i,
{
    if i < 0 || i >= s.len() {
        i
    } else if is_roman_char(s[i]) {
        roman_run_end(s, i + 1)
    } else {
        i
    }
}

pub proof fn lemma_roman_run_end(s: Seq<char>, i: int)
    requires
        0 <= i <= s.len(),
    ensures
        i <= roman_run_end(s, i) <= s.len(),
        forall|k: int| i <= k < roman_run_end(s, i) ==> is_roman_char(s[k]),
        roman_run_end(s, i) < s.len() ==> !is_roman_char(s[roman_run_end(s, i)]),
    decreases s.len() - i,
{
    if i < s.len() && is_roman_char(s[i]) {
        lemma_roman_run_end(s, i + 1);
    }
}

/// Executable form of [`roman_run_end`].
fn roman_run_end_vec(v: &Vec<char>, i: usize) -> (r: usize)
    requires
        i <= v@.len(),
    ensures
        r == roman_run_end(v@, i as int),
        i <= r <= v@.len(),
{
    let mut j: usize = i;
    while j < v.len() && is_roman(v[j])
        invariant
            i <= j <= v@.len(),
            roman_run_end(v@, i as int) == roman_run_end(v@, j as int),
        decreases v@.len() - j,
    {
        j += 1;
    }
    j
}

/// One interpretation record: the marker match, the dotted article number
/// with its separator, the roman index token, the situation text, and the
/// ruling text, as positions in the scanned region.
pub ghost struct RecordSpec {
    pub start: int,
    pub nr_lo: int,
    pub nr_hi: int,
    pub idx_lo: int,
    pub idx_hi: int,
    pub sit_lo: int,
    pub sit_hi: int,
    pub rul_lo: int,
    pub rul_hi: int,
    pub end: int,
}

/// Executable form of [`RecordSpec`].
pub struct RecordHit {
    pub start: usize,
    pub nr_lo: usize,
    pub nr_hi: usize,
    pub idx_lo: usize,
    pub idx_hi: usize,
    pub sit_lo: usize,
    pub sit_hi: usize,
    pub rul_lo: usize,
    pub rul_hi: usize,
    pub end: usize,
}

impl View for RecordHit {
    type V = RecordSpec;

    open spec fn view(&self) -> RecordSpec {
        RecordSpec {
            start: self.start as int,
            nr_lo: self.nr_lo as int,
            nr_hi: self.nr_hi as int,
            idx_lo: self.idx_lo as int,
            idx_hi: self.idx_hi as int,
            sit_lo: self.sit_lo as int,
            sit_hi: self.sit_hi as int,
            rul_lo: self.rul_lo as int,
            rul_hi: self.rul_hi as int,
            end: self.end as int,
        }
    }
}

/// The record's pieces lie in order inside a text of length `n`.
pub open spec fn record_wf(r: RecordSpec, n: int) -> bool {
    &&& 0 <= r.start
    &&& r.start + 5 == r.nr_lo
    &&& r.nr_lo < r.nr_hi
    &&& r.nr_hi == r.idx_lo
    &&& r.idx_lo < r.idx_hi
    &&& r.idx_hi + 1 == r.sit_lo
    &&& r.sit_lo <= r.sit_hi
    &&& r.sit_hi + 9 == r.rul_lo
    &&& r.rul_lo <= r.rul_hi
    &&& r.rul_hi + 6 == r.end
    &&& r.end <= n
}

/// An interpretation record starting exactly at `i`: the marker at a line
/// start, a dotted three-group number, one separator character, a roman
/// token, a space, the situation up to the ruling label, and the ruling up
/// to the next marker.
pub open spec fn record_at(s: Seq<char>, i: int) -> Option<RecordSpec> {
    if at_line_start(s, i) && is_match(s, "A.R. "@, i) {
        let d1s = i + 5;
        let d1e = digit_run_end(s, d1s);
        if d1e > d1s && d1e < s.len() && s[d1e] == '.' {
            let d2e = digit_run_end(s, d1e + 1);
            if d2e > d1e + 1 && d2e < s.len() && s[d2e] == '.' {
                let d3e = digit_run_end(s, d2e + 1);
                if d3e > d2e + 1 && d3e < s.len() {
                    // the character at d3e is the index separator, whatever it is
                    let r_lo = d3e + 1;
                    let r_hi = roman_run_end(s, r_lo);
                    if r_hi > r_lo && r_hi < s.len() && s[r_hi] == ' ' {
                        match find_from(s, "Regelung:"@, r_hi + 1) {
                            Option::None => Option::None,
                            Option::Some(g) => match find_from(s, "\nA.R. "@, g + 9) {
                                Option::None => Option::None,
                                Option::Some(h) => Option::Some(
                                    (RecordSpec {
                                        start: i,
                                        nr_lo: d1s,
                                        nr_hi: d3e + 1,
                                        idx_lo: r_lo,
                                        idx_hi: r_hi,
                                        sit_lo: r_hi + 1,
                                        sit_hi: g,
                                        rul_lo: g + 9,
                                        rul_hi: h,
                                        end: h + 6,
                                    }),
                                ),
                            },
                        }
                    } else {
                        Option::None
                    }
                } else {
                    Option::None
                }
            } else {
                Option::None
            }
        } else {
            Option::None
        }
    } else {
        Option::None
    }
}

/// The first record starting at or after `i`.
pub open spec fn find_record_from(s: Seq<char>, i: int) -> Option<RecordSpec>
    decreases s.len() - i,
{
    if i < 0 || i >= s.len() {
        Option::None
    } else {
        match record_at(s, i) {
            Option::Some(r) => if record_wf(r, s.len() as int) {
                Option::Some(r)
            } else {
                find_record_from(s, i + 1)
            },
            Option::None => find_record_from(s, i + 1),
        }
    }
}

/// All records of `s` from `pos` on. After each record the cursor moves
/// back over the consumed closing marker, to the marker's own line start,
/// so that the marker that closed one record opens the next.
pub open spec fn scan_records(s: Seq<char>, pos: int) -> Seq<RecordSpec>
    decreases s.len() - pos,
{
    if pos < 0 || pos >= s.len() {
        Seq::empty()
    } else {
        match find_record_from(s, pos) {
            Option::None => Seq::empty(),
            Option::Some(r) => if pos < r.end - 5 && r.end <= s.len() {
                seq![r] + scan_records(s, r.end - 5)
            } else {
                seq![r]
            },
        }
    }
}

/// Records found later in the scan start strictly later in the text: the
/// advancing cursor can never yield the same record twice.
pub proof fn lemma_scan_records_increasing(s: Seq<char>, pos: int)
    requires
        0 <= pos,
    ensures
        forall|a: int|
            0 <= a < scan_records(s, pos).len() ==> record_wf(
                #[trigger] scan_records(s, pos)[a],
                s.len() as int,
            ) && pos <= scan_records(s, pos)[a].start,
        forall|a: int, b: int|
            0 <= a < b < scan_records(s, pos).len() ==> (#[trigger] scan_records(s, pos)[a]).start
                < (#[trigger] scan_records(s, pos)[b]).start,
    decreases s.len() - pos,
{
    if 0 <= pos < s.len() {
        match find_record_from(s, pos) {
            Option::Some(r) => {
                lemma_find_record_props(s, pos);
                if pos < r.end - 5 && r.end <= s.len() {
                    lemma_scan_records_increasing(s, r.end - 5);
                    let rest = scan_records(s, r.end - 5);
                    assert(scan_records(s, pos) == seq![r] + rest);
                    assert forall|a: int| 0 <= a < scan_records(s, pos).len() implies record_wf(
                        #[trigger] scan_records(s, pos)[a],
                        s.len() as int,
                    ) && pos <= scan_records(s, pos)[a].start by {
                        if a > 0 {
                            assert(scan_records(s, pos)[a] == rest[a - 1]);
                        } else {
                            assert(scan_records(s, pos)[0] == r);
                        }
                    }
                    assert forall|a: int, b: int|
                        0 <= a < b < scan_records(s, pos).len() implies (
                    #[trigger] scan_records(s, pos)[a]).start < (#[trigger] scan_records(
                        s,
                        pos,
                    )[b]).start by {
                        if a > 0 {
                            assert(scan_records(s, pos)[a] == rest[a - 1]);
                            assert(scan_records(s, pos)[b] == rest[b - 1]);
                        } else {
                            assert(scan_records(s, pos)[0] == r);
                            assert(scan_records(s, pos)[b] == rest[b - 1]);
                            assert(r.end - 5 <= rest[b - 1].start);
                            assert(r.start + 18 <= r.end - 5);
                        }
                    }
                }
            },
            Option::None => {},
        }
    }
}

/// What a found record satisfies: it is well-formed and starts at or after
/// the search position.
pub proof fn lemma_find_record_props(s: Seq<char>, i: int)
    requires
        0 <= i,
        find_record_from(s, i) is Some,
    ensures
        record_wf(find_record_from(s, i)->Some_0, s.len() as int),
        i <= find_record_from(s, i)->Some_0.start,
    decreases s.len() - i,
{
    if i < s.len() {
        match record_at(s, i) {
            Option::Some(r) => {
                if record_wf(r, s.len() as int) {
                } else {
                    lemma_find_record_props(s, i + 1);
                }
            },
            Option::None => {
                lemma_find_record_props(s, i + 1);
            },
        }
    }
}

/// Skipping positions that hold no record does not change the search.
proof fn lemma_find_record_skip(s: Seq<char>, a: int, b: int)
    requires
        0 <= a <= b <= s.len(),
        forall|k: int|
            a <= k < b ==> !(record_at(s, k) is Some && record_wf(
                record_at(s, k)->Some_0,
                s.len() as int,
            )),
    ensures
        find_record_from(s, a) == find_record_from(s, b),
    decreases b - a,
{
    if a < b {
        lemma_find_record_skip(s, a + 1, b);
    }
}

/// Find the record at exactly position `i`, if any.
fn record_at_vec(v: &Vec<char>, ar: &Vec<char>, reg: &Vec<char>, nar: &Vec<char>, i: usize) -> (r:
    Option<RecordHit>)
    requires
        ar@ == "A.R. "@,
        ar@.len() == 5,
        reg@ == "Regelung:"@,
        reg@.len() == 9,
        nar@ == "\nA.R. "@,
        nar@.len() == 6,
        i <= v@.len(),
    ensures
        match r {
            Some(h) => record_at(v@, i as int) == Some(h@) && record_wf(h@, v@.len() as int)
                && h@.start == i && forall|k: int|
                h@.idx_lo <= k < h@.idx_hi ==> is_roman_char(v@[k]),
            None => record_at(v@, i as int) is None,
        },
{
    let n = v.len();
    let line_start = i == 0 || v[i - 1] == '\n';
    if !line_start {
        return None;
    }
    if !match_at(v, ar, i) {
        return None;
    }
    let d1s = i + 5;
    let d1e = digit_run_end_vec(v, d1s);
    if !(d1e > d1s && d1e < n) {
        return None;
    }
    if v[d1e] != '.' {
        return None;
    }
    let d2e = digit_run_end_vec(v, d1e + 1);
    if !(d2e > d1e + 1 && d2e < n) {
        return None;
    }
    if v[d2e] != '.' {
        return None;
    }
    let d3e = digit_run_end_vec(v, d2e + 1);
    if !(d3e > d2e + 1 && d3e < n) {
        return None;
    }
    let r_lo = d3e + 1;
    let r_hi = roman_run_end_vec(v, r_lo);
    if !(r_hi > r_lo && r_hi < n) {
        return None;
    }
    if v[r_hi] != ' ' {
        return None;
    }
    let g = match find_sub(v, reg, r_hi + 1) {
        None => {
            return None;
        },
        Some(g) => g,
    };
    let h = match find_sub(v, nar, g + 9) {
        None => {
            return None;
        },
        Some(h) => h,
    };
    proof {
        lemma_roman_run_end(v@, r_lo as int);
    }
    Some(
        (RecordHit {
            start: i,
            nr_lo: d1s,
            nr_hi: d3e + 1,
            idx_lo: r_lo,
            idx_hi: r_hi,
            sit_lo: r_hi + 1,
            sit_hi: g,
            rul_lo: g + 9,
            rul_hi: h,
            end: h + 6,
        }),
    )
}

/// The views of a sequence of record hits.
pub open spec fn recs_view(rs: Seq<RecordHit>) -> Seq<RecordSpec> {
    rs.map_values(|r: RecordHit| r@)
}

/// Scan the whole region for interpretation records.
fn scan_records_vec(v: &Vec<char>) -> (rs: Vec<RecordHit>)
    ensures
        recs_view(rs@) == scan_records(v@, 0),
        forall|k: int|
            0 <= k < rs@.len() ==> record_wf(#[trigger] rs@[k]@, v@.len() as int) && (forall|m: int|
                rs@[k]@.idx_lo <= m < rs@[k]@.idx_hi ==> is_roman_char(v@[m])),
{
    let ar = str_to_chars("A.R. ");
    let reg = str_to_chars("Regelung:");
    let nar = str_to_chars("\nA.R. ");
    proof {
        reveal_strlit("A.R. ");
        reveal_strlit("Regelung:");
        reveal_strlit("\nA.R. ");
    }
    let mut rs: Vec<RecordHit> = Vec::new();
    let mut pos: usize = 0;
    let ghost whole = scan_records(v@, 0);
    proof {
        assert(recs_view(rs@) =~= Seq::<RecordSpec>::empty());
    }
    loop
        invariant
            0 <= pos <= v@.len(),
            ar@ == "A.R. "@ && ar@.len() == 5,
            reg@ == "Regelung:"@ && reg@.len() == 9,
            nar@ == "\nA.R. "@ && nar@.len() == 6,
            whole == scan_records(v@, 0),
            whole == recs_view(rs@) + scan_records(v@, pos as int),
            forall|k: int|
                0 <= k < rs@.len() ==> record_wf(#[trigger] rs@[k]@, v@.len() as int) && (forall|
                    m: int,
                |
                    rs@[k]@.idx_lo <= m < rs@[k]@.idx_hi ==> is_roman_char(v@[m])),
        decreases v@.len() - pos,
    {
        if pos >= v.len() {
            proof {
                assert(recs_view(rs@) =~= whole);
            }
            return rs;
        }
        match find_record_vec(v, &ar, &reg, &nar, pos) {
            None => {
                proof {
                    assert(recs_view(rs@) =~= whole);
                }
                return rs;
            },
            Some(h) => {
                let ghost rs0 = rs@;
                let ghost hv = h@;
                let e = h.end;
                proof {
                    assert(scan_records(v@, pos as int) == seq![hv] + scan_records(
                        v@,
                        e - 5,
                    ));
                }
                rs.push(h);
                proof {
                    assert(recs_view(rs@) =~= recs_view(rs0).push(hv));
                    assert(recs_view(rs@) + scan_records(v@, e - 5) =~= recs_view(rs0)
                        + scan_records(v@, pos as int));
                }
                pos = e - 5;
            },
        }
    }
}

/// Find the first record at or after `from`.
fn find_record_vec(v: &Vec<char>, ar: &Vec<char>, reg: &Vec<char>, nar: &Vec<char>, from: usize)
    -> (r: Option<RecordHit>)
    requires
        ar@ == "A.R. "@,
        ar@.len() == 5,
        reg@ == "Regelung:"@,
        reg@.len() == 9,
        nar@ == "\nA.R. "@,
        nar@.len() == 6,
        from <= v@.len(),
    ensures
        match r {
            Some(h) => find_record_from(v@, from as int) == Some(h@) && record_wf(
                h@,
                v@.len() as int,
            ) && from <= h@.start && from < h@.end - 5 && h@.end <= v@.len() && (forall|m: int|
                h@.idx_lo <= m < h@.idx_hi ==> is_roman_char(v@[m])),
            None => find_record_from(v@, from as int) is None,
        },
{
    let mut i: usize = from;
    loop
        invariant
            from <= i <= v@.len(),
            ar@ == "A.R. "@ && ar@.len() == 5,
            reg@ == "Regelung:"@ && reg@.len() == 9,
            nar@ == "\nA.R. "@ && nar@.len() == 6,
            find_record_from(v@, from as int) == find_record_from(v@, i as int),
        decreases v@.len() - i,
    {
        if i >= v.len() {
            return None;
        }
        match record_at_vec(v, ar, reg, nar, i) {
            Some(h) => {
                return Some(h);
            },
            None => {
                proof {
                    lemma_find_record_skip(v@, i as int, i + 1);
                }
                i += 1;
            },
        }
    }
}

/// The interpretations built from the records of `s`, from record `k` on,
/// appended in scan order to the groups in `acc`.
pub open spec fn records_to_groups(
    s: Seq<char>,
    rs: Seq<RecordSpec>,
    k: int,
    acc: Seq<GroupView>,
) -> Result<Seq<GroupView>, ErrSpec>
    decreases rs.len() - k,
{
    if k < 0 || k >= rs.len() {
        Result::Ok(acc)
    } else {
        let r = rs[k];
        let nr_txt = s.subrange(r.nr_lo, r.nr_hi);
        match parse_article_nr(nr_txt) {
            Option::None => Result::Err(ErrSpec::InvalidArticleNr(nr_txt)),
            Option::Some(nr) => {
                let tok = s.subrange(r.idx_lo, r.idx_hi);
                if tok.len() > 4000 || roman_ivx(tok) > 255 || roman_ivx(tok) < 0 {
                    Result::Err(ErrSpec::InvalidRomanNumeral(tok))
                } else {
                    let iv = InterpretationView {
                        article_nr: nr,
                        index: roman_ivx(tok) as u8,
                        text: trim_spec(s.subrange(r.sit_lo, r.sit_hi)),
                        ruling: trim_spec(s.subrange(r.rul_lo, r.rul_hi)),
                    };
                    records_to_groups(s, rs, k + 1, groups_append(acc, nr, iv))
                }
            },
        }
    }
}

/// What the extractor yields on the normalized text `s`: heading
/// boilerplate is collapsed to the record marker (the section pass runs
/// twice for nested section headings), the region is anchored by its two
/// literal markers, a synthetic trailing marker closes the final record,
/// and the region is scanned for records.
pub open spec fn extract_interpretations_spec(s: Seq<char>) -> Result<Seq<GroupView>, ErrSpec> {
    let c1 = collapse_from(s, "Regel "@, "A.R."@, 0);
    let c2 = collapse_from(c1, "Abschnitt "@, "A.R."@, 0);
    let c3 = collapse_from(c2, "Abschnitt "@, "A.R."@, 0);
    let c4 = collapse_from(c3, "Artikel "@, "A.R."@, 0);
    match find_from(c4, marker_text(Marker::InterpretationsStart), 0) {
        Option::None => Result::Err(ErrSpec::MissingMarker(Marker::InterpretationsStart)),
        Option::Some(ipos) => match find_from(c4, marker_text(Marker::InterpretationsEnd), ipos) {
            Option::None => Result::Err(ErrSpec::MissingMarker(Marker::InterpretationsEnd)),
            Option::Some(epos) => {
                let itext = c4.subrange(ipos, epos) + "\nA.R. "@;
                records_to_groups(itext, scan_records(itext, 0), 0, Seq::empty())
            },
        },
    }
}

/// The doubled section-heading pass changes nothing: one run of the
/// heading collapse already reaches its fixed point, so the extractor's
/// second section pass is a safety margin, not a semantic step.
pub proof fn lemma_doubled_section_pass(s: Seq<char>)
    ensures
        collapse_from(
            collapse_from(s, "Abschnitt "@, "A.R."@, 0),
            "Abschnitt "@,
            "A.R."@,
            0,
        ) == collapse_from(s, "Abschnitt "@, "A.R."@, 0),
{
    reveal_strlit("Abschnitt ");
    reveal_strlit("A.R.");
    let head = "Abschnitt "@;
    let end = "A.R."@;
    assert(head[1] != end[1]);
    assert(1 < head.len() && 1 < end.len());
    crate::text::lemma_collapse_idempotent(s, head, end);
}

/// Extract the interpretations of the normalized text, grouped by article
/// number in document order.
///
/// Fails when a region anchor is absent, an article number does not
/// parse, or an index token is no byte-sized roman numeral; otherwise
/// every extracted index is positive.
#[verifier::rlimit(100)]
pub fn extract_interpretations(text: &str) -> (r: Result<InterpretationMap, ParseError>)
    ensures
        match r {
            Ok(m) => extract_interpretations_spec(text@) == Result::<
                Seq<GroupView>,
                ErrSpec,
            >::Ok(m@) && (forall|a: int, b: int|
                0 <= a < m@.len() && 0 <= b < m@[a].items.len()
                    ==> (#[trigger] m@[a].items[b]).index >= 1),
            Err(e) => extract_interpretations_spec(text@) == Result::<
                Seq<GroupView>,
                ErrSpec,
            >::Err(e@),
        },
{
    let v = str_to_chars(text);
    let h1 = str_to_chars("Regel ");
    let h2 = str_to_chars("Abschnitt ");
    let h3 = str_to_chars("Artikel ");
    let endm = str_to_chars("A.R.");
    proof {
        reveal_strlit("Regel ");
        reveal_strlit("Abschnitt ");
        reveal_strlit("Artikel ");
        reveal_strlit("A.R.");
    }
    let c1 = collapse_vec(&v, &h1, &endm);
    let c2 = collapse_vec(&c1, &h2, &endm);
    let c3 = collapse_vec(&c2, &h2, &endm);
    let c4 = collapse_vec(&c3, &h3, &endm);
    let mstart = marker_chars(Marker::InterpretationsStart);
    let ipos = match find_sub(&c4, &mstart, 0) {
        None => {
            return Err(ParseError::MissingMarker(Marker::InterpretationsStart));
        },
        Some(p) => p,
    };
    let mend = marker_chars(Marker::InterpretationsEnd);
    let epos = match find_sub(&c4, &mend, ipos) {
        None => {
            return Err(ParseError::MissingMarker(Marker::InterpretationsEnd));
        },
        Some(p) => p,
    };
    let mut itext = subvec(&c4, ipos, epos);
    let tail = str_to_chars("\nA.R. ");
    crate::text::extend_subvec(&mut itext, &tail, 0, tail.len());
    proof {
        assert(tail@.subrange(0, tail@.len() as int) =~= tail@);
    }
    let rs = scan_records_vec(&itext);
    let ghost rss = scan_records(itext@, 0);
    let ghost s = itext@;
    let mut im = InterpretationMap::new();
    let mut k: usize = 0;
    while k < rs.len()
        invariant
            k <= rs@.len(),
            s == itext@,
            rss == recs_view(rs@),
            forall|m: int|
                0 <= m < rs@.len() ==> record_wf(#[trigger] rs@[m]@, s.len() as int) && (forall|
                    j: int,
                |
                    rs@[m]@.idx_lo <= j < rs@[m]@.idx_hi ==> is_roman_char(s[j])),
            extract_interpretations_spec(text@) == records_to_groups(
                s,
                rss,
                0,
                Seq::<GroupView>::empty(),
            ),
            records_to_groups(s, rss, 0, Seq::<GroupView>::empty()) == records_to_groups(
                s,
                rss,
                k as int,
                im@,
            ),
            forall|a: int, b: int|
                0 <= a < im@.len() && 0 <= b < im@[a].items.len()
                    ==> (#[trigger] im@[a].items[b]).index >= 1,
        decreases rs@.len() - k,
    {
        let ghost rv = rs@[k as int]@;
        proof {
            assert(rv == rss[k as int]);
        }
        let nr_txt = subvec(&itext, rs[k].nr_lo, rs[k].nr_hi);
        let nr = match parse_article_nr_vec(&nr_txt) {
            None => {
                proof {
                    assert(records_to_groups(s, rss, k as int, im@) == Result::<
                        Seq<GroupView>,
                        ErrSpec,
                    >::Err(ErrSpec::InvalidArticleNr(s.subrange(rv.nr_lo, rv.nr_hi))));
                }
                return Err(ParseError::InvalidArticleNr(chars_to_string(&nr_txt)));
            },
            Some(nr) => nr,
        };
        let tok = subvec(&itext, rs[k].idx_lo, rs[k].idx_hi);
        let ghost tokv = s.subrange(rv.idx_lo, rv.idx_hi);
        proof {
            lemma_roman_ivx_pos(tokv);
        }
        if tok.len() > 4000 {
            return Err(ParseError::InvalidRomanNumeral(chars_to_string(&tok)));
        }
        let index = match roman_to_u8(chars_to_string(&tok).as_str()) {
            None => {
                return Err(ParseError::InvalidRomanNumeral(chars_to_string(&tok)));
            },
            Some(x) => x,
        };
        let situation = trim_vec(&subvec(&itext, rs[k].sit_lo, rs[k].sit_hi));
        let ruling = trim_vec(&subvec(&itext, rs[k].rul_lo, rs[k].rul_hi));
        let interp = RuleInterpretation {
            article_nr: nr,
            index,
            text: chars_to_string(&situation),
            ruling: chars_to_string(&ruling),
        };
        proof {
            assert(records_to_groups(s, rss, k as int, im@) == records_to_groups(
                s,
                rss,
                k + 1,
                groups_append(im@, nr, interp@),
            ));
            crate::rule::lemma_first_group_with_nr(im@, nr);
            let ghost im0 = im@;
            let ghost gnew = groups_append(im0, nr, interp@);
            assert forall|a: int, b: int|
                0 <= a < gnew.len() && 0 <= b < gnew[a].items.len() implies (
            #[trigger] gnew[a].items[b]).index >= 1 by {
                let i = crate::rule::first_group_with_nr(im0, nr);
                if i >= 0 {
                    if a == i {
                        if b < im0[a].items.len() {
                            assert(gnew[a].items[b] == im0[a].items[b]);
                        } else {
                            assert(gnew[a].items[b] == interp@);
                        }
                    } else {
                        assert(gnew[a] == im0[a]);
                    }
                } else {
                    if a < im0.len() {
                        assert(gnew[a] == im0[a]);
                    } else {
                        assert(gnew[a].items == seq![interp@]);
                        assert(gnew[a].items[b] == interp@);
                    }
                }
            }
        }
        im.append(interp);
        k += 1;
    }
    Ok(im)
}

} // verus!
