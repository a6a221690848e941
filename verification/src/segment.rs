//! The article segmenter: locates the rules region between its two literal
//! anchors, scans it for article headers, partitions it into per-article
//! spans, and hands each span to the body formatter.

use vstd::prelude::*;

verus! {

use crate::body::{deep_override, format_body, format_body_spec};
use crate::rule::{
    lemma_rules_insert_wf, marker_chars, marker_text, parse_article_nr, parse_article_nr_vec,
    ArticleNr, ErrSpec, Marker, ParseError, Rule, RuleMap, RuleView, rules_insert, rules_wf,
};
use crate::text::{
    chars_to_string, digit_run_end, digit_run_end_vec, eq_chars, find_from, find_sub, is_match,
    match_at, str_to_chars, subvec,
};

/// One article header occurrence: the match, its dotted number, and its
/// title, all as positions in the scanned region.
pub ghost struct HeaderSpec {
    pub start: int,
    pub nr_lo: int,
    pub nr_hi: int,
    pub title_lo: int,
    pub title_hi: int,
    pub end: int,
}

/// Executable form of [`HeaderSpec`]: positions of one header hit.
pub struct HeaderHit {
    pub start: usize,
    pub nr_lo: usize,
    pub nr_hi: usize,
    pub title_lo: usize,
    pub title_hi: usize,
    pub end: usize,
}

impl View for HeaderHit {
    type V = HeaderSpec;

    open spec fn view(&self) -> HeaderSpec {
        HeaderSpec {
            start: self.start as int,
            nr_lo: self.nr_lo as int,
            nr_hi: self.nr_hi as int,
            title_lo: self.title_lo as int,
            title_hi: self.title_hi as int,
            end: self.end as int,
        }
    }
}

/// The header's pieces lie in order inside a text of length `n`.
pub open spec fn header_wf(h: HeaderSpec, n: int) -> bool {
    &&& 0 <= h.start
    &&& h.start + 8 == h.nr_lo
    &&& h.nr_lo < h.nr_hi
    &&& h.nr_hi + 1 == h.title_lo
    &&& h.title_lo <= h.title_hi
    &&& h.title_hi == h.end
    &&& h.end <= n
}

/// An article header at position `i`: the word "Artikel", a space, a dotted
/// three-group number, a space, and a title running to the end of the line.
pub open spec fn header_at(s: Seq<char>, i: int) -> Option<HeaderSpec> {
    if is_match(s, "Artikel "@, i) {
        let d1s = i + 8;
        let d1e = digit_run_end(s, d1s);
        if d1e > d1s && d1e < s.len() && s[d1e] == '.' {
            let d2e = digit_run_end(s, d1e + 1);
            if d2e > d1e + 1 && d2e < s.len() && s[d2e] == '.' {
                let d3e = digit_run_end(s, d2e + 1);
                if d3e > d2e + 1 && d3e < s.len() && s[d3e] == ' ' {
                    let t_hi = match find_from(s, seq!['\n'], d3e + 1) {
                        Option::Some(j) => j,
                        Option::None => s.len() as int,
                    };
                    Option::Some(
                        HeaderSpec {
                            start: i,
                            nr_lo: d1s,
                            nr_hi: d3e,
                            title_lo: d3e + 1,
                            title_hi: t_hi,
                            end: t_hi,
                        },
                    )
                } else {
                    Option::None
                }
            } else {
                Option::None
            }
        } else {
            Option::None
        }
    } else {
        Option::None
    }
}

/// Every article header in `s` at or after `i`, in order; scanning resumes
/// after each header's title line.
pub open spec fn scan_headers(s: Seq<char>, i: int) -> Seq<HeaderSpec>
    decreases s.len() - i,
{
    if i < 0 || i >= s.len() {
        Seq::empty()
    } else {
        match header_at(s, i) {
            Option::Some(h) => if i < h.end <= s.len() && header_wf(h, s.len() as int) {
                seq![h] + scan_headers(s, h.end)
            } else {
                scan_headers(s, i + 1)
            },
            Option::None => scan_headers(s, i + 1),
        }
    }
}

/// Headers are well-formed and stand in strictly advancing positions.
pub proof fn lemma_scan_headers(s: Seq<char>, i: int)
    requires
        0 <= i,
    ensures
        forall|k: int|
            0 <= k < scan_headers(s, i).len() ==> header_wf(
                #[trigger] scan_headers(s, i)[k],
                s.len() as int,
            ) && i <= scan_headers(s, i)[k].start,
        forall|k: int|
            0 <= k && k + 1 < scan_headers(s, i).len() ==> (#[trigger] scan_headers(s, i)[k]).end
                <= scan_headers(s, i)[k + 1].start,
    decreases s.len() - i,
{
    if 0 <= i < s.len() {
        match header_at(s, i) {
            Option::Some(h) => {
                if i < h.end <= s.len() && header_wf(h, s.len() as int) {
                    lemma_scan_headers(s, h.end);
                    let rest = scan_headers(s, h.end);
                    assert(scan_headers(s, i) == seq![h] + rest);
                    assert forall|k: int| 0 <= k < scan_headers(s, i).len() implies header_wf(
                        #[trigger] scan_headers(s, i)[k],
                        s.len() as int,
                    ) && i <= scan_headers(s, i)[k].start by {
                        if k > 0 {
                            assert(scan_headers(s, i)[k] == rest[k - 1]);
                            assert(h.start == i && h.start + 8 <= h.end);
                        } else {
                            assert(scan_headers(s, i)[0] == h);
                            assert(h.start == i);
                        }
                    }
                    assert forall|k: int| 0 <= k && k + 1 < scan_headers(s, i).len() implies (
                    #[trigger] scan_headers(s, i)[k]).end <= scan_headers(s, i)[k + 1].start by {
                        if k > 0 {
                            assert(scan_headers(s, i)[k] == rest[k - 1]);
                            assert(scan_headers(s, i)[k + 1] == rest[k]);
                            assert(rest[k - 1].end <= rest[k].start);
                        } else {
                            assert(rest.len() >= 1);
                            assert(scan_headers(s, i)[0] == h);
                            assert(scan_headers(s, i)[1] == rest[0]);
                            assert(h.end <= rest[0].start);
                        }
                    }
                } else {
                    lemma_scan_headers(s, i + 1);
                    assert(scan_headers(s, i) == scan_headers(s, i + 1));
                }
            },
            Option::None => {
                lemma_scan_headers(s, i + 1);
                assert(scan_headers(s, i) == scan_headers(s, i + 1));
            },
        }
    } else {
        assert(scan_headers(s, i) =~= Seq::<HeaderSpec>::empty());
    }
}

/// Find the article header at exactly position `i`, if any.
fn header_at_vec(v: &Vec<char>, art: &Vec<char>, nl: &Vec<char>, i: usize) -> (r: Option<
    HeaderHit,
>)
    requires
        art@ == "Artikel "@,
        art@.len() == 8,
        nl@ == seq!['\n'],
        i <= v@.len(),
    ensures
        match r {
            Some(h) => header_at(v@, i as int) == Some(h@) && header_wf(h@, v@.len() as int)
                && h@.start == i && i < h@.end,
            None => header_at(v@, i as int) is None,
        },
{
    let n = v.len();
    if !match_at(v, art, i) {
        return None;
    }
    let d1s = i + 8;
    let d1e = digit_run_end_vec(v, d1s);
    if !(d1e > d1s && d1e < n) {
        return None;
    }
    if v[d1e] != '.' {
        return None;
    }
    let d2e = digit_run_end_vec(v, d1e + 1);
    if !(d2e > d1e + 1 && d2e < n) {
        return None;
    }
    if v[d2e] != '.' {
        return None;
    }
    let d3e = digit_run_end_vec(v, d2e + 1);
    if !(d3e > d2e + 1 && d3e < n) {
        return None;
    }
    if v[d3e] != ' ' {
        return None;
    }
    let t_hi = match find_sub(v, nl, d3e + 1) {
        Some(j) => j,
        None => n,
    };
    Some(
        HeaderHit {
            start: i,
            nr_lo: d1s,
            nr_hi: d3e,
            title_lo: d3e + 1,
            title_hi: t_hi,
            end: t_hi,
        },
    )
}

/// The views of a sequence of header hits.
pub open spec fn hits_view(hs: Seq<HeaderHit>) -> Seq<HeaderSpec> {
    hs.map_values(|h: HeaderHit| h@)
}

/// Scan the whole region for article headers.
fn scan_headers_vec(v: &Vec<char>) -> (hs: Vec<HeaderHit>)
    ensures
        hits_view(hs@) == scan_headers(v@, 0),
        forall|k: int|
            0 <= k < hs@.len() ==> header_wf(#[trigger] hs@[k]@, v@.len() as int),
        forall|k: int| 0 <= k && k + 1 < hs@.len() ==> (#[trigger] hs@[k]@).end <= hs@[k + 1]@.start,
{
    let art = str_to_chars("Artikel ");
    let nl = str_to_chars("\n");
    proof {
        reveal_strlit("Artikel ");
        reveal_strlit("\n");
        assert(nl@ =~= seq!['\n']);
    }
    let mut hs: Vec<HeaderHit> = Vec::new();
    let mut i: usize = 0;
    proof {
        assert(hits_view(hs@) =~= Seq::<HeaderSpec>::empty());
    }
    while i < v.len()
        invariant
            0 <= i <= v@.len(),
            art@ == "Artikel "@,
            art@.len() == 8,
            nl@ == seq!['\n'],
            scan_headers(v@, 0) == hits_view(hs@) + scan_headers(v@, i as int),
            forall|k: int|
                0 <= k < hs@.len() ==> header_wf(#[trigger] hs@[k]@, v@.len() as int)
                    && hs@[k]@.end <= i,
            forall|k: int| 0 <= k && k + 1 < hs@.len() ==> (#[trigger] hs@[k]@).end <= hs@[k + 1]@.start,
        decreases v@.len() - i,
    {
        let ghost hs0 = hs@;
        match header_at_vec(v, &art, &nl, i) {
            Some(h) => {
                let e = h.end;
                let ghost hv = h@;
                hs.push(h);
                proof {
                    assert(hits_view(hs@) =~= hits_view(hs0).push(hv));
                    assert(hits_view(hs@) + scan_headers(v@, e as int) =~= hits_view(hs0)
                        + scan_headers(v@, i as int));
                    assert forall|m: int| 0 <= m && m + 1 < hs@.len() implies (
                    #[trigger] hs@[m]@).end <= hs@[m + 1]@.start by {
                        if m + 1 < hs@.len() - 1 {
                            assert(hs@[m] == hs0[m]);
                            assert(hs@[m + 1] == hs0[m + 1]);
                        } else {
                            assert(hs@[m] == hs0[m]);
                            assert(hs@[m + 1]@ == hv);
                            assert(hs0[m]@.end <= i as int);
                        }
                    }
                }
                i = e;
            },
            None => {
                proof {
                    assert(hits_view(hs@) + scan_headers(v@, i + 1) =~= hits_view(hs0)
                        + scan_headers(v@, i as int));
                }
                i += 1;
            },
        }
    }
    hs
}

/// The concatenation of the article spans from header `k` on: each span
/// runs from its header to the next header's start, the last to
/// `last_end`.
pub open spec fn spans_concat(
    region: Seq<char>,
    hs: Seq<HeaderSpec>,
    k: int,
    last_end: int,
) -> Seq<char>
    decreases hs.len() - k,
{
    if k < 0 || k >= hs.len() {
        Seq::empty()
    } else if k + 1 < hs.len() {
        region.subrange(hs[k].start, hs[k + 1].start) + spans_concat(region, hs, k + 1, last_end)
    } else {
        region.subrange(hs[k].start, last_end)
    }
}

/// Later headers start at or after earlier ones.
proof fn lemma_headers_monotone(hs: Seq<HeaderSpec>, a: int, b: int)
    requires
        forall|m: int| 0 <= m < hs.len() ==> (#[trigger] hs[m]).start < hs[m].end,
        forall|m: int| 0 <= m && m + 1 < hs.len() ==> (#[trigger] hs[m]).end <= hs[m + 1].start,
        0 <= a <= b < hs.len(),
    ensures
        hs[a].start <= hs[b].start,
    decreases b - a,
{
    if a < b {
        lemma_headers_monotone(hs, a + 1, b);
    }
}

/// The segmenter partitions its region without gaps or overlaps: spans
/// share their boundaries, and their concatenation reconstructs the region
/// text from the first header to the end of the last span.
pub proof fn lemma_spans_partition(region: Seq<char>, hs: Seq<HeaderSpec>, k: int, last_end: int)
    requires
        forall|m: int| 0 <= m < hs.len() ==> (#[trigger] hs[m]).start < hs[m].end,
        forall|m: int| 0 <= m < hs.len() ==> 0 <= (#[trigger] hs[m]).start,
        forall|m: int| 0 <= m && m + 1 < hs.len() ==> (#[trigger] hs[m]).end <= hs[m + 1].start,
        0 <= k < hs.len(),
        hs[hs.len() - 1].start <= last_end <= region.len(),
    ensures
        spans_concat(region, hs, k, last_end) == region.subrange(hs[k].start, last_end),
    decreases hs.len() - k,
{
    if k + 1 < hs.len() {
        lemma_spans_partition(region, hs, k + 1, last_end);
        lemma_headers_monotone(hs, k + 1, hs.len() - 1);
        assert(region.subrange(hs[k].start, hs[k + 1].start) + region.subrange(
            hs[k + 1].start,
            last_end,
        ) =~= region.subrange(hs[k].start, last_end));
    }
}

/// The law for the segmenter as it runs: the spans cut between the scanned
/// headers of a region, closed off at any point past the last header,
/// reconstruct the region text from the first header on.
pub proof fn lemma_segmenter_partition(region: Seq<char>, last_end: int)
    requires
        scan_headers(region, 0).len() >= 1,
        scan_headers(region, 0)[scan_headers(region, 0).len() - 1].start <= last_end
            <= region.len(),
    ensures
        spans_concat(region, scan_headers(region, 0), 0, last_end) == region.subrange(
            scan_headers(region, 0)[0].start,
            last_end,
        ),
{
    let hs = scan_headers(region, 0);
    lemma_scan_headers(region, 0);
    assert forall|m: int| 0 <= m < hs.len() implies (#[trigger] hs[m]).start < hs[m].end by {
        assert(header_wf(hs[m], region.len() as int));
    }
    lemma_spans_partition(region, hs, 0, last_end);
}

/// The result of formatting one article span: the parsed number and title
/// and the canonical body text, with no interpretations yet.
pub open spec fn format_rule_spec(region: Seq<char>, h: HeaderSpec, span_end: int) -> Result<
    RuleView,
    ErrSpec,
> {
    let nr_txt = region.subrange(h.nr_lo, h.nr_hi);
    match parse_article_nr(nr_txt) {
        Option::None => Result::Err(ErrSpec::InvalidArticleNr(nr_txt)),
        Option::Some(nr) => {
            let title = region.subrange(h.title_lo, h.title_hi);
            let span = region.subrange(h.start, span_end);
            match find_from(span, seq!['\n'], 0) {
                Option::None => Result::Err(ErrSpec::NoNewlineAfterHeader),
                Option::Some(ts) => {
                    let body = span.subrange(ts, span.len() as int);
                    let deep = deep_override(nr.0, title);
                    Result::Ok(
                        (RuleView {
                            article_nr: nr,
                            title: title,
                            text: format_body_spec(body, deep),
                            interpretations: Seq::empty(),
                        }),
                    )
                },
            }
        },
    }
}

/// Format the article span `region[h.start .. span_end]` into a rule.
fn format_rule(region: &Vec<char>, h: &HeaderHit, span_end: usize) -> (r: Result<
    Rule,
    ParseError,
>)
    requires
        header_wf(h@, region@.len() as int),
        h@.start <= span_end,
        span_end <= region@.len(),
    ensures
        match r {
            Ok(rule) => format_rule_spec(region@, h@, span_end as int) == Result::<
                RuleView,
                ErrSpec,
            >::Ok(rule@),
            Err(e) => format_rule_spec(region@, h@, span_end as int) == Result::<
                RuleView,
                ErrSpec,
            >::Err(e@),
        },
{
    let nr_txt = subvec(region, h.nr_lo, h.nr_hi);
    match parse_article_nr_vec(&nr_txt) {
        None => Err(ParseError::InvalidArticleNr(chars_to_string(&nr_txt))),
        Some(nr) => {
            let title = subvec(region, h.title_lo, h.title_hi);
            let span = subvec(region, h.start, span_end);
            let nl = str_to_chars("\n");
            proof {
                reveal_strlit("\n");
                assert(nl@ =~= seq!['\n']);
            }
            match find_sub(&span, &nl, 0) {
                None => Err(ParseError::NoNewlineAfterHeader),
                Some(ts) => {
                    let body = subvec(&span, ts, span.len());
                    let clip = str_to_chars("Clipping");
                    let block = str_to_chars("Blocken in den R\u{fc}cken");
                    let deep = (eq_chars(&title, &clip) && nr.0 == 9) || eq_chars(&title, &block);
                    let text = format_body(&body, deep);
                    let rule = Rule {
                        article_nr: nr,
                        title: chars_to_string(&title),
                        text: chars_to_string(&text),
                        interpretations: Vec::new(),
                    };
                    proof {
                        assert(crate::rule::interps_view(Seq::<
                            crate::rule::RuleInterpretation,
                        >::empty()) =~= Seq::<crate::rule::InterpretationView>::empty());
                        assert(deep == deep_override(nr.0, title@));
                    }
                    Ok(rule)
                },
            }
        },
    }
}

/// The rules built from the headers of `region`, from header `k` on, with
/// the rules built so far in `acc`: every span but the last ends at the
/// next header, the last at the penalty-summary anchor.
pub open spec fn build_rules(
    region: Seq<char>,
    hs: Seq<HeaderSpec>,
    k: int,
    acc: Seq<RuleView>,
) -> Result<Seq<RuleView>, ErrSpec>
    decreases hs.len() - k,
{
    if k < 0 || k >= hs.len() {
        Result::Ok(acc)
    } else if k + 1 < hs.len() {
        match format_rule_spec(region, hs[k], hs[k + 1].start) {
            Result::Err(e) => Result::Err(e),
            Result::Ok(rv) => build_rules(region, hs, k + 1, rules_insert(acc, rv)),
        }
    } else {
        match find_from(region, marker_text(Marker::EndOfRules), hs[k].end) {
            Option::None => Result::Err(ErrSpec::MissingMarker(Marker::EndOfRules)),
            Option::Some(e) => match format_rule_spec(region, hs[k], e) {
                Result::Err(err) => Result::Err(err),
                Result::Ok(rv) => Result::Ok(rules_insert(acc, rv)),
            },
        }
    }
}

/// What the segmenter yields on `s`: the rules region is anchored by its
/// two literal markers, scanned for headers, and each span formatted; an
/// empty header list yields an empty collection.
pub open spec fn extract_rules_spec(s: Seq<char>) -> Result<Seq<RuleView>, ErrSpec> {
    match find_from(s, marker_text(Marker::RulesStart), 0) {
        Option::None => Result::Err(ErrSpec::MissingMarker(Marker::RulesStart)),
        Option::Some(start) => match find_from(s, marker_text(Marker::RulesEnd), start) {
            Option::None => Result::Err(ErrSpec::MissingMarker(Marker::RulesEnd)),
            Option::Some(endm) => {
                let region = s.subrange(start, endm);
                build_rules(region, scan_headers(region, 0), 0, Seq::empty())
            },
        },
    }
}

/// Partition the normalized text into per-article rules.
///
/// Fails when a boundary anchor is absent or an article number does not
/// parse; otherwise yields the rules in document order, at most one per
/// article number, each with its canonical tab-indented body and no
/// interpretations yet.
#[verifier::rlimit(100)]
pub fn extract_rules(text: &str) -> (r: Result<RuleMap, ParseError>)
    ensures
        match r {
            Ok(m) => extract_rules_spec(text@) == Result::<Seq<RuleView>, ErrSpec>::Ok(m@)
                && rules_wf(m@),
            Err(e) => extract_rules_spec(text@) == Result::<Seq<RuleView>, ErrSpec>::Err(e@),
        },
{
    let v = str_to_chars(text);
    let mstart = marker_chars(Marker::RulesStart);
    let start = match find_sub(&v, &mstart, 0) {
        None => {
            return Err(ParseError::MissingMarker(Marker::RulesStart));
        },
        Some(p) => p,
    };
    let mend = marker_chars(Marker::RulesEnd);
    let endm = match find_sub(&v, &mend, start) {
        None => {
            return Err(ParseError::MissingMarker(Marker::RulesEnd));
        },
        Some(p) => p,
    };
    let region = subvec(&v, start, endm);
    let hs = scan_headers_vec(&region);
    let ghost hss = scan_headers(region@, 0);
    let mut rm = RuleMap::new();
    if hs.len() == 0 {
        return Ok(rm);
    }
    let mut k: usize = 0;
    while k + 1 < hs.len()
        invariant
            hs@.len() >= 1,
            k < hs@.len(),
            hss == hits_view(hs@),
            forall|m: int|
                0 <= m < hs@.len() ==> header_wf(#[trigger] hs@[m]@, region@.len() as int),
            forall|m: int|
                0 <= m && m + 1 < hs@.len() ==> (#[trigger] hs@[m]@).end <= hs@[m + 1]@.start,
            rules_wf(rm@),
            extract_rules_spec(text@) == build_rules(region@, hss, 0, Seq::<RuleView>::empty()),
            build_rules(region@, hss, 0, Seq::<RuleView>::empty()) == build_rules(
                region@,
                hss,
                k as int,
                rm@,
            ),
        decreases hs@.len() - k,
    {
        let span_end = hs[k + 1].start;
        proof {
            assert(hs@[k as int]@ == hss[k as int]);
            assert(hs@[k + 1]@ == hss[k + 1]);
        }
        match format_rule(&region, &hs[k], span_end) {
            Err(e) => {
                proof {
                    assert(build_rules(region@, hss, k as int, rm@) == Result::<
                        Seq<RuleView>,
                        ErrSpec,
                    >::Err(e@));
                }
                return Err(e);
            },
            Ok(rule) => {
                proof {
                    lemma_rules_insert_wf(rm@, rule@);
                    assert(build_rules(region@, hss, k as int, rm@) == build_rules(
                        region@,
                        hss,
                        k + 1,
                        rules_insert(rm@, rule@),
                    ));
                }
                rm.insert(rule);
            },
        }
        k += 1;
    }
    // the final article is delimited by the penalty summary, not a sibling
    let msum = marker_chars(Marker::EndOfRules);
    proof {
        assert(hs@[k as int]@ == hss[k as int]);
    }
    let e = match find_sub(&region, &msum, hs[k].end) {
        None => {
            proof {
                assert(build_rules(region@, hss, k as int, rm@) == Result::<
                    Seq<RuleView>,
                    ErrSpec,
                >::Err(ErrSpec::MissingMarker(Marker::EndOfRules)));
            }
            return Err(ParseError::MissingMarker(Marker::EndOfRules));
        },
        Some(p) => p,
    };
    match format_rule(&region, &hs[k], e) {
        Err(err) => {
            proof {
                assert(build_rules(region@, hss, k as int, rm@) == Result::<
                    Seq<RuleView>,
                    ErrSpec,
                >::Err(err@));
            }
            Err(err)
        },
        Ok(rule) => {
            proof {
                lemma_rules_insert_wf(rm@, rule@);
                assert(build_rules(region@, hss, k as int, rm@) == Result::<
                    Seq<RuleView>,
                    ErrSpec,
                >::Ok(rules_insert(rm@, rule@)));
            }
            rm.insert(rule);
            Ok(rm)
        },
    }
}

} // verus!
