//! The data model: article numbers, rules, interpretive rulings, the ordered
//! collections holding them, and the parse error taxonomy.

use vstd::prelude::*;

verus! {

use crate::text::{
    digits_val, find_from, is_digit_char, is_match, is_ws_char, lemma_find_from_is,
    lemma_find_from_is_none, lemma_is_match_single, small_val, trim_spec, trim_vec,
    ws_prefix_len, ws_suffix_len, chars_to_string, find_sub, is_digit, str_to_chars,
    parse_u8_run,
};

/// The hierarchical identifier of a rule article: chapter, section, article.
#[derive(Debug, Copy, Clone, Hash, PartialEq, Eq, Structural)]
pub struct ArticleNr(pub u8, pub u8, pub u8);

/// Which literal anchor was looked for and not found.
#[derive(Debug, Copy, Clone, PartialEq, Eq, Structural)]
pub enum Marker {
    /// The first article header, opening the rules region.
    RulesStart,
    /// The abbreviations note, closing the rules region.
    RulesEnd,
    /// The penalty summary, closing the final article.
    EndOfRules,
    /// The first interpretation record, opening the interpretations region.
    InterpretationsStart,
    /// The part heading closing the interpretations region.
    InterpretationsEnd,
}

/// The text of each literal anchor.
pub open spec fn marker_text(m: Marker) -> Seq<char> {
    match m {
        Marker::RulesStart => "Artikel 1.1.1"@,
        Marker::RulesEnd => "Die Abk\u{fc}rzungen R, Ab, Art stehen f\u{fc}r Regel,"@,
        Marker::EndOfRules => "Zusammenfassung der Strafen"@,
        Marker::InterpretationsStart => "\nA.R. 1.3.2.I "@,
        Marker::InterpretationsEnd => "Teil IV"@,
    }
}

/// The text of each literal anchor, as a character vector.
pub fn marker_chars(m: Marker) -> (v: Vec<char>)
    ensures
        v@ == marker_text(m),
{
    match m {
        Marker::RulesStart => str_to_chars("Artikel 1.1.1"),
        Marker::RulesEnd => str_to_chars("Die Abk\u{fc}rzungen R, Ab, Art stehen f\u{fc}r Regel,"),
        Marker::EndOfRules => str_to_chars("Zusammenfassung der Strafen"),
        Marker::InterpretationsStart => str_to_chars("\nA.R. 1.3.2.I "),
        Marker::InterpretationsEnd => str_to_chars("Teil IV"),
    }
}

/// Ghost mirror of [`ParseError`], with text payloads as sequences.
pub ghost enum ErrSpec {
    MissingMarker(Marker),
    NoNewlineAfterHeader,
    InvalidArticleNr(Seq<char>),
    InvalidRomanNumeral(Seq<char>),
    RuleNotFound(ArticleNr),
    PathPartsNotInteger,
    PathWrongPartCount,
}

/// Why a parse attempt failed. Every error is terminal: nothing is retried
/// and no partial result is returned.
#[derive(Debug, Clone, PartialEq, Eq)]
pub enum ParseError {
    /// A literal anchor string is absent from the text.
    MissingMarker(Marker),
    /// An article span ends on its header line, leaving no body to format.
    NoNewlineAfterHeader,
    /// A captured article number does not decompose into three byte-sized parts.
    InvalidArticleNr(String),
    /// A captured index token is no roman numeral a byte can hold.
    InvalidRomanNumeral(String),
    /// An interpretation's article number has no corresponding rule.
    RuleNotFound(ArticleNr),
    /// A path parameter part is not a byte-sized integer.
    PathPartsNotInteger,
    /// A path parameter does not consist of exactly three parts.
    PathWrongPartCount,
}

impl View for ParseError {
    type V = ErrSpec;

    open spec fn view(&self) -> ErrSpec {
        match self {
            ParseError::MissingMarker(m) => ErrSpec::MissingMarker(*m),
            ParseError::NoNewlineAfterHeader => ErrSpec::NoNewlineAfterHeader,
            ParseError::InvalidArticleNr(s) => ErrSpec::InvalidArticleNr(s@),
            ParseError::InvalidRomanNumeral(s) => ErrSpec::InvalidRomanNumeral(s@),
            ParseError::RuleNotFound(nr) => ErrSpec::RuleNotFound(*nr),
            ParseError::PathPartsNotInteger => ErrSpec::PathPartsNotInteger,
            ParseError::PathWrongPartCount => ErrSpec::PathWrongPartCount,
        }
    }
}

/// The diagnostic line for each error, naming the offending marker or the
/// raw captured text.
pub open spec fn err_msg_spec(e: ErrSpec) -> Seq<char> {
    match e {
        ErrSpec::MissingMarker(m) => "Could not find '"@ + marker_text(m)
            + "' inside the rulebook text"@,
        ErrSpec::NoNewlineAfterHeader => "No newline after header"@,
        ErrSpec::InvalidArticleNr(s) => "Invalid article number: "@ + s,
        ErrSpec::InvalidRomanNumeral(_) => "Invalid Roman number."@,
        ErrSpec::RuleNotFound(nr) => "Could not find rule "@ + nr_display_seq(nr),
        ErrSpec::PathPartsNotInteger => "Parts have to be integer"@,
        ErrSpec::PathWrongPartCount => "Parameter has to consist of three parts"@,
    }
}

impl ParseError {
    /// The diagnostic line for this error.
    pub fn message(&self) -> (r: String)
        ensures
            r@ == err_msg_spec(self@),
    {
        match self {
            ParseError::MissingMarker(m) => {
                let mut v = str_to_chars("Could not find '");
                let mk = marker_chars(*m);
                crate::text::extend_subvec(&mut v, &mk, 0, mk.len());
                let tail = str_to_chars("' inside the rulebook text");
                crate::text::extend_subvec(&mut v, &tail, 0, tail.len());
                proof {
                    assert(mk@.subrange(0, mk@.len() as int) =~= mk@);
                    assert(tail@.subrange(0, tail@.len() as int) =~= tail@);
                }
                chars_to_string(&v)
            },
            ParseError::NoNewlineAfterHeader => {
                let v = str_to_chars("No newline after header");
                chars_to_string(&v)
            },
            ParseError::InvalidArticleNr(s) => {
                let mut v = str_to_chars("Invalid article number: ");
                let raw = str_to_chars(s.as_str());
                crate::text::extend_subvec(&mut v, &raw, 0, raw.len());
                proof {
                    assert(raw@.subrange(0, raw@.len() as int) =~= raw@);
                }
                chars_to_string(&v)
            },
            ParseError::InvalidRomanNumeral(_) => {
                let v = str_to_chars("Invalid Roman number.");
                chars_to_string(&v)
            },
            ParseError::RuleNotFound(nr) => {
                let mut v = str_to_chars("Could not find rule ");
                let shown = str_to_chars(nr.to_display().as_str());
                crate::text::extend_subvec(&mut v, &shown, 0, shown.len());
                proof {
                    assert(shown@.subrange(0, shown@.len() as int) =~= shown@);
                }
                chars_to_string(&v)
            },
            ParseError::PathPartsNotInteger => {
                let v = str_to_chars("Parts have to be integer");
                chars_to_string(&v)
            },
            ParseError::PathWrongPartCount => {
                let v = str_to_chars("Parameter has to consist of three parts");
                chars_to_string(&v)
            },
        }
    }
}

/// The decimal digit character for `d`.
pub open spec fn dchar(d: int) -> char {
    ((48 + d) as u8) as char
}

/// The canonical decimal form of `n`: no sign, no leading zeros.
pub open spec fn dec_seq(n: u8) -> Seq<char> {
    if n >= 100 {
        seq![dchar(n as int / 100), dchar((n as int / 10) % 10), dchar(n as int % 10)]
    } else if n >= 10 {
        seq![dchar(n as int / 10), dchar(n as int % 10)]
    } else {
        seq![dchar(n as int)]
    }
}

/// The canonical dotted display form "chapter.section.article".
pub open spec fn nr_display_seq(nr: ArticleNr) -> Seq<char> {
    dec_seq(nr.0) + seq!['.'] + dec_seq(nr.1) + seq!['.'] + dec_seq(nr.2)
}

/// The canonical dashed path-parameter form "chapter-section-article".
pub open spec fn nr_path_seq(nr: ArticleNr) -> Seq<char> {
    dec_seq(nr.0) + seq!['-'] + dec_seq(nr.1) + seq!['-'] + dec_seq(nr.2)
}

/// The named destination of the article inside the rulebook document.
pub open spec fn nr_pdf_destination_seq(nr: ArticleNr) -> Seq<char> {
    if nr.2 != 0 {
        "subsection.1."@ + nr_display_seq(nr)
    } else {
        "section.1."@ + dec_seq(nr.0) + seq!['.'] + dec_seq(nr.1)
    }
}

/// The canonical decimal form of `n`, as a character vector.
pub fn u8_dec_chars(n: u8) -> (v: Vec<char>)
    ensures
        v@ == dec_seq(n),
{
    let mut v: Vec<char> = Vec::new();
    if n >= 100 {
        v.push((48 + n / 100) as char);
        v.push((48 + (n / 10) % 10) as char);
        v.push((48 + n % 10) as char);
    } else if n >= 10 {
        v.push((48 + n / 10) as char);
        v.push((48 + n % 10) as char);
    } else {
        v.push((48 + n) as char);
    }
    proof {
        assert(v@ =~= dec_seq(n));
    }
    v
}

/// `s` with every trailing dot removed.
pub open spec fn trim_trailing_dots(s: Seq<char>) -> Seq<char>
    decreases s.len(),
{
    if s.len() > 0 && s[s.len() - 1] == '.' {
        trim_trailing_dots(s.drop_last())
    } else {
        s
    }
}

/// The digit run `s[a..b]` read as a byte: `None` on an empty run, a
/// non-digit, or a value above 255.
pub open spec fn seg_u8(s: Seq<char>, a: int, b: int) -> Option<u8> {
    if a < b && 0 <= a && b <= s.len() && (forall|k: int| a <= k < b ==> is_digit_char(s[k])) {
        small_val(s, a, b)
    } else {
        None
    }
}

/// Reading of a dotted article number, as `ArticleNr::from_str` performs it:
/// surrounding whitespace and trailing dots are dropped, and the rest must be
/// exactly three dot-separated byte-sized digit groups.
pub open spec fn parse_article_nr(s: Seq<char>) -> Option<ArticleNr> {
    let t = trim_trailing_dots(trim_spec(s));
    match find_from(t, seq!['.'], 0) {
        Option::None => Option::None,
        Option::Some(j1) => match find_from(t, seq!['.'], j1 + 1) {
            Option::None => Option::None,
            Option::Some(j2) => if find_from(t, seq!['.'], j2 + 1) is Some {
                Option::None
            } else {
                match (seg_u8(t, 0, j1), seg_u8(t, j1 + 1, j2), seg_u8(t, j2 + 1, t.len() as int)) {
                    (Option::Some(c), Option::Some(m), Option::Some(a)) => Option::Some(
                        ArticleNr(c, m, a),
                    ),
                    _ => Option::None,
                }
            },
        },
    }
}

/// The up-to-three parts a path parameter splits into at its first two
/// dashes; a third dash is kept inside the final part.
pub open spec fn path_parts(s: Seq<char>) -> Seq<(int, int)> {
    match find_from(s, seq!['-'], 0) {
        Option::None => seq![(0int, s.len() as int)],
        Option::Some(j1) => match find_from(s, seq!['-'], j1 + 1) {
            Option::None => seq![(0int, j1), (j1 + 1, s.len() as int)],
            Option::Some(j2) => seq![(0int, j1), (j1 + 1, j2), (j2 + 1, s.len() as int)],
        },
    }
}

/// Reading of a dashed path parameter: split at the first two dashes, every
/// part must be a byte-sized digit group, and there must be exactly three.
pub open spec fn parse_path_param(s: Seq<char>) -> Result<ArticleNr, ErrSpec> {
    let ps = path_parts(s);
    if ps.len() == 1 {
        if seg_u8(s, ps[0].0, ps[0].1) is None {
            Result::Err(ErrSpec::PathPartsNotInteger)
        } else {
            Result::Err(ErrSpec::PathWrongPartCount)
        }
    } else if ps.len() == 2 {
        if seg_u8(s, ps[0].0, ps[0].1) is None || seg_u8(s, ps[1].0, ps[1].1) is None {
            Result::Err(ErrSpec::PathPartsNotInteger)
        } else {
            Result::Err(ErrSpec::PathWrongPartCount)
        }
    } else {
        match (seg_u8(s, ps[0].0, ps[0].1), seg_u8(s, ps[1].0, ps[1].1), seg_u8(
            s,
            ps[2].0,
            ps[2].1,
        )) {
            (Option::Some(c), Option::Some(m), Option::Some(a)) => Result::Ok(ArticleNr(c, m, a)),
            _ => Result::Err(ErrSpec::PathPartsNotInteger),
        }
    }
}

/// The digit run `v[a..b]` read as a byte, checking that it is one.
fn seg_val(v: &Vec<char>, a: usize, b: usize) -> (r: Option<u8>)
    requires
        a <= v@.len(),
        b <= v@.len(),
    ensures
        r == seg_u8(v@, a as int, b as int),
{
    if a >= b {
        return None;
    }
    let mut k: usize = a;
    while k < b
        invariant
            a <= k <= b <= v@.len(),
            forall|m: int| a <= m < k ==> is_digit_char(v@[m]),
        decreases b - k,
    {
        if !is_digit(v[k]) {
            return None;
        }
        k += 1;
    }
    parse_u8_run(v, a, b)
}

/// Read a dotted article number out of `chars`, as [`parse_article_nr`]
/// describes.
pub fn parse_article_nr_vec(chars: &Vec<char>) -> (r: Option<ArticleNr>)
    ensures
        r == parse_article_nr(chars@),
{
    {
        let mut t = trim_vec(chars);
        while t.len() > 0 && t[t.len() - 1] == '.'
            invariant
                trim_trailing_dots(trim_spec(chars@)) == trim_trailing_dots(t@),
            decreases t@.len(),
        {
            proof {
                assert(t@.drop_last() =~= t@.subrange(0, t@.len() - 1));
            }
            t.pop();
        }
        let err: Option<ArticleNr> = None;
        let dot = str_to_chars(".");
        proof {
            reveal_strlit(".");
            assert(dot@ =~= seq!['.']);
        }
        match find_sub(&t, &dot, 0) {
            None => err,
            Some(j1) => match find_sub(&t, &dot, j1 + 1) {
                None => err,
                Some(j2) => {
                    if find_sub(&t, &dot, j2 + 1).is_some() {
                        return err;
                    }
                    let c = seg_val(&t, 0, j1);
                    let m = seg_val(&t, j1 + 1, j2);
                    let a = seg_val(&t, j2 + 1, t.len());
                    match (c, m, a) {
                        (Some(c), Some(m), Some(a)) => Some(ArticleNr(c, m, a)),
                        _ => err,
                    }
                },
            },
        }
    }
}

impl ArticleNr {
    /// Parse the dotted display form, e.g. "9.1.4".
    pub fn from_str(s: &str) -> (r: Result<ArticleNr, ParseError>)
        ensures
            match r {
                Result::Ok(nr) => parse_article_nr(s@) == Some(nr),
                Result::Err(e) => parse_article_nr(s@) is None && e@ == ErrSpec::InvalidArticleNr(
                    s@,
                ),
            },
    {
        let chars = str_to_chars(s);
        match parse_article_nr_vec(&chars) {
            Some(nr) => Result::Ok(nr),
            None => Result::Err(ParseError::InvalidArticleNr(chars_to_string(&chars))),
        }
    }

    /// Parse the dashed path-parameter form, e.g. "9-1-4".
    pub fn from_path_paramter(path_parameter: String) -> (r: Result<ArticleNr, ParseError>)
        ensures
            match r {
                Result::Ok(nr) => parse_path_param(path_parameter@) == Result::<
                    ArticleNr,
                    ErrSpec,
                >::Ok(nr),
                Result::Err(e) => parse_path_param(path_parameter@) == Result::<
                    ArticleNr,
                    ErrSpec,
                >::Err(e@),
            },
    {
        let v = str_to_chars(path_parameter.as_str());
        let dash = str_to_chars("-");
        proof {
            reveal_strlit("-");
            assert(dash@ =~= seq!['-']);
        }
        let not_int = Result::Err(ParseError::PathPartsNotInteger);
        let wrong_count = Result::Err(ParseError::PathWrongPartCount);
        let n = v.len();
        match find_sub(&v, &dash, 0) {
            None => {
                if seg_val(&v, 0, n).is_none() {
                    not_int
                } else {
                    wrong_count
                }
            },
            Some(j1) => {
                proof {
                    assert(j1 + 1 <= v@.len());
                }
                match find_sub(&v, &dash, j1 + 1) {
                None => {
                    if seg_val(&v, 0, j1).is_none() || seg_val(&v, j1 + 1, n).is_none() {
                        not_int
                    } else {
                        wrong_count
                    }
                },
                Some(j2) => {
                    let c = seg_val(&v, 0, j1);
                    let m = seg_val(&v, j1 + 1, j2);
                    let a = seg_val(&v, j2 + 1, n);
                    match (c, m, a) {
                        (Some(c), Some(m), Some(a)) => Result::Ok(ArticleNr(c, m, a)),
                        _ => not_int,
                    }
                },
                }
            },
        }
    }

    /// The dotted display form "chapter.section.article".
    pub fn to_display(self) -> (r: String)
        ensures
            r@ == nr_display_seq(self),
    {
        let mut v = u8_dec_chars(self.0);
        v.push('.');
        let mut m = u8_dec_chars(self.1);
        let mut a = u8_dec_chars(self.2);
        crate::text::extend_subvec(&mut v, &m, 0, m.len());
        v.push('.');
        crate::text::extend_subvec(&mut v, &a, 0, a.len());
        proof {
            assert(m@.subrange(0, m@.len() as int) =~= m@);
            assert(a@.subrange(0, a@.len() as int) =~= a@);
            assert(v@ =~= nr_display_seq(self));
        }
        chars_to_string(&v)
    }

    /// The dashed path-parameter form "chapter-section-article".
    pub fn to_path_parameter(self) -> (r: String)
        ensures
            r@ == nr_path_seq(self),
    {
        let mut v = u8_dec_chars(self.0);
        v.push('-');
        let mut m = u8_dec_chars(self.1);
        let mut a = u8_dec_chars(self.2);
        crate::text::extend_subvec(&mut v, &m, 0, m.len());
        v.push('-');
        crate::text::extend_subvec(&mut v, &a, 0, a.len());
        proof {
            assert(m@.subrange(0, m@.len() as int) =~= m@);
            assert(a@.subrange(0, a@.len() as int) =~= a@);
            assert(v@ =~= nr_path_seq(self));
        }
        chars_to_string(&v)
    }

    /// The named destination of this article inside the rulebook document.
    pub fn to_pdf_destination(self) -> (r: String)
        ensures
            r@ == nr_pdf_destination_seq(self),
    {
        let mut v: Vec<char>;
        if self.2 != 0 {
            v = str_to_chars("subsection.1.");
            let mut c = u8_dec_chars(self.0);
            let mut m = u8_dec_chars(self.1);
            let mut a = u8_dec_chars(self.2);
            crate::text::extend_subvec(&mut v, &c, 0, c.len());
            v.push('.');
            crate::text::extend_subvec(&mut v, &m, 0, m.len());
            v.push('.');
            crate::text::extend_subvec(&mut v, &a, 0, a.len());
            proof {
                assert(c@.subrange(0, c@.len() as int) =~= c@);
                assert(m@.subrange(0, m@.len() as int) =~= m@);
                assert(a@.subrange(0, a@.len() as int) =~= a@);
                assert(v@ =~= nr_pdf_destination_seq(self));
            }
        } else {
            v = str_to_chars("section.1.");
            let mut c = u8_dec_chars(self.0);
            let mut m = u8_dec_chars(self.1);
            crate::text::extend_subvec(&mut v, &c, 0, c.len());
            v.push('.');
            crate::text::extend_subvec(&mut v, &m, 0, m.len());
            proof {
                assert(c@.subrange(0, c@.len() as int) =~= c@);
                assert(m@.subrange(0, m@.len() as int) =~= m@);
                assert(v@ =~= nr_pdf_destination_seq(self));
            }
        }
        chars_to_string(&v)
    }
}

/// The canonical decimal form of a byte is one to three decimal digits whose
/// value is the byte itself.
pub proof fn lemma_dec_seq(n: u8)
    ensures
        1 <= dec_seq(n).len() <= 3,
        forall|k: int| 0 <= k < dec_seq(n).len() ==> is_digit_char(#[trigger] dec_seq(n)[k]),
        digits_val(dec_seq(n)) == n,
{
    let d = dec_seq(n);
    assert(digits_val(Seq::<char>::empty()) == 0);
    if n >= 100 {
        let h = n as int / 100;
        let t = (n as int / 10) % 10;
        let o = n as int % 10;
        assert(seq![dchar(h)].drop_last() =~= Seq::<char>::empty());
        assert(digits_val(seq![dchar(h)]) == h);
        assert(seq![dchar(h), dchar(t)].drop_last() =~= seq![dchar(h)]);
        assert(digits_val(seq![dchar(h), dchar(t)]) == h * 10 + t);
        assert(d.drop_last() =~= seq![dchar(h), dchar(t)]);
        assert(digits_val(d) == (h * 10 + t) * 10 + o);
        vstd::arithmetic::div_mod::lemma_fundamental_div_mod(n as int, 10);
        vstd::arithmetic::div_mod::lemma_fundamental_div_mod(n as int / 10, 10);
        vstd::arithmetic::div_mod::lemma_div_denominator(n as int, 10, 10);
        assert((h * 10 + t) * 10 + o == n as int);
    } else if n >= 10 {
        let t = n as int / 10;
        let o = n as int % 10;
        assert(seq![dchar(t)].drop_last() =~= Seq::<char>::empty());
        assert(digits_val(seq![dchar(t)]) == t);
        assert(d.drop_last() =~= seq![dchar(t)]);
        assert(digits_val(d) == t * 10 + o);
        vstd::arithmetic::div_mod::lemma_fundamental_div_mod(n as int, 10);
        assert(t * 10 + o == n as int);
    } else {
        assert(d.drop_last() =~= Seq::<char>::empty());
    }
}

/// Parsing the canonical display string of any article number yields that
/// number back: the dotted form round-trips.
#[verifier::rlimit(50)]
pub proof fn lemma_display_round_trip(nr: ArticleNr)
    ensures
        parse_article_nr(nr_display_seq(nr)) == Some(nr),
{
    let t = nr_display_seq(nr);
    let d0 = dec_seq(nr.0);
    let d1 = dec_seq(nr.1);
    let d2 = dec_seq(nr.2);
    lemma_dec_seq(nr.0);
    lemma_dec_seq(nr.1);
    lemma_dec_seq(nr.2);
    let j1 = d0.len() as int;
    let j2 = j1 + 1 + d1.len();
    let n = t.len() as int;
    assert(n == d0.len() + d1.len() + d2.len() + 2);
    assert forall|k: int| 0 <= k < n implies is_digit_char(t[k]) || k == j1 || k == j2 by {
        if k < j1 {
            assert(t[k] == d0[k]);
        } else if j1 < k < j2 {
            assert(t[k] == d1[k - j1 - 1]);
        } else if j2 < k {
            assert(t[k] == d2[k - j2 - 1]);
        }
    }
    assert(t[j1] == '.');
    assert(t[j2] == '.');
    // every non-dot character is a digit, so trimming changes nothing
    assert(!is_ws_char(t[0]));
    assert(ws_prefix_len(t) == 0);
    assert(t[n - 1] == d2[d2.len() - 1]);
    assert(is_digit_char(t[n - 1]));
    assert(ws_suffix_len(t) == 0);
    assert(trim_spec(t) =~= t);
    assert(trim_trailing_dots(t) == t);
    // the two dots stand exactly where the groups end
    assert forall|k: int| 0 <= k < n && k != j1 && k != j2 implies !is_match(
        t,
        seq!['.'],
        k,
    ) by {
        lemma_is_match_single(t, '.', k);
        assert(is_digit_char(t[k]));
    }
    assert forall|k: int| n <= k implies !is_match(t, seq!['.'], k) by {
        lemma_is_match_single(t, '.', k);
    }
    lemma_is_match_single(t, '.', j1);
    lemma_is_match_single(t, '.', j2);
    lemma_find_from_is(t, seq!['.'], 0, j1);
    lemma_find_from_is(t, seq!['.'], j1 + 1, j2);
    lemma_find_from_is_none(t, seq!['.'], j2 + 1);
    // each group reads back as its component
    assert(t.subrange(0, j1) =~= d0);
    assert(t.subrange(j1 + 1, j2) =~= d1);
    assert(t.subrange(j2 + 1, n) =~= d2);
    assert forall|k: int| 0 <= k < j1 implies is_digit_char(t[k]) by {
        assert(t[k] == d0[k]);
    }
    assert forall|k: int| j1 + 1 <= k < j2 implies is_digit_char(t[k]) by {
        assert(t[k] == d1[k - j1 - 1]);
    }
    assert forall|k: int| j2 + 1 <= k < n implies is_digit_char(t[k]) by {
        assert(t[k] == d2[k - j2 - 1]);
    }
    assert(seg_u8(t, 0, j1) == Some(nr.0));
    assert(seg_u8(t, j1 + 1, j2) == Some(nr.1));
    assert(seg_u8(t, j2 + 1, n) == Some(nr.2));
}

/// Parsing the canonical path string of any article number yields that
/// number back: the dashed form round-trips.
#[verifier::rlimit(50)]
pub proof fn lemma_path_round_trip(nr: ArticleNr)
    ensures
        parse_path_param(nr_path_seq(nr)) == Result::<ArticleNr, ErrSpec>::Ok(nr),
{
    let t = nr_path_seq(nr);
    let d0 = dec_seq(nr.0);
    let d1 = dec_seq(nr.1);
    let d2 = dec_seq(nr.2);
    lemma_dec_seq(nr.0);
    lemma_dec_seq(nr.1);
    lemma_dec_seq(nr.2);
    let j1 = d0.len() as int;
    let j2 = j1 + 1 + d1.len();
    let n = t.len() as int;
    assert(n == d0.len() + d1.len() + d2.len() + 2);
    assert(t[j1] == '-');
    assert(t[j2] == '-');
    assert forall|k: int| 0 <= k < n && k != j1 && k != j2 implies is_digit_char(t[k])
        && !is_match(t, seq!['-'], k) by {
        if k < j1 {
            assert(t[k] == d0[k]);
        } else if j1 < k < j2 {
            assert(t[k] == d1[k - j1 - 1]);
        } else {
            assert(t[k] == d2[k - j2 - 1]);
        }
        lemma_is_match_single(t, '-', k);
    }
    lemma_is_match_single(t, '-', j1);
    lemma_is_match_single(t, '-', j2);
    lemma_find_from_is(t, seq!['-'], 0, j1);
    lemma_find_from_is(t, seq!['-'], j1 + 1, j2);
    assert(t.subrange(0, j1) =~= d0);
    assert(t.subrange(j1 + 1, j2) =~= d1);
    assert(t.subrange(j2 + 1, n) =~= d2);
    assert(seg_u8(t, 0, j1) == Some(nr.0));
    assert(seg_u8(t, j1 + 1, j2) == Some(nr.1));
    assert(seg_u8(t, j2 + 1, n) == Some(nr.2));
}

/// Ghost mirror of [`RuleInterpretation`].
pub ghost struct InterpretationView {
    pub article_nr: ArticleNr,
    pub index: u8,
    pub text: Seq<char>,
    pub ruling: Seq<char>,
}

/// One interpretive ruling: a situation and the ruling on it, keyed by the
/// owning article number and a per-article index recovered from a roman
/// numeral.
#[derive(Debug, Clone, Hash, PartialEq, Eq)]
pub struct RuleInterpretation {
    pub article_nr: ArticleNr,
    pub index: u8,
    pub text: String,
    pub ruling: String,
}

impl View for RuleInterpretation {
    type V = InterpretationView;

    open spec fn view(&self) -> InterpretationView {
        InterpretationView {
            article_nr: self.article_nr,
            index: self.index,
            text: self.text@,
            ruling: self.ruling@,
        }
    }
}

/// The views of a sequence of interpretations.
pub open spec fn interps_view(s: Seq<RuleInterpretation>) -> Seq<InterpretationView> {
    s.map_values(|x: RuleInterpretation| x@)
}

/// Ghost mirror of [`Rule`].
pub ghost struct RuleView {
    pub article_nr: ArticleNr,
    pub title: Seq<char>,
    pub text: Seq<char>,
    pub interpretations: Seq<InterpretationView>,
}

/// One rule article: its number, title, canonical tab-indented body text,
/// and the interpretations attached to it by the assembler.
#[derive(Debug, Clone, Hash, PartialEq, Eq)]
pub struct Rule {
    pub article_nr: ArticleNr,
    pub title: String,
    pub text: String,
    pub interpretations: Vec<RuleInterpretation>,
}

impl View for Rule {
    type V = RuleView;

    open spec fn view(&self) -> RuleView {
        RuleView {
            article_nr: self.article_nr,
            title: self.title@,
            text: self.text@,
            interpretations: interps_view(self.interpretations@),
        }
    }
}

/// The first line of `s`: up to the first newline, with a carriage return
/// dropped from its end, as `str::lines` yields it.
pub open spec fn first_line_spec(s: Seq<char>) -> Seq<char> {
    let e = match find_from(s, seq!['\n'], 0) {
        Option::Some(j) => j,
        Option::None => s.len() as int,
    };
    let l = s.take(e);
    if l.len() > 0 && l[l.len() - 1] == '\r' {
        l.drop_last()
    } else {
        l
    }
}

/// The teaser for a rule: the first fifty characters of the first body line,
/// followed by an ellipsis.
pub open spec fn desc_spec(s: Seq<char>) -> Seq<char> {
    let l = first_line_spec(s);
    (if l.len() > 50 {
        l.take(50)
    } else {
        l
    }) + "..."@
}

impl Rule {
    /// The teaser shown for this rule in feeds and messages.
    pub fn to_description(&self) -> (r: String)
        requires
            self.text@.len() >= 1,
        ensures
            r@ == desc_spec(self.text@),
    {
        let v = str_to_chars(self.text.as_str());
        let nl = str_to_chars("\n");
        proof {
            reveal_strlit("\n");
            assert(nl@ =~= seq!['\n']);
        }
        let e = match find_sub(&v, &nl, 0) {
            Some(j) => j,
            None => v.len(),
        };
        let mut line = crate::text::subvec(&v, 0, e);
        if line.len() > 0 && line[line.len() - 1] == '\r' {
            proof {
                assert(line@.drop_last() =~= line@.subrange(0, line@.len() - 1));
            }
            line.pop();
        }
        if line.len() > 50 {
            line = crate::text::subvec(&line, 0, 50);
        }
        let dots = str_to_chars("...");
        crate::text::extend_subvec(&mut line, &dots, 0, dots.len());
        proof {
            assert(dots@.subrange(0, dots@.len() as int) =~= dots@);
            assert(line@ =~= desc_spec(self.text@));
        }
        chars_to_string(&line)
    }

    /// The full title: article number in display form, a space, the title.
    pub fn to_title(&self) -> (r: String)
        ensures
            r@ == nr_display_seq(self.article_nr) + " "@ + self.title@,
    {
        let mut v = str_to_chars(self.article_nr.to_display().as_str());
        v.push(' ');
        let t = str_to_chars(self.title.as_str());
        crate::text::extend_subvec(&mut v, &t, 0, t.len());
        proof {
            reveal_strlit(" ");
            assert(t@.subrange(0, t@.len() as int) =~= t@);
            assert(v@ =~= nr_display_seq(self.article_nr) + " "@ + self.title@);
        }
        chars_to_string(&v)
    }

    /// The page address of this rule under `base_url`.
    pub fn to_url(&self, base_url: &str) -> (r: String)
        ensures
            r@ == base_url@ + "/rule/"@ + nr_path_seq(self.article_nr),
    {
        let mut v = str_to_chars(base_url);
        let mid = str_to_chars("/rule/");
        crate::text::extend_subvec(&mut v, &mid, 0, mid.len());
        let p = str_to_chars(self.article_nr.to_path_parameter().as_str());
        crate::text::extend_subvec(&mut v, &p, 0, p.len());
        proof {
            assert(mid@.subrange(0, mid@.len() as int) =~= mid@);
            assert(p@.subrange(0, p@.len() as int) =~= p@);
            assert(v@ =~= base_url@ + "/rule/"@ + nr_path_seq(self.article_nr));
        }
        chars_to_string(&v)
    }
}

/// Index of the first rule carrying `nr`, or -1.
pub open spec fn first_index_with_nr(rs: Seq<RuleView>, nr: ArticleNr) -> int
    decreases rs.len(),
{
    if rs.len() == 0 {
        -1
    } else if rs[0].article_nr == nr {
        0
    } else {
        let r = first_index_with_nr(rs.drop_first(), nr);
        if r < 0 {
            -1
        } else {
            r + 1
        }
    }
}

/// Whether some rule in `rs` carries `nr`.
pub open spec fn rules_contain_nr(rs: Seq<RuleView>, nr: ArticleNr) -> bool {
    first_index_with_nr(rs, nr) >= 0
}

pub proof fn lemma_first_index_with_nr(rs: Seq<RuleView>, nr: ArticleNr)
    ensures
        first_index_with_nr(rs, nr) >= 0 ==> first_index_with_nr(rs, nr) < rs.len()
            && rs[first_index_with_nr(rs, nr)].article_nr == nr,
        forall|k: int| 0 <= k < first_index_with_nr(rs, nr) ==> rs[k].article_nr != nr,
        first_index_with_nr(rs, nr) == -1 ==> forall|k: int|
            0 <= k < rs.len() ==> rs[k].article_nr != nr,
        first_index_with_nr(rs, nr) >= -1,
    decreases rs.len(),
{
    if rs.len() > 0 && rs[0].article_nr != nr {
        lemma_first_index_with_nr(rs.drop_first(), nr);
        assert forall|k: int| 0 <= k < rs.len() && first_index_with_nr(rs, nr) == -1 implies rs[k].article_nr
            != nr by {
            if k > 0 {
                assert(rs.drop_first()[k - 1] == rs[k]);
            }
        }
        assert forall|k: int| 0 <= k < first_index_with_nr(rs, nr) implies rs[k].article_nr
            != nr by {
            if k > 0 {
                assert(rs.drop_first()[k - 1] == rs[k]);
            }
        }
    }
}

/// Insertion as the segmenter performs it: a rule with a fresh number is
/// appended, one with a known number replaces the entry in place.
pub open spec fn rules_insert(rs: Seq<RuleView>, r: RuleView) -> Seq<RuleView> {
    let i = first_index_with_nr(rs, r.article_nr);
    if i >= 0 {
        rs.update(i, r)
    } else {
        rs.push(r)
    }
}

/// All article numbers in `rs` are distinct.
pub open spec fn rules_wf(rs: Seq<RuleView>) -> bool {
    forall|i: int, j: int|
        0 <= i < j < rs.len() ==> #[trigger] rs[i].article_nr != #[trigger] rs[j].article_nr
}

pub proof fn lemma_rules_insert_wf(rs: Seq<RuleView>, r: RuleView)
    requires
        rules_wf(rs),
    ensures
        rules_wf(rules_insert(rs, r)),
{
    lemma_first_index_with_nr(rs, r.article_nr);
    let out = rules_insert(rs, r);
    let i = first_index_with_nr(rs, r.article_nr);
    if i >= 0 {
        assert forall|a: int, b: int| 0 <= a < b < out.len() implies out[a].article_nr
            != out[b].article_nr by {
            if a != i && b != i {
                assert(out[a] == rs[a] && out[b] == rs[b]);
            } else if a == i {
                assert(out[b] == rs[b]);
                assert(rs[i].article_nr == r.article_nr);
            } else {
                assert(out[a] == rs[a]);
                assert(rs[i].article_nr == r.article_nr);
            }
        }
    } else {
        assert forall|a: int, b: int| 0 <= a < b < out.len() implies out[a].article_nr
            != out[b].article_nr by {
            if b == rs.len() {
                assert(out[a] == rs[a]);
            } else {
                assert(out[a] == rs[a] && out[b] == rs[b]);
            }
        }
    }
}

/// The ordered collection of rules, in document order, at most one per
/// article number. Insertion order is kept; inserting a number a second
/// time replaces the earlier rule in place.
#[derive(Debug, Clone, PartialEq, Eq)]
pub struct RuleMap {
    rules: Vec<Rule>,
}

impl View for RuleMap {
    type V = Seq<RuleView>;

    closed spec fn view(&self) -> Seq<RuleView> {
        self.rules@.map_values(|r: Rule| r@)
    }
}

impl RuleMap {
    /// The empty collection.
    pub fn new() -> (r: RuleMap)
        ensures
            r@ == Seq::<RuleView>::empty(),
            rules_wf(r@),
    {
        let r = RuleMap { rules: Vec::new() };
        proof {
            assert(r@ =~= Seq::<RuleView>::empty());
        }
        r
    }

    /// How many rules are held.
    pub fn len(&self) -> (n: usize)
        ensures
            n == self@.len(),
    {
        self.rules.len()
    }

    /// The rule at position `i`, in document order.
    pub fn index(&self, i: usize) -> (r: &Rule)
        requires
            i < self@.len(),
        ensures
            r@ == self@[i as int],
    {
        &self.rules[i]
    }

    /// Position of the rule carrying `nr`, if any.
    pub fn position(&self, nr: &ArticleNr) -> (r: Option<usize>)
        ensures
            match r {
                Some(i) => i == first_index_with_nr(self@, *nr),
                None => first_index_with_nr(self@, *nr) == -1,
            },
    {
        proof {
            lemma_first_index_with_nr(self@, *nr);
        }
        let mut i: usize = 0;
        while i < self.rules.len()
            invariant
                i <= self@.len(),
                forall|k: int| 0 <= k < i ==> self@[k].article_nr != *nr,
            decreases self@.len() - i,
        {
            if self.rules[i].article_nr == *nr {
                proof {
                    lemma_first_index_pinned(self@, *nr, i as int);
                }
                return Some(i);
            }
            i += 1;
        }
        None
    }

    /// The rule carrying `nr`, if any.
    pub fn get(&self, nr: &ArticleNr) -> (r: Option<&Rule>)
        ensures
            match r {
                Some(rule) => rules_contain_nr(self@, *nr) && rule@ == self@[first_index_with_nr(
                    self@,
                    *nr,
                )],
                None => !rules_contain_nr(self@, *nr),
            },
    {
        match self.position(nr) {
            Some(i) => {
                proof {
                    lemma_first_index_with_nr(self@, *nr);
                }
                Some(&self.rules[i])
            },
            None => None,
        }
    }

    /// Insert `rule` under its own article number, replacing in place any
    /// rule already carrying that number.
    pub fn insert(&mut self, rule: Rule)
        ensures
            final(self)@ == rules_insert(old(self)@, rule@),
    {
        let pos = self.position(&rule.article_nr);
        proof {
            lemma_first_index_with_nr(old(self)@, rule.article_nr);
        }
        match pos {
            Some(i) => {
                self.rules.remove(i);
                self.rules.insert(i, rule);
                proof {
                    assert(self@ =~= rules_insert(old(self)@, rule@));
                }
            },
            None => {
                self.rules.push(rule);
                proof {
                    assert(self@ =~= rules_insert(old(self)@, rule@));
                }
            },
        }
    }

    /// Replace the interpretations of the rule carrying `nr`. Returns
    /// whether such a rule was found; nothing changes when none is.
    pub fn set_interpretations(&mut self, nr: &ArticleNr, interps: Vec<RuleInterpretation>) -> (r:
        bool)
        ensures
            r == rules_contain_nr(old(self)@, *nr),
            r ==> final(self)@ == old(self)@.update(
                first_index_with_nr(old(self)@, *nr),
                (RuleView {
                    interpretations: interps_view(interps@),
                    ..old(self)@[first_index_with_nr(old(self)@, *nr)]
                }),
            ),
            !r ==> final(self)@ == old(self)@,
    {
        let pos = self.position(nr);
        proof {
            lemma_first_index_with_nr(old(self)@, *nr);
        }
        match pos {
            Some(i) => {
                let mut rule = self.rules.remove(i);
                rule.interpretations = interps;
                self.rules.insert(i, rule);
                proof {
                    assert(self@ =~= old(self)@.update(
                        first_index_with_nr(old(self)@, *nr),
                        (RuleView {
                            interpretations: interps_view(interps@),
                            ..old(self)@[first_index_with_nr(old(self)@, *nr)]
                        }),
                    ));
                }
                true
            },
            None => false,
        }
    }
}

/// A prefix free of `nr` together with a hit at its end pins the first
/// index down.
pub proof fn lemma_first_index_pinned(rs: Seq<RuleView>, nr: ArticleNr, i: int)
    requires
        0 <= i < rs.len(),
        rs[i].article_nr == nr,
        forall|k: int| 0 <= k < i ==> rs[k].article_nr != nr,
    ensures
        first_index_with_nr(rs, nr) == i,
    decreases rs.len(),
{
    if rs[0].article_nr != nr {
        assert(rs.drop_first()[i - 1] == rs[i]);
        assert forall|k: int| 0 <= k < i - 1 implies rs.drop_first()[k].article_nr != nr by {
            assert(rs.drop_first()[k] == rs[k + 1]);
        }
        lemma_first_index_pinned(rs.drop_first(), nr, i - 1);
    }
}

/// Ghost mirror of [`InterpretationGroup`].
pub ghost struct GroupView {
    pub article_nr: ArticleNr,
    pub items: Seq<InterpretationView>,
}

/// The interpretations of one article, in document order.
#[derive(Debug, Clone, PartialEq, Eq)]
pub struct InterpretationGroup {
    pub article_nr: ArticleNr,
    pub items: Vec<RuleInterpretation>,
}

impl View for InterpretationGroup {
    type V = GroupView;

    open spec fn view(&self) -> GroupView {
        GroupView { article_nr: self.article_nr, items: interps_view(self.items@) }
    }
}

/// Index of the first group carrying `nr`, or -1.
pub open spec fn first_group_with_nr(gs: Seq<GroupView>, nr: ArticleNr) -> int
    decreases gs.len(),
{
    if gs.len() == 0 {
        -1
    } else if gs[0].article_nr == nr {
        0
    } else {
        let r = first_group_with_nr(gs.drop_first(), nr);
        if r < 0 {
            -1
        } else {
            r + 1
        }
    }
}

pub proof fn lemma_first_group_with_nr(gs: Seq<GroupView>, nr: ArticleNr)
    ensures
        first_group_with_nr(gs, nr) >= 0 ==> first_group_with_nr(gs, nr) < gs.len()
            && gs[first_group_with_nr(gs, nr)].article_nr == nr,
        forall|k: int| 0 <= k < first_group_with_nr(gs, nr) ==> gs[k].article_nr != nr,
        first_group_with_nr(gs, nr) == -1 ==> forall|k: int|
            0 <= k < gs.len() ==> gs[k].article_nr != nr,
        first_group_with_nr(gs, nr) >= -1,
    decreases gs.len(),
{
    if gs.len() > 0 && gs[0].article_nr != nr {
        lemma_first_group_with_nr(gs.drop_first(), nr);
        assert forall|k: int| 0 <= k < gs.len() && first_group_with_nr(gs, nr) == -1 implies gs[k].article_nr
            != nr by {
            if k > 0 {
                assert(gs.drop_first()[k - 1] == gs[k]);
            }
        }
        assert forall|k: int| 0 <= k < first_group_with_nr(gs, nr) implies gs[k].article_nr
            != nr by {
            if k > 0 {
                assert(gs.drop_first()[k - 1] == gs[k]);
            }
        }
    }
}

/// Appending one interpretation: to its article's group if one exists,
/// else in a fresh group at the end.
pub open spec fn groups_append(gs: Seq<GroupView>, nr: ArticleNr, iv: InterpretationView) -> Seq<
    GroupView,
> {
    let i = first_group_with_nr(gs, nr);
    if i >= 0 {
        gs.update(i, (GroupView { article_nr: nr, items: gs[i].items.push(iv) }))
    } else {
        gs.push(GroupView { article_nr: nr, items: seq![iv] })
    }
}

/// The ordered collection of extracted interpretations, grouped by article
/// number, groups and items both in document order.
#[derive(Debug, Clone, PartialEq, Eq)]
pub struct InterpretationMap {
    groups: Vec<InterpretationGroup>,
}

impl View for InterpretationMap {
    type V = Seq<GroupView>;

    closed spec fn view(&self) -> Seq<GroupView> {
        self.groups@.map_values(|g: InterpretationGroup| g@)
    }
}

impl InterpretationMap {
    /// The empty collection.
    pub fn new() -> (r: InterpretationMap)
        ensures
            r@ == Seq::<GroupView>::empty(),
    {
        let r = InterpretationMap { groups: Vec::new() };
        proof {
            assert(r@ =~= Seq::<GroupView>::empty());
        }
        r
    }

    /// How many article numbers have interpretations.
    pub fn len(&self) -> (n: usize)
        ensures
            n == self@.len(),
    {
        self.groups.len()
    }

    /// The group at position `i`, in document order.
    pub fn index(&self, i: usize) -> (r: &InterpretationGroup)
        requires
            i < self@.len(),
        ensures
            r@ == self@[i as int],
    {
        &self.groups[i]
    }

    /// Position of the group carrying `nr`, if any.
    fn position(&self, nr: &ArticleNr) -> (r: Option<usize>)
        ensures
            match r {
                Some(i) => i == first_group_with_nr(self@, *nr),
                None => first_group_with_nr(self@, *nr) == -1,
            },
    {
        proof {
            lemma_first_group_with_nr(self@, *nr);
        }
        let mut i: usize = 0;
        while i < self.groups.len()
            invariant
                i <= self@.len(),
                forall|k: int| 0 <= k < i ==> self@[k].article_nr != *nr,
            decreases self@.len() - i,
        {
            if self.groups[i].article_nr == *nr {
                proof {
                    lemma_first_group_pinned(self@, *nr, i as int);
                }
                return Some(i);
            }
            i += 1;
        }
        None
    }

    /// The groups, in document order, giving up the collection.
    pub fn into_groups(self) -> (r: Vec<InterpretationGroup>)
        ensures
            r@.map_values(|g: InterpretationGroup| g@) == self@,
    {
        self.groups
    }

    /// Append one interpretation to its article's group, in document order.
    pub fn append(&mut self, interp: RuleInterpretation)
        ensures
            final(self)@ == groups_append(old(self)@, interp.article_nr, interp@),
    {
        let nr = interp.article_nr;
        let pos = self.position(&nr);
        proof {
            lemma_first_group_with_nr(old(self)@, nr);
        }
        let ghost old_groups = self.groups@;
        match pos {
            Some(i) => {
                let ghost gold = old_groups[i as int];
                let mut g = self.groups.remove(i);
                g.items.push(interp);
                self.groups.insert(i, g);
                proof {
                    assert(self.groups@ =~= old_groups.update(i as int, g));
                    assert(interps_view(gold.items@.push(interp)) =~= interps_view(
                        gold.items@,
                    ).push(interp@));
                    assert forall|k: int| 0 <= k < self@.len() implies self@[k] == groups_append(
                        old(self)@,
                        nr,
                        interp@,
                    )[k] by {}
                    assert(self@ =~= groups_append(old(self)@, nr, interp@));
                }
            },
            None => {
                let mut items: Vec<RuleInterpretation> = Vec::new();
                items.push(interp);
                self.groups.push(InterpretationGroup { article_nr: nr, items });
                proof {
                    assert(interps_view(seq![interp]) =~= seq![interp@]);
                    assert(self@ =~= groups_append(old(self)@, nr, interp@));
                }
            },
        }
    }
}

/// A prefix free of `nr` together with a hit at its end pins the first
/// group down.
pub proof fn lemma_first_group_pinned(gs: Seq<GroupView>, nr: ArticleNr, i: int)
    requires
        0 <= i < gs.len(),
        gs[i].article_nr == nr,
        forall|k: int| 0 <= k < i ==> gs[k].article_nr != nr,
    ensures
        first_group_with_nr(gs, nr) == i,
    decreases gs.len(),
{
    if gs[0].article_nr != nr {
        assert(gs.drop_first()[i - 1] == gs[i]);
        assert forall|k: int| 0 <= k < i - 1 implies gs.drop_first()[k].article_nr != nr by {
            assert(gs.drop_first()[k] == gs[k + 1]);
        }
        lemma_first_group_pinned(gs.drop_first(), nr, i - 1);
    }
}

} // verus!
