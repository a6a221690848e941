//! Verified primitives over character sequences: substring matching,
//! leftmost search, literal replacement, whitespace trimming and digit
//! handling. All higher parsing stages are built on these.

use vstd::prelude::*;

verus! {

use vstd::std_specs::iter::IteratorSpec;

/// The pattern `p` occurs in `s` starting at index `i`.
pub open spec fn is_match(s: Seq<char>, p: Seq<char>, i: int) -> bool {
    &&& 0 <= i
    &&& i + p.len() <= s.len()
    &&& forall|k: int| 0 <= k < p.len() ==> s[i + k] == p[k]
}

/// Index of the leftmost occurrence of `p` in `s` at or after `i`.
pub open spec fn find_from(s: Seq<char>, p: Seq<char>, i: int) -> Option<int>
    decreases s.len() - i,
{
    if i < 0 {
        None
    } else if i + p.len() > s.len() {
        None
    } else if is_match(s, p, i) {
        Some(i)
    } else {
        find_from(s, p, i + 1)
    }
}

/// What a `Some` result of `find_from` means: a match at the index, none before.
pub proof fn lemma_find_from_some(s: Seq<char>, p: Seq<char>, i: int, j: int)
    requires
        0 <= i <= s.len(),
        find_from(s, p, i) == Some(j),
    ensures
        i <= j,
        is_match(s, p, j),
        forall|k: int| i <= k < j ==> !is_match(s, p, k),
    decreases s.len() - i,
{
    if i + p.len() > s.len() {
    } else if is_match(s, p, i) {
    } else {
        lemma_find_from_some(s, p, i + 1, j);
    }
}

/// What a `None` result of `find_from` means: no match anywhere at or after `i`.
pub proof fn lemma_find_from_none(s: Seq<char>, p: Seq<char>, i: int)
    requires
        0 <= i <= s.len(),
        find_from(s, p, i) is None,
    ensures
        forall|k: int| i <= k ==> !is_match(s, p, k),
    decreases s.len() - i,
{
    if i + p.len() > s.len() {
        assert forall|k: int| i <= k implies !is_match(s, p, k) by {}
    } else if is_match(s, p, i) {
    } else {
        lemma_find_from_none(s, p, i + 1);
    }
}

/// A match at `j` with none before it pins the search result down.
pub proof fn lemma_find_from_is(s: Seq<char>, p: Seq<char>, i: int, j: int)
    requires
        0 <= i <= j,
        is_match(s, p, j),
        forall|k: int| i <= k < j ==> !is_match(s, p, k),
    ensures
        find_from(s, p, i) == Some(j),
    decreases j - i,
{
    if i < j {
        lemma_find_from_is(s, p, i + 1, j);
    }
}

/// No match anywhere at or after `i` makes the search come up empty.
pub proof fn lemma_find_from_is_none(s: Seq<char>, p: Seq<char>, i: int)
    requires
        0 <= i,
        forall|k: int| i <= k ==> !is_match(s, p, k),
    ensures
        find_from(s, p, i) is None,
    decreases s.len() - i,
{
    if i + p.len() <= s.len() {
        lemma_find_from_is_none(s, p, i + 1);
    }
}

/// Matching a one-character pattern is the same as comparing one character.
pub proof fn lemma_is_match_single(s: Seq<char>, c: char, k: int)
    ensures
        is_match(s, seq![c], k) == (0 <= k && k < s.len() && s[k] == c),
{
    let p = seq![c];
    assert(p.len() == 1);
    assert(p[0] == c);
    if 0 <= k && k < s.len() {
        if s[k] == c {
            assert forall|m: int| 0 <= m < p.len() implies s[k + m] == p[m] by {
                assert(m == 0);
            }
            assert(is_match(s, p, k));
        } else {
            if is_match(s, p, k) {
                assert(s[k + 0] == p[0]);
            }
        }
    } else {
        if is_match(s, p, k) {
            assert(0 <= k && k + 1 <= s.len());
        }
    }
}

/// Skipping over non-matching positions does not change the search result.
pub proof fn lemma_find_from_skip(s: Seq<char>, p: Seq<char>, a: int, b: int)
    requires
        0 <= a <= b <= s.len(),
        forall|k: int| a <= k < b ==> !is_match(s, p, k),
    ensures
        find_from(s, p, a) == find_from(s, p, b),
    decreases b - a,
{
    if a < b {
        lemma_find_from_skip(s, p, a + 1, b);
    }
}

/// Whether `p` occurs in `v` starting exactly at `i`.
pub fn match_at(v: &Vec<char>, p: &Vec<char>, i: usize) -> (r: bool)
    ensures
        r == is_match(v@, p@, i as int),
{
    if i > v.len() || p.len() > v.len() - i {
        return false;
    }
    let mut k: usize = 0;
    while k < p.len()
        invariant
            i + p.len() <= v.len(),
            k <= p.len(),
            forall|m: int| 0 <= m < k ==> v@[i + m] == p@[m],
        decreases p.len() - k,
    {
        if v[i + k] != p[k] {
            return false;
        }
        k += 1;
    }
    true
}

/// Leftmost occurrence of `p` in `v` at or after `from`.
pub fn find_sub(v: &Vec<char>, p: &Vec<char>, from: usize) -> (r: Option<usize>)
    requires
        from <= v@.len(),
    ensures
        match r {
            Some(j) => from <= j && j + p@.len() <= v@.len() && find_from(v@, p@, from as int)
                == Some(j as int),
            None => find_from(v@, p@, from as int) is None,
        },
{
    let mut i: usize = from;
    loop
        invariant
            from <= i <= v@.len(),
            find_from(v@, p@, from as int) == find_from(v@, p@, i as int),
        decreases v@.len() - i,
    {
        if p.len() > v.len() - i {
            return None;
        }
        if match_at(v, p, i) {
            return Some(i);
        }
        proof {
            lemma_find_from_skip(v@, p@, i as int, i + 1);
        }
        i += 1;
    }
}

/// Copy of `v[a..b]`.
pub fn subvec(v: &Vec<char>, a: usize, b: usize) -> (r: Vec<char>)
    requires
        a <= b <= v@.len(),
    ensures
        r@ == v@.subrange(a as int, b as int),
{
    let mut r: Vec<char> = Vec::new();
    let mut i: usize = a;
    while i < b
        invariant
            a <= i <= b <= v@.len(),
            r@ == v@.subrange(a as int, i as int),
        decreases b - i,
    {
        r.push(v[i]);
        i += 1;
        proof {
            assert(r@ =~= v@.subrange(a as int, i as int));
        }
    }
    r
}

/// Append a copy of `v[a..b]` to `out`.
pub fn extend_subvec(out: &mut Vec<char>, v: &Vec<char>, a: usize, b: usize)
    requires
        a <= b <= v@.len(),
    ensures
        final(out)@ == old(out)@ + v@.subrange(a as int, b as int),
{
    let mut i: usize = a;
    while i < b
        invariant
            a <= i <= b <= v@.len(),
            out@ == old(out)@ + v@.subrange(a as int, i as int),
        decreases b - i,
    {
        out.push(v[i]);
        i += 1;
        proof {
            assert(out@ =~= old(out)@ + v@.subrange(a as int, i as int));
        }
    }
}

/// The characters of `s`, in order, as a vector.
pub fn str_to_chars(s: &str) -> (r: Vec<char>)
    ensures
        r@ == s@,
{
    let mut r: Vec<char> = Vec::new();
    let mut it = s.chars();
    loop
        invariant
            r@ + it.remaining() == s@,
            it.decrease() is Some,
        decreases it.decrease()->0,
    {
        let next = it.next();
        match next {
            Some(c) => {
                r.push(c);
                proof {
                    assert(r@ + it.remaining() =~= s@);
                }
            },
            None => {
                proof {
                    assert(r@ =~= s@);
                }
                return r;
            },
        }
    }
}

/// Relies on `String::push`: appends one character to the string.
#[verifier::external_body]
fn string_push(s: &mut String, c: char)
    ensures
        final(s)@ == old(s)@.push(c),
{
    s.push(c)
}

/// The characters of `v`, in order, as a `String`.
pub fn chars_to_string(v: &Vec<char>) -> (r: String)
    ensures
        r@ == v@,
{
    let mut r = String::new();
    let mut i: usize = 0;
    while i < v.len()
        invariant
            i <= v@.len(),
            r@ == v@.subrange(0, i as int),
        decreases v@.len() - i,
    {
        string_push(&mut r, v[i]);
        i += 1;
        proof {
            assert(r@ =~= v@.subrange(0, i as int));
        }
    }
    proof {
        assert(r@ =~= v@);
    }
    r
}

/// Every occurrence of `p` in `s` replaced by `r`, scanning left to right.
pub open spec fn replace_lit_from(s: Seq<char>, p: Seq<char>, r: Seq<char>, i: int) -> Seq<char>
    decreases s.len() - i,
        when 0 <= i && p.len() >= 1
{
    if i >= s.len() {
        Seq::empty()
    } else if is_match(s, p, i) {
        r + replace_lit_from(s, p, r, i + p.len())
    } else {
        seq![s[i]] + replace_lit_from(s, p, r, i + 1)
    }
}

pub open spec fn replace_lit(s: Seq<char>, p: Seq<char>, r: Seq<char>) -> Seq<char> {
    replace_lit_from(s, p, r, 0)
}

/// Executable form of [`replace_lit`].
pub fn replace_lit_vec(v: &Vec<char>, p: &Vec<char>, r: &Vec<char>) -> (out: Vec<char>)
    requires
        p@.len() >= 1,
    ensures
        out@ == replace_lit(v@, p@, r@),
{
    let mut out: Vec<char> = Vec::new();
    let mut i: usize = 0;
    while i < v.len()
        invariant
            0 <= i <= v@.len(),
            p@.len() >= 1,
            replace_lit(v@, p@, r@) == out@ + replace_lit_from(v@, p@, r@, i as int),
        decreases v@.len() - i,
    {
        if match_at(v, p, i) {
            extend_subvec(&mut out, r, 0, r.len());
            proof {
                assert(r@.subrange(0, r@.len() as int) =~= r@);
            }
            i += p.len();
        } else {
            out.push(v[i]);
            i += 1;
        }
    }
    proof {
        assert(out@ + replace_lit_from(v@, p@, r@, i as int) =~= out@);
    }
    out
}

/// The characters Rust's `char::is_whitespace` accepts.
pub open spec fn is_ws_char(c: char) -> bool {
    let u = c as u32;
    ||| (9 <= u && u <= 13)
    ||| u == 32
    ||| u == 0x85
    ||| u == 0xA0
    ||| u == 0x1680
    ||| (0x2000 <= u && u <= 0x200A)
    ||| u == 0x2028
    ||| u == 0x2029
    ||| u == 0x202F
    ||| u == 0x205F
    ||| u == 0x3000
}

/// Executable form of [`is_ws_char`].
pub fn is_ws(c: char) -> (r: bool)
    ensures
        r == is_ws_char(c),
{
    let u = c as u32;
    (9 <= u && u <= 13) || u == 32 || u == 0x85 || u == 0xA0 || u == 0x1680
        || (0x2000 <= u && u <= 0x200A) || u == 0x2028 || u == 0x2029 || u == 0x202F
        || u == 0x205F || u == 0x3000
}

/// Length of the leading whitespace run of `s`.
pub open spec fn ws_prefix_len(s: Seq<char>) -> int
    decreases s.len(),
{
    if s.len() == 0 {
        0
    } else if is_ws_char(s[0]) {
        1 + ws_prefix_len(s.drop_first())
    } else {
        0
    }
}

/// Length of the trailing whitespace run of `s`.
pub open spec fn ws_suffix_len(s: Seq<char>) -> int
    decreases s.len(),
{
    if s.len() == 0 {
        0
    } else if is_ws_char(s[s.len() - 1]) {
        1 + ws_suffix_len(s.drop_last())
    } else {
        0
    }
}

pub proof fn lemma_ws_prefix_le_len(s: Seq<char>)
    ensures
        0 <= ws_prefix_len(s) <= s.len(),
        forall|k: int| 0 <= k < ws_prefix_len(s) ==> is_ws_char(s[k]),
        ws_prefix_len(s) < s.len() ==> !is_ws_char(s[ws_prefix_len(s)]),
    decreases s.len(),
{
    if s.len() > 0 && is_ws_char(s[0]) {
        lemma_ws_prefix_le_len(s.drop_first());
        assert forall|k: int| 0 <= k < ws_prefix_len(s) implies is_ws_char(s[k]) by {
            if k > 0 {
                assert(s.drop_first()[k - 1] == s[k]);
            }
        }
    }
}

pub proof fn lemma_ws_suffix_le_len(s: Seq<char>)
    ensures
        0 <= ws_suffix_len(s) <= s.len(),
        forall|k: int| s.len() - ws_suffix_len(s) <= k < s.len() ==> is_ws_char(s[k]),
        ws_suffix_len(s) < s.len() ==> !is_ws_char(s[s.len() - 1 - ws_suffix_len(s)]),
    decreases s.len(),
{
    if s.len() > 0 && is_ws_char(s[s.len() - 1]) {
        lemma_ws_suffix_le_len(s.drop_last());
        assert forall|k: int| s.len() - ws_suffix_len(s) <= k < s.len() implies is_ws_char(
            s[k],
        ) by {
            if k < s.len() - 1 {
                assert(s.drop_last()[k] == s[k]);
            }
        }
    }
}

/// `s` with leading and trailing whitespace removed, as `str::trim` does.
pub open spec fn trim_spec(s: Seq<char>) -> Seq<char> {
    let a = ws_prefix_len(s);
    let b = s.len() - ws_suffix_len(s);
    if a < b {
        s.subrange(a, b)
    } else {
        Seq::empty()
    }
}

/// Executable form of [`trim_spec`].
pub fn trim_vec(v: &Vec<char>) -> (out: Vec<char>)
    ensures
        out@ == trim_spec(v@),
{
    let mut a: usize = 0;
    while a < v.len() && is_ws(v[a])
        invariant
            a <= v@.len(),
            forall|k: int| 0 <= k < a ==> is_ws_char(v@[k]),
        decreases v@.len() - a,
    {
        a += 1;
    }
    let mut b: usize = v.len();
    while b > a && is_ws(v[b - 1])
        invariant
            a <= b <= v@.len(),
            forall|k: int| b <= k < v@.len() ==> is_ws_char(v@[k]),
            forall|k: int| 0 <= k < a ==> is_ws_char(v@[k]),
            a == v@.len() || !is_ws_char(v@[a as int]),
        decreases b,
    {
        b -= 1;
    }
    proof {
        lemma_ws_prefix_count(v@, a as int);
        if a < b {
            lemma_ws_suffix_count(v@, b as int);
        } else {
            // every character is whitespace, so the trim is empty
            lemma_ws_prefix_le_len(v@);
            lemma_ws_suffix_le_len(v@);
        }
    }
    subvec(v, a, b)
}

/// If the first `a` characters are whitespace and the one at `a` (if any) is
/// not, then `a` is the leading-whitespace run length.
proof fn lemma_ws_prefix_count(s: Seq<char>, a: int)
    requires
        0 <= a <= s.len(),
        forall|k: int| 0 <= k < a ==> is_ws_char(s[k]),
        a == s.len() || !is_ws_char(s[a]),
    ensures
        ws_prefix_len(s) == a,
    decreases s.len(),
{
    if s.len() > 0 && is_ws_char(s[0]) {
        assert(a >= 1);
        lemma_ws_prefix_count(s.drop_first(), a - 1);
    }
}

/// If the characters from `b` on are whitespace and the one at `b - 1`
/// (if any) is not, then the trailing run has length `s.len() - b`.
proof fn lemma_ws_suffix_count(s: Seq<char>, b: int)
    requires
        0 <= b <= s.len(),
        forall|k: int| b <= k < s.len() ==> is_ws_char(s[k]),
        b == 0 || !is_ws_char(s[b - 1]),
    ensures
        ws_suffix_len(s) == s.len() - b,
    decreases s.len(),
{
    if s.len() > 0 && is_ws_char(s[s.len() - 1]) {
        assert(b < s.len());
        lemma_ws_suffix_count(s.drop_last(), b);
    }
}

/// Decimal digit.
pub open spec fn is_digit_char(c: char) -> bool {
    48 <= c as u32 && c as u32 <= 57
}

/// Executable form of [`is_digit_char`].
pub fn is_digit(c: char) -> (r: bool)
    ensures
        r == is_digit_char(c),
{
    let u = c as u32;
    48 <= u && u <= 57
}

/// Lower-case ASCII letter.
pub open spec fn is_lower_char(c: char) -> bool {
    97 <= c as u32 && c as u32 <= 122
}

/// Executable form of [`is_lower_char`].
pub fn is_lower(c: char) -> (r: bool)
    ensures
        r == is_lower_char(c),
{
    let u = c as u32;
    97 <= u && u <= 122
}

/// End of the digit run beginning at `i`: the first index at or after `i`
/// holding no decimal digit.
pub open spec fn digit_run_end(s: Seq<char>, i: int) -> int
    decreases s.len() - i,
        when 0 <= i
{
    if i >= s.len() {
        i
    } else if is_digit_char(s[i]) {
        digit_run_end(s, i + 1)
    } else {
        i
    }
}

/// Executable form of [`digit_run_end`].
pub fn digit_run_end_vec(v: &Vec<char>, i: usize) -> (r: usize)
    requires
        i <= v@.len(),
    ensures
        r == digit_run_end(v@, i as int),
        i <= r <= v@.len(),
{
    let mut j: usize = i;
    while j < v.len() && is_digit(v[j])
        invariant
            i <= j <= v@.len(),
            digit_run_end(v@, i as int) == digit_run_end(v@, j as int),
        decreases v@.len() - j,
    {
        j += 1;
    }
    j
}

/// Value of a digit string read in base ten.
pub open spec fn digits_val(d: Seq<char>) -> int
    decreases d.len(),
{
    if d.len() == 0 {
        0
    } else {
        digits_val(d.drop_last()) * 10 + (d[d.len() - 1] as u32 - 48)
    }
}

pub proof fn lemma_digits_val_nonneg(d: Seq<char>)
    requires
        forall|k: int| 0 <= k < d.len() ==> is_digit_char(d[k]),
    ensures
        digits_val(d) >= 0,
    decreases d.len(),
{
    if d.len() > 0 {
        lemma_digits_val_nonneg(d.drop_last());
    }
}

/// Value of the digit run `v[a..b]` if it does not exceed `u8::MAX`.
pub open spec fn small_val(s: Seq<char>, a: int, b: int) -> Option<u8> {
    let d = s.subrange(a, b);
    if digits_val(d) <= 255 {
        Some(digits_val(d) as u8)
    } else {
        None
    }
}

/// Parse the digit run `v[a..b]` as a `u8`, detecting overflow.
pub fn parse_u8_run(v: &Vec<char>, a: usize, b: usize) -> (r: Option<u8>)
    requires
        a <= b <= v@.len(),
        forall|k: int| a <= k < b ==> is_digit_char(v@[k]),
    ensures
        r == small_val(v@, a as int, b as int),
{
    let mut i: usize = a;
    let mut val: u32 = 0;
    proof {
        assert(v@.subrange(a as int, a as int) =~= Seq::<char>::empty());
    }
    while i < b
        invariant
            a <= i <= b <= v@.len(),
            forall|k: int| a <= k < b ==> is_digit_char(v@[k]),
            digits_val(v@.subrange(a as int, i as int)) <= 255 ==> val == digits_val(
                v@.subrange(a as int, i as int),
            ),
            digits_val(v@.subrange(a as int, i as int)) > 255 ==> val == 256,
            val <= 256,
        decreases b - i,
    {
        let ghost pre = v@.subrange(a as int, i as int);
        let d = (v[i] as u32) - 48;
        proof {
            assert(v@.subrange(a as int, i + 1).drop_last() =~= pre);
            lemma_digits_val_nonneg(pre);
        }
        if val <= 255 {
            val = val * 10 + d;
            if val > 255 {
                val = 256;
            }
        }
        i += 1;
    }
    proof {
        assert(v@.subrange(a as int, b as int) =~= v@.subrange(a as int, i as int));
    }
    if val <= 255 {
        Some(val as u8)
    } else {
        None
    }
}

/// Whether two character vectors hold the same text.
pub fn eq_chars(a: &Vec<char>, b: &Vec<char>) -> (r: bool)
    ensures
        r == (a@ == b@),
{
    if a.len() != b.len() {
        return false;
    }
    let mut k: usize = 0;
    while k < a.len()
        invariant
            a@.len() == b@.len(),
            k <= a@.len(),
            forall|m: int| 0 <= m < k ==> a@[m] == b@[m],
        decreases a@.len() - k,
    {
        if a[k] != b[k] {
            return false;
        }
        k += 1;
    }
    proof {
        assert(a@ =~= b@);
    }
    true
}

/// Position `i` starts a line: it is the start of the text or follows a
/// newline.
pub open spec fn at_line_start(s: Seq<char>, i: int) -> bool {
    i == 0 || (0 < i <= s.len() && s[i - 1] == '\n')
}

/// One collapse step applies at `i` when a line starts with `head` there
/// and `end` occurs later: the span from `head` up to and including that
/// first `end` is rewritten to a newline followed by `end` alone.
pub open spec fn collapse_at(s: Seq<char>, head: Seq<char>, end: Seq<char>, i: int) -> Option<
    int,
> {
    if at_line_start(s, i) && is_match(s, head, i) {
        match find_from(s, end, i + head.len()) {
            Option::Some(j) => Option::Some(j + end.len()),
            Option::None => Option::None,
        }
    } else {
        Option::None
    }
}

/// The heading-collapse rewrite: every span that starts a line with `head`
/// and runs to the next occurrence of `end` becomes a newline followed by
/// `end`; scanning resumes after the consumed `end`.
pub open spec fn collapse_from(s: Seq<char>, head: Seq<char>, end: Seq<char>, i: int) -> Seq<
    char,
>
    decreases s.len() - i,
{
    if i < 0 || i >= s.len() {
        Seq::empty()
    } else {
        match collapse_at(s, head, end, i) {
            Option::Some(e) => if i < e <= s.len() {
                seq!['\n'] + end + collapse_from(s, head, end, e)
            } else {
                seq![s[i]] + collapse_from(s, head, end, i + 1)
            },
            Option::None => seq![s[i]] + collapse_from(s, head, end, i + 1),
        }
    }
}

/// No position of `t` admits a collapse step: no line starts with `head`
/// and sees `end` anywhere after it.
pub open spec fn no_collapse_point(t: Seq<char>, head: Seq<char>, end: Seq<char>) -> bool {
    forall|p: int| !(#[trigger] collapse_at(t, head, end, p) is Some)
}

/// Over a stretch without collapse steps the rewrite copies the text.
pub proof fn lemma_collapse_prefix(s: Seq<char>, head: Seq<char>, end: Seq<char>, i: int, j: int)
    requires
        0 <= i <= j <= s.len(),
        forall|k: int| i <= k < j ==> !(#[trigger] collapse_at(s, head, end, k) is Some),
    ensures
        collapse_from(s, head, end, i) == s.subrange(i, j) + collapse_from(s, head, end, j),
    decreases j - i,
{
    if i < j {
        lemma_collapse_prefix(s, head, end, i + 1, j);
        assert(seq![s[i]] + (s.subrange(i + 1, j) + collapse_from(s, head, end, j)) =~= s.subrange(
            i,
            j,
        ) + collapse_from(s, head, end, j));
    } else {
        assert(s.subrange(i, i) + collapse_from(s, head, end, i) =~= collapse_from(
            s,
            head,
            end,
            i,
        ));
    }
}

/// A text without collapse steps is a fixed point of the rewrite.
pub proof fn lemma_collapse_fixpoint(s: Seq<char>, head: Seq<char>, end: Seq<char>)
    requires
        no_collapse_point(s, head, end),
    ensures
        collapse_from(s, head, end, 0) == s,
{
    lemma_collapse_prefix(s, head, end, 0, s.len() as int);
    assert(s.subrange(0, s.len() as int) + collapse_from(s, head, end, s.len() as int) =~= s);
}

/// The shape of `head` and `end` that the collapse proofs need: both are
/// free of newlines and differ within their common length, so neither is
/// a prefix of the other and neither hides inside the inserted text.
pub open spec fn collapse_sides_ok(head: Seq<char>, end: Seq<char>) -> bool {
    &&& head.len() >= 1
    &&& end.len() >= 1
    &&& (forall|k: int| 0 <= k < head.len() ==> head[k] != '\n')
    &&& (forall|k: int| 0 <= k < end.len() ==> end[k] != '\n')
    &&& (exists|d: int| 0 <= d < head.len() && d < end.len() && head[d] != end[d])
}

/// A collapse step could fire at `p` of `t`: `head` stands at a line
/// start (position 0 counting as one when `ls0` says so) with `end`
/// somewhere after it.
pub open spec fn collapse_step_possible(
    t: Seq<char>,
    head: Seq<char>,
    end: Seq<char>,
    p: int,
    ls0: bool,
) -> bool {
    &&& (if p == 0 {
        ls0
    } else {
        at_line_start(t, p)
    })
    &&& is_match(t, head, p)
    &&& (exists|q: int| p + head.len() <= q && is_match(t, end, q))
}

/// A newline-free stretch at the front of the rewrite's output is copied
/// input: no collapse step fired inside it.
proof fn lemma_collapse_clean_prefix(
    s: Seq<char>,
    head: Seq<char>,
    end: Seq<char>,
    i: int,
    m: int,
)
    requires
        collapse_sides_ok(head, end),
        0 <= i <= s.len(),
        0 <= m <= collapse_from(s, head, end, i).len(),
        forall|k: int| 0 <= k < m ==> #[trigger] collapse_from(s, head, end, i)[k] != '\n',
    ensures
        i + m <= s.len(),
        forall|k: int| 0 <= k < m ==> #[trigger] collapse_from(s, head, end, i)[k] == s[i + k],
        forall|k: int| i <= k < i + m ==> !(#[trigger] collapse_at(s, head, end, k) is Some),
    decreases m,
{
    let out = collapse_from(s, head, end, i);
    if m > 0 {
        assert(out.len() > 0);
        assert(i < s.len());
        match collapse_at(s, head, end, i) {
            Option::Some(e) => {
                if i < e <= s.len() {
                    assert(out[0] == '\n');
                    assert(false);
                } else {
                    // a collapse step always lands inside the text
                    assert(at_line_start(s, i) && is_match(s, head, i));
                    let j = find_from(s, end, i + head.len())->0;
                    lemma_find_from_some(s, end, i + head.len(), j);
                    assert(false);
                }
            },
            Option::None => {
                let rest = collapse_from(s, head, end, i + 1);
                assert(out == seq![s[i]] + rest);
                assert forall|k: int| 0 <= k < m - 1 implies #[trigger] rest[k] != '\n' by {
                    assert(out[k + 1] == rest[k]);
                }
                lemma_collapse_clean_prefix(s, head, end, i + 1, m - 1);
                assert forall|k: int| 0 <= k < m implies #[trigger] out[k] == s[i + k] by {
                    if k > 0 {
                        assert(out[k] == rest[k - 1]);
                        assert(rest[k - 1] == s[i + 1 + (k - 1)]);
                    }
                }
            },
        }
    }
}

/// After one collapse pass no further step can fire anywhere: the pass
/// reaches a fixed point in a single run.
#[verifier::rlimit(100)]
pub proof fn lemma_collapse_no_second(s: Seq<char>, head: Seq<char>, end: Seq<char>, i: int)
    requires
        collapse_sides_ok(head, end),
        0 <= i,
    ensures
        forall|p: int|
            !#[trigger] collapse_step_possible(
                collapse_from(s, head, end, i),
                head,
                end,
                p,
                at_line_start(s, i),
            ),
    decreases s.len() - i,
{
    let out = collapse_from(s, head, end, i);
    let ls0 = at_line_start(s, i);
    let hlen = head.len() as int;
    let elen = end.len() as int;
    if i >= s.len() {
        assert forall|p: int| !#[trigger] collapse_step_possible(out, head, end, p, ls0) by {
            if collapse_step_possible(out, head, end, p, ls0) {
                assert(is_match(out, head, p));
                assert(p + hlen <= out.len());
            }
        }
    } else {
        match collapse_at(s, head, end, i) {
            Option::Some(e) => {
                assert(at_line_start(s, i) && is_match(s, head, i));
                let j = find_from(s, end, i + hlen)->0;
                lemma_find_from_some(s, end, i + hlen, j);
                assert(e == j + elen);
                assert(i < e <= s.len());
                let rest = collapse_from(s, head, end, e);
                assert(out == seq!['\n'] + end + rest);
                assert(s[e - 1] == end[elen - 1]);
                assert(!at_line_start(s, e));
                lemma_collapse_no_second(s, head, end, e);
                assert forall|p: int| !#[trigger] collapse_step_possible(
                    out,
                    head,
                    end,
                    p,
                    ls0,
                ) by {
                    if collapse_step_possible(out, head, end, p, ls0) {
                        assert(is_match(out, head, p));
                        if p == 0 {
                            assert(out[0] == head[0]);
                            assert(out[0] == '\n');
                        } else if p == 1 {
                            let d = choose|d: int|
                                0 <= d < head.len() && d < end.len() && head[d] != end[d];
                            assert(out[1 + d] == end[d]);
                            assert(out[1 + d] == head[d]);
                        } else if p <= 1 + elen {
                            assert(at_line_start(out, p));
                            assert(out[p - 1] == end[p - 2]);
                        } else {
                            let pr = p - 1 - elen;
                            assert(out[p - 1] == rest[pr - 1]);
                            assert(at_line_start(rest, pr));
                            assert forall|k: int| 0 <= k < hlen implies rest[pr + k] == head[k] by {
                                assert(out[p + k] == rest[pr + k]);
                                assert(out[p + k] == head[k]);
                            }
                            assert(is_match(rest, head, pr));
                            let q = choose|q: int| p + hlen <= q && is_match(out, end, q);
                            let qr = q - 1 - elen;
                            assert forall|k: int| 0 <= k < elen implies rest[qr + k] == end[k] by {
                                assert(out[q + k] == rest[qr + k]);
                                assert(out[q + k] == end[k]);
                            }
                            assert(is_match(rest, end, qr));
                            assert(pr + hlen <= qr);
                            assert(collapse_step_possible(rest, head, end, pr, at_line_start(s, e)));
                        }
                    }
                }
            },
            Option::None => {
                let rest = collapse_from(s, head, end, i + 1);
                assert(out == seq![s[i]] + rest);
                lemma_collapse_no_second(s, head, end, i + 1);
                assert forall|p: int| !#[trigger] collapse_step_possible(
                    out,
                    head,
                    end,
                    p,
                    ls0,
                ) by {
                    if collapse_step_possible(out, head, end, p, ls0) {
                        assert(is_match(out, head, p));
                        if p >= 1 {
                            let pr = p - 1;
                            if pr == 0 {
                                assert(out[0] == s[i]);
                                assert(at_line_start(s, i + 1) == (s[i] == '\n'));
                            } else {
                                assert(out[p - 1] == rest[pr - 1]);
                            }
                            assert forall|k: int| 0 <= k < hlen implies rest[pr + k] == head[k] by {
                                assert(out[p + k] == rest[pr + k]);
                                assert(out[p + k] == head[k]);
                            }
                            assert(is_match(rest, head, pr));
                            let q = choose|q: int| p + hlen <= q && is_match(out, end, q);
                            let qr = q - 1;
                            assert forall|k: int| 0 <= k < elen implies rest[qr + k] == end[k] by {
                                assert(out[q + k] == rest[qr + k]);
                                assert(out[q + k] == end[k]);
                            }
                            assert(is_match(rest, end, qr));
                            assert(collapse_step_possible(
                                rest,
                                head,
                                end,
                                pr,
                                at_line_start(s, i + 1),
                            ));
                        } else {
                            // p == 0 with the piece standing at a line start: the
                            // head would have to be copied input, but then the
                            // step would already have fired in the first pass
                            assert(ls0);
                            assert forall|k: int| 0 <= k < hlen implies #[trigger] out[k]
                                != '\n' by {
                                assert(out[k] == head[k]);
                            }
                            lemma_collapse_clean_prefix(s, head, end, i, hlen);
                            assert forall|k: int| 0 <= k < hlen implies s[i + k] == head[k] by {
                                assert(out[k] == s[i + k]);
                                assert(out[k] == head[k]);
                            }
                            assert(is_match(s, head, i));
                            assert(find_from(s, end, i + hlen) is None);
                            lemma_find_from_none(s, end, i + hlen);
                            assert forall|k: int| i <= k implies !(#[trigger] collapse_at(
                                s,
                                head,
                                end,
                                k,
                            ) is Some) by {
                                if collapse_at(s, head, end, k) is Some {
                                    let j = find_from(s, end, k + hlen)->0;
                                    lemma_find_from_some(s, end, k + hlen, j);
                                    assert(is_match(s, end, j));
                                    assert(i + hlen <= j);
                                }
                            }
                            lemma_collapse_prefix(s, head, end, i, s.len() as int);
                            assert(out =~= s.subrange(i, s.len() as int));
                            let q = choose|q: int| p + hlen <= q && is_match(out, end, q);
                            assert forall|k: int| 0 <= k < elen implies s[i + q + k] == end[k] by {
                                assert(out[q + k] == s[i + q + k]);
                                assert(out[q + k] == end[k]);
                            }
                            assert(is_match(s, end, i + q));
                            assert(i + hlen <= i + q);
                        }
                    }
                }
            },
        }
    }
}

/// The heading-collapse rewrite is idempotent: running it a second time on
/// its own output changes nothing.
pub proof fn lemma_collapse_idempotent(s: Seq<char>, head: Seq<char>, end: Seq<char>)
    requires
        collapse_sides_ok(head, end),
    ensures
        collapse_from(collapse_from(s, head, end, 0), head, end, 0) == collapse_from(
            s,
            head,
            end,
            0,
        ),
{
    let out = collapse_from(s, head, end, 0);
    lemma_collapse_no_second(s, head, end, 0);
    assert forall|p: int| !(#[trigger] collapse_at(out, head, end, p) is Some) by {
        if collapse_at(out, head, end, p) is Some {
            assert(at_line_start(out, p) && is_match(out, head, p));
            let j = find_from(out, end, p + head.len())->0;
            lemma_find_from_some(out, end, p + head.len(), j);
            assert(is_match(out, end, j));
            assert(collapse_step_possible(out, head, end, p, at_line_start(s, 0)));
        }
    }
    lemma_collapse_fixpoint(out, head, end);
}

/// Every character of the rewrite's output comes from the input, from the
/// inserted newline, or from `end` itself.
pub proof fn lemma_collapse_chars(s: Seq<char>, head: Seq<char>, end: Seq<char>, i: int, c: char)
    requires
        forall|k: int| 0 <= k < s.len() ==> s[k] != c,
        forall|k: int| 0 <= k < end.len() ==> end[k] != c,
        c != '\n',
    ensures
        forall|k: int|
            0 <= k < collapse_from(s, head, end, i).len() ==> #[trigger] collapse_from(
                s,
                head,
                end,
                i,
            )[k] != c,
    decreases s.len() - i,
{
    if 0 <= i < s.len() {
        let out = collapse_from(s, head, end, i);
        match collapse_at(s, head, end, i) {
            Option::Some(e) => {
                if i < e <= s.len() {
                    lemma_collapse_chars(s, head, end, e, c);
                    assert forall|k: int| 0 <= k < out.len() implies #[trigger] out[k] != c by {
                        if k >= 1 + end.len() {
                            assert(out[k] == collapse_from(s, head, end, e)[k - 1 - end.len()]);
                        } else if k >= 1 {
                            assert(out[k] == end[k - 1]);
                        }
                    }
                } else {
                    lemma_collapse_chars(s, head, end, i + 1, c);
                    assert forall|k: int| 0 <= k < out.len() implies #[trigger] out[k] != c by {
                        if k >= 1 {
                            assert(out[k] == collapse_from(s, head, end, i + 1)[k - 1]);
                        }
                    }
                }
            },
            Option::None => {
                lemma_collapse_chars(s, head, end, i + 1, c);
                assert forall|k: int| 0 <= k < out.len() implies #[trigger] out[k] != c by {
                    if k >= 1 {
                        assert(out[k] == collapse_from(s, head, end, i + 1)[k - 1]);
                    }
                }
            },
        }
    }
}

/// Executable form of [`collapse_from`], over the whole text.
pub fn collapse_vec(v: &Vec<char>, head: &Vec<char>, end: &Vec<char>) -> (out: Vec<char>)
    requires
        head@.len() >= 1,
        end@.len() >= 1,
    ensures
        out@ == collapse_from(v@, head@, end@, 0),
{
    let ghost s = v@;
    let mut out: Vec<char> = Vec::new();
    let mut i: usize = 0;
    while i < v.len()
        invariant
            0 <= i <= v@.len(),
            head@.len() >= 1,
            end@.len() >= 1,
            s == v@,
            collapse_from(s, head@, end@, 0) == out@ + collapse_from(s, head@, end@, i as int),
        decreases v@.len() - i,
    {
        let ghost out0 = out@;
        let line_start = i == 0 || v[i - 1] == '\n';
        if line_start && match_at(v, head, i) {
            match find_sub(v, end, i + head.len()) {
                Some(j) => {
                    proof {
                        assert(collapse_at(s, head@, end@, i as int) == Some(
                            j + end@.len() as int,
                        ));
                        assert(collapse_from(s, head@, end@, i as int) == seq!['\n'] + end@
                            + collapse_from(s, head@, end@, j + end@.len()));
                    }
                    out.push('\n');
                    extend_subvec(&mut out, end, 0, end.len());
                    proof {
                        assert(end@.subrange(0, end@.len() as int) =~= end@);
                        assert(out@ + collapse_from(s, head@, end@, j + end@.len()) =~= out0
                            + collapse_from(s, head@, end@, i as int));
                    }
                    i = j + end.len();
                },
                None => {
                    proof {
                        assert(collapse_at(s, head@, end@, i as int) is None);
                        assert(collapse_from(s, head@, end@, i as int) == seq![s[i as int]]
                            + collapse_from(s, head@, end@, i + 1));
                    }
                    out.push(v[i]);
                    proof {
                        assert(out@ + collapse_from(s, head@, end@, i + 1) =~= out0
                            + collapse_from(s, head@, end@, i as int));
                    }
                    i += 1;
                },
            }
        } else {
            proof {
                assert(collapse_at(s, head@, end@, i as int) is None);
                assert(collapse_from(s, head@, end@, i as int) == seq![s[i as int]]
                    + collapse_from(s, head@, end@, i + 1));
            }
            out.push(v[i]);
            proof {
                assert(out@ + collapse_from(s, head@, end@, i + 1) =~= out0 + collapse_from(
                    s,
                    head@,
                    end@,
                    i as int,
                ));
            }
            i += 1;
        }
    }
    out
}

} // verus!
