//! Supplementary normalization (zł, %, &, abbreviations, clock times, quotes), done BEFORE the phonemizer.
//! The phonemizer itself reads numbers (nominative only). The abbreviation list holds only expansions that do not
//! inflect: "ul." or "tzw." would need gender and case.
//!
//! Each rule is a pattern tried at every position from left to right. A match that the rule's context test
//! rejects is skipped by one character (so matches that begin inside it are still found, e.g. "000%" in
//! "tzn.1 000%"); an accepted match is replaced and the scan goes on after it. Digits inside the patterns are ASCII
//! only; the context tests use Unicode word characters and decimal digits.

use vstd::prelude::*;

use crate::chars::{
    ascii_digit, decimal_digit, from_chars, is_ascii_digit, is_digit, is_white_space, is_word,
    lemma_skip_ws, push_range, push_str, skip_ws, to_chars, trim, trim_chars, white_space, word_char,
};

verus! {

/// A rule's answer at a position: where the match ends and what replaces it.
pub type Step = Option<(int, Seq<char>)>;

/// The text from `p` on, with every match of `rule` replaced, scanning from left to right.
pub open spec fn rewrite(s: Seq<char>, p: int, rule: spec_fn(Seq<char>, int) -> Step) -> Seq<char>
    decreases s.len() - p,
{
    if p < 0 || p >= s.len() {
        Seq::empty()
    } else {
        match rule(s, p) {
            Some((end, rep)) => {
                if p < end <= s.len() {
                    rep + rewrite(s, end, rule)
                } else {
                    seq![s[p]] + rewrite(s, p + 1, rule)
                }
            },
            None => seq![s[p]] + rewrite(s, p + 1, rule),
        }
    }
}

pub open spec fn step_view(o: Option<(usize, Vec<char>)>) -> Step {
    match o {
        Some((e, r)) => Some((e as int, r@)),
        None => None,
    }
}

/// Runs a rule over the whole text.
pub(crate) fn rewrite_exec<F: Fn(&Vec<char>, usize) -> Option<(usize, Vec<char>)>>(
    s: &Vec<char>,
    rule: F,
    Ghost(sr): Ghost<spec_fn(Seq<char>, int) -> Step>,
) -> (r: Vec<char>)
    requires
        forall|p: usize| p < s.len() ==> rule.requires((s, p)),
        forall|p: usize, o: Option<(usize, Vec<char>)>|
            p < s.len() && #[trigger] rule.ensures((s, p), o) ==> step_view(o) == sr(s@, p as int),
    ensures
        r@ == rewrite(s@, 0, sr),
{
    let n = s.len();
    let mut out: Vec<char> = Vec::new();
    let mut p: usize = 0;
    while p < n
        invariant
            p <= n == s.len(),
            forall|p: usize| p < s.len() ==> rule.requires((s, p)),
            forall|p: usize, o: Option<(usize, Vec<char>)>|
                p < s.len() && #[trigger] rule.ensures((s, p), o) ==> step_view(o) == sr(s@, p as int),
            rewrite(s@, 0, sr) == out@ + rewrite(s@, p as int, sr),
        decreases n - p,
    {
        let o = rule(s, p);
        assert(step_view(o) == sr(s@, p as int));
        match o {
            Some((end, rep)) => {
                if p < end && end <= n {
                    let ghost before = out@;
                    let mut i: usize = 0;
                    while i < rep.len()
                        invariant
                            i <= rep.len(),
                            out@ == before + rep@.take(i as int),
                        decreases rep.len() - i,
                    {
                        out.push(rep[i]);
                        i += 1;
                        assert(out@ =~= before + rep@.take(i as int));
                    }
                    assert(rep@.take(rep.len() as int) =~= rep@);
                    assert(before + rewrite(s@, p as int, sr) =~= out@ + rewrite(s@, end as int, sr));
                    p = end;
                } else {
                    let ghost before = out@;
                    out.push(s[p]);
                    assert(before + rewrite(s@, p as int, sr) =~= out@ + rewrite(s@, p + 1, sr));
                    p += 1;
                }
            },
            None => {
                let ghost before = out@;
                out.push(s[p]);
                assert(before + rewrite(s@, p as int, sr) =~= out@ + rewrite(s@, p + 1, sr));
                p += 1;
            },
        }
    }
    assert(out@ + Seq::<char>::empty() =~= out@);
    out
}

/// `lit` occurs in `s` at position `p`.
pub open spec fn lit_at(s: Seq<char>, p: int, lit: Seq<char>) -> bool {
    0 <= p && p + lit.len() <= s.len() && s.subrange(p, p + lit.len()) == lit
}

pub(crate) fn lit_at_exec(s: &Vec<char>, p: usize, lit: &str) -> (r: (bool, usize))
    requires
        p <= s.len(),
    ensures
        r.0 == lit_at(s@, p as int, lit@),
        r.1 == lit@.len(),
{
    let l = to_chars(lit);
    if l.len() > s.len() - p {
        return (false, l.len());
    }
    let mut k: usize = 0;
    while k < l.len()
        invariant
            k <= l.len() <= s.len() - p,
            l@ == lit@,
            s@.subrange(p as int, p + k) == l@.take(k as int),
        decreases l.len() - k,
    {
        if s[p + k] != l[k] {
            assert(s@.subrange(p as int, p + l.len())[k as int] != l@[k as int]);
            return (false, l.len());
        }
        k += 1;
        assert(s@.subrange(p as int, p + k) =~= l@.take(k as int));
    }
    assert(l@.take(l.len() as int) =~= l@);
    (true, l.len())
}

// ---------------------------------------------------------------------------------------------------------------
// Character mapping
// ---------------------------------------------------------------------------------------------------------------

/// Typographic quotes become `"` or `'`, the en dash becomes an em dash, the no-break space a space.
pub open spec fn map_char_spec(c: char) -> char {
    if c == '„' || c == '”' || c == '“' || c == '«' || c == '»' {
        '"'
    } else if c == '’' || c == '‘' {
        '\''
    } else if c == '–' {
        '—'
    } else if c == '\u{a0}' {
        ' '
    } else {
        c
    }
}

fn map_char(c: char) -> (r: char)
    ensures
        r == map_char_spec(c),
{
    if c == '„' || c == '”' || c == '“' || c == '«' || c == '»' {
        '"'
    } else if c == '’' || c == '‘' {
        '\''
    } else if c == '–' {
        '—'
    } else if c == '\u{a0}' {
        ' '
    } else {
        c
    }
}

fn map_chars(s: &Vec<char>) -> (r: Vec<char>)
    ensures
        r@ == s@.map_values(|c: char| map_char_spec(c)),
{
    let mut out: Vec<char> = Vec::new();
    let mut i: usize = 0;
    while i < s.len()
        invariant
            i <= s.len(),
            out@ =~= s@.take(i as int).map_values(|c: char| map_char_spec(c)),
        decreases s.len() - i,
    {
        out.push(map_char(s[i]));
        i += 1;
        assert(out@ =~= s@.take(i as int).map_values(|c: char| map_char_spec(c)));
    }
    assert(s@.take(s.len() as int) =~= s@);
    out
}

// ---------------------------------------------------------------------------------------------------------------
// Context tests (the lookarounds of the patterns)
// ---------------------------------------------------------------------------------------------------------------

/// The character before `p` is a word character.
pub open spec fn word_before(s: Seq<char>, p: int) -> bool {
    0 < p <= s.len() && word_char(s[p - 1])
}

fn word_before_exec(s: &Vec<char>, p: usize) -> (r: bool)
    requires
        p <= s.len(),
    ensures
        r == word_before(s@, p as int),
{
    p > 0 && is_word(s[p - 1])
}

/// The character at `i` (if any) is neither a decimal digit nor `a` nor `b`.
pub open spec fn free_of_digit(s: Seq<char>, i: int, a: char, b: char) -> bool {
    !(0 <= i < s.len()) || !(decimal_digit(s[i]) || s[i] == a || s[i] == b)
}

fn free_of_digit_exec(s: &Vec<char>, i: usize, a: char, b: char) -> (r: bool)
    ensures
        r == free_of_digit(s@, i as int, a, b),
{
    if i >= s.len() {
        return true;
    }
    let c = s[i];
    !(is_digit(c) || c == a || c == b)
}

fn skip_ws_exec(s: &Vec<char>, i: usize) -> (r: usize)
    requires
        i <= s.len(),
    ensures
        r == skip_ws(s@, i as int),
        i <= r <= s.len(),
{
    proof {
        lemma_skip_ws(s@, i as int);
    }
    let mut k = i;
    while k < s.len() && is_white_space(s[k])
        invariant
            i <= k <= s.len(),
            skip_ws(s@, i as int) == skip_ws(s@, k as int),
        decreases s.len() - k,
    {
        k += 1;
    }
    k
}

// ---------------------------------------------------------------------------------------------------------------
// "godz." and "ok." before a number
// ---------------------------------------------------------------------------------------------------------------

/// `(?<!\w)godz\.\s*(?=\d)` is dropped: "o godz. 12:30" -> "o 12:30".
pub open spec fn godz_rule(s: Seq<char>, p: int) -> Step {
    if lit_at(s, p, "godz."@) {
        let end = skip_ws(s, p + "godz."@.len());
        if !word_before(s, p) && end < s.len() && decimal_digit(s[end]) {
            Some((end, Seq::empty()))
        } else {
            None
        }
    } else {
        None
    }
}

fn godz_exec(s: &Vec<char>, p: usize) -> (r: Option<(usize, Vec<char>)>)
    requires
        p < s.len(),
    ensures
        step_view(r) == godz_rule(s@, p as int),
{
    let (m, l) = lit_at_exec(s, p, "godz.");
    if !m {
        return None;
    }
    let end = skip_ws_exec(s, p + l);
    if !word_before_exec(s, p) && end < s.len() && is_digit(s[end]) {
        Some((end, Vec::new()))
    } else {
        None
    }
}

/// `(?<!\w)ok\.\s*(?=\d)` becomes "około ": "ok. 5 minut" -> "około 5 minut"; a bare "ok." stays.
pub open spec fn ok_rule(s: Seq<char>, p: int) -> Step {
    if lit_at(s, p, "ok."@) {
        let end = skip_ws(s, p + "ok."@.len());
        if !word_before(s, p) && end < s.len() && decimal_digit(s[end]) {
            Some((end, "około "@))
        } else {
            None
        }
    } else {
        None
    }
}

fn ok_exec(s: &Vec<char>, p: usize) -> (r: Option<(usize, Vec<char>)>)
    requires
        p < s.len(),
    ensures
        step_view(r) == ok_rule(s@, p as int),
{
    let (m, l) = lit_at_exec(s, p, "ok.");
    if !m {
        return None;
    }
    let end = skip_ws_exec(s, p + l);
    if !word_before_exec(s, p) && end < s.len() && is_digit(s[end]) {
        Some((end, to_chars("około ")))
    } else {
        None
    }
}

// ---------------------------------------------------------------------------------------------------------------
// Abbreviations
// ---------------------------------------------------------------------------------------------------------------

/// The abbreviation at `p` (in the order the pattern lists them) and its expansion.
pub open spec fn abbrev_at(s: Seq<char>, p: int) -> Option<(Seq<char>, Seq<char>)> {
    if lit_at(s, p, "np."@) {
        Some(("np."@, "na przykład"@))
    } else if lit_at(s, p, "itd."@) {
        Some(("itd."@, "i tak dalej"@))
    } else if lit_at(s, p, "itp."@) {
        Some(("itp."@, "i tym podobne"@))
    } else if lit_at(s, p, "tzn."@) {
        Some(("tzn."@, "to znaczy"@))
    } else if lit_at(s, p, "tel."@) {
        Some(("tel."@, "telefon"@))
    } else {
        None
    }
}

/// `(?<!\w)(np\.|itd\.|itp\.|tzn\.|tel\.)(?=\s|$)` is expanded.
pub open spec fn abbr_rule(s: Seq<char>, p: int) -> Step {
    match abbrev_at(s, p) {
        Some((a, e)) => {
            let end = p + a.len();
            if !word_before(s, p) && !(end < s.len() && !white_space(s[end])) {
                Some((end, e))
            } else {
                None
            }
        },
        None => None,
    }
}

fn abbr_exec(s: &Vec<char>, p: usize) -> (r: Option<(usize, Vec<char>)>)
    requires
        p < s.len(),
    ensures
        step_view(r) == abbr_rule(s@, p as int),
{
    let (m, l) = lit_at_exec(s, p, "np.");
    let (len, exp) = if m {
        (l, "na przykład")
    } else {
        let (m, l) = lit_at_exec(s, p, "itd.");
        if m {
            (l, "i tak dalej")
        } else {
            let (m, l) = lit_at_exec(s, p, "itp.");
            if m {
                (l, "i tym podobne")
            } else {
                let (m, l) = lit_at_exec(s, p, "tzn.");
                if m {
                    (l, "to znaczy")
                } else {
                    let (m, l) = lit_at_exec(s, p, "tel.");
                    if m {
                        (l, "telefon")
                    } else {
                        return None;
                    }
                }
            }
        }
    };
    assert(abbrev_at(s@, p as int) == Some((s@.subrange(p as int, p + len), exp@)));
    let end = p + len;
    if !word_before_exec(s, p) && !(end < s.len() && !is_white_space(s[end])) {
        Some((end, to_chars(exp)))
    } else {
        None
    }
}

// ---------------------------------------------------------------------------------------------------------------
// Amounts: złoty and percent
// ---------------------------------------------------------------------------------------------------------------

/// First position at or after `i` that is not an ASCII digit (or the end).
pub open spec fn digit_run(s: Seq<char>, i: int) -> int
    decreases s.len() - i,
{
    if 0 <= i < s.len() && ascii_digit(s[i]) {
        digit_run(s, i + 1)
    } else {
        i
    }
}

pub proof fn lemma_digit_run(s: Seq<char>, i: int)
    requires
        0 <= i <= s.len(),
    ensures
        i <= digit_run(s, i) <= s.len(),
        forall|k: int| i <= k < digit_run(s, i) ==> ascii_digit(#[trigger] s[k]),
    decreases s.len() - i,
{
    if i < s.len() && ascii_digit(s[i]) {
        lemma_digit_run(s, i + 1);
    }
}

/// Thousands groups: as many `[ \x{a0}][0-9]{3}` as follow position `e`.
pub open spec fn group_run(s: Seq<char>, e: int) -> int
    decreases s.len() - e,
{
    if 0 <= e && e + 4 <= s.len() && (s[e] == ' ' || s[e] == '\u{a0}') && ascii_digit(s[e + 1])
        && ascii_digit(s[e + 2]) && ascii_digit(s[e + 3]) {
        group_run(s, e + 4)
    } else {
        e
    }
}

pub proof fn lemma_group_run(s: Seq<char>, e: int)
    requires
        0 <= e <= s.len(),
    ensures
        e <= group_run(s, e) <= s.len(),
    decreases s.len() - e,
{
    if e + 4 <= s.len() && (s[e] == ' ' || s[e] == '\u{a0}') && ascii_digit(s[e + 1]) && ascii_digit(
        s[e + 2],
    ) && ascii_digit(s[e + 3]) {
        lemma_group_run(s, e + 4);
    }
}

/// The unit that ends an amount at `i`: `zł` or `PLN` for złoty, `%` for percent; the end of the match.
pub open spec fn unit_at(s: Seq<char>, i: int, pct: bool) -> Option<int> {
    if pct {
        if lit_at(s, i, "%"@) {
            Some(i + "%"@.len())
        } else {
            None
        }
    } else if lit_at(s, i, "zł"@) {
        Some(i + "zł"@.len())
    } else if lit_at(s, i, "PLN"@) {
        Some(i + "PLN"@.len())
    } else {
        None
    }
}

/// After an amount ending at `e`: `([.,][0-9]+)?\s*unit`, as the end of the fraction and the end of the match.
pub open spec fn rest_at(s: Seq<char>, e: int, pct: bool) -> Option<(int, int)> {
    let with_frac = if 0 <= e && e + 1 < s.len() && (s[e] == '.' || s[e] == ',') && ascii_digit(s[e + 1]) {
        let fe = digit_run(s, e + 1);
        match unit_at(s, skip_ws(s, fe), pct) {
            Some(end) => Some((fe, end)),
            None => None,
        }
    } else {
        None
    };
    if with_frac is Some {
        with_frac
    } else {
        match unit_at(s, skip_ws(s, e), pct) {
            Some(end) => Some((e, end)),
            None => None,
        }
    }
}

/// `([0-9]{1,3}(?:[ \x{a0}][0-9]{3})+|[0-9]+)([.,][0-9]+)?\s*unit` at `p` with the alternatives tried in order:
/// the ends of the amount, of the fraction and of the match.
pub open spec fn amount_match(s: Seq<char>, p: int, pct: bool) -> Option<(int, int, int)> {
    if 0 <= p < s.len() && ascii_digit(s[p]) {
        let r = digit_run(s, p);
        let g = group_run(s, r);
        let alt1 = if r - p <= 3 && g > r {
            match rest_at(s, g, pct) {
                Some((fe, end)) => Some((g, fe, end)),
                None => None,
            }
        } else {
            None
        };
        if alt1 is Some {
            alt1
        } else {
            match rest_at(s, r, pct) {
                Some((fe, end)) => Some((r, fe, end)),
                None => None,
            }
        }
    } else {
        None
    }
}

/// The ASCII digits of `s`, in order ("1 000" -> "1000").
pub open spec fn only_digits(s: Seq<char>) -> Seq<char>
    decreases s.len(),
{
    if s.len() == 0 {
        Seq::empty()
    } else if ascii_digit(s.last()) {
        only_digits(s.drop_last()).push(s.last())
    } else {
        only_digits(s.drop_last())
    }
}

/// `digits` without leading zeros.
pub open spec fn strip_zeros(d: Seq<char>) -> Seq<char>
    decreases d.len(),
{
    if d.len() > 0 && d[0] == '0' {
        strip_zeros(d.drop_first())
    } else {
        d
    }
}

pub open spec fn digit_value(c: char) -> int {
    (c as u32) - ('0' as u32)
}

/// Value of at most two trailing digits.
pub open spec fn small_value(t: Seq<char>) -> int {
    if t.len() == 1 {
        digit_value(t[0])
    } else if t.len() == 2 {
        10 * digit_value(t[0]) + digit_value(t[1])
    } else {
        0
    }
}

/// "złoty" / "złote" / "złotych" for the amount `digits`: 1 -> złoty; ending in 2-4 (but not 12-14) -> złote; any
/// other, and any amount with a fraction -> złotych.
pub open spec fn zl_form(digits: Seq<char>, has_fraction: bool) -> Seq<char> {
    if has_fraction {
        "złotych"@
    } else if strip_zeros(digits) == seq!['1'] {
        "złoty"@
    } else {
        let tail = if digits.len() > 2 {
            digits.skip(digits.len() - 2)
        } else {
            digits
        };
        let n = small_value(tail);
        if 12 <= n <= 14 {
            "złotych"@
        } else if 2 <= n % 10 <= 4 {
            "złote"@
        } else {
            "złotych"@
        }
    }
}

/// `(?<![\d.,])amount(fraction)?\s*(zł|PLN)(?!\w)` becomes "digits(fraction) form".
pub open spec fn zl_rule(s: Seq<char>, p: int) -> Step {
    match amount_match(s, p, false) {
        Some((ae, fe, end)) => {
            if free_of_digit(s, p - 1, '.', ',') && !(end < s.len() && word_char(s[end])) {
                let digits = only_digits(s.subrange(p, ae));
                Some((end, digits + s.subrange(ae, fe) + seq![' '] + zl_form(digits, fe > ae)))
            } else {
                None
            }
        },
        None => None,
    }
}

/// `(?<![\d.,])amount(fraction)?\s*%` becomes "digits(fraction) procent".
pub open spec fn pct_rule(s: Seq<char>, p: int) -> Step {
    match amount_match(s, p, true) {
        Some((ae, fe, end)) => {
            if free_of_digit(s, p - 1, '.', ',') {
                let digits = only_digits(s.subrange(p, ae));
                Some((end, digits + s.subrange(ae, fe) + " procent"@))
            } else {
                None
            }
        },
        None => None,
    }
}

fn digit_run_exec(s: &Vec<char>, i: usize) -> (r: usize)
    requires
        i <= s.len(),
    ensures
        r == digit_run(s@, i as int),
        i <= r <= s.len(),
{
    proof {
        lemma_digit_run(s@, i as int);
    }
    let mut k = i;
    while k < s.len() && is_ascii_digit(s[k])
        invariant
            i <= k <= s.len(),
            digit_run(s@, i as int) == digit_run(s@, k as int),
        decreases s.len() - k,
    {
        k += 1;
    }
    k
}

fn group_run_exec(s: &Vec<char>, e: usize) -> (r: usize)
    requires
        e <= s.len(),
    ensures
        r == group_run(s@, e as int),
        e <= r <= s.len(),
{
    proof {
        lemma_group_run(s@, e as int);
    }
    let mut k = e;
    while s.len() - k >= 4 && (s[k] == ' ' || s[k] == '\u{a0}') && is_ascii_digit(s[k + 1])
        && is_ascii_digit(s[k + 2]) && is_ascii_digit(s[k + 3])
        invariant
            e <= k <= s.len(),
            group_run(s@, e as int) == group_run(s@, k as int),
        decreases s.len() - k,
    {
        k += 4;
    }
    k
}

fn unit_at_exec(s: &Vec<char>, i: usize, pct: bool) -> (r: Option<usize>)
    requires
        i <= s.len(),
    ensures
        r matches Some(e) ==> unit_at(s@, i as int, pct) == Some(e as int),
        r is None ==> unit_at(s@, i as int, pct) is None,
{
    if pct {
        let (m, l) = lit_at_exec(s, i, "%");
        return if m {
            Some(i + l)
        } else {
            None
        };
    }
    let (m, l) = lit_at_exec(s, i, "zł");
    if m {
        return Some(i + l);
    }
    let (m, l) = lit_at_exec(s, i, "PLN");
    if m {
        Some(i + l)
    } else {
        None
    }
}

fn rest_at_exec(s: &Vec<char>, e: usize, pct: bool) -> (r: Option<(usize, usize)>)
    requires
        e <= s.len(),
    ensures
        r matches Some((a, b)) ==> rest_at(s@, e as int, pct) == Some((a as int, b as int)),
        r is None ==> rest_at(s@, e as int, pct) is None,
{
    if e < s.len() && s.len() - e > 1 && (s[e] == '.' || s[e] == ',') && is_ascii_digit(s[e + 1]) {
        let fe = digit_run_exec(s, e + 1);
        let w = skip_ws_exec(s, fe);
        match unit_at_exec(s, w, pct) {
            Some(end) => {
                return Some((fe, end));
            },
            None => {},
        }
    }
    let w = skip_ws_exec(s, e);
    match unit_at_exec(s, w, pct) {
        Some(end) => Some((e, end)),
        None => None,
    }
}

fn amount_match_exec(s: &Vec<char>, p: usize, pct: bool) -> (r: Option<(usize, usize, usize)>)
    requires
        p < s.len(),
    ensures
        r matches Some((a, b, c)) ==> amount_match(s@, p as int, pct) == Some((a as int, b as int, c as int)),
        r is None ==> amount_match(s@, p as int, pct) is None,
{
    if !is_ascii_digit(s[p]) {
        return None;
    }
    let r = digit_run_exec(s, p);
    let g = group_run_exec(s, r);
    if r - p <= 3 && g > r {
        match rest_at_exec(s, g, pct) {
            Some((fe, end)) => {
                return Some((g, fe, end));
            },
            None => {},
        }
    }
    match rest_at_exec(s, r, pct) {
        Some((fe, end)) => Some((r, fe, end)),
        None => None,
    }
}

fn only_digits_exec(s: &Vec<char>, a: usize, b: usize) -> (r: Vec<char>)
    requires
        a <= b <= s.len(),
    ensures
        r@ == only_digits(s@.subrange(a as int, b as int)),
{
    let mut out: Vec<char> = Vec::new();
    let mut i = a;
    while i < b
        invariant
            a <= i <= b <= s.len(),
            out@ == only_digits(s@.subrange(a as int, i as int)),
        decreases b - i,
    {
        let ghost sub = s@.subrange(a as int, i + 1);
        assert(sub.drop_last() =~= s@.subrange(a as int, i as int));
        assert(sub.last() == s@[i as int]);
        if is_ascii_digit(s[i]) {
            out.push(s[i]);
        }
        i += 1;
    }
    out
}

fn zl_form_exec(d: &Vec<char>, has_fraction: bool) -> (r: Vec<char>)
    requires
        forall|k: int| 0 <= k < d.len() ==> ascii_digit(#[trigger] d@[k]),
    ensures
        r@ == zl_form(d@, has_fraction),
{
    if has_fraction {
        return to_chars("złotych");
    }
    let mut z: usize = 0;
    assert(d@.skip(0) =~= d@);
    while z < d.len() && d[z] == '0'
        invariant
            z <= d.len(),
            strip_zeros(d@) == strip_zeros(d@.skip(z as int)),
        decreases d.len() - z,
    {
        assert(d@.skip(z as int).drop_first() =~= d@.skip(z + 1));
        z += 1;
    }
    if z < d.len() && d.len() - z == 1 && d[z] == '1' {
        assert(d@.skip(z as int) =~= seq!['1']);
        return to_chars("złoty");
    }
    proof {
        if z < d.len() {
            assert(d@.skip(z as int)[0] != '0');
        } else {
            assert(d@.skip(z as int).len() == 0);
        }
        assert(strip_zeros(d@.skip(z as int)) == d@.skip(z as int));
        assert(d@.skip(z as int) != seq!['1']) by {
            if d@.skip(z as int) == seq!['1'] {
                assert(d@.skip(z as int).len() == 1);
                assert(d@[z as int] == '1');
            }
        }
    }
    let n = d.len();
    let n100: u32 = if n == 0 {
        0
    } else if n == 1 {
        (d[0] as u32) - ('0' as u32)
    } else {
        10 * ((d[n - 2] as u32) - ('0' as u32)) + ((d[n - 1] as u32) - ('0' as u32))
    };
    proof {
        let tail = if n > 2 {
            d@.skip(n - 2)
        } else {
            d@
        };
        if n >= 2 {
            assert(tail[0] == d@[n - 2]);
            assert(tail[1] == d@[n - 1]);
            assert(tail.len() == 2);
        }
        assert(n100 == small_value(tail));
    }
    if 12 <= n100 && n100 <= 14 {
        to_chars("złotych")
    } else if 2 <= n100 % 10 && n100 % 10 <= 4 {
        to_chars("złote")
    } else {
        to_chars("złotych")
    }
}

fn amount_rule_exec(s: &Vec<char>, p: usize, pct: bool) -> (r: Option<(usize, Vec<char>)>)
    requires
        p < s.len(),
    ensures
        step_view(r) == (if pct {
            pct_rule(s@, p as int)
        } else {
            zl_rule(s@, p as int)
        }),
{
    match amount_match_exec(s, p, pct) {
        Some((ae, fe, end)) => {
            proof {
                lemma_amount_match(s@, p as int, pct);
            }
            let before_ok = p == 0 || free_of_digit_exec(s, p - 1, '.', ',');
            assert(before_ok == free_of_digit(s@, p - 1, '.', ','));
            if !before_ok {
                return None;
            }
            if !pct && end < s.len() && is_word(s[end]) {
                return None;
            }
            let digits = only_digits_exec(s, p, ae);
            proof {
                lemma_only_digits(s@.subrange(p as int, ae as int));
            }
            let mut rep: Vec<char> = Vec::new();
            push_range(&mut rep, &digits, 0, digits.len());
            assert(digits@.subrange(0, digits@.len() as int) =~= digits@);
            push_range(&mut rep, s, ae, fe);
            if pct {
                push_str(&mut rep, " procent");
            } else {
                rep.push(' ');
                let form = zl_form_exec(&digits, fe > ae);
                push_range(&mut rep, &form, 0, form.len());
                assert(form@.subrange(0, form@.len() as int) =~= form@);
            }
            Some((end, rep))
        },
        None => None,
    }
}

pub proof fn lemma_amount_match(s: Seq<char>, p: int, pct: bool)
    requires
        0 <= p < s.len(),
    ensures
        amount_match(s, p, pct) matches Some((ae, fe, end)) ==> p < ae <= fe < end <= s.len(),
{
    if ascii_digit(s[p]) {
        lemma_digit_run(s, p + 1);
        let r = digit_run(s, p);
        lemma_group_run(s, r);
        let g = group_run(s, r);
        lemma_rest_at(s, g, pct);
        lemma_rest_at(s, r, pct);
    }
}

pub proof fn lemma_rest_at(s: Seq<char>, e: int, pct: bool)
    requires
        0 <= e <= s.len(),
    ensures
        rest_at(s, e, pct) matches Some((fe, end)) ==> e <= fe < end <= s.len(),
{
    reveal_strlit("%");
    reveal_strlit("zł");
    reveal_strlit("PLN");
    lemma_skip_ws(s, e);
    if 0 <= e && e + 1 < s.len() {
        lemma_digit_run(s, e + 1);
        let fe = digit_run(s, e + 1);
        lemma_skip_ws(s, fe);
    }
}

pub proof fn lemma_only_digits(s: Seq<char>)
    ensures
        forall|k: int| 0 <= k < only_digits(s).len() ==> ascii_digit(#[trigger] only_digits(s)[k]),
    decreases s.len(),
{
    if s.len() > 0 {
        lemma_only_digits(s.drop_last());
        let r = only_digits(s.drop_last());
        if ascii_digit(s.last()) {
            assert forall|k: int| 0 <= k < r.push(s.last()).len() implies ascii_digit(
                #[trigger] r.push(s.last())[k],
            ) by {
                if k < r.len() {
                    assert(r.push(s.last())[k] == r[k]);
                }
            }
        }
    }
}

fn zl_exec(s: &Vec<char>, p: usize) -> (r: Option<(usize, Vec<char>)>)
    requires
        p < s.len(),
    ensures
        step_view(r) == zl_rule(s@, p as int),
{
    amount_rule_exec(s, p, false)
}

fn pct_exec(s: &Vec<char>, p: usize) -> (r: Option<(usize, Vec<char>)>)
    requires
        p < s.len(),
    ensures
        step_view(r) == pct_rule(s@, p as int),
{
    amount_rule_exec(s, p, true)
}

// ---------------------------------------------------------------------------------------------------------------
// Clock times, '&', runs of spaces
// ---------------------------------------------------------------------------------------------------------------

/// Two-character hour `[01][0-9]` or `2[0-3]` at `p`.
pub open spec fn hour2(s: Seq<char>, p: int) -> bool {
    0 <= p && p + 1 < s.len() && (((s[p] == '0' || s[p] == '1') && ascii_digit(s[p + 1])) || (s[p] == '2'
        && '0' <= s[p + 1] <= '3'))
}

/// Minutes `[0-5][0-9]` at `i`.
pub open spec fn minute_at(s: Seq<char>, i: int) -> bool {
    0 <= i && i + 1 < s.len() && '0' <= s[i] <= '5' && ascii_digit(s[i + 1])
}

/// `([01]?[0-9]|2[0-3]):([0-5][0-9])` at `p`: the end of the hour.
pub open spec fn time_match(s: Seq<char>, p: int) -> Option<int> {
    if hour2(s, p) && s[p + 2] == ':' && minute_at(s, p + 3) {
        Some(p + 2)
    } else if 0 <= p && p + 1 < s.len() && ascii_digit(s[p]) && s[p + 1] == ':' && minute_at(s, p + 2) {
        Some(p + 1)
    } else {
        None
    }
}

/// The minutes as a number is written, without a leading zero.
pub open spec fn minute_text(t: char, u: char) -> Seq<char> {
    if t == '0' {
        seq![u]
    } else {
        seq![t, u]
    }
}

/// `(?<![\d:])hh:mm(?![\d:])` becomes "hh mm", or just "hh" on the full hour: "12:30" -> "12 30", "18:00" -> "18".
pub open spec fn time_rule(s: Seq<char>, p: int) -> Step {
    match time_match(s, p) {
        Some(he) => {
            let end = he + 3;
            if free_of_digit(s, p - 1, ':', ':') && free_of_digit(s, end, ':', ':') {
                let h = s.subrange(p, he);
                if s[he + 1] == '0' && s[he + 2] == '0' {
                    Some((end, h))
                } else {
                    Some((end, h + seq![' '] + minute_text(s[he + 1], s[he + 2])))
                }
            } else {
                None
            }
        },
        None => None,
    }
}

fn time_exec(s: &Vec<char>, p: usize) -> (r: Option<(usize, Vec<char>)>)
    requires
        p < s.len(),
    ensures
        step_view(r) == time_rule(s@, p as int),
{
    let n = s.len();
    let he: usize;
    if n - p > 4 && (((s[p] == '0' || s[p] == '1') && is_ascii_digit(s[p + 1])) || (s[p] == '2' && '0'
        <= s[p + 1] && s[p + 1] <= '3')) && s[p + 2] == ':' && '0' <= s[p + 3] && s[p + 3] <= '5'
        && is_ascii_digit(s[p + 4]) {
        he = p + 2;
    } else if n - p > 3 && is_ascii_digit(s[p]) && s[p + 1] == ':' && '0' <= s[p + 2] && s[p + 2] <= '5'
        && is_ascii_digit(s[p + 3]) {
        he = p + 1;
    } else {
        return None;
    }
    assert(time_match(s@, p as int) == Some(he as int));
    let end = he + 3;
    let before_ok = p == 0 || free_of_digit_exec(s, p - 1, ':', ':');
    if !before_ok || !free_of_digit_exec(s, end, ':', ':') {
        return None;
    }
    let mut rep: Vec<char> = Vec::new();
    push_range(&mut rep, s, p, he);
    if !(s[he + 1] == '0' && s[he + 2] == '0') {
        rep.push(' ');
        if s[he + 1] != '0' {
            rep.push(s[he + 1]);
        }
        rep.push(s[he + 2]);
    }
    assert(step_view(Some((end, rep))) == time_rule(s@, p as int)) by {
        let h = s@.subrange(p as int, he as int);
        if !(s@[he + 1] == '0' && s@[he + 2] == '0') {
            assert(rep@ =~= h + seq![' '] + minute_text(s@[he + 1], s@[he + 2]));
        }
    }
    Some((end, rep))
}

/// `&` becomes " i ".
pub open spec fn amp_rule(s: Seq<char>, p: int) -> Step {
    if 0 <= p < s.len() && s[p] == '&' {
        Some((p + 1, " i "@))
    } else {
        None
    }
}

fn amp_exec(s: &Vec<char>, p: usize) -> (r: Option<(usize, Vec<char>)>)
    requires
        p < s.len(),
    ensures
        step_view(r) == amp_rule(s@, p as int),
{
    if s[p] == '&' {
        Some((p + 1, to_chars(" i ")))
    } else {
        None
    }
}

pub open spec fn space_or_tab(c: char) -> bool {
    c == ' ' || c == '\t'
}

/// First position at or after `i` that is neither a space nor a tab.
pub open spec fn blank_run(s: Seq<char>, i: int) -> int
    decreases s.len() - i,
{
    if 0 <= i < s.len() && space_or_tab(s[i]) {
        blank_run(s, i + 1)
    } else {
        i
    }
}

pub proof fn lemma_blank_run(s: Seq<char>, i: int)
    requires
        0 <= i <= s.len(),
    ensures
        i <= blank_run(s, i) <= s.len(),
    decreases s.len() - i,
{
    if i < s.len() && space_or_tab(s[i]) {
        lemma_blank_run(s, i + 1);
    }
}

/// `[ \t]+` becomes one space.
pub open spec fn blanks_rule(s: Seq<char>, p: int) -> Step {
    if 0 <= p < s.len() && space_or_tab(s[p]) {
        Some((blank_run(s, p), seq![' ']))
    } else {
        None
    }
}

fn blanks_exec(s: &Vec<char>, p: usize) -> (r: Option<(usize, Vec<char>)>)
    requires
        p < s.len(),
    ensures
        step_view(r) == blanks_rule(s@, p as int),
{
    if !(s[p] == ' ' || s[p] == '\t') {
        return None;
    }
    let mut k = p;
    while k < s.len() && (s[k] == ' ' || s[k] == '\t')
        invariant
            p <= k <= s.len(),
            blank_run(s@, p as int) == blank_run(s@, k as int),
        decreases s.len() - k,
    {
        k += 1;
    }
    let mut rep = Vec::new();
    rep.push(' ');
    assert(rep@ =~= seq![' ']);
    Some((k, rep))
}

// ---------------------------------------------------------------------------------------------------------------
// The whole normalization
// ---------------------------------------------------------------------------------------------------------------

/// The rules in the order they run: quotes and dashes, "godz.", "ok.", abbreviations, złoty, percent, clock times,
/// '&', then runs of spaces and tabs collapsed and both ends trimmed.
pub open spec fn normalize_spec(text: Seq<char>) -> Seq<char> {
    let s0 = text.map_values(|c: char| map_char_spec(c));
    let s1 = rewrite(s0, 0, |s: Seq<char>, p: int| godz_rule(s, p));
    let s2 = rewrite(s1, 0, |s: Seq<char>, p: int| ok_rule(s, p));
    let s3 = rewrite(s2, 0, |s: Seq<char>, p: int| abbr_rule(s, p));
    let s4 = rewrite(s3, 0, |s: Seq<char>, p: int| zl_rule(s, p));
    let s5 = rewrite(s4, 0, |s: Seq<char>, p: int| pct_rule(s, p));
    let s6 = rewrite(s5, 0, |s: Seq<char>, p: int| time_rule(s, p));
    let s7 = rewrite(s6, 0, |s: Seq<char>, p: int| amp_rule(s, p));
    let s8 = rewrite(s7, 0, |s: Seq<char>, p: int| blanks_rule(s, p));
    trim(s8)
}

/// Supplementary normalization: see the module documentation.
pub fn normalize_pl(text: &str) -> (r: String)
    ensures
        r@ == normalize_spec(text@),
{
    let s = to_chars(text);
    let s0 = map_chars(&s);
    let s1 = rewrite_exec(&s0, godz_exec, Ghost(|s: Seq<char>, p: int| godz_rule(s, p)));
    let s2 = rewrite_exec(&s1, ok_exec, Ghost(|s: Seq<char>, p: int| ok_rule(s, p)));
    let s3 = rewrite_exec(&s2, abbr_exec, Ghost(|s: Seq<char>, p: int| abbr_rule(s, p)));
    let s4 = rewrite_exec(&s3, zl_exec, Ghost(|s: Seq<char>, p: int| zl_rule(s, p)));
    let s5 = rewrite_exec(&s4, pct_exec, Ghost(|s: Seq<char>, p: int| pct_rule(s, p)));
    let s6 = rewrite_exec(&s5, time_exec, Ghost(|s: Seq<char>, p: int| time_rule(s, p)));
    let s7 = rewrite_exec(&s6, amp_exec, Ghost(|s: Seq<char>, p: int| amp_rule(s, p)));
    let s8 = rewrite_exec(&s7, blanks_exec, Ghost(|s: Seq<char>, p: int| blanks_rule(s, p)));
    let t = trim_chars(&s8);
    from_chars(&t)
}

/// The number that a string of decimal digits writes.
pub open spec fn decimal_value(d: Seq<char>) -> int
    decreases d.len(),
{
    if d.len() == 0 {
        0
    } else {
        10 * decimal_value(d.drop_last()) + digit_value(d.last())
    }
}

proof fn lemma_decimal_value_nonneg(d: Seq<char>)
    requires
        forall|k: int| 0 <= k < d.len() ==> ascii_digit(#[trigger] d[k]),
    ensures
        decimal_value(d) >= 0,
        d.len() > 0 && d[0] != '0' ==> decimal_value(d) >= 1,
        d.len() > 1 && d[0] != '0' ==> decimal_value(d) >= 10,
    decreases d.len(),
{
    if d.len() > 0 {
        let init = d.drop_last();
        assert forall|k: int| 0 <= k < init.len() implies ascii_digit(#[trigger] init[k]) by {
            assert(init[k] == d[k]);
        }
        lemma_decimal_value_nonneg(init);
        assert(ascii_digit(d[d.len() - 1]));
        if d.len() > 1 {
            assert(init[0] == d[0]);
        } else {
            assert(d.last() == d[0]);
        }
    }
}

proof fn lemma_leading_zero(t: Seq<char>)
    ensures
        decimal_value(seq!['0'] + t) == decimal_value(t),
    decreases t.len(),
{
    if t.len() == 0 {
        assert((seq!['0'] + t).drop_last() =~= Seq::<char>::empty());
        assert((seq!['0'] + t).last() == '0');
        assert(decimal_value(Seq::<char>::empty()) == 0);
    } else {
        lemma_leading_zero(t.drop_last());
        assert((seq!['0'] + t).drop_last() =~= seq!['0'] + t.drop_last());
        assert((seq!['0'] + t).last() == t.last());
    }
}

proof fn lemma_strip_zeros(d: Seq<char>)
    requires
        forall|k: int| 0 <= k < d.len() ==> ascii_digit(#[trigger] d[k]),
    ensures
        decimal_value(strip_zeros(d)) == decimal_value(d),
        strip_zeros(d).len() == 0 || strip_zeros(d)[0] != '0',
        forall|k: int| 0 <= k < strip_zeros(d).len() ==> ascii_digit(#[trigger] strip_zeros(d)[k]),
    decreases d.len(),
{
    if d.len() > 0 && d[0] == '0' {
        let t = d.drop_first();
        assert forall|k: int| 0 <= k < t.len() implies ascii_digit(#[trigger] t[k]) by {
            assert(t[k] == d[k + 1]);
        }
        lemma_strip_zeros(t);
        assert(d =~= seq!['0'] + t);
        lemma_leading_zero(t);
    }
}

proof fn lemma_last_two(d: Seq<char>)
    requires
        d.len() > 0,
        forall|k: int| 0 <= k < d.len() ==> ascii_digit(#[trigger] d[k]),
    ensures
        small_value(if d.len() > 2 {
            d.skip(d.len() - 2)
        } else {
            d
        }) == decimal_value(d) % 100,
        decimal_value(d) % 10 == digit_value(d.last()),
{
    let n = d.len();
    let a = d.drop_last();
    assert forall|k: int| 0 <= k < a.len() implies ascii_digit(#[trigger] a[k]) by {
        assert(a[k] == d[k]);
    }
    lemma_decimal_value_nonneg(a);
    assert(ascii_digit(d[n - 1]));
    assert(0 <= digit_value(d.last()) <= 9);
    if n == 1 {
        assert(a =~= Seq::<char>::empty());
        assert(d.last() == d[0]);
    } else {
        let b = a.drop_last();
        assert forall|k: int| 0 <= k < b.len() implies ascii_digit(#[trigger] b[k]) by {
            assert(b[k] == d[k]);
        }
        lemma_decimal_value_nonneg(b);
        assert(ascii_digit(d[n - 2]));
        assert(a.last() == d[n - 2]);
        let x = decimal_value(b);
        let y = digit_value(d[n - 2]);
        let z = digit_value(d[n - 1]);
        assert(decimal_value(d) == 100 * x + 10 * y + z);
        let tail = if n > 2 {
            d.skip(n - 2)
        } else {
            d
        };
        assert(tail.len() == 2);
        assert(tail[0] == d[n - 2]);
        assert(tail[1] == d[n - 1]);
        assert((100 * x + 10 * y + z) % 100 == 10 * y + z) by (nonlinear_arith)
            requires
                0 <= y <= 9,
                0 <= z <= 9,
                x >= 0,
        ;
    }
    let v = decimal_value(a);
    assert((10 * v + digit_value(d.last())) % 10 == digit_value(d.last())) by (nonlinear_arith)
        requires
            v >= 0,
            0 <= digit_value(d.last()) <= 9,
    ;
}

/// How "złoty" agrees with a whole amount of `digits` (the number they write, leading zeros and all): 1 złoty; an
/// amount whose last two digits are 12, 13 or 14 złotych; otherwise one whose last digit is 2, 3 or 4 złote; any
/// other amount złotych. An amount with a fraction always takes złotych.
pub proof fn lemma_zl_form_agreement(digits: Seq<char>)
    requires
        digits.len() > 0,
        forall|k: int| 0 <= k < digits.len() ==> ascii_digit(#[trigger] digits[k]),
    ensures
        zl_form(digits, true) == "złotych"@,
        decimal_value(digits) == 1 ==> zl_form(digits, false) == "złoty"@,
        12 <= decimal_value(digits) % 100 <= 14 ==> zl_form(digits, false) == "złotych"@,
        decimal_value(digits) % 10 == 2 || decimal_value(digits) % 10 == 3 || decimal_value(digits) % 10 == 4 ==> (
        !(12 <= decimal_value(digits) % 100 <= 14) ==> zl_form(digits, false) == "złote"@),
        decimal_value(digits) != 1 && !(2 <= decimal_value(digits) % 10 <= 4) ==> zl_form(digits, false)
            == "złotych"@,
{
    lemma_strip_zeros(digits);
    lemma_last_two(digits);
    let s = strip_zeros(digits);
    lemma_decimal_value_nonneg(s);
    if s == seq!['1'] {
        assert(s.drop_last() =~= Seq::<char>::empty());
        assert(s.last() == '1');
        assert(decimal_value(Seq::<char>::empty()) == 0);
        assert(decimal_value(s) == 1);
    }
    if decimal_value(digits) == 1 {
        assert(s.len() == 1);
        assert(s.drop_last() =~= Seq::<char>::empty());
        assert(s[0] == '1');
        assert(s =~= seq!['1']);
    }
}

} // verus!
