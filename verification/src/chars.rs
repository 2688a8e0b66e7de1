//! Character classes and the whitespace-level string operations that every other module builds on.
//! Text is handled as a sequence of `char`s: positions and lengths are counted in code points.

use vstd::prelude::*;

verus! {

/// `String::push` appends the character to the string (std documents exactly that).
pub assume_specification[ String::push ](s: &mut String, ch: char)
    ensures
        final(s)@ == old(s)@.push(ch),
;

/// `char::from_u32` gives the character with that code point, or `None` for a value that is not a Unicode scalar
/// value (above U+10FFFF or a surrogate), as std documents.
pub assume_specification[ char::from_u32 ](i: u32) -> (r: Option<char>)
    ensures
        r is Some <==> (i <= 0x10FFFF && !(0xD800 <= i && i <= 0xDFFF)),
        r matches Some(c) ==> c as u32 == i,
;

/// The Unicode `White_Space` property (what `char::is_whitespace` and the `\s` class test).
pub open spec fn white_space(c: char) -> bool {
    let v = c as u32;
    ||| 0x09 <= v <= 0x0D
    ||| v == 0x20
    ||| v == 0x85
    ||| v == 0xA0
    ||| v == 0x1680
    ||| 0x2000 <= v <= 0x200A
    ||| v == 0x2028
    ||| v == 0x2029
    ||| v == 0x202F
    ||| v == 0x205F
    ||| v == 0x3000
}

pub fn is_white_space(c: char) -> (r: bool)
    ensures
        r == white_space(c),
{
    let v = c as u32;
    (0x09 <= v && v <= 0x0D) || v == 0x20 || v == 0x85 || v == 0xA0 || v == 0x1680 || (0x2000 <= v
        && v <= 0x200A) || v == 0x2028 || v == 0x2029 || v == 0x202F || v == 0x205F || v == 0x3000
}

/// `0`..=`9`.
pub open spec fn ascii_digit(c: char) -> bool {
    '0' <= c <= '9'
}

pub fn is_ascii_digit(c: char) -> (r: bool)
    ensures
        r == ascii_digit(c),
{
    '0' <= c && c <= '9'
}

pub open spec fn ascii_alnum(c: char) -> bool {
    ascii_digit(c) || ('a' <= c <= 'z') || ('A' <= c <= 'Z')
}

/// Whether the regular expression `pattern` (as the `regex` crate reads it) matches somewhere in `haystack`; `false`
/// for a pattern that does not compile.
pub uninterp spec fn regex_match(pattern: Seq<char>, haystack: Seq<char>) -> bool;

/// Compiles `pattern` with `regex::Regex::new` and runs `Regex::is_match` on `haystack`; a pattern that does not
/// compile answers `false`. The contract only names the answer (the Unicode tables behind `\p{..}` take pages):
/// it is a function of the two strings.
#[verifier::external_body]
fn regex_is_match(pattern: &str, haystack: &str) -> (r: bool)
    ensures
        r == regex_match(pattern@, haystack@),
{
    match regex::Regex::new(pattern) {
        Ok(re) => re.is_match(haystack),
        Err(_) => false,
    }
}

/// A word character (`\w`): a letter (L*), a number (N*) or `_`. ASCII is decided here, the rest by the Unicode
/// tables of the regular-expression engine.
pub open spec fn word_char(c: char) -> bool {
    if (c as u32) < 128 {
        ascii_alnum(c) || c == '_'
    } else {
        regex_match("^[\\p{L}\\p{N}_]$"@, seq![c])
    }
}

/// A digit as the context tests see it (`\d`): a Unicode decimal digit (Nd).
pub open spec fn decimal_digit(c: char) -> bool {
    if (c as u32) < 128 {
        ascii_digit(c)
    } else {
        regex_match("^\\p{Nd}$"@, seq![c])
    }
}

fn one_char_string(c: char) -> (r: String)
    ensures
        r@ == seq![c],
{
    let mut s = String::new();
    s.push(c);
    s
}

pub fn is_word(c: char) -> (r: bool)
    ensures
        r == word_char(c),
{
    if (c as u32) < 128 {
        return is_ascii_digit(c) || ('a' <= c && c <= 'z') || ('A' <= c && c <= 'Z') || c == '_';
    }
    let h = one_char_string(c);
    regex_is_match("^[\\p{L}\\p{N}_]$", h.as_str())
}

pub fn is_digit(c: char) -> (r: bool)
    ensures
        r == decimal_digit(c),
{
    if (c as u32) < 128 {
        return is_ascii_digit(c);
    }
    let h = one_char_string(c);
    regex_is_match("^\\p{Nd}$", h.as_str())
}

/// The characters of `s`, in order.
pub fn to_chars(s: &str) -> (r: Vec<char>)
    ensures
        r@ == s@,
{
    let mut out: Vec<char> = Vec::new();
    for c in it: s.chars()
        invariant
            out@ == it.seq().take(it.index() as int),
            it.seq() == s@,
    {
        out.push(c);
    }
    out
}

/// A `String` holding exactly the characters of `v`.
pub fn from_chars(v: &Vec<char>) -> (r: String)
    ensures
        r@ == v@,
{
    let mut s = String::new();
    let mut i: usize = 0;
    while i < v.len()
        invariant
            i <= v.len(),
            s@ == v@.take(i as int),
        decreases v.len() - i,
    {
        s.push(v[i]);
        i += 1;
        assert(s@ == v@.take(i as int));
    }
    s
}

/// The characters of `s[a..b]`, appended to `out`.
pub fn push_range(out: &mut Vec<char>, s: &Vec<char>, a: usize, b: usize)
    requires
        a <= b <= s.len(),
    ensures
        final(out)@ == old(out)@ + s@.subrange(a as int, b as int),
{
    let ghost start = out@;
    let mut i = a;
    while i < b
        invariant
            a <= i <= b <= s.len(),
            out@ == start + s@.subrange(a as int, i as int),
        decreases b - i,
    {
        out.push(s[i]);
        i += 1;
        assert(out@ == start + s@.subrange(a as int, i as int));
    }
}

/// All of `s`, appended to `out`.
pub fn push_all(out: &mut Vec<char>, s: &Vec<char>)
    ensures
        final(out)@ == old(out)@ + s@,
{
    push_range(out, s, 0, s.len());
    assert(s@.subrange(0, s@.len() as int) =~= s@);
}

/// The characters of a literal, appended to `out`.
pub fn push_str(out: &mut Vec<char>, s: &str)
    ensures
        final(out)@ == old(out)@ + s@,
{
    let v = to_chars(s);
    push_all(out, &v);
}

/// First position at or after `i` that is not whitespace (or the end).
pub open spec fn skip_ws(s: Seq<char>, i: int) -> int
    decreases s.len() - i,
{
    if 0 <= i < s.len() && white_space(s[i]) {
        skip_ws(s, i + 1)
    } else {
        i
    }
}

/// First position at or after `i` that is whitespace (or the end).
pub open spec fn word_end(s: Seq<char>, i: int) -> int
    decreases s.len() - i,
{
    if 0 <= i < s.len() && !white_space(s[i]) {
        word_end(s, i + 1)
    } else {
        i
    }
}

/// End of the text once trailing whitespace before `j` is dropped.
pub open spec fn trim_end_at(s: Seq<char>, j: int) -> int
    decreases j,
{
    if 0 < j <= s.len() && white_space(s[j - 1]) {
        trim_end_at(s, j - 1)
    } else {
        j
    }
}

pub proof fn lemma_skip_ws(s: Seq<char>, i: int)
    requires
        0 <= i <= s.len(),
    ensures
        i <= skip_ws(s, i) <= s.len(),
        skip_ws(s, i) < s.len() ==> !white_space(s[skip_ws(s, i)]),
        forall|k: int| i <= k < skip_ws(s, i) ==> white_space(#[trigger] s[k]),
    decreases s.len() - i,
{
    if i < s.len() && white_space(s[i]) {
        lemma_skip_ws(s, i + 1);
    }
}

pub proof fn lemma_word_end(s: Seq<char>, i: int)
    requires
        0 <= i <= s.len(),
    ensures
        i <= word_end(s, i) <= s.len(),
        word_end(s, i) < s.len() ==> white_space(s[word_end(s, i)]),
        forall|k: int| i <= k < word_end(s, i) ==> !white_space(#[trigger] s[k]),
    decreases s.len() - i,
{
    if i < s.len() && !white_space(s[i]) {
        lemma_word_end(s, i + 1);
    }
}

pub proof fn lemma_trim_end_at(s: Seq<char>, j: int)
    requires
        0 <= j <= s.len(),
    ensures
        0 <= trim_end_at(s, j) <= j,
        trim_end_at(s, j) > 0 ==> !white_space(s[trim_end_at(s, j) - 1]),
        forall|k: int| trim_end_at(s, j) <= k < j ==> white_space(#[trigger] s[k]),
    decreases j,
{
    if 0 < j && white_space(s[j - 1]) {
        lemma_trim_end_at(s, j - 1);
    }
}

/// `str::trim`: leading and trailing whitespace removed.
pub open spec fn trim(s: Seq<char>) -> Seq<char> {
    let a = skip_ws(s, 0);
    let b = trim_end_at(s, s.len() as int);
    if a < b {
        s.subrange(a, b)
    } else {
        Seq::empty()
    }
}

/// Bounds `(a, b)` with `trim(s) == s[a..b]`.
pub fn trim_bounds(s: &Vec<char>) -> (r: (usize, usize))
    ensures
        r.0 <= r.1 <= s.len(),
        trim(s@) == s@.subrange(r.0 as int, r.1 as int),
{
    let n = s.len();
    let mut a: usize = 0;
    while a < n && is_white_space(s[a])
        invariant
            a <= n == s.len(),
            skip_ws(s@, 0) == skip_ws(s@, a as int),
        decreases n - a,
    {
        a += 1;
    }
    let mut b: usize = n;
    while b > 0 && is_white_space(s[b - 1])
        invariant
            b <= n == s.len(),
            trim_end_at(s@, n as int) == trim_end_at(s@, b as int),
        decreases b,
    {
        b -= 1;
    }
    if a < b {
        (a, b)
    } else {
        (0, 0)
    }
}

/// `str::trim` on a character vector.
pub fn trim_chars(s: &Vec<char>) -> (r: Vec<char>)
    ensures
        r@ == trim(s@),
{
    let (a, b) = trim_bounds(s);
    let mut out = Vec::new();
    push_range(&mut out, s, a, b);
    out
}

/// `trim(s)` is a slice of `s`.
pub proof fn lemma_trim_slice(s: Seq<char>) -> (ab: (int, int))
    ensures
        0 <= ab.0 <= ab.1 <= s.len(),
        trim(s) == s.subrange(ab.0, ab.1),
{
    lemma_skip_ws(s, 0);
    lemma_trim_end_at(s, s.len() as int);
    let a = skip_ws(s, 0);
    let b = trim_end_at(s, s.len() as int);
    if a < b {
        (a, b)
    } else {
        assert(s.subrange(0, 0) =~= Seq::<char>::empty());
        (0, 0)
    }
}

pub proof fn lemma_trim_props(s: Seq<char>)
    ensures
        trim(s).len() > 0 ==> !white_space(trim(s)[0]) && !white_space(trim(s).last()),
        trim(s).len() <= s.len(),
        (forall|k: int| 0 <= k < s.len() ==> !white_space(#[trigger] s[k])) ==> trim(s) == s,
{
    lemma_skip_ws(s, 0);
    lemma_trim_end_at(s, s.len() as int);
    if forall|k: int| 0 <= k < s.len() ==> !white_space(#[trigger] s[k]) {
        if s.len() > 0 {
            assert(!white_space(s[0]));
            assert(!white_space(s[s.len() - 1]));
        }
        assert(s.subrange(0, s.len() as int) =~= s);
    }
}

/// The maximal runs of non-whitespace characters of `s` starting at or after `i`.
pub open spec fn words_from(s: Seq<char>, i: int) -> Seq<Seq<char>>
    decreases s.len() - i,
{
    if i < 0 || i >= s.len() {
        Seq::empty()
    } else if white_space(s[i]) {
        words_from(s, i + 1)
    } else {
        let k = word_end(s, i);
        proof {
            lemma_word_end(s, i + 1);
        }
        seq![s.subrange(i, k)] + words_from(s, k)
    }
}

/// The words joined by single spaces.
pub open spec fn join_words(ws: Seq<Seq<char>>) -> Seq<char>
    decreases ws.len(),
{
    if ws.len() == 0 {
        Seq::empty()
    } else if ws.len() == 1 {
        ws[0]
    } else {
        join_words(ws.drop_last()) + seq![' '] + ws.last()
    }
}

/// `split_whitespace().join(" ")`: whitespace runs collapsed to one space, both ends trimmed.
pub open spec fn collapse(s: Seq<char>) -> Seq<char> {
    join_words(words_from(s, 0))
}

pub proof fn lemma_join_push(ws: Seq<Seq<char>>, w: Seq<char>)
    ensures
        join_words(ws.push(w)) == if ws.len() == 0 {
            w
        } else {
            join_words(ws) + seq![' '] + w
        },
{
    assert(ws.push(w).drop_last() =~= ws);
    if ws.len() == 0 {
        assert(ws.push(w)[0] == w);
    }
}

proof fn lemma_word_end_append(a: Seq<char>, w: Seq<char>, i: int)
    requires
        0 <= i <= a.len(),
    ensures
        word_end(a + seq![' '] + w, i) == word_end(a, i),
    decreases a.len() - i,
{
    let t = a + seq![' '] + w;
    if i < a.len() {
        assert(t[i] == a[i]);
        if !white_space(a[i]) {
            lemma_word_end_append(a, w, i + 1);
        }
    } else {
        assert(t[i] == ' ');
    }
}

proof fn lemma_word_end_plain(s: Seq<char>, i: int)
    requires
        0 <= i <= s.len(),
        forall|k: int| i <= k < s.len() ==> !white_space(#[trigger] s[k]),
    ensures
        word_end(s, i) == s.len(),
    decreases s.len() - i,
{
    if i < s.len() {
        assert(!white_space(s[i]));
        lemma_word_end_plain(s, i + 1);
    }
}

/// The words of `s` are not empty and hold no whitespace.
pub proof fn lemma_words_plain(s: Seq<char>, i: int)
    requires
        0 <= i,
    ensures
        forall|j: int| 0 <= j < words_from(s, i).len() ==> (#[trigger] words_from(s, i)[j]).len() > 0,
        forall|j: int, k: int|
            0 <= j < words_from(s, i).len() && 0 <= k < words_from(s, i)[j].len() ==> !white_space(
                #[trigger] words_from(s, i)[j][k],
            ),
    decreases s.len() - i,
{
    if i < s.len() {
        if white_space(s[i]) {
            lemma_words_plain(s, i + 1);
            assert(words_from(s, i) == words_from(s, i + 1));
        } else {
            let k = word_end(s, i);
            lemma_word_end(s, i + 1);
            lemma_word_end(s, i);
            assert(k == word_end(s, i + 1));
            assert(i < k <= s.len());
            lemma_words_plain(s, k);
            let rest = words_from(s, k);
            let all = seq![s.subrange(i, k)] + rest;
            assert(words_from(s, i) == all);
            assert forall|j: int| 0 <= j < all.len() implies (#[trigger] all[j]).len() > 0 by {
                if j > 0 {
                    assert(all[j] == rest[j - 1]);
                }
            }
            assert forall|j: int, q: int| 0 <= j < all.len() && 0 <= q < all[j].len() implies !white_space(
                #[trigger] all[j][q],
            ) by {
                if j > 0 {
                    assert(all[j] == rest[j - 1]);
                } else {
                    assert(all[j][q] == s[i + q]);
                }
            }
        }
    }
}

proof fn lemma_words_append(a: Seq<char>, w: Seq<char>, i: int)
    requires
        0 <= i <= a.len(),
        w.len() > 0,
        forall|k: int| 0 <= k < w.len() ==> !white_space(#[trigger] w[k]),
    ensures
        words_from(a + seq![' '] + w, i) == words_from(a, i).push(w),
    decreases a.len() - i,
{
    let t = a + seq![' '] + w;
    if i == a.len() {
        assert(t[i] == ' ');
        assert(t[i + 1] == w[0]);
        assert forall|k: int| i + 1 <= k < t.len() implies !white_space(#[trigger] t[k]) by {
            assert(t[k] == w[k - i - 1]);
        }
        lemma_word_end_plain(t, i + 1);
        assert(t.subrange(i + 1, t.len() as int) =~= w);
        assert(!white_space(t[i + 1]));
        assert(words_from(t, t.len() as int) =~= Seq::<Seq<char>>::empty());
        assert(words_from(t, i + 1) =~= seq![w]);
        assert(words_from(a, i).push(w) =~= seq![w]);
    } else {
        assert(t[i] == a[i]);
        if white_space(a[i]) {
            lemma_words_append(a, w, i + 1);
        } else {
            let k = word_end(a, i);
            lemma_word_end_append(a, w, i);
            lemma_word_end(a, i + 1);
            lemma_word_end(a, i);
            lemma_words_append(a, w, k);
            assert(t.subrange(i, k) =~= a.subrange(i, k));
            assert(seq![a.subrange(i, k)] + words_from(a, k).push(w) =~= (seq![a.subrange(i, k)] + words_from(
                a,
                k,
            )).push(w));
        }
    }
}

/// Words without whitespace, joined by single spaces, split back into the same words.
pub proof fn lemma_words_of_join(ws: Seq<Seq<char>>)
    requires
        forall|j: int| 0 <= j < ws.len() ==> (#[trigger] ws[j]).len() > 0,
        forall|j: int, k: int| 0 <= j < ws.len() && 0 <= k < ws[j].len() ==> !white_space(#[trigger] ws[j][k]),
    ensures
        words_from(join_words(ws), 0) == ws,
    decreases ws.len(),
{
    if ws.len() == 0 {
        assert(words_from(join_words(ws), 0) =~= ws);
    } else if ws.len() == 1 {
        let w = ws[0];
        assert forall|k: int| 0 <= k < w.len() implies !white_space(#[trigger] w[k]) by {
            assert(!white_space(ws[0][k]));
        }
        lemma_word_end_plain(w, 0);
        assert(w.subrange(0, w.len() as int) =~= w);
        assert(!white_space(w[0]));
        assert(words_from(w, w.len() as int) =~= Seq::<Seq<char>>::empty());
        assert(words_from(w, 0) =~= seq![w]);
        assert(ws =~= seq![w]);
    } else {
        let init = ws.drop_last();
        let w = ws.last();
        assert forall|j: int, k: int| 0 <= j < init.len() && 0 <= k < init[j].len() implies !white_space(
            #[trigger] init[j][k],
        ) by {
            assert(init[j] == ws[j]);
            assert(!white_space(ws[j][k]));
        }
        assert forall|j: int| 0 <= j < init.len() implies (#[trigger] init[j]).len() > 0 by {
            assert(init[j] == ws[j]);
        }
        lemma_words_of_join(init);
        assert forall|k: int| 0 <= k < w.len() implies !white_space(#[trigger] w[k]) by {
            assert(!white_space(ws[ws.len() - 1][k]));
        }
        assert(ws[ws.len() - 1].len() > 0);
        lemma_words_append(join_words(init), w, 0);
        assert(init.push(w) =~= ws);
    }
}

/// Collapsing whitespace a second time changes nothing.
pub proof fn lemma_collapse_idempotent(s: Seq<char>)
    ensures
        collapse(collapse(s)) == collapse(s),
{
    lemma_words_plain(s, 0);
    lemma_words_of_join(words_from(s, 0));
}

pub fn collapse_spaces(s: &Vec<char>) -> (r: Vec<char>)
    ensures
        r@ == collapse(s@),
{
    let n = s.len();
    let mut out: Vec<char> = Vec::new();
    let mut i: usize = 0;
    let ghost mut done: Seq<Seq<char>> = Seq::empty();
    while i < n
        invariant
            i <= n == s.len(),
            words_from(s@, 0) == done + words_from(s@, i as int),
            out@ == join_words(done),
            out@.len() == 0 <==> done.len() == 0,
            forall|k: int| 0 <= k < done.len() ==> (#[trigger] done[k]).len() > 0,
        decreases n - i,
    {
        if is_white_space(s[i]) {
            i += 1;
        } else {
            let mut k = i + 1;
            while k < n && !is_white_space(s[k])
                invariant
                    i < k <= n == s.len(),
                    word_end(s@, (i + 1) as int) == word_end(s@, k as int),
                decreases n - k,
            {
                k += 1;
            }
            proof {
                lemma_word_end(s@, (i + 1) as int);
                lemma_join_push(done, s@.subrange(i as int, k as int));
                assert(words_from(s@, i as int) == seq![s@.subrange(i as int, k as int)] + words_from(
                    s@,
                    k as int,
                ));
                assert(done + words_from(s@, i as int) =~= done.push(s@.subrange(i as int, k as int))
                    + words_from(s@, k as int));
            }
            if out.len() > 0 {
                out.push(' ');
            }
            push_range(&mut out, s, i, k);
            proof {
                done = done.push(s@.subrange(i as int, k as int));
            }
            i = k;
        }
    }
    out
}

/// The parts joined with `sep` between them.
pub open spec fn join_with(parts: Seq<Seq<char>>, sep: Seq<char>) -> Seq<char>
    decreases parts.len(),
{
    if parts.len() == 0 {
        Seq::empty()
    } else if parts.len() == 1 {
        parts[0]
    } else {
        join_with(parts.drop_last(), sep) + sep + parts.last()
    }
}

} // verus!
