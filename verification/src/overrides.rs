//! Manual phonemes: `[text](/ipa/)`, the syntax of Kokoro/misaki, e.g. "Lubię [Kokoro](/kɔkˈɔrɔ/)." The IPA between
//! the slashes reaches the model verbatim, bypassing the phonemizer. It is taken out BEFORE normalization (so that
//! ':' or digits inside it are left alone) and replaced by a marker made of private-use characters (no digits, no
//! letters, so it survives normalization and sentence splitting).

use vstd::prelude::*;

use crate::chars::{
    collapse, collapse_spaces, from_chars, is_white_space, lemma_trim_props, push_all, push_range, push_str,
    to_chars, trim, trim_chars, white_space,
};
use crate::normalize::{rewrite, rewrite_exec, step_view, Step};
use crate::text::{seqs, strs, to_strings, PH_OPEN};

verus! {

pub const PH_CLOSE: char = '\u{E001}';

pub const PH_BASE: u32 = 0xE100;

/// How many overrides fit in the private-use block; further ones stay plain text.
pub const PH_MAX: usize = 6143;

/// The private-use character that stands for override number `idx`.
pub open spec fn marker_char(idx: int) -> char {
    ((PH_BASE + idx) as u32) as char
}

/// Marker for override number `idx`: open, the numbered private-use character, close.
pub open spec fn placeholder_spec(idx: int) -> Seq<char> {
    seq![PH_OPEN, marker_char(idx), PH_CLOSE]
}

proof fn lemma_char_of_code(c: char, v: u32)
    requires
        c as u32 == v,
    ensures
        c == v as char,
{
}

fn placeholder(out: &mut Vec<char>, idx: usize)
    requires
        idx < PH_MAX,
    ensures
        final(out)@ == old(out)@ + placeholder_spec(idx as int),
{
    let v: u32 = PH_BASE + idx as u32;
    let c = char::from_u32(v).unwrap();
    assert(c as u32 == v);
    assert(v == (PH_BASE + idx) as u32);
    assert(marker_char(idx as int) == (v as char));
    proof {
        lemma_char_of_code(c, v);
    }
    out.push(PH_OPEN);
    out.push(c);
    out.push(PH_CLOSE);
    assert(final(out)@ =~= old(out)@ + placeholder_spec(idx as int));
}

/// First position at or after `i` whose character is `'\n'` or one of `a`, `b` (or the end).
pub open spec fn run_until(s: Seq<char>, i: int, a: char, b: char) -> int
    decreases s.len() - i,
{
    if 0 <= i < s.len() && s[i] != '\n' && s[i] != a && s[i] != b {
        run_until(s, i + 1, a, b)
    } else {
        i
    }
}

pub proof fn lemma_run_until(s: Seq<char>, i: int, a: char, b: char)
    requires
        0 <= i <= s.len(),
    ensures
        i <= run_until(s, i, a, b) <= s.len(),
    decreases s.len() - i,
{
    if i < s.len() && s[i] != '\n' && s[i] != a && s[i] != b {
        lemma_run_until(s, i + 1, a, b);
    }
}

/// `\[([^\[\]\n]*)\]\(/([^/\n]*)/\)` at position `p`: the end of the text group, the end of the IPA group and the
/// end of the match. The text group starts at `p + 1`, the IPA group at three past the end of the text group.
pub open spec fn override_match(s: Seq<char>, p: int) -> Option<(int, int, int)> {
    if 0 <= p < s.len() && s[p] == '[' {
        let e1 = run_until(s, p + 1, '[', ']');
        if e1 < s.len() && s.len() - e1 > 2 && s[e1] == ']' && s[e1 + 1] == '(' && s[e1 + 2] == '/' {
            let e2 = run_until(s, e1 + 3, '/', '/');
            if e2 < s.len() && s.len() - e2 > 1 && s[e2] == '/' && s[e2 + 1] == ')' {
                Some((e1, e2, e2 + 2))
            } else {
                None
            }
        } else {
            None
        }
    } else {
        None
    }
}

pub proof fn lemma_override_match(s: Seq<char>, p: int)
    requires
        0 <= p < s.len(),
    ensures
        override_match(s, p) matches Some((e1, e2, end)) ==> p + 1 <= e1 && e1 + 3 <= e2 && e2 + 2
            == end <= s.len(),
{
    if s[p] == '[' {
        lemma_run_until(s, p + 1, '[', ']');
        let e1 = run_until(s, p + 1, '[', ']');
        if e1 + 2 < s.len() {
            lemma_run_until(s, e1 + 3, '/', '/');
        }
    }
}

/// The text with every override from `p` on replaced (`ovr` holds those found before `p`), and the final list of
/// override IPAs. An empty `//` or a full marker block leaves the bracketed text as plain text.
pub open spec fn extract_from(s: Seq<char>, p: int, ovr: Seq<Seq<char>>) -> (Seq<char>, Seq<Seq<char>>)
    decreases s.len() - p,
{
    if p < 0 || p >= s.len() {
        (Seq::empty(), ovr)
    } else {
        proof {
            lemma_override_match(s, p);
        }
        match override_match(s, p) {
            Some((e1, e2, end)) => {
                let ipa = trim(s.subrange(e1 + 3, e2));
                if ipa.len() == 0 || ovr.len() >= PH_MAX {
                    let rest = extract_from(s, end, ovr);
                    (s.subrange(p + 1, e1) + rest.0, rest.1)
                } else {
                    let rest = extract_from(s, end, ovr.push(collapse(ipa)));
                    (placeholder_spec(ovr.len() as int) + rest.0, rest.1)
                }
            },
            None => {
                let rest = extract_from(s, p + 1, ovr);
                (seq![s[p]] + rest.0, rest.1)
            },
        }
    }
}

fn run_until_exec(s: &Vec<char>, i: usize, a: char, b: char) -> (r: usize)
    requires
        i <= s.len(),
    ensures
        r == run_until(s@, i as int, a, b),
        i <= r <= s.len(),
{
    proof {
        lemma_run_until(s@, i as int, a, b);
    }
    let mut k = i;
    while k < s.len() && s[k] != '\n' && s[k] != a && s[k] != b
        invariant
            i <= k <= s.len(),
            run_until(s@, i as int, a, b) == run_until(s@, k as int, a, b),
        decreases s.len() - k,
    {
        k += 1;
    }
    k
}

fn override_match_exec(s: &Vec<char>, p: usize) -> (r: Option<(usize, usize, usize)>)
    requires
        p < s.len(),
    ensures
        r matches Some((a, b, c)) ==> override_match(s@, p as int) == Some((a as int, b as int, c as int)),
        r is None ==> override_match(s@, p as int) is None,
{
    proof {
        lemma_override_match(s@, p as int);
    }
    if s[p] != '[' {
        return None;
    }
    let e1 = run_until_exec(s, p + 1, '[', ']');
    if e1 < s.len() && s.len() - e1 > 2 && s[e1] == ']' && s[e1 + 1] == '(' && s[e1 + 2] == '/' {
        let e2 = run_until_exec(s, e1 + 3, '/', '/');
        if e2 < s.len() && s.len() - e2 > 1 && s[e2] == '/' && s[e2 + 1] == ')' {
            return Some((e1, e2, e2 + 2));
        }
    }
    None
}

/// Replaces `[text](/ipa/)` by markers; an empty `//` leaves plain text. Returns the marked text and the list of
/// override IPAs (each with its whitespace collapsed), marker `i` standing for entry `i`.
pub fn extract_overrides(text: &str) -> (r: (String, Vec<String>))
    ensures
        (r.0@, strs(r.1@)) == extract_from(text@, 0, Seq::empty()),
{
    let s = to_chars(text);
    let n = s.len();
    let mut out: Vec<char> = Vec::new();
    let mut ovr: Vec<Vec<char>> = Vec::new();
    let mut p: usize = 0;
    assert(seqs(ovr@) =~= Seq::<Seq<char>>::empty());
    assert(out@ + extract_from(s@, 0, Seq::empty()).0 =~= extract_from(s@, 0, Seq::empty()).0);
    while p < n
        invariant
            p <= n == s.len(),
            extract_from(s@, 0, Seq::empty()).0 == out@ + extract_from(s@, p as int, seqs(ovr@)).0,
            extract_from(s@, 0, Seq::empty()).1 == extract_from(s@, p as int, seqs(ovr@)).1,
        decreases n - p,
    {
        match override_match_exec(&s, p) {
            Some((e1, e2, end)) => {
                proof {
                    lemma_override_match(s@, p as int);
                }
                let mut raw = Vec::new();
                push_range(&mut raw, &s, e1 + 3, e2);
                let ipa = trim_chars(&raw);
                if ipa.len() == 0 || ovr.len() >= PH_MAX {
                    push_range(&mut out, &s, p + 1, e1);
                } else {
                    let idx = ovr.len();
                    placeholder(&mut out, idx);
                    let c = collapse_spaces(&ipa);
                    let ghost before = ovr@;
                    ovr.push(c);
                    assert(seqs(ovr@) =~= seqs(before).push(collapse(ipa@)));
                }
                p = end;
            },
            None => {
                out.push(s[p]);
                p += 1;
            },
        }
    }
    assert(out@ + Seq::<char>::empty() =~= out@);
    let ovr_s = to_strings(&ovr);
    (from_chars(&out), ovr_s)
}

/// `\x{E000}(.)\x{E001}` at position `p`.
pub open spec fn marker_at(s: Seq<char>, p: int) -> bool {
    0 <= p && p + 2 < s.len() && s[p] == PH_OPEN && s[p + 1] != '\n' && s[p + 2] == PH_CLOSE
}

fn marker_at_exec(s: &Vec<char>, p: usize) -> (r: bool)
    requires
        p <= s.len(),
    ensures
        r == marker_at(s@, p as int),
{
    p < s.len() && s.len() - p > 2 && s[p] == PH_OPEN && s[p + 1] != '\n' && s[p + 2] == PH_CLOSE
}

/// The chunk trimmed, as a one-element list, or nothing when it is blank.
pub open spec fn piece_of(chunk: Seq<char>) -> Seq<Seq<char>> {
    if trim(chunk).len() > 0 {
        seq![trim(chunk)]
    } else {
        Seq::empty()
    }
}

/// The trimmed, non-blank text between markers, from the chunk that began at `start` (scan at `i`).
pub open spec fn pieces_from(s: Seq<char>, start: int, i: int) -> Seq<Seq<char>>
    decreases s.len() - i,
{
    if i < 0 || i >= s.len() {
        piece_of(s.subrange(start, s.len() as int))
    } else if marker_at(s, i) {
        piece_of(s.subrange(start, i)) + pieces_from(s, i + 3, i + 3)
    } else {
        pieces_from(s, start, i + 1)
    }
}

/// Pieces of text to phonemize (no markers, no surrounding whitespace).
pub fn text_pieces(sentence: &str) -> (r: Vec<String>)
    ensures
        strs(r@) == pieces_from(sentence@, 0, 0),
{
    let s = to_chars(sentence);
    let n = s.len();
    let mut out: Vec<Vec<char>> = Vec::new();
    let mut start: usize = 0;
    let mut i: usize = 0;
    while i < n
        invariant
            start <= i <= n == s.len(),
            pieces_from(s@, 0, 0) == seqs(out@) + pieces_from(s@, start as int, i as int),
        decreases n - i,
    {
        if marker_at_exec(&s, i) {
            let mut chunk = Vec::new();
            push_range(&mut chunk, &s, start, i);
            let t = trim_chars(&chunk);
            if t.len() > 0 {
                let ghost before = out@;
                out.push(t);
                assert(seqs(out@) =~= seqs(before) + piece_of(s@.subrange(start as int, i as int)));
            } else {
                assert(seqs(out@) + piece_of(s@.subrange(start as int, i as int)) =~= seqs(out@));
            }
            i = i + 3;
            start = i;
        } else {
            i += 1;
        }
    }
    let mut chunk = Vec::new();
    push_range(&mut chunk, &s, start, n);
    let t = trim_chars(&chunk);
    if t.len() > 0 {
        let ghost before = out@;
        out.push(t);
        assert(seqs(out@) =~= seqs(before) + piece_of(s@.subrange(start as int, n as int)));
    } else {
        assert(seqs(out@) + piece_of(s@.subrange(start as int, n as int)) =~= seqs(out@));
    }
    to_strings(&out)
}

/// The IPA of the override that marker character `c` stands for, or nothing for an unknown marker.
pub open spec fn override_text(overrides: Seq<Seq<char>>, c: char) -> Seq<char> {
    let v = c as u32;
    if v >= PH_BASE && v - PH_BASE < overrides.len() {
        overrides[v - PH_BASE]
    } else {
        Seq::empty()
    }
}

/// One chunk between markers: its trimmed core replaced by the IPA `ipa`, one space kept on each side that had
/// whitespace; an empty chunk contributes nothing.
pub open spec fn chunk_text(chunk: Seq<char>, ipa: Seq<char>) -> Seq<char> {
    if chunk.len() == 0 {
        Seq::empty()
    } else {
        (if white_space(chunk[0]) {
            seq![' ']
        } else {
            Seq::empty()
        }) + (if trim(chunk).len() > 0 {
            ipa
        } else {
            Seq::empty()
        }) + (if white_space(chunk.last()) {
            seq![' ']
        } else {
            Seq::empty()
        })
    }
}

/// How many phonemizer results a chunk consumes (one for a non-blank chunk).
pub open spec fn uses(chunk: Seq<char>) -> int {
    if trim(chunk).len() > 0 {
        1
    } else {
        0
    }
}

/// The IPA of a sentence before whitespace is collapsed: chunks go through `outs` (the phonemizer's answers for
/// `pieces_from`, in order, the next one being `outs[m]`), markers become their overrides.
pub open spec fn assemble_from(
    s: Seq<char>,
    overrides: Seq<Seq<char>>,
    outs: Seq<Seq<char>>,
    start: int,
    i: int,
    m: int,
) -> Seq<char>
    decreases s.len() - i,
{
    if i < 0 || i >= s.len() {
        chunk_text(s.subrange(start, s.len() as int), outs[m])
    } else if marker_at(s, i) {
        let chunk = s.subrange(start, i);
        chunk_text(chunk, outs[m]) + override_text(overrides, s[i + 1]) + assemble_from(
            s,
            overrides,
            outs,
            i + 3,
            i + 3,
            m + uses(chunk),
        )
    } else {
        assemble_from(s, overrides, outs, start, i + 1, m)
    }
}

/// The IPA of a sentence given the phonemizer's answers `outs` for its pieces.
pub open spec fn sentence_ipa_spec(s: Seq<char>, overrides: Seq<Seq<char>>, outs: Seq<Seq<char>>) -> Seq<
    char,
> {
    collapse(assemble_from(s, overrides, outs, 0, 0, 0))
}

/// `o` is an answer that `ipa_of` can give for the text `t`.
pub open spec fn answer_for<F: Fn(&str) -> String>(ipa_of: F, t: Seq<char>, o: Seq<char>) -> bool {
    exists|ts: &str, os: String| #![trigger ipa_of.ensures((ts,), os)] ts@ == t && os@ == o && ipa_of.ensures((ts,), os)
}

/// `outs` are answers of `ipa_of` for `pieces`, one each, in order.
pub open spec fn answers<F: Fn(&str) -> String>(ipa_of: F, pieces: Seq<Seq<char>>, outs: Seq<Seq<char>>) -> bool {
    &&& outs.len() == pieces.len()
    &&& forall|k: int| 0 <= k < pieces.len() ==> #[trigger] answer_for(ipa_of, pieces[k], outs[k])
}

fn override_at(overrides: &Vec<Vec<char>>, c: char) -> (r: Vec<char>)
    ensures
        r@ == override_text(seqs(overrides@), c),
{
    let v = c as u32;
    let mut out = Vec::new();
    if v >= PH_BASE && ((v - PH_BASE) as usize) < overrides.len() {
        push_all(&mut out, &overrides[(v - PH_BASE) as usize]);
    }
    out
}

/// The characters of every string.
pub(crate) fn to_char_vecs(v: &Vec<String>) -> (r: Vec<Vec<char>>)
    ensures
        seqs(r@) == strs(v@),
{
    let mut out: Vec<Vec<char>> = Vec::new();
    let mut i: usize = 0;
    while i < v.len()
        invariant
            i <= v.len(),
            seqs(out@) =~= strs(v@).take(i as int),
        decreases v.len() - i,
    {
        let c = to_chars(v[i].as_str());
        let ghost before = out@;
        out.push(c);
        assert(seqs(out@) =~= seqs(before).push(v@[i as int]@));
        assert(strs(v@).take(i + 1) =~= strs(v@).take(i as int).push(v@[i as int]@));
        i += 1;
    }
    assert(strs(v@).take(v.len() as int) =~= strs(v@));
    out
}

/// Builds the IPA of a sentence: text pieces go through `ipa_of`, markers become the manual IPA. A single space is
/// kept where a piece meets an override ("Grę [X](/x/) lubię"). `ipa_of` is only ever given the pieces of the
/// sentence, never a marker or a manual phoneme.
pub fn sentence_ipa<F: Fn(&str) -> String>(sentence: &str, overrides: &Vec<String>, ipa_of: F) -> (r: String)
    requires
        forall|t: &str| pieces_from(sentence@, 0, 0).contains(t@) ==> #[trigger] ipa_of.requires((t,)),
    ensures
        exists|outs: Seq<Seq<char>>|
            answers(ipa_of, pieces_from(sentence@, 0, 0), outs) && r@ == sentence_ipa_spec(
                sentence@,
                strs(overrides@),
                outs,
            ),
        collapse(r@) == r@,
{
    let pieces = text_pieces(sentence);
    let ghost ps = strs(pieces@);
    let mut outs_v: Vec<Vec<char>> = Vec::new();
    let mut k: usize = 0;
    while k < pieces.len()
        invariant
            k <= pieces.len(),
            outs_v.len() == k,
            ps == strs(pieces@),
            ps == pieces_from(sentence@, 0, 0),
            forall|t: &str| pieces_from(sentence@, 0, 0).contains(t@) ==> #[trigger] ipa_of.requires((t,)),
            forall|j: int| 0 <= j < k ==> #[trigger] answer_for(ipa_of, ps[j], seqs(outs_v@)[j]),
        decreases pieces.len() - k,
    {
        let piece: &str = pieces[k].as_str();
        assert(ps[k as int] == piece@);
        assert(ps.contains(piece@));
        let o = ipa_of(piece);
        assert(ipa_of.ensures((piece,), o));
        let oc = to_chars(o.as_str());
        let ghost before = outs_v@;
        outs_v.push(oc);
        assert(seqs(outs_v@) =~= seqs(before).push(o@));
        assert(ps[k as int] == pieces@[k as int]@);
        assert(answer_for(ipa_of, ps[k as int], o@));
        assert forall|j: int| 0 <= j < k + 1 implies #[trigger] answer_for(ipa_of, ps[j], seqs(outs_v@)[j]) by {
            if j < k {
                assert(seqs(outs_v@)[j] == seqs(before)[j]);
            } else {
                assert(seqs(outs_v@)[j] == o@);
            }
        }
        k += 1;
    }
    let ghost outs = seqs(outs_v@);
    assert(outs.len() == ps.len());
    assert(ps == pieces_from(sentence@, 0, 0));
    assert(answers(ipa_of, ps, outs));
    assert(answers(ipa_of, pieces_from(sentence@, 0, 0), outs));
    let s = to_chars(sentence);
    let ovr = to_char_vecs(overrides);
    let c = sentence_ipa_with(&s, &ovr, &outs_v);
    assert(c@ == sentence_ipa_spec(sentence@, strs(overrides@), outs));
    proof {
        lemma_sentence_ipa_collapsed(sentence@, strs(overrides@), outs);
    }
    from_chars(&c)
}

/// The IPA of a sentence given the phonemizer's answers for its pieces (`outs[k]` for piece `k`).
pub fn sentence_ipa_with(s: &Vec<char>, ovr: &Vec<Vec<char>>, outs_v: &Vec<Vec<char>>) -> (r: Vec<char>)
    requires
        outs_v.len() == pieces_from(s@, 0, 0).len(),
    ensures
        r@ == sentence_ipa_spec(s@, seqs(ovr@), seqs(outs_v@)),
{
    let ghost ps = pieces_from(s@, 0, 0);
    let ghost outs = seqs(outs_v@);
    let n = s.len();
    let mut joined: Vec<char> = Vec::new();
    let mut start: usize = 0;
    let mut i: usize = 0;
    let mut m: usize = 0;
    assert(ps.take(0) + ps =~= ps);
    while i < n
        invariant
            start <= i <= n == s.len(),
            outs == seqs(outs_v@),
            outs.len() == ps.len(),
            outs_v.len() == ps.len(),
            m <= ps.len(),
            ps == pieces_from(s@, 0, 0),
            ps == ps.take(m as int) + pieces_from(s@, start as int, i as int),
            assemble_from(s@, seqs(ovr@), outs, 0, 0, 0) == joined@ + assemble_from(
                s@,
                seqs(ovr@),
                outs,
                start as int,
                i as int,
                m as int,
            ),
        decreases n - i,
    {
        if marker_at_exec(&s, i) {
            let ghost chunk = s@.subrange(start as int, i as int);
            let ghost before = joined@;
            let used = push_chunk(&mut joined, &s, start, i, &outs_v, m);
            proof {
                let rest = pieces_from(s@, i + 3, i + 3);
                assert(pieces_from(s@, start as int, i as int) == piece_of(chunk) + rest);
                if used == 1 {
                    assert(ps == ps.take(m as int) + seq![trim(chunk)] + rest);
                    assert(ps[m as int] == trim(chunk));
                    assert(ps.take(m + 1) =~= ps.take(m as int) + seq![trim(chunk)]);
                    assert(ps =~= ps.take(m + 1) + rest);
                } else {
                    assert(piece_of(chunk) =~= Seq::<Seq<char>>::empty());
                    assert(ps =~= ps.take(m as int) + rest);
                }
            }
            let o = override_at(&ovr, s[i + 1]);
            push_all(&mut joined, &o);
            assert(joined@ =~= before + chunk_text(chunk, outs[m as int]) + override_text(
                seqs(ovr@),
                s@[i + 1],
            ));
            m = m + used;
            i = i + 3;
            start = i;
        } else {
            i += 1;
        }
    }
    let ghost chunk = s@.subrange(start as int, n as int);
    let ghost before = joined@;
    let _ = push_chunk(&mut joined, &s, start, n, &outs_v, m);
    assert(joined@ =~= before + chunk_text(chunk, outs[m as int]));
    assert(joined@ == assemble_from(s@, seqs(ovr@), outs, 0, 0, 0));
    collapse_spaces(&joined)
}

/// Appends `chunk_text(s[a..b], outs[m])` and answers how many results it consumed.
fn push_chunk(out: &mut Vec<char>, s: &Vec<char>, a: usize, b: usize, outs: &Vec<Vec<char>>, m: usize) -> (r:
    usize)
    requires
        a <= b <= s.len(),
        m <= outs.len(),
        uses(s@.subrange(a as int, b as int)) == 1 ==> m < outs.len(),
    ensures
        r == uses(s@.subrange(a as int, b as int)),
        final(out)@ == old(out)@ + chunk_text(s@.subrange(a as int, b as int), seqs(outs@)[m as int]),
{
    let ghost chunk = s@.subrange(a as int, b as int);
    if a == b {
        assert(chunk_text(chunk, seqs(outs@)[m as int]) =~= Seq::<char>::empty());
        assert(final(out)@ =~= old(out)@ + Seq::<char>::empty());
        proof {
            assert(trim(chunk).len() <= chunk.len()) by {
                crate::chars::lemma_trim_props(chunk);
            }
        }
        return 0;
    }
    let mut c = Vec::new();
    push_range(&mut c, s, a, b);
    let t = trim_chars(&c);
    let lead = is_white_space(s[a]);
    let trail = is_white_space(s[b - 1]);
    assert(c@ == chunk);
    if lead {
        out.push(' ');
    }
    let mut used: usize = 0;
    if t.len() > 0 {
        push_all(out, &outs[m]);
        used = 1;
    }
    if trail {
        out.push(' ');
    }
    assert(final(out)@ =~= old(out)@ + chunk_text(chunk, seqs(outs@)[m as int]));
    used
}

proof fn lemma_extract_limit(s: Seq<char>, p: int, ovr: Seq<Seq<char>>)
    requires
        ovr.len() <= PH_MAX,
    ensures
        ovr.len() <= extract_from(s, p, ovr).1.len() <= PH_MAX,
        extract_from(s, p, ovr).1.take(ovr.len() as int) == ovr,
    decreases s.len() - p,
{
    if 0 <= p < s.len() {
        lemma_override_match(s, p);
        match override_match(s, p) {
            Some((e1, e2, end)) => {
                let ipa = trim(s.subrange(e1 + 3, e2));
                if ipa.len() == 0 || ovr.len() >= PH_MAX {
                    lemma_extract_limit(s, end, ovr);
                } else {
                    let o2 = ovr.push(collapse(ipa));
                    lemma_extract_limit(s, end, o2);
                    let r = extract_from(s, end, o2).1;
                    assert(r.take(ovr.len() as int) =~= r.take(o2.len() as int).take(ovr.len() as int));
                    assert(o2.take(ovr.len() as int) =~= ovr);
                }
            },
            None => {
                lemma_extract_limit(s, p + 1, ovr);
            },
        }
    } else {
        assert(ovr.take(ovr.len() as int) =~= ovr);
    }
}

/// At most `PH_MAX` manual phonemes are taken out of one text (the private-use block holds no more markers); the
/// ones after that stay plain text.
pub proof fn lemma_override_count(text: Seq<char>)
    ensures
        extract_from(text, 0, Seq::empty()).1.len() <= PH_MAX,
{
    lemma_extract_limit(text, 0, Seq::empty());
}

/// A piece as the phonemizer gets it: not empty, no whitespace at either end, and no manual-phoneme marker inside.
pub open spec fn plain_piece(p: Seq<char>) -> bool {
    &&& p.len() > 0
    &&& !white_space(p[0])
    &&& !white_space(p.last())
    &&& forall|k: int| !#[trigger] marker_at(p, k)
}

proof fn lemma_piece_of_plain(s: Seq<char>, a: int, b: int)
    requires
        0 <= a <= b <= s.len(),
        forall|k: int| a <= k < b ==> !#[trigger] marker_at(s, k),
    ensures
        forall|j: int| 0 <= j < piece_of(s.subrange(a, b)).len() ==> plain_piece(
            #[trigger] piece_of(s.subrange(a, b))[j],
        ),
{
    let chunk = s.subrange(a, b);
    let t = trim(chunk);
    if t.len() > 0 {
        lemma_trim_props(chunk);
        let ab = crate::chars::lemma_trim_slice(chunk);
        assert forall|k: int| !#[trigger] marker_at(t, k) by {
            if marker_at(t, k) {
                assert(t[k] == s[a + ab.0 + k]);
                assert(t[k + 1] == s[a + ab.0 + k + 1]);
                assert(t[k + 2] == s[a + ab.0 + k + 2]);
                assert(marker_at(s, a + ab.0 + k));
            }
        }
        assert(piece_of(chunk)[0] == t);
    }
}

proof fn lemma_pieces_from_plain(s: Seq<char>, start: int, i: int)
    requires
        0 <= start <= i,
        start <= s.len(),
        forall|k: int| start <= k < i ==> !#[trigger] marker_at(s, k),
    ensures
        forall|j: int| 0 <= j < pieces_from(s, start, i).len() ==> plain_piece(#[trigger] pieces_from(s, start, i)[j]),
    decreases s.len() - i,
{
    if i >= s.len() {
        assert forall|k: int| start <= k < s.len() implies !#[trigger] marker_at(s, k) by {
            if k >= i {
                assert(k + 2 >= s.len());
            }
        }
        lemma_piece_of_plain(s, start, s.len() as int);
        assert(pieces_from(s, start, i) == piece_of(s.subrange(start, s.len() as int)));
    } else if marker_at(s, i) {
        lemma_piece_of_plain(s, start, i);
        lemma_pieces_from_plain(s, i + 3, i + 3);
        let a = piece_of(s.subrange(start, i));
        let b = pieces_from(s, i + 3, i + 3);
        assert(pieces_from(s, start, i) == a + b);
        assert forall|j: int| 0 <= j < (a + b).len() implies plain_piece(#[trigger] (a + b)[j]) by {
            if j < a.len() {
                assert((a + b)[j] == a[j]);
            } else {
                assert((a + b)[j] == b[j - a.len()]);
            }
        }
    } else {
        lemma_pieces_from_plain(s, start, i + 1);
        assert(pieces_from(s, start, i) == pieces_from(s, start, i + 1));
    }
}

/// The phonemizer never sees a manual phoneme: every piece of a sentence is plain text, not empty, with no
/// whitespace at its ends and no marker inside.
pub proof fn lemma_pieces_are_plain(sentence: Seq<char>)
    ensures
        forall|j: int|
            0 <= j < pieces_from(sentence, 0, 0).len() ==> plain_piece(#[trigger] pieces_from(sentence, 0, 0)[j]),
{
    lemma_pieces_from_plain(sentence, 0, 0);
}

/// Marker character `c` stands for one of the overrides.
pub open spec fn known_marker(overrides: Seq<Seq<char>>, c: char) -> bool {
    let v = c as u32;
    v >= PH_BASE && v - PH_BASE < overrides.len()
}

/// For logs: a marker at `p` is shown as `{/ipa/}` (an unknown marker as nothing).
pub open spec fn show_rule(overrides: Seq<Seq<char>>, s: Seq<char>, p: int) -> Step {
    if marker_at(s, p) {
        Some(
            (
                p + 3,
                if known_marker(overrides, s[p + 1]) {
                    "{/"@ + override_text(overrides, s[p + 1]) + "/}"@
                } else {
                    Seq::empty()
                },
            ),
        )
    } else {
        None
    }
}

fn show_exec(overrides: &Vec<Vec<char>>, s: &Vec<char>, p: usize) -> (r: Option<(usize, Vec<char>)>)
    requires
        p < s.len(),
    ensures
        step_view(r) == show_rule(seqs(overrides@), s@, p as int),
{
    if !marker_at_exec(s, p) {
        return None;
    }
    let c = s[p + 1];
    let v = c as u32;
    let mut out: Vec<char> = Vec::new();
    if v >= PH_BASE && ((v - PH_BASE) as usize) < overrides.len() {
        push_str(&mut out, "{/");
        let o = override_at(overrides, c);
        push_all(&mut out, &o);
        push_str(&mut out, "/}");
    }
    Some((p + 3, out))
}

/// For logs: the text with every marker shown as `{/ipa/}` of its override.
pub fn show_overrides(text: &str, overrides: &Vec<String>) -> (r: String)
    ensures
        r@ == rewrite(text@, 0, |s: Seq<char>, p: int| show_rule(strs(overrides@), s, p)),
{
    let ovr = to_char_vecs(overrides);
    let s = to_chars(text);
    let ov = &ovr;
    let rule = |t: &Vec<char>, p: usize| -> (r: Option<(usize, Vec<char>)>)
        requires
            p < t.len(),
        ensures
            step_view(r) == show_rule(seqs(ov@), t@, p as int),
        { show_exec(ov, t, p) };
    let out = rewrite_exec(&s, rule, Ghost(|t: Seq<char>, p: int| show_rule(seqs(ovr@), t, p)));
    assert(seqs(ovr@) == strs(overrides@));
    from_chars(&out)
}

/// The IPA of a sentence has its whitespace collapsed: collapsing it again changes nothing.
pub proof fn lemma_sentence_ipa_collapsed(s: Seq<char>, overrides: Seq<Seq<char>>, outs: Seq<Seq<char>>)
    ensures
        collapse(sentence_ipa_spec(s, overrides, outs)) == sentence_ipa_spec(s, overrides, outs),
{
    crate::chars::lemma_collapse_idempotent(assemble_from(s, overrides, outs, 0, 0, 0));
}

} // verus!
