//! IPA -> what the acoustic model is run on: paragraphs and lines, the vocabulary filter, chunks that fit the
//! context, their token ids, style rows and the pause that follows each.

use std::collections::HashMap;

use vstd::prelude::*;

use crate::catalog::STYLE_ROWS;
use crate::chars::{
    collapse, collapse_spaces, from_chars, is_white_space, lemma_skip_ws, push_all, push_range, skip_ws, to_chars,
};
use crate::error::Error;
use crate::text::{
    all_ok, chars_ok, lemma_collapse_ok, lemma_pack_ipa_chunks_fit, lemma_pack_ipa_keeps_chars, pack_ipa_level,
    pack_level, seqs,
};

verus! {

/// The silence that follows a chunk.
#[derive(Clone, Copy, Debug, PartialEq, Eq)]
pub enum Pause {
    /// Between chunks of one sentence.
    Clause,
    /// After a sentence.
    Sentence,
    /// After the last sentence of a paragraph.
    Paragraph,
}

/// One run of the acoustic model: token ids (with the boundary token 0 at both ends), the row of the voice's
/// style matrix (the number of phonemes minus one), and the pause that follows.
#[derive(Clone, Debug)]
pub struct Chunk {
    pub ids: Vec<i64>,
    pub style_row: usize,
    pub pause: Pause,
}

/// The last line break in `s[a..b]`, or -1.
pub open spec fn last_newline(s: Seq<char>, a: int, b: int) -> int
    decreases b - a,
{
    if b <= a {
        -1
    } else if s[b - 1] == '\n' {
        b - 1
    } else {
        last_newline(s, a, b - 1)
    }
}

pub proof fn lemma_last_newline(s: Seq<char>, a: int, b: int)
    requires
        0 <= a <= b <= s.len(),
    ensures
        last_newline(s, a, b) == -1 || (a <= last_newline(s, a, b) < b && s[last_newline(s, a, b)] == '\n'),
    decreases b - a,
{
    if b > a && s[b - 1] != '\n' {
        lemma_last_newline(s, a, b - 1);
    }
}

/// A paragraph break `\n\s*\n` that begins at `p`: it runs to the last line break of the whitespace after `p`,
/// and its end is given.
pub open spec fn para_break(s: Seq<char>, p: int) -> Option<int> {
    if 0 <= p < s.len() && s[p] == '\n' {
        let j = last_newline(s, p + 1, skip_ws(s, p + 1));
        if j >= 0 {
            Some(j + 1)
        } else {
            None
        }
    } else {
        None
    }
}

pub proof fn lemma_para_break(s: Seq<char>, p: int)
    ensures
        para_break(s, p) matches Some(e) ==> p + 2 <= e <= s.len(),
{
    if 0 <= p < s.len() && s[p] == '\n' {
        lemma_skip_ws(s, p + 1);
        lemma_last_newline(s, p + 1, skip_ws(s, p + 1));
    }
}

/// The paragraphs of an IPA text: the text between paragraph breaks (leftmost first, none overlapping), from the
/// paragraph that began at `start` with the scan at `i`.
pub open spec fn paragraphs_of(s: Seq<char>, start: int, i: int) -> Seq<Seq<char>>
    decreases s.len() - i,
{
    if i < 0 || i >= s.len() {
        seq![s.subrange(start, s.len() as int)]
    } else {
        match para_break(s, i) {
            Some(e) => {
                proof {
                    lemma_para_break(s, i);
                }
                seq![s.subrange(start, i)] + paragraphs_of(s, e, e)
            },
            None => paragraphs_of(s, start, i + 1),
        }
    }
}

/// `split('\n')` from the line that began at `start`, with the scan at `i`.
pub open spec fn lines_of(s: Seq<char>, start: int, i: int) -> Seq<Seq<char>>
    decreases s.len() - i,
{
    if i < 0 || i >= s.len() {
        seq![s.subrange(start, s.len() as int)]
    } else if s[i] == '\n' {
        seq![s.subrange(start, i)] + lines_of(s, i + 1, i + 1)
    } else {
        lines_of(s, start, i + 1)
    }
}

/// Characters that Kokoro's vocabulary knows.
pub open spec fn vocab_ok(vocab: Map<u32, i64>) -> spec_fn(char) -> bool {
    |c: char| vocab.dom().contains(c as u32)
}

/// The characters of `s` that the vocabulary knows, in order.
pub open spec fn kept(s: Seq<char>, vocab: Map<u32, i64>) -> Seq<char>
    decreases s.len(),
{
    if s.len() == 0 {
        Seq::empty()
    } else {
        let k = kept(s.drop_last(), vocab);
        if vocab.dom().contains(s.last() as u32) {
            k.push(s.last())
        } else {
            k
        }
    }
}

/// A line as the model gets it: whitespace collapsed, characters outside the vocabulary dropped, whitespace
/// collapsed again.
pub open spec fn filter_ipa_spec(line: Seq<char>, vocab: Map<u32, i64>) -> Seq<char> {
    collapse(kept(collapse(line), vocab))
}

/// The filtered lines that are not empty, in order.
pub open spec fn kept_lines(lines: Seq<Seq<char>>, vocab: Map<u32, i64>) -> Seq<Seq<char>>
    decreases lines.len(),
{
    if lines.len() == 0 {
        Seq::empty()
    } else {
        let ls = kept_lines(lines.drop_last(), vocab);
        let f = filter_ipa_spec(lines.last(), vocab);
        if f.len() > 0 {
            ls.push(f)
        } else {
            ls
        }
    }
}

/// The pause after chunk `k` of `n` of a line: between chunks of the line, after the last line of a paragraph,
/// or after a sentence.
pub open spec fn chunk_pause(k: int, n: int, last_line: bool) -> Pause {
    if k + 1 < n {
        Pause::Clause
    } else if last_line {
        Pause::Paragraph
    } else {
        Pause::Sentence
    }
}

/// The chunks of one line, each with its pause.
pub open spec fn line_units(chunks: Seq<Seq<char>>, last_line: bool) -> Seq<(Seq<char>, Pause)> {
    Seq::new(chunks.len(), |k: int| (chunks[k], chunk_pause(k, chunks.len() as int, last_line)))
}

/// The chunks of the lines of a paragraph from line `k` on.
pub open spec fn para_units(lines: Seq<Seq<char>>, limit: int, k: int) -> Seq<(Seq<char>, Pause)>
    decreases lines.len() - k,
{
    if k < 0 || k >= lines.len() {
        Seq::empty()
    } else {
        line_units(pack_level(lines[k], limit, 0), k + 1 == lines.len()) + para_units(lines, limit, k + 1)
    }
}

/// The chunks of the paragraphs, in order.
pub open spec fn plan_units(paras: Seq<Seq<char>>, vocab: Map<u32, i64>, limit: int) -> Seq<(Seq<char>, Pause)>
    decreases paras.len(),
{
    if paras.len() == 0 {
        Seq::empty()
    } else {
        plan_units(paras.drop_last(), vocab, limit) + para_units(
            kept_lines(lines_of(paras.last(), 0, 0), vocab),
            limit,
            0,
        )
    }
}

/// Every chunk of an IPA text with its pause.
pub open spec fn synthesis_units(ipa: Seq<char>, vocab: Map<u32, i64>, limit: int) -> Seq<(Seq<char>, Pause)> {
    plan_units(paragraphs_of(ipa, 0, 0), vocab, limit)
}

/// The limit of phonemes per chunk: `max_phonemes` brought into `1..=STYLE_ROWS`.
pub open spec fn phoneme_limit(max_phonemes: usize) -> int {
    if max_phonemes < 1 {
        1
    } else if max_phonemes > STYLE_ROWS {
        STYLE_ROWS as int
    } else {
        max_phonemes as int
    }
}

/// Token ids of a chunk: the boundary token 0, the id of every character, and 0 again.
pub open spec fn token_ids(chunk: Seq<char>, vocab: Map<u32, i64>) -> Seq<i64> {
    seq![0i64] + chunk.map_values(|c: char| vocab[c as u32]) + seq![0i64]
}

/// What a chunk holds, as plain values.
pub open spec fn chunk_view(c: Chunk) -> (Seq<i64>, int, Pause) {
    (c.ids@, c.style_row as int, c.pause)
}

/// What the chunk made of a planned unit holds.
pub open spec fn unit_view(u: (Seq<char>, Pause), vocab: Map<u32, i64>) -> (Seq<i64>, int, Pause) {
    (token_ids(u.0, vocab), u.0.len() - 1, u.1)
}

pub open spec fn chunk_views(cs: Seq<Chunk>) -> Seq<(Seq<i64>, int, Pause)> {
    cs.map_values(|c: Chunk| chunk_view(c))
}

pub open spec fn unit_views(us: Seq<(Seq<char>, Pause)>, vocab: Map<u32, i64>) -> Seq<(Seq<i64>, int, Pause)> {
    us.map_values(|u: (Seq<char>, Pause)| unit_view(u, vocab))
}

fn para_break_exec(s: &Vec<char>, p: usize) -> (r: Option<usize>)
    requires
        p < s.len(),
    ensures
        match r {
            Some(e) => para_break(s@, p as int) == Some(e as int),
            None => para_break(s@, p as int) is None,
        },
{
    if s[p] != '\n' {
        return None;
    }
    let n = s.len();
    proof {
        lemma_skip_ws(s@, p + 1);
    }
    let mut q = p + 1;
    while q < n && is_white_space(s[q])
        invariant
            p + 1 <= q <= n == s.len(),
            skip_ws(s@, p + 1) == skip_ws(s@, q as int),
        decreases n - q,
    {
        q += 1;
    }
    let mut k = q;
    while k > p + 1 && s[k - 1] != '\n'
        invariant
            p + 1 <= k <= q <= n == s.len(),
            q == skip_ws(s@, p + 1),
            last_newline(s@, p + 1, q as int) == last_newline(s@, p + 1, k as int),
        decreases k,
    {
        k -= 1;
    }
    if k > p + 1 {
        Some(k)
    } else {
        None
    }
}

fn split_paragraphs(s: &Vec<char>) -> (r: Vec<Vec<char>>)
    ensures
        seqs(r@) == paragraphs_of(s@, 0, 0),
{
    let n = s.len();
    let mut out: Vec<Vec<char>> = Vec::new();
    let mut start: usize = 0;
    let mut i: usize = 0;
    while i < n
        invariant
            start <= i <= n == s.len(),
            paragraphs_of(s@, 0, 0) == seqs(out@) + paragraphs_of(s@, start as int, i as int),
        decreases n - i,
    {
        match para_break_exec(s, i) {
            Some(e) => {
                proof {
                    lemma_para_break(s@, i as int);
                }
                let mut p = Vec::new();
                push_range(&mut p, s, start, i);
                let ghost before = out@;
                out.push(p);
                assert(seqs(out@) =~= seqs(before).push(s@.subrange(start as int, i as int)));
                assert(seqs(out@) + paragraphs_of(s@, e as int, e as int) =~= seqs(before)
                    + paragraphs_of(s@, start as int, i as int));
                start = e;
                i = e;
            },
            None => {
                i += 1;
            },
        }
    }
    let mut p = Vec::new();
    push_range(&mut p, s, start, n);
    let ghost before = out@;
    out.push(p);
    assert(seqs(out@) =~= seqs(before).push(s@.subrange(start as int, n as int)));
    out
}

fn split_lines(s: &Vec<char>) -> (r: Vec<Vec<char>>)
    ensures
        seqs(r@) == lines_of(s@, 0, 0),
{
    let n = s.len();
    let mut out: Vec<Vec<char>> = Vec::new();
    let mut start: usize = 0;
    let mut i: usize = 0;
    while i < n
        invariant
            start <= i <= n == s.len(),
            lines_of(s@, 0, 0) == seqs(out@) + lines_of(s@, start as int, i as int),
        decreases n - i,
    {
        if s[i] == '\n' {
            let mut p = Vec::new();
            push_range(&mut p, s, start, i);
            let ghost before = out@;
            out.push(p);
            assert(seqs(out@) =~= seqs(before).push(s@.subrange(start as int, i as int)));
            assert(seqs(out@) + lines_of(s@, i + 1, i + 1) =~= seqs(before) + lines_of(
                s@,
                start as int,
                i as int,
            ));
            start = i + 1;
        }
        i += 1;
    }
    let mut p = Vec::new();
    push_range(&mut p, s, start, n);
    let ghost before = out@;
    out.push(p);
    assert(seqs(out@) =~= seqs(before).push(s@.subrange(start as int, n as int)));
    out
}

proof fn lemma_kept_ok(s: Seq<char>, vocab: Map<u32, i64>)
    ensures
        all_ok(kept(s, vocab), vocab_ok(vocab)),
    decreases s.len(),
{
    if s.len() > 0 {
        lemma_kept_ok(s.drop_last(), vocab);
    }
}

fn filter_chars(line: &Vec<char>, vocab: &HashMap<u32, i64>) -> (r: Vec<char>)
    ensures
        r@ == filter_ipa_spec(line@, vocab@),
{
    broadcast use vstd::std_specs::hash::group_hash_axioms;

    let c = collapse_spaces(line);
    let mut k: Vec<char> = Vec::new();
    let mut i: usize = 0;
    while i < c.len()
        invariant
            i <= c.len(),
            k@ == kept(c@.take(i as int), vocab@),
        decreases c.len() - i,
    {
        assert(c@.take(i + 1).drop_last() =~= c@.take(i as int));
        assert(c@.take(i + 1).last() == c@[i as int]);
        if vocab.contains_key(&(c[i] as u32)) {
            k.push(c[i]);
        }
        i += 1;
    }
    assert(c@.take(c.len() as int) =~= c@);
    collapse_spaces(&k)
}

/// Whitespace collapsed, characters outside Kokoro's vocabulary dropped, whitespace collapsed again.
pub fn filter_ipa(ipa: &str, vocab: &HashMap<u32, i64>) -> (r: String)
    ensures
        r@ == filter_ipa_spec(ipa@, vocab@),
{
    let v = to_chars(ipa);
    let f = filter_chars(&v, vocab);
    from_chars(&f)
}

/// The lines, each with its whitespace collapsed, one after another.
pub open spec fn collapsed_lines(lines: Seq<Seq<char>>) -> Seq<char>
    decreases lines.len(),
{
    if lines.len() == 0 {
        Seq::empty()
    } else {
        collapsed_lines(lines.drop_last()) + collapse(lines.last())
    }
}

/// The collapsed lines of the paragraphs, in order.
pub open spec fn collapsed_paras(paras: Seq<Seq<char>>) -> Seq<char>
    decreases paras.len(),
{
    if paras.len() == 0 {
        Seq::empty()
    } else {
        collapsed_paras(paras.drop_last()) + collapsed_lines(lines_of(paras.last(), 0, 0))
    }
}

/// What the vocabulary filter of an IPA text looks at: each line of each paragraph with its whitespace collapsed.
pub open spec fn filtered_input(ipa: Seq<char>) -> Seq<char> {
    collapsed_paras(paragraphs_of(ipa, 0, 0))
}

/// The collapsed lines of `ipa`, one after another.
fn collapse_each_line(ipa: &str) -> (r: Vec<char>)
    ensures
        r@ == filtered_input(ipa@),
{
    let s = to_chars(ipa);
    let paras = split_paragraphs(&s);
    let ghost ps = seqs(paras@);
    let mut out: Vec<char> = Vec::new();
    let mut i: usize = 0;
    while i < paras.len()
        invariant
            i <= paras.len(),
            ps == seqs(paras@),
            ps == paragraphs_of(s@, 0, 0),
            out@ == collapsed_paras(ps.take(i as int)),
        decreases paras.len() - i,
    {
        let lines = split_lines(&paras[i]);
        let ghost ls = seqs(lines@);
        let ghost start = out@;
        let mut j: usize = 0;
        while j < lines.len()
            invariant
                j <= lines.len(),
                ls == seqs(lines@),
                out@ == start + collapsed_lines(ls.take(j as int)),
            decreases lines.len() - j,
        {
            let c = collapse_spaces(&lines[j]);
            push_all(&mut out, &c);
            assert(ls.take(j + 1).drop_last() =~= ls.take(j as int));
            assert(ls.take(j + 1).last() == lines@[j as int]@);
            assert(out@ =~= start + collapsed_lines(ls.take(j + 1)));
            j += 1;
        }
        assert(ls.take(lines.len() as int) =~= ls);
        assert(ps.take(i + 1).drop_last() =~= ps.take(i as int));
        assert(ps.take(i + 1).last() == paras@[i as int]@);
        i += 1;
    }
    assert(ps.take(paras.len() as int) =~= ps);
    out
}

/// The characters of `s` that the vocabulary does not know, each once, in order of first appearance.
pub open spec fn unknown_in(s: Seq<char>, vocab: Map<u32, i64>) -> Seq<char>
    decreases s.len(),
{
    if s.len() == 0 {
        Seq::empty()
    } else {
        let u = unknown_in(s.drop_last(), vocab);
        if !vocab.contains_key(s.last() as u32) && !u.contains(s.last()) {
            u.push(s.last())
        } else {
            u
        }
    }
}

/// The characters that the vocabulary filter drops from `ipa` (each line of each paragraph looked at after its
/// whitespace is collapsed), each once, in order of first appearance.
pub fn unknown_chars(ipa: &str, vocab: &HashMap<u32, i64>) -> (r: Vec<char>)
    ensures
        r@ == unknown_in(filtered_input(ipa@), vocab@),
{
    broadcast use vstd::std_specs::hash::group_hash_axioms;

    let c = collapse_each_line(ipa);
    let mut out: Vec<char> = Vec::new();
    let mut i: usize = 0;
    while i < c.len()
        invariant
            i <= c.len(),
            out@ == unknown_in(c@.take(i as int), vocab@),
        decreases c.len() - i,
    {
        let ch = c[i];
        assert(c@.take(i + 1).drop_last() =~= c@.take(i as int));
        assert(c@.take(i + 1).last() == ch);
        if !vocab.contains_key(&(ch as u32)) {
            let mut seen = false;
            let mut j: usize = 0;
            while j < out.len()
                invariant
                    j <= out.len(),
                    seen <==> exists|q: int| 0 <= q < j && out@[q] == ch,
                decreases out.len() - j,
            {
                if out[j] == ch {
                    seen = true;
                }
                j += 1;
            }
            if !seen {
                out.push(ch);
            } else {
                assert(out@.contains(ch));
            }
        }
        i += 1;
    }
    assert(c@.take(c.len() as int) =~= c@);
    out
}

/// Token ids of a chunk: 0, the id of every character, 0.
fn encode(chunk: &Vec<char>, vocab: &HashMap<u32, i64>) -> (r: Vec<i64>)
    requires
        all_ok(chunk@, vocab_ok(vocab@)),
    ensures
        r@ == token_ids(chunk@, vocab@),
{
    broadcast use vstd::std_specs::hash::group_hash_axioms;

    let mut ids: Vec<i64> = Vec::new();
    ids.push(0);
    let mut i: usize = 0;
    while i < chunk.len()
        invariant
            i <= chunk.len(),
            all_ok(chunk@, vocab_ok(vocab@)),
            ids@ == seq![0i64] + chunk@.take(i as int).map_values(|c: char| vocab@[c as u32]),
        decreases chunk.len() - i,
    {
        let c = chunk[i];
        assert(vocab_ok(vocab@)(chunk@[i as int]));
        let ghost before = ids@;
        match vocab.get(&(c as u32)) {
            Some(id) => {
                ids.push(*id);
            },
            None => {
                assert(false);
            },
        }
        assert(chunk@.take(i + 1).map_values(|c: char| vocab@[c as u32]) =~= chunk@.take(i as int).map_values(
            |c: char| vocab@[c as u32],
        ).push(vocab@[c as u32]));
        assert(ids@ =~= seq![0i64] + chunk@.take(i + 1).map_values(|c: char| vocab@[c as u32]));
        i += 1;
    }
    assert(chunk@.take(chunk.len() as int) =~= chunk@);
    ids.push(0);
    ids
}

/// Planned units as plain values.
pub open spec fn units_view(us: Seq<(Vec<char>, Pause)>) -> Seq<(Seq<char>, Pause)> {
    us.map_values(|u: (Vec<char>, Pause)| (u.0@, u.1))
}

/// Every character of every unit is in the vocabulary, so that every unit can be turned into token ids.
pub open spec fn encodable(us: Seq<(Seq<char>, Pause)>, vocab: Map<u32, i64>) -> bool {
    units_ok(us, vocab_ok(vocab))
}

/// Appends the units of one line (the line is already filtered): its chunks, each with its pause.
fn push_line_units(line: &Vec<char>, last_line: bool, limit: usize, out: &mut Vec<(Vec<char>, Pause)>)
    requires
        limit >= 1,
    ensures
        units_view(final(out)@) == units_view(old(out)@) + line_units(pack_level(line@, limit as int, 0), last_line),
{
    let chunks = pack_ipa_level(line, limit, 0);
    let ghost cs = seqs(chunks@);
    let ghost us = line_units(cs, last_line);
    let ghost start = out@;
    let n = chunks.len();
    let mut k: usize = 0;
    while k < n
        invariant
            k <= n == chunks.len(),
            cs == seqs(chunks@),
            us == line_units(cs, last_line),
            units_view(out@) == units_view(start) + us.take(k as int),
        decreases n - k,
    {
        let pause = if k + 1 < n {
            Pause::Clause
        } else if last_line {
            Pause::Paragraph
        } else {
            Pause::Sentence
        };
        let ghost before = out@;
        let c = chunks[k].clone();
        out.push((c, pause));
        proof {
            assert(cs[k as int] == chunks@[k as int]@);
            assert(us[k as int] == (cs[k as int], chunk_pause(k as int, n as int, last_line)));
            assert(units_view(out@) =~= units_view(before).push(us[k as int]));
            assert(us.take(k + 1) =~= us.take(k as int).push(us[k as int]));
        }
        k += 1;
    }
    assert(us.take(n as int) =~= us);
}

/// Appends the units of one paragraph.
fn push_para_units(para: &Vec<char>, limit: usize, vocab: &HashMap<u32, i64>, out: &mut Vec<(Vec<char>, Pause)>)
    requires
        limit >= 1,
    ensures
        units_view(final(out)@) == units_view(old(out)@) + para_units(
            kept_lines(lines_of(para@, 0, 0), vocab@),
            limit as int,
            0,
        ),
{
    let raw = split_lines(para);
    let ghost rs = seqs(raw@);
    let mut lines: Vec<Vec<char>> = Vec::new();
    let mut i: usize = 0;
    while i < raw.len()
        invariant
            i <= raw.len(),
            rs == seqs(raw@),
            seqs(lines@) == kept_lines(rs.take(i as int), vocab@),
        decreases raw.len() - i,
    {
        let f = filter_chars(&raw[i], vocab);
        assert(rs.take(i + 1).drop_last() =~= rs.take(i as int));
        assert(rs.take(i + 1).last() == raw@[i as int]@);
        if f.len() > 0 {
            let ghost before = lines@;
            lines.push(f);
            assert(seqs(lines@) =~= seqs(before).push(f@));
        }
        i += 1;
    }
    assert(rs.take(raw.len() as int) =~= rs);
    let ghost ls = seqs(lines@);
    let ghost start = out@;
    let n = lines.len();
    let mut li: usize = 0;
    while li < n
        invariant
            li <= n == lines.len(),
            ls == seqs(lines@),
            limit >= 1,
            units_view(out@) + para_units(ls, limit as int, li as int) == units_view(start) + para_units(
                ls,
                limit as int,
                0,
            ),
        decreases n - li,
    {
        let ghost before = out@;
        assert(ls[li as int] == lines@[li as int]@);
        push_line_units(&lines[li], li + 1 == n, limit, out);
        proof {
            let a = line_units(pack_level(ls[li as int], limit as int, 0), li + 1 == n);
            let b = para_units(ls, limit as int, li + 1);
            assert(para_units(ls, limit as int, li as int) == a + b);
            assert(units_view(out@) + b =~= units_view(before) + (a + b));
        }
        li += 1;
    }
    assert(para_units(ls, limit as int, n as int) =~= Seq::<(Seq<char>, Pause)>::empty());
    assert(units_view(out@) + Seq::<(Seq<char>, Pause)>::empty() =~= units_view(out@));
}

/// The units (chunk and pause) of an IPA text, in order.
fn collect_units(ipa: &str, vocab: &HashMap<u32, i64>, limit: usize) -> (r: Vec<(Vec<char>, Pause)>)
    requires
        limit >= 1,
    ensures
        units_view(r@) == synthesis_units(ipa@, vocab@, limit as int),
{
    let s = to_chars(ipa);
    let paras = split_paragraphs(&s);
    let ghost ps = seqs(paras@);
    let mut out: Vec<(Vec<char>, Pause)> = Vec::new();
    let mut i: usize = 0;
    while i < paras.len()
        invariant
            i <= paras.len(),
            ps == seqs(paras@),
            limit >= 1,
            units_view(out@) == plan_units(ps.take(i as int), vocab@, limit as int),
        decreases paras.len() - i,
    {
        push_para_units(&paras[i], limit, vocab, &mut out);
        proof {
            assert(ps.take(i + 1).drop_last() =~= ps.take(i as int));
            assert(ps.take(i + 1).last() == paras@[i as int]@);
        }
        i += 1;
    }
    assert(ps.take(paras.len() as int) =~= ps);
    out
}

/// Whether every character of every unit is in the vocabulary.
fn all_known(us: &Vec<(Vec<char>, Pause)>, vocab: &HashMap<u32, i64>) -> (r: bool)
    ensures
        r == encodable(units_view(us@), vocab@),
{
    broadcast use vstd::std_specs::hash::group_hash_axioms;

    let ghost uv = units_view(us@);
    let mut k: usize = 0;
    while k < us.len()
        invariant
            k <= us.len(),
            uv == units_view(us@),
            forall|q: int| 0 <= q < k ==> all_ok(#[trigger] uv[q].0, vocab_ok(vocab@)),
        decreases us.len() - k,
    {
        let c = &us[k].0;
        assert(uv[k as int].0 == c@);
        let mut j: usize = 0;
        while j < c.len()
            invariant
                j <= c.len(),
                k < us.len(),
                uv == units_view(us@),
                c@ == uv[k as int].0,
                forall|x: int| 0 <= x < j ==> vocab_ok(vocab@)(#[trigger] c@[x]),
            decreases c.len() - j,
        {
            if !vocab.contains_key(&(c[j] as u32)) {
                assert(!vocab_ok(vocab@)(c@[j as int]));
                assert(!all_ok(uv[k as int].0, vocab_ok(vocab@)));
                return false;
            }
            j += 1;
        }
        k += 1;
    }
    true
}

/// Token ids and style rows of the units.
fn encode_units(us: &Vec<(Vec<char>, Pause)>, vocab: &HashMap<u32, i64>) -> (r: Vec<Chunk>)
    requires
        encodable(units_view(us@), vocab@),
        units_fit(units_view(us@), STYLE_ROWS as int),
    ensures
        chunk_views(r@) == unit_views(units_view(us@), vocab@),
        forall|k: int| 0 <= k < r.len() ==> (#[trigger] r@[k]).style_row < STYLE_ROWS,
{
    let ghost uv = units_view(us@);
    let mut out: Vec<Chunk> = Vec::new();
    let mut k: usize = 0;
    while k < us.len()
        invariant
            k <= us.len(),
            uv == units_view(us@),
            encodable(uv, vocab@),
            units_fit(uv, STYLE_ROWS as int),
            chunk_views(out@) == unit_views(uv.take(k as int), vocab@),
            forall|q: int| 0 <= q < out.len() ==> (#[trigger] out@[q]).style_row < STYLE_ROWS,
        decreases us.len() - k,
    {
        let c = &us[k].0;
        assert(uv[k as int] == (c@, us@[k as int].1));
        assert(all_ok(uv[k as int].0, vocab_ok(vocab@)));
        assert(0 < uv[k as int].0.len() <= STYLE_ROWS);
        let ids = encode(c, vocab);
        let ghost before = out@;
        out.push(Chunk { ids, style_row: c.len() - 1, pause: us[k].1 });
        proof {
            assert(chunk_views(out@) =~= chunk_views(before).push(unit_view(uv[k as int], vocab@)));
            assert(unit_views(uv.take(k + 1), vocab@) =~= unit_views(uv.take(k as int), vocab@).push(
                unit_view(uv[k as int], vocab@),
            ));
        }
        k += 1;
    }
    assert(uv.take(us.len() as int) =~= uv);
    out
}

/// The limit of phonemes per chunk: `max_phonemes` brought into `1..=STYLE_ROWS`.
fn limit_of(max_phonemes: usize) -> (r: usize)
    ensures
        r == phoneme_limit(max_phonemes),
        1 <= r <= STYLE_ROWS,
{
    if max_phonemes < 1 {
        1
    } else if max_phonemes > STYLE_ROWS {
        STYLE_ROWS
    } else {
        max_phonemes
    }
}

/// How an IPA text is synthesized: paragraphs are separated by a blank line (`\n\s*\n`), lines by a line break;
/// every line is filtered by Kokoro's vocabulary (empty ones are skipped) and cut into chunks of at most
/// `max_phonemes` characters (brought into `1..=STYLE_ROWS`). Each chunk carries its token ids, its style row and
/// the pause after it. `Error::NoPhonemes` when there is nothing to say. Every character of every chunk must be in
/// the vocabulary (packing puts a space between the pieces it joins); a vocabulary that maps the space guarantees
/// it (`lemma_planned_chars_in_vocab`).
pub fn synthesis_plan(ipa: &str, vocab: &HashMap<u32, i64>, max_phonemes: usize) -> (r: Result<Vec<Chunk>, Error>)
    requires
        encodable(synthesis_units(ipa@, vocab@, phoneme_limit(max_phonemes)), vocab@),
    ensures
        match r {
            Ok(cs) => {
                &&& synthesis_units(ipa@, vocab@, phoneme_limit(max_phonemes)).len() > 0
                &&& chunk_views(cs@) == unit_views(synthesis_units(ipa@, vocab@, phoneme_limit(max_phonemes)), vocab@)
                &&& forall|k: int| 0 <= k < cs.len() ==> (#[trigger] cs@[k]).style_row < STYLE_ROWS
            },
            Err(e) => {
                &&& synthesis_units(ipa@, vocab@, phoneme_limit(max_phonemes)).len() == 0
                &&& e is NoPhonemes
            },
        },
{
    let limit = limit_of(max_phonemes);
    let us = collect_units(ipa, vocab, limit);
    if us.len() == 0 {
        return Err(Error::NoPhonemes);
    }
    proof {
        lemma_planned_chunks_fit(ipa@, vocab@, max_phonemes);
        assert forall|k: int| 0 <= k < units_view(us@).len() implies 0 < (#[trigger] units_view(us@)[k]).0.len()
            <= STYLE_ROWS by {
            assert(0 < units_view(us@)[k].0.len() <= phoneme_limit(max_phonemes));
        }
    }
    Ok(encode_units(&us, vocab))
}

/// `synthesis_plan` when every chunk can be encoded; `None` when a chunk holds a character that the vocabulary does
/// not know (which only a vocabulary without the space allows).
pub fn try_synthesis_plan(ipa: &str, vocab: &HashMap<u32, i64>, max_phonemes: usize) -> (r: Option<
    Result<Vec<Chunk>, Error>,
>)
    ensures
        r is None <==> !encodable(synthesis_units(ipa@, vocab@, phoneme_limit(max_phonemes)), vocab@),
        r matches Some(p) ==> match p {
            Ok(cs) => {
                &&& synthesis_units(ipa@, vocab@, phoneme_limit(max_phonemes)).len() > 0
                &&& chunk_views(cs@) == unit_views(synthesis_units(ipa@, vocab@, phoneme_limit(max_phonemes)), vocab@)
                &&& forall|k: int| 0 <= k < cs.len() ==> (#[trigger] cs@[k]).style_row < STYLE_ROWS
            },
            Err(e) => {
                &&& synthesis_units(ipa@, vocab@, phoneme_limit(max_phonemes)).len() == 0
                &&& e is NoPhonemes
            },
        },
{
    let limit = limit_of(max_phonemes);
    let us = collect_units(ipa, vocab, limit);
    if !all_known(&us, vocab) {
        return None;
    }
    Some(synthesis_plan(ipa, vocab, max_phonemes))
}

/// The characters of every planned unit.
pub open spec fn units_ok(us: Seq<(Seq<char>, Pause)>, ok: spec_fn(char) -> bool) -> bool {
    forall|k: int| 0 <= k < us.len() ==> all_ok(#[trigger] us[k].0, ok)
}

proof fn lemma_units_concat(a: Seq<(Seq<char>, Pause)>, b: Seq<(Seq<char>, Pause)>, ok: spec_fn(char) -> bool)
    requires
        units_ok(a, ok),
        units_ok(b, ok),
    ensures
        units_ok(a + b, ok),
{
    assert forall|k: int| 0 <= k < (a + b).len() implies all_ok(#[trigger] (a + b)[k].0, ok) by {
        if k < a.len() {
            assert((a + b)[k] == a[k]);
        } else {
            assert((a + b)[k] == b[k - a.len()]);
        }
    }
}

proof fn lemma_kept_lines_ok(lines: Seq<Seq<char>>, vocab: Map<u32, i64>)
    requires
        vocab.dom().contains(' ' as u32),
    ensures
        chars_ok(kept_lines(lines, vocab), vocab_ok(vocab)),
    decreases lines.len(),
{
    if lines.len() > 0 {
        lemma_kept_lines_ok(lines.drop_last(), vocab);
        let ls = kept_lines(lines.drop_last(), vocab);
        let f = filter_ipa_spec(lines.last(), vocab);
        assert(vocab_ok(vocab)(' '));
        lemma_kept_ok(collapse(lines.last()), vocab);
        lemma_collapse_ok(kept(collapse(lines.last()), vocab), vocab_ok(vocab));
        if f.len() > 0 {
            assert forall|k: int| 0 <= k < ls.push(f).len() implies all_ok(#[trigger] ls.push(f)[k], vocab_ok(vocab)) by {
                if k < ls.len() {
                    assert(ls.push(f)[k] == ls[k]);
                }
            }
        }
    }
}

proof fn lemma_para_units_ok(lines: Seq<Seq<char>>, limit: int, k: int, ok: spec_fn(char) -> bool)
    requires
        chars_ok(lines, ok),
        ok(' '),
    ensures
        units_ok(para_units(lines, limit, k), ok),
    decreases lines.len() - k,
{
    if 0 <= k < lines.len() {
        assert(all_ok(lines[k], ok));
        lemma_pack_ipa_keeps_chars(lines[k], limit, ok);
        let cs = pack_level(lines[k], limit, 0);
        let a = line_units(cs, k + 1 == lines.len());
        assert(units_ok(a, ok)) by {
            assert forall|j: int| 0 <= j < a.len() implies all_ok(#[trigger] a[j].0, ok) by {
                assert(a[j].0 == cs[j]);
            }
        }
        lemma_para_units_ok(lines, limit, k + 1, ok);
        lemma_units_concat(a, para_units(lines, limit, k + 1), ok);
    }
}

proof fn lemma_plan_units_ok(paras: Seq<Seq<char>>, vocab: Map<u32, i64>, limit: int)
    requires
        vocab.dom().contains(' ' as u32),
    ensures
        units_ok(plan_units(paras, vocab, limit), vocab_ok(vocab)),
    decreases paras.len(),
{
    if paras.len() > 0 {
        lemma_plan_units_ok(paras.drop_last(), vocab, limit);
        let ls = kept_lines(lines_of(paras.last(), 0, 0), vocab);
        lemma_kept_lines_ok(lines_of(paras.last(), 0, 0), vocab);
        assert(vocab_ok(vocab)(' '));
        lemma_para_units_ok(ls, limit, 0, vocab_ok(vocab));
        lemma_units_concat(plan_units(paras.drop_last(), vocab, limit), para_units(ls, limit, 0), vocab_ok(vocab));
    }
}

/// Only characters of Kokoro's vocabulary reach the model: every character of every planned chunk is in the
/// vocabulary (which maps the space), so every token id is the id of a character.
pub proof fn lemma_planned_chars_in_vocab(ipa: Seq<char>, vocab: Map<u32, i64>, limit: int)
    requires
        vocab.dom().contains(' ' as u32),
    ensures
        encodable(synthesis_units(ipa, vocab, limit), vocab),
        forall|k: int, j: int|
            0 <= k < synthesis_units(ipa, vocab, limit).len() && 0 <= j < synthesis_units(ipa, vocab, limit)[k].0.len()
                ==> vocab.dom().contains(#[trigger] synthesis_units(ipa, vocab, limit)[k].0[j] as u32),
{
    let us = synthesis_units(ipa, vocab, limit);
    lemma_plan_units_ok(paragraphs_of(ipa, 0, 0), vocab, limit);
    assert forall|k: int, j: int| 0 <= k < us.len() && 0 <= j < us[k].0.len() implies vocab.dom().contains(
        #[trigger] us[k].0[j] as u32,
    ) by {
        assert(all_ok(us[k].0, vocab_ok(vocab)));
        assert(vocab_ok(vocab)(us[k].0[j]));
    }
}

/// Every planned unit holds between one and `limit` characters.
pub open spec fn units_fit(us: Seq<(Seq<char>, Pause)>, limit: int) -> bool {
    forall|k: int| 0 <= k < us.len() ==> 0 < (#[trigger] us[k]).0.len() <= limit
}

proof fn lemma_para_units_fit(lines: Seq<Seq<char>>, limit: int, k: int)
    requires
        limit >= 1,
    ensures
        units_fit(para_units(lines, limit, k), limit),
    decreases lines.len() - k,
{
    if 0 <= k < lines.len() {
        lemma_pack_ipa_chunks_fit(lines[k], limit);
        let cs = pack_level(lines[k], limit, 0);
        let a = line_units(cs, k + 1 == lines.len());
        lemma_para_units_fit(lines, limit, k + 1);
        let b = para_units(lines, limit, k + 1);
        assert forall|j: int| 0 <= j < (a + b).len() implies 0 < (#[trigger] (a + b)[j]).0.len() <= limit by {
            if j < a.len() {
                assert((a + b)[j] == a[j]);
                assert(a[j].0 == cs[j]);
            } else {
                assert((a + b)[j] == b[j - a.len()]);
            }
        }
    }
}

/// Every chunk that is planned fits the context: it holds between one and `phoneme_limit(max_phonemes)` (so at
/// most `STYLE_ROWS`) phonemes, whatever the input.
pub proof fn lemma_planned_chunks_fit(ipa: Seq<char>, vocab: Map<u32, i64>, max_phonemes: usize)
    ensures
        units_fit(synthesis_units(ipa, vocab, phoneme_limit(max_phonemes)), phoneme_limit(max_phonemes)),
        phoneme_limit(max_phonemes) <= STYLE_ROWS,
{
    lemma_plan_units_fit(paragraphs_of(ipa, 0, 0), vocab, phoneme_limit(max_phonemes));
}

proof fn lemma_plan_units_fit(paras: Seq<Seq<char>>, vocab: Map<u32, i64>, limit: int)
    requires
        limit >= 1,
    ensures
        units_fit(plan_units(paras, vocab, limit), limit),
    decreases paras.len(),
{
    if paras.len() > 0 {
        lemma_plan_units_fit(paras.drop_last(), vocab, limit);
        let a = plan_units(paras.drop_last(), vocab, limit);
        let b = para_units(kept_lines(lines_of(paras.last(), 0, 0), vocab), limit, 0);
        lemma_para_units_fit(kept_lines(lines_of(paras.last(), 0, 0), vocab), limit, 0);
        assert forall|j: int| 0 <= j < (a + b).len() implies 0 < (#[trigger] (a + b)[j]).0.len() <= limit by {
            if j < a.len() {
                assert((a + b)[j] == a[j]);
            } else {
                assert((a + b)[j] == b[j - a.len()]);
            }
        }
    }
}

/// The pauses of one line: the line's chunks in order, each chunk but the last followed by a clause pause, whatever
/// the line's place in its paragraph; the last chunk followed by a paragraph pause on a paragraph's last line and by
/// a sentence pause on any other line.
pub proof fn lemma_line_pauses(chunks: Seq<Seq<char>>, last_line: bool)
    ensures
        line_units(chunks, last_line).len() == chunks.len(),
        forall|k: int| 0 <= k < chunks.len() ==> (#[trigger] line_units(chunks, last_line)[k]).0 == chunks[k],
        forall|k: int| 0 <= k < chunks.len() - 1 ==> (#[trigger] line_units(chunks, last_line)[k]).1 == Pause::Clause,
        chunks.len() > 0 && last_line ==> line_units(chunks, last_line)[chunks.len() - 1].1 == Pause::Paragraph,
        chunks.len() > 0 && !last_line ==> line_units(chunks, last_line)[chunks.len() - 1].1 == Pause::Sentence,
{
}

/// A paragraph pause comes only after a paragraph's very last chunk: no other chunk of the lines from `k` on is
/// followed by one, and when the last line has a chunk, the last chunk is.
pub proof fn lemma_para_pauses(lines: Seq<Seq<char>>, limit: int, k: int)
    requires
        0 <= k,
    ensures
        forall|j: int|
            0 <= j < para_units(lines, limit, k).len() - 1 ==> (#[trigger] para_units(lines, limit, k)[j]).1
                != Pause::Paragraph,
        k < lines.len() && pack_level(lines.last(), limit, 0).len() > 0 ==> {
            &&& para_units(lines, limit, k).len() > 0
            &&& para_units(lines, limit, k).last().1 == Pause::Paragraph
        },
    decreases lines.len() - k,
{
    if k < lines.len() {
        let last_line = k + 1 == lines.len();
        let lu = line_units(pack_level(lines[k], limit, 0), last_line);
        let rest = para_units(lines, limit, k + 1);
        let all = para_units(lines, limit, k);
        assert(all == lu + rest);
        lemma_line_pauses(pack_level(lines[k], limit, 0), last_line);
        lemma_para_pauses(lines, limit, k + 1);
        assert forall|j: int| 0 <= j < all.len() - 1 implies (#[trigger] all[j]).1 != Pause::Paragraph by {
            if j < lu.len() {
                assert(all[j] == lu[j]);
                if j < lu.len() - 1 {
                    assert(lu[j].1 == Pause::Clause);
                } else if !last_line {
                    assert(lu[j].1 == Pause::Sentence);
                } else {
                    assert(rest.len() == 0);
                }
            } else {
                assert(all[j] == rest[j - lu.len()]);
            }
        }
        if pack_level(lines.last(), limit, 0).len() > 0 {
            if last_line {
                assert(lines[k] == lines.last());
                assert(rest.len() == 0);
                assert(all.last() == lu[lu.len() - 1]);
            } else {
                assert(all.last() == rest.last());
            }
        }
    }
}

} // verus!
