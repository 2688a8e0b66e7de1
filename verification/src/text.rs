//! Paragraphs and sentences of a text, and the cutting of an IPA line into chunks that fit the model's context.

use vstd::prelude::*;

use crate::chars::{
    from_chars, is_white_space, lemma_skip_ws, lemma_trim_end_at, lemma_trim_props, lemma_word_end, push_all,
    push_range, skip_ws, to_chars, trim, trim_chars, trim_end_at, white_space, word_end, words_from, collapse,
    join_words,
};

verus! {

/// Marker that opens a manual-IPA placeholder (see `overrides`); it also opens a sentence.
pub const PH_OPEN: char = '\u{E000}';

/// Views of a vector of character vectors.
pub open spec fn seqs(v: Seq<Vec<char>>) -> Seq<Seq<char>> {
    v.map_values(|x: Vec<char>| x@)
}

/// Views of a vector of strings.
pub open spec fn strs(v: Seq<String>) -> Seq<Seq<char>> {
    v.map_values(|x: String| x@)
}

pub fn to_strings(v: &Vec<Vec<char>>) -> (r: Vec<String>)
    ensures
        strs(r@) == seqs(v@),
{
    let mut out: Vec<String> = Vec::new();
    let mut i: usize = 0;
    while i < v.len()
        invariant
            i <= v.len(),
            strs(out@) =~= seqs(v@).take(i as int),
        decreases v.len() - i,
    {
        let s = from_chars(&v[i]);
        let ghost before = out@;
        out.push(s);
        assert(strs(out@) =~= strs(before).push(v@[i as int]@));
        assert(seqs(v@).take(i + 1) =~= seqs(v@).take(i as int).push(v@[i as int]@));
        i += 1;
    }
    assert(seqs(v@).take(v.len() as int) =~= seqs(v@));
    out
}

pub open spec fn upper_pl(c: char) -> bool {
    ||| 'A' <= c <= 'Z'
    ||| c == 'Ą' || c == 'Ć' || c == 'Ę' || c == 'Ł' || c == 'Ń'
    ||| c == 'Ó' || c == 'Ś' || c == 'Ź' || c == 'Ż'
}

fn is_upper_pl(c: char) -> (r: bool)
    ensures
        r == upper_pl(c),
{
    ('A' <= c && c <= 'Z') || c == 'Ą' || c == 'Ć' || c == 'Ę' || c == 'Ł' || c == 'Ń' || c == 'Ó'
        || c == 'Ś' || c == 'Ź' || c == 'Ż'
}

pub open spec fn end_mark(c: char) -> bool {
    c == '.' || c == '!' || c == '?' || c == '…'
}

pub open spec fn closing_mark(c: char) -> bool {
    c == '"' || c == '”' || c == '»' || c == ')'
}

pub open spec fn opening_mark(c: char) -> bool {
    c == '"' || c == '„' || c == '“' || c == '(' || c == '«'
}

/// The text before position `i` ends a sentence: `. ! ? …`, optionally followed by a closing `" ” » )`.
pub open spec fn break_before(s: Seq<char>, i: int) -> bool {
    &&& 0 < i <= s.len()
    &&& (end_mark(s[i - 1]) || (closing_mark(s[i - 1]) && i > 1 && end_mark(s[i - 2])))
}

pub open spec fn starts_sentence(c: char) -> bool {
    upper_pl(c) || c == PH_OPEN
}

/// The text from position `j` opens a sentence: an upper-case letter (optionally after an opening `" „ “ ( «`)
/// or a manual-IPA marker.
pub open spec fn start_after(s: Seq<char>, j: int) -> bool {
    &&& 0 <= j < s.len()
    &&& if opening_mark(s[j]) {
        j + 1 < s.len() && starts_sentence(s[j + 1])
    } else {
        starts_sentence(s[j])
    }
}

/// The pieces of a paragraph cut at every whitespace run that lies between a sentence end and a sentence start;
/// the current piece began at `start` and the scan is at `i`.
pub open spec fn parts_from(s: Seq<char>, start: int, i: int) -> Seq<Seq<char>>
    decreases s.len() - i,
{
    if i < 0 || i >= s.len() {
        seq![s.subrange(start, s.len() as int)]
    } else if !white_space(s[i]) {
        parts_from(s, start, i + 1)
    } else {
        let j = skip_ws(s, i);
        proof {
            lemma_skip_ws(s, i + 1);
        }
        if break_before(s, i) && start_after(s, j) {
            seq![s.subrange(start, i)] + parts_from(s, j, j)
        } else {
            parts_from(s, start, j)
        }
    }
}

/// The trimmed pieces that are not empty, in order.
pub open spec fn trimmed_nonempty(parts: Seq<Seq<char>>) -> Seq<Seq<char>>
    decreases parts.len(),
{
    if parts.len() == 0 {
        Seq::empty()
    } else {
        let rest = trimmed_nonempty(parts.drop_last());
        let t = trim(parts.last());
        if t.len() > 0 {
            rest.push(t)
        } else {
            rest
        }
    }
}

/// The sentences of one (trimmed) paragraph.
pub open spec fn sentences(p: Seq<char>) -> Seq<Seq<char>> {
    trimmed_nonempty(parts_from(p, 0, 0))
}

/// First position at or after `i` holding `c` (or the end).
pub open spec fn find_char(s: Seq<char>, i: int, c: char) -> int
    decreases s.len() - i,
{
    if 0 <= i < s.len() && s[i] != c {
        find_char(s, i + 1, c)
    } else {
        i
    }
}

pub proof fn lemma_find_char(s: Seq<char>, i: int, c: char)
    requires
        0 <= i <= s.len(),
    ensures
        i <= find_char(s, i, c) <= s.len(),
        find_char(s, i, c) < s.len() ==> s[find_char(s, i, c)] == c,
        forall|k: int| i <= k < find_char(s, i, c) ==> #[trigger] s[k] != c,
    decreases s.len() - i,
{
    if i < s.len() && s[i] != c {
        lemma_find_char(s, i + 1, c);
    }
}

/// Paragraphs of the lines from position `i`: every line is trimmed, empty ones are skipped, the rest are split
/// into sentences.
pub open spec fn paragraphs_from(s: Seq<char>, i: int) -> Seq<Seq<Seq<char>>>
    decreases s.len() - i,
{
    if i < 0 || i > s.len() {
        Seq::empty()
    } else {
        let k = find_char(s, i, '\n');
        proof {
            lemma_find_char(s, i, '\n');
        }
        let p = trim(s.subrange(i, k));
        let rest = if k < s.len() {
            paragraphs_from(s, k + 1)
        } else {
            Seq::empty()
        };
        if p.len() > 0 {
            seq![sentences(p)] + rest
        } else {
            rest
        }
    }
}

/// `text.split('\n')`, each line trimmed, empty lines dropped, each paragraph cut into its sentences.
pub open spec fn split_sentences_spec(text: Seq<char>) -> Seq<Seq<Seq<char>>> {
    paragraphs_from(text, 0)
}

fn break_before_exec(s: &Vec<char>, i: usize) -> (r: bool)
    requires
        i <= s.len(),
    ensures
        r == break_before(s@, i as int),
{
    if i == 0 {
        return false;
    }
    let last = s[i - 1];
    if last == '.' || last == '!' || last == '?' || last == '…' {
        return true;
    }
    if last == '"' || last == '”' || last == '»' || last == ')' {
        if i > 1 {
            let b = s[i - 2];
            return b == '.' || b == '!' || b == '?' || b == '…';
        }
    }
    false
}

fn start_after_exec(s: &Vec<char>, j: usize) -> (r: bool)
    requires
        j <= s.len(),
    ensures
        r == start_after(s@, j as int),
{
    if j >= s.len() {
        return false;
    }
    let mut c = s[j];
    if c == '"' || c == '„' || c == '“' || c == '(' || c == '«' {
        if j + 1 < s.len() {
            c = s[j + 1];
        } else {
            return false;
        }
    }
    is_upper_pl(c) || c == PH_OPEN
}

/// The pieces of a paragraph between sentence boundaries (not yet trimmed).
fn split_sentence_boundaries(s: &Vec<char>) -> (r: Vec<Vec<char>>)
    ensures
        seqs(r@) == parts_from(s@, 0, 0),
{
    let n = s.len();
    let mut parts: Vec<Vec<char>> = Vec::new();
    let mut start: usize = 0;
    let mut i: usize = 0;
    while i < n
        invariant
            start <= i <= n == s.len(),
            parts_from(s@, 0, 0) == seqs(parts@) + parts_from(s@, start as int, i as int),
        decreases n - i,
    {
        if !is_white_space(s[i]) {
            i += 1;
        } else {
            let mut j = i + 1;
            while j < n && is_white_space(s[j])
                invariant
                    i < j <= n == s.len(),
                    skip_ws(s@, (i + 1) as int) == skip_ws(s@, j as int),
                decreases n - j,
            {
                j += 1;
            }
            proof {
                lemma_skip_ws(s@, (i + 1) as int);
            }
            if break_before_exec(s, i) && start_after_exec(s, j) {
                let mut piece = Vec::new();
                push_range(&mut piece, s, start, i);
                let ghost before = parts@;
                parts.push(piece);
                proof {
                    assert(seqs(parts@) =~= seqs(before) + seq![s@.subrange(start as int, i as int)]);
                }
                start = j;
            }
            i = j;
        }
    }
    let mut last = Vec::new();
    push_range(&mut last, s, start, n);
    let ghost before = parts@;
    parts.push(last);
    assert(seqs(parts@) =~= seqs(before) + seq![s@.subrange(start as int, n as int)]);
    parts
}

fn keep_trimmed_nonempty(parts: &Vec<Vec<char>>) -> (r: Vec<Vec<char>>)
    ensures
        seqs(r@) == trimmed_nonempty(seqs(parts@)),
{
    let mut out: Vec<Vec<char>> = Vec::new();
    let mut i: usize = 0;
    while i < parts.len()
        invariant
            i <= parts.len(),
            seqs(out@) == trimmed_nonempty(seqs(parts@).take(i as int)),
        decreases parts.len() - i,
    {
        let t = trim_chars(&parts[i]);
        proof {
            assert(seqs(parts@).take((i + 1) as int).drop_last() =~= seqs(parts@).take(i as int));
        }
        if t.len() > 0 {
            let ghost before = out@;
            out.push(t);
            assert(seqs(out@) =~= seqs(before).push(t@));
        }
        i += 1;
    }
    assert(seqs(parts@).take(parts.len() as int) =~= seqs(parts@));
    out
}

fn split_paragraph(p: &Vec<char>) -> (r: Vec<Vec<char>>)
    ensures
        seqs(r@) == sentences(p@),
{
    let parts = split_sentence_boundaries(p);
    keep_trimmed_nonempty(&parts)
}

fn split_sentences_chars(s: &Vec<char>) -> (r: Vec<Vec<Vec<char>>>)
    ensures
        r@.map_values(|p: Vec<Vec<char>>| seqs(p@)) == split_sentences_spec(s@),
{
    let n = s.len();
    let mut out: Vec<Vec<Vec<char>>> = Vec::new();
    let mut i: usize = 0;
    let mut more = true;
    while more
        invariant
            i <= n == s.len(),
            more ==> paragraphs_from(s@, 0) == out@.map_values(|p: Vec<Vec<char>>| seqs(p@))
                + paragraphs_from(s@, i as int),
            !more ==> paragraphs_from(s@, 0) == out@.map_values(|p: Vec<Vec<char>>| seqs(p@)),
        decreases n - i + (if more { 1int } else { 0 }),
    {
        let mut k = i;
        while k < n && s[k] != '\n'
            invariant
                i <= k <= n == s.len(),
                find_char(s@, i as int, '\n') == find_char(s@, k as int, '\n'),
            decreases n - k,
        {
            k += 1;
        }
        proof {
            lemma_find_char(s@, i as int, '\n');
        }
        let mut line = Vec::new();
        push_range(&mut line, s, i, k);
        let p = trim_chars(&line);
        let ghost before = out@;
        if p.len() > 0 {
            let sents = split_paragraph(&p);
            out.push(sents);
            assert(out@.map_values(|p: Vec<Vec<char>>| seqs(p@)) =~= before.map_values(
                |p: Vec<Vec<char>>| seqs(p@),
            ).push(sentences(p@)));
        }
        if k < n {
            i = k + 1;
        } else {
            more = false;
        }
    }
    out
}

/// Paragraphs (lines) -> sentences. A sentence starts only before an upper-case letter (fewer false cuts, e.g. after
/// "np. kot"); a manual-IPA marker also opens one.
pub fn split_sentences(text: &str) -> (r: Vec<Vec<String>>)
    ensures
        r@.map_values(|p: Vec<String>| strs(p@)) == split_sentences_spec(text@),
{
    let s = to_chars(text);
    let paras = split_sentences_chars(&s);
    let mut out: Vec<Vec<String>> = Vec::new();
    let mut i: usize = 0;
    while i < paras.len()
        invariant
            i <= paras.len(),
            out@.map_values(|p: Vec<String>| strs(p@)) =~= paras@.map_values(
                |p: Vec<Vec<char>>| seqs(p@),
            ).take(i as int),
        decreases paras.len() - i,
    {
        let para = to_strings(&paras[i]);
        let ghost before = out@;
        out.push(para);
        assert(out@.map_values(|p: Vec<String>| strs(p@)) =~= before.map_values(
            |p: Vec<String>| strs(p@),
        ).push(seqs(paras@[i as int]@)));
        assert(paras@.map_values(|p: Vec<Vec<char>>| seqs(p@)).take(i + 1) =~= paras@.map_values(
            |p: Vec<Vec<char>>| seqs(p@),
        ).take(i as int).push(seqs(paras@[i as int]@)));
        i += 1;
    }
    assert(paras@.map_values(|p: Vec<Vec<char>>| seqs(p@)).take(paras.len() as int) =~= paras@.map_values(
        |p: Vec<Vec<char>>| seqs(p@),
    ));
    out
}

// ---------------------------------------------------------------------------------------------------------------
// Cutting IPA into chunks (the limit counts code points, as the model does)
// ---------------------------------------------------------------------------------------------------------------

pub open spec fn clause_mark(c: char) -> bool {
    c == ',' || c == ';' || c == ':' || c == '—' || c == '…'
}

/// Cut after every `, ; : — …`, swallowing the whitespace that follows; the current part began at `start`.
pub open spec fn clause_from(s: Seq<char>, start: int, i: int) -> Seq<Seq<char>>
    decreases s.len() - i,
{
    if i < 0 || i >= s.len() {
        if 0 <= start < s.len() {
            seq![s.subrange(start, s.len() as int)]
        } else {
            Seq::empty()
        }
    } else if clause_mark(s[i]) {
        let j = skip_ws(s, i + 1);
        proof {
            lemma_skip_ws(s, i + 1);
        }
        seq![s.subrange(start, i + 1)] + clause_from(s, j, j)
    } else {
        clause_from(s, start, i + 1)
    }
}

/// The parts whose trimmed form is not empty.
pub open spec fn nonblank(parts: Seq<Seq<char>>) -> Seq<Seq<char>>
    decreases parts.len(),
{
    if parts.len() == 0 {
        Seq::empty()
    } else if trim(parts.last()).len() > 0 {
        nonblank(parts.drop_last()).push(parts.last())
    } else {
        nonblank(parts.drop_last())
    }
}

/// Consecutive slices of `limit` characters (the last one may be shorter).
pub open spec fn hard_chunks(t: Seq<char>, limit: int) -> Seq<Seq<char>>
    decreases t.len(),
{
    if t.len() == 0 {
        Seq::empty()
    } else if limit <= 0 || t.len() <= limit {
        seq![t]
    } else {
        seq![t.take(limit)] + hard_chunks(t.skip(limit), limit)
    }
}

/// Greedy packing: each piece is joined to the current chunk with a space while the result fits in `limit`.
pub open spec fn merge_from(pieces: Seq<Seq<char>>, i: int, cur: Seq<char>, limit: int) -> Seq<Seq<char>>
    decreases pieces.len() - i,
{
    if i < 0 || i >= pieces.len() {
        if cur.len() > 0 {
            seq![cur]
        } else {
            Seq::empty()
        }
    } else {
        let piece = pieces[i];
        let cand = if cur.len() == 0 {
            piece
        } else {
            cur + seq![' '] + piece
        };
        if cand.len() <= limit {
            merge_from(pieces, i + 1, cand, limit)
        } else {
            seq![cur] + merge_from(pieces, i + 1, piece, limit)
        }
    }
}

pub open spec fn level_measure(level: int) -> int {
    if level < 2 {
        2 - level
    } else {
        0
    }
}

/// How an IPA line is packed at a given level: 0 cuts at punctuation, 1 at spaces, 2 at the limit itself.
pub open spec fn pack_level(ipa: Seq<char>, limit: int, level: int) -> Seq<Seq<char>>
    decreases 2 * level_measure(level) + 1, 0int,
{
    let t = trim(ipa);
    if t.len() <= limit {
        if t.len() == 0 {
            Seq::empty()
        } else {
            seq![t]
        }
    } else if level >= 2 || level < 0 {
        hard_chunks(t, limit)
    } else {
        let raw = if level == 0 {
            clause_from(t, 0, 0)
        } else {
            words_from(t, 0)
        };
        let parts = nonblank(raw);
        if parts.len() == 1 {
            pack_level(t, limit, level + 1)
        } else {
            merge_from(pack_all(parts, 0, limit, level + 1), 0, Seq::empty(), limit)
        }
    }
}

/// The packings of `parts[k..]` at `level`, one after another.
pub open spec fn pack_all(parts: Seq<Seq<char>>, k: int, limit: int, level: int) -> Seq<Seq<char>>
    decreases 2 * level_measure(level) + 2, parts.len() - k,
{
    if k < 0 || k >= parts.len() {
        Seq::empty()
    } else {
        pack_level(parts[k], limit, level) + pack_all(parts, k + 1, limit, level)
    }
}

fn is_clause_mark(c: char) -> (r: bool)
    ensures
        r == clause_mark(c),
{
    c == ',' || c == ';' || c == ':' || c == '—' || c == '…'
}

fn split_after_clause(s: &Vec<char>) -> (r: Vec<Vec<char>>)
    ensures
        seqs(r@) == clause_from(s@, 0, 0),
{
    let n = s.len();
    let mut parts: Vec<Vec<char>> = Vec::new();
    let mut start: usize = 0;
    let mut i: usize = 0;
    while i < n
        invariant
            start <= i <= n == s.len(),
            clause_from(s@, 0, 0) == seqs(parts@) + clause_from(s@, start as int, i as int),
        decreases n - i,
    {
        if is_clause_mark(s[i]) {
            let mut piece = Vec::new();
            push_range(&mut piece, s, start, i + 1);
            let mut j = i + 1;
            while j < n && is_white_space(s[j])
                invariant
                    i < j <= n == s.len(),
                    skip_ws(s@, (i + 1) as int) == skip_ws(s@, j as int),
                decreases n - j,
            {
                j += 1;
            }
            proof {
                lemma_skip_ws(s@, (i + 1) as int);
            }
            let ghost before = parts@;
            parts.push(piece);
            assert(seqs(parts@) =~= seqs(before) + seq![s@.subrange(start as int, i + 1)]);
            start = j;
            i = j;
        } else {
            i += 1;
        }
    }
    if start < n {
        let mut last = Vec::new();
        push_range(&mut last, s, start, n);
        let ghost before = parts@;
        parts.push(last);
        assert(seqs(parts@) =~= seqs(before) + seq![s@.subrange(start as int, n as int)]);
    } else {
        assert(clause_from(s@, start as int, i as int) =~= Seq::<Seq<char>>::empty());
        assert(seqs(parts@) + Seq::<Seq<char>>::empty() =~= seqs(parts@));
    }
    parts
}

fn split_words(s: &Vec<char>) -> (r: Vec<Vec<char>>)
    ensures
        seqs(r@) == words_from(s@, 0),
{
    let n = s.len();
    let mut out: Vec<Vec<char>> = Vec::new();
    let mut i: usize = 0;
    while i < n
        invariant
            i <= n == s.len(),
            words_from(s@, 0) == seqs(out@) + words_from(s@, i as int),
        decreases n - i,
    {
        if is_white_space(s[i]) {
            i += 1;
        } else {
            let mut k = i + 1;
            while k < n && !is_white_space(s[k])
                invariant
                    i < k <= n == s.len(),
                    word_end(s@, (i + 1) as int) == word_end(s@, k as int),
                decreases n - k,
            {
                k += 1;
            }
            proof {
                lemma_word_end(s@, (i + 1) as int);
            }
            let mut w = Vec::new();
            push_range(&mut w, s, i, k);
            let ghost before = out@;
            out.push(w);
            assert(seqs(out@) =~= seqs(before) + seq![s@.subrange(i as int, k as int)]);
            i = k;
        }
    }
    assert(words_from(s@, i as int) =~= Seq::<Seq<char>>::empty());
    assert(seqs(out@) + Seq::<Seq<char>>::empty() =~= seqs(out@));
    out
}

fn keep_nonblank(parts: &Vec<Vec<char>>) -> (r: Vec<Vec<char>>)
    ensures
        seqs(r@) == nonblank(seqs(parts@)),
{
    let mut out: Vec<Vec<char>> = Vec::new();
    let mut i: usize = 0;
    while i < parts.len()
        invariant
            i <= parts.len(),
            seqs(out@) == nonblank(seqs(parts@).take(i as int)),
        decreases parts.len() - i,
    {
        let t = trim_chars(&parts[i]);
        proof {
            assert(seqs(parts@).take((i + 1) as int).drop_last() =~= seqs(parts@).take(i as int));
        }
        if t.len() > 0 {
            let mut p = Vec::new();
            push_all(&mut p, &parts[i]);
            let ghost before = out@;
            out.push(p);
            assert(seqs(out@) =~= seqs(before).push(parts@[i as int]@));
        }
        i += 1;
    }
    assert(seqs(parts@).take(parts.len() as int) =~= seqs(parts@));
    out
}

fn chunk_hard(t: &Vec<char>, limit: usize) -> (r: Vec<Vec<char>>)
    requires
        limit >= 1,
    ensures
        seqs(r@) == hard_chunks(t@, limit as int),
{
    let n = t.len();
    let mut out: Vec<Vec<char>> = Vec::new();
    let mut i: usize = 0;
    assert(t@.skip(0) =~= t@);
    assert(seqs(out@) + hard_chunks(t@, limit as int) =~= hard_chunks(t@, limit as int));
    while i < n
        invariant
            i <= n == t.len(),
            limit >= 1,
            hard_chunks(t@, limit as int) == seqs(out@) + hard_chunks(t@.skip(i as int), limit as int),
        decreases n - i,
    {
        let e = if n - i <= limit {
            n
        } else {
            i + limit
        };
        let mut c = Vec::new();
        push_range(&mut c, t, i, e);
        proof {
            let rest = t@.skip(i as int);
            if n - i <= limit {
                assert(rest =~= t@.subrange(i as int, e as int));
            } else {
                assert(rest.take(limit as int) =~= t@.subrange(i as int, e as int));
                assert(rest.skip(limit as int) =~= t@.skip(e as int));
            }
        }
        let ghost before = out@;
        out.push(c);
        assert(seqs(out@) =~= seqs(before) + seq![t@.subrange(i as int, e as int)]);
        i = e;
        proof {
            if i == n {
                assert(t@.skip(i as int).len() == 0);
                assert(hard_chunks(t@.skip(i as int), limit as int) =~= Seq::<Seq<char>>::empty());
            }
        }
    }
    if n == 0 {
        assert(hard_chunks(t@.skip(0), limit as int) =~= Seq::<Seq<char>>::empty());
    }
    assert(seqs(out@) + Seq::<Seq<char>>::empty() =~= seqs(out@));
    out
}

fn merge_pieces(pieces: &Vec<Vec<char>>, limit: usize) -> (r: Vec<Vec<char>>)
    ensures
        seqs(r@) == merge_from(seqs(pieces@), 0, Seq::empty(), limit as int),
{
    let mut out: Vec<Vec<char>> = Vec::new();
    let mut cur: Vec<char> = Vec::new();
    let mut i: usize = 0;
    while i < pieces.len()
        invariant
            i <= pieces.len(),
            merge_from(seqs(pieces@), 0, Seq::empty(), limit as int) == seqs(out@) + merge_from(
                seqs(pieces@),
                i as int,
                cur@,
                limit as int,
            ),
        decreases pieces.len() - i,
    {
        let mut cand: Vec<char> = Vec::new();
        if cur.len() > 0 {
            push_all(&mut cand, &cur);
            cand.push(' ');
        }
        push_all(&mut cand, &pieces[i]);
        assert(seqs(pieces@)[i as int] == pieces@[i as int]@);
        let ghost pc = pieces@[i as int]@;
        assert(cand@ =~= (if cur@.len() == 0 { pc } else { cur@ + seq![' '] + pc }));
        if cand.len() <= limit {
            cur = cand;
        } else {
            let ghost before = out@;
            let mut next = Vec::new();
            push_all(&mut next, &pieces[i]);
            let ghost oldcur = cur@;
            out.push(cur);
            assert(seqs(out@) =~= seqs(before) + seq![oldcur]);
            assert(seqs(before) + merge_from(seqs(pieces@), i as int, oldcur, limit as int) =~= seqs(
                out@,
            ) + merge_from(seqs(pieces@), i + 1, pc, limit as int));
            cur = next;
        }
        i += 1;
    }
    if cur.len() > 0 {
        let ghost before = out@;
        out.push(cur);
        assert(seqs(out@) =~= seqs(before) + seq![cur@]);
    } else {
        assert(seqs(out@) + Seq::<Seq<char>>::empty() =~= seqs(out@));
    }
    out
}

pub(crate) fn pack_ipa_level(ipa: &Vec<char>, limit: usize, level: usize) -> (r: Vec<Vec<char>>)
    requires
        limit >= 1,
    ensures
        seqs(r@) == pack_level(ipa@, limit as int, level as int),
    decreases 2 * level_measure(level as int) + 1, 0int,
{
    let t = trim_chars(ipa);
    if t.len() <= limit {
        if t.len() == 0 {
            return Vec::new();
        }
        let mut out = Vec::new();
        out.push(t);
        return out;
    }
    if level >= 2 {
        return chunk_hard(&t, limit);
    }
    let raw = if level == 0 {
        split_after_clause(&t)
    } else {
        split_words(&t)
    };
    let parts = keep_nonblank(&raw);
    if parts.len() == 1 {
        return pack_ipa_level(&t, limit, level + 1);
    }
    let mut flat: Vec<Vec<char>> = Vec::new();
    let mut k: usize = 0;
    while k < parts.len()
        invariant
            k <= parts.len(),
            level < 2,
            limit >= 1,
            pack_all(seqs(parts@), 0, limit as int, level + 1) == seqs(flat@) + pack_all(
                seqs(parts@),
                k as int,
                limit as int,
                level + 1,
            ),
        decreases parts.len() - k,
    {
        let sub = pack_ipa_level(&parts[k], limit, level + 1);
        let ghost before = flat@;
        let mut j: usize = 0;
        while j < sub.len()
            invariant
                j <= sub.len(),
                seqs(flat@) == seqs(before) + seqs(sub@).take(j as int),
            decreases sub.len() - j,
        {
            let mut c = Vec::new();
            push_all(&mut c, &sub[j]);
            let ghost mid = flat@;
            flat.push(c);
            assert(seqs(flat@) =~= seqs(mid).push(sub@[j as int]@));
            assert(seqs(sub@).take(j + 1) =~= seqs(sub@).take(j as int).push(sub@[j as int]@));
            j += 1;
        }
        assert(seqs(sub@).take(sub.len() as int) =~= seqs(sub@));
        assert(seqs(parts@)[k as int] == parts@[k as int]@);
        k += 1;
    }
    assert(pack_all(seqs(parts@), k as int, limit as int, level + 1) =~= Seq::<Seq<char>>::empty());
    assert(seqs(flat@) + Seq::<Seq<char>>::empty() =~= seqs(flat@));
    merge_pieces(&flat, limit)
}

/// Every chunk is non-empty and at most `limit` characters long.
pub open spec fn all_fit(cs: Seq<Seq<char>>, limit: int) -> bool {
    forall|k: int| 0 <= k < cs.len() ==> 0 < (#[trigger] cs[k]).len() <= limit
}

proof fn lemma_hard_chunks_fit(t: Seq<char>, limit: int)
    requires
        limit >= 1,
    ensures
        all_fit(hard_chunks(t, limit), limit),
    decreases t.len(),
{
    if t.len() > limit {
        lemma_hard_chunks_fit(t.skip(limit), limit);
        let r = hard_chunks(t, limit);
        assert forall|k: int| 0 <= k < r.len() implies 0 < (#[trigger] r[k]).len() <= limit by {
            if k > 0 {
                assert(r[k] == hard_chunks(t.skip(limit), limit)[k - 1]);
            }
        }
    }
}

proof fn lemma_merge_fit(pieces: Seq<Seq<char>>, i: int, cur: Seq<char>, limit: int)
    requires
        0 <= i <= pieces.len(),
        cur.len() <= limit,
        forall|k: int| i <= k < pieces.len() ==> 0 < (#[trigger] pieces[k]).len() <= limit,
    ensures
        all_fit(merge_from(pieces, i, cur, limit), limit),
    decreases pieces.len() - i,
{
    if i < pieces.len() {
        let piece = pieces[i];
        let cand = if cur.len() == 0 {
            piece
        } else {
            cur + seq![' '] + piece
        };
        if cand.len() <= limit {
            lemma_merge_fit(pieces, i + 1, cand, limit);
        } else {
            lemma_merge_fit(pieces, i + 1, piece, limit);
            let rest = merge_from(pieces, i + 1, piece, limit);
            let r = seq![cur] + rest;
            assert forall|k: int| 0 <= k < r.len() implies 0 < (#[trigger] r[k]).len() <= limit by {
                if k > 0 {
                    assert(r[k] == rest[k - 1]);
                }
            }
        }
    }
}

proof fn lemma_pack_level_fit(ipa: Seq<char>, limit: int, level: int)
    requires
        limit >= 1,
    ensures
        all_fit(pack_level(ipa, limit, level), limit),
    decreases 2 * level_measure(level) + 1, 0int,
{
    let t = trim(ipa);
    if t.len() <= limit {
    } else if level >= 2 || level < 0 {
        lemma_hard_chunks_fit(t, limit);
    } else {
        let raw = if level == 0 {
            clause_from(t, 0, 0)
        } else {
            words_from(t, 0)
        };
        let parts = nonblank(raw);
        if parts.len() == 1 {
            lemma_pack_level_fit(t, limit, level + 1);
        } else {
            lemma_pack_all_fit(parts, 0, limit, level + 1);
            lemma_merge_fit(pack_all(parts, 0, limit, level + 1), 0, Seq::empty(), limit);
        }
    }
}

proof fn lemma_pack_all_fit(parts: Seq<Seq<char>>, k: int, limit: int, level: int)
    requires
        limit >= 1,
    ensures
        all_fit(pack_all(parts, k, limit, level), limit),
    decreases 2 * level_measure(level) + 2, parts.len() - k,
{
    if 0 <= k < parts.len() {
        lemma_pack_level_fit(parts[k], limit, level);
        lemma_pack_all_fit(parts, k + 1, limit, level);
        let a = pack_level(parts[k], limit, level);
        let b = pack_all(parts, k + 1, limit, level);
        assert forall|j: int| 0 <= j < (a + b).len() implies 0 < (#[trigger] (a + b)[j]).len() <= limit by {
            if j >= a.len() {
                assert((a + b)[j] == b[j - a.len()]);
            }
        }
    }
}

/// Every chunk that `pack_ipa` produces holds between one and `limit` characters, whatever the input.
pub proof fn lemma_pack_ipa_chunks_fit(ipa: Seq<char>, limit: int)
    requires
        limit >= 1,
    ensures
        all_fit(pack_level(ipa, limit, 0), limit),
{
    lemma_pack_level_fit(ipa, limit, 0);
}

/// Every character of `s` satisfies `ok`.
pub open spec fn all_ok(s: Seq<char>, ok: spec_fn(char) -> bool) -> bool {
    forall|j: int| 0 <= j < s.len() ==> ok(#[trigger] s[j])
}

/// Every character of every chunk satisfies `ok`.
pub open spec fn chars_ok(cs: Seq<Seq<char>>, ok: spec_fn(char) -> bool) -> bool {
    forall|k: int| 0 <= k < cs.len() ==> all_ok(#[trigger] cs[k], ok)
}

proof fn lemma_sub_ok(s: Seq<char>, a: int, b: int, ok: spec_fn(char) -> bool)
    requires
        all_ok(s, ok),
        0 <= a <= b <= s.len(),
    ensures
        all_ok(s.subrange(a, b), ok),
{
    assert forall|j: int| 0 <= j < s.subrange(a, b).len() implies ok(#[trigger] s.subrange(a, b)[j]) by {
        assert(s.subrange(a, b)[j] == s[a + j]);
    }
}

proof fn lemma_trim_ok(s: Seq<char>, ok: spec_fn(char) -> bool)
    requires
        all_ok(s, ok),
    ensures
        all_ok(trim(s), ok),
{
    lemma_skip_ws(s, 0);
    lemma_trim_end_at(s, s.len() as int);
    let a = skip_ws(s, 0);
    let b = trim_end_at(s, s.len() as int);
    if a < b {
        lemma_sub_ok(s, a, b, ok);
    }
}

proof fn lemma_concat_ok(x: Seq<Seq<char>>, y: Seq<Seq<char>>, ok: spec_fn(char) -> bool)
    requires
        chars_ok(x, ok),
        chars_ok(y, ok),
    ensures
        chars_ok(x + y, ok),
{
    assert forall|k: int| 0 <= k < (x + y).len() implies all_ok(#[trigger] (x + y)[k], ok) by {
        if k < x.len() {
            assert((x + y)[k] == x[k]);
        } else {
            assert((x + y)[k] == y[k - x.len()]);
        }
    }
}

proof fn lemma_clause_ok(s: Seq<char>, start: int, i: int, ok: spec_fn(char) -> bool)
    requires
        all_ok(s, ok),
        0 <= start <= i,
        start <= s.len(),
    ensures
        chars_ok(clause_from(s, start, i), ok),
    decreases s.len() - i,
{
    if i < 0 || i >= s.len() {
        if 0 <= start < s.len() {
            lemma_sub_ok(s, start, s.len() as int, ok);
        }
    } else if clause_mark(s[i]) {
        let j = skip_ws(s, i + 1);
        lemma_skip_ws(s, i + 1);
        lemma_sub_ok(s, start, i + 1, ok);
        lemma_clause_ok(s, j, j, ok);
        lemma_concat_ok(seq![s.subrange(start, i + 1)], clause_from(s, j, j), ok);
    } else {
        lemma_clause_ok(s, start, i + 1, ok);
    }
}

proof fn lemma_words_ok(s: Seq<char>, i: int, ok: spec_fn(char) -> bool)
    requires
        all_ok(s, ok),
        0 <= i,
    ensures
        chars_ok(words_from(s, i), ok),
    decreases s.len() - i,
{
    if i < s.len() {
        if white_space(s[i]) {
            lemma_words_ok(s, i + 1, ok);
        } else {
            let k = word_end(s, i);
            lemma_word_end(s, i + 1);
            lemma_word_end(s, i);
            lemma_sub_ok(s, i, k, ok);
            lemma_words_ok(s, k, ok);
            lemma_concat_ok(seq![s.subrange(i, k)], words_from(s, k), ok);
        }
    }
}

proof fn lemma_nonblank_ok(parts: Seq<Seq<char>>, ok: spec_fn(char) -> bool)
    requires
        chars_ok(parts, ok),
    ensures
        chars_ok(nonblank(parts), ok),
    decreases parts.len(),
{
    if parts.len() > 0 {
        assert(chars_ok(parts.drop_last(), ok)) by {
            assert forall|k: int| 0 <= k < parts.drop_last().len() implies all_ok(
                #[trigger] parts.drop_last()[k],
                ok,
            ) by {
                assert(parts.drop_last()[k] == parts[k]);
            }
        }
        lemma_nonblank_ok(parts.drop_last(), ok);
        assert(all_ok(parts[parts.len() - 1], ok));
        lemma_concat_ok(nonblank(parts.drop_last()), seq![parts.last()], ok);
        assert(nonblank(parts.drop_last()).push(parts.last()) =~= nonblank(parts.drop_last()) + seq![
            parts.last(),
        ]);
    }
}

proof fn lemma_hard_ok(t: Seq<char>, limit: int, ok: spec_fn(char) -> bool)
    requires
        all_ok(t, ok),
    ensures
        chars_ok(hard_chunks(t, limit), ok),
    decreases t.len(),
{
    if t.len() > 0 && !(limit <= 0 || t.len() <= limit) {
        lemma_sub_ok(t, 0, limit, ok);
        assert(t.take(limit) =~= t.subrange(0, limit));
        lemma_sub_ok(t, limit, t.len() as int, ok);
        assert(t.skip(limit) =~= t.subrange(limit, t.len() as int));
        lemma_hard_ok(t.skip(limit), limit, ok);
        lemma_concat_ok(seq![t.take(limit)], hard_chunks(t.skip(limit), limit), ok);
    }
}

proof fn lemma_merge_ok(pieces: Seq<Seq<char>>, i: int, cur: Seq<char>, limit: int, ok: spec_fn(char) -> bool)
    requires
        chars_ok(pieces, ok),
        all_ok(cur, ok),
        ok(' '),
    ensures
        chars_ok(merge_from(pieces, i, cur, limit), ok),
    decreases pieces.len() - i,
{
    if 0 <= i < pieces.len() {
        let piece = pieces[i];
        assert(all_ok(piece, ok));
        let cand = if cur.len() == 0 {
            piece
        } else {
            cur + seq![' '] + piece
        };
        assert(all_ok(cand, ok)) by {
            if cur.len() > 0 {
                assert forall|j: int| 0 <= j < cand.len() implies ok(#[trigger] cand[j]) by {
                    if j < cur.len() {
                        assert(cand[j] == cur[j]);
                    } else if j == cur.len() {
                        assert(cand[j] == ' ');
                    } else {
                        assert(cand[j] == piece[j - cur.len() - 1]);
                    }
                }
            }
        }
        if cand.len() <= limit {
            lemma_merge_ok(pieces, i + 1, cand, limit, ok);
        } else {
            lemma_merge_ok(pieces, i + 1, piece, limit, ok);
            lemma_concat_ok(seq![cur], merge_from(pieces, i + 1, piece, limit), ok);
        }
    }
}

proof fn lemma_pack_level_ok(ipa: Seq<char>, limit: int, level: int, ok: spec_fn(char) -> bool)
    requires
        all_ok(ipa, ok),
        ok(' '),
    ensures
        chars_ok(pack_level(ipa, limit, level), ok),
    decreases 2 * level_measure(level) + 1, 0int,
{
    let t = trim(ipa);
    lemma_trim_ok(ipa, ok);
    if t.len() <= limit {
    } else if level >= 2 || level < 0 {
        lemma_hard_ok(t, limit, ok);
    } else {
        let raw = if level == 0 {
            clause_from(t, 0, 0)
        } else {
            words_from(t, 0)
        };
        if level == 0 {
            lemma_clause_ok(t, 0, 0, ok);
        } else {
            lemma_words_ok(t, 0, ok);
        }
        let parts = nonblank(raw);
        lemma_nonblank_ok(raw, ok);
        if parts.len() == 1 {
            lemma_pack_level_ok(t, limit, level + 1, ok);
        } else {
            lemma_pack_all_ok(parts, 0, limit, level + 1, ok);
            lemma_merge_ok(pack_all(parts, 0, limit, level + 1), 0, Seq::empty(), limit, ok);
        }
    }
}

proof fn lemma_pack_all_ok(parts: Seq<Seq<char>>, k: int, limit: int, level: int, ok: spec_fn(char) -> bool)
    requires
        chars_ok(parts, ok),
        ok(' '),
    ensures
        chars_ok(pack_all(parts, k, limit, level), ok),
    decreases 2 * level_measure(level) + 2, parts.len() - k,
{
    if 0 <= k < parts.len() {
        assert(all_ok(parts[k], ok));
        lemma_pack_level_ok(parts[k], limit, level, ok);
        lemma_pack_all_ok(parts, k + 1, limit, level, ok);
        lemma_concat_ok(pack_level(parts[k], limit, level), pack_all(parts, k + 1, limit, level), ok);
    }
}

/// Packing adds no character of its own but spaces: whatever holds of every character of the input, and of the
/// space, holds of every character of every chunk.
pub proof fn lemma_pack_ipa_keeps_chars(ipa: Seq<char>, limit: int, ok: spec_fn(char) -> bool)
    requires
        all_ok(ipa, ok),
        ok(' '),
    ensures
        chars_ok(pack_level(ipa, limit, 0), ok),
{
    lemma_pack_level_ok(ipa, limit, 0, ok);
}

proof fn lemma_join_ok(ws: Seq<Seq<char>>, ok: spec_fn(char) -> bool)
    requires
        chars_ok(ws, ok),
        ok(' '),
    ensures
        all_ok(join_words(ws), ok),
    decreases ws.len(),
{
    if ws.len() == 1 {
        assert(all_ok(ws[0], ok));
    } else if ws.len() > 1 {
        let init = ws.drop_last();
        assert(chars_ok(init, ok)) by {
            assert forall|k: int| 0 <= k < init.len() implies all_ok(#[trigger] init[k], ok) by {
                assert(init[k] == ws[k]);
            }
        }
        lemma_join_ok(init, ok);
        let a = join_words(init);
        let w = ws.last();
        assert(all_ok(w, ok)) by {
            assert(w == ws[ws.len() - 1]);
        }
        let j = a + seq![' '] + w;
        assert forall|x: int| 0 <= x < j.len() implies ok(#[trigger] j[x]) by {
            if x < a.len() {
                assert(j[x] == a[x]);
            } else if x == a.len() {
                assert(j[x] == ' ');
            } else {
                assert(j[x] == w[x - a.len() - 1]);
            }
        }
    }
}

/// Collapsing whitespace adds no character but spaces: whatever holds of every character of the input, and of the
/// space, holds of every character of the result.
pub proof fn lemma_collapse_ok(s: Seq<char>, ok: spec_fn(char) -> bool)
    requires
        all_ok(s, ok),
        ok(' '),
    ensures
        all_ok(collapse(s), ok),
{
    lemma_words_ok(s, 0, ok);
    lemma_join_ok(words_from(s, 0), ok);
}

/// Not empty, with no whitespace at either end.
pub open spec fn trimmed(x: Seq<char>) -> bool {
    x.len() > 0 && !white_space(x[0]) && !white_space(x.last())
}

proof fn lemma_trimmed_nonempty(parts: Seq<Seq<char>>)
    ensures
        forall|k: int| 0 <= k < trimmed_nonempty(parts).len() ==> trimmed(#[trigger] trimmed_nonempty(parts)[k]),
    decreases parts.len(),
{
    if parts.len() > 0 {
        lemma_trimmed_nonempty(parts.drop_last());
        lemma_trim_props(parts.last());
        let rest = trimmed_nonempty(parts.drop_last());
        let t = trim(parts.last());
        if t.len() > 0 {
            assert forall|k: int| 0 <= k < rest.push(t).len() implies trimmed(#[trigger] rest.push(t)[k]) by {
                if k < rest.len() {
                    assert(rest.push(t)[k] == rest[k]);
                }
            }
        }
    }
}

proof fn lemma_paragraphs_trimmed(s: Seq<char>, i: int)
    requires
        0 <= i,
    ensures
        forall|p: int, k: int|
            0 <= p < paragraphs_from(s, i).len() && 0 <= k < paragraphs_from(s, i)[p].len() ==> trimmed(
                #[trigger] paragraphs_from(s, i)[p][k],
            ),
    decreases s.len() - i,
{
    if i <= s.len() {
        let k = find_char(s, i, '\n');
        lemma_find_char(s, i, '\n');
        let par = trim(s.subrange(i, k));
        if k < s.len() {
            lemma_paragraphs_trimmed(s, k + 1);
        }
        let rest = if k < s.len() {
            paragraphs_from(s, k + 1)
        } else {
            Seq::empty()
        };
        if par.len() > 0 {
            lemma_trimmed_nonempty(parts_from(par, 0, 0));
            let all = seq![sentences(par)] + rest;
            assert(paragraphs_from(s, i) == all);
            assert forall|p: int, x: int| 0 <= p < all.len() && 0 <= x < all[p].len() implies trimmed(
                #[trigger] all[p][x],
            ) by {
                if p > 0 {
                    assert(all[p] == rest[p - 1]);
                } else {
                    assert(all[0] == sentences(par));
                }
            }
        } else {
            assert(paragraphs_from(s, i) == rest);
        }
    }
}

/// Every sentence that splitting gives is not empty and has no whitespace at either end.
pub proof fn lemma_sentences_trimmed(text: Seq<char>)
    ensures
        forall|p: int, k: int|
            0 <= p < split_sentences_spec(text).len() && 0 <= k < split_sentences_spec(text)[p].len() ==> trimmed(
                #[trigger] split_sentences_spec(text)[p][k],
            ),
{
    lemma_paragraphs_trimmed(text, 0);
}

/// Cuts IPA into chunks of at most `limit` characters: first after punctuation, then at spaces, and as a last resort
/// anywhere. A blank text gives no chunk, whatever the limit; any other text needs a positive limit.
pub fn pack_ipa(ipa: &str, limit: usize) -> (r: Vec<String>)
    requires
        limit >= 1 || trim(ipa@).len() == 0,
    ensures
        strs(r@) == pack_level(ipa@, limit as int, 0),
        all_fit(strs(r@), limit as int),
{
    let v = to_chars(ipa);
    if limit == 0 {
        let out: Vec<String> = Vec::new();
        assert(strs(out@) =~= pack_level(ipa@, limit as int, 0));
        return out;
    }
    proof {
        lemma_pack_ipa_chunks_fit(ipa@, limit as int);
    }
    let out = pack_ipa_level(&v, limit, 0);
    to_strings(&out)
}

proof fn lemma_parts_skip(s: Seq<char>, start: int, i: int, e: int)
    requires
        0 <= i <= e <= s.len(),
        forall|k: int| i <= k < e ==> !white_space(#[trigger] s[k]),
    ensures
        parts_from(s, start, i) == parts_from(s, start, e),
    decreases e - i,
{
    if i < e {
        assert(!white_space(s[i]));
        lemma_parts_skip(s, start, i + 1, e);
    }
}

/// Where a line of two words `a b` is cut into sentences. When `a` ends with `. ! ? …` (or with one of them and then
/// a closing `" ” » )`) and `b` begins with a Polish capital letter (or an opening `" „ “ ( «` and one), the line is
/// the two sentences `a` and `b`. When `a` ends with any other character, or `b` begins with neither a capital, an
/// opening mark nor a manual-IPA marker, the line is one sentence.
pub proof fn lemma_two_word_sentences(a: Seq<char>, b: Seq<char>)
    requires
        a.len() > 0,
        b.len() > 0,
        forall|k: int| 0 <= k < a.len() ==> !white_space(#[trigger] a[k]),
        forall|k: int| 0 <= k < b.len() ==> !white_space(#[trigger] b[k]),
    ensures
        ({
            let e = a.last();
            let closed = a.len() > 1 && (e == '"' || e == '”' || e == '»' || e == ')');
            let opened = b.len() > 1 && (b[0] == '"' || b[0] == '„' || b[0] == '“' || b[0] == '(' || b[0] == '«');
            (e == '.' || e == '!' || e == '?' || e == '…' || (closed && (a[a.len() - 2] == '.' || a[a.len() - 2]
                == '!' || a[a.len() - 2] == '?' || a[a.len() - 2] == '…'))) && (upper_pl(b[0]) || (opened
                && upper_pl(b[1])))
        }) ==> split_sentences_spec(a + seq![' '] + b) == seq![seq![a, b]],
        !upper_pl(b[0]) && !(b[0] == '"' || b[0] == '„' || b[0] == '“' || b[0] == '(' || b[0] == '«' || b[0]
            == PH_OPEN) ==> split_sentences_spec(a + seq![' '] + b) == seq![seq![a + seq![' '] + b]],
        ({
            let e = a.last();
            !(e == '.' || e == '!' || e == '?' || e == '…' || e == '"' || e == '”' || e == '»' || e == ')')
        }) ==> split_sentences_spec(a + seq![' '] + b) == seq![seq![a + seq![' '] + b]],
{
    let s = a + seq![' '] + b;
    let n = s.len() as int;
    let i = a.len() as int;
    assert(s[i] == ' ');
    assert forall|k: int| 0 <= k < i implies !white_space(#[trigger] s[k]) by {
        assert(s[k] == a[k]);
    }
    assert forall|k: int| i + 1 <= k < n implies !white_space(#[trigger] s[k]) by {
        assert(s[k] == b[k - i - 1]);
    }
    // The line is the whole text, and trimming leaves it as it is.
    lemma_find_char(s, 0, '\n');
    let f = find_char(s, 0, '\n');
    if f < n {
        assert(s[f] == '\n');
        assert(white_space(s[f]));
    }
    assert(f == n);
    assert(!white_space(s[0]));
    assert(skip_ws(s, 0) == 0);
    assert(!white_space(s[n - 1]));
    assert(trim_end_at(s, n) == n);
    assert(s.subrange(0, n) =~= s);
    assert(trim(s) == s);
    assert(paragraphs_from(s, n + 1) == Seq::<Seq<Seq<char>>>::empty());
    assert(split_sentences_spec(s) == seq![sentences(s)]);
    // The only whitespace is the space between the words.
    lemma_parts_skip(s, 0, 0, i);
    assert(!white_space(s[i + 1]));
    assert(skip_ws(s, i + 1) == i + 1);
    assert(skip_ws(s, i) == i + 1);
    lemma_parts_skip(s, i + 1, i + 1, n);
    lemma_parts_skip(s, 0, i + 1, n);
    assert(parts_from(s, 0, n) == seq![s.subrange(0, n)]);
    assert(parts_from(s, i + 1, n) == seq![s.subrange(i + 1, n)]);
    assert(s.subrange(0, i) =~= a);
    assert(s.subrange(i + 1, n) =~= b);
    assert(s[i - 1] == a.last());
    if i > 1 {
        assert(s[i - 2] == a[i - 2]);
    }
    lemma_trim_props(a);
    lemma_trim_props(b);
    assert(trim(a) == a);
    assert(trim(b) == b);
    assert(trimmed_nonempty(Seq::<Seq<char>>::empty()) == Seq::<Seq<char>>::empty());
    assert(seq![a].last() == a);
    assert(seq![s].last() == s);
    assert(s[i + 1] == b[0]);
    if break_before(s, i) && start_after(s, i + 1) {
        let ps = seq![a, b];
        assert(parts_from(s, 0, 0) == seq![a] + seq![b]);
        assert(seq![a] + seq![b] =~= ps);
        assert(ps.drop_last() =~= seq![a]);
        assert(seq![a].drop_last() =~= Seq::<Seq<char>>::empty());
        assert(trimmed_nonempty(seq![a]) == seq![a]);
        assert(trimmed_nonempty(ps) =~= seq![a, b]);
    } else {
        assert(parts_from(s, 0, 0) == seq![s]);
        assert(seq![s].drop_last() =~= Seq::<Seq<char>>::empty());
        assert(!white_space(s[0]) && !white_space(s[n - 1]));
        assert(trim(s) == s);
        assert(trimmed_nonempty(seq![s]) =~= seq![s]);
    }
}

proof fn lemma_clause_skip(s: Seq<char>, start: int, i: int, e: int)
    requires
        0 <= i <= e <= s.len(),
        forall|k: int| i <= k < e ==> !clause_mark(#[trigger] s[k]),
    ensures
        clause_from(s, start, i) == clause_from(s, start, e),
    decreases e - i,
{
    if i < e {
        assert(!clause_mark(s[i]));
        lemma_clause_skip(s, start, i + 1, e);
    }
}

/// Where IPA is cut at punctuation (the first level of packing): right after each of `, ; : — …`, the whitespace
/// that follows going with the cut. A run `a` without those marks, one of them, whitespace `w` and a run `b` without
/// them that begins with no whitespace make the two parts `a` with the mark, and `b`; a text without those marks is
/// one part.
pub proof fn lemma_clause_cut(a: Seq<char>, c: char, w: Seq<char>, b: Seq<char>)
    requires
        c == ',' || c == ';' || c == ':' || c == '—' || c == '…',
        forall|k: int|
            0 <= k < a.len() ==> !(#[trigger] a[k] == ',' || a[k] == ';' || a[k] == ':' || a[k] == '—' || a[k]
                == '…'),
        forall|k: int|
            0 <= k < b.len() ==> !(#[trigger] b[k] == ',' || b[k] == ';' || b[k] == ':' || b[k] == '—' || b[k]
                == '…'),
        forall|k: int| 0 <= k < w.len() ==> white_space(#[trigger] w[k]),
        b.len() > 0,
        !white_space(b[0]),
    ensures
        clause_from(a + seq![c] + w + b, 0, 0) == seq![a.push(c), b],
        clause_from(b, 0, 0) == seq![b],
{
    let t = a + seq![c] + w + b;
    let n = t.len() as int;
    let i = a.len() as int;
    let j = i + 1 + w.len();
    assert forall|k: int| 0 <= k < i implies !clause_mark(#[trigger] t[k]) by {
        assert(t[k] == a[k]);
    }
    assert forall|k: int| j <= k < n implies !clause_mark(#[trigger] t[k]) by {
        assert(t[k] == b[k - j]);
    }
    assert forall|k: int| i + 1 <= k < j implies white_space(#[trigger] t[k]) by {
        assert(t[k] == w[k - i - 1]);
    }
    assert(t[i] == c);
    assert(t[j] == b[0]);
    lemma_clause_skip(t, 0, 0, i);
    lemma_skip_ws(t, i + 1);
    let sw = skip_ws(t, i + 1);
    if sw < j {
        assert(white_space(t[sw]));
    }
    if sw > j {
        assert(white_space(t[j]));
    }
    assert(sw == j);
    lemma_clause_skip(t, j, j, n);
    assert(clause_from(t, j, n) == seq![t.subrange(j, n)]);
    assert(t.subrange(0, i + 1) =~= a.push(c));
    assert(t.subrange(j, n) =~= b);
    assert(clause_from(t, 0, 0) == seq![t.subrange(0, i + 1)] + clause_from(t, j, j));
    assert(seq![a.push(c)] + seq![b] =~= seq![a.push(c), b]);
    assert forall|k: int| 0 <= k < b.len() implies !clause_mark(#[trigger] b[k]) by {
        assert(!(b[k] == ',' || b[k] == ';' || b[k] == ':' || b[k] == '—' || b[k] == '…'));
    }
    lemma_clause_skip(b, 0, 0, b.len() as int);
    assert(b.subrange(0, b.len() as int) =~= b);
}

} // verus!
