//! The IPA layout that text-to-IPA writes and synthesis reads: one sentence per line, an empty line between
//! paragraphs. The laws here show that the two agree.

use vstd::prelude::*;

use crate::chars::{
    collapse, join_with, join_words, lemma_skip_ws, lemma_word_end, skip_ws, white_space, word_end, words_from,
};
use crate::pipeline::{paragraph_lines, prepared_overrides, prepared_text, text_blocks, text_ipa_spec};
use crate::synth::{last_newline, lines_of, para_break, paragraphs_of};
use crate::text::split_sentences_spec;

verus! {

/// A line as text-to-IPA writes it: not empty, no whitespace at either end, no line break inside.
pub open spec fn clean_line(l: Seq<char>) -> bool {
    &&& l.len() > 0
    &&& !white_space(l[0])
    &&& !white_space(l.last())
    &&& forall|i: int| 0 <= i < l.len() ==> l[i] != '\n'
}

/// A paragraph as text-to-IPA writes it: not empty, no whitespace at either end, and every line break followed by
/// a character that is not whitespace.
pub open spec fn clean_block(b: Seq<char>) -> bool {
    &&& b.len() > 0
    &&& !white_space(b[0])
    &&& !white_space(b.last())
    &&& forall|i: int| 0 <= i < b.len() && b[i] == '\n' ==> i + 1 < b.len() && !white_space(#[trigger] b[i + 1])
}

/// The lists of sentence lines of the paragraphs that have any, in order.
pub open spec fn text_line_lists(
    paras: Seq<Seq<Seq<char>>>,
    ovr: Seq<Seq<char>>,
    m: Map<Seq<char>, Seq<char>>,
) -> Seq<Seq<Seq<char>>>
    decreases paras.len(),
{
    if paras.len() == 0 {
        Seq::empty()
    } else {
        let ls = text_line_lists(paras.drop_last(), ovr, m);
        let l = paragraph_lines(paras.last(), ovr, m);
        if l.len() > 0 {
            ls.push(l)
        } else {
            ls
        }
    }
}

/// Joining with a separator, seen from the front.
pub proof fn lemma_join_front(x: Seq<char>, rest: Seq<Seq<char>>, sep: Seq<char>)
    requires
        rest.len() > 0,
    ensures
        join_with(seq![x] + rest, sep) == x + sep + join_with(rest, sep),
    decreases rest.len(),
{
    let all = seq![x] + rest;
    assert(all.drop_last() =~= seq![x] + rest.drop_last());
    assert(all.last() == rest.last());
    if rest.len() == 1 {
        assert(seq![x] + rest.drop_last() =~= seq![x]);
        assert(join_with(seq![x], sep) == x);
        assert(join_with(rest, sep) == rest[0]);
        assert(rest[0] == rest.last());
    } else {
        lemma_join_front(x, rest.drop_last(), sep);
        assert(join_with(rest, sep) == join_with(rest.drop_last(), sep) + sep + rest.last());
        assert(x + sep + join_with(rest.drop_last(), sep) + sep + rest.last() =~= x + sep + (join_with(
            rest.drop_last(),
            sep,
        ) + sep + rest.last()));
    }
}

proof fn lemma_lines_scan(s: Seq<char>, start: int, i: int, j: int)
    requires
        0 <= start <= i <= j <= s.len(),
        forall|k: int| i <= k < j ==> s[k] != '\n',
    ensures
        lines_of(s, start, i) == lines_of(s, start, j),
    decreases j - i,
{
    if i < j {
        lemma_lines_scan(s, start, i + 1, j);
    }
}

/// The lines of `s` from `q` on, where what follows `q` is the lines `ls` joined by line breaks.
proof fn lemma_lines_of_join(s: Seq<char>, q: int, ls: Seq<Seq<char>>)
    requires
        0 <= q <= s.len(),
        ls.len() > 0,
        forall|k: int, i: int| 0 <= k < ls.len() && 0 <= i < ls[k].len() ==> #[trigger] ls[k][i] != '\n',
        s.skip(q) == join_with(ls, seq!['\n']),
    ensures
        lines_of(s, q, q) == ls,
    decreases ls.len(),
{
    let l0 = ls[0];
    if ls.len() == 1 {
        assert(join_with(ls, seq!['\n']) == l0);
        assert forall|k: int| q <= k < s.len() implies s[k] != '\n' by {
            assert(s[k] == s.skip(q)[k - q]);
            assert(ls[0][k - q] != '\n');
        }
        lemma_lines_scan(s, q, q, s.len() as int);
        assert(s.subrange(q, s.len() as int) =~= s.skip(q));
        assert(seq![l0] =~= ls);
    } else {
        let rest = ls.skip(1);
        assert(ls =~= seq![l0] + rest);
        lemma_join_front(l0, rest, seq!['\n']);
        let jr = join_with(rest, seq!['\n']);
        assert(s.skip(q) =~= l0 + seq!['\n'] + jr);
        assert(s.skip(q).len() == s.len() - q);
        let p = q + l0.len();
        assert(p < s.len());
        assert forall|k: int| q <= k < p implies s[k] != '\n' by {
            assert(s[k] == s.skip(q)[k - q]);
            assert(s.skip(q)[k - q] == l0[k - q]);
            assert(ls[0][k - q] != '\n');
        }
        lemma_lines_scan(s, q, q, p);
        assert(s.skip(q)[l0.len() as int] == '\n');
        assert(s[p] == s.skip(q)[l0.len() as int]);
        assert(s.subrange(q, p) =~= l0);
        assert forall|x: int| 0 <= x < jr.len() implies s.skip(p + 1)[x] == jr[x] by {
            assert(s.skip(p + 1)[x] == s[p + 1 + x]);
            assert(s[p + 1 + x] == s.skip(q)[p + 1 + x - q]);
            assert((l0 + seq!['\n'] + jr)[l0.len() + 1 + x] == jr[x]);
        }
        assert(s.skip(p + 1) =~= jr);
        assert forall|k: int, i: int| 0 <= k < rest.len() && 0 <= i < rest[k].len() implies #[trigger] rest[k][i]
            != '\n' by {
            assert(rest[k] == ls[k + 1]);
        }
        lemma_lines_of_join(s, p + 1, rest);
        assert(lines_of(s, q, p) == seq![s.subrange(q, p)] + lines_of(s, p + 1, p + 1));
    }
}

proof fn lemma_paragraphs_scan(s: Seq<char>, start: int, i: int, j: int)
    requires
        0 <= start <= i <= j <= s.len(),
        forall|k: int| i <= k < j ==> #[trigger] para_break(s, k) is None,
    ensures
        paragraphs_of(s, start, i) == paragraphs_of(s, start, j),
    decreases j - i,
{
    if i < j {
        assert(para_break(s, i) is None);
        lemma_paragraphs_scan(s, start, i + 1, j);
    }
}

/// Inside a clean paragraph no paragraph break begins: every line break there is followed by a character that is
/// not whitespace.
proof fn lemma_no_break_inside(s: Seq<char>, q: int, b: Seq<char>, k: int)
    requires
        0 <= q,
        q + b.len() <= s.len(),
        s.subrange(q, q + b.len()) == b,
        clean_block(b),
        q <= k < q + b.len(),
    ensures
        para_break(s, k) is None,
{
    if s[k] == '\n' {
        assert(s[k] == b[k - q]);
        assert(k - q + 1 < b.len() && !white_space(b[k - q + 1]));
        assert(s[k + 1] == b[k - q + 1]);
        assert(skip_ws(s, k + 1) == k + 1);
        assert(last_newline(s, k + 1, k + 1) == -1);
    }
}

/// The paragraphs of `s` from `q` on, where what follows `q` is the clean paragraphs `bs` joined by empty lines.
proof fn lemma_paragraphs_of_join(s: Seq<char>, q: int, bs: Seq<Seq<char>>)
    requires
        0 <= q <= s.len(),
        bs.len() > 0,
        forall|k: int| 0 <= k < bs.len() ==> clean_block(#[trigger] bs[k]),
        s.skip(q) == join_with(bs, seq!['\n', '\n']),
    ensures
        paragraphs_of(s, q, q) == bs,
    decreases bs.len(),
{
    let b0 = bs[0];
    assert(clean_block(b0));
    if bs.len() == 1 {
        assert(join_with(bs, seq!['\n', '\n']) == b0);
        assert(s.subrange(q, q + b0.len()) =~= b0);
        assert forall|k: int| q <= k < s.len() implies #[trigger] para_break(s, k) is None by {
            lemma_no_break_inside(s, q, b0, k);
        }
        lemma_paragraphs_scan(s, q, q, s.len() as int);
        assert(s.subrange(q, s.len() as int) =~= b0);
        assert(seq![b0] =~= bs);
    } else {
        let rest = bs.skip(1);
        assert(bs =~= seq![b0] + rest);
        lemma_join_front(b0, rest, seq!['\n', '\n']);
        let p = q + b0.len();
        let j = join_with(rest, seq!['\n', '\n']);
        assert(s.skip(q) =~= b0 + seq!['\n', '\n'] + j);
        assert(s.skip(q).len() == s.len() - q);
        assert(p + 2 <= s.len());
        assert(s.subrange(q, p) =~= b0);
        assert(s.skip(q)[b0.len() as int] == '\n');
        assert(s.skip(q)[b0.len() as int + 1] == '\n');
        assert(s[p] == s.skip(q)[b0.len() as int]);
        assert(s[p + 1] == s.skip(q)[b0.len() as int + 1]);
        assert forall|k: int| q <= k < p implies #[trigger] para_break(s, k) is None by {
            lemma_no_break_inside(s, q, b0, k);
        }
        lemma_paragraphs_scan(s, q, q, p);
        assert(s[p] == '\n');
        assert(s[p + 1] == '\n');
        assert forall|x: int| 0 <= x < j.len() implies s.skip(p + 2)[x] == j[x] by {
            assert(s.skip(p + 2)[x] == s[p + 2 + x]);
            assert(s[p + 2 + x] == s.skip(q)[p + 2 + x - q]);
            assert((b0 + seq!['\n', '\n'] + j)[b0.len() + 2 + x] == j[x]);
        }
        assert(s.skip(p + 2) =~= j);
        assert forall|k: int| 0 <= k < rest.len() implies clean_block(#[trigger] rest[k]) by {
            assert(rest[k] == bs[k + 1]);
        }
        lemma_join_first(rest, seq!['\n', '\n']);
        assert(s[p + 2] == j[0]);
        assert(!white_space(s[p + 2]));
        lemma_skip_ws(s, p + 1);
        assert(skip_ws(s, p + 1) == skip_ws(s, p + 2));
        assert(skip_ws(s, p + 2) == p + 2);
        assert(last_newline(s, p + 1, p + 2) == p + 1);
        assert(para_break(s, p) == Some(p + 2));
        lemma_paragraphs_of_join(s, p + 2, rest);
        assert(paragraphs_of(s, q, p) == seq![s.subrange(q, p)] + paragraphs_of(s, p + 2, p + 2));
    }
}

/// The first character of clean paragraphs joined together is the first of the first.
proof fn lemma_join_first(bs: Seq<Seq<char>>, sep: Seq<char>)
    requires
        bs.len() > 0,
        forall|k: int| 0 <= k < bs.len() ==> (#[trigger] bs[k]).len() > 0,
    ensures
        join_with(bs, sep).len() > 0,
        join_with(bs, sep)[0] == bs[0][0],
    decreases bs.len(),
{
    if bs.len() > 1 {
        let init = bs.drop_last();
        assert forall|k: int| 0 <= k < init.len() implies (#[trigger] init[k]).len() > 0 by {
            assert(init[k] == bs[k]);
        }
        lemma_join_first(init, sep);
        assert(init[0] == bs[0]);
    }
}

/// Clean lines joined by line breaks make a clean paragraph.
proof fn lemma_block_of_lines(ls: Seq<Seq<char>>)
    requires
        ls.len() > 0,
        forall|k: int| 0 <= k < ls.len() ==> clean_line(#[trigger] ls[k]),
    ensures
        clean_block(join_with(ls, seq!['\n'])),
    decreases ls.len(),
{
    if ls.len() == 1 {
        let l = ls[0];
        assert(clean_line(l));
        assert(join_with(ls, seq!['\n']) == l);
        assert forall|i: int| 0 <= i < l.len() && l[i] == '\n' implies i + 1 < l.len() && !white_space(
            #[trigger] l[i + 1],
        ) by {}
    } else {
        let init = ls.drop_last();
        assert forall|k: int| 0 <= k < init.len() implies clean_line(#[trigger] init[k]) by {
            assert(init[k] == ls[k]);
        }
        lemma_block_of_lines(init);
        let a = join_with(init, seq!['\n']);
        let l = ls.last();
        assert(clean_line(ls[ls.len() - 1]));
        let b = a + seq!['\n'] + l;
        assert(join_with(ls, seq!['\n']) == b);
        assert(b[0] == a[0]);
        assert(b.last() == l.last());
        assert forall|i: int| 0 <= i < b.len() && b[i] == '\n' implies i + 1 < b.len() && !white_space(
            #[trigger] b[i + 1],
        ) by {
            if i < a.len() {
                assert(b[i] == a[i]);
                if i + 1 < a.len() {
                    assert(b[i + 1] == a[i + 1]);
                } else {
                    assert(a[i] == a.last());
                    assert(false);
                }
            } else if i == a.len() {
                assert(b[i + 1] == l[0]);
            } else {
                assert(b[i] == l[i - a.len() - 1]);
                assert(false);
            }
        }
    }
}

/// Every word of `s` from `i` on is made of characters that are not whitespace, and is not empty.
proof fn lemma_words_clean(s: Seq<char>, i: int)
    requires
        0 <= i,
    ensures
        forall|k: int| 0 <= k < words_from(s, i).len() ==> (#[trigger] words_from(s, i)[k]).len() > 0,
        forall|k: int, j: int|
            0 <= k < words_from(s, i).len() && 0 <= j < words_from(s, i)[k].len() ==> !white_space(
                #[trigger] words_from(s, i)[k][j],
            ),
    decreases s.len() - i,
{
    if i < s.len() {
        if white_space(s[i]) {
            lemma_words_clean(s, i + 1);
            assert(words_from(s, i) == words_from(s, i + 1));
        } else {
            let k = word_end(s, i);
            lemma_word_end(s, i + 1);
            lemma_word_end(s, i);
            lemma_words_clean(s, k);
            let w = s.subrange(i, k);
            let ws = seq![w] + words_from(s, k);
            assert(words_from(s, i) == ws);
            assert forall|x: int| 0 <= x < ws.len() implies (#[trigger] ws[x]).len() > 0 by {
                if x > 0 {
                    assert(ws[x] == words_from(s, k)[x - 1]);
                }
            }
            assert forall|x: int, j: int| 0 <= x < ws.len() && 0 <= j < ws[x].len() implies !white_space(
                #[trigger] ws[x][j],
            ) by {
                if x > 0 {
                    assert(ws[x] == words_from(s, k)[x - 1]);
                } else {
                    assert(ws[0][j] == s[i + j]);
                }
            }
        }
    }
}

proof fn lemma_join_words_clean(ws: Seq<Seq<char>>)
    requires
        ws.len() > 0,
        forall|k: int| 0 <= k < ws.len() ==> (#[trigger] ws[k]).len() > 0,
        forall|k: int, j: int| 0 <= k < ws.len() && 0 <= j < ws[k].len() ==> !white_space(#[trigger] ws[k][j]),
    ensures
        clean_line(join_words(ws)),
    decreases ws.len(),
{
    let nl = '\n';
    assert(white_space(nl));
    if ws.len() == 1 {
        let w = ws[0];
        assert(join_words(ws) == w);
        assert(!white_space(w[0]));
        assert(!white_space(w[w.len() - 1]));
        assert forall|i: int| 0 <= i < w.len() implies w[i] != '\n' by {
            assert(!white_space(ws[0][i]));
        }
    } else {
        let init = ws.drop_last();
        assert forall|k: int| 0 <= k < init.len() implies (#[trigger] init[k]).len() > 0 by {
            assert(init[k] == ws[k]);
        }
        assert forall|k: int, j: int| 0 <= k < init.len() && 0 <= j < init[k].len() implies !white_space(
            #[trigger] init[k][j],
        ) by {
            assert(init[k] == ws[k]);
        }
        lemma_join_words_clean(init);
        let a = join_words(init);
        let w = ws.last();
        assert(w == ws[ws.len() - 1]);
        let j = a + seq![' '] + w;
        assert(join_words(ws) == j);
        assert(j[0] == a[0]);
        assert(j.last() == w.last());
        assert(!white_space(w[w.len() - 1]));
        assert forall|i: int| 0 <= i < j.len() implies j[i] != '\n' by {
            if i < a.len() {
                assert(j[i] == a[i]);
            } else if i == a.len() {
                assert(j[i] == ' ');
            } else {
                assert(j[i] == w[i - a.len() - 1]);
                assert(!white_space(ws[ws.len() - 1][i - a.len() - 1]));
            }
        }
    }
}

/// Whitespace collapsed, a non-empty text is a clean line.
pub proof fn lemma_collapse_clean(s: Seq<char>)
    requires
        collapse(s).len() > 0,
    ensures
        clean_line(collapse(s)),
{
    lemma_words_clean(s, 0);
    let ws = words_from(s, 0);
    if ws.len() == 0 {
        assert(join_words(ws) =~= Seq::<char>::empty());
    } else {
        lemma_join_words_clean(ws);
    }
}

proof fn lemma_blocks_are_joined_lists(paras: Seq<Seq<Seq<char>>>, ovr: Seq<Seq<char>>, m: Map<Seq<char>, Seq<char>>)
    ensures
        text_blocks(paras, ovr, m) == text_line_lists(paras, ovr, m).map_values(
            |ls: Seq<Seq<char>>| join_with(ls, seq!['\n']),
        ),
    decreases paras.len(),
{
    if paras.len() > 0 {
        lemma_blocks_are_joined_lists(paras.drop_last(), ovr, m);
        let ls = text_line_lists(paras.drop_last(), ovr, m);
        let l = paragraph_lines(paras.last(), ovr, m);
        if l.len() > 0 {
            assert(ls.push(l).map_values(|ls: Seq<Seq<char>>| join_with(ls, seq!['\n'])) =~= ls.map_values(
                |ls: Seq<Seq<char>>| join_with(ls, seq!['\n']),
            ).push(join_with(l, seq!['\n'])));
        }
    } else {
        assert(text_line_lists(paras, ovr, m).map_values(|ls: Seq<Seq<char>>| join_with(ls, seq!['\n']))
            =~= Seq::<Seq<char>>::empty());
    }
}

proof fn lemma_paragraph_lines_clean(sents: Seq<Seq<char>>, ovr: Seq<Seq<char>>, m: Map<Seq<char>, Seq<char>>)
    ensures
        forall|i: int|
            0 <= i < paragraph_lines(sents, ovr, m).len() ==> clean_line(#[trigger] paragraph_lines(sents, ovr, m)[i]),
    decreases sents.len(),
{
    if sents.len() > 0 {
        lemma_paragraph_lines_clean(sents.drop_last(), ovr, m);
        let ls = paragraph_lines(sents.drop_last(), ovr, m);
        let l = crate::pipeline::sentence_line(sents.last(), ovr, m);
        if l.len() > 0 {
            lemma_collapse_clean(
                crate::overrides::assemble_from(
                    sents.last(),
                    ovr,
                    crate::overrides::pieces_from(sents.last(), 0, 0).map_values(
                        |p: Seq<char>| crate::cache::answer(m, p),
                    ),
                    0,
                    0,
                    0,
                ),
            );
            assert forall|i: int| 0 <= i < ls.push(l).len() implies clean_line(#[trigger] ls.push(l)[i]) by {
                if i < ls.len() {
                    assert(ls.push(l)[i] == ls[i]);
                }
            }
        }
    }
}

proof fn lemma_lists_clean(paras: Seq<Seq<Seq<char>>>, ovr: Seq<Seq<char>>, m: Map<Seq<char>, Seq<char>>)
    ensures
        forall|k: int|
            0 <= k < text_line_lists(paras, ovr, m).len() ==> (#[trigger] text_line_lists(paras, ovr, m)[k]).len() > 0,
        forall|k: int, i: int|
            0 <= k < text_line_lists(paras, ovr, m).len() && 0 <= i < text_line_lists(paras, ovr, m)[k].len()
                ==> clean_line(#[trigger] text_line_lists(paras, ovr, m)[k][i]),
    decreases paras.len(),
{
    if paras.len() > 0 {
        lemma_lists_clean(paras.drop_last(), ovr, m);
        let ls = text_line_lists(paras.drop_last(), ovr, m);
        let l = paragraph_lines(paras.last(), ovr, m);
        lemma_paragraph_lines_clean(paras.last(), ovr, m);
        if l.len() > 0 {
            let r = ls.push(l);
            assert forall|k: int| 0 <= k < r.len() implies (#[trigger] r[k]).len() > 0 by {
                if k < ls.len() {
                    assert(r[k] == ls[k]);
                }
            }
            assert forall|k: int, i: int| 0 <= k < r.len() && 0 <= i < r[k].len() implies clean_line(
                #[trigger] r[k][i],
            ) by {
                if k < ls.len() {
                    assert(r[k] == ls[k]);
                } else {
                    assert(r[k] == l);
                }
            }
        }
    }
}

/// The IPA layout is read as it is written. In the IPA of a text, every sentence line is clean (not empty, no
/// whitespace at its ends, no line break inside); the paragraphs that synthesis finds in it are the paragraphs that
/// were written, one for each paragraph with a sentence line, and the lines it finds in each are exactly that
/// paragraph's sentence lines. A text without any sentence line gives empty IPA.
pub proof fn lemma_ipa_layout_round_trip(text: Seq<char>, no_normalize: bool, m: Map<Seq<char>, Seq<char>>)
    ensures
        ({
            let lists = text_line_lists(split_sentences_spec(prepared_text(text, no_normalize)), prepared_overrides(text), m);
            let ipa = text_ipa_spec(text, no_normalize, m);
            &&& lists.len() == 0 ==> ipa.len() == 0
            &&& forall|k: int, i: int|
                0 <= k < lists.len() && 0 <= i < lists[k].len() ==> clean_line(#[trigger] lists[k][i])
            &&& lists.len() > 0 ==> paragraphs_of(ipa, 0, 0).len() == lists.len()
            &&& lists.len() > 0 ==> forall|k: int|
                0 <= k < lists.len() ==> lines_of(#[trigger] paragraphs_of(ipa, 0, 0)[k], 0, 0) == lists[k]
        }),
{
    let paras = split_sentences_spec(prepared_text(text, no_normalize));
    let ovr = prepared_overrides(text);
    let lists = text_line_lists(paras, ovr, m);
    let ipa = text_ipa_spec(text, no_normalize, m);
    lemma_blocks_are_joined_lists(paras, ovr, m);
    lemma_lists_clean(paras, ovr, m);
    let blocks = text_blocks(paras, ovr, m);
    assert(ipa == join_with(blocks, seq!['\n', '\n']));
    if lists.len() > 0 {
        assert forall|k: int| 0 <= k < blocks.len() implies clean_block(#[trigger] blocks[k]) by {
            assert(blocks[k] == join_with(lists[k], seq!['\n']));
            assert forall|i: int| 0 <= i < lists[k].len() implies clean_line(#[trigger] lists[k][i]) by {}
            lemma_block_of_lines(lists[k]);
        }
        assert(ipa.skip(0) =~= ipa);
        lemma_paragraphs_of_join(ipa, 0, blocks);
        assert forall|k: int| 0 <= k < lists.len() implies lines_of(#[trigger] paragraphs_of(ipa, 0, 0)[k], 0, 0)
            == lists[k] by {
            let b = blocks[k];
            assert(paragraphs_of(ipa, 0, 0)[k] == b);
            assert(b == join_with(lists[k], seq!['\n']));
            assert forall|x: int, i: int| 0 <= x < lists[k].len() && 0 <= i < lists[k][x].len() implies #[trigger] lists[k][x][i]
                != '\n' by {
                assert(clean_line(lists[k][x]));
            }
            assert(b.skip(0) =~= b);
            lemma_lines_of_join(b, 0, lists[k]);
        }
    } else {
        assert(blocks.len() == 0);
    }
}

} // verus!
