//! Text -> IPA: manual phonemes, normalization, sentences, the phonemizer (through the cache), and the final
//! layout of one sentence per line with an empty line between paragraphs.

use vstd::prelude::*;

use crate::cache::{answer, stored, todo_of, PieceCache, MAX_CACHE_ENTRIES};
use crate::cancel::CancelToken;
use crate::chars::{from_chars, join_with, push_all, to_chars};
use crate::error::Error;
use crate::g2p::G2p;
use crate::normalize::{normalize_pl, normalize_spec};
use crate::overrides::{
    extract_from, extract_overrides, lemma_pieces_are_plain, pieces_from, plain_piece, sentence_ipa_spec,
    sentence_ipa_with, text_pieces, to_char_vecs,
};
use crate::text::{seqs, split_sentences, split_sentences_spec, strs};

verus! {

/// Options of `text_to_ipa`.
#[derive(Clone, Debug, Default)]
pub struct TextOptions {
    /// Switch off the supplementary normalization (zł, %, abbreviations…).
    pub no_normalize: bool,
}

/// The text that is cut into sentences: manual phonemes replaced by markers, then normalized unless that is
/// switched off.
pub open spec fn prepared_text(text: Seq<char>, no_normalize: bool) -> Seq<char> {
    let marked = extract_from(text, 0, Seq::empty()).0;
    if no_normalize {
        marked
    } else {
        normalize_spec(marked)
    }
}

/// The IPA of the manual phonemes of `text`, marker `i` standing for entry `i`.
pub open spec fn prepared_overrides(text: Seq<char>) -> Seq<Seq<char>> {
    extract_from(text, 0, Seq::empty()).1
}

/// Views of paragraphs of sentences.
pub open spec fn paras_view(ps: Seq<Vec<String>>) -> Seq<Seq<Seq<char>>> {
    ps.map_values(|p: Vec<String>| strs(p@))
}

/// The pieces to phonemize of the sentences, one sentence after another.
pub open spec fn sentence_pieces(sents: Seq<Seq<char>>) -> Seq<Seq<char>>
    decreases sents.len(),
{
    if sents.len() == 0 {
        Seq::empty()
    } else {
        sentence_pieces(sents.drop_last()) + pieces_from(sents.last(), 0, 0)
    }
}

/// The pieces to phonemize of all paragraphs, in order.
pub open spec fn all_pieces(paras: Seq<Seq<Seq<char>>>) -> Seq<Seq<char>>
    decreases paras.len(),
{
    if paras.len() == 0 {
        Seq::empty()
    } else {
        all_pieces(paras.drop_last()) + sentence_pieces(paras.last())
    }
}

/// The IPA line of one sentence, its pieces answered from `m`.
pub open spec fn sentence_line(s: Seq<char>, ovr: Seq<Seq<char>>, m: Map<Seq<char>, Seq<char>>) -> Seq<char> {
    sentence_ipa_spec(s, ovr, pieces_from(s, 0, 0).map_values(|p: Seq<char>| answer(m, p)))
}

/// The non-empty IPA lines of the sentences of a paragraph.
pub open spec fn paragraph_lines(sents: Seq<Seq<char>>, ovr: Seq<Seq<char>>, m: Map<Seq<char>, Seq<char>>) -> Seq<
    Seq<char>,
>
    decreases sents.len(),
{
    if sents.len() == 0 {
        Seq::empty()
    } else {
        let ls = paragraph_lines(sents.drop_last(), ovr, m);
        let l = sentence_line(sents.last(), ovr, m);
        if l.len() > 0 {
            ls.push(l)
        } else {
            ls
        }
    }
}

/// The paragraphs that have at least one line, each as its lines joined by a line break.
pub open spec fn text_blocks(paras: Seq<Seq<Seq<char>>>, ovr: Seq<Seq<char>>, m: Map<Seq<char>, Seq<char>>) -> Seq<
    Seq<char>,
>
    decreases paras.len(),
{
    if paras.len() == 0 {
        Seq::empty()
    } else {
        let bs = text_blocks(paras.drop_last(), ovr, m);
        let ls = paragraph_lines(paras.last(), ovr, m);
        if ls.len() > 0 {
            bs.push(join_with(ls, seq!['\n']))
        } else {
            bs
        }
    }
}

/// The IPA of a text: one sentence per line, an empty line between paragraphs, every piece answered from `m`.
pub open spec fn text_ipa_spec(text: Seq<char>, no_normalize: bool, m: Map<Seq<char>, Seq<char>>) -> Seq<char> {
    join_with(
        text_blocks(split_sentences_spec(prepared_text(text, no_normalize)), prepared_overrides(text), m),
        seq!['\n', '\n'],
    )
}

/// A text made ready for phonemization.
pub struct Prepared {
    /// The text that is cut into sentences (manual phonemes as markers, normalized unless switched off).
    pub text: String,
    /// IPA of the manual phonemes; marker `i` in the sentences stands for entry `i`.
    pub overrides: Vec<String>,
    /// Paragraphs, each a list of sentences.
    pub paragraphs: Vec<Vec<String>>,
    /// The pieces of text to phonemize, in order (a piece may occur more than once).
    pub pieces: Vec<String>,
}

fn sentence_pieces_exec(sents: &Vec<String>, out: &mut Vec<String>)
    ensures
        strs(final(out)@) == strs(old(out)@) + sentence_pieces(strs(sents@)),
{
    let ghost start = strs(out@);
    let mut i: usize = 0;
    while i < sents.len()
        invariant
            i <= sents.len(),
            strs(out@) == start + sentence_pieces(strs(sents@).take(i as int)),
        decreases sents.len() - i,
    {
        let ps = text_pieces(sents[i].as_str());
        let ghost before = strs(out@);
        let mut j: usize = 0;
        while j < ps.len()
            invariant
                j <= ps.len(),
                strs(out@) == before + strs(ps@).take(j as int),
            decreases ps.len() - j,
        {
            let ghost b0 = out@;
            out.push(ps[j].clone());
            assert(strs(out@) =~= strs(b0).push(ps@[j as int]@));
            assert(strs(ps@).take(j + 1) =~= strs(ps@).take(j as int).push(ps@[j as int]@));
            j += 1;
        }
        assert(strs(ps@).take(ps.len() as int) =~= strs(ps@));
        assert(strs(sents@).take(i + 1).drop_last() =~= strs(sents@).take(i as int));
        assert(strs(out@) =~= start + sentence_pieces(strs(sents@).take(i + 1)));
        i += 1;
    }
    assert(strs(sents@).take(sents.len() as int) =~= strs(sents@));
}

/// Manual phonemes taken out, the text normalized (unless `opts` switches that off), cut into paragraphs and
/// sentences, and the pieces to phonemize listed.
pub fn prepare_text(text: &str, opts: &TextOptions) -> (r: Prepared)
    ensures
        r.text@ == prepared_text(text@, opts.no_normalize),
        strs(r.overrides@) == prepared_overrides(text@),
        paras_view(r.paragraphs@) == split_sentences_spec(prepared_text(text@, opts.no_normalize)),
        strs(r.pieces@) == all_pieces(split_sentences_spec(prepared_text(text@, opts.no_normalize))),
{
    let (marked, overrides) = extract_overrides(text);
    let t = if opts.no_normalize {
        marked
    } else {
        normalize_pl(marked.as_str())
    };
    let paragraphs = split_sentences(t.as_str());
    let ghost ps = paras_view(paragraphs@);
    let mut pieces: Vec<String> = Vec::new();
    let mut i: usize = 0;
    while i < paragraphs.len()
        invariant
            i <= paragraphs.len(),
            ps == paras_view(paragraphs@),
            strs(pieces@) == all_pieces(ps.take(i as int)),
        decreases paragraphs.len() - i,
    {
        sentence_pieces_exec(&paragraphs[i], &mut pieces);
        assert(ps.take(i + 1).drop_last() =~= ps.take(i as int));
        assert(ps[i as int] == strs(paragraphs@[i as int]@));
        i += 1;
    }
    assert(ps.take(paragraphs.len() as int) =~= ps);
    Prepared { text: t, overrides, paragraphs, pieces }
}

/// The IPA line of one sentence, its pieces answered from the cache.
fn sentence_line_exec(s: &str, ovr: &Vec<Vec<char>>, cache: &PieceCache) -> (r: Vec<char>)
    ensures
        r@ == sentence_line(s@, seqs(ovr@), cache@),
{
    let ps = text_pieces(s);
    let ghost want = pieces_from(s@, 0, 0).map_values(|p: Seq<char>| answer(cache@, p));
    let mut outs: Vec<Vec<char>> = Vec::new();
    let mut k: usize = 0;
    while k < ps.len()
        invariant
            k <= ps.len(),
            strs(ps@) == pieces_from(s@, 0, 0),
            want == pieces_from(s@, 0, 0).map_values(|p: Seq<char>| answer(cache@, p)),
            seqs(outs@) =~= want.take(k as int),
        decreases ps.len() - k,
    {
        let a = cache.get(ps[k].as_str());
        let ac = to_chars(a.as_str());
        let ghost before = outs@;
        outs.push(ac);
        assert(strs(ps@)[k as int] == ps@[k as int]@);
        assert(seqs(outs@) =~= seqs(before).push(answer(cache@, ps@[k as int]@)));
        assert(want.take(k + 1) =~= want.take(k as int).push(want[k as int]));
        k += 1;
    }
    assert(want.take(ps.len() as int) =~= want);
    let sc = to_chars(s);
    sentence_ipa_with(&sc, ovr, &outs)
}

/// Lays out the IPA of a prepared text, every piece answered from the cache: one sentence per line (sentences
/// without IPA are left out), an empty line between paragraphs (paragraphs without lines are left out).
pub fn assemble_ipa(prepared: &Prepared, cache: &PieceCache) -> (r: String)
    ensures
        r@ == join_with(
            text_blocks(paras_view(prepared.paragraphs@), strs(prepared.overrides@), cache@),
            seq!['\n', '\n'],
        ),
{
    let ovr = to_char_vecs(&prepared.overrides);
    let ghost ov = strs(prepared.overrides@);
    let ghost paras = paras_view(prepared.paragraphs@);
    let mut out: Vec<char> = Vec::new();
    let mut blocks: usize = 0;
    let mut i: usize = 0;
    while i < prepared.paragraphs.len()
        invariant
            i <= prepared.paragraphs.len(),
            seqs(ovr@) == ov,
            ov == strs(prepared.overrides@),
            paras == paras_view(prepared.paragraphs@),
            blocks <= i,
            blocks == text_blocks(paras.take(i as int), ov, cache@).len(),
            out@ == join_with(text_blocks(paras.take(i as int), ov, cache@), seq!['\n', '\n']),
        decreases prepared.paragraphs.len() - i,
    {
        let sents = &prepared.paragraphs[i];
        let ghost ss = strs(sents@);
        assert(paras[i as int] == ss);
        let mut block: Vec<char> = Vec::new();
        let mut lines: usize = 0;
        let mut j: usize = 0;
        while j < sents.len()
            invariant
                j <= sents.len(),
                    seqs(ovr@) == ov,
                ss == strs(sents@),
                lines <= j,
                lines == paragraph_lines(ss.take(j as int), ov, cache@).len(),
                block@ == join_with(paragraph_lines(ss.take(j as int), ov, cache@), seq!['\n']),
            decreases sents.len() - j,
        {
            let l = sentence_line_exec(sents[j].as_str(), &ovr, cache);
            assert(ss.take(j + 1).drop_last() =~= ss.take(j as int));
            assert(ss.take(j + 1).last() == sents@[j as int]@);
            if l.len() > 0 {
                let ghost ls = paragraph_lines(ss.take(j as int), ov, cache@);
                if lines > 0 {
                    block.push('\n');
                }
                push_all(&mut block, &l);
                proof {
                    let ls2 = ls.push(l@);
                    assert(ls2.drop_last() =~= ls);
                    if ls.len() == 0 {
                        assert(block@ =~= l@);
                    } else {
                        assert(block@ =~= join_with(ls, seq!['\n']) + seq!['\n'] + l@);
                    }
                }
                lines = lines + 1;
            }
            j += 1;
        }
        assert(ss.take(sents.len() as int) =~= ss);
        assert(paras.take(i + 1).drop_last() =~= paras.take(i as int));
        assert(paras.take(i + 1).last() == ss);
        if lines > 0 {
            let ghost bs = text_blocks(paras.take(i as int), ov, cache@);
            if blocks > 0 {
                out.push('\n');
                out.push('\n');
            }
            push_all(&mut out, &block);
            proof {
                let bs2 = bs.push(block@);
                assert(bs2.drop_last() =~= bs);
                if bs.len() == 0 {
                    assert(out@ =~= block@);
                } else {
                    assert(out@ =~= join_with(bs, seq!['\n', '\n']) + seq!['\n', '\n'] + block@);
                }
            }
            blocks = blocks + 1;
        }
        i += 1;
    }
    assert(paras.take(prepared.paragraphs.len() as int) =~= paras);
    from_chars(&out)
}

/// The cache after a prefetch of `todo`: untouched when nothing was missing, otherwise the backend's answers stored.
pub open spec fn prefetched(
    before: Map<Seq<char>, Seq<char>>,
    todo: Seq<Seq<char>>,
    after: Map<Seq<char>, Seq<char>>,
) -> bool {
    if todo.len() == 0 {
        after == before
    } else {
        exists|raw: Seq<Seq<char>>| after == stored(before, todo, raw)
    }
}

/// The pieces of `text` that the backend is asked for, given the cache `m`.
pub open spec fn text_todo(text: Seq<char>, no_normalize: bool, m: Map<Seq<char>, Seq<char>>) -> Seq<Seq<char>> {
    todo_of(m, all_pieces(split_sentences_spec(prepared_text(text, no_normalize))))
}

/// The IPA of a prepared text once its pieces are answered from the cache `m`.
pub open spec fn prepared_ipa(prepared: &Prepared, m: Map<Seq<char>, Seq<char>>) -> Seq<char> {
    join_with(text_blocks(paras_view(prepared.paragraphs@), strs(prepared.overrides@), m), seq!['\n', '\n'])
}

/// The end of `text_to_ipa` once the backend has given `reply` for the pieces `todo` (`None`: nothing was asked). A
/// failure is returned as it is and leaves the cache untouched; otherwise the answers are cached, and the prepared
/// text is laid out with every piece answered from the cache.
pub fn ipa_reply(
    prepared: &Prepared,
    todo: &Vec<String>,
    reply: Option<Result<Vec<String>, Error>>,
    cache: &mut PieceCache,
) -> (r: Result<String, Error>)
    ensures
        match reply {
            None => {
                &&& final(cache)@ == old(cache)@
                &&& r matches Ok(s) && s@ == prepared_ipa(prepared, old(cache)@)
            },
            Some(Ok(raw)) => {
                &&& final(cache)@ == stored(old(cache)@, strs(todo@), strs(raw@))
                &&& r matches Ok(s) && s@ == prepared_ipa(prepared, final(cache)@)
            },
            Some(Err(e)) => {
                &&& final(cache)@ == old(cache)@
                &&& r == Err::<String, Error>(e)
            },
        },
{
    match reply {
        None => {},
        Some(Ok(raw)) => {
            cache.store(todo, &raw);
        },
        Some(Err(e)) => {
            return Err(e);
        },
    }
    let out = assemble_ipa(prepared, cache);
    Ok(out)
}

/// Text -> IPA: one sentence per line, an empty line between paragraphs; an empty text gives an empty string. The
/// pieces that have no cached answer yet (each once, in order: `text_todo`) go to `g2p.phonemize_many` in one
/// call, made only when there is such a piece, and `ipa_reply` does the rest: the answers are cached, and a failure
/// of that call is returned as it is and leaves the cache untouched. The IPA is not filtered by Kokoro's vocabulary
/// here (`synthesis_plan` does that).
pub fn text_to_ipa<G: G2p + ?Sized>(
    g2p: &G,
    cache: &mut PieceCache,
    cancel: &CancelToken,
    text: &str,
    opts: &TextOptions,
) -> (r: Result<String, Error>)
    ensures
        match r {
            Ok(s) => {
                &&& prefetched(old(cache)@, text_todo(text@, opts.no_normalize, old(cache)@), final(cache)@)
                &&& s@ == text_ipa_spec(text@, opts.no_normalize, final(cache)@)
            },
            Err(_) => {
                &&& text_todo(text@, opts.no_normalize, old(cache)@).len() > 0
                &&& final(cache)@ == old(cache)@
            },
        },
        text_todo(text@, opts.no_normalize, old(cache)@).len() == 0 ==> r is Ok,
{
    let prepared = prepare_text(text, opts);
    let todo = cache.missing(&prepared.pieces);
    let reply = if todo.len() > 0 {
        Some(g2p.phonemize_many(todo.as_slice(), cancel))
    } else {
        None
    };
    ipa_reply(&prepared, &todo, reply, cache)
}

/// The sentence spoken when no text is given.
pub const DEFAULT_TEXT: &'static str = "Cześć, to jest test polskiej syntezy mowy Kokoro.";

/// The text of command-line words: the words joined by single spaces, or `DEFAULT_TEXT` when there are none.
pub fn text_from_words(words: &Vec<String>) -> (r: String)
    ensures
        words.len() == 0 ==> r@ == DEFAULT_TEXT@,
        words.len() > 0 ==> r@ == join_with(strs(words@), seq![' ']),
{
    if words.len() == 0 {
        return DEFAULT_TEXT.to_string();
    }
    let ghost ws = strs(words@);
    let mut out: Vec<char> = Vec::new();
    let mut i: usize = 0;
    while i < words.len()
        invariant
            i <= words.len(),
            ws == strs(words@),
            out@ == join_with(ws.take(i as int), seq![' ']),
        decreases words.len() - i,
    {
        let w = to_chars(words[i].as_str());
        let ghost before = out@;
        if i > 0 {
            out.push(' ');
        }
        push_all(&mut out, &w);
        proof {
            assert(ws.take(i + 1).drop_last() =~= ws.take(i as int));
            assert(ws.take(i + 1).last() == words@[i as int]@);
            if i == 0 {
                assert(ws.take(1)[0] == words@[0]@);
                assert(out@ =~= w@);
            } else {
                assert(out@ =~= before + seq![' '] + w@);
            }
        }
        i += 1;
    }
    assert(ws.take(words.len() as int) =~= ws);
    from_chars(&out)
}

proof fn lemma_sentence_pieces_plain(sents: Seq<Seq<char>>)
    ensures
        forall|k: int| 0 <= k < sentence_pieces(sents).len() ==> plain_piece(#[trigger] sentence_pieces(sents)[k]),
    decreases sents.len(),
{
    if sents.len() > 0 {
        lemma_sentence_pieces_plain(sents.drop_last());
        lemma_pieces_are_plain(sents.last());
        let a = sentence_pieces(sents.drop_last());
        let b = pieces_from(sents.last(), 0, 0);
        assert forall|k: int| 0 <= k < (a + b).len() implies plain_piece(#[trigger] (a + b)[k]) by {
            if k < a.len() {
                assert((a + b)[k] == a[k]);
            } else {
                assert((a + b)[k] == b[k - a.len()]);
            }
        }
    }
}

proof fn lemma_all_pieces_plain(paras: Seq<Seq<Seq<char>>>)
    ensures
        forall|k: int| 0 <= k < all_pieces(paras).len() ==> plain_piece(#[trigger] all_pieces(paras)[k]),
    decreases paras.len(),
{
    if paras.len() > 0 {
        lemma_all_pieces_plain(paras.drop_last());
        lemma_sentence_pieces_plain(paras.last());
        let a = all_pieces(paras.drop_last());
        let b = sentence_pieces(paras.last());
        assert forall|k: int| 0 <= k < (a + b).len() implies plain_piece(#[trigger] (a + b)[k]) by {
            if k < a.len() {
                assert((a + b)[k] == a[k]);
            } else {
                assert((a + b)[k] == b[k - a.len()]);
            }
        }
    }
}

/// The phonemization backend gets plain text only: every piece it is asked for is not empty, has no whitespace at
/// its ends and holds no manual-phoneme marker (`[text](/ipa/)` is handled before).
pub proof fn lemma_backend_gets_plain_text(text: Seq<char>, no_normalize: bool, m: Map<Seq<char>, Seq<char>>)
    ensures
        forall|k: int|
            0 <= k < text_todo(text, no_normalize, m).len() ==> plain_piece(#[trigger] text_todo(text, no_normalize, m)[k]),
{
    let pieces = all_pieces(split_sentences_spec(prepared_text(text, no_normalize)));
    lemma_all_pieces_plain(split_sentences_spec(prepared_text(text, no_normalize)));
    crate::cache::lemma_todo_from_pieces(m, pieces);
    let t = text_todo(text, no_normalize, m);
    assert forall|k: int| 0 <= k < t.len() implies plain_piece(#[trigger] t[k]) by {
        assert(pieces.contains(t[k]));
        let j = choose|j: int| 0 <= j < pieces.len() && pieces[j] == t[k];
        assert(plain_piece(pieces[j]));
    }
}

/// A piece is phonemized once: after `text_to_ipa` has stored the backend's answers for a text (one for every piece
/// asked, without the cache starting over), the same text asks the backend for nothing.
pub proof fn lemma_text_asked_once(
    text: Seq<char>,
    no_normalize: bool,
    m: Map<Seq<char>, Seq<char>>,
    raw: Seq<Seq<char>>,
)
    requires
        m.dom().finite(),
        raw.len() >= text_todo(text, no_normalize, m).len(),
        m.len() + text_todo(text, no_normalize, m).len() <= MAX_CACHE_ENTRIES,
    ensures
        text_todo(text, no_normalize, stored(m, text_todo(text, no_normalize, m), raw)).len() == 0,
{
    crate::cache::lemma_asked_once(m, all_pieces(split_sentences_spec(prepared_text(text, no_normalize))), raw);
}

/// Across calls a piece goes to the backend once in total: after `text_to_ipa` has stored the backend's answers for
/// one text (one for every piece asked, without the cache starting over), a later call on any text asks for none of
/// the pieces that were asked before.
pub proof fn lemma_asked_once_in_total(
    first: Seq<char>,
    first_no_normalize: bool,
    next: Seq<char>,
    next_no_normalize: bool,
    m: Map<Seq<char>, Seq<char>>,
    raw: Seq<Seq<char>>,
)
    requires
        raw.len() >= text_todo(first, first_no_normalize, m).len(),
        m.len() + text_todo(first, first_no_normalize, m).len() <= MAX_CACHE_ENTRIES,
    ensures
        forall|k: int|
            0 <= k < text_todo(next, next_no_normalize, stored(m, text_todo(first, first_no_normalize, m), raw)).len()
                ==> !text_todo(first, first_no_normalize, m).contains(
                #[trigger] text_todo(next, next_no_normalize, stored(m, text_todo(first, first_no_normalize, m), raw))[k],
            ),
{
    let asked = text_todo(first, first_no_normalize, m);
    let after = stored(m, asked, raw);
    let later = text_todo(next, next_no_normalize, after);
    crate::cache::lemma_stored_has_todo(m, asked, raw);
    crate::cache::lemma_todo_props(after, all_pieces(split_sentences_spec(prepared_text(next, next_no_normalize))));
    assert forall|k: int| 0 <= k < later.len() implies !asked.contains(#[trigger] later[k]) by {
        if asked.contains(later[k]) {
            let j = choose|j: int| 0 <= j < asked.len() && asked[j] == later[k];
            assert(after.dom().contains(asked[j]));
        }
    }
}

} // verus!
