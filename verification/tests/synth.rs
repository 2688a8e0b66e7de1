use std::collections::HashMap;

use plkokoro::synth::{filter_ipa, unknown_chars};
use plkokoro::{synthesis_plan, try_synthesis_plan, Chunk, Error, Pause, SAMPLE_RATE, STYLE_ROWS};

const CHARS: &str = "abcdefghijklmnopqrstuvwxyzɛ ,.!?";

fn vocab() -> HashMap<u32, i64> {
    CHARS.chars().enumerate().map(|(i, c)| (c as u32, i as i64 + 1)).collect()
}

/// Samples of silence for a pause of `m` milliseconds.
fn ms(m: u64) -> usize {
    (SAMPLE_RATE as u64 * m / 1000) as usize
}

/// Length of the audio a fake engine gives (100 samples per token), pauses after every chunk but the last.
fn wav_len(chunks: &[Chunk], clause: u64, sentence: u64, paragraph: u64) -> usize {
    let mut n = 0;
    for (i, c) in chunks.iter().enumerate() {
        n += c.ids.len() * 100;
        if i + 1 < chunks.len() {
            n += ms(match c.pause {
                Pause::Clause => clause,
                Pause::Sentence => sentence,
                Pause::Paragraph => paragraph,
            });
        }
    }
    n
}

#[test]
fn long_line_is_split_and_clause_pauses_inserted() {
    let line = "abc, ".repeat(100);
    let chunks = synthesis_plan(&line, &vocab(), 40).unwrap();
    assert!(chunks.len() > 5, "za mało porcji: {}", chunks.len());
    assert!(chunks.iter().all(|c| c.ids.len() - 2 <= 40), "porcja dłuższa niż limit");
    let samples: usize = chunks.iter().map(|c| c.ids.len() * 100).sum();
    assert_eq!(wav_len(&chunks, 80, 200, 450), samples + (chunks.len() - 1) * ms(80));
}

#[test]
fn style_row_is_length_minus_one_and_unicode_counts_chars() {
    let chunks = synthesis_plan("ɛɛɛ", &vocab(), 300).unwrap();
    assert_eq!(chunks[0].ids, vec![0, 27, 27, 27, 0], "BOS + 3 id + EOS");
    assert_eq!(chunks[0].style_row, 2, "wiersz stylu = liczba znaków - 1");
}

#[test]
fn unknown_chars_are_dropped_and_empty_result_is_an_error() {
    let chunks = synthesis_plan("a§b", &vocab(), 300).unwrap();
    assert_eq!(chunks[0].ids, vec![0, 1, 2, 0]);
    assert!(matches!(synthesis_plan("§§§", &vocab(), 300), Err(Error::NoPhonemes)));
    assert!(matches!(synthesis_plan("  \n\n ", &vocab(), 300), Err(Error::NoPhonemes)));
}

#[test]
fn pauses_follow_line_and_paragraph_structure() {
    let chunks = synthesis_plan("aa\nbb\n\ncc", &vocab(), 300).unwrap();
    assert_eq!(chunks.len(), 3);
    assert_eq!(wav_len(&chunks, 80, 200, 450), 3 * 4 * 100 + ms(200) + ms(450));
    let pauses: Vec<Pause> = chunks.iter().map(|c| c.pause).collect();
    assert_eq!(pauses, vec![Pause::Sentence, Pause::Paragraph, Pause::Paragraph]);
}

#[test]
fn options_are_validated_and_limits_clamped() {
    let chunks = synthesis_plan("abc", &vocab(), 0).unwrap();
    assert_eq!(chunks.len(), 3, "limit 0 traktowany jak 1: trzy porcje po znaku");
    let chunks = synthesis_plan(&"a".repeat(600), &vocab(), 99_999).unwrap();
    let lens: Vec<usize> = chunks.iter().map(|c| c.ids.len() - 2).collect();
    assert!(lens.iter().all(|&l| l <= STYLE_ROWS) && lens.len() >= 2, "{lens:?}");
    assert_eq!(lens, vec![510, 90]);
}

#[test]
fn blank_line_with_spaces_separates_paragraphs() {
    let chunks = synthesis_plan("aa\n \t\nbb\ncc", &vocab(), 300).unwrap();
    let pauses: Vec<Pause> = chunks.iter().map(|c| c.pause).collect();
    assert_eq!(pauses, vec![Pause::Paragraph, Pause::Sentence, Pause::Paragraph]);
}

#[test]
fn empty_lines_inside_a_paragraph_are_skipped() {
    let chunks = synthesis_plan("aa\n§§\nbb", &vocab(), 300).unwrap();
    let pauses: Vec<Pause> = chunks.iter().map(|c| c.pause).collect();
    assert_eq!(pauses, vec![Pause::Sentence, Pause::Paragraph]);
}

#[test]
fn filter_collapses_whitespace_around_dropped_characters() {
    assert_eq!(filter_ipa("  a § b\t\tc ", &vocab()), "a b c");
    assert_eq!(filter_ipa("a§§b", &vocab()), "ab");
    assert_eq!(filter_ipa("§", &vocab()), "");
}

#[test]
fn unknown_characters_are_listed_once() {
    assert_eq!(unknown_chars("a§b§ ĸ", &vocab()), vec!['§', 'ĸ']);
    assert!(unknown_chars("abc", &vocab()).is_empty());
}

#[test]
fn unknown_characters_are_looked_for_line_by_line() {
    let no_space: HashMap<u32, i64> = "abcd".chars().enumerate().map(|(i, c)| (c as u32, i as i64 + 1)).collect();
    assert!(unknown_chars("ab\ncd\n\n  dc  ", &no_space).is_empty());
    assert_eq!(unknown_chars("ab\na b", &no_space), vec![' ']);
    assert_eq!(unknown_chars("xa\n\nyx", &no_space), vec!['x', 'y']);
}

#[test]
fn nothing_to_say_is_no_phonemes() {
    let v: HashMap<u32, i64> = "abcdefghijklmnopqrstuvwxyzʒ ,.!?:;—…\"'"
        .chars()
        .enumerate()
        .map(|(i, c)| (c as u32, i as i64 + 1))
        .collect();
    for input in ["", "   ", "\n\n", "@@@", "%%%"] {
        assert!(matches!(synthesis_plan(input, &v, 300), Err(Error::NoPhonemes)), "wejście {input:?}");
    }
}

#[test]
fn two_sentences_of_one_paragraph_have_one_sentence_pause() {
    let chunks = synthesis_plan("ala ma kota.\nkot ma ale.", &vocab(), 300).unwrap();
    let pauses: Vec<Pause> = chunks.iter().map(|c| c.pause).collect();
    assert_eq!(pauses, vec![Pause::Sentence, Pause::Paragraph]);
    let samples: usize = chunks.iter().map(|c| c.ids.len() * 100).sum();
    assert_eq!(wav_len(&chunks, 80, 200, 450) - samples, ms(200));
}

#[test]
fn a_vocabulary_without_the_space_cannot_encode_joined_pieces() {
    let v: HashMap<u32, i64> = "abcdefgh,".chars().enumerate().map(|(i, c)| (c as u32, i as i64 + 1)).collect();
    assert!(try_synthesis_plan("a,b,cdefgh", &v, 5).is_none());
    let chunks = try_synthesis_plan("ab", &v, 5).unwrap().unwrap();
    assert_eq!(chunks[0].ids, vec![0, 1, 2, 0]);
    assert!(matches!(try_synthesis_plan("§", &v, 5), Some(Err(Error::NoPhonemes))));
}
