use std::sync::Mutex;

use plkokoro::pipeline::{ipa_reply, prepare_text};
use plkokoro::{synthesis_plan, text_to_ipa, CancelToken, Error, G2p, Pause, PieceCache, TextOptions, MAX_CACHE_ENTRIES};

struct Lower {
    seen: Mutex<Vec<String>>,
}

impl Lower {
    fn new() -> Lower {
        Lower { seen: Mutex::new(Vec::new()) }
    }
}

impl G2p for Lower {
    fn phonemize(&self, text: &str, _: &CancelToken) -> Result<String, Error> {
        self.seen.lock().unwrap().push(text.to_string());
        Ok(text.to_lowercase())
    }
}

struct Failing;

impl G2p for Failing {
    fn phonemize(&self, _: &str, _: &CancelToken) -> Result<String, Error> {
        Err(Error::Runner("BOOM".to_string()))
    }
}

fn ipa(g: &dyn G2p, cache: &mut PieceCache, text: &str, no_normalize: bool) -> Result<String, Error> {
    text_to_ipa(g, cache, &CancelToken::new(), text, &TextOptions { no_normalize })
}

#[test]
fn model_without_kokoro_only_phonemizes() {
    let g = Lower::new();
    let mut cache = PieceCache::new();
    assert_eq!(ipa(&g, &mut cache, "Ala ma kota. Kot ma Ale.", false).unwrap(), "ala ma kota.\nkot ma ale.");
}

#[test]
fn custom_g2p_and_cache() {
    let g = Lower::new();
    let mut cache = PieceCache::new();
    for _ in 0..3 {
        ipa(&g, &mut cache, "Lubie [Kokoro](/kk/) bardzo. Ala ma kota.", false).unwrap();
    }
    let seen = g.seen.lock().unwrap().clone();
    assert_eq!(seen.len(), 3, "g2p wołany {} razy ({seen:?}), oczekiwano 3 (cache)", seen.len());
    assert!(seen.iter().all(|s| !s.contains("Kokoro")), "ręczne słowo trafiło do g2p: {seen:?}");
    assert!(seen.iter().all(|s| !s.contains('\u{E000}') && s.trim() == s && !s.is_empty()), "{seen:?}");
}

#[test]
fn manual_ipa_goes_through_verbatim() {
    let g = Lower::new();
    let mut cache = PieceCache::new();
    assert_eq!(
        ipa(&g, &mut cache, "Lubie [Kokoro](/kokoʒ§/) bardzo.", false).unwrap(),
        "lubie kokoʒ§ bardzo."
    );
}

#[test]
fn paragraphs_are_separated_by_an_empty_line() {
    let g = Lower::new();
    let mut cache = PieceCache::new();
    assert_eq!(
        ipa(&g, &mut cache, "Ala ma kota. Kot ma ale!\n\nNowy akapit.", false).unwrap(),
        "ala ma kota.\nkot ma ale!\n\nnowy akapit."
    );
}

#[test]
fn empty_input_gives_empty_ipa_without_calling_the_backend() {
    let mut cache = PieceCache::new();
    assert_eq!(ipa(&Failing, &mut cache, "", false).unwrap(), "");
    assert_eq!(ipa(&Failing, &mut cache, "  \n ", false).unwrap(), "");
}

#[test]
fn normalization_can_be_switched_off() {
    let g = Lower::new();
    let mut cache = PieceCache::new();
    assert_eq!(ipa(&g, &mut cache, "Mam 5 zł.", false).unwrap(), "mam 5 złotych.");
    assert_eq!(ipa(&g, &mut cache, "Mam 5 zł.", true).unwrap(), "mam 5 zł.");
}

#[test]
fn backend_error_is_returned_and_cache_is_untouched() {
    let mut cache = PieceCache::new();
    match ipa(&Failing, &mut cache, "Ala ma kota.", false) {
        Err(Error::Runner(m)) => assert_eq!(m, "BOOM"),
        other => panic!("{other:?}"),
    }
    assert_eq!(cache.len(), 0);
}

#[test]
fn prepared_text_lists_pieces_in_order() {
    let p = prepare_text("Lubie [Kokoro](/kk/) bardzo. Ala ma kota.\n\nOk.", &TextOptions::default());
    assert_eq!(p.overrides, vec!["kk".to_string()]);
    assert_eq!(p.paragraphs.len(), 2);
    assert_eq!(p.pieces, vec!["Lubie", "bardzo.", "Ala ma kota.", "Ok."]);
}

#[test]
fn cache_reads_back_what_was_stored() {
    let mut cache = PieceCache::new();
    let todo = vec!["a".to_string(), "b".to_string()];
    let raw = vec!["x".to_string(), "y".to_string()];
    cache.store(&todo, &raw);
    assert_eq!(cache.get("a"), "x");
    assert_eq!(cache.get("b"), "y");
    assert_eq!(cache.get("c"), "");
    assert_eq!(cache.len(), 2);
}

#[test]
fn missing_pieces_are_unknown_ones_each_once() {
    let mut cache = PieceCache::new();
    cache.insert("a".chars().collect(), "x".chars().collect());
    let pieces: Vec<String> = ["b", "a", "c", "b"].iter().map(|s| s.to_string()).collect();
    assert_eq!(cache.missing(&pieces), vec!["b".to_string(), "c".to_string()]);
}

#[test]
fn shorter_answer_list_pairs_as_far_as_it_goes() {
    let mut cache = PieceCache::new();
    cache.store(&vec!["a".to_string(), "b".to_string()], &vec!["x".to_string()]);
    assert_eq!(cache.get("a"), "x");
    assert_eq!(cache.get("b"), "");
}

#[test]
fn insert_replaces_an_earlier_answer() {
    let mut cache = PieceCache::new();
    cache.insert("a".chars().collect(), "x".chars().collect());
    cache.insert("a".chars().collect(), "z".chars().collect());
    assert_eq!(cache.get("a"), "z");
    assert_eq!(cache.len(), 1);
}

#[test]
fn cache_starts_over_past_its_limit() {
    let mut cache = PieceCache::new();
    cache.store(&vec!["old".to_string()], &vec!["o".to_string()]);
    let todo: Vec<String> = (0..MAX_CACHE_ENTRIES).map(|i| format!("p{i}")).collect();
    let raw: Vec<String> = (0..MAX_CACHE_ENTRIES).map(|i| format!("r{i}")).collect();
    cache.store(&todo, &raw);
    assert_eq!(cache.get("old"), "");
    assert_eq!(cache.get("p7"), "r7");
    assert_eq!(cache.len(), MAX_CACHE_ENTRIES);
}

#[test]
fn ipa_layout_is_read_back_by_synthesis() {
    let g = Lower::new();
    let mut cache = PieceCache::new();
    let ipa = ipa(&g, &mut cache, "Ala ma kota. Kot ma ale!\n\nNowy akapit.", false).unwrap();
    let vocab: std::collections::HashMap<u32, i64> =
        "abcdefghijklmnopqrstuvwxyzłó ,.!?".chars().enumerate().map(|(i, c)| (c as u32, i as i64 + 1)).collect();
    let pauses: Vec<Pause> = synthesis_plan(&ipa, &vocab, 300).unwrap().iter().map(|c| c.pause).collect();
    assert_eq!(pauses, vec![Pause::Sentence, Pause::Paragraph, Pause::Paragraph]);
}

#[test]
fn backend_reply_is_cached_or_returned_as_it_is() {
    let p = prepare_text("Ala ma kota. Kot.", &TextOptions::default());
    let mut cache = PieceCache::new();
    let todo = cache.missing(&p.pieces);
    assert_eq!(todo, vec!["Ala ma kota.".to_string(), "Kot.".to_string()]);
    match ipa_reply(&p, &todo, Some(Err(Error::Runner("zepsuty".to_string()))), &mut cache) {
        Err(Error::Runner(m)) => assert_eq!(m, "zepsuty"),
        other => panic!("{other:?}"),
    }
    assert_eq!(cache.len(), 0);
    let raw = vec!["ala".to_string(), "kot".to_string()];
    assert_eq!(ipa_reply(&p, &todo, Some(Ok(raw)), &mut cache).unwrap(), "ala\nkot");
    assert!(cache.missing(&p.pieces).is_empty());
    assert_eq!(ipa_reply(&p, &Vec::new(), None, &mut cache).unwrap(), "ala\nkot");
    assert_eq!(cache.len(), 2);
}

#[test]
fn a_piece_goes_to_the_backend_once_across_texts() {
    let g = Lower::new();
    let mut cache = PieceCache::new();
    ipa(&g, &mut cache, "Ala ma kota. Kot.", false).unwrap();
    assert_eq!(ipa(&g, &mut cache, "Kot. Pies. Ala ma kota.", false).unwrap(), "kot.\npies.\nala ma kota.");
    let seen = g.seen.lock().unwrap().clone();
    assert_eq!(seen, vec!["Ala ma kota.".to_string(), "Kot.".to_string(), "Pies.".to_string()]);
}
