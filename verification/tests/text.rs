use plkokoro::{pack_ipa, split_sentences};

fn strs(v: &[&str]) -> Vec<String> {
    v.iter().map(|s| s.to_string()).collect()
}

#[test]
fn sentences_are_cut_before_capital_letters() {
    assert_eq!(split_sentences("Ala ma kota. Kot ma Ale."), vec![strs(&["Ala ma kota.", "Kot ma Ale."])]);
}

#[test]
fn abbreviation_before_lower_case_word_does_not_cut() {
    assert_eq!(split_sentences("Czwarte, np. kot."), vec![strs(&["Czwarte, np. kot."])]);
}

#[test]
fn lines_are_paragraphs_and_empty_lines_are_dropped() {
    assert_eq!(
        split_sentences("Pierwszy.\n\n  Drugi akapit. Trzeci!  \n"),
        vec![strs(&["Pierwszy."]), strs(&["Drugi akapit.", "Trzeci!"])]
    );
}

#[test]
fn closing_and_opening_quotes_around_a_break() {
    assert_eq!(
        split_sentences("Powiedział: „Tak!” Potem wyszedł. (Na zawsze.)"),
        vec![strs(&["Powiedział: „Tak!”", "Potem wyszedł.", "(Na zawsze.)"])]
    );
}

#[test]
fn polish_capitals_open_a_sentence() {
    assert_eq!(split_sentences("Koniec. Łódź jest duża."), vec![strs(&["Koniec.", "Łódź jest duża."])]);
}

#[test]
fn manual_phoneme_marker_opens_a_sentence() {
    let t = "Koniec. \u{E000}\u{E100}\u{E001} dalej.";
    assert_eq!(split_sentences(t), vec![strs(&["Koniec.", "\u{E000}\u{E100}\u{E001} dalej."])]);
}

#[test]
fn empty_text_has_no_paragraphs() {
    assert!(split_sentences("").is_empty());
    assert!(split_sentences(" \n\t\n").is_empty());
}

#[test]
fn short_ipa_is_one_chunk_trimmed() {
    assert_eq!(pack_ipa("  abc  ", 10), strs(&["abc"]));
    assert!(pack_ipa("   ", 5).is_empty());
    assert!(pack_ipa(" \t ", 0).is_empty());
}

#[test]
fn ipa_is_cut_after_punctuation_and_merged_back() {
    assert_eq!(pack_ipa("ab, cd, ef", 6), strs(&["ab,", "cd, ef"]));
}

#[test]
fn ipa_is_cut_at_spaces_then_anywhere() {
    assert_eq!(pack_ipa("aaa bbb ccc", 7), strs(&["aaa bbb", "ccc"]));
    assert_eq!(pack_ipa("abcdefgh", 3), strs(&["abc", "def", "gh"]));
}

#[test]
fn every_chunk_fits_the_limit() {
    let line = "abc, ".repeat(100);
    let chunks = pack_ipa(&line, 40);
    assert!(chunks.len() > 5);
    assert!(chunks.iter().all(|c| !c.is_empty() && c.chars().count() <= 40));
}

#[test]
fn limit_counts_characters_not_bytes() {
    let chunks = pack_ipa("ɛɛɛɛ", 2);
    assert_eq!(chunks, strs(&["ɛɛ", "ɛɛ"]));
}

#[test]
fn packing_adds_only_spaces() {
    let line = "a,b,cdefgh";
    for limit in 1..12 {
        for c in pack_ipa(line, limit) {
            assert!(c.chars().all(|ch| ch == ' ' || line.contains(ch)), "{c:?}");
        }
    }
    assert_eq!(pack_ipa(line, 5), strs(&["a, b,", "cdefg", "h"]));
}
