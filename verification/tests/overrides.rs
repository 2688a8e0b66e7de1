use plkokoro::overrides::show_overrides;
use plkokoro::{extract_overrides, sentence_ipa, text_pieces};

const M0: &str = "\u{E000}\u{E100}\u{E001}";
const M1: &str = "\u{E000}\u{E101}\u{E001}";

#[test]
fn manual_phonemes_become_markers() {
    let (t, o) = extract_overrides("Lubię [Kokoro](/kɔkˈɔrɔ/).");
    assert_eq!(t, format!("Lubię {M0}."));
    assert_eq!(o, vec!["kɔkˈɔrɔ".to_string()]);
}

#[test]
fn several_overrides_are_numbered_and_collapsed() {
    let (t, o) = extract_overrides("[a](/ x   y /) i [b](/z/)");
    assert_eq!(t, format!("{M0} i {M1}"));
    assert_eq!(o, vec!["x y".to_string(), "z".to_string()]);
}

#[test]
fn empty_ipa_leaves_plain_text() {
    let (t, o) = extract_overrides("[Kokoro](//) i [Ala]( / /)");
    assert_eq!(t, "Kokoro i [Ala]( / /)");
    assert!(o.is_empty());
    let (t, o) = extract_overrides("[Ala](/  /)");
    assert_eq!(t, "Ala");
    assert!(o.is_empty());
}

#[test]
fn unpaired_brackets_are_kept() {
    let (t, o) = extract_overrides("[inne] i (/x/) oraz [a\nb](/c/)");
    assert_eq!(t, "[inne] i (/x/) oraz [a\nb](/c/)");
    assert!(o.is_empty());
}

#[test]
fn pieces_are_the_text_between_markers() {
    assert_eq!(
        text_pieces(&format!("Lubię {M0} bardzo. {M1}")),
        vec!["Lubię".to_string(), "bardzo.".to_string()]
    );
    assert!(text_pieces(&format!(" {M0} ")).is_empty());
}

#[test]
fn sentence_keeps_one_space_where_text_meets_an_override() {
    let ovr = vec!["x".to_string()];
    let r = sentence_ipa(&format!("Grę {M0} lubię"), &ovr, |t: &str| t.to_lowercase());
    assert_eq!(r, "grę x lubię");
    let r = sentence_ipa(&format!("Grę{M0}lubię"), &ovr, |t: &str| t.to_lowercase());
    assert_eq!(r, "gręxlubię");
}

#[test]
fn unknown_marker_gives_nothing() {
    let r = sentence_ipa(&format!("a {M1} b"), &vec!["x".to_string()], |t: &str| t.to_uppercase());
    assert_eq!(r, "A B");
}

#[test]
fn overrides_beyond_the_marker_block_stay_text() {
    let text = "[a](/x/)".repeat(6144);
    let (t, o) = extract_overrides(&text);
    assert_eq!(o.len(), 6143);
    assert!(t.ends_with("\u{E001}a"));
    assert_eq!(t.chars().filter(|&c| c == '\u{E000}').count(), 6143);
}

#[test]
fn markers_are_shown_with_their_ipa_in_logs() {
    let ovr = vec!["kk".to_string()];
    assert_eq!(show_overrides(&format!("Lubię {M0} i {M1}."), &ovr), "Lubię {/kk/} i .");
    assert_eq!(show_overrides("bez znaczników", &ovr), "bez znaczników");
}

#[test]
fn phonemizer_gets_each_piece_once_in_order_and_the_result_is_collapsed() {
    let calls = std::cell::RefCell::new(Vec::new());
    let ovr = vec!["x  y".to_string()];
    let r = sentence_ipa(&format!("Grę  {M0}  lubię {M0} bo"), &ovr, |t: &str| {
        calls.borrow_mut().push(t.to_string());
        format!(" {} ", t.to_lowercase())
    });
    assert_eq!(*calls.borrow(), vec!["Grę".to_string(), "lubię".to_string(), "bo".to_string()]);
    assert_eq!(r, "grę x y lubię x y bo");
    assert_eq!(r.split_whitespace().collect::<Vec<_>>().join(" "), r);
}
