use plkokoro::normalize_pl;

#[test]
fn currency_and_percent() {
    assert_eq!(normalize_pl("Mam 123 zł, 5% rabatu."), "Mam 123 złote, 5 procent rabatu.");
}

#[test]
fn zloty_forms() {
    assert_eq!(normalize_pl("1 zł"), "1 złoty");
    assert_eq!(normalize_pl("001 zł"), "001 złoty");
    assert_eq!(normalize_pl("2 zł"), "2 złote");
    assert_eq!(normalize_pl("12 zł"), "12 złotych");
    assert_eq!(normalize_pl("22 PLN"), "22 złote");
    assert_eq!(normalize_pl("113 zł"), "113 złotych");
    assert_eq!(normalize_pl("25zł"), "25 złotych");
    assert_eq!(normalize_pl("3,5 zł"), "3,5 złotych");
}

#[test]
fn grouped_amount_loses_its_separator() {
    assert_eq!(normalize_pl("Kosztuje 1 000 zł."), "Kosztuje 1000 złotych.");
    assert_eq!(normalize_pl("1\u{a0}234 zł"), "1234 złote");
}

#[test]
fn zloty_inside_a_word_is_left() {
    assert_eq!(normalize_pl("5 złotówek"), "5 złotówek");
}

#[test]
fn clock_times() {
    assert_eq!(normalize_pl("o 12:30"), "o 12 30");
    assert_eq!(normalize_pl("o 18:00"), "o 18");
    assert_eq!(normalize_pl("o godz. 7:05"), "o 7 5");
    assert_eq!(normalize_pl("1:2:3"), "1:2:3");
}

#[test]
fn approximately_only_before_a_number() {
    assert_eq!(normalize_pl("ok. 5 minut"), "około 5 minut");
    assert_eq!(normalize_pl("Jest ok."), "Jest ok.");
    assert_eq!(normalize_pl("blok. 5"), "blok. 5");
}

#[test]
fn abbreviations_expand_before_whitespace_or_end() {
    assert_eq!(normalize_pl("np. kot"), "na przykład kot");
    assert_eq!(normalize_pl("psy, koty itd."), "psy, koty i tak dalej");
    assert_eq!(normalize_pl("tel. 123"), "telefon 123");
    assert_eq!(normalize_pl("np.kot"), "np.kot");
}

#[test]
fn ampersand_quotes_dashes_and_spaces() {
    assert_eq!(normalize_pl("A & B"), "A i B");
    assert_eq!(normalize_pl("„cytat” i «inny»"), "\"cytat\" i \"inny\"");
    assert_eq!(normalize_pl("to – tamto ’x‘"), "to — tamto 'x'");
    assert_eq!(normalize_pl("  a\t\tb  "), "a b");
}

#[test]
fn percent_with_fraction() {
    assert_eq!(normalize_pl("2,5 %"), "2,5 procent");
}

#[test]
fn empty_text_stays_empty() {
    assert_eq!(normalize_pl(""), "");
}

#[test]
fn rejected_match_does_not_hide_a_later_one() {
    assert_eq!(normalize_pl("tzn.1 000%"), "tzn.1 000 procent");
}

#[test]
fn amount_after_a_decimal_point_is_not_currency() {
    assert_eq!(normalize_pl("1.1.5 zł"), "1.1.5 zł");
    assert_eq!(normalize_pl("v1.5 zł"), "v1.5 złotych");
    assert_eq!(normalize_pl("x 1,5zł"), "x 1,5 złotych");
}

#[test]
fn unicode_letters_and_digits_count_in_the_context_tests() {
    assert_eq!(normalize_pl("żok. 5"), "żok. 5");
    assert_eq!(normalize_pl("\u{663}5%"), "\u{663}5%");
    assert_eq!(normalize_pl("x5%"), "x5 procent");
}
