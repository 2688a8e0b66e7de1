use plkokoro::g2p::{is_lfs_pointer, runner_input, runner_reply, wait_step, worker_count, Wait, MAX_WAIT_NS};
use plkokoro::Error;

#[test]
fn runner_input_replaces_nul_and_trims() {
    assert_eq!(runner_input("  \0 "), "");
    assert_eq!(runner_input(" Cześć\0ŚWIAT\n"), "Cześć ŚWIAT");
}

#[test]
fn output_line_is_found_and_trimmed() {
    let out = "Loading model...\r\nOutput:  ala ma kota \r\nOutput: drugi\n";
    assert_eq!(runner_reply(true, Some(0), out, "").unwrap(), "ala ma kota");
}

#[test]
fn colour_sequences_are_removed() {
    let out = "\x1b[32mOutput: kot\x1b[0m\n";
    assert_eq!(runner_reply(true, Some(0), out, "").unwrap(), "kot");
}

#[test]
fn failed_run_names_code_and_message() {
    match runner_reply(false, Some(1), "", "BOOM zepsuty model\n") {
        Err(Error::Runner(m)) => assert_eq!(m, "phonemis_runner zakończył się kodem 1: BOOM zepsuty model"),
        other => panic!("{other:?}"),
    }
    match runner_reply(false, Some(-3), "tylko stdout", "  ") {
        Err(Error::Runner(m)) => assert_eq!(m, "phonemis_runner zakończył się kodem -3: tylko stdout"),
        other => panic!("{other:?}"),
    }
    match runner_reply(false, None, "", "zabity") {
        Err(Error::Runner(m)) => assert_eq!(m, "phonemis_runner przerwany sygnałem: zabity"),
        other => panic!("{other:?}"),
    }
}

#[test]
fn missing_output_line_is_an_error() {
    match runner_reply(true, Some(0), "abc", "") {
        Err(Error::Runner(m)) => assert_eq!(m, "nie znaleziono linii 'Output:' w wyjściu runnera: \"abc\""),
        other => panic!("{other:?}"),
    }
    match runner_reply(true, Some(0), "\x1b[31mabc\x1b[0m\n", "") {
        Err(Error::Runner(m)) => assert_eq!(m, "nie znaleziono linii 'Output:' w wyjściu runnera: \"abc\\n\""),
        other => panic!("{other:?}"),
    }
}

#[test]
fn waiting_for_a_runner() {
    assert!(matches!(wait_step(true, true, 0, 60, 1_000_000), Wait::Finished));
    assert!(matches!(wait_step(false, true, 0, 60, 1_000_000), Wait::Stop(Error::Cancelled)));
    match wait_step(false, false, 60_000_000_001, 60, 1_000_000) {
        Wait::Stop(Error::Runner(m)) => assert_eq!(m, "phonemis_runner: przekroczono limit czasu 60s"),
        _ => panic!("expected a timeout"),
    }
    assert!(matches!(wait_step(false, false, 60_000_000_000, 60, 1_000_000), Wait::Sleep(2_000_000)));
    assert!(matches!(wait_step(false, false, 5, 60, 8_000_000), Wait::Sleep(MAX_WAIT_NS)));
}

#[test]
fn workers() {
    assert_eq!(worker_count(Some(3), Some(16)), 3);
    assert_eq!(worker_count(Some(0), Some(16)), 8);
    assert_eq!(worker_count(None, Some(4)), 4);
    assert_eq!(worker_count(None, None), 2);
}

#[test]
fn git_lfs_pointer_is_recognised() {
    assert!(is_lfs_pointer(b"version https://git-lfs.github.com/spec/v1\noid sha256:x\nsize 7094120\n"));
    assert!(!is_lfs_pointer(b"version https://git"));
    assert!(!is_lfs_pointer(&[0u8, 1, 2, 3]));
}
