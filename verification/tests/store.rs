use plkokoro::store::{
    check_artifact_path, copy_failure, download_error, download_problem, download_url, encode_segment, endpoint,
    http_status_error, is_local, offline_flag, offline_missing, read_only_error, style_size_problem,
};
use plkokoro::{Error, REPO_ID, REVISION, STYLE_ROWS};

#[test]
fn rejects_path_traversal_from_catalog() {
    for bad in ["../evil", "a/../../evil", "/etc/passwd"] {
        let err = check_artifact_path(bad).unwrap_err();
        assert!(err.message().contains("niebezpieczna"), "{bad:?}: {}", err.message());
    }
}

#[test]
fn unsafe_path_is_quoted_in_the_message() {
    match check_artifact_path("../evil") {
        Err(Error::Config(m)) => assert_eq!(m, "niebezpieczna ścieżka artefaktu w catalog.json: \"../evil\""),
        other => panic!("{other:?}"),
    }
}

#[test]
fn local_paths() {
    assert!(is_local("voices/pl.bin"));
    assert!(is_local("a..b/c"));
    assert!(is_local("./x"));
    assert!(!is_local(""));
    assert!(!is_local(".."));
    assert!(!is_local("a/.."));
    assert!(!is_local("/abs"));
    assert!(check_artifact_path("onnx/model.onnx").is_ok());
}

#[test]
fn url_segments_are_percent_encoded() {
    assert_eq!(encode_segment("a b/ż~"), "a%20b%2F%C5%BC~");
    assert_eq!(
        download_url("https://hf.example", "voices/pl 1.bin"),
        format!("https://hf.example/{REPO_ID}/resolve/{REVISION}/voices/pl%201.bin")
    );
}

#[test]
fn endpoint_choice_and_trailing_slashes() {
    assert_eq!(endpoint(Some("http://x//"), Some("http://env")), "http://x");
    assert_eq!(endpoint(None, Some("http://env/")), "http://env");
    assert_eq!(endpoint(None, Some("")), "https://huggingface.co");
    assert_eq!(endpoint(None, None), "https://huggingface.co");
}

#[test]
fn offline_switch_values() {
    for v in ["1", "true", "TRUE", "Yes"] {
        assert!(offline_flag(v), "{v}");
    }
    for v in ["", "0", "no", "tak", " 1"] {
        assert!(!offline_flag(v), "{v}");
    }
}

#[test]
fn truncated_or_empty_download_is_a_problem() {
    assert_eq!(download_problem(Some(1000), 6).as_deref(), Some("pobrano 6 z 1000 bajtów"));
    assert_eq!(download_problem(None, 0).as_deref(), Some("serwer zwrócił pusty plik"));
    assert_eq!(download_problem(Some(0), 0).as_deref(), Some("serwer zwrócił pusty plik"));
    assert_eq!(download_problem(Some(5), 5), None);
    assert_eq!(download_problem(None, 5), None);
}

#[test]
fn offline_and_read_only_messages() {
    match offline_missing("/m/v2.1.1/x.bin", "/m/v2.1.1") {
        Error::Config(m) => assert!(m.starts_with("brak lokalnego pliku modelu: /m/v2.1.1/x.bin\n")),
        other => panic!("{other:?}"),
    }
    match read_only_error("voices/x.bin", "/nix/store/m", "Permission denied") {
        Error::Config(m) => {
            assert!(m.starts_with("brak pliku modelu voices/x.bin, a katalog /nix/store/m jest tylko do odczytu (Permission denied).\nJeśli"));
            assert!(m.contains("dodaj głos do plkokoro.voices"));
        }
        other => panic!("{other:?}"),
    }
}

#[test]
fn cancelled_copy_stays_cancelled() {
    assert!(matches!(copy_failure("x.bin", Error::Cancelled), Error::Cancelled));
    match copy_failure("x.bin", Error::Http("przerwane".to_string())) {
        Error::Http(m) => assert_eq!(m, "pobieranie x.bin: przerwane"),
        other => panic!("{other:?}"),
    }
}

#[test]
fn download_errors_name_the_file() {
    match http_status_error("onnx/model.onnx", 404, "https://h/x") {
        Error::Http(m) => assert_eq!(m, "pobieranie onnx/model.onnx: HTTP 404 (https://h/x)"),
        other => panic!("{other:?}"),
    }
    match download_error("voices/pl.bin", "pobrano 6 z 1000 bajtów") {
        Error::Http(m) => assert_eq!(m, "pobieranie voices/pl.bin: pobrano 6 z 1000 bajtów"),
        other => panic!("{other:?}"),
    }
}

#[test]
fn voice_file_size_is_checked() {
    assert!(style_size_problem("voices/pl.bin", STYLE_ROWS * 256 * 4).is_none());
    match style_size_problem("voices/pl.bin", 10) {
        Some(Error::Config(m)) => {
            assert_eq!(m, "voices/pl.bin: rozmiar 10 B, oczekiwano 522240 B (510×256 float32)")
        }
        other => panic!("{other:?}"),
    }
}
