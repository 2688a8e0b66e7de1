use plkokoro::catalog::{build_vocab, Artifact, Language, ModelEntry, Runtime, TextFrontend, TokenEncoding, Tokenizer, Voice};
use plkokoro::{Catalog, Error};

fn s(x: &str) -> String {
    x.to_string()
}

fn voice(id: &str, model: &str, path: &str) -> Voice {
    Voice {
        id: s(id),
        display_name: s(id),
        gender: s("female"),
        model_id: s(model),
        artifact: Artifact { path: s(path) },
    }
}

fn catalog() -> Catalog {
    Catalog {
        runtime: Runtime { token_encoding: TokenEncoding { vocabulary_field: s("vocab") } },
        languages: vec![
            Language {
                id: s("pl"),
                default_voice_id: s("pf_b"),
                text_frontend: Some(TextFrontend { status: s("bundled"), language: s("pl") }),
                voices: vec![voice("pf_a", "m_pl", "voices/pf_a.bin"), voice("pf_b", "m_pl", "voices/pf_b.bin")],
            },
            Language {
                id: s("de"),
                default_voice_id: s(""),
                text_frontend: None,
                voices: vec![voice("df_a", "m_de", "voices/df_a.bin")],
            },
            Language {
                id: s("ja"),
                default_voice_id: s("jf_a"),
                text_frontend: Some(TextFrontend { status: s("external-required"), language: s("") }),
                voices: vec![voice("jf_a", "m_zz", "voices/jf_a.bin")],
            },
        ],
        models: vec![
            ModelEntry { id: s("m_pl"), tokenizer_id: s("t1"), artifact: Artifact { path: s("onnx/pl.onnx") } },
            ModelEntry { id: s("m_de"), tokenizer_id: s("t1"), artifact: Artifact { path: s("onnx/de.onnx") } },
        ],
        tokenizers: vec![Tokenizer { id: s("t1"), artifact: Artifact { path: s("tok/t1.json") } }],
    }
}

#[test]
fn polish_default_voice_and_its_files() {
    let r = catalog().resolve_polish().unwrap();
    assert_eq!((r.lang.as_str(), r.voice_id.as_str()), ("pl", "pf_b"));
    assert_eq!((r.voice.as_str(), r.model.as_str(), r.tokenizer.as_str()), ("voices/pf_b.bin", "onnx/pl.onnx", "tok/t1.json"));
    assert_eq!(r.g2p_lang.as_deref(), Some("pl"));
    assert_eq!(r.vocab_field, "vocab");
}

#[test]
fn first_voice_when_there_is_no_default() {
    let r = catalog().resolve("de", None).unwrap();
    assert_eq!(r.voice_id, "df_a");
    assert_eq!(r.g2p_lang.as_deref(), Some("de"));
}

#[test]
fn catalog_without_polish_language() {
    let c = Catalog {
        runtime: Runtime { token_encoding: TokenEncoding { vocabulary_field: s("vocab") } },
        languages: vec![],
        models: vec![],
        tokenizers: vec![],
    };
    let err = c.resolve_polish().unwrap_err();
    assert!(err.message().contains("nie znaleziono języka"), "{}", err.message());
}

#[test]
fn unknown_voice_names_its_language() {
    match catalog().resolve("pl", Some("df_a")) {
        Err(Error::Config(m)) => {
            assert!(m.contains("nie ma głosu \"df_a\""), "{m}");
            assert!(m.contains("należy do języka \"de\""), "{m}");
            assert!(m.contains("pf_a, pf_b"), "{m}");
        }
        other => panic!("{:?}", other.map(|r| r.voice_id)),
    }
}

#[test]
fn missing_model_is_a_config_error() {
    match catalog().resolve("ja", None) {
        Err(Error::Config(m)) => assert!(m.contains("nie znaleziono modelu \"m_zz\""), "{m}"),
        other => panic!("{:?}", other.map(|r| r.voice_id)),
    }
}

#[test]
fn voices_in_file_order() {
    let v = catalog().voices();
    let ids: Vec<&str> = v.iter().map(|x| x.id.as_str()).collect();
    assert_eq!(ids, vec!["pf_a", "pf_b", "df_a", "jf_a"]);
    assert!(!v[0].is_default && v[1].is_default);
    assert_eq!(v[3].g2p_lang, None);
    assert_eq!(v[2].lang, "de");
}

#[test]
fn vocabulary_from_tokenizer_entries() {
    let entries = vec![(s("a"), Some(1)), (s("ab"), None), (s("ɛ"), Some(27)), (s(" "), Some(16))];
    let v = build_vocab(&entries, "tok.json").unwrap();
    assert_eq!(v.len(), 3);
    assert_eq!(v[&('ɛ' as u32)], 27);
    assert_eq!(v[&(' ' as u32)], 16);
    match build_vocab(&vec![(s("x"), None)], "tok.json") {
        Err(Error::Json(m)) => assert_eq!(m, "tok.json: id znaku \"x\" nie jest liczbą całkowitą"),
        other => panic!("{other:?}"),
    }
}
