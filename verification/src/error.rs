//! The library's errors.

use vstd::prelude::*;

verus! {

/// `std::io::Error`, carried inside `Error::Io` as it is (nothing of its contents is used).
#[verifier::external_type_specification]
#[verifier::external_body]
pub struct ExIoError(std::io::Error);

/// Errors of the library. `Unloaded`, `NoKokoro`, `NoPhonemes` and `Cancelled` are meant for matching in the caller
/// (`matches!(err, Error::Unloaded)`); the others carry a descriptive message with a hint on how to fix it.
#[derive(Debug)]
pub enum Error {
    /// The model was released (`unload`): load it again.
    Unloaded,
    /// The model was loaded without Kokoro (`skip_kokoro`): only text-to-IPA is available.
    NoKokoro,
    /// Nothing to synthesize (empty input, or only characters outside Kokoro's vocabulary).
    NoPhonemes,
    /// The operation was stopped through a `CancelToken`.
    Cancelled,
    /// An invalid option (e.g. a speed that is not above zero).
    InvalidOption(String),
    /// Configuration: missing runner, weights, ONNX Runtime library, model file in offline mode and so on.
    Config(String),
    Io(std::io::Error),
    Http(String),
    Json(String),
    /// The phonemization backend failed (e.g. `phonemis_runner` exited with a non-zero code).
    Runner(String),
    /// ONNX Runtime failed.
    Ort(String),
}

/// The text that `<std::io::Error as Display>::fmt` writes. Nothing is claimed of it: the error is opaque here.
#[verifier::external_body]
fn io_error_text(e: &std::io::Error) -> String {
    format!("{e}")
}

impl Error {
    /// The message of the error (what `Display` shows).
    pub fn message(&self) -> (r: String)
        ensures
            self matches Error::InvalidOption(m) ==> r@ == m@,
            self matches Error::Config(m) ==> r@ == m@,
            self matches Error::Http(m) ==> r@ == m@,
            self matches Error::Json(m) ==> r@ == m@,
            self matches Error::Runner(m) ==> r@ == m@,
            self matches Error::Ort(m) ==> r@ == m@,
            self is Unloaded ==> r@ == "plkokoro: model został zwolniony (unload) — załaduj go ponownie przez load_model()"@,
            self is NoKokoro ==> r@ == "plkokoro: model załadowano z skip_kokoro — synteza niedostępna, tylko text_to_ipa"@,
            self is NoPhonemes ==> r@ == "plkokoro: brak fonemów do syntezy (pusty tekst albo same znaki spoza słownika Kokoro)"@,
            self is Cancelled ==> r@ == "plkokoro: operacja przerwana (anulowano)"@,
    {
        match self {
            Error::Unloaded => "plkokoro: model został zwolniony (unload) — załaduj go ponownie przez load_model()".to_string(),
            Error::NoKokoro => "plkokoro: model załadowano z skip_kokoro — synteza niedostępna, tylko text_to_ipa".to_string(),
            Error::NoPhonemes => "plkokoro: brak fonemów do syntezy (pusty tekst albo same znaki spoza słownika Kokoro)".to_string(),
            Error::Cancelled => "plkokoro: operacja przerwana (anulowano)".to_string(),
            Error::InvalidOption(m) => m.clone(),
            Error::Config(m) => m.clone(),
            Error::Http(m) => m.clone(),
            Error::Json(m) => m.clone(),
            Error::Runner(m) => m.clone(),
            Error::Ort(m) => m.clone(),
            Error::Io(e) => io_error_text(e),
        }
    }
}

impl From<std::io::Error> for Error {
    /// An I/O error becomes `Error::Io`.
    fn from(e: std::io::Error) -> (r: Error) {
        Error::Io(e)
    }
}

impl vstd::std_specs::convert::FromSpecImpl<std::io::Error> for Error {
    open spec fn obeys_from_spec() -> bool {
        true
    }

    open spec fn from_spec(e: std::io::Error) -> Error {
        Error::Io(e)
    }
}

} // verus!
