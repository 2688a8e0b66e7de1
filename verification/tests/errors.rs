use plkokoro::cancel::{any_cancelled, cancel_outcome};
use plkokoro::{CancelToken, Error};

#[test]
fn messages_of_errors() {
    assert_eq!(Error::Cancelled.message(), "plkokoro: operacja przerwana (anulowano)");
    assert_eq!(Error::Config(s()).message(), "x");
    assert!(Error::NoPhonemes.message().starts_with("plkokoro: brak fonemów do syntezy"));
    let io = Error::Io(std::io::Error::new(std::io::ErrorKind::Other, "dysk"));
    assert_eq!(io.message(), "dysk");
}

fn s() -> String {
    "x".to_string()
}

#[test]
fn cancel_token_is_shared_by_clones_and_never_reset() {
    let t = CancelToken::new();
    let u = t.clone();
    assert!(!u.is_cancelled());
    assert!(u.check().is_ok());
    t.cancel();
    assert!(u.is_cancelled());
    assert!(matches!(u.check(), Err(Error::Cancelled)));
    assert!(matches!(t.check(), Err(Error::Cancelled)));
}

#[test]
fn cancel_outcome_follows_the_flag() {
    assert!(cancel_outcome(false).is_ok());
    assert!(matches!(cancel_outcome(true), Err(Error::Cancelled)));
}

#[test]
fn model_is_send_and_sync() {
    fn assert_ss<T: Send + Sync>() {}
    assert_ss::<CancelToken>();
    assert_ss::<plkokoro::PieceCache>();
}

#[test]
fn any_cancelled_token_stops_the_runner() {
    let a = CancelToken::new();
    let b = CancelToken::new();
    assert!(!any_cancelled(&[]));
    assert!(!any_cancelled(&[&a, &b]));
    b.clone().cancel();
    assert!(any_cancelled(&[&a, &b]));
    assert!(matches!(cancel_outcome(any_cancelled(&[&a, &b])), Err(Error::Cancelled)));
}
