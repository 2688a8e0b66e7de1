//! Where the local copy of the model lives and how its files are fetched: the decisions and texts of the download
//! (the fetching itself is I/O and is done by the caller).

use vstd::prelude::*;

use crate::catalog::{REPO_ID, REVISION, STYLE_DIM, STYLE_ROWS};
use crate::chars::{from_chars, push_str, to_chars};
use crate::error::Error;
use crate::g2p::{debug_quoted, debug_str, decimal, push_signed};

verus! {

/// Bytes left as they are in a URL path segment: ASCII letters, digits and `-._~`.
pub open spec fn unreserved(b: u8) -> bool {
    (48 <= b <= 57) || (65 <= b <= 90) || (97 <= b <= 122) || b == 45 || b == 46 || b == 95 || b == 126
}

/// Upper-case hexadecimal digit of `d < 16`.
pub open spec fn hex_digit(d: u8) -> char {
    if d < 10 {
        ((48 + d) as u8) as char
    } else {
        ((55 + d) as u8) as char
    }
}

/// One byte of a URL: itself when unreserved (or a `/` that `keep_slash` keeps), else `%XX`.
pub open spec fn pct_byte(b: u8, keep_slash: bool) -> Seq<char> {
    if unreserved(b) || (keep_slash && b == 47) {
        seq![b as char]
    } else {
        seq!['%', hex_digit(b / 16), hex_digit(b % 16)]
    }
}

pub open spec fn pct_encode(bs: Seq<u8>, keep_slash: bool) -> Seq<char>
    decreases bs.len(),
{
    if bs.len() == 0 {
        Seq::empty()
    } else {
        pct_encode(bs.drop_last(), keep_slash) + pct_byte(bs.last(), keep_slash)
    }
}

fn hex_digit_exec(d: u8) -> (r: char)
    requires
        d < 16,
    ensures
        r == hex_digit(d),
{
    if d < 10 {
        (48u8 + d) as char
    } else {
        (55u8 + d) as char
    }
}

fn push_pct(out: &mut Vec<char>, s: &str, keep_slash: bool)
    ensures
        final(out)@ == old(out)@ + pct_encode(vstd::utf8::encode_utf8(s@), keep_slash),
{
    let bs = s.as_bytes();
    let ghost start = out@;
    let mut i: usize = 0;
    while i < bs.len()
        invariant
            i <= bs.len(),
            bs@ == vstd::utf8::encode_utf8(s@),
            out@ == start + pct_encode(bs@.take(i as int), keep_slash),
        decreases bs.len() - i,
    {
        let b = bs[i];
        if (48 <= b && b <= 57) || (65 <= b && b <= 90) || (97 <= b && b <= 122) || b == 45 || b == 46 || b
            == 95 || b == 126 || (keep_slash && b == 47) {
            out.push(b as char);
        } else {
            out.push('%');
            out.push(hex_digit_exec(b / 16));
            out.push(hex_digit_exec(b % 16));
        }
        assert(bs@.take(i + 1).drop_last() =~= bs@.take(i as int));
        i += 1;
        assert(out@ =~= start + pct_encode(bs@.take(i as int), keep_slash));
    }
    assert(bs@.take(bs.len() as int) =~= bs@);
}

/// A URL path segment: unreserved bytes of the UTF-8 encoding unchanged, every other byte as `%XX`.
pub fn encode_segment(s: &str) -> (r: String)
    ensures
        r@ == pct_encode(vstd::utf8::encode_utf8(s@), false),
{
    let mut out: Vec<char> = Vec::new();
    push_pct(&mut out, s, false);
    from_chars(&out)
}

/// `<endpoint>/<REPO_ID>/resolve/<REVISION>/<rel>`, each segment of `rel` encoded (the `/` between segments kept).
pub open spec fn download_url_spec(endpoint: Seq<char>, rel: Seq<char>) -> Seq<char> {
    endpoint + "/"@ + REPO_ID@ + "/resolve/"@ + pct_encode(vstd::utf8::encode_utf8(REVISION@), false) + "/"@
        + pct_encode(vstd::utf8::encode_utf8(rel), true)
}

/// The URL a model file `rel` is fetched from.
pub fn download_url(endpoint: &str, rel: &str) -> (r: String)
    ensures
        r@ == download_url_spec(endpoint@, rel@),
{
    let mut out: Vec<char> = Vec::new();
    push_str(&mut out, endpoint);
    push_str(&mut out, "/");
    push_str(&mut out, REPO_ID);
    push_str(&mut out, "/resolve/");
    push_pct(&mut out, REVISION, false);
    push_str(&mut out, "/");
    push_pct(&mut out, rel, true);
    from_chars(&out)
}

/// A `..` component starts at `i`.
pub open spec fn parent_at(r: Seq<char>, i: int) -> bool {
    &&& 0 <= i
    &&& i + 1 < r.len()
    &&& (i == 0 || r[i - 1] == '/')
    &&& r[i] == '.'
    &&& r[i + 1] == '.'
    &&& (i + 2 == r.len() || r[i + 2] == '/')
}

/// A local relative path (`filepath.IsLocal`): not empty, not absolute, no `..` component.
pub open spec fn local_path(r: Seq<char>) -> bool {
    &&& r.len() > 0
    &&& r[0] != '/'
    &&& forall|i: int| 0 <= i < r.len() ==> !#[trigger] parent_at(r, i)
}

/// Whether a path from `catalog.json` stays inside the model directory.
pub fn is_local(rel: &str) -> (r: bool)
    ensures
        r == local_path(rel@),
{
    let s = to_chars(rel);
    let n = s.len();
    if n == 0 || s[0] == '/' {
        return false;
    }
    let mut i: usize = 0;
    while i < n
        invariant
            i <= n == s.len(),
            s@ == rel@,
            forall|k: int| 0 <= k < i ==> !#[trigger] parent_at(s@, k),
        decreases n - i,
    {
        if n - i >= 2 && (i == 0 || s[i - 1] == '/') && s[i] == '.' && s[i + 1] == '.' && (n - i == 2 || s[i
            + 2] == '/') {
            assert(parent_at(s@, i as int));
            return false;
        }
        i += 1;
    }
    true
}

/// What is wrong with a finished download of `n` bytes when the server announced `expected` bytes: a length that
/// differs, or an empty file.
pub open spec fn download_problem_spec(expected: Option<u64>, n: u64) -> Option<Seq<char>> {
    match expected {
        Some(exp) if exp != n => Some("pobrano "@ + decimal(n as nat) + " z "@ + decimal(exp as nat) + " bajtów"@),
        _ => if n == 0 {
            Some("serwer zwrócił pusty plik"@)
        } else {
            None
        },
    }
}

fn push_u64(out: &mut Vec<char>, n: u64)
    ensures
        final(out)@ == old(out)@ + decimal(n as nat),
{
    crate::g2p::push_decimal(out, n);
}

pub fn download_problem(expected: Option<u64>, n: u64) -> (r: Option<String>)
    ensures
        match download_problem_spec(expected, n) {
            Some(m) => (r matches Some(x) && x@ == m),
            None => r is None,
        },
{
    match expected {
        Some(exp) => {
            if exp != n {
                let mut m: Vec<char> = Vec::new();
                push_str(&mut m, "pobrano ");
                push_u64(&mut m, n);
                push_str(&mut m, " z ");
                push_u64(&mut m, exp);
                push_str(&mut m, " bajtów");
                return Some(from_chars(&m));
            }
        },
        None => {},
    }
    if n == 0 {
        Some("serwer zwrócił pusty plik".to_string())
    } else {
        None
    }
}

/// ASCII letters lower-cased (other characters unchanged).
pub open spec fn ascii_lower(c: char) -> char {
    if 'A' <= c <= 'Z' {
        (((c as u32) + 32) as u8) as char
    } else {
        c
    }
}

/// `KOKORO_OFFLINE` is on: `1`, `true` or `yes`, in any letter case.
pub open spec fn offline_value(v: Seq<char>) -> bool {
    let l = v.map_values(|c: char| ascii_lower(c));
    l == "1"@ || l == "true"@ || l == "yes"@
}

/// Whether the value of `KOKORO_OFFLINE` turns offline mode on. Lower-casing is done on ASCII letters only: no other
/// character lower-cases to one of the letters of these words.
pub fn offline_flag(v: &str) -> (r: bool)
    ensures
        r == offline_value(v@),
{
    let s = to_chars(v);
    let mut l: Vec<char> = Vec::new();
    let mut i: usize = 0;
    while i < s.len()
        invariant
            i <= s.len(),
            l@ =~= s@.take(i as int).map_values(|c: char| ascii_lower(c)),
        decreases s.len() - i,
    {
        let c = s[i];
        let d = if 'A' <= c && c <= 'Z' {
            ((c as u32 + 32) as u8) as char
        } else {
            c
        };
        l.push(d);
        i += 1;
        assert(l@ =~= s@.take(i as int).map_values(|c: char| ascii_lower(c)));
    }
    assert(s@.take(s.len() as int) =~= s@);
    let ls = from_chars(&l);
    crate::catalog::eq_str(ls.as_str(), "1") || crate::catalog::eq_str(ls.as_str(), "true")
        || crate::catalog::eq_str(ls.as_str(), "yes")
}

/// `s` without trailing `/`.
pub open spec fn trim_slashes(s: Seq<char>) -> Seq<char>
    decreases s.len(),
{
    if s.len() > 0 && s.last() == '/' {
        trim_slashes(s.drop_last())
    } else {
        s
    }
}

/// The model server: the configured endpoint, else a non-empty `HF_ENDPOINT`, else `https://huggingface.co`;
/// trailing slashes removed.
pub open spec fn endpoint_spec(configured: Option<Seq<char>>, env: Option<Seq<char>>) -> Seq<char> {
    trim_slashes(
        match configured {
            Some(c) => c,
            None => match env {
                Some(e) if e.len() > 0 => e,
                _ => "https://huggingface.co"@,
            },
        },
    )
}

pub fn endpoint(configured: Option<&str>, env: Option<&str>) -> (r: String)
    ensures
        r@ == endpoint_spec(crate::catalog::opt_str_ref(configured), crate::catalog::opt_str_ref(env)),
{
    let base = match configured {
        Some(c) => c,
        None => match env {
            Some(e) if !e.is_empty() => e,
            _ => "https://huggingface.co",
        },
    };
    let s = to_chars(base);
    let mut n = s.len();
    assert(s@.take(s.len() as int) =~= s@);
    while n > 0 && s[n - 1] == '/'
        invariant
            n <= s.len(),
            trim_slashes(s@) == trim_slashes(s@.take(n as int)),
        decreases n,
    {
        assert(s@.take(n as int).drop_last() =~= s@.take(n - 1));
        n -= 1;
    }
    let mut out: Vec<char> = Vec::new();
    crate::chars::push_range(&mut out, &s, 0, n);
    assert(s@.subrange(0, n as int) =~= s@.take(n as int));
    assert(s@.take(s.len() as int) =~= s@);
    from_chars(&out)
}

/// `Ok` for a path from `catalog.json` that stays inside the model directory; a `Config` error naming it otherwise.
pub fn check_artifact_path(rel: &str) -> (r: Result<(), Error>)
    ensures
        r is Ok <==> local_path(rel@),
        r matches Err(e) ==> (e matches Error::Config(m) && m@ == "niebezpieczna ścieżka artefaktu w catalog.json: "@
            + debug_str(rel@)),
{
    if is_local(rel) {
        return Ok(());
    }
    let mut m: Vec<char> = Vec::new();
    push_str(&mut m, "niebezpieczna ścieżka artefaktu w catalog.json: ");
    let q = debug_quoted(rel);
    push_str(&mut m, q.as_str());
    Err(Error::Config(from_chars(&m)))
}

/// The error for a file that is missing while the network may not be used; `dest` and `base` are the file and the
/// model directory as they are displayed.
pub fn offline_missing(dest: &str, base: &str) -> (r: Error)
    ensures
        r matches Error::Config(m) && m@ == "brak lokalnego pliku modelu: "@ + dest@
            + "\nPobierz raz z siecią: download_model (CLI: --fetch-only), katalog: "@ + base@,
{
    let mut m: Vec<char> = Vec::new();
    push_str(&mut m, "brak lokalnego pliku modelu: ");
    push_str(&mut m, dest);
    push_str(&mut m, "\nPobierz raz z siecią: download_model (CLI: --fetch-only), katalog: ");
    push_str(&mut m, base);
    Error::Config(from_chars(&m))
}

/// The error for a model file that cannot be written because the model directory `root` is read-only (a model
/// from a Nix package, say); `io` is the text of the underlying error.
pub fn read_only_error(rel: &str, root: &str, io: &str) -> (r: Error)
    ensures
        r matches Error::Config(m) && m@ == "brak pliku modelu "@ + rel@ + ", a katalog "@ + root@
            + " jest tylko do odczytu ("@ + io@
            + ").\nJeśli model pochodzi z pakietu Nix, dodaj głos do plkokoro.voices w devenv.local.nix; albo ustaw KOKORO_MODEL_DIR / Config::model_dir na katalog z prawem zapisu"@,
{
    let mut m: Vec<char> = Vec::new();
    push_str(&mut m, "brak pliku modelu ");
    push_str(&mut m, rel);
    push_str(&mut m, ", a katalog ");
    push_str(&mut m, root);
    push_str(&mut m, " jest tylko do odczytu (");
    push_str(&mut m, io);
    push_str(
        &mut m,
        ").\nJeśli model pochodzi z pakietu Nix, dodaj głos do plkokoro.voices w devenv.local.nix; albo ustaw KOKORO_MODEL_DIR / Config::model_dir na katalog z prawem zapisu",
    );
    Error::Config(from_chars(&m))
}

/// The error of a download of `rel` that went wrong: an `Http` error that names the file, then says what went
/// wrong.
pub fn download_error(rel: &str, detail: &str) -> (r: Error)
    ensures
        r matches Error::Http(m) && m@ == "pobieranie "@ + rel@ + ": "@ + detail@,
{
    let mut m: Vec<char> = Vec::new();
    push_str(&mut m, "pobieranie ");
    push_str(&mut m, rel);
    push_str(&mut m, ": ");
    push_str(&mut m, detail);
    Error::Http(from_chars(&m))
}

/// The error of a download of `rel` from `url` that the server answered with the HTTP status `code`.
pub fn http_status_error(rel: &str, code: u16, url: &str) -> (r: Error)
    ensures
        r matches Error::Http(m) && m@ == "pobieranie "@ + rel@ + ": HTTP "@ + decimal(code as nat) + " ("@ + url@
            + ")"@,
{
    let mut m: Vec<char> = Vec::new();
    push_str(&mut m, "pobieranie ");
    push_str(&mut m, rel);
    push_str(&mut m, ": HTTP ");
    push_u64(&mut m, code as u64);
    push_str(&mut m, " (");
    push_str(&mut m, url);
    push_str(&mut m, ")");
    Error::Http(from_chars(&m))
}

/// What a failed copy of the response body becomes: a cancellation stays one, anything else is an `Http` error
/// that names the file and then gives the message of the cause.
pub fn copy_failure(rel: &str, e: Error) -> (r: Error)
    ensures
        e is Cancelled ==> r is Cancelled,
        !(e is Cancelled) ==> (r matches Error::Http(m) && exists|t: Seq<char>| m@ == "pobieranie "@ + rel@ + ": "@ + t),
{
    match e {
        Error::Cancelled => Error::Cancelled,
        other => {
            let t = other.message();
            download_error(rel, t.as_str())
        },
    }
}

/// Size of a voice file: `STYLE_ROWS × STYLE_DIM` little-endian float32 values.
pub const STYLE_BYTES: usize = 522240;

/// What is wrong with a voice file `voice` of `len` bytes, if anything.
pub fn style_size_problem(voice: &str, len: usize) -> (r: Option<Error>)
    ensures
        r is None <==> len == STYLE_ROWS * STYLE_DIM * 4,
        r matches Some(e) ==> (e matches Error::Config(m) && m@ == voice@ + ": rozmiar "@ + decimal(len as nat)
            + " B, oczekiwano "@ + decimal(STYLE_BYTES as nat) + " B ("@ + decimal(STYLE_ROWS as nat) + "×"@
            + decimal(STYLE_DIM as nat) + " float32)"@),
{
    if len == STYLE_BYTES {
        return None;
    }
    let mut m: Vec<char> = Vec::new();
    push_str(&mut m, voice);
    push_str(&mut m, ": rozmiar ");
    push_u64(&mut m, len as u64);
    push_str(&mut m, " B, oczekiwano ");
    push_u64(&mut m, STYLE_BYTES as u64);
    push_str(&mut m, " B (");
    push_u64(&mut m, STYLE_ROWS as u64);
    push_str(&mut m, "×");
    push_u64(&mut m, STYLE_DIM as u64);
    push_str(&mut m, " float32)");
    Some(Error::Config(from_chars(&m)))
}

} // verus!
