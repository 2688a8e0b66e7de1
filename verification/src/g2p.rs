//! The phonemization backend (text -> IPA) and what the library does with the answers of `phonemis_runner`.

use vstd::prelude::*;

use crate::cancel::CancelToken;
use crate::chars::{from_chars, push_range, push_str, to_chars, trim, trim_chars};
use crate::error::Error;
use crate::normalize::{lit_at, lit_at_exec, rewrite, rewrite_exec, step_view, Step};
use crate::text::find_char;

verus! {

/// Phonemization backend. Give your own in `Config::g2p`; the model closes it when it is unloaded. The backend gets
/// plain text (one sentence or a piece of one): `[text](/ipa/)` insertions are handled before.
pub trait G2p: Send + Sync {
    fn phonemize(&self, text: &str, cancel: &CancelToken) -> Result<String, Error>;

    /// Phonemizes many pieces at once (answers in the same order). By default one after another; the runner
    /// backend works in parallel. The first error is returned.
    fn phonemize_many(&self, texts: &[String], cancel: &CancelToken) -> (r: Result<Vec<String>, Error>)
        default_ensures
            r matches Ok(v) ==> v.len() == texts.len(),
            r is Err ==> texts.len() > 0,
    {
        let mut out: Vec<String> = Vec::new();
        let mut i: usize = 0;
        while i < texts.len()
            invariant
                i <= texts.len(),
                out.len() == i,
            decreases texts.len() - i,
        {
            let r = self.phonemize(texts[i].as_str(), cancel);
            match r {
                Ok(s) => out.push(s),
                Err(e) => {
                    return Err(e);
                },
            }
            i += 1;
        }
        Ok(out)
    }

    fn close(&self) -> (r: Result<(), Error>)
        default_ensures
            r is Ok,
    {
        Ok(())
    }
}

/// The text handed to the runner: NUL characters become spaces, then both ends are trimmed.
pub open spec fn runner_input_spec(text: Seq<char>) -> Seq<char> {
    trim(text.map_values(|c: char| if c == '\0' { ' ' } else { c }))
}

/// What `phonemis_runner` is given for `text` (an empty answer means the runner is not started at all).
pub fn runner_input(text: &str) -> (r: String)
    ensures
        r@ == runner_input_spec(text@),
{
    let s = to_chars(text);
    let mut v: Vec<char> = Vec::new();
    let mut i: usize = 0;
    while i < s.len()
        invariant
            i <= s.len(),
            v@ =~= s@.take(i as int).map_values(|c: char| if c == '\0' { ' ' } else { c }),
        decreases s.len() - i,
    {
        v.push(if s[i] == '\0' { ' ' } else { s[i] });
        i += 1;
        assert(v@ =~= s@.take(i as int).map_values(|c: char| if c == '\0' { ' ' } else { c }));
    }
    assert(s@.take(s.len() as int) =~= s@);
    let t = trim_chars(&v);
    from_chars(&t)
}

/// First position at or after `i` that is neither an ASCII digit nor `;`.
pub open spec fn sgr_run(s: Seq<char>, i: int) -> int
    decreases s.len() - i,
{
    if 0 <= i < s.len() && (('0' <= s[i] <= '9') || s[i] == ';') {
        sgr_run(s, i + 1)
    } else {
        i
    }
}

/// `\x1b\[[0-9;]*m` (a terminal colour sequence) is removed.
pub open spec fn ansi_rule(s: Seq<char>, p: int) -> Step {
    if 0 <= p && p + 1 < s.len() && s[p] == '\u{1b}' && s[p + 1] == '[' {
        let e = sgr_run(s, p + 2);
        if e < s.len() && s[e] == 'm' {
            Some((e + 1, Seq::empty()))
        } else {
            None
        }
    } else {
        None
    }
}

pub proof fn lemma_sgr_run(s: Seq<char>, i: int)
    requires
        0 <= i <= s.len(),
    ensures
        i <= sgr_run(s, i) <= s.len(),
    decreases s.len() - i,
{
    if i < s.len() && (('0' <= s[i] <= '9') || s[i] == ';') {
        lemma_sgr_run(s, i + 1);
    }
}

fn ansi_exec(s: &Vec<char>, p: usize) -> (r: Option<(usize, Vec<char>)>)
    requires
        p < s.len(),
    ensures
        step_view(r) == ansi_rule(s@, p as int),
{
    if !(s.len() - p > 1 && s[p] == '\u{1b}' && s[p + 1] == '[') {
        return None;
    }
    proof {
        lemma_sgr_run(s@, p + 2);
    }
    let mut e = p + 2;
    while e < s.len() && (('0' <= s[e] && s[e] <= '9') || s[e] == ';')
        invariant
            p + 2 <= e <= s.len(),
            sgr_run(s@, p + 2) == sgr_run(s@, e as int),
        decreases s.len() - e,
    {
        e += 1;
    }
    if e < s.len() && s[e] == 'm' {
        Some((e + 1, Vec::new()))
    } else {
        None
    }
}

pub open spec fn strip_ansi(s: Seq<char>) -> Seq<char> {
    rewrite(s, 0, |t: Seq<char>, p: int| ansi_rule(t, p))
}

fn strip_ansi_exec(s: &Vec<char>) -> (r: Vec<char>)
    ensures
        r@ == strip_ansi(s@),
{
    rewrite_exec(s, ansi_exec, Ghost(|t: Seq<char>, p: int| ansi_rule(t, p)))
}

/// The first line of `out` (from position `i`) that begins with "Output: ", without that prefix and trimmed. Lines
/// end at '\n'; a '\r' right before the '\n' is not part of the line.
pub open spec fn output_line(out: Seq<char>, i: int) -> Option<Seq<char>>
    decreases out.len() - i,
{
    if i < 0 || i >= out.len() {
        None
    } else {
        let k = find_char(out, i, '\n');
        proof {
            lemma_line_end(out, i);
        }
        let raw = out.subrange(i, k);
        let line = if k < out.len() && raw.len() > 0 && raw.last() == '\r' {
            raw.drop_last()
        } else {
            raw
        };
        if line.len() >= "Output: "@.len() && line.take("Output: "@.len() as int) == "Output: "@ {
            Some(trim(line.skip("Output: "@.len() as int)))
        } else if k < out.len() {
            output_line(out, k + 1)
        } else {
            None
        }
    }
}

pub proof fn lemma_line_end(s: Seq<char>, i: int)
    requires
        0 <= i <= s.len(),
    ensures
        i <= find_char(s, i, '\n') <= s.len(),
        find_char(s, i, '\n') < s.len() ==> s[find_char(s, i, '\n')] == '\n',
{
    crate::text::lemma_find_char(s, i, '\n');
}

/// Decimal digits of `n`.
pub open spec fn decimal(n: nat) -> Seq<char>
    decreases n,
{
    if n < 10 {
        seq![((48 + n) as u8) as char]
    } else {
        decimal(n / 10) + seq![((48 + n % 10) as u8) as char]
    }
}

/// `n` written as `Display` writes an integer.
pub open spec fn signed_decimal(n: int) -> Seq<char> {
    if n < 0 {
        seq!['-'] + decimal((-n) as nat)
    } else {
        decimal(n as nat)
    }
}

pub(crate) fn push_decimal(out: &mut Vec<char>, n: u64)
    ensures
        final(out)@ == old(out)@ + decimal(n as nat),
    decreases n,
{
    if n >= 10 {
        push_decimal(out, n / 10);
    }
    let d: u8 = (n % 10) as u8;
    out.push((48u8 + d) as char);
    assert(final(out)@ =~= old(out)@ + decimal(n as nat));
}

pub fn push_signed(out: &mut Vec<char>, n: i64)
    requires
        n > i64::MIN,
    ensures
        final(out)@ == old(out)@ + signed_decimal(n as int),
{
    if n < 0 {
        out.push('-');
        push_decimal(out, (-n) as u64);
        assert(final(out)@ =~= old(out)@ + signed_decimal(n as int));
    } else {
        push_decimal(out, n as u64);
    }
}

/// The text that `Debug` writes for a string: in double quotes, with quotes, backslashes, control and
/// non-printable characters escaped.
pub uninterp spec fn debug_str(s: Seq<char>) -> Seq<char>;

/// `{s:?}`: the string as `Debug` quotes it (std's `<str as Debug>::fmt`). The escaping rules follow Unicode tables,
/// so the result is only named, as a function of the string.
#[verifier::external_body]
pub(crate) fn debug_quoted(s: &str) -> (r: String)
    ensures
        r@ == debug_str(s@),
{
    format!("{s:?}")
}

/// The message of a failed run: the trimmed standard error, or the trimmed standard output when the former is blank.
pub open spec fn failure_text(stdout: Seq<char>, stderr: Seq<char>) -> Seq<char> {
    if trim(strip_ansi(stderr)).len() == 0 {
        trim(strip_ansi(stdout))
    } else {
        trim(strip_ansi(stderr))
    }
}

/// What a finished `phonemis_runner` run yields: for a failed run a `Runner` error that names the exit code (or the
/// signal) and the message; otherwise the first "Output: " line of the standard output, trimmed, or an error that
/// quotes the whole output when there is no such line. Terminal colour sequences are removed first.
pub fn runner_reply(success: bool, code: Option<i32>, stdout: &str, stderr: &str) -> (r: Result<String, Error>)
    ensures
        !success ==> (r matches Err(Error::Runner(m)) && m@ == (match code {
            Some(c) => "phonemis_runner zakończył się kodem "@ + signed_decimal(c as int) + ": "@,
            None => "phonemis_runner przerwany sygnałem: "@,
        }) + failure_text(stdout@, stderr@)),
        success ==> match output_line(strip_ansi(stdout@), 0) {
            Some(line) => (r matches Ok(o) && o@ == line),
            None => (r matches Err(Error::Runner(m)) && m@ == "nie znaleziono linii 'Output:' w wyjściu runnera: "@
                + debug_str(strip_ansi(stdout@))),
        },
{
    let so = strip_ansi_exec(&to_chars(stdout));
    if !success {
        let se = strip_ansi_exec(&to_chars(stderr));
        let te = trim_chars(&se);
        let msg = if te.len() == 0 {
            trim_chars(&so)
        } else {
            te
        };
        let mut m: Vec<char> = Vec::new();
        match code {
            Some(c) => {
                push_str(&mut m, "phonemis_runner zakończył się kodem ");
                push_signed(&mut m, c as i64);
                push_str(&mut m, ": ");
            },
            None => {
                push_str(&mut m, "phonemis_runner przerwany sygnałem: ");
            },
        }
        push_range(&mut m, &msg, 0, msg.len());
        assert(msg@.subrange(0, msg@.len() as int) =~= msg@);
        return Err(Error::Runner(from_chars(&m)));
    }
    let n = so.len();
    let mut i: usize = 0;
    while i < n
        invariant
            i <= n == so.len(),
            success,
            so@ == strip_ansi(stdout@),
            output_line(so@, 0) == output_line(so@, i as int),
        decreases n - i,
    {
        let mut k = i;
        while k < n && so[k] != '\n'
            invariant
                i <= k <= n == so.len(),
                find_char(so@, i as int, '\n') == find_char(so@, k as int, '\n'),
            decreases n - k,
        {
            k += 1;
        }
        proof {
            crate::text::lemma_find_char(so@, i as int, '\n');
        }
        let end = if k < n && k > i && so[k - 1] == '\r' {
            k - 1
        } else {
            k
        };
        let ghost line = so@.subrange(i as int, end as int);
        assert(line == (if k < n && so@.subrange(i as int, k as int).len() > 0 && so@.subrange(
            i as int,
            k as int,
        ).last() == '\r' {
            so@.subrange(i as int, k as int).drop_last()
        } else {
            so@.subrange(i as int, k as int)
        }));
        let (m, l) = lit_at_exec(&so, i, "Output: ");
        let is_out = end - i >= l && m;
        proof {
            if is_out {
                assert(line.take(l as int) =~= so@.subrange(i as int, i + l));
            } else if end - i >= l {
                assert(line.take(l as int) =~= so@.subrange(i as int, i + l));
            }
        }
        if is_out {
            let mut rest: Vec<char> = Vec::new();
            push_range(&mut rest, &so, i + l, end);
            assert(rest@ =~= line.skip(l as int));
            let t = trim_chars(&rest);
            assert(output_line(so@, i as int) == Some(t@));
            return Ok(from_chars(&t));
        }
        if k >= n {
            i = n;
        } else {
            i = k + 1;
        }
    }
    let mut m: Vec<char> = Vec::new();
    push_str(&mut m, "nie znaleziono linii 'Output:' w wyjściu runnera: ");
    let cleaned = from_chars(&so);
    let q = debug_quoted(cleaned.as_str());
    let qc = to_chars(q.as_str());
    push_range(&mut m, &qc, 0, qc.len());
    Err(Error::Runner(from_chars(&m)))
}

/// Weights whose first bytes are a Git LFS pointer (about 130 bytes instead of the real file).
pub open spec fn lfs_pointer(head: Seq<u8>) -> bool {
    let p = "version https://git-lfs"@;
    head.len() >= p.len() && head.take(p.len() as int) == p.map_values(|c: char| c as u8)
}

/// Whether the first bytes of a weights file are a Git LFS pointer rather than weights.
pub fn is_lfs_pointer(head: &[u8]) -> (r: bool)
    ensures
        r == lfs_pointer(head@),
{
    let p = to_chars("version https://git-lfs");
    let ghost pb = p@.map_values(|c: char| c as u8);
    if head.len() < p.len() {
        return false;
    }
    let mut j: usize = 0;
    while j < p.len()
        invariant
            j <= p.len() <= head.len(),
            p@ == "version https://git-lfs"@,
            pb == p@.map_values(|c: char| c as u8),
            head@.take(j as int) == pb.take(j as int),
        decreases p.len() - j,
    {
        if head[j] != p[j] as u8 {
            assert(head@.take(p.len() as int)[j as int] == head@[j as int]);
            assert(pb[j as int] == p@[j as int] as u8);
            return false;
        }
        j += 1;
        assert(head@.take(j as int) =~= pb.take(j as int));
    }
    assert(pb.take(p.len() as int) =~= pb);
    true
}

/// The step after a check of a running `phonemis_runner` process.
pub enum Wait {
    /// The process has exited: collect its output.
    Finished,
    /// Stop the process and fail with this error.
    Stop(Error),
    /// Sleep for the current wait, then check again with the given wait (nanoseconds).
    Sleep(u128),
}

/// The longest pause between two checks of a running process (10 ms, in nanoseconds).
pub const MAX_WAIT_NS: u128 = 10_000_000;

/// The error of a runner that exceeded its time limit of `timeout_secs` seconds.
pub open spec fn timeout_message(timeout_secs: u64) -> Seq<char> {
    "phonemis_runner: przekroczono limit czasu "@ + decimal(timeout_secs as nat) + "s"@
}

/// One step of waiting for a runner process: an exited process is finished; otherwise a cancellation stops it, then
/// a run longer than the limit; otherwise the caller sleeps and the next wait is doubled, up to `MAX_WAIT_NS`.
pub fn wait_step(exited: bool, cancelled: bool, elapsed_ns: u128, timeout_secs: u64, wait_ns: u128) -> (r: Wait)
    requires
        wait_ns <= MAX_WAIT_NS,
    ensures
        exited ==> r is Finished,
        !exited && cancelled ==> (r matches Wait::Stop(e) && e is Cancelled),
        !exited && !cancelled && elapsed_ns > timeout_secs * 1_000_000_000 ==> (r matches Wait::Stop(
            Error::Runner(m),
        ) && m@ == timeout_message(timeout_secs)),
        !exited && !cancelled && elapsed_ns <= timeout_secs * 1_000_000_000 ==> (r matches Wait::Sleep(n) && n == (
        if 2 * wait_ns < MAX_WAIT_NS {
            2 * wait_ns
        } else {
            MAX_WAIT_NS as int
        })),
{
    if exited {
        return Wait::Finished;
    }
    if cancelled {
        return Wait::Stop(Error::Cancelled);
    }
    let limit: u128 = (timeout_secs as u128) * 1_000_000_000;
    if elapsed_ns > limit {
        let mut m: Vec<char> = Vec::new();
        push_str(&mut m, "phonemis_runner: przekroczono limit czasu ");
        push_decimal(&mut m, timeout_secs);
        push_str(&mut m, "s");
        return Wait::Stop(Error::Runner(from_chars(&m)));
    }
    let doubled = 2 * wait_ns;
    Wait::Sleep(
        if doubled < MAX_WAIT_NS {
            doubled
        } else {
            MAX_WAIT_NS
        },
    )
}

/// How many runner processes work at once: the requested number when it is positive, otherwise the available
/// parallelism (2 when unknown) but at most 8.
pub fn worker_count(requested: Option<usize>, available: Option<usize>) -> (r: usize)
    ensures
        r == match requested {
            Some(w) if w > 0 => w,
            _ => match available {
                Some(n) => if n < 8 {
                    n
                } else {
                    8
                },
                None => 2,
            },
        },
{
    match requested {
        Some(w) if w > 0 => w,
        _ => match available {
            Some(n) => if n < 8 {
                n
            } else {
                8
            },
            None => 2,
        },
    }
}

} // verus!
