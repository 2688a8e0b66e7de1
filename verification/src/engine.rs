//! What the inference layer decides before ONNX Runtime is touched: which execution providers can be asked for,
//! and the texts of its configuration errors.

use vstd::prelude::*;

use crate::chars::{from_chars, push_str, to_chars};
use crate::error::Error;
use crate::g2p::{debug_quoted, debug_str};
use crate::store::ascii_lower;
use crate::text::strs;

verus! {

/// The inputs the acoustic model must have.
pub const INPUT_IDS: &'static str = "input_ids";

pub const INPUT_STYLE: &'static str = "style";

pub const INPUT_SPEED: &'static str = "speed";

/// The output the acoustic model must have.
pub const OUTPUT_WAVEFORM: &'static str = "waveform";

/// A provider name that means the CPU, which is always there: empty or `cpu`, with or without the suffix
/// `ExecutionProvider`, in any letter case.
pub open spec fn cpu_provider(name: Seq<char>) -> bool {
    let l = name.map_values(|c: char| ascii_lower(c));
    l == ""@ || l == "cpu"@ || l == "executionprovider"@ || l == "cpuexecutionprovider"@
}

/// The error for a provider that this build cannot use.
pub open spec fn provider_message(name: Seq<char>) -> Seq<char> {
    "provider "@ + debug_str(name)
        + " nie jest dostępny: nieznany albo niewłączony w tej kompilacji (cechy Cargo: cuda, tensorrt, rocm, migraphx, coreml, directml, openvino)"@
}

fn lower_ascii(s: &str) -> (r: String)
    ensures
        r@ == s@.map_values(|c: char| ascii_lower(c)),
{
    let v = to_chars(s);
    let mut l: Vec<char> = Vec::new();
    let mut i: usize = 0;
    while i < v.len()
        invariant
            i <= v.len(),
            l@ =~= v@.take(i as int).map_values(|c: char| ascii_lower(c)),
        decreases v.len() - i,
    {
        let c = v[i];
        l.push(
            if 'A' <= c && c <= 'Z' {
                ((c as u32 + 32) as u8) as char
            } else {
                c
            },
        );
        i += 1;
        assert(l@ =~= v@.take(i as int).map_values(|c: char| ascii_lower(c)));
    }
    assert(v@.take(v.len() as int) =~= v@);
    from_chars(&l)
}

/// Checks the requested execution providers. This build has the CPU provider only, which needs no registration:
/// every name must mean the CPU, and the first that does not is a `Config` error. Letter case is folded on ASCII
/// letters; no other character lower-cases to a letter of these words.
pub fn check_providers(names: &Vec<String>) -> (r: Result<(), Error>)
    ensures
        r is Ok <==> forall|k: int| 0 <= k < names.len() ==> cpu_provider(#[trigger] names@[k]@),
        r matches Err(e) ==> exists|k: int|
            0 <= k < names.len() && !cpu_provider(#[trigger] names@[k]@) && (forall|j: int|
                0 <= j < k ==> cpu_provider(#[trigger] names@[j]@)) && (e matches Error::Config(m) && m@
                == provider_message(names@[k]@)),
{
    let mut i: usize = 0;
    while i < names.len()
        invariant
            i <= names.len(),
            forall|j: int| 0 <= j < i ==> cpu_provider(#[trigger] names@[j]@),
        decreases names.len() - i,
    {
        let l = lower_ascii(names[i].as_str());
        let cpu = crate::catalog::eq_str(l.as_str(), "") || crate::catalog::eq_str(l.as_str(), "cpu")
            || crate::catalog::eq_str(l.as_str(), "executionprovider") || crate::catalog::eq_str(
            l.as_str(),
            "cpuexecutionprovider",
        );
        if !cpu {
            let mut m: Vec<char> = Vec::new();
            push_str(&mut m, "provider ");
            let q = debug_quoted(names[i].as_str());
            push_str(&mut m, q.as_str());
            push_str(
                &mut m,
                " nie jest dostępny: nieznany albo niewłączony w tej kompilacji (cechy Cargo: cuda, tensorrt, rocm, migraphx, coreml, directml, openvino)",
            );
            return Err(Error::Config(from_chars(&m)));
        }
        i += 1;
    }
    Ok(())
}

/// The error when ONNX Runtime was already set up from library `have` and `want` is asked for (one library per
/// process); both paths as they are displayed.
pub fn ort_conflict(have: &str, want: &str) -> (r: Error)
    ensures
        r matches Error::Config(m) && m@ == "środowisko ONNX Runtime jest już zainicjowane z "@ + debug_str(have@)
            + " (żądano "@ + debug_str(want@) + "); ORT jest jedno na proces"@,
{
    let mut m: Vec<char> = Vec::new();
    push_str(&mut m, "środowisko ONNX Runtime jest już zainicjowane z ");
    let a = debug_quoted(have);
    push_str(&mut m, a.as_str());
    push_str(&mut m, " (żądano ");
    let b = debug_quoted(want);
    push_str(&mut m, b.as_str());
    push_str(&mut m, "); ORT jest jedno na proces");
    Error::Config(from_chars(&m))
}

/// The error when ONNX Runtime cannot be set up from library `path` (as displayed); `cause` is the reason given.
pub fn ort_init_error(path: &str, cause: &str) -> (r: Error)
    ensures
        r matches Error::Config(m) && m@ == "inicjalizacja ONNX Runtime (biblioteka "@ + debug_str(path@) + "): "@
            + cause@
            + "\nPodaj ścieżkę do libonnxruntime.so przez Config::ort_library albo ORT_LIBRARY_PATH (wymagana wersja >= 1.21)"@,
{
    let mut m: Vec<char> = Vec::new();
    push_str(&mut m, "inicjalizacja ONNX Runtime (biblioteka ");
    let a = debug_quoted(path);
    push_str(&mut m, a.as_str());
    push_str(&mut m, "): ");
    push_str(&mut m, cause);
    push_str(
        &mut m,
        "\nPodaj ścieżkę do libonnxruntime.so przez Config::ort_library albo ORT_LIBRARY_PATH (wymagana wersja >= 1.21)",
    );
    Error::Config(from_chars(&m))
}

/// The names of `want` that `have` lacks, in order.
pub open spec fn missing_of(want: Seq<Seq<char>>, have: Seq<Seq<char>>) -> Seq<Seq<char>>
    decreases want.len(),
{
    if want.len() == 0 {
        Seq::empty()
    } else {
        let m = missing_of(want.drop_last(), have);
        if have.contains(want.last()) {
            m
        } else {
            m.push(want.last())
        }
    }
}

fn missing_names(want: &Vec<String>, have: &Vec<String>) -> (r: Vec<String>)
    ensures
        strs(r@) == missing_of(strs(want@), strs(have@)),
{
    let mut out: Vec<String> = Vec::new();
    let mut i: usize = 0;
    while i < want.len()
        invariant
            i <= want.len(),
            strs(out@) == missing_of(strs(want@).take(i as int), strs(have@)),
        decreases want.len() - i,
    {
        let mut found = false;
        let mut j: usize = 0;
        while j < have.len()
            invariant
                j <= have.len(),
                i < want.len(),
                found <==> exists|q: int| 0 <= q < j && have@[q]@ == want@[i as int]@,
            decreases have.len() - j,
        {
            if crate::catalog::eq_str(have[j].as_str(), want[i].as_str()) {
                found = true;
            }
            j += 1;
        }
        proof {
            let hs = strs(have@);
            if found {
                let q = choose|q: int| 0 <= q < have.len() && have@[q]@ == want@[i as int]@;
                assert(hs[q] == want@[i as int]@);
            } else {
                assert forall|q: int| 0 <= q < hs.len() implies hs[q] != want@[i as int]@ by {
                    assert(hs[q] == have@[q]@);
                }
            }
            assert(strs(want@).take(i + 1).drop_last() =~= strs(want@).take(i as int));
            assert(strs(want@).take(i + 1).last() == want@[i as int]@);
        }
        if !found {
            let ghost before = out@;
            out.push(want[i].clone());
            assert(strs(out@) =~= strs(before).push(want@[i as int]@));
        }
        i += 1;
    }
    assert(strs(want@).take(want.len() as int) =~= strs(want@));
    out
}

/// The inputs (`input_ids`, `style`, `speed`) and outputs (`waveform`) that a loaded model lacks, given the names
/// it has; both empty for a usable model.
pub fn missing_io(have_in: &Vec<String>, have_out: &Vec<String>) -> (r: (Vec<String>, Vec<String>))
    ensures
        strs(r.0@) == missing_of(seq![INPUT_IDS@, INPUT_STYLE@, INPUT_SPEED@], strs(have_in@)),
        strs(r.1@) == missing_of(seq![OUTPUT_WAVEFORM@], strs(have_out@)),
{
    let want_in = vec![INPUT_IDS.to_string(), INPUT_STYLE.to_string(), INPUT_SPEED.to_string()];
    let want_out = vec![OUTPUT_WAVEFORM.to_string()];
    assert(strs(want_in@) =~= seq![INPUT_IDS@, INPUT_STYLE@, INPUT_SPEED@]);
    assert(strs(want_out@) =~= seq![OUTPUT_WAVEFORM@]);
    (missing_names(&want_in, have_in), missing_names(&want_out, have_out))
}

} // verus!
