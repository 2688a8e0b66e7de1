//! The model catalog (`catalog.json`, only the fields in use) and the choice of language, voice, model and tokenizer
//! it allows. Files live in `<root>/<REVISION>/…`.

use vstd::prelude::*;

use crate::chars::{from_chars, join_with, push_str, to_chars};
use crate::error::Error;
use crate::g2p::{debug_quoted, debug_str};

verus! {

pub const REPO_ID: &'static str = "Shusek00/kokoro-kmp-models";

pub const REVISION: &'static str = "v2.1.1";

/// Default speaker (and phonemizer) language.
pub const DEFAULT_LANG: &'static str = "pl";

pub const LANG_ID: &'static str = DEFAULT_LANG;

/// Sample rate of Kokoro-82M.
pub const SAMPLE_RATE: u32 = 24000;

/// Most phonemes in one run (rows of the style matrix).
pub const STYLE_ROWS: usize = 510;

/// Width of one style row.
pub const STYLE_DIM: usize = 256;

pub struct Artifact {
    pub path: String,
}

pub struct Voice {
    pub id: String,
    pub display_name: String,
    pub gender: String,
    pub model_id: String,
    pub artifact: Artifact,
}

/// Text frontend of a language: `status = "bundled"` with `language` (the phonemizer's code), or
/// `"external-required"` (ja, zh).
pub struct TextFrontend {
    pub status: String,
    pub language: String,
}

pub struct Language {
    pub id: String,
    pub default_voice_id: String,
    pub text_frontend: Option<TextFrontend>,
    pub voices: Vec<Voice>,
}

pub struct ModelEntry {
    pub id: String,
    pub tokenizer_id: String,
    pub artifact: Artifact,
}

pub struct Tokenizer {
    pub id: String,
    pub artifact: Artifact,
}

pub struct TokenEncoding {
    pub vocabulary_field: String,
}

pub struct Runtime {
    pub token_encoding: TokenEncoding,
}

pub struct Catalog {
    pub runtime: Runtime,
    pub languages: Vec<Language>,
    pub models: Vec<ModelEntry>,
    pub tokenizers: Vec<Tokenizer>,
}

/// The chosen language and voice and the relative paths of their artifacts.
#[derive(Debug)]
pub struct Resolved {
    pub lang: String,
    pub voice_id: String,
    pub g2p_lang: Option<String>,
    pub voice: String,
    pub model: String,
    pub tokenizer: String,
    pub vocab_field: String,
}

/// A voice of `catalog.json`.
#[derive(Clone, Debug)]
pub struct VoiceInfo {
    /// Speaker language (catalog id, e.g. `pl`, `en-us`).
    pub lang: String,
    /// Voice id (e.g. `pm_mateusz`).
    pub id: String,
    pub display_name: String,
    /// `female` / `male` (as in the catalog; may be empty).
    pub gender: String,
    /// The ONNX model the voice needs.
    pub model_id: String,
    /// Whether this is the language's default voice.
    pub is_default: bool,
    /// Phonemizer language for this speaker language; `None` = no frontend.
    pub g2p_lang: Option<String>,
}

pub open spec fn opt_str(o: Option<String>) -> Option<Seq<char>> {
    match o {
        Some(s) => Some(s@),
        None => None,
    }
}

/// Phonemizer language of a catalog language; `None` when it needs an external frontend (ja, zh). Without a
/// `textFrontend` the language id is taken (old and test catalogs).
pub open spec fn g2p_lang_spec(l: Language) -> Option<Seq<char>> {
    match l.text_frontend {
        None => Some(l.id@),
        Some(t) => if t.status@ == "external-required"@ {
            None
        } else if t.language@.len() > 0 {
            Some(t.language@)
        } else {
            Some(l.id@)
        },
    }
}

pub fn eq_str(a: &str, b: &str) -> (r: bool)
    ensures
        r == (a@ == b@),
{
    let x = to_chars(a);
    let y = to_chars(b);
    if x.len() != y.len() {
        return false;
    }
    let mut i: usize = 0;
    while i < x.len()
        invariant
            i <= x.len() == y.len(),
            x@ == a@,
            y@ == b@,
            x@.take(i as int) == y@.take(i as int),
        decreases x.len() - i,
    {
        if x[i] != y[i] {
            assert(x@[i as int] != y@[i as int]);
            assert(x@ != y@);
            return false;
        }
        i += 1;
        assert(x@.take(i as int) =~= y@.take(i as int));
    }
    assert(x@.take(x.len() as int) =~= x@);
    assert(y@.take(y.len() as int) =~= y@);
    true
}

impl Language {
    pub fn g2p_lang(&self) -> (r: Option<String>)
        ensures
            opt_str(r) == g2p_lang_spec(*self),
    {
        match &self.text_frontend {
            None => Some(self.id.clone()),
            Some(t) => {
                if eq_str(t.status.as_str(), "external-required") {
                    None
                } else if !t.language.as_str().is_empty() {
                    Some(t.language.clone())
                } else {
                    Some(self.id.clone())
                }
            },
        }
    }
}

/// First language from `i` whose id is `want`.
pub open spec fn lang_from(ls: Seq<Language>, want: Seq<char>, i: int) -> Option<int>
    decreases ls.len() - i,
{
    if i < 0 || i >= ls.len() {
        None
    } else if ls[i].id@ == want {
        Some(i)
    } else {
        lang_from(ls, want, i + 1)
    }
}

/// First voice from `i` whose id is `want`.
pub open spec fn voice_from(vs: Seq<Voice>, want: Seq<char>, i: int) -> Option<int>
    decreases vs.len() - i,
{
    if i < 0 || i >= vs.len() {
        None
    } else if vs[i].id@ == want {
        Some(i)
    } else {
        voice_from(vs, want, i + 1)
    }
}

/// First model from `i` whose id is `want`.
pub open spec fn model_from(ms: Seq<ModelEntry>, want: Seq<char>, i: int) -> Option<int>
    decreases ms.len() - i,
{
    if i < 0 || i >= ms.len() {
        None
    } else if ms[i].id@ == want {
        Some(i)
    } else {
        model_from(ms, want, i + 1)
    }
}

/// First tokenizer from `i` whose id is `want`.
pub open spec fn tok_from(ts: Seq<Tokenizer>, want: Seq<char>, i: int) -> Option<int>
    decreases ts.len() - i,
{
    if i < 0 || i >= ts.len() {
        None
    } else if ts[i].id@ == want {
        Some(i)
    } else {
        tok_from(ts, want, i + 1)
    }
}

/// The voice picked in language `l`: the requested one, else the language's default voice, else its first voice.
pub open spec fn pick_voice(l: Language, voice: Option<Seq<char>>) -> Option<int> {
    match voice {
        Some(w) => voice_from(l.voices@, w, 0),
        None => match voice_from(l.voices@, l.default_voice_id@, 0) {
            Some(v) => Some(v),
            None => if l.voices@.len() > 0 {
                Some(0)
            } else {
                None
            },
        },
    }
}

/// The indices (language, voice, model, tokenizer) that a resolution of `lang` and `voice` picks, if all exist.
pub open spec fn pick(c: Catalog, lang: Seq<char>, voice: Option<Seq<char>>) -> Option<(int, int, int, int)> {
    match lang_from(c.languages@, lang, 0) {
        None => None,
        Some(li) => match pick_voice(c.languages@[li], voice) {
            None => None,
            Some(vi) => {
                let v = c.languages@[li].voices@[vi];
                match model_from(c.models@, v.model_id@, 0) {
                    None => None,
                    Some(mi) => match tok_from(c.tokenizers@, c.models@[mi].tokenizer_id@, 0) {
                        None => None,
                        Some(ti) => Some((li, vi, mi, ti)),
                    },
                }
            },
        },
    }
}

/// The ids of the languages, joined by ", ".
pub open spec fn language_list(ls: Seq<Language>) -> Seq<char> {
    join_with(ls.map_values(|l: Language| l.id@), ", "@)
}

/// The ids of the voices, joined by ", ".
pub open spec fn voice_list(vs: Seq<Voice>) -> Seq<char> {
    join_with(vs.map_values(|v: Voice| v.id@), ", "@)
}

/// The first language from `i` that has a voice `want`.
pub open spec fn owner_from(ls: Seq<Language>, want: Seq<char>, i: int) -> Option<int>
    decreases ls.len() - i,
{
    if i < 0 || i >= ls.len() {
        None
    } else if voice_from(ls[i].voices@, want, 0) is Some {
        Some(i)
    } else {
        owner_from(ls, want, i + 1)
    }
}

/// A problem with `catalog.json`, as reported.
pub open spec fn catalog_error(what: Seq<char>) -> Seq<char> {
    "catalog.json ("@ + REVISION@ + "): "@ + what
}

/// Why voice `want` cannot be used in language `l`: the voices it has, and the language that has `want`, if one
/// does.
pub open spec fn missing_voice_message(c: Catalog, l: Language, want: Seq<char>) -> Seq<char> {
    let hint = match owner_from(c.languages@, want, 0) {
        Some(j) => " (głos "@ + debug_str(want) + " należy do języka "@ + debug_str(c.languages@[j].id@)
            + " — ustaw Config::lang / --lang)"@,
        None => Seq::empty(),
    };
    "język "@ + debug_str(l.id@) + " nie ma głosu "@ + debug_str(want) + hint + "; dostępne: "@ + voice_list(
        l.voices@,
    )
}

/// Why the model or the tokenizer of voice `vi` of language `li` is missing.
pub open spec fn missing_model_message(c: Catalog, li: int, vi: int) -> Seq<char> {
    let v = c.languages@[li].voices@[vi];
    match model_from(c.models@, v.model_id@, 0) {
        None => "nie znaleziono modelu "@ + debug_str(v.model_id@),
        Some(mi) => "nie znaleziono tokenizera "@ + debug_str(c.models@[mi].tokenizer_id@),
    }
}

/// The message of a resolution of `lang` and `voice` that fails (the first entry that is missing is named).
pub open spec fn resolve_message(c: Catalog, lang: Seq<char>, voice: Option<Seq<char>>) -> Seq<char> {
    match lang_from(c.languages@, lang, 0) {
        None => "nie znaleziono języka "@ + debug_str(lang) + "; dostępne: "@ + language_list(c.languages@),
        Some(li) => {
            let l = c.languages@[li];
            match pick_voice(l, voice) {
                Some(vi) => missing_model_message(c, li, vi),
                None => match voice {
                    Some(w) => missing_voice_message(c, l, w),
                    None => "język "@ + debug_str(l.id@) + " nie ma głosów"@,
                },
            }
        },
    }
}

/// `r` holds the ids and paths of the entries with indices `ix`.
pub open spec fn resolved_from(c: Catalog, ix: (int, int, int, int), r: Resolved) -> bool {
    let l = c.languages@[ix.0];
    let v = l.voices@[ix.1];
    let m = c.models@[ix.2];
    let t = c.tokenizers@[ix.3];
    &&& r.lang@ == l.id@
    &&& r.voice_id@ == v.id@
    &&& opt_str(r.g2p_lang) == g2p_lang_spec(l)
    &&& r.voice@ == v.artifact.path@
    &&& r.model@ == m.artifact.path@
    &&& r.tokenizer@ == t.artifact.path@
    &&& r.vocab_field@ == c.runtime.token_encoding.vocabulary_field@
}

pub open spec fn opt_str_ref(o: Option<&str>) -> Option<Seq<char>> {
    match o {
        Some(s) => Some(s@),
        None => None,
    }
}

fn push_string(out: &mut Vec<char>, s: &String)
    ensures
        final(out)@ == old(out)@ + s@,
{
    push_str(out, s.as_str());
}

/// `catalog.json (v2.1.1): <what>` as a configuration error.
fn bad(what: &Vec<char>) -> (r: Error)
    ensures
        r matches Error::Config(m) && m@ == catalog_error(what@),
{
    let mut m: Vec<char> = Vec::new();
    push_str(&mut m, "catalog.json (");
    push_str(&mut m, REVISION);
    push_str(&mut m, "): ");
    let w = from_chars(what);
    push_string(&mut m, &w);
    Error::Config(from_chars(&m))
}

fn push_quoted(out: &mut Vec<char>, s: &str)
    ensures
        final(out)@ == old(out)@ + debug_str(s@),
{
    let q = debug_quoted(s);
    push_string(out, &q);
}

/// Appends `x`, after `sep` unless it is the first of a list.
proof fn lemma_join_next(parts: Seq<Seq<char>>, i: int, sep: Seq<char>)
    requires
        0 <= i < parts.len(),
    ensures
        join_with(parts.take(i + 1), sep) == if i == 0 {
            parts[0]
        } else {
            join_with(parts.take(i), sep) + sep + parts[i]
        },
{
    let t = parts.take(i + 1);
    assert(t.drop_last() =~= parts.take(i));
    assert(t.last() == parts[i]);
    if i == 0 {
        assert(t[0] == parts[0]);
    }
}

fn language_ids(ls: &Vec<Language>) -> (r: Vec<char>)
    ensures
        r@ == language_list(ls@),
{
    let ghost ids = ls@.map_values(|l: Language| l.id@);
    let mut out: Vec<char> = Vec::new();
    let mut i: usize = 0;
    while i < ls.len()
        invariant
            i <= ls.len(),
            ids == ls@.map_values(|l: Language| l.id@),
            out@ == join_with(ids.take(i as int), ", "@),
        decreases ls.len() - i,
    {
        proof {
            lemma_join_next(ids, i as int, ", "@);
        }
        if i > 0 {
            push_str(&mut out, ", ");
        }
        push_string(&mut out, &ls[i].id);
        assert(ids[i as int] == ls@[i as int].id@);
        i += 1;
    }
    assert(ids.take(ls.len() as int) =~= ids);
    out
}

fn voice_ids(vs: &Vec<Voice>) -> (r: Vec<char>)
    ensures
        r@ == voice_list(vs@),
{
    let ghost ids = vs@.map_values(|v: Voice| v.id@);
    let mut out: Vec<char> = Vec::new();
    let mut i: usize = 0;
    while i < vs.len()
        invariant
            i <= vs.len(),
            ids == vs@.map_values(|v: Voice| v.id@),
            out@ == join_with(ids.take(i as int), ", "@),
        decreases vs.len() - i,
    {
        proof {
            lemma_join_next(ids, i as int, ", "@);
        }
        if i > 0 {
            push_str(&mut out, ", ");
        }
        push_string(&mut out, &vs[i].id);
        assert(ids[i as int] == vs@[i as int].id@);
        i += 1;
    }
    assert(ids.take(vs.len() as int) =~= ids);
    out
}

fn find_language(ls: &Vec<Language>, want: &str) -> (r: Option<usize>)
    ensures
        r matches Some(i) ==> lang_from(ls@, want@, 0) == Some(i as int) && i < ls.len(),
        r is None ==> lang_from(ls@, want@, 0) is None,
{
    let mut i: usize = 0;
    while i < ls.len()
        invariant
            i <= ls.len(),
            lang_from(ls@, want@, 0) == lang_from(ls@, want@, i as int),
        decreases ls.len() - i,
    {
        if eq_str(ls[i].id.as_str(), want) {
            return Some(i);
        }
        i += 1;
    }
    None
}

fn find_owner(ls: &Vec<Language>, want: &str) -> (r: Option<usize>)
    ensures
        r matches Some(j) ==> owner_from(ls@, want@, 0) == Some(j as int) && j < ls.len(),
        r is None ==> owner_from(ls@, want@, 0) is None,
{
    let mut j: usize = 0;
    while j < ls.len()
        invariant
            j <= ls.len(),
            owner_from(ls@, want@, 0) == owner_from(ls@, want@, j as int),
        decreases ls.len() - j,
    {
        if find_voice(&ls[j].voices, want).is_some() {
            return Some(j);
        }
        j += 1;
    }
    None
}

fn find_voice(vs: &Vec<Voice>, want: &str) -> (r: Option<usize>)
    ensures
        r matches Some(i) ==> voice_from(vs@, want@, 0) == Some(i as int) && i < vs.len(),
        r is None ==> voice_from(vs@, want@, 0) is None,
{
    let mut i: usize = 0;
    while i < vs.len()
        invariant
            i <= vs.len(),
            voice_from(vs@, want@, 0) == voice_from(vs@, want@, i as int),
        decreases vs.len() - i,
    {
        if eq_str(vs[i].id.as_str(), want) {
            return Some(i);
        }
        i += 1;
    }
    None
}

fn find_model(ms: &Vec<ModelEntry>, want: &str) -> (r: Option<usize>)
    ensures
        r matches Some(i) ==> model_from(ms@, want@, 0) == Some(i as int) && i < ms.len(),
        r is None ==> model_from(ms@, want@, 0) is None,
{
    let mut i: usize = 0;
    while i < ms.len()
        invariant
            i <= ms.len(),
            model_from(ms@, want@, 0) == model_from(ms@, want@, i as int),
        decreases ms.len() - i,
    {
        if eq_str(ms[i].id.as_str(), want) {
            return Some(i);
        }
        i += 1;
    }
    None
}

fn find_tokenizer(ts: &Vec<Tokenizer>, want: &str) -> (r: Option<usize>)
    ensures
        r matches Some(i) ==> tok_from(ts@, want@, 0) == Some(i as int) && i < ts.len(),
        r is None ==> tok_from(ts@, want@, 0) is None,
{
    let mut i: usize = 0;
    while i < ts.len()
        invariant
            i <= ts.len(),
            tok_from(ts@, want@, 0) == tok_from(ts@, want@, i as int),
        decreases ts.len() - i,
    {
        if eq_str(ts[i].id.as_str(), want) {
            return Some(i);
        }
        i += 1;
    }
    None
}

impl Catalog {
    /// Speaker language `lang` and voice `voice` (by default the language's `defaultVoiceId`, else its first voice),
    /// the model the voice needs and that model's tokenizer. A missing entry is a `Config` error that lists what is
    /// available.
    pub fn resolve(&self, lang: &str, voice: Option<&str>) -> (r: Result<Resolved, Error>)
        ensures
            r is Ok <==> pick(*self, lang@, opt_str_ref(voice)) is Some,
            r matches Ok(res) ==> resolved_from(*self, pick(*self, lang@, opt_str_ref(voice))->0, res),
            r matches Err(e) ==> (e matches Error::Config(m) && m@ == catalog_error(
                resolve_message(*self, lang@, opt_str_ref(voice)),
            )),
    {
        let li = match find_language(&self.languages, lang) {
            Some(i) => i,
            None => {
                let mut w: Vec<char> = Vec::new();
                push_str(&mut w, "nie znaleziono języka ");
                push_quoted(&mut w, lang);
                push_str(&mut w, "; dostępne: ");
                let ids = language_ids(&self.languages);
                crate::chars::push_all(&mut w, &ids);
                return Err(bad(&w));
            },
        };
        let l = &self.languages[li];
        let vi = match voice {
            Some(want) => match find_voice(&l.voices, want) {
                Some(v) => v,
                None => {
                    let mut w: Vec<char> = Vec::new();
                    push_str(&mut w, "język ");
                    push_quoted(&mut w, l.id.as_str());
                    push_str(&mut w, " nie ma głosu ");
                    push_quoted(&mut w, want);
                    match find_owner(&self.languages, want) {
                        Some(j) => {
                            push_str(&mut w, " (głos ");
                            push_quoted(&mut w, want);
                            push_str(&mut w, " należy do języka ");
                            push_quoted(&mut w, self.languages[j].id.as_str());
                            push_str(&mut w, " — ustaw Config::lang / --lang)");
                        },
                        None => {},
                    }
                    push_str(&mut w, "; dostępne: ");
                    let ids = voice_ids(&l.voices);
                    crate::chars::push_all(&mut w, &ids);
                    return Err(bad(&w));
                },
            },
            None => match find_voice(&l.voices, l.default_voice_id.as_str()) {
                Some(v) => v,
                None => {
                    if l.voices.len() > 0 {
                        0
                    } else {
                        let mut w: Vec<char> = Vec::new();
                        push_str(&mut w, "język ");
                        push_quoted(&mut w, l.id.as_str());
                        push_str(&mut w, " nie ma głosów");
                        return Err(bad(&w));
                    }
                },
            },
        };
        let v = &l.voices[vi];
        let mi = match find_model(&self.models, v.model_id.as_str()) {
            Some(m) => m,
            None => {
                let mut w: Vec<char> = Vec::new();
                push_str(&mut w, "nie znaleziono modelu ");
                push_quoted(&mut w, v.model_id.as_str());
                return Err(bad(&w));
            },
        };
        let m = &self.models[mi];
        let ti = match find_tokenizer(&self.tokenizers, m.tokenizer_id.as_str()) {
            Some(t) => t,
            None => {
                let mut w: Vec<char> = Vec::new();
                push_str(&mut w, "nie znaleziono tokenizera ");
                push_quoted(&mut w, m.tokenizer_id.as_str());
                return Err(bad(&w));
            },
        };
        let t = &self.tokenizers[ti];
        Ok(
            Resolved {
                lang: l.id.clone(),
                voice_id: v.id.clone(),
                g2p_lang: l.g2p_lang(),
                voice: v.artifact.path.clone(),
                model: m.artifact.path.clone(),
                tokenizer: t.artifact.path.clone(),
                vocab_field: self.runtime.token_encoding.vocabulary_field.clone(),
            },
        )
    }

    /// The Polish speaker with its default voice (`DEFAULT_LANG`, no voice requested).
    pub fn resolve_polish(&self) -> (r: Result<Resolved, Error>)
        ensures
            r is Ok <==> pick(*self, DEFAULT_LANG@, None) is Some,
            r matches Ok(res) ==> resolved_from(*self, pick(*self, DEFAULT_LANG@, None)->0, res),
            r matches Err(e) ==> (e matches Error::Config(m) && m@ == catalog_error(
                resolve_message(*self, DEFAULT_LANG@, None),
            )),
    {
        self.resolve(DEFAULT_LANG, None)
    }
}

/// The (language, voice) index pairs of the languages from `i` on, in file order.
pub open spec fn rows_from(ls: Seq<Language>, i: int) -> Seq<(int, int)>
    decreases ls.len() - i,
{
    if i < 0 || i >= ls.len() {
        Seq::empty()
    } else {
        Seq::new(ls[i].voices@.len(), |j: int| (i, j)) + rows_from(ls, i + 1)
    }
}

/// `out[k]` describes the voice at index pair `done[k]`, for every `k`.
pub open spec fn infos_match(ls: Seq<Language>, done: Seq<(int, int)>, out: Seq<VoiceInfo>) -> bool {
    &&& out.len() == done.len()
    &&& forall|k: int|
        0 <= k < out.len() ==> #[trigger] voice_info_of(
            ls,
            done[k].0,
            done[k].1,
            out[k],
        )
}

proof fn lemma_infos_push(
    ls: Seq<Language>,
    done: Seq<(int, int)>,
    out: Seq<VoiceInfo>,
    row: (int, int),
    info: VoiceInfo,
)
    requires
        infos_match(ls, done, out),
        voice_info_of(ls, row.0, row.1, info),
    ensures
        infos_match(ls, done.push(row), out.push(info)),
{
    let d2 = done.push(row);
    let o2 = out.push(info);
    assert forall|k: int| 0 <= k < o2.len() implies #[trigger] voice_info_of(
        ls,
        d2[k].0,
        d2[k].1,
        o2[k],
    ) by {
        if k < out.len() {
            assert(d2[k] == done[k]);
            assert(o2[k] == out[k]);
            assert(voice_info_of(ls, done[k].0, done[k].1, out[k]));
        }
    }
}

/// `r` describes voice `vi` of language `li`.
pub open spec fn voice_info_of(ls: Seq<Language>, li: int, vi: int, r: VoiceInfo) -> bool {
    let l = ls[li];
    let v = l.voices@[vi];
    &&& 0 <= li < ls.len()
    &&& 0 <= vi < l.voices@.len()
    &&& r.lang@ == l.id@
    &&& r.id@ == v.id@
    &&& r.display_name@ == v.display_name@
    &&& r.gender@ == v.gender@
    &&& r.model_id@ == v.model_id@
    &&& r.is_default == (v.id@ == l.default_voice_id@)
    &&& opt_str(r.g2p_lang) == g2p_lang_spec(l)
}

impl Catalog {
    /// All voices of the catalog, in the order of languages and voices in the file.
    pub fn voices(&self) -> (r: Vec<VoiceInfo>)
        ensures
            r.len() == rows_from(self.languages@, 0).len(),
            forall|k: int|
                0 <= k < r.len() ==> voice_info_of(
                    self.languages@,
                    rows_from(self.languages@, 0)[k].0,
                    rows_from(self.languages@, 0)[k].1,
                    #[trigger] r@[k],
                ),
    {
        let ghost ls = self.languages@;
        let mut out: Vec<VoiceInfo> = Vec::new();
        let ghost mut done: Seq<(int, int)> = Seq::empty();
        let mut li: usize = 0;
        assert(rows_from(ls, 0) =~= done + rows_from(ls, 0));
        while li < self.languages.len()
            invariant
                li <= self.languages.len(),
                ls == self.languages@,
                rows_from(ls, 0) == done + rows_from(ls, li as int),
                infos_match(ls, done, out@),
            decreases self.languages.len() - li,
        {
            let l = &self.languages[li];
            let g = l.g2p_lang();
            let mut vj: usize = 0;
            let ghost n = l.voices@.len();
            assert(Seq::new(n, |j: int| (li as int, j)).skip(0) =~= Seq::new(n, |j: int| (li as int, j)));
            while vj < l.voices.len()
                invariant
                    li < self.languages.len(),
                    l == self.languages@[li as int],
                    ls == self.languages@,
                    opt_str(g) == g2p_lang_spec(*l),
                    n == l.voices@.len(),
                    vj <= n,
                    rows_from(ls, 0) == done + Seq::new(n, |j: int| (li as int, j)).skip(vj as int)
                        + rows_from(ls, li + 1),
                    infos_match(ls, done, out@),
                decreases n - vj,
            {
                let v = &l.voices[vj];
                let info = VoiceInfo {
                    lang: l.id.clone(),
                    id: v.id.clone(),
                    display_name: v.display_name.clone(),
                    gender: v.gender.clone(),
                    model_id: v.model_id.clone(),
                    is_default: v.id == l.default_voice_id,
                    g2p_lang: match &g {
                        Some(x) => Some(x.clone()),
                        None => None,
                    },
                };
                let ghost old_done = done;
                let ghost old_out = out@;
                let ghost row = (li as int, vj as int);
                let ghost tail = Seq::new(n, |j: int| (li as int, j));
                assert(tail.skip(vj as int) =~= seq![row] + tail.skip(vj + 1));
                out.push(info);
                proof {
                    done = done.push(row);
                    assert(old_done + tail.skip(vj as int) + rows_from(ls, li + 1) =~= done + tail.skip(
                        vj + 1,
                    ) + rows_from(ls, li + 1));
                    assert(voice_info_of(ls, li as int, vj as int, out@[out.len() - 1]));
                    assert(out@ =~= old_out.push(out@[out.len() - 1]));
                    lemma_infos_push(ls, old_done, old_out, row, out@[out.len() - 1]);
                }
                vj += 1;
            }
            assert(Seq::new(n, |j: int| (li as int, j)).skip(n as int) =~= Seq::<(int, int)>::empty());
            assert(done + Seq::<(int, int)>::empty() + rows_from(ls, li + 1) =~= done + rows_from(ls, li + 1));
            li += 1;
        }
        assert(done + rows_from(ls, li as int) =~= done);
        out
    }
}

/// The vocabulary read from the tokenizer's entries from `i` on, added to `m`: single-character keys map their
/// character (by code point) to the id, longer keys are skipped (text is encoded character by character), and a
/// single-character key without an integer id makes the whole vocabulary invalid.
pub open spec fn vocab_from(es: Seq<(String, Option<i64>)>, i: int, m: Map<u32, i64>) -> Option<Map<u32, i64>>
    decreases es.len() - i,
{
    if i < 0 || i >= es.len() {
        Some(m)
    } else if es[i].0@.len() == 1 {
        match es[i].1 {
            Some(id) => vocab_from(es, i + 1, m.insert(es[i].0@[0] as u32, id)),
            None => None,
        }
    } else {
        vocab_from(es, i + 1, m)
    }
}

/// The first entry from `i` with a single-character key and no integer id.
pub open spec fn first_bad(es: Seq<(String, Option<i64>)>, i: int) -> Option<int>
    decreases es.len() - i,
{
    if i < 0 || i >= es.len() {
        None
    } else if es[i].0@.len() == 1 && es[i].1 is None {
        Some(i)
    } else {
        first_bad(es, i + 1)
    }
}

proof fn lemma_vocab_fails(es: Seq<(String, Option<i64>)>, i: int, m: Map<u32, i64>)
    requires
        0 <= i,
    ensures
        vocab_from(es, i, m) is None <==> first_bad(es, i) is Some,
    decreases es.len() - i,
{
    if i < es.len() {
        if es[i].0@.len() == 1 {
            match es[i].1 {
                Some(id) => lemma_vocab_fails(es, i + 1, m.insert(es[i].0@[0] as u32, id)),
                None => {},
            }
        } else {
            lemma_vocab_fails(es, i + 1, m);
        }
    }
}

/// Builds Kokoro's vocabulary `{character: id}` from the entries of the tokenizer file (key, and the id when it is
/// an integer), in file order; `tokenizer` names the file in the error message.
pub fn build_vocab(entries: &Vec<(String, Option<i64>)>, tokenizer: &str) -> (r: Result<
    std::collections::HashMap<u32, i64>,
    Error,
>)
    ensures
        match vocab_from(entries@, 0, Map::empty()) {
            Some(m) => (r matches Ok(v) && v@ == m),
            None => (r matches Err(Error::Json(msg)) && msg@ == tokenizer@ + ": id znaku "@ + debug_str(
                entries@[first_bad(entries@, 0)->0].0@,
            ) + " nie jest liczbą całkowitą"@),
        },
{
    broadcast use vstd::std_specs::hash::group_hash_axioms;

    let mut vocab: std::collections::HashMap<u32, i64> = std::collections::HashMap::new();
    let mut i: usize = 0;
    while i < entries.len()
        invariant
            i <= entries.len(),
            vocab_from(entries@, 0, Map::empty()) == vocab_from(entries@, i as int, vocab@),
            first_bad(entries@, 0) == first_bad(entries@, i as int),
        decreases entries.len() - i,
    {
        let k = to_chars(entries[i].0.as_str());
        if k.len() == 1 {
            match entries[i].1 {
                Some(id) => {
                    vocab.insert(k[0] as u32, id);
                },
                None => {
                    proof {
                        lemma_vocab_fails(entries@, 0, Map::empty());
                    }
                    let mut m: Vec<char> = Vec::new();
                    push_str(&mut m, tokenizer);
                    push_str(&mut m, ": id znaku ");
                    push_quoted(&mut m, entries[i].0.as_str());
                    push_str(&mut m, " nie jest liczbą całkowitą");
                    return Err(Error::Json(from_chars(&m)));
                },
            }
        }
        i += 1;
    }
    Ok(vocab)
}

proof fn lemma_lang_from_found(ls: Seq<Language>, want: Seq<char>, i: int)
    requires
        0 <= i,
    ensures
        lang_from(ls, want, i) matches Some(li) ==> i <= li < ls.len() && ls[li].id@ == want,
    decreases ls.len() - i,
{
    if i < ls.len() && ls[i].id@ != want {
        lemma_lang_from_found(ls, want, i + 1);
    }
}

/// The phonemizer language of a resolution. The resolved language is the one asked for. Its text frontend decides
/// the phonemizer language: a bundled frontend with a language code gives that code (`pt-br` -> `pt`), not the
/// speaker-language id; an external frontend gives none; a bundled frontend without a code, or no frontend at all,
/// gives the speaker-language id.
pub proof fn lemma_resolved_g2p_lang(c: Catalog, lang: Seq<char>, voice: Option<Seq<char>>, res: Resolved)
    requires
        pick(c, lang, voice) is Some,
        resolved_from(c, pick(c, lang, voice).unwrap(), res),
    ensures
        res.lang@ == lang,
        c.languages@[pick(c, lang, voice).unwrap().0].text_frontend is None ==> opt_str(res.g2p_lang) == Some(lang),
        c.languages@[pick(c, lang, voice).unwrap().0].text_frontend matches Some(t) ==> {
            &&& t.status@ == "external-required"@ ==> res.g2p_lang is None
            &&& t.status@ != "external-required"@ && t.language@.len() > 0 ==> opt_str(res.g2p_lang) == Some(
                t.language@,
            )
            &&& t.status@ != "external-required"@ && t.language@.len() == 0 ==> opt_str(res.g2p_lang) == Some(lang)
        },
{
    lemma_lang_from_found(c.languages@, lang, 0);
}

} // verus!
