//! The phonemizer's answers, kept by piece of text so that a piece is phonemized once.

use vstd::prelude::*;

use crate::chars::{from_chars, to_chars};
use crate::text::strs;

verus! {

/// How many answers are kept before the cache starts over (a guard against unbounded growth in a long-lived
/// process).
pub const MAX_CACHE_ENTRIES: usize = 20000;

/// Answers by piece of text. It behaves as a map from the piece to its IPA.
pub struct PieceCache {
    entries: Vec<(Vec<char>, Vec<char>)>,
}

/// The pieces of the entries.
pub open spec fn keys_of(es: Seq<(Vec<char>, Vec<char>)>) -> Seq<Seq<char>> {
    es.map_values(|e: (Vec<char>, Vec<char>)| e.0@)
}

/// The answers of the entries.
pub open spec fn vals_of(es: Seq<(Vec<char>, Vec<char>)>) -> Seq<Seq<char>> {
    es.map_values(|e: (Vec<char>, Vec<char>)| e.1@)
}

/// The map that the first `n` entries make, a later entry replacing an earlier one with the same key.
pub open spec fn map_of(keys: Seq<Seq<char>>, vals: Seq<Seq<char>>, n: int) -> Map<Seq<char>, Seq<char>>
    decreases n,
{
    if n <= 0 {
        Map::empty()
    } else {
        map_of(keys, vals, n - 1).insert(keys[n - 1], vals[n - 1])
    }
}

/// The answer kept for `piece`, or nothing (an empty string) when there is none.
pub open spec fn answer(m: Map<Seq<char>, Seq<char>>, piece: Seq<char>) -> Seq<char> {
    if m.dom().contains(piece) {
        m[piece]
    } else {
        Seq::empty()
    }
}

/// The pieces that still need an answer: those without one in `m`, each taken once, in the order of first
/// appearance.
pub open spec fn todo_of(m: Map<Seq<char>, Seq<char>>, pieces: Seq<Seq<char>>) -> Seq<Seq<char>>
    decreases pieces.len(),
{
    if pieces.len() == 0 {
        Seq::empty()
    } else {
        let t = todo_of(m, pieces.drop_last());
        let p = pieces.last();
        if m.dom().contains(p) || t.contains(p) {
            t
        } else {
            t.push(p)
        }
    }
}

/// `m` with the first `n` pairs of `todo` and `raw` inserted.
pub open spec fn insert_pairs(
    m: Map<Seq<char>, Seq<char>>,
    todo: Seq<Seq<char>>,
    raw: Seq<Seq<char>>,
    n: int,
) -> Map<Seq<char>, Seq<char>>
    decreases n,
{
    if n <= 0 {
        m
    } else {
        insert_pairs(m, todo, raw, n - 1).insert(todo[n - 1], raw[n - 1])
    }
}

/// The cache after the answers `raw` for `todo` are stored: pieces and answers are paired in order (as far as the
/// shorter list goes); when the cache would then hold more than `MAX_CACHE_ENTRIES` entries it is emptied first.
pub open spec fn stored(m: Map<Seq<char>, Seq<char>>, todo: Seq<Seq<char>>, raw: Seq<Seq<char>>) -> Map<
    Seq<char>,
    Seq<char>,
> {
    let base = if m.len() + todo.len() > MAX_CACHE_ENTRIES {
        Map::empty()
    } else {
        m
    };
    let n = if todo.len() <= raw.len() {
        todo.len()
    } else {
        raw.len()
    };
    insert_pairs(base, todo, raw, n as int)
}

/// No two of the first `n` keys are equal.
pub open spec fn distinct_keys(keys: Seq<Seq<char>>, n: int) -> bool {
    forall|i: int, j: int| 0 <= i < j < n ==> keys[i] != keys[j]
}

proof fn lemma_map_of(keys: Seq<Seq<char>>, vals: Seq<Seq<char>>, n: int)
    requires
        0 <= n <= keys.len(),
        n <= vals.len(),
        distinct_keys(keys, n),
    ensures
        map_of(keys, vals, n).dom().finite(),
        map_of(keys, vals, n).len() == n,
        forall|k: Seq<char>| #[trigger]
            map_of(keys, vals, n).dom().contains(k) <==> exists|i: int| 0 <= i < n && keys[i] == k,
        forall|i: int| 0 <= i < n ==> #[trigger] map_of(keys, vals, n)[keys[i]] == vals[i],
    decreases n,
{
    if n > 0 {
        lemma_map_of(keys, vals, n - 1);
        let m = map_of(keys, vals, n - 1);
        assert(!m.dom().contains(keys[n - 1]));
        assert(m.insert(keys[n - 1], vals[n - 1]).dom() == m.dom().insert(keys[n - 1]));
        assert forall|k: Seq<char>| #[trigger]
            map_of(keys, vals, n).dom().contains(k) <==> exists|i: int| 0 <= i < n && keys[i] == k by {
            if k == keys[n - 1] {
                assert(keys[n - 1] == k);
            } else if m.dom().contains(k) {
                let i = choose|i: int| 0 <= i < n - 1 && keys[i] == k;
                assert(0 <= i < n && keys[i] == k);
            }
        }
    } else {
        assert(map_of(keys, vals, n).dom() =~= Set::empty());
    }
}

impl View for PieceCache {
    type V = Map<Seq<char>, Seq<char>>;

    closed spec fn view(&self) -> Map<Seq<char>, Seq<char>> {
        map_of(keys_of(self.entries@), vals_of(self.entries@), self.entries.len() as int)
    }
}

impl PieceCache {
    /// No piece is kept twice.
    #[verifier::type_invariant]
    closed spec fn wf(&self) -> bool {
        distinct_keys(keys_of(self.entries@), self.entries.len() as int)
    }

    proof fn lemma_view(&self)
        requires
            self.wf(),
        ensures
            self@.dom().finite(),
            self@.len() == self.entries.len(),
            forall|k: Seq<char>| #[trigger]
                self@.dom().contains(k) <==> exists|i: int| 0 <= i < self.entries.len() && self.entries@[i].0@ == k,
            forall|i: int| 0 <= i < self.entries.len() ==> #[trigger] self@[self.entries@[i].0@]
                == self.entries@[i].1@,
    {
        let ks = keys_of(self.entries@);
        let vs = vals_of(self.entries@);
        lemma_map_of(ks, vs, self.entries.len() as int);
        assert forall|k: Seq<char>| #[trigger]
            self@.dom().contains(k) <==> exists|i: int| 0 <= i < self.entries.len() && self.entries@[i].0@ == k by {
            if self@.dom().contains(k) {
                let i = choose|i: int| 0 <= i < self.entries.len() && ks[i] == k;
                assert(self.entries@[i].0@ == k);
            }
            if exists|i: int| 0 <= i < self.entries.len() && self.entries@[i].0@ == k {
                let i = choose|i: int| 0 <= i < self.entries.len() && self.entries@[i].0@ == k;
                assert(ks[i] == k);
            }
        }
        assert forall|i: int| 0 <= i < self.entries.len() implies #[trigger] self@[self.entries@[i].0@]
            == self.entries@[i].1@ by {
            assert(ks[i] == self.entries@[i].0@);
            assert(vs[i] == self.entries@[i].1@);
        }
    }

    /// An empty cache.
    pub fn new() -> (r: PieceCache)
        ensures
            r@ == Map::<Seq<char>, Seq<char>>::empty(),
    {
        let r = PieceCache { entries: Vec::new() };
        assert(r@ =~= Map::<Seq<char>, Seq<char>>::empty());
        r
    }

    /// How many pieces have an answer.
    pub fn len(&self) -> (r: usize)
        ensures
            r == self@.len(),
    {
        proof {
            use_type_invariant(self);
            self.lemma_view();
        }
        self.entries.len()
    }

    /// Where `piece` is kept, if it is.
    fn position(&self, piece: &Vec<char>) -> (r: Option<usize>)
        ensures
            match r {
                Some(i) => i < self.entries.len() && self.entries@[i as int].0@ == piece@,
                None => !self@.dom().contains(piece@),
            },
    {
        proof {
            use_type_invariant(self);
            self.lemma_view();
        }
        let mut i: usize = 0;
        while i < self.entries.len()
            invariant
                i <= self.entries.len(),
                forall|j: int| 0 <= j < i ==> self.entries@[j].0@ != piece@,
            decreases self.entries.len() - i,
        {
            if same_chars(&self.entries[i].0, piece) {
                return Some(i);
            }
            i += 1;
        }
        None
    }

    /// The answer kept for `piece`, or an empty string when there is none.
    pub fn get(&self, piece: &str) -> (r: String)
        ensures
            r@ == answer(self@, piece@),
    {
        proof {
            use_type_invariant(self);
            self.lemma_view();
        }
        let p = to_chars(piece);
        match self.position(&p) {
            Some(i) => from_chars(&self.entries[i].1),
            None => String::new(),
        }
    }

    /// Keeps `ipa` as the answer for `piece`, replacing an earlier one.
    pub fn insert(&mut self, piece: Vec<char>, ipa: Vec<char>)
        ensures
            final(self)@ == old(self)@.insert(piece@, ipa@),
    {
        proof {
            use_type_invariant(&*self);
            self.lemma_view();
        }
        let ghost es0 = self.entries@;
        let ghost ks0 = keys_of(es0);
        let ghost vs0 = vals_of(es0);
        let ghost old_map = self@;
        let pos = self.position(&piece);
        let mut es: Vec<(Vec<char>, Vec<char>)> = Vec::new();
        std::mem::swap(&mut es, &mut self.entries);
        assert(es@ == es0);
        match pos {
            Some(i) => {
                let ghost pv = piece@;
                proof {
                    let ks1 = keys_of(es0.update(i as int, (piece, ipa)));
                    assert(ks1 =~= ks0);
                }
                es.set(i, (piece, ipa));
                self.entries = es;
                proof {
                    let ks = keys_of(self.entries@);
                    let vs = vals_of(self.entries@);
                    assert(ks =~= ks0);
                    lemma_map_of(ks, vs, self.entries.len() as int);
                    lemma_map_of(ks0, vs0, self.entries.len() as int);
                    assert forall|k: Seq<char>| #[trigger] self@.dom().contains(k) <==> old_map.insert(
                        pv,
                        ipa@,
                    ).dom().contains(k) by {
                        if k == pv {
                            assert(ks[i as int] == k);
                        }
                    }
                    assert forall|k: Seq<char>| #[trigger] self@.dom().contains(k) implies self@[k]
                        == old_map.insert(pv, ipa@)[k] by {
                        let j = choose|j: int| 0 <= j < self.entries.len() && ks[j] == k;
                        if j == i {
                            assert(vs[j] == ipa@);
                        } else {
                            assert(ks[i as int] == pv);
                            if j < i {
                                assert(ks[j] != ks[i as int]);
                            } else {
                                assert(ks[i as int] != ks[j]);
                            }
                            assert(vs[j] == vs0[j]);
                        }
                    }
                    assert(self@ =~= old_map.insert(pv, ipa@));
                }
            },
            None => {
                let ghost pv = piece@;
                let ghost iv = ipa@;
                proof {
                    let n = es0.len() as int;
                    let es1 = es0.push((piece, ipa));
                    let ks1 = keys_of(es1);
                    assert forall|a: int, b: int| 0 <= a < b < n + 1 implies ks1[a] != ks1[b] by {
                        if b == n {
                            assert(ks1[a] == ks0[a]);
                            lemma_map_of(ks0, vs0, n);
                            assert(old_map.dom().contains(ks0[a]));
                        } else {
                            assert(ks1[a] == ks0[a]);
                            assert(ks1[b] == ks0[b]);
                        }
                    }
                }
                es.push((piece, ipa));
                self.entries = es;
                proof {
                    let ks = keys_of(self.entries@);
                    let vs = vals_of(self.entries@);
                    let n = self.entries.len() as int;
                    assert(forall|j: int| 0 <= j < n - 1 ==> ks[j] == ks0[j]);
                    assert(forall|j: int| 0 <= j < n - 1 ==> vs[j] == vs0[j]);
                    assert(ks[n - 1] == pv);
                    assert(vs[n - 1] == iv);
                    lemma_map_of_prefix(ks, vs, ks0, vs0, n - 1);
                }
            },
        }
    }

    /// The pieces of `pieces` that have no answer yet, each once, in order of first appearance.
    pub fn missing(&self, pieces: &Vec<String>) -> (r: Vec<String>)
        ensures
            strs(r@) == todo_of(self@, strs(pieces@)),
    {
        proof {
            use_type_invariant(self);
        }
        let mut out: Vec<String> = Vec::new();
        let mut outc: Vec<Vec<char>> = Vec::new();
        let mut i: usize = 0;
        while i < pieces.len()
            invariant
                i <= pieces.len(),
                self.wf(),
                outc.len() == out.len(),
                forall|j: int| 0 <= j < outc.len() ==> (#[trigger] outc@[j])@ == out@[j]@,
                strs(out@) == todo_of(self@, strs(pieces@).take(i as int)),
            decreases pieces.len() - i,
        {
            let p = to_chars(pieces[i].as_str());
            let ghost ps = strs(pieces@);
            assert(ps.take(i + 1).drop_last() =~= ps.take(i as int));
            assert(ps.take(i + 1).last() == p@);
            let known = match self.position(&p) {
                Some(_) => true,
                None => false,
            };
            proof {
                self.lemma_view();
            }
            let mut seen = false;
            let mut j: usize = 0;
            while j < outc.len()
                invariant
                    j <= outc.len() == out.len(),
                    forall|q: int| 0 <= q < outc.len() ==> (#[trigger] outc@[q])@ == out@[q]@,
                    seen <==> exists|q: int| 0 <= q < j && out@[q]@ == p@,
                decreases outc.len() - j,
            {
                if same_chars(&outc[j], &p) {
                    seen = true;
                }
                j += 1;
            }
            proof {
                let t = strs(out@);
                if seen {
                    let q = choose|q: int| 0 <= q < out.len() && out@[q]@ == p@;
                    assert(t[q] == p@);
                } else {
                    assert forall|q: int| 0 <= q < t.len() implies t[q] != p@ by {
                        assert(t[q] == out@[q]@);
                    }
                }
                assert(t.contains(p@) <==> seen);
            }
            if !known && !seen {
                let ghost before = out@;
                out.push(pieces[i].clone());
                outc.push(p);
                assert(strs(out@) =~= strs(before).push(p@));
            }
            i += 1;
        }
        assert(strs(pieces@).take(pieces.len() as int) =~= strs(pieces@));
        out
    }

    /// Stores the answers `raw` for the pieces `todo`, pairing them in order; when the cache would grow past
    /// `MAX_CACHE_ENTRIES` it is emptied first.
    pub fn store(&mut self, todo: &Vec<String>, raw: &Vec<String>)
        ensures
            final(self)@ == stored(old(self)@, strs(todo@), strs(raw@)),
    {
        proof {
            use_type_invariant(&*self);
            self.lemma_view();
        }
        let n = self.entries.len();
        if n > MAX_CACHE_ENTRIES || todo.len() > MAX_CACHE_ENTRIES - n {
            self.entries = Vec::new();
            assert(self@ =~= Map::<Seq<char>, Seq<char>>::empty());
        }
        let ghost base = self@;
        let m = if todo.len() <= raw.len() {
            todo.len()
        } else {
            raw.len()
        };
        let mut i: usize = 0;
        while i < m
            invariant
                i <= m <= todo.len(),
                m <= raw.len(),
                self@ == insert_pairs(base, strs(todo@), strs(raw@), i as int),
            decreases m - i,
        {
            let k = to_chars(todo[i].as_str());
            let v = to_chars(raw[i].as_str());
            self.insert(k, v);
            i += 1;
        }
    }
}

proof fn lemma_map_of_prefix(
    ks: Seq<Seq<char>>,
    vs: Seq<Seq<char>>,
    ks0: Seq<Seq<char>>,
    vs0: Seq<Seq<char>>,
    n: int,
)
    requires
        0 <= n,
        n <= ks0.len(),
        n <= vs0.len(),
        n < ks.len(),
        n < vs.len(),
        forall|j: int| 0 <= j < n ==> ks[j] == ks0[j],
        forall|j: int| 0 <= j < n ==> vs[j] == vs0[j],
    ensures
        map_of(ks, vs, n) == map_of(ks0, vs0, n),
    decreases n,
{
    if n > 0 {
        lemma_map_of_prefix(ks, vs, ks0, vs0, n - 1);
    }
}

/// Whether two character vectors are equal.
fn same_chars(a: &Vec<char>, b: &Vec<char>) -> (r: bool)
    ensures
        r == (a@ == b@),
{
    if a.len() != b.len() {
        return false;
    }
    let mut i: usize = 0;
    while i < a.len()
        invariant
            i <= a.len() == b.len(),
            a@.take(i as int) == b@.take(i as int),
        decreases a.len() - i,
    {
        if a[i] != b[i] {
            assert(a@.take(i as int + 1)[i as int] == a@[i as int]);
            assert(b@.take(i as int + 1)[i as int] == b@[i as int]);
            return false;
        }
        assert(a@.take(i + 1) =~= a@.take(i as int).push(a@[i as int]));
        assert(b@.take(i + 1) =~= b@.take(i as int).push(b@[i as int]));
        i += 1;
    }
    assert(a@.take(a.len() as int) =~= a@);
    assert(b@.take(b.len() as int) =~= b@);
    true
}

/// What is read back for a piece after answers are stored: for pieces given once, the answer stored with it.
pub proof fn lemma_read_after_store(m: Map<Seq<char>, Seq<char>>, todo: Seq<Seq<char>>, raw: Seq<Seq<char>>, i: int)
    requires
        0 <= i < todo.len(),
        i < raw.len(),
        forall|a: int, b: int| 0 <= a < b < todo.len() ==> todo[a] != todo[b],
    ensures
        answer(stored(m, todo, raw), todo[i]) == raw[i],
{
    let base = if m.len() + todo.len() > MAX_CACHE_ENTRIES {
        Map::empty()
    } else {
        m
    };
    let n = if todo.len() <= raw.len() {
        todo.len()
    } else {
        raw.len()
    };
    lemma_insert_pairs_keeps(base, todo, raw, n as int, i);
}

proof fn lemma_insert_pairs_keeps(
    m: Map<Seq<char>, Seq<char>>,
    todo: Seq<Seq<char>>,
    raw: Seq<Seq<char>>,
    n: int,
    i: int,
)
    requires
        0 <= i < n <= todo.len(),
        n <= raw.len(),
        forall|a: int, b: int| 0 <= a < b < todo.len() ==> todo[a] != todo[b],
    ensures
        insert_pairs(m, todo, raw, n).dom().contains(todo[i]),
        insert_pairs(m, todo, raw, n)[todo[i]] == raw[i],
    decreases n,
{
    if i < n - 1 {
        lemma_insert_pairs_keeps(m, todo, raw, n - 1, i);
        assert(todo[n - 1] != todo[i]);
    }
}

/// What the backend is asked for: no piece twice, no piece that already has an answer, and every piece that has none.
pub proof fn lemma_todo_props(m: Map<Seq<char>, Seq<char>>, pieces: Seq<Seq<char>>)
    ensures
        forall|a: int, b: int|
            0 <= a < b < todo_of(m, pieces).len() ==> todo_of(m, pieces)[a] != todo_of(m, pieces)[b],
        forall|k: int| 0 <= k < todo_of(m, pieces).len() ==> !m.dom().contains(#[trigger] todo_of(m, pieces)[k]),
        forall|k: int|
            0 <= k < pieces.len() ==> m.dom().contains(#[trigger] pieces[k]) || todo_of(m, pieces).contains(
                pieces[k],
            ),
    decreases pieces.len(),
{
    if pieces.len() > 0 {
        let init = pieces.drop_last();
        lemma_todo_props(m, init);
        let t = todo_of(m, init);
        let p = pieces.last();
        assert forall|k: int| 0 <= k < pieces.len() implies m.dom().contains(#[trigger] pieces[k]) || todo_of(
            m,
            pieces,
        ).contains(pieces[k]) by {
            if k < pieces.len() - 1 {
                assert(pieces[k] == init[k]);
                if t.contains(pieces[k]) {
                    let j = choose|j: int| 0 <= j < t.len() && t[j] == pieces[k];
                    if !(m.dom().contains(p) || t.contains(p)) {
                        assert(t.push(p)[j] == pieces[k]);
                    }
                }
            } else {
                if !(m.dom().contains(p) || t.contains(p)) {
                    assert(t.push(p)[t.len() as int] == p);
                }
            }
        }
        if !(m.dom().contains(p) || t.contains(p)) {
            let r = t.push(p);
            assert forall|a: int, b: int| 0 <= a < b < r.len() implies r[a] != r[b] by {
                if b == t.len() {
                    assert(r[a] == t[a]);
                }
            }
        }
    }
}

proof fn lemma_insert_pairs_dom(m: Map<Seq<char>, Seq<char>>, todo: Seq<Seq<char>>, raw: Seq<Seq<char>>, n: int)
    requires
        0 <= n <= todo.len(),
    ensures
        forall|k: Seq<char>| m.dom().contains(k) ==> #[trigger] insert_pairs(m, todo, raw, n).dom().contains(k),
        forall|i: int| 0 <= i < n ==> insert_pairs(m, todo, raw, n).dom().contains(#[trigger] todo[i]),
    decreases n,
{
    if n > 0 {
        lemma_insert_pairs_dom(m, todo, raw, n - 1);
        assert forall|k: Seq<char>| m.dom().contains(k) implies #[trigger] insert_pairs(
            m,
            todo,
            raw,
            n,
        ).dom().contains(k) by {
            assert(insert_pairs(m, todo, raw, n - 1).dom().contains(k));
        }
    }
}

proof fn lemma_todo_empty(m: Map<Seq<char>, Seq<char>>, pieces: Seq<Seq<char>>)
    requires
        forall|k: int| 0 <= k < pieces.len() ==> m.dom().contains(#[trigger] pieces[k]),
    ensures
        todo_of(m, pieces).len() == 0,
    decreases pieces.len(),
{
    if pieces.len() > 0 {
        let init = pieces.drop_last();
        assert forall|k: int| 0 <= k < init.len() implies m.dom().contains(#[trigger] init[k]) by {
            assert(init[k] == pieces[k]);
        }
        lemma_todo_empty(m, init);
        assert(m.dom().contains(pieces[pieces.len() - 1]));
    }
}

/// A piece is asked for once: once the answers for the missing pieces are stored (all of them, and without the cache
/// starting over), none of the same pieces is missing any more.
pub proof fn lemma_asked_once(m: Map<Seq<char>, Seq<char>>, pieces: Seq<Seq<char>>, raw: Seq<Seq<char>>)
    requires
        m.dom().finite(),
        raw.len() >= todo_of(m, pieces).len(),
        m.len() + todo_of(m, pieces).len() <= MAX_CACHE_ENTRIES,
    ensures
        todo_of(stored(m, todo_of(m, pieces), raw), pieces).len() == 0,
{
    let todo = todo_of(m, pieces);
    lemma_todo_props(m, pieces);
    let after = stored(m, todo, raw);
    lemma_insert_pairs_dom(m, todo, raw, todo.len() as int);
    assert forall|k: int| 0 <= k < pieces.len() implies after.dom().contains(#[trigger] pieces[k]) by {
        if m.dom().contains(pieces[k]) {
        } else {
            assert(todo.contains(pieces[k]));
            let j = choose|j: int| 0 <= j < todo.len() && todo[j] == pieces[k];
            assert(after.dom().contains(todo[j]));
        }
    }
    lemma_todo_empty(after, pieces);
}

/// The pieces that are still missing are distinct and have no answer yet, so every one of them reads back the
/// answer stored with it.
pub proof fn lemma_missing_read_back(m: Map<Seq<char>, Seq<char>>, pieces: Seq<Seq<char>>, raw: Seq<Seq<char>>, i: int)
    requires
        0 <= i < todo_of(m, pieces).len(),
        i < raw.len(),
    ensures
        answer(stored(m, todo_of(m, pieces), raw), todo_of(m, pieces)[i]) == raw[i],
{
    lemma_todo_props(m, pieces);
    lemma_read_after_store(m, todo_of(m, pieces), raw, i);
}

/// Every piece that is still missing is one of the pieces asked about.
pub proof fn lemma_todo_from_pieces(m: Map<Seq<char>, Seq<char>>, pieces: Seq<Seq<char>>)
    ensures
        forall|k: int| 0 <= k < todo_of(m, pieces).len() ==> pieces.contains(#[trigger] todo_of(m, pieces)[k]),
    decreases pieces.len(),
{
    if pieces.len() > 0 {
        let init = pieces.drop_last();
        lemma_todo_from_pieces(m, init);
        let t = todo_of(m, init);
        let r = todo_of(m, pieces);
        assert forall|k: int| 0 <= k < r.len() implies pieces.contains(#[trigger] r[k]) by {
            if k < t.len() {
                assert(r[k] == t[k]);
                assert(init.contains(t[k]));
                let j = choose|j: int| 0 <= j < init.len() && init[j] == t[k];
                assert(pieces[j] == init[j]);
            } else {
                assert(r[k] == pieces.last());
                assert(pieces[pieces.len() - 1] == pieces.last());
            }
        }
    }
}

/// Once answers for all of `todo` are stored without the cache starting over, every piece of `todo` has one.
pub proof fn lemma_stored_has_todo(m: Map<Seq<char>, Seq<char>>, todo: Seq<Seq<char>>, raw: Seq<Seq<char>>)
    requires
        raw.len() >= todo.len(),
        m.len() + todo.len() <= MAX_CACHE_ENTRIES,
    ensures
        forall|i: int| 0 <= i < todo.len() ==> stored(m, todo, raw).dom().contains(#[trigger] todo[i]),
{
    lemma_insert_pairs_dom(m, todo, raw, todo.len() as int);
}

} // verus!
