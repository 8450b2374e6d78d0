//! The first-order transition model and the stochastic walk over it.
//!
//! Training makes one left-to-right pass over the token sequence: each
//! adjacent pair `(prev, curr)` appends `curr` to the successor collection
//! keyed by `prev`. Successor collections are deliberately not deduplicated:
//! a successor observed `K` times appears `K` times, so a uniform draw over
//! the collection reproduces the observed transition frequency. Every key
//! has a non-empty successor collection, which makes dead-end recovery during
//! a walk terminate.
use vstd::prelude::*;

use crate::TrainingError;
use crate::rng::Randomness;
use crate::text::{strip_tags_spec, tokenize_spec, tokenize_text, html_tokens};

verus! {

/// How one corpus source is to be tokenized.
#[derive(Clone, Copy, PartialEq, Eq, Structural, Debug)]
pub enum DocKind {
    /// Markup: the tags are stripped and the visible text is tokenized.
    Html,
    /// Plain text: tokenized as it is.
    Text,
}

/// One readable source of the training corpus, with its contents already
/// read; the caller walks the corpus tree and skips what it cannot read.
pub struct TrainingDoc {
    pub kind: DocKind,
    pub contents: String,
}

/// The tokens one source contributes to the corpus.
pub open spec fn doc_tokens(d: TrainingDoc) -> Seq<Seq<char>> {
    match d.kind {
        DocKind::Html => tokenize_spec(strip_tags_spec(d.contents@)),
        DocKind::Text => tokenize_spec(d.contents@),
    }
}

/// The ordered token sequence of a whole corpus: the sources' tokens, in
/// order.
pub open spec fn corpus_tokens(ds: Seq<TrainingDoc>) -> Seq<Seq<char>>
    decreases ds.len(),
{
    if ds.len() == 0 {
        Seq::<Seq<char>>::empty()
    } else {
        doc_tokens(ds[0]) + corpus_tokens(ds.skip(1))
    }
}

/// Train a model from a corpus of already-read sources. A corpus that
/// yields fewer than two tokens cannot form a transition and is rejected,
/// never turned into an unusable empty model.
pub fn train(docs: Vec<TrainingDoc>) -> (r: Result<MarkovIterator, TrainingError>)
    ensures
        r is Err <==> corpus_tokens(docs@).len() < 2,
        r is Err ==> r == Result::<MarkovIterator, TrainingError>::Err(TrainingError::TooFewTokens),
        r matches Ok(m) ==> {
            &&& m.wf()
            &&& m.can_walk()
            &&& m.keys_view() == build_chain(corpus_tokens(docs@)).0
            &&& m.succs_view() == build_chain(corpus_tokens(docs@)).1
            &&& m.current_view() is None
        },
{
    let mut tokens: Vec<String> = Vec::new();
    let mut i: usize = 0;
    proof {
        assert(docs@.skip(0) =~= docs@);
        assert(views_of(tokens@) + corpus_tokens(docs@) =~= corpus_tokens(docs@));
    }
    while i < docs.len()
        invariant
            i <= docs@.len(),
            views_of(tokens@) + corpus_tokens(docs@.skip(i as int)) == corpus_tokens(docs@),
        decreases docs@.len() - i,
    {
        let ghost pre = views_of(tokens@);
        let d = &docs[i];
        let mut fresh: Vec<String> = match d.kind {
            DocKind::Html => html_tokens(d.contents.as_str()),
            DocKind::Text => tokenize_text(d.contents.as_str()),
        };
        proof {
            assert(views_of(fresh@) == doc_tokens(docs@[i as int]));
            assert(docs@.skip(i as int)[0] == docs@[i as int]);
            assert(docs@.skip(i as int).skip(1) =~= docs@.skip(i + 1));
        }
        let ghost fv = fresh@;
        tokens.append(&mut fresh);
        proof {
            assert(views_of(tokens@) =~= pre + views_of(fv));
            assert(views_of(tokens@) + corpus_tokens(docs@.skip(i + 1)) =~= pre + (doc_tokens(
                docs@[i as int],
            ) + corpus_tokens(docs@.skip(i + 1))));
        }
        i = i + 1;
    }
    proof {
        assert(docs@.skip(i as int) =~= Seq::<TrainingDoc>::empty());
        assert(views_of(tokens@) + Seq::<Seq<char>>::empty() =~= views_of(tokens@));
    }
    MarkovIterator::new(tokens)
}

/// The views of a sequence of tokens.
pub open spec fn views_of(ts: Seq<String>) -> Seq<Seq<char>> {
    ts.map_values(|t: String| t@)
}

/// The views of a sequence of successor collections.
pub open spec fn succ_views_of(ss: Seq<Vec<String>>) -> Seq<Seq<Seq<char>>> {
    ss.map_values(|v: Vec<String>| views_of(v@))
}

/// The index of `t` among `keys`, or `-1` when it is absent. When the keys
/// are distinct this is the only index holding `t`.
pub open spec fn find_key(keys: Seq<Seq<char>>, t: Seq<char>) -> int
    decreases keys.len(),
{
    if keys.len() == 0 {
        -1
    } else if keys.last() == t {
        keys.len() - 1
    } else {
        find_key(keys.drop_last(), t)
    }
}

pub proof fn lemma_find_key(keys: Seq<Seq<char>>, t: Seq<char>)
    ensures
        find_key(keys, t) == -1 || (0 <= find_key(keys, t) < keys.len()),
        find_key(keys, t) >= 0 ==> keys[find_key(keys, t)] == t,
        forall|j: int| find_key(keys, t) < j < keys.len() ==> keys[j] != t,
    decreases keys.len(),
{
    if keys.len() > 0 && keys.last() != t {
        lemma_find_key(keys.drop_last(), t);
        assert(forall|j: int| 0 <= j < keys.len() - 1 ==> keys[j] == keys.drop_last()[j]);
    }
}

/// With distinct keys, `find_key` agrees with any witness index.
pub proof fn lemma_find_key_unique(keys: Seq<Seq<char>>, i: int)
    requires
        0 <= i < keys.len(),
        forall|p: int, q: int| 0 <= p < q < keys.len() ==> keys[p] != keys[q],
    ensures
        find_key(keys, keys[i]) == i,
{
    lemma_find_key(keys, keys[i]);
    let r = find_key(keys, keys[i]);
    if r < i {
        assert(keys[i] == keys[i]);
        assert(r < i < keys.len());
    }
}

/// One training pair `(prev, curr)`: append `curr` to the collection keyed
/// by `prev`, creating the key on first use.
pub open spec fn build_step(
    keys: Seq<Seq<char>>,
    succs: Seq<Seq<Seq<char>>>,
    prev: Seq<char>,
    curr: Seq<char>,
) -> (Seq<Seq<char>>, Seq<Seq<Seq<char>>>) {
    let i = find_key(keys, prev);
    if i >= 0 {
        (keys, succs.update(i, succs[i].push(curr)))
    } else {
        (keys.push(prev), succs.push(seq![curr]))
    }
}

/// The chain built from the first `n` tokens of `toks`, pair by pair.
pub open spec fn build_chain_prefix(toks: Seq<Seq<char>>, n: int) -> (
    Seq<Seq<char>>,
    Seq<Seq<Seq<char>>>,
)
    decreases n,
{
    if n <= 1 {
        (Seq::<Seq<char>>::empty(), Seq::<Seq<Seq<char>>>::empty())
    } else {
        let prefix = build_chain_prefix(toks, n - 1);
        build_step(prefix.0, prefix.1, toks[n - 2], toks[n - 1])
    }
}

/// The chain built from a whole token sequence.
pub open spec fn build_chain(toks: Seq<Seq<char>>) -> (Seq<Seq<char>>, Seq<Seq<Seq<char>>>) {
    build_chain_prefix(toks, toks.len() as int)
}

/// Construction keeps the keys distinct, gives every key a non-empty
/// successor collection, and inserts a key for every pair seen.
pub proof fn lemma_build_chain_wf(toks: Seq<Seq<char>>, n: int)
    requires
        n <= toks.len(),
    ensures
        ({
            let r = build_chain_prefix(toks, n);
            &&& r.0.len() == r.1.len()
            &&& forall|i: int| 0 <= i < r.1.len() ==> r.1[i].len() >= 1
            &&& forall|p: int, q: int| 0 <= p < q < r.0.len() ==> r.0[p] != r.0[q]
            &&& n >= 2 ==> r.0.len() >= 1
        }),
    decreases n,
{
    if n > 1 {
        lemma_build_chain_wf(toks, n - 1);
        let prefix = build_chain_prefix(toks, n - 1);
        lemma_find_key(prefix.0, toks[n - 2]);
    }
}

/// A trained transition model together with the cursor of the sequential
/// walk. The model itself is immutable once trained.
pub struct MarkovIterator {
    keys: Vec<String>,
    succs: Vec<Vec<String>>,
    current: Option<String>,
}

/// Resolve the current token before an emission: a token without a
/// successor collection is silently replaced by a freshly drawn key.
pub open spec fn spec_fix(keys: Seq<Seq<char>>, cur: Seq<char>, rand: Randomness) -> (
    Seq<char>,
    Randomness,
)
    recommends
        keys.len() > 0,
{
    if find_key(keys, cur) >= 0 {
        (cur, rand)
    } else {
        (keys[rand.spec_value(keys.len() as u64) as int], rand.spec_step())
    }
}

/// The walk that emits `k` tokens starting from `cur`: fix the current
/// token, emit it, then advance to a uniformly drawn member of its successor
/// collection. Yields the emitted tokens, the token the walk stopped on and
/// the state of the randomness source.
pub open spec fn spec_walk(
    keys: Seq<Seq<char>>,
    succs: Seq<Seq<Seq<char>>>,
    cur: Seq<char>,
    rand: Randomness,
    k: nat,
) -> (Seq<Seq<char>>, Seq<char>, Randomness)
    decreases k,
{
    if k == 0 {
        (Seq::<Seq<char>>::empty(), cur, rand)
    } else {
        let fixed = spec_fix(keys, cur, rand);
        let i = find_key(keys, fixed.0);
        let list = succs[i];
        let j = fixed.1.spec_value(list.len() as u64);
        let rest = spec_walk(keys, succs, list[j as int], fixed.1.spec_step(), (k - 1) as nat);
        (seq![fixed.0] + rest.0, rest.1, rest.2)
    }
}

/// A bulk sample: draw a starting key uniformly, then walk `n` steps.
pub open spec fn spec_sample(
    keys: Seq<Seq<char>>,
    succs: Seq<Seq<Seq<char>>>,
    rand: Randomness,
    n: nat,
) -> (Seq<Seq<char>>, Randomness)
    recommends
        keys.len() > 0,
{
    let c0 = keys[rand.spec_value(keys.len() as u64) as int];
    let w = spec_walk(keys, succs, c0, rand.spec_step(), n);
    (w.0, w.2)
}

/// One step of the sequential walk: a missing cursor is replaced by a fresh
/// key, then one token is emitted as in the bulk walk.
pub open spec fn spec_next(
    keys: Seq<Seq<char>>,
    succs: Seq<Seq<Seq<char>>>,
    cur: Option<Seq<char>>,
    rand: Randomness,
) -> (Seq<char>, Seq<char>, Randomness)
    recommends
        keys.len() > 0,
{
    let fixed = match cur {
        Some(c0) => spec_fix(keys, c0, rand),
        None => (keys[rand.spec_value(keys.len() as u64) as int], rand.spec_step()),
    };
    let i = find_key(keys, fixed.0);
    let list = succs[i];
    let j = fixed.1.spec_value(list.len() as u64);
    (fixed.0, list[j as int], fixed.1.spec_step())
}

impl MarkovIterator {
    /// The trained keys, in order of first insertion.
    pub closed spec fn keys_view(self) -> Seq<Seq<char>> {
        views_of(self.keys@)
    }

    /// The successor collections, parallel to the keys.
    pub closed spec fn succs_view(self) -> Seq<Seq<Seq<char>>> {
        succ_views_of(self.succs@)
    }

    /// The cursor of the sequential walk.
    pub closed spec fn current_view(self) -> Option<Seq<char>> {
        match self.current {
            Some(c) => Some(c@),
            None => None,
        }
    }

    /// Well-formedness: one non-empty successor collection per key, and
    /// distinct keys.
    pub closed spec fn wf(self) -> bool {
        &&& self.succs@.len() == self.keys@.len()
        &&& forall|i: int| 0 <= i < self.succs@.len() ==> self.succs_view()[i].len() >= 1
        &&& forall|p: int, q: int|
            0 <= p < q < self.keys@.len() ==> self.keys_view()[p] != self.keys_view()[q]
    }

    /// Whether the model can be walked at all: it holds at least one key.
    pub closed spec fn can_walk(self) -> bool {
        self.wf() && self.keys_view().len() > 0
    }

    /// Train a model from an ordered token sequence: one pass over the
    /// adjacent pairs. A sequence of fewer than two tokens forms no
    /// transition and is rejected.
    pub fn new(tokens: Vec<String>) -> (r: Result<MarkovIterator, TrainingError>)
        ensures
            r is Err <==> tokens@.len() < 2,
            r is Err ==> r == Result::<MarkovIterator, TrainingError>::Err(
                TrainingError::TooFewTokens,
            ),
            r matches Ok(m) ==> {
                &&& m.wf()
                &&& m.can_walk()
                &&& m.keys_view() == build_chain(views_of(tokens@)).0
                &&& m.succs_view() == build_chain(views_of(tokens@)).1
                &&& m.current_view() is None
            },
    {
        if tokens.len() < 2 {
            return Err(TrainingError::TooFewTokens);
        }
        let ghost toks = views_of(tokens@);
        let mut m = MarkovIterator { keys: Vec::new(), succs: Vec::new(), current: None };
        proof {
            assert(m.keys_view() =~= build_chain_prefix(toks, 1).0);
            assert(m.succs_view() =~= build_chain_prefix(toks, 1).1);
        }
        let mut i: usize = 1;
        while i < tokens.len()
            invariant
                1 <= i <= tokens@.len(),
                2 <= tokens@.len(),
                toks == views_of(tokens@),
                toks.len() == tokens@.len(),
                m.keys@.len() == m.succs@.len(),
                m.keys_view() == build_chain_prefix(toks, i as int).0,
                m.succs_view() == build_chain_prefix(toks, i as int).1,
                m.current is None,
            decreases tokens@.len() - i,
        {
            let ghost old_keys = m.keys_view();
            let ghost old_succs = m.succs_view();
            proof {
                lemma_build_chain_wf(toks, i as int);
                assert(m.wf());
            }
            let prev = &tokens[i - 1];
            let curr = tokens[i].clone();
            proof {
                assert(prev@ == toks[i - 1]);
                assert(curr@ == toks[i as int]);
            }
            match m.find_index(prev) {
                Some(j) => {
                    m.succs[j].push(curr);
                    proof {
                        assert(views_of(m.succs@[j as int]@) =~= old_succs[j as int].push(
                            toks[i as int],
                        ));
                        assert(m.keys_view() =~~= build_chain_prefix(toks, i + 1).0);
                        assert(m.succs_view() =~~= old_succs.update(
                            j as int,
                            old_succs[j as int].push(toks[i as int]),
                        ));
                        assert(m.succs_view() =~~= build_chain_prefix(toks, i + 1).1);
                    }
                },
                None => {
                    m.keys.push(prev.clone());
                    let mut fresh: Vec<String> = Vec::new();
                    fresh.push(curr);
                    m.succs.push(fresh);
                    proof {
                        assert(views_of(fresh@) =~= seq![toks[i as int]]);
                        assert(m.keys_view() =~~= old_keys.push(toks[i - 1]));
                        assert(m.keys_view() =~~= build_chain_prefix(toks, i + 1).0);
                        assert(m.succs_view() =~~= old_succs.push(seq![toks[i as int]]));
                        assert(m.succs_view() =~~= build_chain_prefix(toks, i + 1).1);
                    }
                },
            }
            i = i + 1;
        }
        proof {
            lemma_build_chain_wf(toks, toks.len() as int);
        }
        Ok(m)
    }

    /// Look up a token among the keys.
    fn find_index(&self, t: &String) -> (r: Option<usize>)
        requires
            self.wf(),
        ensures
            match r {
                Some(i) => 0 <= i < self.keys_view().len() && self.keys_view()[i as int] == t@
                    && find_key(self.keys_view(), t@) == i,
                None => find_key(self.keys_view(), t@) == -1,
            },
    {
        let mut i: usize = 0;
        while i < self.keys.len()
            invariant
                0 <= i <= self.keys@.len(),
                self.wf(),
                forall|j: int| 0 <= j < i ==> self.keys_view()[j] != t@,
            decreases self.keys@.len() - i,
        {
            let hit: bool = self.keys[i].eq(t);
            proof {
                assert(self.keys_view()[i as int] == self.keys@[i as int]@);
            }
            if hit {
                proof {
                    lemma_find_key_unique(self.keys_view(), i as int);
                }
                return Some(i);
            }
            i = i + 1;
        }
        proof {
            lemma_find_key(self.keys_view(), t@);
        }
        None
    }

    /// Draw the index of a key uniformly at random.
    fn random_key_index(&self, rand: &mut Randomness) -> (i: usize)
        requires
            self.can_walk(),
        ensures
            0 <= i < self.keys_view().len(),
            old(rand).is_deterministic() ==> i == old(rand).spec_value(
                self.keys_view().len() as u64,
            ) && *final(rand) == old(rand).spec_step(),
            !old(rand).is_deterministic() ==> *final(rand) == *old(rand),
    {
        let n: u64 = self.keys.len() as u64;
        let v: u64 = rand.next_below(n);
        v as usize
    }

    /// The original's random key draw: a uniformly chosen key of the chain.
    fn random_token(&self, rand: &mut Randomness) -> (t: String)
        requires
            self.can_walk(),
        ensures
            self.keys_view().contains(t@),
            old(rand).is_deterministic() ==> t@ == self.keys_view()[old(rand).spec_value(
                self.keys_view().len() as u64,
            ) as int] && *final(rand) == old(rand).spec_step(),
            !old(rand).is_deterministic() ==> *final(rand) == *old(rand),
    {
        let i = self.random_key_index(rand);
        let t = self.keys[i].clone();
        proof {
            assert(self.keys_view()[i as int] == t@);
        }
        t
    }

    /// Bulk sampling: exactly `n` tokens, each an observed key, drawn by the
    /// stochastic walk with dead-end recovery. With a deterministic source
    /// the result is exactly the walk the specification describes.
    pub fn n_tokens(&self, n: u32, rand: &mut Randomness) -> (out: Vec<String>)
        requires
            self.can_walk(),
        ensures
            out@.len() == n,
            forall|i: int| 0 <= i < out@.len() ==> self.keys_view().contains(#[trigger] out@[i]@),
            old(rand).is_deterministic() ==> views_of(out@) == spec_sample(
                self.keys_view(),
                self.succs_view(),
                *old(rand),
                n as nat,
            ).0 && *final(rand) == spec_sample(
                self.keys_view(),
                self.succs_view(),
                *old(rand),
                n as nat,
            ).1,
            old(rand).is_deterministic() ==> final(rand).is_deterministic(),
            !old(rand).is_deterministic() ==> *final(rand) == *old(rand),
    {
        let ghost det = old(rand).is_deterministic();
        let ghost keys = self.keys_view();
        let ghost succs = self.succs_view();
        let ki = self.random_key_index(rand);
        let mut cur: String = self.keys[ki].clone();
        let ghost mid = *rand;
        let ghost c0 = cur@;
        let mut out: Vec<String> = Vec::new();
        let mut emitted: u32 = 0;
        while emitted < n
            invariant
                self.can_walk(),
                keys == self.keys_view(),
                succs == self.succs_view(),
                emitted <= n,
                out@.len() == emitted,
                forall|i: int|
                    0 <= i < out@.len() ==> self.keys_view().contains(#[trigger] out@[i]@),
                det == old(rand).is_deterministic(),
                det ==> views_of(out@) + spec_walk(keys, succs, cur@, *rand, (n - emitted) as nat).0
                    == spec_walk(keys, succs, c0, mid, n as nat).0,
                det ==> spec_walk(keys, succs, cur@, *rand, (n - emitted) as nat).2 == spec_walk(
                    keys,
                    succs,
                    c0,
                    mid,
                    n as nat,
                ).2,
                det ==> rand.is_deterministic(),
                !det ==> *rand == *old(rand),
            decreases n - emitted,
        {
            let ghost rand0 = *rand;
            let ghost cur0 = cur@;
            let i: usize = match self.find_index(&cur) {
                Some(i) => i,
                None => {
                    let k = self.random_key_index(rand);
                    cur = self.keys[k].clone();
                    proof {
                        assert(cur@ == keys[k as int]);
                        lemma_find_key_unique(keys, k as int);
                    }
                    k
                },
            };
            proof {
                assert(keys[i as int] == cur@);
                assert(find_key(keys, cur@) == i);
                if det {
                    assert((cur@, *rand) == spec_fix(keys, cur0, rand0));
                }
                assert(succs[i as int] == views_of(self.succs@[i as int]@));
                assert(succs[i as int].len() >= 1);
            }
            let ghost curf = cur@;
            let ghost randf = *rand;
            let list_len: usize = self.succs[i].len();
            proof {
                assert(list_len == succs[i as int].len());
            }
            let j: u64 = rand.next_below(list_len as u64);
            proof {
                assert(j < list_len as u64);
            }
            let next: String = self.succs[i][j as usize].clone();
            proof {
                assert(self.succs_view()[i as int][j as int] == next@);
            }
            out.push(cur);
            cur = next;
            emitted = emitted + 1;
            proof {
                if det {
                    let k = (n - emitted + 1) as nat;
                    assert(spec_fix(keys, cur0, rand0) == (curf, randf));
                    assert(spec_walk(keys, succs, cur0, rand0, k).0 == seq![curf] + spec_walk(
                        keys,
                        succs,
                        cur@,
                        *rand,
                        (k - 1) as nat,
                    ).0);
                    assert(spec_walk(keys, succs, cur0, rand0, k).2 == spec_walk(
                        keys,
                        succs,
                        cur@,
                        *rand,
                        (k - 1) as nat,
                    ).2);
                    assert(views_of(out@) =~= views_of(out@.drop_last()) + seq![curf]);
                    assert(views_of(out@) + spec_walk(keys, succs, cur@, *rand, (n
                        - emitted) as nat).0 =~= views_of(out@.drop_last()) + spec_walk(
                        keys,
                        succs,
                        cur0,
                        rand0,
                        k,
                    ).0);
                }
            }
        }
        proof {
            if det {
                assert(spec_walk(keys, succs, cur@, *rand, 0).0 == Seq::<Seq<char>>::empty());
                assert(views_of(out@) + Seq::<Seq<char>>::empty() =~= views_of(out@));
                assert(c0 == keys[old(rand).spec_value(keys.len() as u64) as int]);
                assert(mid == old(rand).spec_step());
            }
        }
        out
    }

    /// One step of the sequential walk: emit one token and advance the
    /// cursor. The emitted token is always an observed key, and when the
    /// cursor held a key, the walk emits it and moves to a member of its own
    /// successor collection — never outside it.
    pub fn next_token(&mut self, rand: &mut Randomness) -> (t: String)
        requires
            old(self).can_walk(),
        ensures
            final(self).keys_view() == old(self).keys_view(),
            final(self).succs_view() == old(self).succs_view(),
            final(self).can_walk(),
            old(self).keys_view().contains(t@),
            final(self).current_view() is Some,
            ({
                let step = spec_next(
                    old(self).keys_view(),
                    old(self).succs_view(),
                    old(self).current_view(),
                    *old(rand),
                );
                &&& old(rand).is_deterministic() ==> t@ == step.0 && final(self).current_view()
                    == Some(step.1) && *final(rand) == step.2
            }),
            (old(self).current_view() matches Some(c) && find_key(old(self).keys_view(), c) >= 0)
                ==> t@ == old(self).current_view()->0 && old(self).succs_view()[find_key(
                old(self).keys_view(),
                t@,
            )].contains(final(self).current_view()->0),
            old(rand).is_deterministic() ==> final(rand).is_deterministic(),
            !old(rand).is_deterministic() ==> *final(rand) == *old(rand),
    {
        let ghost keys = self.keys_view();
        let ghost succs = self.succs_view();
        let ghost det = old(rand).is_deterministic();
        let ghost rand_in = *old(rand);
        let cur: String = match &self.current {
            Some(c) => c.clone(),
            None => self.random_token(rand),
        };
        proof {
            if det && old(self).current_view() is None {
                assert(cur@ == keys[rand_in.spec_value(keys.len() as u64) as int]);
            }
            if old(self).current_view() is None {
                assert(keys.contains(cur@));
                let w = choose|w: int| 0 <= w < keys.len() && keys[w] == cur@;
                lemma_find_key_unique(keys, w);
                assert(find_key(keys, cur@) >= 0);
            }
        }
        let i: usize = match self.find_index(&cur) {
            Some(i) => i,
            None => {
                let k = self.random_key_index(rand);
                proof {
                    lemma_find_key_unique(keys, k as int);
                }
                k
            },
        };
        let emit: String = self.keys[i].clone();
        proof {
            assert(keys[i as int] == emit@);
            assert(find_key(keys, emit@) == i);
            assert(keys.contains(emit@));
            assert(succs[i as int] == views_of(self.succs@[i as int]@));
            assert(succs[i as int].len() >= 1);
        }
        let ghost randf = *rand;
        let list_len: usize = self.succs[i].len();
        proof {
            assert(list_len == succs[i as int].len());
        }
        let j: u64 = rand.next_below(list_len as u64);
        proof {
            assert(j < list_len as u64);
        }
        let next: String = self.succs[i][j as usize].clone();
        proof {
            assert(self.succs_view()[i as int][j as int] == next@);
            assert(self.succs_view()[i as int].contains(next@));
        }
        self.current = Some(next);
        proof {
            if det {
                let step = spec_next(keys, succs, old(self).current_view(), rand_in);
                match old(self).current_view() {
                    Some(c0) => {
                        assert((emit@, randf) == spec_fix(keys, c0, rand_in));
                    },
                    None => {
                        assert(emit@ == keys[rand_in.spec_value(keys.len() as u64) as int]);
                        assert(randf == rand_in.spec_step());
                    },
                }
                assert(emit@ == step.0);
                assert(self.current_view() == Some(step.1));
                assert(*rand == step.2);
            }
        }
        emit
    }

    /// The number of trained keys.
    pub fn key_count(&self) -> (n: usize)
        ensures
            n == self.keys_view().len(),
    {
        self.keys.len()
    }

    /// The key at a given insertion rank.
    pub fn key_at(&self, i: usize) -> (t: &String)
        requires
            i < self.keys_view().len(),
        ensures
            t@ == self.keys_view()[i as int],
    {
        &self.keys[i]
    }

    /// The successor collection of the key at a given insertion rank.
    pub fn successors_at(&self, i: usize) -> (s: &Vec<String>)
        requires
            self.wf(),
            i < self.keys_view().len(),
        ensures
            views_of(s@) == self.succs_view()[i as int],
    {
        &self.succs[i]
    }

    /// The successor collection observed after `t`, if `t` was ever seen as
    /// a predecessor.
    pub fn successors_of(&self, t: &String) -> (r: Option<&Vec<String>>)
        requires
            self.wf(),
        ensures
            match r {
                Some(s) => find_key(self.keys_view(), t@) >= 0 && views_of(s@)
                    == self.succs_view()[find_key(self.keys_view(), t@)],
                None => find_key(self.keys_view(), t@) == -1,
            },
    {
        match self.find_index(t) {
            Some(i) => Some(&self.succs[i]),
            None => None,
        }
    }
}

/// Determinism of the walk: the sampled sequence is a function of the model
/// and the randomness state alone, so a fixed seed and a fixed model yield
/// the identical sequence on every run.
pub proof fn lemma_sample_deterministic(
    keys1: Seq<Seq<char>>,
    succs1: Seq<Seq<Seq<char>>>,
    rand1: Randomness,
    keys2: Seq<Seq<char>>,
    succs2: Seq<Seq<Seq<char>>>,
    rand2: Randomness,
    n: nat,
)
    requires
        keys1 == keys2,
        succs1 == succs2,
        rand1 == rand2,
    ensures
        spec_sample(keys1, succs1, rand1, n) == spec_sample(keys2, succs2, rand2, n),
{
}

/// Every single-step draw from a token with a non-empty successor collection
/// lands inside that collection: the step emits the token itself and moves
/// to one of its own trained successors, never outside them.
pub proof fn lemma_step_within_successors(
    keys: Seq<Seq<char>>,
    succs: Seq<Seq<Seq<char>>>,
    cur: Seq<char>,
    rand: Randomness,
)
    requires
        keys.len() == succs.len(),
        keys.len() > 0,
        find_key(keys, cur) >= 0,
        forall|i: int| 0 <= i < succs.len() ==> succs[i].len() >= 1,
    ensures
        ({
            let step = spec_next(keys, succs, Some(cur), rand);
            &&& step.0 == cur
            &&& succs[find_key(keys, cur)].contains(step.1)
        }),
{
    lemma_find_key(keys, cur);
    let i = find_key(keys, cur);
    let list = succs[i];
    let fixed = spec_fix(keys, cur, rand);
    let j = fixed.1.spec_value(list.len() as u64);
    assert(list[j as int] == spec_next(keys, succs, Some(cur), rand).1);
    assert(0 <= j < list.len());
    assert(list.contains(list[j as int]));
}

} // verus!
