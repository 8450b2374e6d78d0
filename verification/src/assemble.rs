//! Assembly of a token stream into an HTML document.
//!
//! The assembler makes one left-to-right pass: it opens paragraphs, appends
//! each token after a single space, sometimes closes and reopens the
//! paragraph, and sometimes injects an anchor with a fresh link identifier.
//! When decoy injection is configured, an injected anchor sometimes points
//! at the decoy resource instead. The output is characterized exactly as the
//! rendering of a segment sequence, so that what the document holds — every
//! token in order, anchors only of the configured shapes, decoys only when
//! they are possible at all — is stated for every randomness source.
use vstd::prelude::*;

use crate::{ConfigError, Prob};
use crate::markov::{views_of, MarkovIterator, spec_sample};
use crate::rng::{rand_link, spec_rand_link, Randomness};
use crate::text::{is_sep, keep_char, strip_tags_acc, strip_tags_spec, tokenize_acc, tokenize_spec};

verus! {

/// The knobs of document assembly, validated before use.
pub struct AssemblyConfig {
    /// Probability of a paragraph break around any one token.
    pub paragraph_break: Prob,
    /// Probability of injecting an anchor after any one token.
    pub link_inject: Prob,
    /// Probability that an injected anchor is a decoy, when decoys are
    /// configured and still allowed.
    pub decoy: Prob,
    /// The decoy resource path; decoy injection is enabled when present.
    pub decoy_path: Option<String>,
    /// Whether at most one decoy may appear per document.
    pub single_decoy: bool,
    /// The path prefix of generated maze anchors.
    pub linkpath: String,
    /// The least number of tokens of a generated page.
    pub min_tokens: u32,
    /// The greatest number of tokens of a generated page.
    pub max_tokens: u32,
}

impl AssemblyConfig {
    /// Valid bounds and valid probabilities.
    pub open spec fn wf(self) -> bool {
        &&& self.paragraph_break.wf()
        &&& self.link_inject.wf()
        &&& self.decoy.wf()
        &&& self.min_tokens <= self.max_tokens
    }

    /// Validate a configuration: bad probabilities and inverted token
    /// bounds are reported before anything is generated.
    pub fn new(
        paragraph_break: Prob,
        link_inject: Prob,
        decoy: Prob,
        decoy_path: Option<String>,
        single_decoy: bool,
        linkpath: String,
        min_tokens: u32,
        max_tokens: u32,
    ) -> (r: Result<AssemblyConfig, ConfigError>)
        ensures
            r is Ok <==> (paragraph_break.wf() && link_inject.wf() && decoy.wf() && min_tokens
                <= max_tokens),
            r matches Ok(c) ==> c == (AssemblyConfig {
                paragraph_break,
                link_inject,
                decoy,
                decoy_path,
                single_decoy,
                linkpath,
                min_tokens,
                max_tokens,
            }) && c.wf(),
            r is Err ==> (r == Result::<AssemblyConfig, ConfigError>::Err(
                ConfigError::BadProbability,
            ) && !(paragraph_break.wf() && link_inject.wf() && decoy.wf())) || (r
                == Result::<AssemblyConfig, ConfigError>::Err(ConfigError::MinExceedsMax)
                && min_tokens > max_tokens),
    {
        if !(paragraph_break.den > 0 && paragraph_break.num <= paragraph_break.den && link_inject.den
            > 0 && link_inject.num <= link_inject.den && decoy.den > 0 && decoy.num <= decoy.den) {
            Err(ConfigError::BadProbability)
        } else if min_tokens > max_tokens {
            Err(ConfigError::MinExceedsMax)
        } else {
            Ok(
                AssemblyConfig {
                    paragraph_break,
                    link_inject,
                    decoy,
                    decoy_path,
                    single_decoy,
                    linkpath,
                    min_tokens,
                    max_tokens,
                },
            )
        }
    }
}

/// One piece of an assembled document body.
pub enum Seg {
    /// `<p>`: a paragraph opens.
    OpenPara,
    /// `</p><p>`: the paragraph closes and a new one opens.
    BreakPara,
    /// `</p>`: the final paragraph closes.
    ClosePara,
    /// A single space followed by one token of the stream.
    Text(Seq<char>),
    /// An injected anchor: its href, its visible link identifier, and
    /// whether it points at the decoy resource.
    Anchor { id: Seq<char>, href: Seq<char>, decoy: bool },
}

/// The markup of one segment.
pub open spec fn render_seg(s: Seg) -> Seq<char> {
    match s {
        Seg::OpenPara => "<p>"@,
        Seg::BreakPara => "</p><p>"@,
        Seg::ClosePara => "</p>"@,
        Seg::Text(t) => " "@ + t,
        Seg::Anchor { id, href, decoy } => " <a href="@ + href + ">"@ + id + "</a>"@,
    }
}

/// The markup of a segment sequence.
pub open spec fn render_segs(segs: Seq<Seg>) -> Seq<char>
    decreases segs.len(),
{
    if segs.len() == 0 {
        Seq::<char>::empty()
    } else {
        render_seg(segs[0]) + render_segs(segs.skip(1))
    }
}

/// A whole document: the wrapper tags, the title, and the rendered body.
pub open spec fn render_doc(title: Seq<char>, segs: Seq<Seg>) -> Seq<char> {
    "<!doctype html><html><head><title>"@ + title + "</title></head><body>"@ + render_segs(segs)
        + "</body></html>"@
}

/// The tokens a segment sequence carries, in order.
pub open spec fn texts_of(segs: Seq<Seg>) -> Seq<Seq<char>>
    decreases segs.len(),
{
    if segs.len() == 0 {
        Seq::<Seq<char>>::empty()
    } else {
        (match segs[0] {
            Seg::Text(t) => seq![t],
            _ => Seq::<Seq<char>>::empty(),
        }) + texts_of(segs.skip(1))
    }
}

/// Whether a segment is a decoy anchor.
pub open spec fn is_decoy(s: Seg) -> bool {
    match s {
        Seg::Anchor { decoy, .. } => decoy,
        _ => false,
    }
}

/// How many decoy anchors a segment sequence holds.
pub open spec fn decoy_count(segs: Seq<Seg>) -> int
    decreases segs.len(),
{
    if segs.len() == 0 {
        0
    } else {
        (if is_decoy(segs[0]) {
            1int
        } else {
            0int
        }) + decoy_count(segs.skip(1))
    }
}

/// What any one segment of an assembled document may look like under a
/// configuration: anchors only when link injection is possible at all, a
/// decoy anchor only towards the configured decoy path and only when decoy
/// injection is possible at all, and every other anchor towards the maze
/// link path.
pub open spec fn seg_ok(s: Seg, cfg: AssemblyConfig) -> bool {
    match s {
        Seg::Anchor { id, href, decoy } => {
            &&& 4 <= id.len() < 16
            &&& !cfg.link_inject.is_never()
            &&& if decoy {
                &&& cfg.decoy_path is Some
                &&& href == cfg.decoy_path->0@
                &&& !cfg.decoy.is_never()
            } else {
                href == cfg.linkpath@ + "/"@ + id + ".html"@
            }
        },
        _ => true,
    }
}

/// The shape of an assembled document body: it carries exactly the given
/// tokens in order, every segment is possible under the configuration, and
/// at most one decoy appears when only one is allowed.
pub open spec fn segs_wf(segs: Seq<Seg>, toks: Seq<Seq<char>>, cfg: AssemblyConfig) -> bool {
    &&& texts_of(segs) == toks
    &&& forall|i: int| 0 <= i < segs.len() ==> seg_ok(#[trigger] segs[i], cfg)
    &&& cfg.single_decoy ==> decoy_count(segs) <= 1
}

/// The link-injection decision after one token, for a deterministic source:
/// first the injection draw; when injection succeeds and a decoy is possible
/// and still allowed, the decoy draw; then the identifier draws.
pub open spec fn spec_link_decision(cfg: AssemblyConfig, decoy_done: bool, rand: Randomness) -> (
    Seq<Seg>,
    bool,
    Randomness,
) {
    let b = rand.spec_bernoulli(cfg.link_inject);
    let r1 = rand.spec_step();
    if !b {
        (Seq::<Seg>::empty(), decoy_done, r1)
    } else if cfg.decoy_path is Some && (!cfg.single_decoy || !decoy_done) {
        let d = r1.spec_bernoulli(cfg.decoy);
        let r2 = r1.spec_step();
        let link = spec_rand_link(r2);
        if d {
            (seq![Seg::Anchor { id: link.0, href: cfg.decoy_path->0@, decoy: true }], true, link.1)
        } else {
            (
                seq![
                    Seg::Anchor {
                        id: link.0,
                        href: cfg.linkpath@ + "/"@ + link.0 + ".html"@,
                        decoy: false,
                    },
                ],
                decoy_done,
                link.1,
            )
        }
    } else {
        let link = spec_rand_link(r1);
        (
            seq![
                Seg::Anchor {
                    id: link.0,
                    href: cfg.linkpath@ + "/"@ + link.0 + ".html"@,
                    decoy: false,
                },
            ],
            decoy_done,
            link.1,
        )
    }
}

/// The segments one token contributes, for a deterministic source: the
/// paragraph-opening decision, the token text, the paragraph-break decision,
/// then the link decision. Yields the segments and the new paragraph, decoy
/// and randomness states.
pub open spec fn spec_token_segs(
    t: Seq<char>,
    cfg: AssemblyConfig,
    first: bool,
    para_open: bool,
    decoy_done: bool,
    rand: Randomness,
) -> (Seq<Seg>, bool, bool, Randomness) {
    let o = if !para_open {
        if first {
            (seq![Seg::OpenPara], true, rand)
        } else {
            let b = rand.spec_bernoulli(cfg.paragraph_break);
            let r = rand.spec_step();
            if b {
                (seq![Seg::OpenPara], true, r)
            } else {
                (Seq::<Seg>::empty(), false, r)
            }
        }
    } else {
        (Seq::<Seg>::empty(), true, rand)
    };
    let brk = if o.1 {
        let b = o.2.spec_bernoulli(cfg.paragraph_break);
        let r = o.2.spec_step();
        if b {
            (seq![Seg::BreakPara], r)
        } else {
            (Seq::<Seg>::empty(), r)
        }
    } else {
        (Seq::<Seg>::empty(), o.2)
    };
    let l = spec_link_decision(cfg, decoy_done, brk.1);
    (o.0 + seq![Seg::Text(t)] + brk.0 + l.0, o.1, l.1, l.2)
}

/// The body segments of a whole token stream, for a deterministic source.
pub open spec fn spec_body_loop(
    toks: Seq<Seq<char>>,
    cfg: AssemblyConfig,
    first: bool,
    para_open: bool,
    decoy_done: bool,
    rand: Randomness,
) -> (Seq<Seg>, bool, bool, Randomness)
    decreases toks.len(),
{
    if toks.len() == 0 {
        (Seq::<Seg>::empty(), para_open, decoy_done, rand)
    } else {
        let s = spec_token_segs(toks[0], cfg, first, para_open, decoy_done, rand);
        let rest = spec_body_loop(toks.skip(1), cfg, false, s.1, s.2, s.3);
        (s.0 + rest.0, rest.1, rest.2, rest.3)
    }
}

/// The segments of a whole assembled document, for a deterministic source:
/// the body segments, then the close of any open paragraph.
pub open spec fn spec_assemble_segs(
    toks: Seq<Seq<char>>,
    cfg: AssemblyConfig,
    rand: Randomness,
) -> (Seq<Seg>, Randomness) {
    let l = spec_body_loop(toks, cfg, true, false, false, rand);
    (
        l.0 + if l.1 {
            seq![Seg::ClosePara]
        } else {
            Seq::<Seg>::empty()
        },
        l.3,
    )
}

pub proof fn lemma_render_segs_app(a: Seq<Seg>, b: Seq<Seg>)
    ensures
        render_segs(a + b) == render_segs(a) + render_segs(b),
    decreases a.len(),
{
    if a.len() == 0 {
        assert(a + b =~= b);
        assert(render_segs(a) + render_segs(b) =~= render_segs(b));
    } else {
        assert((a + b).skip(1) =~= a.skip(1) + b);
        lemma_render_segs_app(a.skip(1), b);
        assert((a + b)[0] == a[0]);
        assert(render_seg(a[0]) + (render_segs(a.skip(1)) + render_segs(b)) =~= (render_seg(a[0])
            + render_segs(a.skip(1))) + render_segs(b));
    }
}

pub proof fn lemma_texts_of_app(a: Seq<Seg>, b: Seq<Seg>)
    ensures
        texts_of(a + b) == texts_of(a) + texts_of(b),
    decreases a.len(),
{
    if a.len() == 0 {
        assert(a + b =~= b);
        assert(texts_of(a) + texts_of(b) =~= texts_of(b));
    } else {
        assert((a + b).skip(1) =~= a.skip(1) + b);
        lemma_texts_of_app(a.skip(1), b);
        assert((a + b)[0] == a[0]);
        assert((match a[0] {
            Seg::Text(t) => seq![t],
            _ => Seq::<Seq<char>>::empty(),
        }) + (texts_of(a.skip(1)) + texts_of(b)) =~= ((match a[0] {
            Seg::Text(t) => seq![t],
            _ => Seq::<Seq<char>>::empty(),
        }) + texts_of(a.skip(1))) + texts_of(b));
    }
}

pub proof fn lemma_decoy_count_app(a: Seq<Seg>, b: Seq<Seg>)
    ensures
        decoy_count(a + b) == decoy_count(a) + decoy_count(b),
    decreases a.len(),
{
    if a.len() == 0 {
        assert(a + b =~= b);
    } else {
        assert((a + b).skip(1) =~= a.skip(1) + b);
        lemma_decoy_count_app(a.skip(1), b);
        assert((a + b)[0] == a[0]);
    }
}

/// Appending one segment: its rendering, its token, and its decoy count.
pub proof fn lemma_push_seg(segs: Seq<Seg>, s: Seg)
    ensures
        render_segs(segs + seq![s]) == render_segs(segs) + render_seg(s),
        texts_of(segs + seq![s]) == texts_of(segs) + (match s {
            Seg::Text(t) => seq![t],
            _ => Seq::<Seq<char>>::empty(),
        }),
        decoy_count(segs + seq![s]) == decoy_count(segs) + (if is_decoy(s) {
            1int
        } else {
            0int
        }),
{
    lemma_render_segs_app(segs, seq![s]);
    lemma_texts_of_app(segs, seq![s]);
    lemma_decoy_count_app(segs, seq![s]);
    assert(seq![s].skip(1) =~= Seq::<Seg>::empty());
    assert(render_segs(Seq::<Seg>::empty()) == Seq::<char>::empty());
    assert(texts_of(Seq::<Seg>::empty()) == Seq::<Seq<char>>::empty());
    assert(seq![s][0] == s);
    assert(render_segs(seq![s]) =~= render_seg(s) + Seq::<char>::empty());
    assert(render_segs(seq![s]) =~= render_seg(s));
    assert(texts_of(seq![s]) =~= (match s {
        Seg::Text(t) => seq![t],
        _ => Seq::<Seq<char>>::empty(),
    }) + Seq::<Seq<char>>::empty());
    assert(texts_of(seq![s]) =~= (match s {
        Seg::Text(t) => seq![t],
        _ => Seq::<Seq<char>>::empty(),
    }));
    assert(decoy_count(Seq::<Seg>::empty()) == 0);
    assert(decoy_count(seq![s]) == (if is_decoy(s) {
        1int
    } else {
        0int
    }));
}

/// The href of an ordinary maze anchor.
fn build_href(cfg: &AssemblyConfig, id: &str) -> (r: String)
    ensures
        r@ == cfg.linkpath@ + "/"@ + id@ + ".html"@,
{
    let mut h = String::new();
    h.append(cfg.linkpath.as_str());
    h.append("/");
    h.append(id);
    h.append(".html");
    proof {
        assert(h@ =~= cfg.linkpath@ + "/"@ + id@ + ".html"@);
    }
    h
}

/// Append one anchor element to the output.
fn append_anchor(out: &mut String, href: &str, id: &str)
    ensures
        final(out)@ == old(out)@ + (" <a href="@ + href@ + ">"@ + id@ + "</a>"@),
{
    out.append(" <a href=");
    out.append(href);
    out.append(">");
    out.append(id);
    out.append("</a>");
    proof {
        assert(out@ =~= old(out)@ + (" <a href="@ + href@ + ">"@ + id@ + "</a>"@));
    }
}


/// Emit everything one token contributes to the document: the
/// paragraph-opening decision, a space and the token text, the
/// paragraph-break decision, then the link decision. Returns the segments
/// appended to the output.
#[verifier::rlimit(100)]
fn emit_link(
    out: &mut String,
    cfg: &AssemblyConfig,
    decoy_done: &mut bool,
    rand: &mut Randomness,
) -> (gsegs: Ghost<Seq<Seg>>)
    requires
        cfg.wf(),
    ensures
        final(out)@ == old(out)@ + render_segs(gsegs@),
        texts_of(gsegs@) == Seq::<Seq<char>>::empty(),
        forall|k: int| 0 <= k < gsegs@.len() ==> seg_ok(#[trigger] gsegs@[k], *cfg),
        0 <= decoy_count(gsegs@) <= 1,
        *final(decoy_done) == (*old(decoy_done) || decoy_count(gsegs@) == 1),
        cfg.single_decoy && *old(decoy_done) ==> decoy_count(gsegs@) == 0,
        old(rand).is_deterministic() ==> {
            let l = spec_link_decision(*cfg, *old(decoy_done), *old(rand));
            &&& gsegs@ == l.0
            &&& *final(decoy_done) == l.1
            &&& *final(rand) == l.2
        },
        old(rand).is_deterministic() ==> final(rand).is_deterministic(),
        !old(rand).is_deterministic() ==> *final(rand) == *old(rand),
{
    let ghost rand0 = *rand;
    let ghost decoy0 = *decoy_done;
    let ghost mut gs = Seq::<Seg>::empty();
    let ghost base = out@;
    proof {
        assert(render_segs(Seq::<Seg>::empty()) == Seq::<char>::empty());
        assert(texts_of(Seq::<Seg>::empty()) == Seq::<Seq<char>>::empty());
        assert(decoy_count(Seq::<Seg>::empty()) == 0);
        assert(base + Seq::<char>::empty() =~= base);
    }
    if rand.bernoulli(&cfg.link_inject) {
        match &cfg.decoy_path {
            Some(p) => {
                let consider: bool = !cfg.single_decoy || !*decoy_done;
                let d: bool = if consider {
                    rand.bernoulli(&cfg.decoy)
                } else {
                    false
                };
                let id = rand_link(rand);
                if d {
                    append_anchor(out, p.as_str(), id.as_str());
                    proof {
                        let s = Seg::Anchor { id: id@, href: p@, decoy: true };
                        lemma_push_seg(gs, s);
                        gs = gs + seq![s];
                        assert(out@ =~= base + render_segs(gs));
                    }
                    *decoy_done = true;
                } else {
                    let href = build_href(cfg, id.as_str());
                    append_anchor(out, href.as_str(), id.as_str());
                    proof {
                        let s = Seg::Anchor { id: id@, href: href@, decoy: false };
                        lemma_push_seg(gs, s);
                        gs = gs + seq![s];
                        assert(out@ =~= base + render_segs(gs));
                    }
                }
            },
            None => {
                let id = rand_link(rand);
                let href = build_href(cfg, id.as_str());
                append_anchor(out, href.as_str(), id.as_str());
                proof {
                    let s = Seg::Anchor { id: id@, href: href@, decoy: false };
                    lemma_push_seg(gs, s);
                    gs = gs + seq![s];
                    assert(out@ =~= base + render_segs(gs));
                }
            },
        }
    }
    proof {
        if rand0.is_deterministic() {
            assert(gs =~= spec_link_decision(*cfg, decoy0, rand0).0);
        }
    }
    Ghost(gs)
}

/// appended to the output (see [`emit_link`] for the link decision).
#[verifier::rlimit(100)]
fn emit_token(
    out: &mut String,
    cfg: &AssemblyConfig,
    t: &String,
    first: bool,
    para_open: &mut bool,
    decoy_done: &mut bool,
    rand: &mut Randomness,
) -> (gsegs: Ghost<Seq<Seg>>)
    requires
        cfg.wf(),
    ensures
        final(out)@ == old(out)@ + render_segs(gsegs@),
        texts_of(gsegs@) == seq![t@],
        forall|k: int| 0 <= k < gsegs@.len() ==> seg_ok(#[trigger] gsegs@[k], *cfg),
        0 <= decoy_count(gsegs@) <= 1,
        *final(decoy_done) == (*old(decoy_done) || decoy_count(gsegs@) == 1),
        cfg.single_decoy && *old(decoy_done) ==> decoy_count(gsegs@) == 0,
        first || *old(para_open) ==> *final(para_open),
        old(rand).is_deterministic() ==> {
            let s = spec_token_segs(t@, *cfg, first, *old(para_open), *old(decoy_done), *old(rand));
            &&& gsegs@ == s.0
            &&& *final(para_open) == s.1
            &&& *final(decoy_done) == s.2
            &&& *final(rand) == s.3
        },
        old(rand).is_deterministic() ==> final(rand).is_deterministic(),
        !old(rand).is_deterministic() ==> *final(rand) == *old(rand),
{
    let ghost rand0 = *rand;
    let ghost para0 = *para_open;
    let ghost decoy0 = *decoy_done;
    let ghost spec_s = spec_token_segs(t@, *cfg, first, para0, decoy0, rand0);
    let ghost mut gs = Seq::<Seg>::empty();
    proof {
        assert(render_segs(Seq::<Seg>::empty()) == Seq::<char>::empty());
        assert(out@ + Seq::<char>::empty() =~= out@);
    }
    let ghost base = out@;
    if !*para_open {
        let open_now: bool = if first {
            true
        } else {
            rand.bernoulli(&cfg.paragraph_break)
        };
        if open_now {
            out.append("<p>");
            proof {
                lemma_push_seg(gs, Seg::OpenPara);
                gs = gs + seq![Seg::OpenPara];
                assert(out@ =~= base + render_segs(gs));
            }
            *para_open = true;
        }
    }
    out.append(" ");
    out.append(t.as_str());
    proof {
        lemma_push_seg(gs, Seg::Text(t@));
        gs = gs + seq![Seg::Text(t@)];
        assert(out@ =~= base + render_segs(gs));
    }
    if *para_open {
        if rand.bernoulli(&cfg.paragraph_break) {
            out.append("</p><p>");
            proof {
                lemma_push_seg(gs, Seg::BreakPara);
                gs = gs + seq![Seg::BreakPara];
                assert(out@ =~= base + render_segs(gs));
            }
        }
    }
    let ghost pre_link = gs;
    let lsegs = emit_link(out, cfg, decoy_done, rand);
    proof {
        lemma_render_segs_app(pre_link, lsegs@);
        lemma_texts_of_app(pre_link, lsegs@);
        lemma_decoy_count_app(pre_link, lsegs@);
        gs = pre_link + lsegs@;
        assert(out@ =~= base + render_segs(gs));
        assert(texts_of(gs) =~= seq![t@]);
        if rand0.is_deterministic() {
            assert(gs =~= spec_s.0);
        }
    }
    Ghost(gs)
}

/// Assemble a token stream into one HTML document: the wrapper tags and
/// title, then one pass over the tokens with paragraphing and link
/// injection. Whatever the randomness source, the output is the rendering
/// of a well-shaped segment sequence carrying exactly the tokens in order;
/// with a deterministic source it is exactly the specified one.
pub fn assemble(
    tokens: &Vec<String>,
    cfg: &AssemblyConfig,
    title: &str,
    rand: &mut Randomness,
) -> (out: String)
    requires
        cfg.wf(),
    ensures
        exists|segs: Seq<Seg>|
            out@ == render_doc(title@, segs) && segs_wf(segs, views_of(tokens@), *cfg),
        tokens@.len() == 0 ==> out@ == render_doc(title@, Seq::<Seg>::empty()),
        old(rand).is_deterministic() ==> out@ == render_doc(
            title@,
            spec_assemble_segs(views_of(tokens@), *cfg, *old(rand)).0,
        ) && *final(rand) == spec_assemble_segs(views_of(tokens@), *cfg, *old(rand)).1,
        !old(rand).is_deterministic() ==> *final(rand) == *old(rand),
{
    let ghost toks = views_of(tokens@);
    let ghost det = old(rand).is_deterministic();
    let ghost full = spec_body_loop(toks, *cfg, true, false, false, *old(rand));
    let mut out = String::new();
    out.append("<!doctype html><html><head><title>");
    out.append(title);
    out.append("</title></head><body>");
    let ghost head = "<!doctype html><html><head><title>"@ + title@ + "</title></head><body>"@;
    let ghost mut segs: Seq<Seg> = Seq::<Seg>::empty();
    proof {
        assert(render_segs(Seq::<Seg>::empty()) == Seq::<char>::empty());
        assert(out@ =~= head + render_segs(segs));
        assert(texts_of(Seq::<Seg>::empty()) =~= toks.take(0));
        assert(toks.skip(0) =~= toks);
    }
    let mut para_open = false;
    let mut decoy_done = false;
    let mut i: usize = 0;
    while i < tokens.len()
        invariant
            cfg.wf(),
            toks == views_of(tokens@),
            toks.len() == tokens@.len(),
            i <= tokens@.len(),
            head == "<!doctype html><html><head><title>"@ + title@ + "</title></head><body>"@,
            out@ == head + render_segs(segs),
            texts_of(segs) == toks.take(i as int),
            forall|k: int| 0 <= k < segs.len() ==> seg_ok(#[trigger] segs[k], *cfg),
            cfg.single_decoy ==> decoy_count(segs) <= 1,
            !decoy_done ==> decoy_count(segs) == 0,
            det == old(rand).is_deterministic(),
            det ==> ({
                let rest = spec_body_loop(
                    toks.skip(i as int),
                    *cfg,
                    i == 0,
                    para_open,
                    decoy_done,
                    *rand,
                );
                &&& segs + rest.0 == full.0
                &&& rest.1 == full.1
                &&& rest.2 == full.2
                &&& rest.3 == full.3
            }),
            det ==> rand.is_deterministic(),
            !det ==> *rand == *old(rand),
            i == 0 ==> segs == Seq::<Seg>::empty() && !para_open,
        decreases tokens@.len() - i,
    {
        let ghost rand0 = *rand;
        let ghost segs0 = segs;
        let ghost para0 = para_open;
        let ghost decoy0 = decoy_done;
        let first = i == 0;
        let t = &tokens[i];
        proof {
            assert(t@ == toks[i as int]);
        }
        let ghost spec_s = spec_token_segs(toks[i as int], *cfg, first, para0, decoy0, rand0);
        let gsegs = emit_token(&mut out, cfg, t, first, &mut para_open, &mut decoy_done, rand);
        proof {
            lemma_render_segs_app(segs0, gsegs@);
            lemma_texts_of_app(segs0, gsegs@);
            lemma_decoy_count_app(segs0, gsegs@);
            segs = segs0 + gsegs@;
            assert(toks.take(i + 1) =~= toks.take(i as int) + seq![toks[i as int]]);
            assert(texts_of(segs) =~= toks.take(i + 1));
            if det {
                assert(gsegs@ == spec_s.0);
                assert(toks.skip(i as int)[0] == toks[i as int]);
                assert(toks.skip(i as int).skip(1) =~= toks.skip(i + 1));
                let rest_new = spec_body_loop(
                    toks.skip(i + 1),
                    *cfg,
                    false,
                    spec_s.1,
                    spec_s.2,
                    spec_s.3,
                );
                assert(spec_body_loop(toks.skip(i as int), *cfg, first, para0, decoy0, rand0).0
                    == spec_s.0 + rest_new.0);
                assert((segs0 + spec_s.0) + rest_new.0 =~= segs0 + (spec_s.0 + rest_new.0));
            }
        }
        i = i + 1;
    }
    proof {
        assert(toks.take(i as int) =~= toks);
        assert(toks.skip(i as int) =~= Seq::<Seq<char>>::empty());
        if det {
            assert(spec_body_loop(
                Seq::<Seq<char>>::empty(),
                *cfg,
                i == 0,
                para_open,
                decoy_done,
                *rand,
            ).0 == Seq::<Seg>::empty());
            assert(segs + Seq::<Seg>::empty() =~= segs);
        }
    }
    if para_open {
        out.append("</p>");
        proof {
            lemma_push_seg(segs, Seg::ClosePara);
            segs = segs + seq![Seg::ClosePara];
            assert(out@ =~= head + render_segs(segs));
            assert(texts_of(segs) =~= toks);
        }
    } else {
        proof {
            assert(segs + Seq::<Seg>::empty() =~= segs);
        }
    }
    out.append("</body></html>");
    proof {
        assert(out@ =~= render_doc(title@, segs));
        assert(segs_wf(segs, toks, *cfg));
        if det {
            assert(segs =~= spec_assemble_segs(toks, *cfg, *old(rand)).0);
        }
        if tokens@.len() == 0 {
            assert(segs =~= Seq::<Seg>::empty());
        }
    }
    out
}

/// The per-request token count: drawn uniformly from the configured range,
/// and exactly the minimum when the range is a single point.
pub open spec fn spec_draw_count(cfg: AssemblyConfig, rand: Randomness) -> (u32, Randomness) {
    if cfg.min_tokens < cfg.max_tokens {
        (
            (cfg.min_tokens + rand.spec_value((cfg.max_tokens - cfg.min_tokens) as u64)) as u32,
            rand.spec_step(),
        )
    } else {
        (cfg.min_tokens, rand)
    }
}

/// Draw the token count of one page from the configured bounds. Equal
/// bounds draw nothing and yield exactly that count.
pub fn draw_count(cfg: &AssemblyConfig, rand: &mut Randomness) -> (n: u32)
    requires
        cfg.wf(),
    ensures
        cfg.min_tokens <= n <= cfg.max_tokens,
        cfg.min_tokens == cfg.max_tokens ==> n == cfg.min_tokens,
        cfg.min_tokens < cfg.max_tokens ==> n < cfg.max_tokens,
        old(rand).is_deterministic() ==> n == spec_draw_count(*cfg, *old(rand)).0 && *final(rand)
            == spec_draw_count(*cfg, *old(rand)).1,
        old(rand).is_deterministic() ==> final(rand).is_deterministic(),
        !old(rand).is_deterministic() ==> *final(rand) == *old(rand),
{
    if cfg.min_tokens < cfg.max_tokens {
        let span: u64 = (cfg.max_tokens - cfg.min_tokens) as u64;
        let v: u64 = rand.next_below(span);
        cfg.min_tokens + (v as u32)
    } else {
        cfg.min_tokens
    }
}

/// One whole maze page for a deterministic source: the count draw, the
/// sampled walk, and the assembled document.
pub open spec fn spec_maze_page(
    keys: Seq<Seq<char>>,
    succs: Seq<Seq<Seq<char>>>,
    cfg: AssemblyConfig,
    title: Seq<char>,
    rand: Randomness,
) -> (Seq<char>, Randomness) {
    let d = spec_draw_count(cfg, rand);
    let s = spec_sample(keys, succs, d.1, d.0 as nat);
    let a = spec_assemble_segs(s.0, cfg, s.1);
    (render_doc(title, a.0), a.1)
}

/// Serve one request: draw a token count from the configured bounds, sample
/// that many tokens from the shared model, and assemble them into a page
/// titled after the requested path. Every request is answered with a fresh
/// page whose token count lies within the bounds and whose tokens are all
/// observed keys of the model.
pub fn maze_page(
    model: &MarkovIterator,
    cfg: &AssemblyConfig,
    title: &str,
    rand: &mut Randomness,
) -> (out: String)
    requires
        model.can_walk(),
        cfg.wf(),
    ensures
        exists|segs: Seq<Seg>|
            {
                &&& out@ == render_doc(title@, segs)
                &&& segs_wf(segs, texts_of(segs), *cfg)
                &&& cfg.min_tokens <= texts_of(segs).len() <= cfg.max_tokens
                &&& (cfg.min_tokens == cfg.max_tokens ==> texts_of(segs).len() == cfg.min_tokens)
                &&& forall|k: int|
                    0 <= k < texts_of(segs).len() ==> model.keys_view().contains(
                        #[trigger] texts_of(segs)[k],
                    )
            },
        old(rand).is_deterministic() ==> out@ == spec_maze_page(
            model.keys_view(),
            model.succs_view(),
            *cfg,
            title@,
            *old(rand),
        ).0 && *final(rand) == spec_maze_page(
            model.keys_view(),
            model.succs_view(),
            *cfg,
            title@,
            *old(rand),
        ).1,
        !old(rand).is_deterministic() ==> *final(rand) == *old(rand),
{
    let ghost det = old(rand).is_deterministic();
    let n = draw_count(cfg, rand);
    proof {
        if det {
            assert(rand.is_deterministic());
        }
    }
    let toks = model.n_tokens(n, rand);
    let out = assemble(&toks, cfg, title, rand);
    proof {
        let segs = choose|segs: Seq<Seg>|
            out@ == render_doc(title@, segs) && segs_wf(segs, views_of(toks@), *cfg);
        assert(texts_of(segs) == views_of(toks@));
        assert(views_of(toks@).len() == toks@.len());
        assert(forall|k: int|
            0 <= k < toks@.len() ==> views_of(toks@)[k] == #[trigger] toks@[k]@);
        assert(forall|k: int|
            0 <= k < texts_of(segs).len() ==> model.keys_view().contains(
                #[trigger] texts_of(segs)[k],
            ));
        assert(out@ == render_doc(title@, segs) && segs_wf(segs, texts_of(segs), *cfg)
            && cfg.min_tokens <= texts_of(segs).len() <= cfg.max_tokens && (cfg.min_tokens
            == cfg.max_tokens ==> texts_of(segs).len() == cfg.min_tokens) && forall|k: int|
            0 <= k < texts_of(segs).len() ==> model.keys_view().contains(
                #[trigger] texts_of(segs)[k],
            ));
    }
    out
}

/// A token that survives document assembly and recovery intact: non-empty,
/// with no separator, quote, line-break or angle-bracket characters.
pub open spec fn token_wf(t: Seq<char>) -> bool {
    &&& t.len() > 0
    &&& forall|i: int|
        0 <= i < t.len() ==> !is_sep(#[trigger] t[i]) && keep_char(t[i]) && t[i] != '<' && t[i]
            != '>'
}

/// Tokens laid out as the assembler's body text: each preceded by one
/// space.
pub open spec fn spaced(ts: Seq<Seq<char>>) -> Seq<char>
    decreases ts.len(),
{
    if ts.len() == 0 {
        Seq::<char>::empty()
    } else {
        seq![' '] + ts[0] + spaced(ts.skip(1))
    }
}

/// Scanning inside a tag consumes everything up to the closing bracket.
proof fn lemma_strip_in_tag(inner: Seq<char>, rest: Seq<char>)
    requires
        forall|i: int| 0 <= i < inner.len() ==> inner[i] != '>',
    ensures
        strip_tags_acc(inner + seq!['>'] + rest, true) == strip_tags_acc(rest, false),
    decreases inner.len(),
{
    if inner.len() == 0 {
        assert(inner + seq!['>'] + rest =~= seq!['>'] + rest);
        assert((seq!['>'] + rest)[0] == '>');
        assert((seq!['>'] + rest).skip(1) =~= rest);
    } else {
        assert((inner + seq!['>'] + rest)[0] == inner[0]);
        assert((inner + seq!['>'] + rest).skip(1) =~= inner.skip(1) + seq!['>'] + rest);
        lemma_strip_in_tag(inner.skip(1), rest);
    }
}

/// A whole tag contributes nothing to the visible text.
proof fn lemma_strip_tag(inner: Seq<char>, rest: Seq<char>)
    requires
        forall|i: int| 0 <= i < inner.len() ==> inner[i] != '>',
    ensures
        strip_tags_acc(seq!['<'] + inner + seq!['>'] + rest, false) == strip_tags_acc(rest, false),
{
    let s = seq!['<'] + inner + seq!['>'] + rest;
    assert(s[0] == '<');
    assert(s.skip(1) =~= inner + seq!['>'] + rest);
    lemma_strip_in_tag(inner, rest);
}

/// Text without an opening bracket passes through the scan unchanged.
proof fn lemma_strip_text(t: Seq<char>, rest: Seq<char>)
    requires
        forall|i: int| 0 <= i < t.len() ==> t[i] != '<',
    ensures
        strip_tags_acc(t + rest, false) == t + strip_tags_acc(rest, false),
    decreases t.len(),
{
    if t.len() == 0 {
        assert(t + rest =~= rest);
        assert(t + strip_tags_acc(rest, false) =~= strip_tags_acc(rest, false));
    } else {
        assert((t + rest)[0] == t[0]);
        assert((t + rest).skip(1) =~= t.skip(1) + rest);
        lemma_strip_text(t.skip(1), rest);
        assert(seq![t[0]] + (t.skip(1) + strip_tags_acc(rest, false)) =~= t + strip_tags_acc(
            rest,
            false,
        ));
    }
}

/// Stripping the tags of a rendered body, token text and paragraph tags
/// only, leaves exactly the spaced-out tokens.
proof fn lemma_strip_render(segs: Seq<Seg>)
    requires
        forall|i: int| 0 <= i < segs.len() ==> !(#[trigger] segs[i] is Anchor),
        forall|i: int|
            0 <= i < segs.len() ==> (#[trigger] segs[i] matches Seg::Text(t) ==> forall|j: int|
                0 <= j < t.len() ==> #[trigger] t[j] != '<'),
    ensures
        strip_tags_acc(render_segs(segs), false) == spaced(texts_of(segs)),
    decreases segs.len(),
{
    reveal_strlit("<p>");
    reveal_strlit("</p><p>");
    reveal_strlit("</p>");
    reveal_strlit(" ");
    if segs.len() == 0 {
        assert(strip_tags_acc(Seq::<char>::empty(), false) == Seq::<char>::empty());
        assert(texts_of(segs) =~= Seq::<Seq<char>>::empty());
    } else {
        let rest = render_segs(segs.skip(1));
        lemma_strip_render(segs.skip(1));
        match segs[0] {
            Seg::OpenPara => {
                assert("<p>"@ + rest =~= seq!['<'] + seq!['p'] + seq!['>'] + rest);
                lemma_strip_tag(seq!['p'], rest);
                assert(texts_of(segs) =~= texts_of(segs.skip(1)));
            },
            Seg::BreakPara => {
                assert("</p><p>"@ + rest =~= seq!['<'] + seq!['/', 'p'] + seq!['>'] + (seq!['<']
                    + seq!['p'] + seq!['>'] + rest));
                lemma_strip_tag(seq!['/', 'p'], seq!['<'] + seq!['p'] + seq!['>'] + rest);
                lemma_strip_tag(seq!['p'], rest);
                assert(texts_of(segs) =~= texts_of(segs.skip(1)));
            },
            Seg::ClosePara => {
                assert("</p>"@ + rest =~= seq!['<'] + seq!['/', 'p'] + seq!['>'] + rest);
                lemma_strip_tag(seq!['/', 'p'], rest);
                assert(texts_of(segs) =~= texts_of(segs.skip(1)));
            },
            Seg::Text(t) => {
                assert((" "@ + t) + rest =~= (seq![' '] + t) + rest);
                assert(forall|j: int| 0 <= j < (seq![' '] + t).len() ==> (seq![' '] + t)[j] != '<');
                lemma_strip_text(seq![' '] + t, rest);
                assert(texts_of(segs) =~= seq![t] + texts_of(segs.skip(1)));
                assert(spaced(seq![t] + texts_of(segs.skip(1))) == seq![' '] + (seq![t]
                    + texts_of(segs.skip(1)))[0] + spaced((seq![t] + texts_of(segs.skip(1))).skip(
                    1,
                )));
                assert((seq![t] + texts_of(segs.skip(1)))[0] == t);
                assert((seq![t] + texts_of(segs.skip(1))).skip(1) =~= texts_of(segs.skip(1)));
                assert((seq![' '] + t) + spaced(texts_of(segs.skip(1))) =~= seq![' '] + t + spaced(
                    texts_of(segs.skip(1)),
                ));
            },
            Seg::Anchor { .. } => {
                assert(false);
            },
        }
    }
}

/// A run of token characters moves whole into the partial token.
proof fn lemma_tokenize_word(w: Seq<char>, rest: Seq<char>, acc: Seq<char>)
    requires
        forall|i: int| 0 <= i < w.len() ==> !is_sep(#[trigger] w[i]) && keep_char(w[i]),
    ensures
        tokenize_acc(w + rest, acc) == tokenize_acc(rest, acc + w),
    decreases w.len(),
{
    if w.len() == 0 {
        assert(w + rest =~= rest);
        assert(acc + w =~= acc);
    } else {
        assert((w + rest)[0] == w[0]);
        assert((w + rest).skip(1) =~= w.skip(1) + rest);
        lemma_tokenize_word(w.skip(1), rest, acc.push(w[0]));
        assert(acc.push(w[0]) + w.skip(1) =~= acc + w);
    }
}

/// Tokenizing the spaced-out layout of well-formed tokens recovers exactly
/// those tokens, in order.
pub proof fn lemma_tokenize_spaced(ts: Seq<Seq<char>>)
    requires
        forall|i: int| 0 <= i < ts.len() ==> token_wf(#[trigger] ts[i]),
    ensures
        tokenize_spec(spaced(ts)) == ts,
    decreases ts.len(),
{
    if ts.len() == 0 {
        assert(tokenize_spec(Seq::<char>::empty()) =~= Seq::<Seq<char>>::empty());
        assert(ts =~= Seq::<Seq<char>>::empty());
    } else {
        let tail = ts[0] + spaced(ts.skip(1));
        assert(spaced(ts) == seq![' '] + ts[0] + spaced(ts.skip(1)));
        assert(spaced(ts)[0] == ' ');
        assert(spaced(ts).skip(1) =~= tail);
        assert(tokenize_acc(spaced(ts), Seq::<char>::empty()) == tokenize_acc(
            tail,
            Seq::<char>::empty(),
        ));
        lemma_tokenize_word(ts[0], spaced(ts.skip(1)), Seq::<char>::empty());
        assert(Seq::<char>::empty() + ts[0] =~= ts[0]);
        assert(tokenize_acc(tail, Seq::<char>::empty()) == tokenize_acc(
            spaced(ts.skip(1)),
            ts[0],
        ));
        lemma_tokenize_spaced(ts.skip(1));
        if ts.skip(1).len() == 0 {
            assert(spaced(ts.skip(1)) == Seq::<char>::empty());
            assert(tokenize_acc(Seq::<char>::empty(), ts[0]) == seq![ts[0]]);
            assert(ts =~= seq![ts[0]]);
        } else {
            assert(spaced(ts.skip(1))[0] == ' ');
            assert(tokenize_acc(spaced(ts.skip(1)), ts[0]) == seq![ts[0]] + tokenize_acc(
                spaced(ts.skip(1)).skip(1),
                Seq::<char>::empty(),
            ));
            assert(tokenize_acc(spaced(ts.skip(1)), Seq::<char>::empty()) == tokenize_acc(
                spaced(ts.skip(1)).skip(1),
                Seq::<char>::empty(),
            ));
            assert(ts =~= seq![ts[0]] + ts.skip(1));
        }
    }
}

/// Round trip of assembly: stripping all tags from an assembled body and
/// tokenizing the remaining text recovers exactly the assembled tokens, in
/// their original order. It holds for every assembled document without
/// anchors — in particular whenever link injection has probability zero —
/// and for tokens whose characters survive tokenization.
pub proof fn lemma_strip_recovers_tokens(segs: Seq<Seg>, toks: Seq<Seq<char>>, cfg: AssemblyConfig)
    requires
        segs_wf(segs, toks, cfg),
        cfg.link_inject.is_never(),
        forall|i: int| 0 <= i < toks.len() ==> token_wf(#[trigger] toks[i]),
    ensures
        tokenize_spec(strip_tags_spec(render_segs(segs))) == toks,
{
    assert(forall|i: int| 0 <= i < segs.len() ==> !(#[trigger] segs[i] is Anchor)) by {
        assert(forall|i: int| 0 <= i < segs.len() ==> seg_ok(#[trigger] segs[i], cfg));
    }
    lemma_texts_within(segs, toks);
    lemma_strip_render(segs);
    lemma_tokenize_spaced(toks);
}

/// Every character of every text segment comes from one of the carried
/// tokens.
proof fn lemma_texts_within(segs: Seq<Seg>, toks: Seq<Seq<char>>)
    requires
        texts_of(segs) == toks,
        forall|i: int| 0 <= i < toks.len() ==> token_wf(#[trigger] toks[i]),
    ensures
        forall|i: int|
            0 <= i < segs.len() ==> (#[trigger] segs[i] matches Seg::Text(t) ==> forall|j: int|
                0 <= j < t.len() ==> #[trigger] t[j] != '<'),
    decreases segs.len(),
{
    if segs.len() > 0 {
        match segs[0] {
            Seg::Text(t) => {
                assert(texts_of(segs) == seq![t] + texts_of(segs.skip(1)));
                assert(toks[0] == (seq![t] + texts_of(segs.skip(1)))[0]);
                assert(toks[0] == t);
                assert(token_wf(t));
                assert(texts_of(segs.skip(1)) =~= toks.skip(1));
                assert(forall|i: int|
                    0 <= i < toks.skip(1).len() ==> toks.skip(1)[i] == toks[i + 1]);
                lemma_texts_within(segs.skip(1), toks.skip(1));
                assert(forall|i: int| 0 <= i < segs.len() - 1 ==> segs.skip(1)[i] == segs[i + 1]);
                assert forall|i: int| 0 <= i < segs.len() implies (#[trigger] segs[i] matches Seg::Text(
                    u,
                ) ==> forall|j: int| 0 <= j < u.len() ==> #[trigger] u[j] != '<') by {
                    if i > 0 {
                        assert(segs[i] == segs.skip(1)[i - 1]);
                    }
                }
            },
            _ => {
                assert(texts_of(segs) == Seq::<Seq<char>>::empty() + texts_of(segs.skip(1)));
                assert(texts_of(segs.skip(1)) =~= toks);
                lemma_texts_within(segs.skip(1), toks);
                assert(forall|i: int| 0 <= i < segs.len() - 1 ==> segs.skip(1)[i] == segs[i + 1]);
                assert forall|i: int| 0 <= i < segs.len() implies (#[trigger] segs[i] matches Seg::Text(
                    u,
                ) ==> forall|j: int| 0 <= j < u.len() ==> #[trigger] u[j] != '<') by {
                    if i > 0 {
                        assert(segs[i] == segs.skip(1)[i - 1]);
                    }
                }
            },
        }
    }
}

/// No decoy anchor ever appears in a document assembled under a zero decoy
/// probability, whatever the corpus, the token count or the randomness
/// source.
pub proof fn lemma_no_decoy_when_never(segs: Seq<Seg>, toks: Seq<Seq<char>>, cfg: AssemblyConfig)
    requires
        segs_wf(segs, toks, cfg),
        cfg.decoy.is_never(),
    ensures
        decoy_count(segs) == 0,
        forall|i: int| 0 <= i < segs.len() ==> !is_decoy(#[trigger] segs[i]),
{
    assert(forall|i: int| 0 <= i < segs.len() ==> !is_decoy(#[trigger] segs[i])) by {
        assert(forall|i: int| 0 <= i < segs.len() ==> seg_ok(#[trigger] segs[i], cfg));
    }
    lemma_count_zero_without_decoys(segs);
}

proof fn lemma_count_zero_without_decoys(segs: Seq<Seg>)
    requires
        forall|i: int| 0 <= i < segs.len() ==> !is_decoy(#[trigger] segs[i]),
    ensures
        decoy_count(segs) == 0,
    decreases segs.len(),
{
    if segs.len() > 0 {
        assert(forall|i: int| 0 <= i < segs.len() - 1 ==> segs.skip(1)[i] == segs[i + 1]);
        lemma_count_zero_without_decoys(segs.skip(1));
    }
}

} // verus!
