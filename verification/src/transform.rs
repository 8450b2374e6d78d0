//! The batch transformer's per-file logic.
//!
//! A text file is rewritten word by word: each whitespace-delimited word is
//! independently kept or replaced by the next token of the sequential walk,
//! with line structure and single-space joining preserved. File kinds are
//! told apart by extension, and image scrambling picks a random replacement
//! from the pool or keeps the original. The caller walks the directory tree
//! and reads and writes the files.
use vstd::prelude::*;

use crate::Prob;
use crate::markov::{views_of, MarkovIterator, spec_next};
use crate::rng::Randomness;
use crate::text::{push_char, to_chars};

verus! {

/// What a file's extension says about how to transform it.
#[derive(Clone, Copy, PartialEq, Eq, Structural, Debug)]
pub enum FileKind {
    /// Markup, rewritten through the tree-rewrite collaborator.
    Html,
    /// Plain text, rewritten word by word.
    Text,
    /// An image, kept or scrambled.
    Image,
    /// Anything else, copied verbatim.
    Other,
}

/// The kind an extension selects: only `html` and `txt` are rewritten, the
/// known image extensions may be scrambled, and the rest is copied.
pub open spec fn file_kind_spec(e: Seq<char>) -> FileKind {
    if e == "html"@ {
        FileKind::Html
    } else if e == "txt"@ {
        FileKind::Text
    } else if e == "png"@ || e == "gif"@ || e == "svg"@ || e == "jpg"@ || e == "jpeg"@ || e
        == "webp"@ || e == "avif"@ {
        FileKind::Image
    } else {
        FileKind::Other
    }
}

/// Classify a file by its extension.
pub fn file_kind(ext: &str) -> (k: FileKind)
    ensures
        k == file_kind_spec(ext@),
{
    if crate::text::str_eq(ext, "html") {
        FileKind::Html
    } else if crate::text::str_eq(ext, "txt") {
        FileKind::Text
    } else if crate::text::str_eq(ext, "png") || crate::text::str_eq(ext, "gif")
        || crate::text::str_eq(ext, "svg") || crate::text::str_eq(ext, "jpg")
        || crate::text::str_eq(ext, "jpeg") || crate::text::str_eq(ext, "webp")
        || crate::text::str_eq(ext, "avif") {
        FileKind::Image
    } else {
        FileKind::Other
    }
}

/// The image-scramble decision for a deterministic source.
pub open spec fn spec_pick_image(count: usize, scramble: Prob, rand: Randomness) -> (
    Option<usize>,
    Randomness,
) {
    if count == 0 {
        (None, rand)
    } else {
        let b = rand.spec_bernoulli(scramble);
        let r1 = rand.spec_step();
        if b {
            (Some(r1.spec_value(count as u64) as usize), r1.spec_step())
        } else {
            (None, r1)
        }
    }
}

/// Decide whether to replace an image and by which pool member: `None`
/// keeps the original. An empty pool or a zero scramble probability never
/// replaces anything.
pub fn pick_image(count: usize, scramble: &Prob, rand: &mut Randomness) -> (r: Option<usize>)
    requires
        scramble.wf(),
    ensures
        r matches Some(i) ==> i < count,
        scramble.num == 0 ==> r is None,
        count == 0 ==> r is None,
        old(rand).is_deterministic() ==> r == spec_pick_image(count, *scramble, *old(rand)).0
            && *final(rand) == spec_pick_image(count, *scramble, *old(rand)).1,
        !old(rand).is_deterministic() ==> *final(rand) == *old(rand),
{
    if count == 0 {
        return None;
    }
    if rand.bernoulli(scramble) {
        let v: u64 = rand.next_below(count as u64);
        Some(v as usize)
    } else {
        None
    }
}

/// The words of a text split on a separator, keeping empty pieces so that
/// the original spacing is preserved on rejoining; `acc` is the piece read
/// so far.
pub open spec fn split_acc(s: Seq<char>, sep: char, acc: Seq<char>) -> Seq<Seq<char>>
    decreases s.len(),
{
    if s.len() == 0 {
        seq![acc]
    } else if s[0] == sep {
        seq![acc] + split_acc(s.skip(1), sep, Seq::<char>::empty())
    } else {
        split_acc(s.skip(1), sep, acc.push(s[0]))
    }
}

/// The pieces of a text split on a separator; always at least one piece.
pub open spec fn split_on(s: Seq<char>, sep: char) -> Seq<Seq<char>> {
    split_acc(s, sep, Seq::<char>::empty())
}

/// The pieces joined back with a separator between each two.
pub open spec fn join_with(ts: Seq<Seq<char>>, sep: char) -> Seq<char>
    decreases ts.len(),
{
    if ts.len() == 0 {
        Seq::<char>::empty()
    } else if ts.len() == 1 {
        ts[0]
    } else {
        ts[0] + seq![sep] + join_with(ts.skip(1), sep)
    }
}

/// Appending one piece to a join: a separator comes between, except before
/// the first piece.
pub proof fn lemma_join_push(ts: Seq<Seq<char>>, l: Seq<char>, sep: char)
    ensures
        ts.len() == 0 ==> join_with(ts.push(l), sep) == l,
        ts.len() > 0 ==> join_with(ts.push(l), sep) == join_with(ts, sep) + seq![sep] + l,
    decreases ts.len(),
{
    if ts.len() == 0 {
        assert(ts.push(l)[0] == l);
        assert(join_with(ts.push(l), sep) == l);
    } else if ts.len() == 1 {
        assert(ts.push(l).skip(1) =~= seq![l]);
        assert(join_with(seq![l], sep) == l);
        assert(ts.push(l)[0] == ts[0]);
    } else {
        lemma_join_push(ts.skip(1), l, sep);
        assert(ts.push(l).skip(1) =~= ts.skip(1).push(l));
        assert(ts.push(l)[0] == ts[0]);
        assert(ts[0] + seq![sep] + (join_with(ts.skip(1), sep) + seq![sep] + l) =~= (ts[0]
            + seq![sep] + join_with(ts.skip(1), sep)) + seq![sep] + l);
    }
}

/// Split a string on a separator character, keeping empty pieces.
pub fn split_char(s: &str, sep: char) -> (r: Vec<String>)
    ensures
        views_of(r@) == split_on(s@, sep),
        r@.len() >= 1,
{
    let cs = to_chars(s);
    let mut out: Vec<String> = Vec::new();
    let mut piece = String::new();
    let mut i: usize = 0;
    proof {
        assert(cs@.skip(0) =~= cs@);
        assert(views_of(out@) + split_acc(cs@, sep, Seq::<char>::empty()) =~= split_acc(
            cs@,
            sep,
            Seq::<char>::empty(),
        ));
    }
    while i < cs.len()
        invariant
            cs@ == s@,
            i <= cs@.len(),
            views_of(out@) + split_acc(cs@.skip(i as int), sep, piece@) == split_on(s@, sep),
        decreases cs@.len() - i,
    {
        let ghost pre_out = views_of(out@);
        let ghost pre_piece = piece@;
        let ghost tail = cs@.skip(i as int);
        let c = cs[i];
        proof {
            assert(tail[0] == c);
            assert(tail.skip(1) =~= cs@.skip(i + 1));
        }
        if c == sep {
            proof {
                assert(split_acc(tail, sep, pre_piece) == seq![pre_piece] + split_acc(
                    cs@.skip(i + 1),
                    sep,
                    Seq::<char>::empty(),
                ));
            }
            out.push(piece);
            piece = String::new();
            proof {
                assert(views_of(out@) =~= pre_out + seq![pre_piece]);
                assert((pre_out + seq![pre_piece]) + split_acc(
                    cs@.skip(i + 1),
                    sep,
                    Seq::<char>::empty(),
                ) =~= pre_out + (seq![pre_piece] + split_acc(
                    cs@.skip(i + 1),
                    sep,
                    Seq::<char>::empty(),
                )));
            }
        } else {
            proof {
                assert(split_acc(tail, sep, pre_piece) == split_acc(
                    cs@.skip(i + 1),
                    sep,
                    pre_piece.push(c),
                ));
            }
            push_char(&mut piece, c);
        }
        i = i + 1;
    }
    proof {
        assert(cs@.skip(i as int) =~= Seq::<char>::empty());
        assert(split_acc(Seq::<char>::empty(), sep, piece@) == seq![piece@]);
    }
    let ghost pre_out = views_of(out@);
    let ghost pre_piece = piece@;
    out.push(piece);
    proof {
        assert(views_of(out@) =~= pre_out + seq![pre_piece]);
    }
    out
}

/// The rewrite of one line's words, for a deterministic source: each word
/// is kept on its own keep draw, or replaced by the next token of the
/// sequential walk.
pub open spec fn spec_transform_words(
    words: Seq<Seq<char>>,
    keep: Prob,
    keys: Seq<Seq<char>>,
    succs: Seq<Seq<Seq<char>>>,
    cur: Option<Seq<char>>,
    rand: Randomness,
) -> (Seq<Seq<char>>, Option<Seq<char>>, Randomness)
    decreases words.len(),
{
    if words.len() == 0 {
        (Seq::<Seq<char>>::empty(), cur, rand)
    } else {
        let b = rand.spec_bernoulli(keep);
        let r1 = rand.spec_step();
        if b {
            let rest = spec_transform_words(words.skip(1), keep, keys, succs, cur, r1);
            (seq![words[0]] + rest.0, rest.1, rest.2)
        } else {
            let st = spec_next(keys, succs, cur, r1);
            let rest = spec_transform_words(words.skip(1), keep, keys, succs, Some(st.1), st.2);
            (seq![st.0] + rest.0, rest.1, rest.2)
        }
    }
}

/// The rewrite of a whole text, line by line, for a deterministic source.
pub open spec fn spec_transform_lines(
    lines: Seq<Seq<char>>,
    keep: Prob,
    keys: Seq<Seq<char>>,
    succs: Seq<Seq<Seq<char>>>,
    cur: Option<Seq<char>>,
    rand: Randomness,
) -> (Seq<Seq<char>>, Option<Seq<char>>, Randomness)
    decreases lines.len(),
{
    if lines.len() == 0 {
        (Seq::<Seq<char>>::empty(), cur, rand)
    } else {
        let w = spec_transform_words(split_on(lines[0], ' '), keep, keys, succs, cur, rand);
        let rest = spec_transform_lines(lines.skip(1), keep, keys, succs, w.1, w.2);
        (seq![join_with(w.0, ' ')] + rest.0, rest.1, rest.2)
    }
}

/// The rewrite of a whole text file, for a deterministic source: split on
/// line breaks, rewrite each line's words, join words with single spaces
/// and lines with line breaks.
pub open spec fn spec_transform_text(
    s: Seq<char>,
    keep: Prob,
    keys: Seq<Seq<char>>,
    succs: Seq<Seq<Seq<char>>>,
    cur: Option<Seq<char>>,
    rand: Randomness,
) -> (Seq<char>, Option<Seq<char>>, Randomness) {
    let l = spec_transform_lines(split_on(s, '\n'), keep, keys, succs, cur, rand);
    (join_with(l.0, '\n'), l.1, l.2)
}

/// Rewrite one line's words: each is independently kept with the keep
/// probability or replaced by the next token of the walk. The word count is
/// preserved and every word of the result is the original word or an
/// observed key of the model.
fn transform_words(
    words: &Vec<String>,
    keep: &Prob,
    model: &mut MarkovIterator,
    rand: &mut Randomness,
) -> (out: Vec<String>)
    requires
        keep.wf(),
        old(model).can_walk(),
    ensures
        final(model).can_walk(),
        final(model).keys_view() == old(model).keys_view(),
        final(model).succs_view() == old(model).succs_view(),
        out@.len() == words@.len(),
        forall|k: int|
            0 <= k < out@.len() ==> #[trigger] out@[k]@ == words@[k]@ || old(
                model,
            ).keys_view().contains(out@[k]@),
        old(rand).is_deterministic() ==> {
            let w = spec_transform_words(
                views_of(words@),
                *keep,
                old(model).keys_view(),
                old(model).succs_view(),
                old(model).current_view(),
                *old(rand),
            );
            &&& views_of(out@) == w.0
            &&& final(model).current_view() == w.1
            &&& *final(rand) == w.2
        },
        old(rand).is_deterministic() ==> final(rand).is_deterministic(),
        !old(rand).is_deterministic() ==> *final(rand) == *old(rand),
{
    let ghost det = old(rand).is_deterministic();
    let ghost keys = model.keys_view();
    let ghost succs = model.succs_view();
    let ghost wviews = views_of(words@);
    let ghost full = spec_transform_words(
        wviews,
        *keep,
        keys,
        succs,
        old(model).current_view(),
        *old(rand),
    );
    let mut out: Vec<String> = Vec::new();
    let mut i: usize = 0;
    proof {
        assert(wviews.skip(0) =~= wviews);
        assert(views_of(out@) + full.0 =~= full.0);
    }
    while i < words.len()
        invariant
            keep.wf(),
            keys == old(model).keys_view(),
            succs == old(model).succs_view(),
            model.keys_view() == keys,
            model.succs_view() == succs,
            model.can_walk(),
            wviews == views_of(words@),
            wviews.len() == words@.len(),
            i <= words@.len(),
            out@.len() == i,
            forall|k: int|
                0 <= k < out@.len() ==> #[trigger] out@[k]@ == words@[k]@ || keys.contains(
                    out@[k]@,
                ),
            det == old(rand).is_deterministic(),
            det ==> ({
                let rest = spec_transform_words(
                    wviews.skip(i as int),
                    *keep,
                    keys,
                    succs,
                    model.current_view(),
                    *rand,
                );
                &&& views_of(out@) + rest.0 == full.0
                &&& rest.1 == full.1
                &&& rest.2 == full.2
            }),
            det ==> rand.is_deterministic(),
            !det ==> *rand == *old(rand),
        decreases words@.len() - i,
    {
        let ghost pre_out = views_of(out@);
        let ghost rand0 = *rand;
        let ghost cur0 = model.current_view();
        proof {
            assert(wviews.skip(i as int)[0] == wviews[i as int]);
            assert(wviews.skip(i as int).skip(1) =~= wviews.skip(i + 1));
            assert(wviews[i as int] == words@[i as int]@);
        }
        let w: String = if rand.bernoulli(keep) {
            words[i].clone()
        } else {
            model.next_token(rand)
        };
        out.push(w);
        proof {
            assert(views_of(out@) =~= pre_out + seq![out@.last()@]);
            if det {
                let rest0 = spec_transform_words(
                    wviews.skip(i as int),
                    *keep,
                    keys,
                    succs,
                    cur0,
                    rand0,
                );
                let rest1 = spec_transform_words(
                    wviews.skip(i + 1),
                    *keep,
                    keys,
                    succs,
                    model.current_view(),
                    *rand,
                );
                assert(rest0.0 == seq![out@.last()@] + rest1.0);
                assert((pre_out + seq![out@.last()@]) + rest1.0 =~= pre_out + (seq![out@.last()@]
                    + rest1.0));
            }
        }
        i = i + 1;
    }
    proof {
        assert(wviews.skip(i as int) =~= Seq::<Seq<char>>::empty());
        assert(views_of(out@) + Seq::<Seq<char>>::empty() =~= views_of(out@));
    }
    out
}

/// Rewrite a whole text file word by word: line structure and single-space
/// joining are preserved, each word is independently kept or replaced by
/// the next generated token, and with a deterministic source the result is
/// exactly the specified rewrite.
pub fn transform_text(
    contents: &str,
    keep: &Prob,
    model: &mut MarkovIterator,
    rand: &mut Randomness,
) -> (out: String)
    requires
        keep.wf(),
        old(model).can_walk(),
    ensures
        final(model).can_walk(),
        final(model).keys_view() == old(model).keys_view(),
        final(model).succs_view() == old(model).succs_view(),
        old(rand).is_deterministic() ==> {
            let t = spec_transform_text(
                contents@,
                *keep,
                old(model).keys_view(),
                old(model).succs_view(),
                old(model).current_view(),
                *old(rand),
            );
            &&& out@ == t.0
            &&& final(model).current_view() == t.1
            &&& *final(rand) == t.2
        },
        old(rand).is_deterministic() ==> final(rand).is_deterministic(),
        !old(rand).is_deterministic() ==> *final(rand) == *old(rand),
{
    let ghost det = old(rand).is_deterministic();
    let ghost keys = model.keys_view();
    let ghost succs = model.succs_view();
    let lines = split_char(contents, '\n');
    let ghost lviews = views_of(lines@);
    let ghost full = spec_transform_lines(
        lviews,
        *keep,
        keys,
        succs,
        old(model).current_view(),
        *old(rand),
    );
    let ghost mut done: Seq<Seq<char>> = Seq::<Seq<char>>::empty();
    let mut out = String::new();
    let mut i: usize = 0;
    proof {
        assert(lviews.skip(0) =~= lviews);
        assert(done + full.0 =~= full.0);
        assert(join_with(Seq::<Seq<char>>::empty(), '\n') == Seq::<char>::empty());
    }
    while i < lines.len()
        invariant
            keep.wf(),
            keys == old(model).keys_view(),
            succs == old(model).succs_view(),
            model.keys_view() == keys,
            model.succs_view() == succs,
            model.can_walk(),
            lviews == views_of(lines@),
            lviews.len() == lines@.len(),
            i <= lines@.len(),
            done.len() == i,
            out@ == join_with(done, '\n'),
            det == old(rand).is_deterministic(),
            det ==> ({
                let rest = spec_transform_lines(
                    lviews.skip(i as int),
                    *keep,
                    keys,
                    succs,
                    model.current_view(),
                    *rand,
                );
                &&& done + rest.0 == full.0
                &&& rest.1 == full.1
                &&& rest.2 == full.2
            }),
            det ==> rand.is_deterministic(),
            !det ==> *rand == *old(rand),
        decreases lines@.len() - i,
    {
        let ghost pre_done = done;
        let ghost rand0 = *rand;
        let ghost cur0 = model.current_view();
        proof {
            assert(lviews.skip(i as int)[0] == lviews[i as int]);
            assert(lviews.skip(i as int).skip(1) =~= lviews.skip(i + 1));
            assert(lviews[i as int] == lines@[i as int]@);
        }
        let words = split_char(lines[i].as_str(), ' ');
        let new_words = transform_words(&words, keep, model, rand);
        let mut line = String::new();
        let mut j: usize = 0;
        proof {
            assert(join_with(Seq::<Seq<char>>::empty(), ' ') == Seq::<char>::empty());
        }
        while j < new_words.len()
            invariant
                j <= new_words@.len(),
                line@ == join_with(views_of(new_words@).take(j as int), ' '),
            decreases new_words@.len() - j,
        {
            if j > 0 {
                line.append(" ");
            }
            line.append(new_words[j].as_str());
            proof {
                reveal_strlit(" ");
                assert(" "@ =~= seq![' ']);
                let taken = views_of(new_words@).take(j as int);
                lemma_join_push(taken, views_of(new_words@)[j as int], ' ');
                assert(views_of(new_words@).take(j + 1) =~= taken.push(
                    views_of(new_words@)[j as int],
                ));
                assert(views_of(new_words@)[j as int] == new_words@[j as int]@);
                if j > 0 {
                    assert(line@ =~= join_with(taken, ' ') + seq![' '] + new_words@[j as int]@);
                } else {
                    assert(taken =~= Seq::<Seq<char>>::empty());
                    assert(line@ =~= new_words@[j as int]@);
                }
            }
            j = j + 1;
        }
        proof {
            assert(views_of(new_words@).take(new_words@.len() as int) =~= views_of(new_words@));
        }
        if i > 0 {
            out.append("\n");
        }
        out.append(line.as_str());
        proof {
            reveal_strlit("\n");
            assert("\n"@ =~= seq!['\n']);
            lemma_join_push(pre_done, line@, '\n');
            done = pre_done.push(line@);
            assert(out@ =~= join_with(done, '\n'));
            if det {
                let w = spec_transform_words(
                    split_on(lviews[i as int], ' '),
                    *keep,
                    keys,
                    succs,
                    cur0,
                    rand0,
                );
                assert(views_of(words@) == split_on(lviews[i as int], ' '));
                assert(views_of(new_words@) == w.0);
                assert(line@ == join_with(w.0, ' '));
                let rest0 = spec_transform_lines(
                    lviews.skip(i as int),
                    *keep,
                    keys,
                    succs,
                    cur0,
                    rand0,
                );
                let rest1 = spec_transform_lines(
                    lviews.skip(i + 1),
                    *keep,
                    keys,
                    succs,
                    model.current_view(),
                    *rand,
                );
                assert(rest0.0 == seq![join_with(w.0, ' ')] + rest1.0);
                assert(done + rest1.0 =~= pre_done + (seq![join_with(w.0, ' ')] + rest1.0));
            }
        }
        i = i + 1;
    }
    proof {
        assert(lviews.skip(i as int) =~= Seq::<Seq<char>>::empty());
        assert(done + Seq::<Seq<char>>::empty() =~= done);
    }
    out
}

} // verus!
