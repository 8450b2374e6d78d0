//! Tokenization and tag stripping.
//!
//! A corpus source is plain text or markup. Plain text is split into tokens
//! on spaces and line breaks, dropping quote and line-break characters from
//! each token while keeping punctuation. Markup is first reduced to its
//! visible text by removing every tag, then tokenized the same way.
use vstd::prelude::*;

verus! {

/// Characters that separate tokens.
pub open spec fn is_sep(c: char) -> bool {
    c == ' ' || c == '\n'
}

/// Characters that survive inside a token: quote and line-break characters
/// are dropped, everything else — punctuation included — is kept.
pub open spec fn keep_char(c: char) -> bool {
    c != '\n' && c != '\r' && c != '"' && c != '\''
}

/// The tokens of `s`, with `t` the (already filtered) partial token read so
/// far: split on separators, drop the characters `keep_char` refuses, and
/// drop tokens that end up empty.
pub open spec fn tokenize_acc(s: Seq<char>, t: Seq<char>) -> Seq<Seq<char>>
    decreases s.len(),
{
    if s.len() == 0 {
        if t.len() == 0 {
            Seq::<Seq<char>>::empty()
        } else {
            seq![t]
        }
    } else if is_sep(s[0]) {
        (if t.len() == 0 {
            Seq::<Seq<char>>::empty()
        } else {
            seq![t]
        }) + tokenize_acc(s.skip(1), Seq::<char>::empty())
    } else if keep_char(s[0]) {
        tokenize_acc(s.skip(1), t.push(s[0]))
    } else {
        tokenize_acc(s.skip(1), t)
    }
}

/// The tokens of a text.
pub open spec fn tokenize_spec(s: Seq<char>) -> Seq<Seq<char>> {
    tokenize_acc(s, Seq::<char>::empty())
}

/// The text of `s` outside tags: a `<` opens a tag, the following `>`
/// closes it, and everything in between is discarded.
pub open spec fn strip_tags_acc(s: Seq<char>, in_tag: bool) -> Seq<char>
    decreases s.len(),
{
    if s.len() == 0 {
        Seq::<char>::empty()
    } else if in_tag {
        strip_tags_acc(s.skip(1), s[0] != '>')
    } else if s[0] == '<' {
        strip_tags_acc(s.skip(1), true)
    } else {
        seq![s[0]] + strip_tags_acc(s.skip(1), false)
    }
}

/// The visible text of a markup fragment.
pub open spec fn strip_tags_spec(s: Seq<char>) -> Seq<char> {
    strip_tags_acc(s, false)
}

/// The characters of a string, in order.
pub fn to_chars(s: &str) -> (r: Vec<char>)
    ensures
        r@ == s@,
{
    let n: usize = s.unicode_len();
    let mut r: Vec<char> = Vec::new();
    let mut i: usize = 0;
    while i < n
        invariant
            n == s@.len(),
            i <= n,
            r@ == s@.subrange(0, i as int),
        decreases n - i,
    {
        let c = s.get_char(i);
        r.push(c);
        proof {
            assert(r@ =~= s@.subrange(0, i + 1));
        }
        i = i + 1;
    }
    proof {
        assert(r@ =~= s@);
    }
    r
}

/// Relies on String::push: appends exactly one character.
#[verifier::external_body]
pub(crate) fn push_char(s: &mut String, c: char) -> (u: ())
    ensures
        final(s)@ == old(s)@.push(c),
{
    s.push(c)
}

/// Whether two string slices hold the same characters.
pub fn str_eq(a: &str, b: &str) -> (r: bool)
    ensures
        r == (a@ == b@),
{
    let av = to_chars(a);
    let bv = to_chars(b);
    if av.len() != bv.len() {
        proof {
            assert(a@.len() != b@.len());
        }
        return false;
    }
    let n = av.len();
    let mut i: usize = 0;
    while i < n
        invariant
            n == av@.len() == bv@.len(),
            av@ == a@,
            bv@ == b@,
            i <= n,
            forall|j: int| 0 <= j < i ==> av@[j] == bv@[j],
        decreases n - i,
    {
        if av[i] != bv[i] {
            proof {
                assert(a@[i as int] != b@[i as int]);
            }
            return false;
        }
        i = i + 1;
    }
    proof {
        assert(a@ =~= b@);
    }
    true
}

/// Tokenize plain text: split on spaces and line breaks, drop quote and
/// line-break characters from each token, and drop empty tokens.
pub fn tokenize_text(contents: &str) -> (r: Vec<String>)
    ensures
        r@.map_values(|t: String| t@) == tokenize_spec(contents@),
{
    let cs = to_chars(contents);
    let mut out: Vec<String> = Vec::new();
    let mut word = String::new();
    let mut i: usize = 0;
    proof {
        assert(cs@.skip(0) =~= cs@);
        assert(out@.map_values(|t: String| t@) + tokenize_acc(cs@, Seq::<char>::empty())
            =~= tokenize_acc(cs@, Seq::<char>::empty()));
    }
    while i < cs.len()
        invariant
            cs@ == contents@,
            i <= cs@.len(),
            out@.map_values(|t: String| t@) + tokenize_acc(cs@.skip(i as int), word@)
                == tokenize_spec(contents@),
        decreases cs@.len() - i,
    {
        let ghost pre_out = out@.map_values(|t: String| t@);
        let ghost pre_word = word@;
        let ghost tail = cs@.skip(i as int);
        let c = cs[i];
        proof {
            assert(tail[0] == c);
            assert(tail.skip(1) =~= cs@.skip(i + 1));
        }
        if c == ' ' || c == '\n' {
            proof {
                assert(tokenize_acc(tail, pre_word) == (if pre_word.len() == 0 {
                    Seq::<Seq<char>>::empty()
                } else {
                    seq![pre_word]
                }) + tokenize_acc(cs@.skip(i + 1), Seq::<char>::empty()));
            }
            if !word.as_str().is_empty() {
                out.push(word);
                word = String::new();
                proof {
                    assert(out@.map_values(|t: String| t@) =~= pre_out + seq![pre_word]);
                    assert((pre_out + seq![pre_word]) + tokenize_acc(
                        cs@.skip(i + 1),
                        Seq::<char>::empty(),
                    ) =~= pre_out + (seq![pre_word] + tokenize_acc(
                        cs@.skip(i + 1),
                        Seq::<char>::empty(),
                    )));
                }
            } else {
                proof {
                    assert(pre_word =~= Seq::<char>::empty());
                    assert(Seq::<Seq<char>>::empty() + tokenize_acc(
                        cs@.skip(i + 1),
                        Seq::<char>::empty(),
                    ) =~= tokenize_acc(cs@.skip(i + 1), Seq::<char>::empty()));
                }
            }
        } else if c != '\r' && c != '"' && c != '\'' {
            proof {
                assert(tokenize_acc(tail, pre_word) == tokenize_acc(
                    cs@.skip(i + 1),
                    pre_word.push(c),
                ));
            }
            push_char(&mut word, c);
            proof {
                assert(word@ == pre_word.push(c));
                assert(out@.map_values(|t: String| t@) + tokenize_acc(cs@.skip(i + 1), word@)
                    == tokenize_spec(contents@));
            }
        } else {
            proof {
                assert(tokenize_acc(tail, pre_word) == tokenize_acc(cs@.skip(i + 1), pre_word));
            }
        }
        i = i + 1;
    }
    proof {
        assert(cs@.skip(i as int) =~= Seq::<char>::empty());
    }
    if !word.as_str().is_empty() {
        let ghost pre_out = out@.map_values(|t: String| t@);
        let ghost pre_word = word@;
        proof {
            assert(tokenize_acc(Seq::<char>::empty(), pre_word) == seq![pre_word]);
        }
        out.push(word);
        proof {
            assert(out@.map_values(|t: String| t@) =~= pre_out + seq![pre_word]);
        }
    } else {
        proof {
            assert(tokenize_acc(Seq::<char>::empty(), word@) =~= Seq::<Seq<char>>::empty());
            assert(out@.map_values(|t: String| t@) + Seq::<Seq<char>>::empty() =~= out@.map_values(
                |t: String| t@,
            ));
        }
    }
    out
}

/// Strip every tag from a markup fragment, keeping the visible text.
pub fn strip_tags(html: &str) -> (r: String)
    ensures
        r@ == strip_tags_spec(html@),
{
    let cs = to_chars(html);
    let mut out = String::new();
    let mut in_tag = false;
    let mut i: usize = 0;
    proof {
        assert(cs@.skip(0) =~= cs@);
        assert(out@ + strip_tags_acc(cs@, false) =~= strip_tags_acc(cs@, false));
    }
    while i < cs.len()
        invariant
            cs@ == html@,
            i <= cs@.len(),
            out@ + strip_tags_acc(cs@.skip(i as int), in_tag) == strip_tags_spec(html@),
        decreases cs@.len() - i,
    {
        let ghost pre_out = out@;
        let c = cs[i];
        proof {
            assert(cs@.skip(i as int)[0] == c);
            assert(cs@.skip(i as int).skip(1) =~= cs@.skip(i + 1));
        }
        if in_tag {
            in_tag = c != '>';
        } else if c == '<' {
            in_tag = true;
        } else {
            push_char(&mut out, c);
            proof {
                assert(pre_out + (seq![c] + strip_tags_acc(cs@.skip(i + 1), false)) =~= out@
                    + strip_tags_acc(cs@.skip(i + 1), false));
            }
        }
        i = i + 1;
    }
    proof {
        assert(cs@.skip(i as int) =~= Seq::<char>::empty());
        assert(out@ + Seq::<char>::empty() =~= out@);
    }
    out
}

/// The tokens of a markup document: its visible text, tokenized.
pub fn html_tokens(html: &str) -> (r: Vec<String>)
    ensures
        r@.map_values(|t: String| t@) == tokenize_spec(strip_tags_spec(html@)),
{
    let text = strip_tags(html);
    tokenize_text(text.as_str())
}

} // verus!
