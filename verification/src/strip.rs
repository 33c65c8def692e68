//! Removal of HTML-style tags before scanning: only text-node content is
//! kept, each fragment trimmed, empty fragments dropped, and the rest joined
//! by single spaces. The tag parsing itself is done by an outside HTML
//! parser; everything after it is verified.

use vstd::prelude::*;
use crate::chars::{is_space_char, space_char, chars_of, string_from_chars};
use crate::tokenizer::{run_end, space_pred, tokenize, views, tokenize_chars};

verus! {

/// First index `j <= limit` such that `s[j..limit]` holds no trailing space
/// run, i.e. the end of `s` trimmed from the right down to `j`.
pub open spec fn rspace_start(s: Seq<char>, j: int) -> int
    decreases j,
        when 0 <= j <= s.len()
{
    if j > 0 && is_space_char(s[j - 1]) {
        rspace_start(s, j - 1)
    } else {
        j
    }
}

proof fn lemma_rspace_start_past(s: Seq<char>, j: int, a: int)
    requires
        0 <= a < j <= s.len(),
        !is_space_char(s[a]),
    ensures
        a < rspace_start(s, j),
    decreases j,
{
    if j > 0 && is_space_char(s[j - 1]) {
        lemma_rspace_start_past(s, j - 1, a);
    }
}

/// A fragment with its leading and trailing whitespace removed.
pub open spec fn trim(s: Seq<char>) -> Seq<char> {
    let a = run_end(s, 0, space_pred());
    if a == s.len() {
        Seq::empty()
    } else {
        s.subrange(a, rspace_start(s, s.len() as int))
    }
}

/// The fragments kept after trimming: every nonempty trimmed fragment, in
/// order.
pub open spec fn cleaned(ps: Seq<Seq<char>>) -> Seq<Seq<char>>
    decreases ps.len(),
{
    if ps.len() == 0 {
        Seq::empty()
    } else {
        cleaned(ps.drop_last()) + (if trim(ps.last()).len() > 0 {
            seq![trim(ps.last())]
        } else {
            Seq::empty()
        })
    }
}

/// Fragments joined by a single space between consecutive ones.
pub open spec fn join_spaced(ps: Seq<Seq<char>>) -> Seq<char>
    decreases ps.len(),
{
    if ps.len() == 0 {
        Seq::empty()
    } else if ps.len() == 1 {
        ps[0]
    } else {
        join_spaced(ps.drop_last()) + seq![' '] + ps.last()
    }
}

/// The plain text that tag removal leaves of a fragment list.
pub open spec fn stripped_text(parts: Seq<Seq<char>>) -> Seq<char> {
    join_spaced(cleaned(parts))
}

/// The text-node contents of a markup fragment, in document order, as the
/// outside HTML parser reads it.
pub uninterp spec fn html_texts_of(s: Seq<char>) -> Seq<Seq<char>>;

/// Relies on scraper::Html::parse_fragment and scraper::ElementRef::text:
/// parsing is a function of the input text alone and never fails, and
/// `text()` yields the contents of the fragment's text nodes in document
/// order.
#[verifier::external_body]
fn html_text_parts(s: &str) -> (r: Vec<String>)
    ensures
        views(r@) == html_texts_of(s@),
{
    let html = scraper::Html::parse_fragment(s);
    html.root_element().text().map(|t| t.to_string()).collect()
}

fn trim_x(v: &Vec<char>) -> (t: Vec<char>)
    ensures
        t@ == trim(v@),
{
    let mut a: usize = 0;
    while a < v.len() && space_char(v[a])
        invariant
            a <= v.len(),
            run_end(v@, 0, space_pred()) == run_end(v@, a as int, space_pred()),
        decreases v.len() - a,
    {
        a = a + 1;
    }
    if a == v.len() {
        return Vec::new();
    }
    let mut b: usize = v.len();
    while b > 0 && space_char(v[b - 1])
        invariant
            a < b <= v.len(),
            !is_space_char(v@[a as int]),
            rspace_start(v@, v.len() as int) == rspace_start(v@, b as int),
        decreases b,
    {
        proof {
            lemma_rspace_start_past(v@, b as int, a as int);
        }
        b = b - 1;
    }
    proof {
        lemma_rspace_start_past(v@, v.len() as int, a as int);
    }
    let mut t: Vec<char> = Vec::new();
    let mut k = a;
    while k < b
        invariant
            a <= k <= b <= v.len(),
            t@ == v@.subrange(a as int, k as int),
        decreases b - k,
    {
        t.push(v[k]);
        k = k + 1;
        proof {
            assert(t@ =~= v@.subrange(a as int, k as int));
        }
    }
    proof {
        assert(t@ =~= trim(v@));
    }
    t
}

/// Trims the fragments, drops the empty ones and joins the rest by single
/// spaces: the plain text handed to the scanner.
pub fn join_parts(parts: &Vec<String>) -> (out: Vec<char>)
    ensures
        out@ == stripped_text(views(parts@)),
{
    let mut out: Vec<char> = Vec::new();
    let ghost all = views(parts@);
    let mut kept: Ghost<Seq<Seq<char>>> = Ghost(Seq::empty());
    let mut first: bool = true;
    let mut i: usize = 0;
    proof {
        assert(all.subrange(0, 0) =~= Seq::<Seq<char>>::empty());
    }
    while i < parts.len()
        invariant
            i <= parts.len(),
            all == views(parts@),
            kept@ == cleaned(all.subrange(0, i as int)),
            out@ == join_spaced(kept@),
            first == (kept@.len() == 0),
        decreases parts.len() - i,
    {
        let cs = chars_of(parts[i].as_str());
        let t = trim_x(&cs);
        let ghost prev = kept@;
        let ghost pout = out@;
        if t.len() > 0 {
            if !first {
                out.push(' ');
            }
            let mut k: usize = 0;
            let ghost base = out@;
            while k < t.len()
                invariant
                    k <= t.len(),
                    out@ == base + t@.subrange(0, k as int),
                decreases t.len() - k,
            {
                out.push(t[k]);
                k = k + 1;
                proof {
                    assert(out@ =~= base + t@.subrange(0, k as int));
                }
            }
            proof {
                assert(out@ =~= base + t@);
                kept@ = prev + seq![t@];
                if prev.len() == 0 {
                    assert(join_spaced(kept@) == kept@[0]) by {
                        assert(kept@.len() == 1);
                    };
                    assert(out@ =~= join_spaced(kept@));
                } else {
                    assert(kept@.drop_last() =~= prev);
                    assert(out@ =~= join_spaced(prev) + seq![' '] + t@);
                }
            }
            first = false;
        }
        i = i + 1;
        proof {
            let pre = all.subrange(0, i - 1);
            let cur = all.subrange(0, i as int);
            assert(cur.drop_last() =~= pre);
            assert(cur.last() == all[i - 1]);
            assert(all[i - 1] == parts@[i - 1]@);
            if trim(all[i - 1]).len() > 0 {
                assert(kept@ =~= cleaned(pre) + seq![trim(cur.last())]);
            } else {
                assert(kept@ =~= cleaned(pre) + Seq::<Seq<char>>::empty());
            }
        }
    }
    proof {
        assert(all.subrange(0, parts.len() as int) =~= all);
    }
    out
}

/// Turns raw article markup into its normalized word tokens: HTML-style tags
/// are stripped first, then the remaining plain text is scanned by the
/// tokenizer's rules.
pub fn wikitext_words(text: &str) -> (words: Vec<String>)
    ensures
        views(words@) == tokenize(stripped_text(html_texts_of(text@))),
{
    let parts = html_text_parts(text);
    let joined = join_parts(&parts);
    tokenize_chars(&joined)
}

} // verus!
