//! The per-block word extractor: parses a block's wrapped content as a
//! structured document, scans every body-text element with the word rule
//! alone (the structure itself has stripped the markup), and counts the
//! tokens that the vocabulary accepts.

use vstd::prelude::*;
use crate::chars::{is_word_char, word_char, chars_of, string_from_chars};
use crate::tokenizer::{word_match_end, normalize, views, lemma_word_match_end};
use crate::counts::{WordCounts, sat_add};
use crate::vocab::Vocabulary;
use crate::blocks::DumpBlock;

verus! {

/// The tokens of a body text under the word rule alone: every word match,
/// normalized, empty results dropped; no skip or section rule applies.
pub open spec fn scan_at(s: Seq<char>, i: int) -> Seq<Seq<char>>
    decreases s.len() - i,
        when 0 <= i <= s.len()
        via scan_at_decreases
{
    if i >= s.len() {
        Seq::empty()
    } else if is_word_char(s[i]) {
        let e = word_match_end(s, i);
        let t = normalize(s.subrange(i, e));
        if t.len() > 0 {
            seq![t] + scan_at(s, e)
        } else {
            scan_at(s, e)
        }
    } else {
        scan_at(s, i + 1)
    }
}

#[via_fn]
proof fn scan_at_decreases(s: Seq<char>, i: int) {
    if 0 <= i <= s.len() {
        lemma_word_match_end(s, i);
    }
}

/// All word-rule tokens of a text.
pub open spec fn scan(s: Seq<char>) -> Seq<Seq<char>> {
    scan_at(s, 0)
}

/// How many tokens equal `w`.
pub open spec fn token_count(toks: Seq<Seq<char>>, w: Seq<char>) -> nat
    decreases toks.len(),
{
    if toks.len() == 0 {
        0
    } else {
        token_count(toks.drop_last(), w) + (if toks.last() == w {
            1nat
        } else {
            0nat
        })
    }
}

/// How often `w` occurs, under the word rule, across a list of texts.
pub open spec fn occurrences(texts: Seq<Seq<char>>, w: Seq<char>) -> nat
    decreases texts.len(),
{
    if texts.len() == 0 {
        0
    } else {
        occurrences(texts.drop_last(), w) + token_count(scan(texts.last()), w)
    }
}

/// A count capped at what a `u64` holds.
pub open spec fn sat64(n: nat) -> u64 {
    if n > u64::MAX {
        u64::MAX
    } else {
        n as u64
    }
}

/// The contents of the `text` elements of the document that `s` parses to,
/// in document order; nothing when `s` is not a well-formed document.
pub uninterp spec fn xml_text_contents(s: Seq<char>) -> Option<Seq<Seq<char>>>;

/// Relies on roxmltree::Document::parse, Document::descendants,
/// Node::has_tag_name and Node::text: parsing is a function of the input
/// alone; on success the descendants walk yields the document's nodes in
/// document order, and `text()` of an element is its first text child.
#[verifier::external_body]
fn parse_text_nodes(s: &str) -> (r: Option<Vec<String>>)
    ensures
        match r {
            Some(texts) => xml_text_contents(s@) == Some(views(texts@)),
            None => xml_text_contents(s@).is_none(),
        },
{
    let doc = match roxmltree::Document::parse(s) {
        Ok(d) => d,
        Err(_) => {
            return None;
        },
    };
    let mut texts: Vec<String> = Vec::new();
    for node in doc.descendants() {
        if node.has_tag_name("text") {
            if let Some(t) = node.text() {
                texts.push(t.to_string());
            }
        }
    }
    Some(texts)
}

/// Scans a body text with the word rule alone and returns its normalized
/// tokens in order.
pub fn scan_words(text: &str) -> (toks: Vec<String>)
    ensures
        views(toks@) == scan(text@),
{
    let v = chars_of(text);
    let mut toks: Vec<String> = Vec::new();
    let mut i: usize = 0;
    proof {
        assert(views(toks@) + scan_at(v@, 0) =~= scan(v@));
    }
    while i < v.len()
        invariant
            i <= v.len(),
            v@ == text@,
            views(toks@) + scan_at(v@, i as int) == scan(text@),
        decreases v.len() - i,
    {
        let ghost pre = toks@;
        if word_char(v[i]) {
            let e = crate::tokenizer::word_match_end_x(&v, i);
            let t = crate::tokenizer::normalize_range(&v, i, e);
            if t.len() > 0 {
                let w = string_from_chars(&t);
                toks.push(w);
                proof {
                    assert(views(toks@) =~= views(pre) + seq![t@]);
                    assert(views(pre) + (seq![t@] + scan_at(v@, e as int)) =~= (views(pre)
                        + seq![t@]) + scan_at(v@, e as int));
                }
            }
            i = e;
        } else {
            i = i + 1;
        }
    }
    proof {
        assert(views(toks@) + scan_at(v@, i as int) =~= views(toks@));
    }
    toks
}

/// Counts, across the given body texts, every word-rule token that the
/// vocabulary accepts: the table maps each accepted word to its number of
/// occurrences (capped), and holds no other word.
pub fn count_words_in_texts(texts: &Vec<String>, vocab: &Vocabulary) -> (c: WordCounts)
    ensures
        c.wf(),
        forall|w: Seq<char>|
            #[trigger] c.count_of(w) == if vocab.has_word(w) {
                sat64(occurrences(views(texts@), w))
            } else {
                0
            },
{
    let ghost all = views(texts@);
    let mut c = WordCounts::new();
    let mut ti: usize = 0;
    proof {
        assert(all.subrange(0, 0) =~= Seq::<Seq<char>>::empty());
    }
    while ti < texts.len()
        invariant
            ti <= texts@.len(),
            all == views(texts@),
            c.wf(),
            forall|w: Seq<char>|
                #[trigger] c.count_of(w) == if vocab.has_word(w) {
                    sat64(occurrences(all.subrange(0, ti as int), w))
                } else {
                    0
                },
        decreases texts@.len() - ti,
    {
        let toks = scan_words(texts[ti].as_str());
        let ghost tv = views(toks@);
        let mut tj: usize = 0;
        proof {
            assert(tv.subrange(0, 0) =~= Seq::<Seq<char>>::empty());
        }
        while tj < toks.len()
            invariant
                tj <= toks@.len(),
                ti < texts@.len(),
                all == views(texts@),
                tv == views(toks@),
                tv == scan(texts@[ti as int]@),
                c.wf(),
                forall|w: Seq<char>|
                    #[trigger] c.count_of(w) == if vocab.has_word(w) {
                        sat64(
                            occurrences(all.subrange(0, ti as int), w) + token_count(
                                tv.subrange(0, tj as int),
                                w,
                            ),
                        )
                    } else {
                        0
                    },
            decreases toks@.len() - tj,
        {
            let t = &toks[tj];
            let ghost prec = c;
            let inv = vocab.contains(t);
            if inv {
                c.add(t, 1);
            }
            tj = tj + 1;
            proof {
                let cur = tv.subrange(0, tj as int);
                assert(cur.drop_last() =~= tv.subrange(0, tj - 1));
                assert(cur.last() == tv[tj - 1]);
                assert(tv[tj - 1] == toks@[tj - 1]@);
                assert forall|w: Seq<char>|
                    #[trigger] c.count_of(w) == (if vocab.has_word(w) {
                        sat64(
                            occurrences(all.subrange(0, ti as int), w) + token_count(cur, w),
                        )
                    } else {
                        0
                    }) by {
                    if w == t@ {
                        if vocab.has_word(w) {
                            assert(c.count_of(w) == sat_add(prec.count_of(w), 1));
                        }
                    } else {
                        assert(c.count_of(w) == prec.count_of(w));
                    }
                };
            }
        }
        ti = ti + 1;
        proof {
            let cur = all.subrange(0, ti as int);
            assert(cur.drop_last() =~= all.subrange(0, ti - 1));
            assert(cur.last() == all[ti - 1]);
            assert(all[ti - 1] == texts@[ti - 1]@);
            assert(tv.subrange(0, tv.len() as int) =~= tv);
        }
    }
    proof {
        assert(all.subrange(0, ti as int) =~= all);
    }
    c
}

/// What a block's extraction failure means: its wrapped content is not a
/// well-formed document, which signals archive/index desynchronization.
#[derive(Debug, PartialEq, Eq, Structural, Clone, Copy)]
pub enum ExtractError {
    UnparsableDocument,
}

impl DumpBlock {
    /// Extracts the block's local word-count table: the document's body
    /// texts are scanned with the word rule and counted against the
    /// vocabulary. An unparsable document is the fatal case.
    pub fn process(&self, wordset: &Vocabulary) -> (r: Result<WordCounts, ExtractError>)
        ensures
            match r {
                Ok(c) => {
                    &&& xml_text_contents(self.raw_xml@).is_some()
                    &&& c.wf()
                    &&& forall|w: Seq<char>|
                        #[trigger] c.count_of(w) == if wordset.has_word(w) {
                            sat64(occurrences(xml_text_contents(self.raw_xml@).unwrap(), w))
                        } else {
                            0
                        }
                },
                Err(_) => xml_text_contents(self.raw_xml@).is_none(),
            },
    {
        let texts = match parse_text_nodes(self.raw_xml.as_str()) {
            Some(t) => t,
            None => {
                return Err(ExtractError::UnparsableDocument);
            },
        };
        Ok(count_words_in_texts(&texts, wordset))
    }
}

} // verus!
