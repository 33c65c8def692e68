//! The reference vocabulary: the set of accepted normalized words, loaded
//! from the vocabulary index's lines. Only a line whose field after the
//! second separator is entirely ASCII alphabetic contributes an entry, the
//! field lowercased; a nonempty line without two separators is fatal.

use vstd::prelude::*;
use crate::chars::{is_ascii_alpha, lower_char, ascii_alpha, to_lower, chars_of, string_from_chars};
use crate::index::line_fields;

verus! {

/// The entry a vocabulary index line contributes, if any: the field after
/// the second separator, when it is entirely ASCII alphabetic, lowercased.
pub open spec fn line_entry(l: Seq<char>) -> Option<Seq<char>> {
    if l.len() == 0 {
        None
    } else {
        match line_fields(l) {
            Some(fields) => {
                let f = fields.2;
                if forall|k: int| 0 <= k < f.len() ==> is_ascii_alpha(f[k]) {
                    Some(f.map_values(|c: char| lower_char(c)))
                } else {
                    None
                }
            },
            None => None,
        }
    }
}

/// A nonempty line that cannot be split into three fields.
pub open spec fn line_bad(l: Seq<char>) -> bool {
    l.len() > 0 && line_fields(l).is_none()
}

/// The immutable set of accepted words.
#[derive(Debug)]
pub struct Vocabulary {
    pub words: Vec<String>,
}

impl Vocabulary {
    pub open spec fn has_word(self, w: Seq<char>) -> bool {
        exists|k: int| 0 <= k < self.words@.len() && self.words@[k]@ == w
    }

    pub fn contains(&self, w: &String) -> (r: bool)
        ensures
            r == self.has_word(w@),
    {
        let mut k: usize = 0;
        while k < self.words.len()
            invariant
                k <= self.words@.len(),
                forall|p: int| 0 <= p < k ==> self.words@[p]@ != w@,
            decreases self.words@.len() - k,
        {
            if self.words[k].eq(w) {
                return true;
            }
            k = k + 1;
        }
        false
    }
}

/// The line on which loading the vocabulary failed.
#[derive(Debug, PartialEq, Eq, Structural, Clone, Copy)]
pub struct VocabError {
    pub line: usize,
}

/// Builds the vocabulary from the index's lines: each line's entry, if it
/// has one; the first nonempty line that cannot be split is the error.
pub fn wiktionary_index_to_wordset(lines: &Vec<String>) -> (r: Result<Vocabulary, VocabError>)
    ensures
        match r {
            Ok(v) => (forall|j: int| 0 <= j < lines@.len() ==> !line_bad(#[trigger] lines@[j]@))
                && (forall|w: Seq<char>|
                #[trigger] v.has_word(w) <==> exists|j: int|
                    0 <= j < lines@.len() && line_entry(#[trigger] lines@[j]@) == Some(w)),
            Err(e) => e.line < lines@.len() && line_bad(lines@[e.line as int]@) && forall|j: int|
                0 <= j < e.line ==> !line_bad(lines@[j]@),
        },
{
    let mut words: Vec<String> = Vec::new();
    let mut i: usize = 0;
    while i < lines.len()
        invariant
            i <= lines@.len(),
            forall|j: int| 0 <= j < i ==> !line_bad(#[trigger] lines@[j]@),
            forall|k: int|
                #![trigger words@[k]]
                0 <= k < words@.len() ==> exists|j: int|
                    0 <= j < i && line_entry(#[trigger] lines@[j]@) == Some(words@[k]@),
            forall|j: int|
                0 <= j < i && line_entry(#[trigger] lines@[j]@).is_some() ==> exists|k: int|
                    0 <= k < words@.len() && words@[k]@ == line_entry(lines@[j]@).unwrap(),
        decreases lines@.len() - i,
    {
        let l = chars_of(lines[i].as_str());
        if l.len() > 0 {
            let i1 = match crate::tokenizer::find_one_x(&l, 0, ':') {
                Some(x) => x,
                None => {
                    return Err(VocabError { line: i });
                },
            };
            proof {
                crate::tokenizer::lemma_find_one(l@, 0, ':');
            }
            let i2 = match crate::tokenizer::find_one_x(&l, i1 + 1, ':') {
                Some(x) => x,
                None => {
                    return Err(VocabError { line: i });
                },
            };
            proof {
                crate::tokenizer::lemma_find_one(l@, i1 + 1, ':');
            }
            let ghost f = l@.subrange(i2 + 1, l@.len() as int);
            let mut ok = true;
            let mut entry: Vec<char> = Vec::new();
            let mut k = i2 + 1;
            proof {
                assert(f.subrange(0, 0) =~= Seq::<char>::empty());
            }
            while k < l.len()
                invariant
                    i2 + 1 <= k <= l@.len(),
                    f == l@.subrange(i2 + 1, l@.len() as int),
                    ok == (forall|p: int| 0 <= p < k - i2 - 1 ==> is_ascii_alpha(f[p])),
                    ok ==> entry@ == f.subrange(0, k - i2 - 1).map_values(
                        |c: char| lower_char(c),
                    ),
                decreases l@.len() - k,
            {
                let c = l[k];
                proof {
                    assert(f[k - i2 - 1] == l@[k as int]);
                }
                if ascii_alpha(c) {
                    if ok {
                        entry.push(to_lower(c));
                    }
                } else {
                    ok = false;
                }
                k = k + 1;
                proof {
                    if ok {
                        assert(entry@ =~= f.subrange(0, k - i2 - 1).map_values(
                            |c: char| lower_char(c),
                        ));
                    }
                }
            }
            if ok {
                proof {
                    assert(f.subrange(0, l@.len() - i2 - 1) =~= f);
                    assert(line_entry(lines@[i as int]@) == Some(entry@));
                }
                let w = string_from_chars(&entry);
                let ghost pre = words@;
                words.push(w);
                proof {
                    assert(words@[words@.len() - 1]@ == entry@);
                    assert(forall|k2: int| 0 <= k2 < pre.len() ==> words@[k2] == pre[k2]);
                }
            } else {
                proof {
                    assert(line_entry(lines@[i as int]@).is_none());
                }
            }
        } else {
            proof {
                assert(line_entry(lines@[i as int]@).is_none());
            }
        }
        i = i + 1;
    }
    let v = Vocabulary { words };
    proof {
        assert forall|w: Seq<char>|
            #[trigger] v.has_word(w) <==> exists|j: int|
                0 <= j < lines@.len() && line_entry(#[trigger] lines@[j]@) == Some(w) by {
            if v.has_word(w) {
                let k = choose|k: int| 0 <= k < v.words@.len() && v.words@[k]@ == w;
                assert(v.words@[k]@ == w);
                assert(exists|j: int|
                    0 <= j < i && line_entry(#[trigger] lines@[j]@) == Some(v.words@[k]@));
            }
            if exists|j: int| 0 <= j < lines@.len() && line_entry(#[trigger] lines@[j]@) == Some(
                w,
            ) {
                let j = choose|j: int|
                    0 <= j < lines@.len() && line_entry(#[trigger] lines@[j]@) == Some(w);
                assert(line_entry(lines@[j]@).is_some());
                let k = choose|k: int|
                    0 <= k < words@.len() && words@[k]@ == line_entry(lines@[j]@).unwrap();
                assert(v.words@[k]@ == w);
            }
        };
    }
    Ok(v)
}

} // verus!
