//! Index lines: `<byte-offset>:<article-id>:<article-title>`, parsed into
//! descriptors. The title is everything after the second separator and may
//! itself contain separators.

use vstd::prelude::*;
use crate::chars::{chars_of, string_from_chars};
use crate::tokenizer::{find_one, lemma_find_one};

verus! {

pub open spec fn is_digit(c: char) -> bool {
    48 <= c as u32 && c as u32 <= 57
}

pub open spec fn digit_val(c: char) -> nat {
    (c as u32 - 48) as nat
}

/// The number a digit string denotes, most significant digit first.
pub open spec fn digits_val(s: Seq<char>) -> nat
    decreases s.len(),
{
    if s.len() == 0 {
        0
    } else {
        digits_val(s.drop_last()) * 10 + digit_val(s.last())
    }
}

/// A nonempty, all-digit string.
pub open spec fn all_digits(s: Seq<char>) -> bool {
    s.len() > 0 && forall|k: int| 0 <= k < s.len() ==> is_digit(s[k])
}

proof fn lemma_digits_val_prefix(s: Seq<char>, j: int)
    requires
        0 <= j <= s.len(),
    ensures
        digits_val(s.subrange(0, j)) <= digits_val(s),
    decreases s.len(),
{
    if j < s.len() {
        assert(s.drop_last() =~= s.subrange(0, s.len() - 1));
        lemma_digits_val_prefix(s.drop_last(), j);
        assert(s.subrange(0, j) =~= s.drop_last().subrange(0, j));
    } else {
        assert(s.subrange(0, j) =~= s);
    }
}

/// How many times `c` stands in `s`.
pub open spec fn count_char(s: Seq<char>, c: char) -> nat
    decreases s.len(),
{
    if s.len() == 0 {
        0
    } else {
        count_char(s.drop_last(), c) + (if s.last() == c {
            1nat
        } else {
            0nat
        })
    }
}

/// The position of the `n`th occurrence (counting from one) of `c` in `s`,
/// if `s` holds at least `n` of them; `None` for `n == 0` or too few.
pub fn find_nth(s: &str, c: char, n: usize) -> (r: Option<usize>)
    ensures
        match r {
            Some(i) => n >= 1 && i < s@.len() && s@[i as int] == c && count_char(
                s@.subrange(0, i as int),
                c,
            ) == n - 1,
            None => n == 0 || count_char(s@, c) < n,
        },
{
    if n == 0 {
        return None;
    }
    let v = chars_of(s);
    let mut j: usize = 0;
    let mut cnt: usize = 0;
    proof {
        assert(s@.subrange(0, 0) =~= Seq::<char>::empty());
    }
    while j < v.len()
        invariant
            v@ == s@,
            n >= 1,
            j <= v.len(),
            cnt < n,
            cnt == count_char(s@.subrange(0, j as int), c),
        decreases v.len() - j,
    {
        let hit = v[j] == c;
        proof {
            let pre = s@.subrange(0, j as int);
            let cur = s@.subrange(0, j + 1);
            assert(cur.drop_last() =~= pre);
            assert(cur.last() == s@[j as int]);
        }
        if hit {
            if cnt + 1 == n {
                return Some(j);
            }
            cnt = cnt + 1;
        }
        j = j + 1;
    }
    proof {
        assert(s@.subrange(0, j as int) =~= s@);
    }
    None
}

/// The value of the digit range `v[from..to]`, when it is nonempty, all
/// digits, and fits a `u64`.
fn parse_u64_range(v: &Vec<char>, from: usize, to: usize) -> (r: Option<u64>)
    requires
        from <= to <= v.len(),
    ensures
        match r {
            Some(x) => all_digits(v@.subrange(from as int, to as int)) && x == digits_val(
                v@.subrange(from as int, to as int),
            ),
            None => !(all_digits(v@.subrange(from as int, to as int)) && digits_val(
                v@.subrange(from as int, to as int),
            ) <= u64::MAX),
        },
{
    let ghost s = v@.subrange(from as int, to as int);
    if from == to {
        return None;
    }
    let mut acc: u64 = 0;
    let mut j = from;
    proof {
        assert(v@.subrange(from as int, from as int) =~= Seq::<char>::empty());
    }
    while j < to
        invariant
            from <= j <= to <= v.len(),
            s == v@.subrange(from as int, to as int),
            j > from ==> all_digits(v@.subrange(from as int, j as int)),
            acc == digits_val(v@.subrange(from as int, j as int)),
        decreases to - j,
    {
        let c = v[j];
        let u = c as u32;
        proof {
            let pre = v@.subrange(from as int, j as int);
            let cur = v@.subrange(from as int, j + 1);
            assert(cur.drop_last() =~= pre);
            assert(cur.last() == v@[j as int]);
        }
        if !(48 <= u && u <= 57) {
            proof {
                assert(!all_digits(s));
            }
            return None;
        }
        let d: u64 = (u - 48) as u64;
        if acc > (u64::MAX - d) / 10 {
            proof {
                let cur = v@.subrange(from as int, j + 1);
                assert(digits_val(cur) > u64::MAX) by (nonlinear_arith)
                    requires
                        digits_val(cur) == acc * 10 + d,
                        acc > (u64::MAX - d) / 10,
                        d <= 9,
                ;
                lemma_digits_val_prefix(s, j + 1 - from);
                assert(cur =~= s.subrange(0, j + 1 - from));
            }
            return None;
        }
        proof {
            assert(acc * 10 + d <= u64::MAX) by (nonlinear_arith)
                requires
                    acc <= (u64::MAX - d) / 10,
                    d <= 9,
            ;
        }
        acc = acc * 10 + d;
        j = j + 1;
    }
    proof {
        assert(v@.subrange(from as int, j as int) =~= s);
    }
    Some(acc)
}

/// The reason an index line is rejected.
#[derive(Debug, PartialEq, Eq, Structural, Clone, Copy)]
pub enum IndexError {
    /// No separator after the offset field.
    NoOffsetSeparator,
    /// No separator after the identifier field.
    NoIdSeparator,
    /// The offset field is not a number that fits.
    InvalidOffset,
    /// The identifier field is not a number that fits.
    InvalidId,
}

/// One index line: the byte offset of a compressed block, the article's
/// identifier, and its title.
#[derive(Debug, Clone)]
pub struct ArticleDescriptor {
    pub offset: u64,
    pub id: usize,
    pub title: String,
}

/// The three fields of an index line, split at its first two separators.
pub open spec fn line_fields(s: Seq<char>) -> Option<(Seq<char>, Seq<char>, Seq<char>)> {
    match find_one(s, 0, ':') {
        Some(i1) => match find_one(s, i1 + 1, ':') {
            Some(i2) => Some(
                (s.subrange(0, i1), s.subrange(i1 + 1, i2), s.subrange(i2 + 1, s.len() as int)),
            ),
            None => None,
        },
        None => None,
    }
}

impl ArticleDescriptor {
    /// Parses one index line. The offset and identifier fields must be
    /// numbers that fit their types; the rest of the line is the title.
    pub fn from_index_line(line: &str) -> (r: Result<ArticleDescriptor, IndexError>)
        ensures
            match r {
                Ok(d) => {
                    &&& line_fields(line@).is_some()
                    &&& {
                        let (o, idf, t) = line_fields(line@).unwrap();
                        all_digits(o) && d.offset == digits_val(o) && all_digits(idf) && d.id
                            == digits_val(idf) && d.title@ == t
                    }
                },
                Err(e) => match e {
                    IndexError::NoOffsetSeparator => find_one(line@, 0, ':').is_none(),
                    IndexError::NoIdSeparator => find_one(line@, 0, ':').is_some() && find_one(
                        line@,
                        find_one(line@, 0, ':').unwrap() + 1,
                        ':',
                    ).is_none(),
                    IndexError::InvalidOffset => line_fields(line@).is_some() && !(all_digits(
                        line_fields(line@).unwrap().0,
                    ) && digits_val(line_fields(line@).unwrap().0) <= u64::MAX),
                    IndexError::InvalidId => line_fields(line@).is_some() && all_digits(
                        line_fields(line@).unwrap().0,
                    ) && digits_val(line_fields(line@).unwrap().0) <= u64::MAX && !(all_digits(
                        line_fields(line@).unwrap().1,
                    ) && digits_val(line_fields(line@).unwrap().1) <= usize::MAX),
                },
            },
    {
        let v = chars_of(line);
        let i1 = match crate::tokenizer::find_one_x(&v, 0, ':') {
            Some(i) => i,
            None => {
                return Err(IndexError::NoOffsetSeparator);
            },
        };
        proof {
            lemma_find_one(v@, 0, ':');
        }
        let i2 = match crate::tokenizer::find_one_x(&v, i1 + 1, ':') {
            Some(i) => i,
            None => {
                return Err(IndexError::NoIdSeparator);
            },
        };
        proof {
            lemma_find_one(v@, i1 + 1, ':');
        }
        let offset = match parse_u64_range(&v, 0, i1) {
            Some(x) => x,
            None => {
                return Err(IndexError::InvalidOffset);
            },
        };
        let idv = match parse_u64_range(&v, i1 + 1, i2) {
            Some(x) => x,
            None => {
                return Err(IndexError::InvalidId);
            },
        };
        if idv > usize::MAX as u64 {
            return Err(IndexError::InvalidId);
        }
        let mut tail: Vec<char> = Vec::new();
        let mut k = i2 + 1;
        proof {
            assert(v@.subrange(i2 + 1, i2 + 1) =~= Seq::<char>::empty());
        }
        while k < v.len()
            invariant
                i2 + 1 <= k <= v.len(),
                tail@ == v@.subrange(i2 + 1, k as int),
            decreases v.len() - k,
        {
            tail.push(v[k]);
            k = k + 1;
            proof {
                assert(tail@ =~= v@.subrange(i2 + 1, k as int));
            }
        }
        let title = string_from_chars(&tail);
        Ok(ArticleDescriptor { offset, id: idv as usize, title })
    }
}

} // verus!
