//! The markup tokenizer: turns raw wiki-formatted article text into an
//! ordered sequence of normalized word tokens.
//!
//! Scanning walks a cursor left to right. At each position the rules are
//! tried in order: skip rules (template `{{...}}`, link `[...]`, table
//! opener `{|`, redirect marker, URL), then the word rule, then the
//! section-end rule ("See Also" / "External Links" headings end the scan),
//! and otherwise the cursor advances one character.

use vstd::prelude::*;
use crate::chars::{
    is_word_char, is_joiner, is_ascii_alpha, lower_char, is_url_char, is_space_char, word_char,
    joiner_char, ascii_alpha, to_lower, url_char, chars_of, string_from_chars,
};

verus! {

pub open spec fn word_pred() -> spec_fn(char) -> bool {
    |c: char| is_word_char(c)
}

pub open spec fn url_pred() -> spec_fn(char) -> bool {
    |c: char| is_url_char(c)
}

pub open spec fn nonword_pred() -> spec_fn(char) -> bool {
    |c: char| !is_word_char(c)
}

pub open spec fn space_pred() -> spec_fn(char) -> bool {
    |c: char| is_space_char(c)
}

/// First index at or after `i` whose character fails `pred` (or the end).
pub open spec fn run_end(s: Seq<char>, i: int, pred: spec_fn(char) -> bool) -> int
    decreases s.len() - i,
        when 0 <= i <= s.len()
{
    if i < s.len() && pred(s[i]) {
        run_end(s, i + 1, pred)
    } else {
        i
    }
}

pub proof fn lemma_run_end(s: Seq<char>, i: int, pred: spec_fn(char) -> bool)
    requires
        0 <= i <= s.len(),
    ensures
        i <= run_end(s, i, pred) <= s.len(),
        forall|k: int| i <= k < run_end(s, i, pred) ==> pred(s[k]),
        run_end(s, i, pred) < s.len() ==> !pred(s[run_end(s, i, pred)]),
    decreases s.len() - i,
{
    if i < s.len() && pred(s[i]) {
        lemma_run_end(s, i + 1, pred);
    }
}

/// End of the word-rule match that begins at `i`: a maximal run of word
/// characters, extended while a joiner is followed by another word character.
pub open spec fn word_match_end(s: Seq<char>, i: int) -> int
    decreases s.len() - i,
        when 0 <= i <= s.len()
        via word_match_end_decreases
{
    let e = run_end(s, i, word_pred());
    if e + 1 < s.len() && is_joiner(s[e]) && is_word_char(s[e + 1]) {
        word_match_end(s, e + 1)
    } else {
        e
    }
}

#[via_fn]
proof fn word_match_end_decreases(s: Seq<char>, i: int) {
    lemma_run_end(s, i, word_pred());
}

pub proof fn lemma_word_match_end(s: Seq<char>, i: int)
    requires
        0 <= i <= s.len(),
    ensures
        i <= word_match_end(s, i) <= s.len(),
        i < s.len() && is_word_char(s[i]) ==> i + 1 <= word_match_end(s, i),
    decreases s.len() - i,
{
    lemma_run_end(s, i, word_pred());
    let e = run_end(s, i, word_pred());
    if e + 1 < s.len() && is_joiner(s[e]) && is_word_char(s[e + 1]) {
        lemma_word_match_end(s, e + 1);
    }
}

/// First index `m >= i` with `m + 1 < s.len()` where `a` is followed by `b`.
pub open spec fn find_pair(s: Seq<char>, i: int, a: char, b: char) -> Option<int>
    decreases s.len() - i,
        when 0 <= i
{
    if i + 1 < s.len() {
        if s[i] == a && s[i + 1] == b {
            Some(i)
        } else {
            find_pair(s, i + 1, a, b)
        }
    } else {
        None
    }
}

pub proof fn lemma_find_pair(s: Seq<char>, i: int, a: char, b: char)
    requires
        0 <= i,
    ensures
        find_pair(s, i, a, b).is_some() ==> i <= find_pair(s, i, a, b).unwrap()
            && find_pair(s, i, a, b).unwrap() + 1 < s.len(),
    decreases s.len() - i,
{
    if i + 1 < s.len() && !(s[i] == a && s[i + 1] == b) {
        lemma_find_pair(s, i + 1, a, b);
    }
}

/// First index `k >= i` where character `a` stands.
pub open spec fn find_one(s: Seq<char>, i: int, a: char) -> Option<int>
    decreases s.len() - i,
        when 0 <= i
{
    if i < s.len() {
        if s[i] == a {
            Some(i)
        } else {
            find_one(s, i + 1, a)
        }
    } else {
        None
    }
}

pub proof fn lemma_find_one(s: Seq<char>, i: int, a: char)
    requires
        0 <= i,
    ensures
        find_one(s, i, a).is_some() ==> i <= find_one(s, i, a).unwrap() && find_one(
            s,
            i,
            a,
        ).unwrap() < s.len(),
    decreases s.len() - i,
{
    if i < s.len() && s[i] != a {
        lemma_find_one(s, i + 1, a);
    }
}

/// A template region `{{` ... `}}` anchored at `i`, shortest match with at
/// least one interior character; the result is the index just past it.
pub open spec fn template_end(s: Seq<char>, i: int) -> Option<int> {
    if 0 <= i && i + 1 < s.len() && s[i] == '{' && s[i + 1] == '{' {
        match find_pair(s, i + 3, '}', '}') {
            Some(m) => Some(m + 2),
            None => None,
        }
    } else {
        None
    }
}

pub proof fn lemma_template_end(s: Seq<char>, i: int)
    requires
        0 <= i,
    ensures
        template_end(s, i).is_some() ==> i + 5 <= template_end(s, i).unwrap() <= s.len(),
{
    if template_end(s, i).is_some() {
        lemma_find_pair(s, i + 3, '}', '}');
    }
}

/// A link region `[` ... `]` anchored at `i`, shortest match with at least
/// one interior character; the result is the index just past it.
pub open spec fn link_end(s: Seq<char>, i: int) -> Option<int> {
    if 0 <= i && i < s.len() && s[i] == '[' {
        match find_one(s, i + 2, ']') {
            Some(k) => Some(k + 1),
            None => None,
        }
    } else {
        None
    }
}

pub proof fn lemma_link_end(s: Seq<char>, i: int)
    requires
        0 <= i,
    ensures
        link_end(s, i).is_some() ==> i + 3 <= link_end(s, i).unwrap() <= s.len(),
{
    if link_end(s, i).is_some() {
        lemma_find_one(s, i + 2, ']');
    }
}

/// A table-markup opener `{|` anchored at `i`.
pub open spec fn table_at(s: Seq<char>, i: int) -> bool {
    0 <= i && i + 1 < s.len() && s[i] == '{' && s[i + 1] == '|'
}

/// Case-insensitive (ASCII) match of `pat` against `s` at `i`; `pat` is
/// given in lowercase.
pub open spec fn ci_match(s: Seq<char>, i: int, pat: Seq<char>) -> bool {
    0 <= i && i + pat.len() <= s.len() && forall|j: int|
        0 <= j < pat.len() ==> lower_char(s[i + j]) == pat[j]
}

pub open spec fn redirect_pat() -> Seq<char> {
    "#redirect"@
}

/// The redirect marker, matched case-insensitively.
pub open spec fn redirect_at(s: Seq<char>, i: int) -> bool {
    ci_match(s, i, redirect_pat())
}

/// The scheme prefix `http://` or `https://` anchored at `i`; the result is
/// the index just past it.
pub open spec fn url_scheme_end(s: Seq<char>, i: int) -> Option<int> {
    if 0 <= i && i + 7 <= s.len() && s[i] == 'h' && s[i + 1] == 't' && s[i + 2] == 't' && s[i + 3]
        == 'p' {
        if s[i + 4] == ':' && s[i + 5] == '/' && s[i + 6] == '/' {
            Some(i + 7)
        } else if i + 8 <= s.len() && s[i + 4] == 's' && s[i + 5] == ':' && s[i + 6] == '/' && s[i
            + 7] == '/' {
            Some(i + 8)
        } else {
            None
        }
    } else {
        None
    }
}

/// A URL anchored at `i`: a scheme prefix followed by a nonempty maximal run
/// of URL-safe characters; the result is the index just past the run.
pub open spec fn url_end(s: Seq<char>, i: int) -> Option<int> {
    match url_scheme_end(s, i) {
        Some(e0) => if e0 < s.len() && is_url_char(s[e0]) {
            Some(run_end(s, e0, url_pred()))
        } else {
            None
        },
        None => None,
    }
}

pub proof fn lemma_url_end(s: Seq<char>, i: int)
    requires
        0 <= i,
    ensures
        url_end(s, i).is_some() ==> i + 8 <= url_end(s, i).unwrap() <= s.len(),
{
    if url_end(s, i).is_some() {
        let e0 = url_scheme_end(s, i).unwrap();
        lemma_run_end(s, e0, url_pred());
        assert(run_end(s, e0, url_pred()) >= e0 + 1);
    }
}

pub open spec fn see_also_pat() -> Seq<char> {
    "see also"@
}

pub open spec fn external_links_pat() -> Seq<char> {
    "external links"@
}

/// Some `=` stands inside the run of non-word characters that begins at `a`.
pub open spec fn eq_in_run(s: Seq<char>, a: int) -> bool {
    exists|k: int| a <= k < run_end(s, a, nonword_pred()) && s[k] == '='
}

pub open spec fn phrase_heading(s: Seq<char>, j: int, pat: Seq<char>) -> bool {
    ci_match(s, j, pat) && eq_in_run(s, j + pat.len())
}

/// A heading that introduces a trailing section: one or more `=`, non-word
/// characters, "see also" or "external links" (case-insensitive), non-word
/// characters, and at least one closing `=`.
pub open spec fn section_end_at(s: Seq<char>, i: int) -> bool {
    0 <= i < s.len() && s[i] == '=' && {
        let j = run_end(s, i, nonword_pred());
        phrase_heading(s, j, see_also_pat()) || phrase_heading(s, j, external_links_pat())
    }
}

/// Normalization of a matched word: keep the ASCII letters, lowercased.
pub open spec fn normalize(s: Seq<char>) -> Seq<char>
    decreases s.len(),
{
    if s.len() == 0 {
        Seq::empty()
    } else {
        normalize(s.drop_last()) + (if is_ascii_alpha(s.last()) {
            seq![lower_char(s.last())]
        } else {
            Seq::empty()
        })
    }
}

/// The token sequence produced by scanning `s` from position `i`.
pub open spec fn tokenize_at(s: Seq<char>, i: int) -> Seq<Seq<char>>
    decreases s.len() - i,
        when 0 <= i <= s.len()
        via tokenize_at_decreases
{
    if i >= s.len() {
        Seq::empty()
    } else if template_end(s, i).is_some() {
        tokenize_at(s, template_end(s, i).unwrap())
    } else if link_end(s, i).is_some() {
        tokenize_at(s, link_end(s, i).unwrap())
    } else if table_at(s, i) {
        tokenize_at(s, i + 2)
    } else if redirect_at(s, i) {
        tokenize_at(s, i + 9)
    } else if url_end(s, i).is_some() {
        tokenize_at(s, url_end(s, i).unwrap())
    } else if is_word_char(s[i]) {
        let e = word_match_end(s, i);
        let t = normalize(s.subrange(i, e));
        if t.len() > 0 {
            seq![t] + tokenize_at(s, e)
        } else {
            tokenize_at(s, e)
        }
    } else if section_end_at(s, i) {
        Seq::empty()
    } else {
        tokenize_at(s, i + 1)
    }
}

#[via_fn]
proof fn tokenize_at_decreases(s: Seq<char>, i: int) {
    reveal_strlit("#redirect");
    lemma_template_end(s, i);
    lemma_link_end(s, i);
    lemma_url_end(s, i);
    if 0 <= i <= s.len() {
        lemma_word_match_end(s, i);
    }
}

/// The token sequence of a whole text.
pub open spec fn tokenize(s: Seq<char>) -> Seq<Seq<char>> {
    tokenize_at(s, 0)
}

/// The views of a vector of strings.
pub open spec fn views(ts: Seq<String>) -> Seq<Seq<char>> {
    ts.map_values(|t: String| t@)
}

fn word_run_x(v: &Vec<char>, i: usize) -> (e: usize)
    requires
        i <= v.len(),
    ensures
        e as int == run_end(v@, i as int, word_pred()),
        i <= e <= v.len(),
{
    let mut j = i;
    while j < v.len() && word_char(v[j])
        invariant
            i <= j <= v.len(),
            run_end(v@, i as int, word_pred()) == run_end(v@, j as int, word_pred()),
        decreases v.len() - j,
    {
        j = j + 1;
    }
    j
}

fn url_run_x(v: &Vec<char>, i: usize) -> (e: usize)
    requires
        i <= v.len(),
    ensures
        e as int == run_end(v@, i as int, url_pred()),
        i <= e <= v.len(),
{
    let mut j = i;
    while j < v.len() && url_char(v[j])
        invariant
            i <= j <= v.len(),
            run_end(v@, i as int, url_pred()) == run_end(v@, j as int, url_pred()),
        decreases v.len() - j,
    {
        j = j + 1;
    }
    j
}

fn nonword_run_x(v: &Vec<char>, i: usize) -> (e: usize)
    requires
        i <= v.len(),
    ensures
        e as int == run_end(v@, i as int, nonword_pred()),
        i <= e <= v.len(),
{
    let mut j = i;
    while j < v.len() && !word_char(v[j])
        invariant
            i <= j <= v.len(),
            run_end(v@, i as int, nonword_pred()) == run_end(v@, j as int, nonword_pred()),
        decreases v.len() - j,
    {
        j = j + 1;
    }
    j
}

pub(crate) fn word_match_end_x(v: &Vec<char>, i: usize) -> (e: usize)
    requires
        i <= v.len(),
    ensures
        e as int == word_match_end(v@, i as int),
        i <= e <= v.len(),
        i < v.len() && is_word_char(v@[i as int]) ==> i < e,
    decreases v.len() - i,
{
    proof {
        lemma_word_match_end(v@, i as int);
    }
    let e = word_run_x(v, i);
    if e < v.len() && e + 1 < v.len() && joiner_char(v[e]) && word_char(v[e + 1]) {
        word_match_end_x(v, e + 1)
    } else {
        e
    }
}

fn find_pair_x(v: &Vec<char>, from: usize, a: char, b: char) -> (r: Option<usize>)
    requires
        from <= v.len(),
    ensures
        match r {
            Some(m) => find_pair(v@, from as int, a, b) == Some(m as int) && m + 1 < v.len(),
            None => find_pair(v@, from as int, a, b).is_none(),
        },
{
    let mut m = from;
    while v.len() - m >= 2
        invariant
            from <= m <= v.len(),
            find_pair(v@, from as int, a, b) == find_pair(v@, m as int, a, b),
        decreases v.len() - m,
    {
        if v[m] == a && v[m + 1] == b {
            return Some(m);
        }
        m = m + 1;
    }
    None
}

pub(crate) fn find_one_x(v: &Vec<char>, from: usize, a: char) -> (r: Option<usize>)
    requires
        from <= v.len(),
    ensures
        match r {
            Some(k) => find_one(v@, from as int, a) == Some(k as int) && k < v.len(),
            None => find_one(v@, from as int, a).is_none(),
        },
{
    let mut k = from;
    while k < v.len()
        invariant
            from <= k <= v.len(),
            find_one(v@, from as int, a) == find_one(v@, k as int, a),
        decreases v.len() - k,
    {
        if v[k] == a {
            return Some(k);
        }
        k = k + 1;
    }
    None
}

fn template_end_x(v: &Vec<char>, i: usize) -> (r: Option<usize>)
    requires
        i <= v.len(),
    ensures
        match r {
            Some(e) => template_end(v@, i as int) == Some(e as int) && i < e <= v.len(),
            None => template_end(v@, i as int).is_none(),
        },
{
    if i < v.len() && v.len() - i >= 2 && v[i] == '{' && v[i + 1] == '{' {
        let from = if v.len() - i >= 3 {
            i + 3
        } else {
            v.len()
        };
        match find_pair_x(v, from, '}', '}') {
            Some(m) => {
                proof {
                    lemma_find_pair(v@, i + 3, '}', '}');
                }
                Some(m + 2)
            },
            None => None,
        }
    } else {
        None
    }
}

fn link_end_x(v: &Vec<char>, i: usize) -> (r: Option<usize>)
    requires
        i <= v.len(),
    ensures
        match r {
            Some(e) => link_end(v@, i as int) == Some(e as int) && i < e <= v.len(),
            None => link_end(v@, i as int).is_none(),
        },
{
    if i < v.len() && v[i] == '[' {
        let from = if v.len() - i >= 2 {
            i + 2
        } else {
            v.len()
        };
        match find_one_x(v, from, ']') {
            Some(k) => {
                proof {
                    lemma_find_one(v@, i + 2, ']');
                }
                Some(k + 1)
            },
            None => None,
        }
    } else {
        None
    }
}

fn table_at_x(v: &Vec<char>, i: usize) -> (r: bool)
    requires
        i <= v.len(),
    ensures
        r == table_at(v@, i as int),
{
    i < v.len() && v.len() - i >= 2 && v[i] == '{' && v[i + 1] == '|'
}

fn ci_match_x(v: &Vec<char>, i: usize, pat: &Vec<char>) -> (r: bool)
    requires
        i <= v.len(),
    ensures
        r == ci_match(v@, i as int, pat@),
{
    if v.len() - i < pat.len() {
        return false;
    }
    let mut j: usize = 0;
    while j < pat.len()
        invariant
            0 <= j <= pat.len(),
            i + pat.len() <= v.len(),
            forall|jj: int| 0 <= jj < j ==> lower_char(v@[i + jj]) == pat@[jj],
        decreases pat.len() - j,
    {
        if to_lower(v[i + j]) != pat[j] {
            return false;
        }
        j = j + 1;
    }
    true
}

fn redirect_at_x(v: &Vec<char>, i: usize) -> (r: bool)
    requires
        i <= v.len(),
    ensures
        r == redirect_at(v@, i as int),
{
    let p = chars_of("#redirect");
    ci_match_x(v, i, &p)
}

fn url_end_x(v: &Vec<char>, i: usize) -> (r: Option<usize>)
    requires
        i <= v.len(),
    ensures
        match r {
            Some(e) => url_end(v@, i as int) == Some(e as int) && i < e <= v.len(),
            None => url_end(v@, i as int).is_none(),
        },
{
    if v.len() - i >= 7 && v[i] == 'h' && v[i + 1] == 't' && v[i + 2] == 't' && v[i + 3] == 'p' {
        if v[i + 4] == ':' && v[i + 5] == '/' && v[i + 6] == '/' {
            let e0 = i + 7;
            if e0 < v.len() && url_char(v[e0]) {
                proof {
                    lemma_run_end(v@, e0 as int, url_pred());
                }
                Some(url_run_x(v, e0))
            } else {
                None
            }
        } else if v.len() - i >= 8 && v[i + 4] == 's' && v[i + 5] == ':' && v[i + 6] == '/' && v[i
            + 7] == '/' {
            let e0 = i + 8;
            if e0 < v.len() && url_char(v[e0]) {
                proof {
                    lemma_run_end(v@, e0 as int, url_pred());
                }
                Some(url_run_x(v, e0))
            } else {
                None
            }
        } else {
            None
        }
    } else {
        None
    }
}

fn eq_in_run_x(v: &Vec<char>, a: usize) -> (r: bool)
    requires
        a <= v.len(),
    ensures
        r == eq_in_run(v@, a as int),
{
    let b = nonword_run_x(v, a);
    let mut k = a;
    while k < b
        invariant
            a <= k <= b <= v.len(),
            b as int == run_end(v@, a as int, nonword_pred()),
            forall|kk: int| a <= kk < k ==> v@[kk] != '=',
        decreases b - k,
    {
        if v[k] == '=' {
            return true;
        }
        k = k + 1;
    }
    false
}

fn phrase_heading_x(v: &Vec<char>, j: usize, pat: &str) -> (r: bool)
    requires
        j <= v.len(),
    ensures
        r == phrase_heading(v@, j as int, pat@),
{
    let p = chars_of(pat);
    if !ci_match_x(v, j, &p) {
        return false;
    }
    let a = j + p.len();
    eq_in_run_x(v, a)
}

fn section_end_x(v: &Vec<char>, i: usize) -> (r: bool)
    requires
        i < v.len(),
    ensures
        r == section_end_at(v@, i as int),
{
    if v[i] != '=' {
        return false;
    }
    let j = nonword_run_x(v, i);
    phrase_heading_x(v, j, "see also") || phrase_heading_x(v, j, "external links")
}

pub(crate) fn normalize_range(v: &Vec<char>, i: usize, e: usize) -> (t: Vec<char>)
    requires
        i <= e <= v.len(),
    ensures
        t@ == normalize(v@.subrange(i as int, e as int)),
{
    let mut t: Vec<char> = Vec::new();
    let mut j = i;
    proof {
        assert(v@.subrange(i as int, i as int) =~= Seq::<char>::empty());
    }
    while j < e
        invariant
            i <= j <= e <= v.len(),
            t@ == normalize(v@.subrange(i as int, j as int)),
        decreases e - j,
    {
        let ghost pre = t@;
        if ascii_alpha(v[j]) {
            t.push(to_lower(v[j]));
        }
        j = j + 1;
        proof {
            let s = v@.subrange(i as int, j as int);
            assert(s.drop_last() =~= v@.subrange(i as int, j - 1));
            assert(s.last() == v@[j - 1]);
            if is_ascii_alpha(v@[j - 1]) {
                assert(t@ =~= normalize(s.drop_last()) + seq![lower_char(s.last())]);
            } else {
                assert(t@ =~= normalize(s.drop_last()) + Seq::<char>::empty());
            }
        }
    }
    t
}

/// Scans a text, given as its characters, and returns the normalized word
/// tokens in order, applying the skip rules, the word rule, the section-end
/// rule and the single-character fallback.
pub fn tokenize_chars(v: &Vec<char>) -> (toks: Vec<String>)
    ensures
        views(toks@) == tokenize(v@),
{
    let mut toks: Vec<String> = Vec::new();
    let mut i: usize = 0;
    proof {
        assert(views(toks@) + tokenize_at(v@, 0) =~= tokenize(v@));
    }
    while i < v.len()
        invariant
            i <= v.len(),
            views(toks@) + tokenize_at(v@, i as int) == tokenize(v@),
        decreases v.len() - i,
    {
        let ghost i0 = i as int;
        let ghost pre = toks@;
        if let Some(e) = template_end_x(v, i) {
            i = e;
        } else if let Some(e) = link_end_x(v, i) {
            i = e;
        } else if table_at_x(v, i) {
            i = i + 2;
        } else if redirect_at_x(v, i) {
            proof {
                reveal_strlit("#redirect");
            }
            i = i + 9;
        } else if let Some(e) = url_end_x(v, i) {
            i = e;
        } else if word_char(v[i]) {
            let e = word_match_end_x(v, i);
            let t = normalize_range(v, i, e);
            if t.len() > 0 {
                let w = string_from_chars(&t);
                toks.push(w);
                proof {
                    assert(views(toks@) =~= views(pre) + seq![t@]);
                    assert(views(pre) + (seq![t@] + tokenize_at(v@, e as int)) =~= (views(pre)
                        + seq![t@]) + tokenize_at(v@, e as int));
                }
            }
            i = e;
        } else if section_end_x(v, i) {
            proof {
                assert(tokenize_at(v@, i0) =~= Seq::<Seq<char>>::empty());
                assert(views(toks@) + tokenize_at(v@, i0) =~= views(toks@));
            }
            return toks;
        } else {
            i = i + 1;
        }
    }
    proof {
        assert(views(toks@) + tokenize_at(v@, i as int) =~= views(toks@));
    }
    toks
}

/// A template region never contributes tokens from its interior: scanning
/// at its opening braces continues exactly at its end, emitting nothing.
pub proof fn lemma_template_skipped(s: Seq<char>, i: int)
    requires
        0 <= i <= s.len(),
        template_end(s, i).is_some(),
    ensures
        tokenize_at(s, i) == tokenize_at(s, template_end(s, i).unwrap()),
{
    lemma_template_end(s, i);
}

/// A "See Also" or "External Links" heading discards everything from its
/// position on: scanning there emits no further token.
pub proof fn lemma_section_end_stops(s: Seq<char>, i: int)
    requires
        0 <= i < s.len(),
        section_end_at(s, i),
    ensures
        tokenize_at(s, i) == Seq::<Seq<char>>::empty(),
{
    assert(s[i] == '=');
    assert(template_end(s, i).is_none());
    assert(link_end(s, i).is_none());
    assert(!table_at(s, i));
    assert(!redirect_at(s, i)) by {
        reveal_strlit("#redirect");
        if redirect_at(s, i) {
            assert(lower_char(s[i + 0]) == redirect_pat()[0]);
        }
    };
    assert(url_end(s, i).is_none());
    assert(!is_word_char(s[i]));
}

/// Tokenization is a pure function of the text: scanning equal texts yields
/// equal token sequences, so tokenizing twice gives the same result.
pub proof fn lemma_tokenize_deterministic(s1: Seq<char>, s2: Seq<char>)
    requires
        s1 == s2,
    ensures
        tokenize(s1) == tokenize(s2),
{
}

} // verus!
