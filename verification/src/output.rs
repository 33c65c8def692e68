//! The output stage's compute part: the final table's entries ordered by
//! descending count and rendered as `<word> <count>` lines, one per word
//! that was observed. Ties may come out in either order.

use vstd::prelude::*;
use vstd::seq_lib::group_to_multiset_ensures;
use crate::chars::string_from_chars;
use crate::counts::WordCounts;

verus! {

pub open spec fn digit_char(d: nat) -> char {
    ((d + 48) as u8) as char
}

/// The decimal digits of `n`, most significant first.
pub open spec fn dec_digits(n: nat) -> Seq<char>
    decreases n,
{
    if n < 10 {
        seq![digit_char(n)]
    } else {
        dec_digits(n / 10).push(digit_char(n % 10))
    }
}

/// One output line: the word, one space, the count in decimal.
pub open spec fn line_of(w: Seq<char>, c: u64) -> Seq<char> {
    w + seq![' '] + dec_digits(c as nat)
}

/// Counts never grow from one line to the next.
pub open spec fn sorted_desc(s: Seq<(String, u64)>) -> bool {
    forall|i: int, j: int| 0 <= i < j < s.len() ==> s[i].1 >= s[j].1
}

pub(crate) fn dec_chars(n: u64) -> (v: Vec<char>)
    ensures
        v@ == dec_digits(n as nat),
    decreases n,
{
    let d: u8 = (n % 10) as u8 + 48;
    if n < 10 {
        let mut v: Vec<char> = Vec::new();
        v.push(d as char);
        proof {
            assert(v@ =~= dec_digits(n as nat));
        }
        v
    } else {
        proof {
            assert(n / 10 < n) by (nonlinear_arith)
                requires
                    n >= 10,
            ;
        }
        let mut v = dec_chars(n / 10);
        v.push(d as char);
        proof {
            assert(v@ =~= dec_digits(n as nat));
        }
        v
    }
}

/// Renders one entry as its output line.
pub fn render_line(w: &String, c: u64) -> (s: String)
    ensures
        s@ == line_of(w@, c),
{
    let mut s = String::new();
    s.append(w.as_str());
    s.append(" ");
    let dv = dec_chars(c);
    let ds = string_from_chars(&dv);
    s.append(ds.as_str());
    proof {
        reveal_strlit(" ");
        assert(" "@ =~= seq![' ']);
    }
    s
}

/// The table's entries, ordered by descending count; equal counts may stand
/// in either order.
pub fn sorted_by_count_desc(counts: &WordCounts) -> (out: Vec<(String, u64)>)
    ensures
        out@.to_multiset() == counts.entries_view().to_multiset(),
        out@.len() == counts.entries_view().len(),
        sorted_desc(out@),
{
    broadcast use group_to_multiset_ensures;

    let mut rest: Vec<(String, u64)> = Vec::new();
    let n = counts.len();
    let mut i: usize = 0;
    while i < n
        invariant
            n == counts.entries_view().len(),
            i <= n,
            rest@.len() == i,
            forall|k: int| 0 <= k < i ==> rest@[k] == counts.entries_view()[k],
        decreases n - i,
    {
        let e = counts.entry_at(i);
        let key = e.0.clone();
        let cnt = e.1;
        rest.push((key, cnt));
        i = i + 1;
    }
    proof {
        assert(rest@ =~= counts.entries_view());
    }
    let mut out: Vec<(String, u64)> = Vec::new();
    while rest.len() > 0
        invariant
            out@.to_multiset().add(rest@.to_multiset()) =~= counts.entries_view().to_multiset(),
            out@.len() + rest@.len() == counts.entries_view().len(),
            sorted_desc(out@),
            forall|p: int, k: int|
                0 <= p < out@.len() && 0 <= k < rest@.len() ==> out@[p].1 >= rest@[k].1,
        decreases rest@.len(),
    {
        let mut mi: usize = 0;
        let mut j: usize = 1;
        while j < rest.len()
            invariant
                rest@.len() > 0,
                mi < j <= rest@.len(),
                forall|k: int| 0 <= k < j ==> rest@[k].1 <= rest@[mi as int].1,
            decreases rest@.len() - j,
        {
            if rest[j].1 > rest[mi].1 {
                mi = j;
            }
            j = j + 1;
        }
        let ghost pre_rest = rest@;
        let ghost pre_out = out@;
        let e = rest.remove(mi);
        out.push(e);
        proof {
            broadcast use group_to_multiset_ensures;

            assert(e == pre_rest[mi as int]);
            assert(rest@ == pre_rest.remove(mi as int));
            assert(out@ == pre_out.push(e));
            assert(pre_out.push(e).to_multiset() =~= pre_out.to_multiset().insert(e));
            assert(pre_rest.remove(mi as int).to_multiset() =~= pre_rest.to_multiset().remove(
                pre_rest[mi as int],
            ));
            assert(pre_rest.contains(e));
            assert(pre_rest.to_multiset().count(e) > 0);
            assert(out@.to_multiset().add(rest@.to_multiset()) =~= pre_out.to_multiset().add(
                pre_rest.to_multiset(),
            ));
            assert forall|p: int, k: int|
                0 <= p < out@.len() && 0 <= k < rest@.len() implies out@[p].1 >= rest@[k].1 by {
                if k < mi as int {
                    assert(rest@[k] == pre_rest[k]);
                } else {
                    assert(rest@[k] == pre_rest[k + 1]);
                }
            };
        }
    }
    proof {
        broadcast use group_to_multiset_ensures;

        assert forall|x: (String, u64)|
            out@.to_multiset().add(rest@.to_multiset()).count(x) == out@.to_multiset().count(
                x,
            ) by {
            assert(!rest@.contains(x));
            assert(rest@.to_multiset().count(x) == 0);
        };
        assert(out@.to_multiset() =~= out@.to_multiset().add(rest@.to_multiset()));
    }
    out
}

/// The whole output: the table's entries sorted by descending count, each
/// rendered as its line. Some descending ordering of the entries is followed
/// exactly, line by line.
pub fn render_frequency_list(counts: &WordCounts) -> (lines: Vec<String>)
    ensures
        exists|es: Seq<(String, u64)>|
            {
                &&& #[trigger] es.to_multiset() == counts.entries_view().to_multiset()
                &&& sorted_desc(es)
                &&& lines@.len() == es.len()
                &&& forall|i: int| 0 <= i < es.len() ==> lines@[i]@ == line_of(es[i].0@, es[i].1)
            },
{
    let sorted = sorted_by_count_desc(counts);
    let mut lines: Vec<String> = Vec::new();
    let mut i: usize = 0;
    while i < sorted.len()
        invariant
            i <= sorted@.len(),
            lines@.len() == i,
            forall|k: int| 0 <= k < i ==> lines@[k]@ == line_of(sorted@[k].0@, sorted@[k].1),
        decreases sorted@.len() - i,
    {
        let l = render_line(&sorted[i].0, sorted[i].1);
        lines.push(l);
        i = i + 1;
    }
    proof {
        let es = sorted@;
        assert(es.to_multiset() == counts.entries_view().to_multiset());
    }
    lines
}

} // verus!
