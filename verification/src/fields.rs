//! Trailing-whitespace trimming, splitting a line into whitespace-delimited
//! fields, and addressing fields by 1-based column index.

use vstd::prelude::*;
use crate::chars::is_space;
use crate::chars::is_space_char;

verus! {

/// Length of the line once trailing whitespace is removed.
pub open spec fn trim_len(s: Seq<char>) -> int
    decreases s.len(),
{
    if s.len() == 0 {
        0
    } else if !is_space(s.last()) {
        s.len() as int
    } else {
        trim_len(s.drop_last())
    }
}

/// The line with its trailing whitespace removed.
pub open spec fn trim_spec(s: Seq<char>) -> Seq<char> {
    s.take(trim_len(s))
}

pub proof fn lemma_trim_len_bounds(s: Seq<char>)
    ensures
        0 <= trim_len(s) <= s.len(),
    decreases s.len(),
{
    if s.len() > 0 && is_space(s.last()) {
        lemma_trim_len_bounds(s.drop_last());
    }
}

/// Removes trailing whitespace from a line.
pub fn trim_trailing(s: &str) -> (r: String)
    ensures
        r@ == trim_spec(s@),
{
    let n = s.unicode_len();
    let mut k: usize = n;
    proof {
        assert(s@.take(n as int) =~= s@);
    }
    while k > 0 && is_space_char(s.get_char(k - 1))
        invariant
            k <= n,
            n == s@.len(),
            trim_len(s@) == trim_len(s@.take(k as int)),
        decreases k,
    {
        proof {
            let t = s@.take(k as int);
            assert(t.last() == s@[k - 1]);
            assert(t.drop_last() =~= s@.take(k - 1));
        }
        k = k - 1;
    }
    proof {
        let t = s@.take(k as int);
        if k > 0 {
            assert(t.last() == s@[k - 1]);
            assert(trim_len(t) == k);
        }
        assert(trim_len(s@) == k);
    }
    let r = s.substring_char(0, k);
    proof {
        assert(r@ =~= trim_spec(s@));
    }
    r.to_owned()
}

/// The fields of the line from position `i` on, with `cur` the word read so
/// far: words are maximal runs of non-whitespace, separators are discarded.
pub open spec fn split_acc(s: Seq<char>, i: int, cur: Seq<char>) -> Seq<Seq<char>>
    decreases s.len() - i,
{
    if i < 0 || i >= s.len() {
        if cur.len() == 0 {
            Seq::empty()
        } else {
            seq![cur]
        }
    } else if is_space(s[i]) {
        (if cur.len() == 0 {
            Seq::<Seq<char>>::empty()
        } else {
            seq![cur]
        }) + split_acc(s, i + 1, Seq::empty())
    } else {
        split_acc(s, i + 1, cur.push(s[i]))
    }
}

/// The whitespace-delimited fields of a line, in order.
pub open spec fn split_spec(s: Seq<char>) -> Seq<Seq<char>> {
    split_acc(s, 0, Seq::empty())
}

/// Splits a line into its whitespace-delimited fields.
pub fn split_fields(s: &str) -> (r: Vec<String>)
    ensures
        r.deep_view() == split_spec(s@),
{
    let n = s.unicode_len();
    let mut out: Vec<String> = Vec::new();
    let mut i: usize = 0;
    let mut start: usize = 0;
    proof {
        assert(s@.subrange(0, 0) =~= Seq::<char>::empty());
        assert(out.deep_view() =~= Seq::<Seq<char>>::empty());
        assert(out.deep_view() + split_acc(s@, 0, Seq::empty()) =~= split_acc(
            s@,
            0,
            Seq::empty(),
        ));
    }
    while i < n
        invariant
            start <= i <= n,
            n == s@.len(),
            split_spec(s@) == out.deep_view() + split_acc(
                s@,
                i as int,
                s@.subrange(start as int, i as int),
            ),
        decreases n - i,
    {
        let ghost cur = s@.subrange(start as int, i as int);
        let c = s.get_char(i);
        if is_space_char(c) {
            if start < i {
                let w = s.substring_char(start, i);
                let w2 = w.to_owned();
                let ghost old_out = out;
                out.push(w2);
                proof {
                    assert(w@ =~= cur);
                    assert(out.deep_view() =~= old_out.deep_view().push(cur));
                    assert(split_acc(s@, i as int, cur) == seq![cur] + split_acc(
                        s@,
                        i + 1,
                        Seq::empty(),
                    ));
                    assert(old_out.deep_view() + (seq![cur] + split_acc(s@, i + 1, Seq::empty()))
                        =~= out.deep_view() + split_acc(s@, i + 1, Seq::empty()));
                }
            } else {
                proof {
                    assert(cur.len() == 0);
                    assert(Seq::<Seq<char>>::empty() + split_acc(s@, i + 1, Seq::empty())
                        =~= split_acc(s@, i + 1, Seq::empty()));
                }
            }
            i = i + 1;
            start = i;
            proof {
                assert(s@.subrange(start as int, i as int) =~= Seq::<char>::empty());
            }
        } else {
            i = i + 1;
            proof {
                assert(s@.subrange(start as int, i as int) =~= cur.push(s@[i - 1]));
            }
        }
    }
    if start < i {
        let w = s.substring_char(start, i);
        let w2 = w.to_owned();
        let ghost old_out = out;
        out.push(w2);
        proof {
            let cur = s@.subrange(start as int, i as int);
            assert(w@ =~= cur);
            assert(out.deep_view() =~= old_out.deep_view().push(cur));
            assert(split_acc(s@, i as int, cur) == seq![cur]);
            assert(old_out.deep_view() + seq![cur] =~= out.deep_view());
        }
    } else {
        proof {
            let cur = s@.subrange(start as int, i as int);
            assert(cur.len() == 0);
            assert(out.deep_view() + split_acc(s@, i as int, cur) =~= out.deep_view());
        }
    }
    out
}

/// The text of column `c` (1-based); a missing column reads as the empty
/// string.
pub open spec fn col_spec(fs: Seq<Seq<char>>, c: int) -> Seq<char> {
    if 1 <= c <= fs.len() {
        fs[c - 1]
    } else {
        Seq::empty()
    }
}

/// Reads column `c` (1-based) out of the split fields of a line.
pub fn col_text(fs: &Vec<String>, c: usize) -> (r: String)
    requires
        c >= 1,
    ensures
        r@ == col_spec(fs.deep_view(), c as int),
{
    if c - 1 < fs.len() {
        let w = fs[c - 1].clone();
        proof {
            assert(fs.deep_view()[c - 1] == fs@[c - 1]@);
        }
        w
    } else {
        String::new()
    }
}

} // verus!
