//! Parsing the column list of a configuration: a comma-separated list of
//! 1-based column indices, rejected eagerly with a `ConfigError` so that
//! comparison never fails later.

use vstd::prelude::*;
use crate::chars::is_digit;
use crate::chars::is_digit_char;
use crate::chars::digit_val;
use crate::numkey::mant;
use crate::numkey::pow10;
use crate::numkey::lemma_mant_nonneg;
use crate::numkey::lemma_mant_append;
use crate::numkey::lemma_pow10_pos;
use vstd::arithmetic::mul::lemma_mul_left_inequality;

verus! {

/// Why a column specification was rejected.
#[derive(Clone, Copy, PartialEq, Eq, Structural, Debug)]
pub enum ConfigError {
    /// A column entry is empty, holds a non-digit, or does not fit.
    NonNumeric,
    /// Column indices are 1-based, so an index of zero is meaningless.
    ZeroIndex,
}

/// The comma-separated chunks of the text from position `i` on, with `cur`
/// the chunk read so far; empty chunks count.
pub open spec fn commas_acc(s: Seq<char>, i: int, cur: Seq<char>) -> Seq<Seq<char>>
    decreases s.len() - i,
{
    if i < 0 || i >= s.len() {
        seq![cur]
    } else if s[i] == ',' {
        seq![cur] + commas_acc(s, i + 1, Seq::empty())
    } else {
        commas_acc(s, i + 1, cur.push(s[i]))
    }
}

pub open spec fn comma_chunks(s: Seq<char>) -> Seq<Seq<char>> {
    commas_acc(s, 0, Seq::empty())
}

/// The number a chunk names when read as decimal digits.
pub open spec fn chunk_val(c: Seq<char>) -> int {
    mant(Seq::new(c.len(), |i: int| digit_val(c[i])))
}

/// A chunk parses when it is nonempty, all digits, and its value fits the
/// machine's index type.
pub open spec fn chunk_parses(c: Seq<char>) -> bool {
    &&& c.len() >= 1
    &&& forall|i: int| 0 <= i < c.len() ==> is_digit(c[i])
    &&& chunk_val(c) <= usize::MAX as int
}

pub open spec fn chunk_error(c: Seq<char>) -> Option<ConfigError> {
    if !chunk_parses(c) {
        Option::Some(ConfigError::NonNumeric)
    } else if chunk_val(c) == 0 {
        Option::Some(ConfigError::ZeroIndex)
    } else {
        Option::None
    }
}

/// The first error among the chunks, scanned left to right.
pub open spec fn first_error(cs: Seq<Seq<char>>) -> Option<ConfigError>
    decreases cs.len(),
{
    if cs.len() == 0 {
        Option::None
    } else if chunk_error(cs[0]) is Some {
        chunk_error(cs[0])
    } else {
        first_error(cs.drop_first())
    }
}

/// The rest of the chunk that starts at position `i`: the characters up to
/// the next comma.
pub open spec fn rest_chunk(s: Seq<char>, i: int) -> Seq<char>
    decreases s.len() - i,
{
    if i < 0 || i >= s.len() || s[i] == ',' {
        Seq::empty()
    } else {
        seq![s[i]] + rest_chunk(s, i + 1)
    }
}

/// The first chunk the scan will complete is the chunk read so far extended
/// to the next comma.
proof fn lemma_acc_first(s: Seq<char>, i: int, cur: Seq<char>)
    ensures
        commas_acc(s, i, cur).len() >= 1,
        commas_acc(s, i, cur)[0] == cur + rest_chunk(s, i),
    decreases s.len() - i,
{
    if i < 0 || i >= s.len() {
        assert(cur + Seq::<char>::empty() =~= cur);
    } else if s[i] == ',' {
        assert(cur + Seq::<char>::empty() =~= cur);
    } else {
        lemma_acc_first(s, i + 1, cur.push(s[i]));
        assert(cur.push(s[i]) + rest_chunk(s, i + 1) =~= cur + (seq![s[i]] + rest_chunk(
            s,
            i + 1,
        )));
    }
}

/// Extending a chunk with more characters never shrinks its value.
proof fn lemma_chunk_val_extend(a: Seq<char>, b: Seq<char>)
    ensures
        chunk_val(a + b) >= chunk_val(a),
{
    let va = Seq::new(a.len(), |i: int| digit_val(a[i]));
    let vb = Seq::new(b.len(), |i: int| digit_val(b[i]));
    let vab = Seq::new((a + b).len(), |i: int| digit_val((a + b)[i]));
    assert(vab =~= va + vb);
    lemma_mant_append(va, vb);
    lemma_mant_nonneg(va);
    lemma_mant_nonneg(vb);
    lemma_pow10_pos(b.len() as int);
    if mant(va) > 0 {
        lemma_mul_left_inequality(mant(va), 1, pow10(b.len() as int));
    }
}

/// Parses a comma-separated list of 1-based column indices. Every chunk
/// must be a nonzero decimal index that fits the machine; the first
/// offending chunk decides the error.
pub fn parse_field_spec(s: &str) -> (r: Result<Vec<usize>, ConfigError>)
    ensures
        match r {
            Result::Ok(v) => {
                &&& first_error(comma_chunks(s@)) is None
                &&& v@.len() == comma_chunks(s@).len()
                &&& forall|i: int|
                    0 <= i < v@.len() ==> (#[trigger] v@[i]) as int == chunk_val(
                        comma_chunks(s@)[i],
                    ) && v@[i] >= 1
            },
            Result::Err(e) => first_error(comma_chunks(s@)) == Option::Some(e),
        },
{
    let n = s.unicode_len();
    let mut out: Vec<usize> = Vec::new();
    let mut i: usize = 0;
    let mut start: usize = 0;
    let mut val: u64 = 0;
    let ghost mut done = Seq::<Seq<char>>::empty();
    proof {
        assert(s@.subrange(0, 0) =~= Seq::<char>::empty());
        assert(Seq::<Seq<char>>::empty() + commas_acc(s@, 0, Seq::empty()) =~= comma_chunks(s@));
        assert(chunk_val(Seq::<char>::empty()) == 0) by {
            assert(Seq::new(0nat, |k: int| digit_val(Seq::<char>::empty()[k]))
                =~= Seq::<u8>::empty());
        }
    }
    while i < n
        invariant
            start <= i <= n,
            n == s@.len(),
            comma_chunks(s@) == done + commas_acc(s@, i as int, s@.subrange(
                start as int,
                i as int,
            )),
            first_error(done) is None,
            forall|j: int| start <= j < i ==> is_digit(s@[j]),
            val as int == chunk_val(s@.subrange(start as int, i as int)),
            val <= usize::MAX as u64,
            out@.len() == done.len(),
            forall|j: int|
                0 <= j < done.len() ==> (#[trigger] out@[j]) as int == chunk_val(done[j])
                    && out@[j] >= 1 && chunk_error(done[j]) is None,
        decreases n - i,
    {
        let ghost cur = s@.subrange(start as int, i as int);
        let ghost vcur = Seq::new(cur.len(), |k: int| digit_val(cur[k]));
        let c = s.get_char(i);
        if c == ',' {
            // the current chunk is complete
            proof {
                assert(commas_acc(s@, i as int, cur) == seq![cur] + commas_acc(
                    s@,
                    i + 1,
                    Seq::empty(),
                ));
                assert((seq![cur] + commas_acc(s@, i + 1, Seq::empty()))[0] == cur);
                assert((seq![cur] + commas_acc(s@, i + 1, Seq::empty())).drop_first()
                    =~= commas_acc(s@, i + 1, Seq::empty()));
            }
            if start == i {
                proof {
                    lemma_first_error_here(done, commas_acc(s@, i as int, cur));
                }
                return Result::Err(ConfigError::NonNumeric);
            }
            if val == 0 {
                proof {
                    assert(chunk_parses(cur));
                    lemma_first_error_here(done, commas_acc(s@, i as int, cur));
                }
                return Result::Err(ConfigError::ZeroIndex);
            }
            let v_us = val as usize;
            out.push(v_us);
            proof {
                assert(chunk_parses(cur));
                assert(chunk_error(cur) is None);
                assert(done.push(cur) + commas_acc(s@, i + 1, Seq::empty()) =~= done + (seq![cur]
                    + commas_acc(s@, i + 1, Seq::empty())));
                lemma_first_error_step(done, cur);
            }
            proof {
                done = done.push(cur);
            }
            i = i + 1;
            start = i;
            val = 0;
            proof {
                assert(s@.subrange(start as int, i as int) =~= Seq::<char>::empty());
                assert(chunk_val(Seq::<char>::empty()) == 0) by {
                    assert(Seq::new(0nat, |k: int| digit_val(Seq::<char>::empty()[k]))
                        =~= Seq::<u8>::empty());
                }
            }
        } else if is_digit_char(c) {
            let d = (c as u8) - 48;
            let ghost cur2 = s@.subrange(start as int, i + 1);
            proof {
                assert(cur2 =~= cur.push(c));
                let vcur2 = Seq::new(cur2.len(), |k: int| digit_val(cur2[k]));
                assert(vcur2 =~= vcur.push(d));
                assert(vcur2.drop_last() =~= vcur);
                assert(mant(vcur2) == mant(vcur) * 10 + d);
            }
            let lim: u64 = usize::MAX as u64;
            if val > (lim - (d as u64)) / 10 {
                // the chunk's value cannot fit the index type
                proof {
                    assert(10 * (val as int) + d > lim as int);
                    lemma_acc_first(s@, i as int, cur);
                    let full = cur + rest_chunk(s@, i as int);
                    assert(rest_chunk(s@, i as int) == seq![c] + rest_chunk(s@, i + 1));
                    assert(full =~= cur2 + rest_chunk(s@, i + 1));
                    lemma_chunk_val_extend(cur2, rest_chunk(s@, i + 1));
                    assert(chunk_val(full) > usize::MAX as int);
                    assert(chunk_error(full) == Option::Some(ConfigError::NonNumeric));
                    assert(commas_acc(s@, i as int, cur)[0] == full);
                    lemma_first_error_here(done, commas_acc(s@, i as int, cur));
                }
                return Result::Err(ConfigError::NonNumeric);
            }
            val = val * 10 + (d as u64);
            i = i + 1;
        } else {
            // a character that is neither a digit nor a comma
            proof {
                lemma_acc_first(s@, i as int, cur);
                let full = cur + rest_chunk(s@, i as int);
                assert(rest_chunk(s@, i as int) == seq![c] + rest_chunk(s@, i + 1));
                assert(full[cur.len() as int] == c);
                assert(!chunk_parses(full));
                assert(chunk_error(full) == Option::Some(ConfigError::NonNumeric));
                lemma_first_error_here(done, commas_acc(s@, i as int, cur));
            }
            return Result::Err(ConfigError::NonNumeric);
        }
    }
    // the final chunk
    let ghost cur = s@.subrange(start as int, i as int);
    proof {
        assert(commas_acc(s@, i as int, cur) == seq![cur]);
        assert(seq![cur][0] == cur);
        assert(seq![cur].drop_first() =~= Seq::<Seq<char>>::empty());
    }
    if start == i {
        proof {
            lemma_first_error_here(done, seq![cur]);
        }
        return Result::Err(ConfigError::NonNumeric);
    }
    if val == 0 {
        proof {
            assert(chunk_parses(cur));
            lemma_first_error_here(done, seq![cur]);
        }
        return Result::Err(ConfigError::ZeroIndex);
    }
    let v_us = val as usize;
    out.push(v_us);
    proof {
        assert(chunk_parses(cur));
        assert(chunk_error(cur) is None);
        lemma_first_error_step(done, cur);
        assert(comma_chunks(s@) =~= done.push(cur));
        assert(forall|j: int|
            0 <= j < done.len() ==> #[trigger] comma_chunks(s@)[j] == done[j]);
    }
    Result::Ok(out)
}

/// When the earlier chunks are clean, the overall first error is the error
/// of the chunk at hand.
proof fn lemma_first_error_here(done: Seq<Seq<char>>, rest: Seq<Seq<char>>)
    requires
        first_error(done) is None,
        rest.len() >= 1,
    ensures
        chunk_error(rest[0]) is Some ==> first_error(done + rest) == chunk_error(rest[0]),
    decreases done.len(),
{
    if done.len() == 0 {
        assert(done + rest =~= rest);
    } else {
        assert((done + rest)[0] == done[0]);
        assert(chunk_error(done[0]) is None);
        lemma_first_error_here(done.drop_first(), rest);
        assert((done + rest).drop_first() =~= done.drop_first() + rest);
    }
}

/// A clean chunk moves from the scan into the finished list without
/// changing the first error.
proof fn lemma_first_error_step(done: Seq<Seq<char>>, c: Seq<char>)
    requires
        first_error(done) is None,
        chunk_error(c) is None,
    ensures
        first_error(done.push(c)) is None,
    decreases done.len(),
{
    if done.len() == 0 {
        assert(done.push(c)[0] == c);
        assert(done.push(c).drop_first() =~= Seq::<Seq<char>>::empty());
        assert(first_error(Seq::<Seq<char>>::empty()) is None);
    } else {
        assert(done.push(c)[0] == done[0]);
        assert(chunk_error(done[0]) is None);
        lemma_first_error_step(done.drop_first(), c);
        assert(done.push(c).drop_first() =~= done.drop_first().push(c));
        assert(first_error(done.push(c).drop_first()) is None);
    }
}

} // verus!
