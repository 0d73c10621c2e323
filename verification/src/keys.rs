//! Typed sort keys: one key shape per sort mode, a total comparator over
//! keys, and the extraction of a key from a line under a mode.

use vstd::prelude::*;
use crate::order::Relation;
use crate::order::lex_cmp;
use crate::order::cmp_str;
use crate::order::lemma_lex_cmp_trans;
use crate::order::lemma_lex_cmp_flip;
use crate::order::lemma_lex_cmp_eq;
use crate::numkey::NumValue;
use crate::numkey::NumView;
use crate::numkey::num_cmp;
use crate::numkey::num_view_wf;
use crate::numkey::cmp_num;
use crate::numkey::lemma_num_le_total;
use crate::numkey::lemma_num_cmp_flip;
use crate::numkey::lemma_num_le_trans;
use crate::numparse::parse_plain_spec;
use crate::numparse::parse_suffix_spec;
use crate::numparse::parse_plain;
use crate::numparse::parse_with_suffix;
use crate::month::month_ord;
use crate::month::month_key;
use crate::fields::split_spec;
use crate::fields::split_fields;
use crate::fields::col_spec;
use crate::fields::col_text;

verus! {

/// The active sort mode; `Columns` carries the 1-based column indices in
/// tie-break order.
pub enum SortMode {
    Text,
    Numeric,
    NumericWithSuffix,
    Month,
    Columns(Vec<usize>),
}

pub enum ModeView {
    Text,
    Numeric,
    NumericWithSuffix,
    Month,
    Columns(Seq<usize>),
}

impl View for SortMode {
    type V = ModeView;

    open spec fn view(&self) -> ModeView {
        match self {
            SortMode::Text => ModeView::Text,
            SortMode::Numeric => ModeView::Numeric,
            SortMode::NumericWithSuffix => ModeView::NumericWithSuffix,
            SortMode::Month => ModeView::Month,
            SortMode::Columns(cs) => ModeView::Columns(cs@),
        }
    }
}

/// Column indices are 1-based, so every index must be positive.
pub open spec fn mode_wf(m: ModeView) -> bool {
    match m {
        ModeView::Columns(cs) => forall|i: int| 0 <= i < cs.len() ==> cs[i] >= 1,
        _ => true,
    }
}

/// The key of one line under one mode.
pub enum SortKey {
    Text(String),
    Num(NumValue),
    Month(u8),
    Cols(Vec<String>),
}

pub enum KeyView {
    Text(Seq<char>),
    Num(NumView),
    Month(int),
    Cols(Seq<Seq<char>>),
}

impl View for SortKey {
    type V = KeyView;

    open spec fn view(&self) -> KeyView {
        match self {
            SortKey::Text(s) => KeyView::Text(s@),
            SortKey::Num(v) => KeyView::Num(v@),
            SortKey::Month(m) => KeyView::Month(*m as int),
            SortKey::Cols(cs) => KeyView::Cols(cs.deep_view()),
        }
    }
}

/// A key is well formed when a numeric key is canonical.
pub open spec fn key_wf(k: KeyView) -> bool {
    match k {
        KeyView::Num(v) => num_view_wf(v),
        _ => true,
    }
}

/// Column keys compared left to right, first mismatch wins; a missing tail
/// orders first.
pub open spec fn cols_cmp(a: Seq<Seq<char>>, b: Seq<Seq<char>>) -> Relation
    decreases a.len(),
{
    if a.len() == 0 && b.len() == 0 {
        Relation::Equal
    } else if a.len() == 0 {
        Relation::Less
    } else if b.len() == 0 {
        Relation::Greater
    } else {
        match lex_cmp(a[0], b[0]) {
            Relation::Equal => cols_cmp(a.drop_first(), b.drop_first()),
            r => r,
        }
    }
}

pub open spec fn flip_rel(r: Relation) -> Relation {
    match r {
        Relation::Less => Relation::Greater,
        Relation::Equal => Relation::Equal,
        Relation::Greater => Relation::Less,
    }
}

pub proof fn lemma_cols_cmp_flip(a: Seq<Seq<char>>, b: Seq<Seq<char>>)
    ensures
        cols_cmp(b, a) == flip_rel(cols_cmp(a, b)),
    decreases a.len(),
{
    if a.len() > 0 && b.len() > 0 {
        lemma_lex_cmp_flip(a[0], b[0]);
        if lex_cmp(a[0], b[0]) == Relation::Equal {
            lemma_cols_cmp_flip(a.drop_first(), b.drop_first());
        }
    }
}

pub proof fn lemma_cols_cmp_trans(a: Seq<Seq<char>>, b: Seq<Seq<char>>, c: Seq<Seq<char>>)
    requires
        cols_cmp(a, b) != Relation::Greater,
        cols_cmp(b, c) != Relation::Greater,
    ensures
        cols_cmp(a, c) != Relation::Greater,
    decreases a.len(),
{
    if a.len() > 0 {
        assert(b.len() > 0);
        assert(c.len() > 0);
        let r1 = lex_cmp(a[0], b[0]);
        let r2 = lex_cmp(b[0], c[0]);
        assert(r1 != Relation::Greater);
        assert(r2 != Relation::Greater);
        lemma_lex_cmp_trans(a[0], b[0], c[0]);
        if lex_cmp(a[0], c[0]) == Relation::Equal {
            lemma_lex_cmp_eq(a[0], c[0]);
            assert(a[0] == c[0]);
            if r1 == Relation::Less {
                lemma_lex_cmp_flip(a[0], b[0]);
                assert(lex_cmp(b[0], c[0]) == Relation::Greater);
                assert(false);
            }
            if r2 == Relation::Less {
                lemma_lex_cmp_flip(b[0], c[0]);
                assert(lex_cmp(c[0], b[0]) == Relation::Greater);
                assert(lex_cmp(a[0], b[0]) == Relation::Greater);
                assert(false);
            }
            lemma_cols_cmp_trans(a.drop_first(), b.drop_first(), c.drop_first());
        }
    }
}

/// Keys of different shapes are ordered by shape, so the comparator is total
/// over all keys; within one run every key has the shape of the one active
/// mode.
pub open spec fn key_rank(k: KeyView) -> int {
    match k {
        KeyView::Text(_) => 0,
        KeyView::Num(_) => 1,
        KeyView::Month(_) => 2,
        KeyView::Cols(_) => 3,
    }
}

/// Total comparison of two keys.
pub open spec fn key_cmp(a: KeyView, b: KeyView) -> Relation {
    match (a, b) {
        (KeyView::Text(x), KeyView::Text(y)) => lex_cmp(x, y),
        (KeyView::Num(x), KeyView::Num(y)) => num_cmp(x, y),
        (KeyView::Month(x), KeyView::Month(y)) => if x < y {
            Relation::Less
        } else if x == y {
            Relation::Equal
        } else {
            Relation::Greater
        },
        (KeyView::Cols(x), KeyView::Cols(y)) => cols_cmp(x, y),
        _ => if key_rank(a) < key_rank(b) {
            Relation::Less
        } else {
            Relation::Greater
        },
    }
}

pub open spec fn key_le(a: KeyView, b: KeyView) -> bool {
    key_cmp(a, b) != Relation::Greater
}

/// Of two keys, at least one is less than or equal to the other.
pub proof fn lemma_key_le_total(a: KeyView, b: KeyView)
    ensures
        key_le(a, b) || key_le(b, a),
{
    if key_rank(a) == key_rank(b) {
        match (a, b) {
            (KeyView::Text(x), KeyView::Text(y)) => lemma_lex_cmp_flip(x, y),
            (KeyView::Num(x), KeyView::Num(y)) => lemma_num_le_total(x, y),
            (KeyView::Cols(x), KeyView::Cols(y)) => lemma_cols_cmp_flip(x, y),
            _ => {},
        }
    }
}

/// Swapping the arguments of the key comparison swaps `Less` and `Greater`.
pub proof fn lemma_key_cmp_flip(a: KeyView, b: KeyView)
    ensures
        key_cmp(b, a) == flip_rel(key_cmp(a, b)),
{
    if key_rank(a) == key_rank(b) {
        match (a, b) {
            (KeyView::Text(x), KeyView::Text(y)) => lemma_lex_cmp_flip(x, y),
            (KeyView::Num(x), KeyView::Num(y)) => lemma_num_cmp_flip(x, y),
            (KeyView::Cols(x), KeyView::Cols(y)) => lemma_cols_cmp_flip(x, y),
            _ => {},
        }
    }
}

/// The key order is antisymmetric: keys below each other compare `Equal`.
pub proof fn lemma_key_le_antisymm(a: KeyView, b: KeyView)
    requires
        key_le(a, b),
        key_le(b, a),
    ensures
        key_cmp(a, b) == Relation::Equal,
{
    lemma_key_cmp_flip(a, b);
}

/// Every key compares `Equal` to itself, so the order is reflexive.
pub proof fn lemma_key_le_refl(a: KeyView)
    ensures
        key_cmp(a, a) == Relation::Equal,
        key_le(a, a),
{
    lemma_key_cmp_flip(a, a);
}

proof fn lemma_key_le_rank(a: KeyView, b: KeyView)
    requires
        key_le(a, b),
    ensures
        key_rank(a) <= key_rank(b),
{
    if key_rank(a) > key_rank(b) {
        assert(key_cmp(a, b) == Relation::Greater);
    }
}

/// The key order is transitive.
pub proof fn lemma_key_le_trans(a: KeyView, b: KeyView, c: KeyView)
    requires
        key_le(a, b),
        key_le(b, c),
    ensures
        key_le(a, c),
{
    lemma_key_le_rank(a, b);
    lemma_key_le_rank(b, c);
    if key_rank(a) == key_rank(b) && key_rank(b) == key_rank(c) {
        match (a, b, c) {
            (KeyView::Text(x), KeyView::Text(y), KeyView::Text(z)) => lemma_lex_cmp_trans(
                x,
                y,
                z,
            ),
            (KeyView::Num(x), KeyView::Num(y), KeyView::Num(z)) => lemma_num_le_trans(x, y, z),
            (KeyView::Month(x), KeyView::Month(y), KeyView::Month(z)) => {},
            (KeyView::Cols(x), KeyView::Cols(y), KeyView::Cols(z)) => lemma_cols_cmp_trans(
                x,
                y,
                z,
            ),
            _ => {
                assert(false);
            },
        }
    } else {
        assert(key_rank(a) < key_rank(c));
        assert(key_cmp(a, c) == Relation::Less);
    }
}

/// Once two column-key sequences agree on their first `i` entries, their
/// order is decided by what remains.
proof fn lemma_cols_cmp_skip(a: Seq<Seq<char>>, b: Seq<Seq<char>>, i: int)
    requires
        0 <= i <= a.len(),
        i <= b.len(),
        forall|k: int| 0 <= k < i ==> a[k] == b[k],
    ensures
        cols_cmp(a, b) == cols_cmp(a.skip(i), b.skip(i)),
    decreases i,
{
    if i > 0 {
        assert(lex_cmp(a[0], b[0]) == Relation::Equal) by {
            lemma_lex_cmp_eq(a[0], b[0]);
        }
        lemma_cols_cmp_skip(a.drop_first(), b.drop_first(), i - 1);
        assert(a.drop_first().skip(i - 1) =~= a.skip(i));
        assert(b.drop_first().skip(i - 1) =~= b.skip(i));
    } else {
        assert(a.skip(0) =~= a);
        assert(b.skip(0) =~= b);
    }
}

/// Compares two column-key sequences.
pub fn cmp_cols(a: &Vec<String>, b: &Vec<String>) -> (r: Relation)
    ensures
        r == cols_cmp(a.deep_view(), b.deep_view()),
{
    let na = a.len();
    let nb = b.len();
    let n = if na < nb { na } else { nb };
    let mut i: usize = 0;
    while i < n
        invariant
            i <= n,
            na == a@.len(),
            nb == b@.len(),
            n == if na < nb { na } else { nb },
            forall|k: int| 0 <= k < i ==> a.deep_view()[k] == b.deep_view()[k],
        decreases n - i,
    {
        let c = cmp_str(a[i].as_str(), b[i].as_str());
        proof {
            assert(a.deep_view()[i as int] == a@[i as int]@);
            assert(b.deep_view()[i as int] == b@[i as int]@);
        }
        match c {
            Relation::Equal => {
                proof {
                    lemma_lex_cmp_eq(a@[i as int]@, b@[i as int]@);
                }
            },
            _ => {
                proof {
                    lemma_cols_cmp_skip(a.deep_view(), b.deep_view(), i as int);
                    assert(a.deep_view().skip(i as int)[0] == a.deep_view()[i as int]);
                    assert(b.deep_view().skip(i as int)[0] == b.deep_view()[i as int]);
                }
                return c;
            },
        }
        i = i + 1;
    }
    proof {
        lemma_cols_cmp_skip(a.deep_view(), b.deep_view(), n as int);
    }
    if na < nb {
        Relation::Less
    } else if nb < na {
        Relation::Greater
    } else {
        Relation::Equal
    }
}

fn key_rank_exec(k: &SortKey) -> (r: u8)
    ensures
        r as int == key_rank(k@),
{
    match k {
        SortKey::Text(_) => 0,
        SortKey::Num(_) => 1,
        SortKey::Month(_) => 2,
        SortKey::Cols(_) => 3,
    }
}

/// Compares two keys.
pub fn cmp_key(a: &SortKey, b: &SortKey) -> (r: Relation)
    requires
        key_wf(a@),
        key_wf(b@),
    ensures
        r == key_cmp(a@, b@),
{
    match (a, b) {
        (SortKey::Text(x), SortKey::Text(y)) => cmp_str(x.as_str(), y.as_str()),
        (SortKey::Num(x), SortKey::Num(y)) => cmp_num(x, y),
        (SortKey::Month(x), SortKey::Month(y)) => {
            if *x < *y {
                Relation::Less
            } else if *x == *y {
                Relation::Equal
            } else {
                Relation::Greater
            }
        },
        (SortKey::Cols(x), SortKey::Cols(y)) => cmp_cols(x, y),
        _ => {
            let ra = key_rank_exec(a);
            let rb = key_rank_exec(b);
            if ra < rb {
                Relation::Less
            } else {
                Relation::Greater
            }
        },
    }
}

/// What the key of a line is under a mode.
pub open spec fn key_spec(m: ModeView, s: Seq<char>) -> KeyView {
    match m {
        ModeView::Text => KeyView::Text(s),
        ModeView::Numeric => KeyView::Num(parse_plain_spec(s)),
        ModeView::NumericWithSuffix => KeyView::Num(parse_suffix_spec(s)),
        ModeView::Month => KeyView::Month(month_ord(s)),
        ModeView::Columns(cs) => KeyView::Cols(
            Seq::new(cs.len(), |i: int| col_spec(split_spec(s), cs[i] as int)),
        ),
    }
}

/// Extracts the sort key of a line under the active mode.
pub fn extract_key(line: &str, mode: &SortMode) -> (k: SortKey)
    requires
        mode_wf(mode@),
    ensures
        k@ == key_spec(mode@, line@),
        key_wf(k@),
{
    match mode {
        SortMode::Text => SortKey::Text(line.to_owned()),
        SortMode::Numeric => SortKey::Num(parse_plain(line)),
        SortMode::NumericWithSuffix => SortKey::Num(parse_with_suffix(line)),
        SortMode::Month => SortKey::Month(month_key(line)),
        SortMode::Columns(cs) => {
            let fs = split_fields(line);
            let ghost target = Seq::new(cs@.len(), |i: int| col_spec(split_spec(line@), cs@[i] as int));
            proof {
                assert(mode@ == ModeView::Columns(cs@));
            }
            let mut out: Vec<String> = Vec::new();
            let mut i: usize = 0;
            while i < cs.len()
                invariant
                    i <= cs@.len(),
                    forall|j: int| 0 <= j < cs@.len() ==> cs@[j] >= 1,
                    fs.deep_view() == split_spec(line@),
                    target == Seq::new(
                        cs@.len(),
                        |j: int| col_spec(split_spec(line@), cs@[j] as int),
                    ),
                    out.deep_view().len() == i as int,
                    forall|j: int| 0 <= j < i ==> out.deep_view()[j] == target[j],
                decreases cs@.len() - i,
            {
                let c = cs[i];
                proof {
                    assert(cs@[i as int] >= 1);
                }
                let w = col_text(&fs, c);
                let ghost old_out = out;
                out.push(w);
                proof {
                    assert(out.deep_view().len() == i + 1);
                    assert(forall|j: int|
                        0 <= j < i ==> out.deep_view()[j] == old_out.deep_view()[j]);
                    assert(out.deep_view()[i as int] == w@);
                }
                i = i + 1;
            }
            proof {
                assert(out.deep_view() =~= target);
            }
            SortKey::Cols(out)
        },
    }
}

} // verus!
