//! The stable sort over keyed lines, the sortedness check, and the laws the
//! sort obeys: an already-sorted sequence is left identical, and lines with
//! equal keys keep their original relative order.

use vstd::prelude::*;
use crate::order::Relation;
use crate::keys::SortKey;
use crate::keys::KeyView;
use crate::keys::key_wf;
use crate::keys::key_le;
use crate::keys::key_cmp;
use crate::keys::cmp_key;
use crate::keys::lemma_key_le_total;
use crate::keys::lemma_key_le_trans;
use crate::keys::lemma_key_cmp_flip;
use crate::keys::lemma_key_le_refl;
use crate::keys::flip_rel;

verus! {

/// One input line: its position in the input, its text, and its key under
/// the active mode.
pub struct Entry {
    pub idx: usize,
    pub line: String,
    pub key: SortKey,
}

pub struct EntryV {
    pub idx: int,
    pub line: Seq<char>,
    pub key: KeyView,
}

impl View for Entry {
    type V = EntryV;

    open spec fn view(&self) -> EntryV {
        EntryV { idx: self.idx as int, line: self.line@, key: self.key@ }
    }
}

impl DeepView for Entry {
    type V = EntryV;

    open spec fn deep_view(&self) -> EntryV {
        self@
    }
}

/// Non-decreasing key order over a sequence of entries.
pub open spec fn sorted_by_key(s: Seq<EntryV>) -> bool {
    forall|i: int, j: int| 0 <= i < j < s.len() ==> key_le(s[i].key, s[j].key)
}

/// Inserts `x` after every entry whose key is less than or equal to its key:
/// the insertion step of a stable insertion sort.
pub open spec fn insert_stable(x: EntryV, s: Seq<EntryV>) -> Seq<EntryV>
    decreases s.len(),
{
    if s.len() == 0 {
        seq![x]
    } else if key_le(s[0].key, x.key) {
        seq![s[0]] + insert_stable(x, s.drop_first())
    } else {
        seq![x] + s
    }
}

/// The stable sort of a sequence of entries by key.
pub open spec fn stable_sort(s: Seq<EntryV>) -> Seq<EntryV>
    decreases s.len(),
{
    if s.len() == 0 {
        Seq::empty()
    } else {
        insert_stable(s.last(), stable_sort(s.drop_last()))
    }
}

proof fn lemma_insert_props(x: EntryV, s: Seq<EntryV>)
    ensures
        insert_stable(x, s).len() == s.len() + 1,
        forall|k: int|
            0 <= k < insert_stable(x, s).len() ==> (insert_stable(x, s)[k] == x || s.contains(
                insert_stable(x, s)[k],
            )),
    decreases s.len(),
{
    if s.len() == 0 {
    } else if key_le(s[0].key, x.key) {
        let d = s.drop_first();
        lemma_insert_props(x, d);
        let r = insert_stable(x, s);
        assert forall|k: int| 0 <= k < r.len() implies (r[k] == x || s.contains(r[k])) by {
            if k == 0 {
                assert(r[0] == s[0]);
                assert(s.contains(s[0]));
            } else {
                let t = insert_stable(x, d);
                assert(r[k] == t[k - 1]);
                if t[k - 1] == x {
                } else {
                    assert(d.contains(t[k - 1]));
                    let m = choose|m: int| 0 <= m < d.len() && d[m] == t[k - 1];
                    assert(s[m + 1] == d[m]);
                    assert(s.contains(s[m + 1]));
                }
            }
        }
    } else {
        let r = insert_stable(x, s);
        assert forall|k: int| 0 <= k < r.len() implies (r[k] == x || s.contains(r[k])) by {
            if k > 0 {
                assert(r[k] == s[k - 1]);
                assert(s.contains(s[k - 1]));
            }
        }
    }
}

proof fn lemma_insert_sorted(x: EntryV, s: Seq<EntryV>)
    requires
        sorted_by_key(s),
    ensures
        sorted_by_key(insert_stable(x, s)),
    decreases s.len(),
{
    let r = insert_stable(x, s);
    if s.len() == 0 {
    } else if key_le(s[0].key, x.key) {
        let d = s.drop_first();
        let t = insert_stable(x, d);
        assert(sorted_by_key(d));
        lemma_insert_sorted(x, d);
        lemma_insert_props(x, d);
        assert forall|i: int, j: int| 0 <= i < j < r.len() implies key_le(r[i].key, r[j].key) by {
            if i == 0 {
                assert(r[j] == t[j - 1]);
                if t[j - 1] == x {
                } else {
                    assert(d.contains(t[j - 1]));
                    let m = choose|m: int| 0 <= m < d.len() && d[m] == t[j - 1];
                    assert(s[m + 1] == d[m]);
                    assert(key_le(s[0].key, s[m + 1].key));
                }
            } else {
                assert(r[i] == t[i - 1]);
                assert(r[j] == t[j - 1]);
            }
        }
    } else {
        lemma_key_le_total(s[0].key, x.key);
        assert forall|i: int, j: int| 0 <= i < j < r.len() implies key_le(r[i].key, r[j].key) by {
            if i == 0 {
                assert(r[j] == s[j - 1]);
                if j - 1 > 0 {
                    lemma_key_le_trans(x.key, s[0].key, s[j - 1].key);
                }
            } else {
                assert(r[i] == s[i - 1]);
                assert(r[j] == s[j - 1]);
            }
        }
    }
}

/// The stable sort of any sequence is sorted by key.
pub proof fn lemma_stable_sort_sorted(s: Seq<EntryV>)
    ensures
        sorted_by_key(stable_sort(s)),
    decreases s.len(),
{
    if s.len() > 0 {
        lemma_stable_sort_sorted(s.drop_last());
        lemma_insert_sorted(s.last(), stable_sort(s.drop_last()));
    }
}

/// Every entry of the stable sort is an entry of the input.
pub proof fn lemma_stable_sort_elems(s: Seq<EntryV>)
    ensures
        stable_sort(s).len() == s.len(),
        forall|k: int| 0 <= k < stable_sort(s).len() ==> s.contains(stable_sort(s)[k]),
    decreases s.len(),
{
    if s.len() > 0 {
        let d = s.drop_last();
        let t = stable_sort(d);
        lemma_stable_sort_elems(d);
        lemma_insert_props(s.last(), t);
        let r = stable_sort(s);
        assert forall|k: int| 0 <= k < r.len() implies s.contains(r[k]) by {
            if r[k] == s.last() {
                assert(s[s.len() - 1] == s.last());
            } else {
                assert(t.contains(r[k]));
                let m = choose|m: int| 0 <= m < t.len() && t[m] == r[k];
                assert(d.contains(t[m]));
                let m2 = choose|m2: int| 0 <= m2 < d.len() && d[m2] == t[m];
                assert(s[m2] == d[m2]);
            }
        }
    }
}

/// Where the insertion lands: `x` goes at the first position whose entry's
/// key exceeds the key of `x`.
proof fn lemma_insert_at(x: EntryV, s: Seq<EntryV>, p: int)
    requires
        0 <= p <= s.len(),
        forall|k: int| 0 <= k < p ==> key_le(s[k].key, x.key),
        p < s.len() ==> !key_le(s[p].key, x.key),
    ensures
        insert_stable(x, s) == s.take(p) + seq![x] + s.skip(p),
    decreases p,
{
    if p == 0 {
        if s.len() == 0 {
            assert(insert_stable(x, s) =~= s.take(0) + seq![x] + s.skip(0));
        } else {
            assert(insert_stable(x, s) == seq![x] + s);
            assert(seq![x] + s =~= s.take(0) + seq![x] + s.skip(0));
        }
    } else {
        let d = s.drop_first();
        assert(key_le(s[0].key, x.key));
        assert forall|k: int| 0 <= k < p - 1 implies key_le(d[k].key, x.key) by {
            assert(d[k] == s[k + 1]);
        }
        if p - 1 < d.len() {
            assert(d[p - 1] == s[p]);
        }
        lemma_insert_at(x, d, p - 1);
        assert(seq![s[0]] + (d.take(p - 1) + seq![x] + d.skip(p - 1)) =~= s.take(p) + seq![x]
            + s.skip(p));
    }
}

/// Sorting a sequence that is already sorted by key gives back the identical
/// sequence.
pub proof fn lemma_sort_idempotent(s: Seq<EntryV>)
    requires
        sorted_by_key(s),
    ensures
        stable_sort(s) == s,
    decreases s.len(),
{
    if s.len() > 0 {
        let d = s.drop_last();
        assert(sorted_by_key(d));
        lemma_sort_idempotent(d);
        assert forall|k: int| 0 <= k < d.len() implies key_le(d[k].key, s.last().key) by {
            assert(d[k] == s[k]);
            assert(key_le(s[k].key, s[s.len() - 1].key));
        }
        lemma_insert_at(s.last(), d, d.len() as int);
        assert(d.take(d.len() as int) =~= d);
        assert(d.skip(d.len() as int) =~= Seq::empty());
        assert(d + seq![s.last()] + Seq::empty() =~= s);
    }
}

/// Entry positions strictly increase along the sequence.
pub open spec fn idx_increasing(s: Seq<EntryV>) -> bool {
    forall|i: int, j: int| 0 <= i < j < s.len() ==> s[i].idx < s[j].idx
}

/// Entries with equal keys stand in order of their input positions.
pub open spec fn stable_order(s: Seq<EntryV>) -> bool {
    forall|i: int, j: int|
        0 <= i < j < s.len() && key_cmp(s[i].key, s[j].key) == Relation::Equal ==> s[i].idx
            < s[j].idx
}

proof fn lemma_insert_stable_order(x: EntryV, s: Seq<EntryV>)
    requires
        sorted_by_key(s),
        stable_order(s),
        forall|k: int| 0 <= k < s.len() ==> s[k].idx < x.idx,
    ensures
        stable_order(insert_stable(x, s)),
    decreases s.len(),
{
    let r = insert_stable(x, s);
    if s.len() == 0 {
    } else if key_le(s[0].key, x.key) {
        let d = s.drop_first();
        let t = insert_stable(x, d);
        assert(sorted_by_key(d));
        assert(stable_order(d));
        lemma_insert_stable_order(x, d);
        lemma_insert_props(x, d);
        assert forall|i: int, j: int|
            0 <= i < j < r.len() && key_cmp(r[i].key, r[j].key) == Relation::Equal implies r[i].idx
            < r[j].idx by {
            if i == 0 {
                assert(r[j] == t[j - 1]);
                if t[j - 1] == x {
                } else {
                    assert(d.contains(t[j - 1]));
                    let m = choose|m: int| 0 <= m < d.len() && d[m] == t[j - 1];
                    assert(s[m + 1] == d[m]);
                    assert(key_cmp(s[0].key, s[m + 1].key) == Relation::Equal);
                }
            } else {
                assert(r[i] == t[i - 1]);
                assert(r[j] == t[j - 1]);
            }
        }
    } else {
        // x goes first; no later entry can share its key
        assert forall|i: int, j: int|
            0 <= i < j < r.len() && key_cmp(r[i].key, r[j].key) == Relation::Equal implies r[i].idx
            < r[j].idx by {
            if i == 0 {
                assert(r[j] == s[j - 1]);
                if key_cmp(x.key, s[j - 1].key) == Relation::Equal {
                    lemma_key_cmp_flip(x.key, s[j - 1].key);
                    assert(key_le(s[j - 1].key, x.key));
                    if j - 1 > 0 {
                        lemma_key_le_trans(s[0].key, s[j - 1].key, x.key);
                    }
                    assert(false);
                }
            } else {
                assert(r[i] == s[i - 1]);
                assert(r[j] == s[j - 1]);
            }
        }
    }
}

/// Stability: when input positions strictly increase, entries with equal
/// keys keep their input order in the stable sort.
pub proof fn lemma_sort_stable(s: Seq<EntryV>)
    requires
        idx_increasing(s),
    ensures
        stable_order(stable_sort(s)),
    decreases s.len(),
{
    if s.len() > 0 {
        let d = s.drop_last();
        let t = stable_sort(d);
        assert(idx_increasing(d));
        lemma_sort_stable(d);
        lemma_stable_sort_sorted(d);
        lemma_stable_sort_elems(d);
        assert forall|k: int| 0 <= k < t.len() implies t[k].idx < s.last().idx by {
            assert(d.contains(t[k]));
            let m = choose|m: int| 0 <= m < d.len() && d[m] == t[k];
            assert(s[m] == d[m]);
            assert(s[m].idx < s[s.len() - 1].idx);
        }
        lemma_insert_stable_order(s.last(), t);
    }
}

/// Finds the first position in `out` whose key exceeds the key of `x`.
fn find_pos(out: &Vec<Entry>, x: &Entry) -> (p: usize)
    requires
        forall|k: int| 0 <= k < out.deep_view().len() ==> key_wf(out.deep_view()[k].key),
        key_wf(x@.key),
    ensures
        p <= out@.len(),
        forall|k: int| 0 <= k < p ==> key_le(out.deep_view()[k].key, x@.key),
        p < out@.len() ==> !key_le(out.deep_view()[p as int].key, x@.key),
{
    let n = out.len();
    let mut p: usize = 0;
    while p < n
        invariant
            p <= n,
            n == out@.len(),
            forall|k: int| 0 <= k < out.deep_view().len() ==> key_wf(out.deep_view()[k].key),
            key_wf(x@.key),
            forall|k: int| 0 <= k < p ==> key_le(out.deep_view()[k].key, x@.key),
        decreases n - p,
    {
        proof {
            assert(out.deep_view()[p as int] == out@[p as int]@);
        }
        let c = cmp_key(&out[p].key, &x.key);
        match c {
            Relation::Greater => {
                return p;
            },
            _ => {},
        }
        p = p + 1;
    }
    p
}

/// Stable insertion sort of the keyed lines, by key, ties kept in input
/// order.
pub fn sort_entries(v: Vec<Entry>) -> (r: Vec<Entry>)
    requires
        forall|i: int| 0 <= i < v.deep_view().len() ==> key_wf(v.deep_view()[i].key),
    ensures
        r.deep_view() == stable_sort(v.deep_view()),
        forall|i: int| 0 <= i < r.deep_view().len() ==> key_wf(r.deep_view()[i].key),
{
    let ghost orig = v.deep_view();
    let mut src = v;
    let mut out: Vec<Entry> = Vec::new();
    proof {
        assert(out.deep_view() =~= Seq::<EntryV>::empty());
        assert(orig.take(0) =~= Seq::<EntryV>::empty());
        assert(src.deep_view() =~= orig.skip(0));
    }
    while src.len() > 0
        invariant
            src@.len() <= orig.len(),
            src.deep_view() == orig.skip(orig.len() - src@.len()),
            out.deep_view() == stable_sort(orig.take(orig.len() - src@.len())),
            forall|i: int| 0 <= i < orig.len() ==> key_wf(orig[i].key),
            forall|i: int| 0 <= i < out.deep_view().len() ==> key_wf(out.deep_view()[i].key),
        decreases src@.len(),
    {
        let ghost k = orig.len() - src@.len();
        let ghost old_src_dv = src.deep_view();
        let ghost old_out_dv = out.deep_view();
        let e = src.remove(0);
        proof {
            assert(e@ == old_src_dv[0]);
            assert(old_src_dv[0] == orig[k]);
            assert(src.deep_view() =~= old_src_dv.skip(1));
            assert(old_src_dv.skip(1) =~= orig.skip(k + 1));
            assert(key_wf(e@.key));
        }
        let p = find_pos(&out, &e);
        out.insert(p, e);
        proof {
            lemma_insert_at(e@, old_out_dv, p as int);
            assert(out.deep_view() =~= old_out_dv.take(p as int) + seq![e@] + old_out_dv.skip(
                p as int,
            ));
            assert(out.deep_view() == insert_stable(e@, old_out_dv));
            let t = orig.take(k + 1);
            assert(t.drop_last() =~= orig.take(k));
            assert(t.last() == orig[k]);
            assert(stable_sort(t) == insert_stable(orig[k], stable_sort(orig.take(k))));
            assert(out.deep_view() == stable_sort(orig.take(k + 1)));
            lemma_insert_props(e@, old_out_dv);
            assert forall|i: int| 0 <= i < out.deep_view().len() implies key_wf(
                out.deep_view()[i].key,
            ) by {
                if out.deep_view()[i] != e@ {
                    assert(old_out_dv.contains(out.deep_view()[i]));
                    let m = choose|m: int|
                        0 <= m < old_out_dv.len() && old_out_dv[m] == out.deep_view()[i];
                }
            }
        }
    }
    proof {
        assert(orig.take(orig.len() as int) =~= orig);
    }
    out
}

/// Whether the keys stand in non-decreasing order: the sortedness check.
pub fn is_sorted(data: &Vec<SortKey>) -> (r: bool)
    requires
        forall|i: int| 0 <= i < data@.len() ==> key_wf(data@[i]@),
    ensures
        r <==> (forall|i: int, j: int| 0 <= i < j < data@.len() ==> key_le(data@[i]@, data@[j]@)),
{
    let n = data.len();
    if n == 0 {
        return true;
    }
    let mut i: usize = 0;
    while i + 1 < n
        invariant
            i < n,
            n == data@.len(),
            forall|k: int| 0 <= k < data@.len() ==> key_wf(data@[k]@),
            forall|k: int| 0 <= k < i ==> key_le((#[trigger] data@[k])@, data@[k + 1]@),
        decreases n - i,
    {
        let c = cmp_key(&data[i], &data[i + 1]);
        match c {
            Relation::Greater => {
                proof {
                    assert(!key_le(data@[i as int]@, data@[i + 1]@));
                }
                return false;
            },
            _ => {},
        }
        i = i + 1;
    }
    proof {
        assert forall|a: int, b: int| 0 <= a < b < data@.len() implies key_le(
            data@[a]@,
            data@[b]@,
        ) by {
            lemma_le_span(data@.map(|q: int, sk: SortKey| sk@), a, b);
        }
    }
    true
}

/// Adjacent order extends to all pairs by transitivity.
proof fn lemma_le_span(ks: Seq<KeyView>, i: int, j: int)
    requires
        forall|k: int| 0 <= k < ks.len() - 1 ==> key_le(#[trigger] ks[k], ks[k + 1]),
        0 <= i < j < ks.len(),
    ensures
        key_le(ks[i], ks[j]),
    decreases j - i,
{
    if i + 1 == j {
    } else {
        lemma_le_span(ks, i, j - 1);
        lemma_key_le_trans(ks[i], ks[j - 1], ks[j]);
    }
}

} // verus!
