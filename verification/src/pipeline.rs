//! The sort orchestrator: trim, optional sortedness check, stable sort,
//! optional reversal, optional adjacent deduplication, and the emitted lines.

use vstd::prelude::*;
use crate::keys::SortMode;
use crate::keys::ModeView;
use crate::keys::SortKey;
use crate::keys::KeyView;
use crate::keys::key_spec;
use crate::keys::key_wf;
use crate::keys::key_le;
use crate::keys::mode_wf;
use crate::keys::extract_key;
use crate::fields::trim_spec;
use crate::fields::trim_trailing;
use crate::numparse::render_spec;
use crate::numparse::render_num;
use crate::sortseq::Entry;
use crate::sortseq::EntryV;
use crate::sortseq::sorted_by_key;
use crate::sortseq::stable_sort;
use crate::sortseq::stable_order;
use crate::sortseq::idx_increasing;
use crate::sortseq::sort_entries;
use crate::sortseq::is_sorted;
use crate::sortseq::lemma_sort_idempotent;
use crate::sortseq::lemma_sort_stable;

verus! {

/// The immutable configuration of one run.
pub struct Config {
    pub mode: SortMode,
    pub reverse: bool,
    pub unique: bool,
    pub trim_trailing: bool,
    pub check_only: bool,
}

pub struct ConfigV {
    pub mode: ModeView,
    pub reverse: bool,
    pub unique: bool,
    pub trim_trailing: bool,
    pub check_only: bool,
}

impl View for Config {
    type V = ConfigV;

    open spec fn view(&self) -> ConfigV {
        ConfigV {
            mode: self.mode@,
            reverse: self.reverse,
            unique: self.unique,
            trim_trailing: self.trim_trailing,
            check_only: self.check_only,
        }
    }
}

pub open spec fn config_wf(c: ConfigV) -> bool {
    mode_wf(c.mode)
}

/// What the sortedness check reported, if it was requested.
#[derive(Clone, Copy, PartialEq, Eq, Structural, Debug)]
pub enum CheckOutcome {
    AlreadySorted,
    NotSorted,
    NotRequested,
}

/// The outcome of a run: the check report, and the lines to emit — `None`
/// when a requested check found the input already sorted, in which case no
/// output is produced.
pub struct SortOutput {
    pub report: CheckOutcome,
    pub lines: Option<Vec<String>>,
}

/// The input lines after the configured trim.
pub open spec fn trimmed_lines(c: ConfigV, input: Seq<Seq<char>>) -> Seq<Seq<char>> {
    if c.trim_trailing {
        Seq::new(input.len(), |i: int| trim_spec(input[i]))
    } else {
        input
    }
}

/// The keyed entries the orchestrator sorts: each trimmed line with its
/// input position and its key under the active mode.
pub open spec fn entries_spec(c: ConfigV, input: Seq<Seq<char>>) -> Seq<EntryV> {
    let lines = trimmed_lines(c, input);
    Seq::new(
        lines.len(),
        |i: int| EntryV { idx: i, line: lines[i], key: key_spec(c.mode, lines[i]) },
    )
}

/// Whether the input already stands in non-decreasing key order.
pub open spec fn already_sorted(c: ConfigV, input: Seq<Seq<char>>) -> bool {
    sorted_by_key(entries_spec(c, input))
}

/// What one sorted entry emits: numeric modes emit the value itself in
/// decimal, every other mode emits the line.
pub open spec fn emit1(e: EntryV) -> Seq<char> {
    match e.key {
        KeyView::Num(v) => render_spec(v),
        _ => e.line,
    }
}

/// Adjacent deduplication: a line is kept unless it equals the line directly
/// before it.
pub open spec fn dedup_spec(s: Seq<Seq<char>>) -> Seq<Seq<char>>
    decreases s.len(),
{
    if s.len() <= 1 {
        s
    } else {
        dedup_spec(s.drop_last()) + (if s[s.len() - 1] == s[s.len() - 2] {
            Seq::<Seq<char>>::empty()
        } else {
            seq![s.last()]
        })
    }
}

/// The lines a run emits: keyed entries stably sorted, emitted, then
/// reversed and deduplicated as configured.
pub open spec fn emitted_spec(c: ConfigV, input: Seq<Seq<char>>) -> Seq<Seq<char>> {
    let sorted = stable_sort(entries_spec(c, input));
    let emitted = Seq::new(sorted.len(), |i: int| emit1(sorted[i]));
    let rev = if c.reverse {
        emitted.reverse()
    } else {
        emitted
    };
    if c.unique {
        dedup_spec(rev)
    } else {
        rev
    }
}

/// Idempotence of the orchestrator: on input that already stands in key
/// order, with neither reversal nor deduplication configured, a run that
/// emits lines (rather than numeric renderings) emits its trimmed input
/// unchanged.
pub proof fn lemma_pipeline_idempotent(c: ConfigV, input: Seq<Seq<char>>)
    requires
        !c.reverse,
        !c.unique,
        already_sorted(c, input),
        !(c.mode is Numeric),
        !(c.mode is NumericWithSuffix),
    ensures
        emitted_spec(c, input) == trimmed_lines(c, input),
{
    let es = entries_spec(c, input);
    let lines = trimmed_lines(c, input);
    lemma_sort_idempotent(es);
    assert forall|i: int| 0 <= i < es.len() implies emit1(es[i]) == lines[i] by {
        assert(es[i].key == key_spec(c.mode, lines[i]));
        match c.mode {
            ModeView::Text => {},
            ModeView::Month => {},
            ModeView::Columns(_) => {},
            _ => {
                assert(false);
            },
        }
    }
    assert(emitted_spec(c, input) =~= lines);
}

/// Stability of the orchestrator: the entries it sorts carry strictly
/// increasing input positions, so entries with equal keys keep their
/// original relative order in the sorted sequence.
pub proof fn lemma_pipeline_stable(c: ConfigV, input: Seq<Seq<char>>)
    ensures
        stable_order(stable_sort(entries_spec(c, input))),
{
    let es = entries_spec(c, input);
    assert(idx_increasing(es));
    lemma_sort_stable(es);
}

/// Reverses the order of the lines.
pub fn reverse_lines(v: &Vec<String>) -> (r: Vec<String>)
    ensures
        r.deep_view() == v.deep_view().reverse(),
{
    let n = v.len();
    let mut out: Vec<String> = Vec::new();
    let mut k: usize = 0;
    while k < n
        invariant
            k <= n,
            n == v@.len(),
            out.deep_view().len() == k as int,
            forall|j: int| 0 <= j < k ==> out.deep_view()[j] == v.deep_view()[n - 1 - j],
        decreases n - k,
    {
        let w = v[n - 1 - k].clone();
        let ghost old_out = out;
        out.push(w);
        proof {
            assert(v.deep_view()[n - 1 - k as int] == v@[n - 1 - k as int]@);
            assert(forall|j: int| 0 <= j < k ==> out.deep_view()[j] == old_out.deep_view()[j]);
        }
        k = k + 1;
    }
    proof {
        assert(out.deep_view() =~= v.deep_view().reverse());
    }
    out
}

/// Removes each line that equals the line directly before it.
pub fn dedup_adjacent(v: &Vec<String>) -> (r: Vec<String>)
    ensures
        r.deep_view() == dedup_spec(v.deep_view()),
{
    let n = v.len();
    let mut out: Vec<String> = Vec::new();
    let mut k: usize = 0;
    proof {
        assert(v.deep_view().take(0) =~= Seq::<Seq<char>>::empty());
        assert(out.deep_view() =~= dedup_spec(v.deep_view().take(0)));
    }
    while k < n
        invariant
            k <= n,
            n == v@.len(),
            out.deep_view() == dedup_spec(v.deep_view().take(k as int)),
        decreases n - k,
    {
        let ghost dv = v.deep_view();
        let ghost old_out = out.deep_view();
        let keep = if k == 0 {
            true
        } else {
            !(v[k] == v[k - 1])
        };
        if keep {
            let w = v[k].clone();
            out.push(w);
            proof {
                assert(out.deep_view() =~= old_out.push(dv[k as int]));
            }
        }
        k = k + 1;
        proof {
            let t = dv.take(k as int);
            assert(t.drop_last() =~= dv.take(k - 1));
            assert(t.last() == dv[k - 1]);
            if k >= 2 {
                assert(t[t.len() - 2] == dv[k - 2]);
            }
            if k == 1 {
                assert(dedup_spec(t) == t);
                assert(t =~= dv.take(0).push(dv[0]));
                if keep {
                    assert(out.deep_view() =~= dedup_spec(t));
                } else {
                    assert(false);
                }
            } else {
                if dv[k - 1] == dv[k - 2] {
                    assert(!keep);
                    assert(dedup_spec(t) =~= dedup_spec(t.drop_last()));
                } else {
                    assert(keep);
                    assert(dedup_spec(t) =~= dedup_spec(t.drop_last()).push(dv[k - 1]));
                }
                assert(out.deep_view() =~= dedup_spec(t));
            }
        }
    }
    proof {
        assert(v.deep_view().take(n as int) =~= v.deep_view());
    }
    out
}

/// Runs the whole pipeline on the input lines under the configuration.
///
/// The report answers the sortedness check when one was requested. The
/// emitted lines are absent exactly when a requested check found the input
/// already sorted; otherwise they are the stably sorted, optionally
/// reversed, optionally deduplicated renderings of the input.
pub fn run(cfg: &Config, input: Vec<String>) -> (out: SortOutput)
    requires
        config_wf(cfg@),
    ensures
        out.report == CheckOutcome::NotRequested <==> !cfg@.check_only,
        cfg@.check_only ==> (out.report == CheckOutcome::AlreadySorted <==> already_sorted(
            cfg@,
            input.deep_view(),
        )),
        out.lines is None <==> (cfg@.check_only && already_sorted(cfg@, input.deep_view())),
        out.lines matches Option::Some(v) ==> v.deep_view() == emitted_spec(
            cfg@,
            input.deep_view(),
        ),
{
    let ghost idv = input.deep_view();
    let ghost lv = trimmed_lines(cfg@, idv);
    let n = input.len();
    // Trim, if configured.
    let lines2: Vec<String> = if cfg.trim_trailing {
        let mut acc: Vec<String> = Vec::new();
        let mut i: usize = 0;
        while i < n
            invariant
                i <= n,
                n == input@.len(),
                cfg@.trim_trailing,
                lv == trimmed_lines(cfg@, input.deep_view()),
                acc.deep_view().len() == i as int,
                forall|j: int| 0 <= j < i ==> acc.deep_view()[j] == lv[j],
            decreases n - i,
        {
            let w = trim_trailing(input[i].as_str());
            let ghost old_acc = acc;
            acc.push(w);
            proof {
                assert(input.deep_view()[i as int] == input@[i as int]@);
                assert(forall|j: int|
                    0 <= j < i ==> acc.deep_view()[j] == old_acc.deep_view()[j]);
            }
            i = i + 1;
        }
        acc
    } else {
        input
    };
    proof {
        assert(lines2.deep_view() =~= lv);
    }
    // Extract keys.
    let mut keys: Vec<SortKey> = Vec::new();
    let mut i: usize = 0;
    while i < n
        invariant
            i <= n,
            n == lines2@.len(),
            lv == lines2.deep_view(),
            config_wf(cfg@),
            keys@.len() == i as int,
            forall|j: int| 0 <= j < i ==> (#[trigger] keys@[j])@ == key_spec(cfg@.mode, lv[j]),
            forall|j: int| 0 <= j < i ==> key_wf(keys@[j]@),
        decreases n - i,
    {
        let k = extract_key(lines2[i].as_str(), &cfg.mode);
        keys.push(k);
        proof {
            assert(lines2.deep_view()[i as int] == lines2@[i as int]@);
        }
        i = i + 1;
    }
    let ghost es = entries_spec(cfg@, idv);
    proof {
        assert(es.len() == n);
        assert(forall|j: int| 0 <= j < n ==> (#[trigger] es[j]).key == key_spec(cfg@.mode, lv[j]));
    }
    // The optional sortedness check.
    let mut report = CheckOutcome::NotRequested;
    if cfg.check_only {
        let ok = is_sorted(&keys);
        proof {
            if ok {
                assert forall|a: int, b: int| 0 <= a < b < es.len() implies key_le(
                    es[a].key,
                    es[b].key,
                ) by {
                    assert(key_le(keys@[a]@, keys@[b]@));
                }
                assert(sorted_by_key(es));
            } else {
                assert(!sorted_by_key(es)) by {
                    if sorted_by_key(es) {
                        assert forall|a: int, b: int| 0 <= a < b < keys@.len() implies key_le(
                            #[trigger] (keys@[a]@),
                            #[trigger] (keys@[b]@),
                        ) by {
                            assert(key_le(es[a].key, es[b].key));
                        }
                    }
                }
            }
        }
        if ok {
            report = CheckOutcome::AlreadySorted;
            return SortOutput { report, lines: Option::None };
        } else {
            report = CheckOutcome::NotSorted;
        }
    }
    // Build the keyed entries.
    let ghost okeys = keys@;
    let mut entries: Vec<Entry> = Vec::new();
    let mut i2: usize = 0;
    while i2 < n
        invariant
            i2 <= n,
            n == lines2@.len(),
            lv == lines2.deep_view(),
            es == entries_spec(cfg@, idv),
            es.len() == n,
            forall|j: int| 0 <= j < n ==> (#[trigger] es[j]) == (EntryV {
                idx: j,
                line: lv[j],
                key: key_spec(cfg@.mode, lv[j]),
            }),
            keys@.len() == n - i2,
            forall|j: int| 0 <= j < keys@.len() ==> keys@[j] == okeys[i2 + j],
            okeys.len() == n,
            forall|j: int| 0 <= j < n ==> (#[trigger] okeys[j])@ == key_spec(cfg@.mode, lv[j]),
            forall|j: int| 0 <= j < n ==> key_wf(okeys[j]@),
            entries.deep_view().len() == i2 as int,
            forall|j: int| 0 <= j < i2 ==> entries.deep_view()[j] == es[j],
        decreases n - i2,
    {
        let ghost old_keys = keys@;
        let k = keys.remove(0);
        proof {
            assert(k == okeys[i2 as int]);
            assert(keys@ =~= old_keys.skip(1));
            assert(forall|j: int| 0 <= j < keys@.len() ==> keys@[j] == old_keys[j + 1]);
        }
        let line = lines2[i2].clone();
        let ghost old_entries = entries;
        entries.push(Entry { idx: i2, line, key: k });
        proof {
            assert(lines2.deep_view()[i2 as int] == lines2@[i2 as int]@);
            assert(forall|j: int|
                0 <= j < i2 ==> entries.deep_view()[j] == old_entries.deep_view()[j]);
            assert(entries.deep_view()[i2 as int] == es[i2 as int]);
        }
        i2 = i2 + 1;
    }
    proof {
        assert(entries.deep_view() =~= es);
        assert forall|j: int| 0 <= j < entries.deep_view().len() implies key_wf(
            entries.deep_view()[j].key,
        ) by {
            assert(es[j].key == key_spec(cfg@.mode, lv[j]));
            assert(okeys[j]@ == key_spec(cfg@.mode, lv[j]));
            assert(key_wf(okeys[j]@));
        }
    }
    // Stable sort.
    let sorted = sort_entries(entries);
    let ghost sdv = stable_sort(es);
    // Emit one line per entry.
    let mut emitted: Vec<String> = Vec::new();
    let mut i3: usize = 0;
    proof {
        assert(sorted.deep_view() == sdv);
    }
    while i3 < sorted.len()
        invariant
            i3 <= sorted@.len(),
            sorted.deep_view() == sdv,
            sdv.len() == sorted@.len(),
            forall|j: int| 0 <= j < sdv.len() ==> key_wf((#[trigger] sdv[j]).key),
            emitted.deep_view().len() == i3 as int,
            forall|j: int| 0 <= j < i3 ==> emitted.deep_view()[j] == emit1(sdv[j]),
        decreases sorted@.len() - i3,
    {
        proof {
            assert(sorted.deep_view()[i3 as int] == sorted@[i3 as int]@);
        }
        let ghost old_emitted = emitted;
        let w = match &sorted[i3].key {
            SortKey::Num(nv) => render_num(nv),
            SortKey::Text(_) => sorted[i3].line.clone(),
            SortKey::Month(_) => sorted[i3].line.clone(),
            SortKey::Cols(_) => sorted[i3].line.clone(),
        };
        emitted.push(w);
        proof {
            assert(forall|j: int|
                0 <= j < i3 ==> emitted.deep_view()[j] == old_emitted.deep_view()[j]);
            assert(emitted.deep_view()[i3 as int] == emit1(sdv[i3 as int]));
        }
        i3 = i3 + 1;
    }
    let ghost emv = Seq::new(sdv.len(), |i: int| emit1(sdv[i]));
    proof {
        assert(emitted.deep_view() =~= emv);
    }
    // Reverse and deduplicate as configured.
    let after_rev = if cfg.reverse {
        reverse_lines(&emitted)
    } else {
        emitted
    };
    let ghost rv = if cfg@.reverse {
        emv.reverse()
    } else {
        emv
    };
    proof {
        assert(after_rev.deep_view() == rv);
    }
    let final_lines = if cfg.unique {
        dedup_adjacent(&after_rev)
    } else {
        after_rev
    };
    proof {
        assert(final_lines.deep_view() == emitted_spec(cfg@, idv));
    }
    SortOutput { report, lines: Option::Some(final_lines) }
}

} // verus!
