//! Laws of the classifier: evidence is monotonic, only conditional branches
//! get records, and reprocessing a trace set changes nothing.

use vstd::prelude::*;
use crate::classify::{
    JumpV, SampleV, StateV, init_state, lemma_run_snoc, spec_run, spec_step, state_wf,
};
use crate::report::{
    invariant_entry, lemma_no_line_without_signal, lemma_one_line_per_invariant_entry, line_of,
    report_of,
};

verus! {

/// Evidence once gathered is never lost by one step: the record stays, and
/// its `taken` / `not_taken` flags stay set.
pub proof fn lemma_step_monotonic(s: StateV, e: SampleV, k: u64)
    requires
        s.recs.dom().contains(k),
    ensures
        spec_step(s, e).recs.dom().contains(k),
        s.recs[k].taken ==> spec_step(s, e).recs[k].taken,
        s.recs[k].not_taken ==> spec_step(s, e).recs[k].not_taken,
{
}

/// Once `taken` or `not_taken` holds of an address, no amount of later
/// processing resets it: evidence accumulates monotonically.
pub proof fn lemma_run_monotonic(s: StateV, evs: Seq<SampleV>, k: u64)
    requires
        s.recs.dom().contains(k),
    ensures
        spec_run(s, evs).recs.dom().contains(k),
        s.recs[k].taken ==> spec_run(s, evs).recs[k].taken,
        s.recs[k].not_taken ==> spec_run(s, evs).recs[k].not_taken,
    decreases evs.len(),
{
    if evs.len() == 0 {
    } else {
        lemma_step_monotonic(s, evs[0], k);
        lemma_run_monotonic(spec_step(s, evs[0]), evs.skip(1), k);
    }
}

/// One step creates a record only for its own address, and only when the
/// sample carries a conditional branch.
pub proof fn lemma_step_no_new_record(s: StateV, e: SampleV, k: u64)
    requires
        !s.recs.dom().contains(k),
        e.addr != k || e.branch is None,
    ensures
        !spec_step(s, e).recs.dom().contains(k),
{
}

/// An address at which no sample ever decoded as a conditional branch never
/// gets a record, however often it is sampled.
pub proof fn lemma_run_no_record_without_branch(s: StateV, evs: Seq<SampleV>, k: u64)
    requires
        !s.recs.dom().contains(k),
        forall|i: int|
            0 <= i < evs.len() ==> ((#[trigger] evs[i]).addr != k || evs[i].branch is None),
    ensures
        !spec_run(s, evs).recs.dom().contains(k),
    decreases evs.len(),
{
    if evs.len() == 0 {
    } else {
        lemma_step_no_new_record(s, evs[0], k);
        assert(forall|i: int| 0 <= i < evs.skip(1).len() ==> evs.skip(1)[i] == evs[i + 1]);
        lemma_run_no_record_without_branch(spec_step(s, evs[0]), evs.skip(1), k);
    }
}

/// One step preserves well-formedness of the state.
pub proof fn lemma_step_wf(s: StateV, e: SampleV)
    requires
        state_wf(s),
    ensures
        state_wf(spec_step(s, e)),
{
    let s2 = spec_step(s, e);
    let s1 = match s.pending {
        Some(p) => StateV {
            recs: s.recs.insert(p, crate::classify::resolve_jump(s.recs[p], e.addr)),
            order: s.order,
            pending: None,
        },
        None => s,
    };
    assert(forall|k: u64| s1.recs.dom().contains(k) <==> s.recs.dom().contains(k));
    match e.branch {
        Some(bt) => {
            if !s1.recs.dom().contains(e.addr) {
                assert(!s.order.contains(e.addr));
                assert(s2.order == s.order.push(e.addr));
                assert(s2.order.no_duplicates()) by {
                    assert(forall|i: int|
                        0 <= i < s.order.len() ==> s2.order[i] == #[trigger] s.order[i]);
                    assert(s2.order[s.order.len() as int] == e.addr);
                    assert forall|i: int, j: int|
                        0 <= i < j < s2.order.len() implies s2.order[i] != s2.order[j] by {
                        if j == s.order.len() {
                            assert(s.order[i] == s2.order[i]);
                            if s2.order[i] == e.addr {
                                assert(s.order.contains(e.addr));
                            }
                        }
                    }
                }
                assert forall|k: u64|
                    s2.recs.dom().contains(k) <==> s2.order.contains(k) by {
                    if k == e.addr {
                        assert(s2.order[s.order.len() as int] == e.addr);
                        assert(s2.order.contains(e.addr));
                    } else {
                        assert(s2.recs.dom().contains(k) <==> s.recs.dom().contains(k));
                        if s.order.contains(k) {
                            let i = choose|i: int| 0 <= i < s.order.len() && s.order[i] == k;
                            assert(s2.order[i] == k);
                        }
                        if s2.order.contains(k) {
                            let i = choose|i: int| 0 <= i < s2.order.len() && s2.order[i] == k;
                            assert(i < s.order.len());
                            assert(s.order[i] == k);
                        }
                    }
                }
            }
        },
        None => {},
    }
}

/// A whole run preserves well-formedness of the state.
pub proof fn lemma_run_wf(s: StateV, evs: Seq<SampleV>)
    requires
        state_wf(s),
    ensures
        state_wf(spec_run(s, evs)),
    decreases evs.len(),
{
    if evs.len() == 0 {
    } else {
        lemma_step_wf(s, evs[0]);
        lemma_run_wf(spec_step(s, evs[0]), evs.skip(1));
    }
}

/// After any run from the empty state: an address whose record carries an
/// invariant signal has exactly one report line, spelling that record; an
/// address whose record saw both outcomes or neither has none.
pub proof fn lemma_report_exactness(evs: Seq<SampleV>, k: u64)
    requires
        spec_run(init_state(), evs).recs.dom().contains(k),
    ensures
        invariant_entry(spec_run(init_state(), evs).recs[k]) ==> {
            let end = spec_run(init_state(), evs);
            let rep = report_of(end.order, end.recs);
            (exists|i: int| 0 <= i < rep.len() && #[trigger] rep[i] == line_of(k, end.recs[k]))
                && (forall|i1: int, i2: int, j1: JumpV, j2: JumpV|
                #![trigger rep[i1], rep[i2], line_of(k, j1), line_of(k, j2)]
                0 <= i1 < rep.len() && 0 <= i2 < rep.len() && rep[i1] == line_of(k, j1) && rep[i2]
                    == line_of(k, j2) ==> i1 == i2)
        },
        !invariant_entry(spec_run(init_state(), evs).recs[k]) ==> {
            let end = spec_run(init_state(), evs);
            let rep = report_of(end.order, end.recs);
            forall|i: int, j: JumpV|
                #![trigger rep[i], line_of(k, j)]
                0 <= i < rep.len() ==> rep[i] != line_of(k, j)
        },
{
    let end = spec_run(init_state(), evs);
    lemma_run_wf(init_state(), evs);
    if invariant_entry(end.recs[k]) {
        lemma_one_line_per_invariant_entry(end.order, end.recs, k);
    } else {
        lemma_no_line_without_signal(end.order, end.recs, k);
    }
}

/// A run splits at any point: the prefix's end state feeds the suffix.
pub proof fn lemma_run_decompose(s: StateV, evs: Seq<SampleV>, i: int)
    requires
        0 <= i <= evs.len(),
    ensures
        spec_run(s, evs) == spec_run(spec_run(s, evs.take(i)), evs.skip(i)),
    decreases evs.len() - i,
{
    reveal_with_fuel(spec_run, 2);
    if i == evs.len() {
        assert(evs.take(i) =~= evs);
        assert(evs.skip(i) =~= Seq::<SampleV>::empty());
    } else {
        lemma_run_decompose(s, evs, i + 1);
        assert(evs.take(i + 1) =~= evs.take(i).push(evs[i]));
        lemma_run_snoc(s, evs.take(i), evs[i]);
        assert(evs.skip(i)[0] == evs[i]);
        assert(evs.skip(i).skip(1) =~= evs.skip(i + 1));
        assert(spec_run(spec_run(s, evs.take(i)), evs.skip(i)) == spec_run(
            spec_step(spec_run(s, evs.take(i)), evs[i]),
            evs.skip(i + 1),
        ));
    }
}

/// The second pass starts where the first ended, but with no branch pending.
pub open spec fn restart(s: StateV) -> StateV {
    StateV { recs: s.recs, order: s.order, pending: None }
}

/// A record as the second pass holds it mid-run: the evidence of the whole
/// first pass, the condition and target of the first pass at the same point.
pub open spec fn merged(a: JumpV, c: JumpV) -> JumpV {
    JumpV { taken: c.taken, not_taken: c.not_taken, condition: a.condition, target: a.target }
}

/// How the second pass tracks the first, sample by sample: `a` is the first
/// pass's state at some point, `b` the second pass's at the same point, and
/// `cfin` the first pass's final state.
pub open spec fn replay_inv(a: StateV, b: StateV, cfin: StateV) -> bool {
    &&& b.pending == a.pending
    &&& b.order == cfin.order
    &&& forall|k: u64| #[trigger] b.recs.dom().contains(k) ==> cfin.recs.dom().contains(k)
    &&& forall|k: u64| #[trigger] cfin.recs.dom().contains(k) ==> b.recs.dom().contains(k)
    &&& forall|k: u64|
        #[trigger] a.recs.dom().contains(k) ==> cfin.recs.dom().contains(k) && b.recs[k] == merged(
            a.recs[k],
            cfin.recs[k],
        )
    &&& forall|k: u64|
        #[trigger] cfin.recs.dom().contains(k) && !a.recs.dom().contains(k) ==> b.recs[k]
            == cfin.recs[k]
}

/// One sample keeps the second pass in lockstep with the first.
pub proof fn lemma_replay_step(a: StateV, b: StateV, cfin: StateV, e: SampleV, rest: Seq<SampleV>)
    requires
        state_wf(a),
        replay_inv(a, b, cfin),
        cfin == spec_run(spec_step(a, e), rest),
    ensures
        replay_inv(spec_step(a, e), spec_step(b, e), cfin),
{
    let a2 = spec_step(a, e);
    let b2 = spec_step(b, e);
    // every record of the stepped first pass survives, flags intact, into its end
    assert forall|k: u64| #[trigger] a2.recs.dom().contains(k) implies cfin.recs.dom().contains(k)
        && (a2.recs[k].taken ==> cfin.recs[k].taken) && (a2.recs[k].not_taken
        ==> cfin.recs[k].not_taken) by {
        lemma_run_monotonic(a2, rest, k);
    }
    let a1 = match a.pending {
        Some(p) => StateV {
            recs: a.recs.insert(p, crate::classify::resolve_jump(a.recs[p], e.addr)),
            order: a.order,
            pending: None,
        },
        None => a,
    };
    let b1 = match b.pending {
        Some(p) => StateV {
            recs: b.recs.insert(p, crate::classify::resolve_jump(b.recs[p], e.addr)),
            order: b.order,
            pending: None,
        },
        None => b,
    };
    match a.pending {
        Some(p) => {
            assert(a.recs.dom().contains(p));
            assert(b.recs[p].target == a.recs[p].target);
            assert(a1.recs[p].taken ==> a2.recs[p].taken);
            assert(a1.recs[p].not_taken ==> a2.recs[p].not_taken);
            assert(replay_inv(a1, b1, cfin)) by {
                assert(a2.recs.dom().contains(p));
                assert(b1.recs[p] == merged(a1.recs[p], cfin.recs[p]));
            }
        },
        None => {
            assert(replay_inv(a1, b1, cfin));
        },
    }
    match e.branch {
        Some(bt) => {
            let k0 = e.addr;
            assert(a2.recs.dom().contains(k0));
            assert(cfin.recs.dom().contains(k0));
            assert(b1.recs.dom().contains(k0));
            assert(b2.recs[k0] == merged(a2.recs[k0], cfin.recs[k0]));
            assert(replay_inv(a2, b2, cfin));
        },
        None => {
            assert(a2 == a1);
            assert(b2 == b1);
        },
    }
}

/// The second pass, started with no pending branch from the first pass's
/// records, retraces the first pass step for step.
pub proof fn lemma_replay(evs: Seq<SampleV>, i: int)
    requires
        0 <= i <= evs.len(),
    ensures
        replay_inv(
            spec_run(init_state(), evs.take(i)),
            spec_run(restart(spec_run(init_state(), evs)), evs.take(i)),
            spec_run(init_state(), evs),
        ),
    decreases i,
{
    let cfin = spec_run(init_state(), evs);
    if i == 0 {
        assert(evs.take(0) =~= Seq::<SampleV>::empty());
        assert(spec_run(init_state(), evs.take(0)) == init_state());
        assert(spec_run(restart(cfin), evs.take(0)) == restart(cfin));
        lemma_run_wf(init_state(), evs);
        assert(replay_inv(init_state(), restart(cfin), cfin));
    } else {
        lemma_replay(evs, i - 1);
        let a = spec_run(init_state(), evs.take(i - 1));
        let b = spec_run(restart(cfin), evs.take(i - 1));
        let e = evs[i - 1];
        assert(evs.take(i) =~= evs.take(i - 1).push(e));
        lemma_run_snoc(init_state(), evs.take(i - 1), e);
        lemma_run_snoc(restart(cfin), evs.take(i - 1), e);
        lemma_run_wf(init_state(), evs.take(i - 1));
        lemma_run_decompose(init_state(), evs, i);
        assert(spec_run(init_state(), evs.take(i)) == spec_step(a, e));
        assert(cfin == spec_run(spec_step(a, e), evs.skip(i)));
        lemma_replay_step(a, b, cfin, e, evs.skip(i));
    }
}

/// Reprocessing the same trace set changes nothing: a second pass over the
/// very same samples, started like every pass with no pending branch,
/// reproduces the records, the order, the pending branch, and the report of
/// the first pass.
pub proof fn lemma_reprocess_idempotent(evs: Seq<SampleV>)
    ensures
        spec_run(restart(spec_run(init_state(), evs)), evs) == spec_run(init_state(), evs),
        report_of(
            spec_run(restart(spec_run(init_state(), evs)), evs).order,
            spec_run(restart(spec_run(init_state(), evs)), evs).recs,
        ) == report_of(spec_run(init_state(), evs).order, spec_run(init_state(), evs).recs),
{
    let cfin = spec_run(init_state(), evs);
    lemma_replay(evs, evs.len() as int);
    assert(evs.take(evs.len() as int) =~= evs);
    let b = spec_run(restart(cfin), evs);
    assert(replay_inv(cfin, b, cfin));
    assert forall|k: u64| #[trigger] b.recs.dom().contains(k) implies cfin.recs.dom().contains(k)
        && b.recs[k] == cfin.recs[k] by {
        assert(merged(cfin.recs[k], cfin.recs[k]) == cfin.recs[k]);
    }
    assert(b.recs =~= cfin.recs);
    assert(b == cfin);
}

/// One run over the samples followed directly by a copy of them also changes
/// nothing, provided the first pass ends with no branch pending. A trace set
/// whose last sample is an unresolved conditional branch is excluded: there
/// the copy's first address would resolve the trailing branch, as pending
/// carries across trace boundaries.
pub proof fn lemma_reprocess_concatenated(evs: Seq<SampleV>)
    requires
        spec_run(init_state(), evs).pending is None,
    ensures
        spec_run(init_state(), evs + evs) == spec_run(init_state(), evs),
{
    let c1 = spec_run(init_state(), evs);
    lemma_run_decompose(init_state(), evs + evs, evs.len() as int);
    assert((evs + evs).take(evs.len() as int) =~= evs);
    assert((evs + evs).skip(evs.len() as int) =~= evs);
    lemma_reprocess_idempotent(evs);
    assert(restart(c1) == c1);
}

/// The same, spoken of a trace set: the samples of a line sequence are a
/// function of the image, the base offset and the lines, so reprocessing the
/// same trace set reproduces the same classification and the same report.
pub proof fn lemma_reprocess_trace_set(image: Seq<u8>, offset: u64, lviews: Seq<Seq<u8>>)
    ensures
        ({
            let evs = crate::trace::spec_samples(image, offset, lviews);
            spec_run(restart(spec_run(init_state(), evs)), evs) == spec_run(init_state(), evs)
        }),
{
    lemma_reprocess_idempotent(crate::trace::spec_samples(image, offset, lviews));
}

} // verus!
