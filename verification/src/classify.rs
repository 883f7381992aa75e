//! The branch classifier: walks samples in recorded order, keeps one record
//! per conditional-branch address, and resolves each pending branch against
//! the next observed address.

use vstd::prelude::*;
use crate::insn::CondBranch;

verus! {

/// The classification record of one conditional-branch address.
pub struct Jump {
    pub taken: bool,
    pub not_taken: bool,
    pub condition: Vec<u8>,
    pub target: u64,
}

/// The mathematical value of a `Jump`.
pub ghost struct JumpV {
    pub taken: bool,
    pub not_taken: bool,
    pub condition: Seq<u8>,
    pub target: u64,
}

impl View for Jump {
    type V = JumpV;

    open spec fn view(&self) -> JumpV {
        JumpV {
            taken: self.taken,
            not_taken: self.not_taken,
            condition: self.condition@,
            target: self.target,
        }
    }
}

/// One observed trace sample: the effective address, and the conditional
/// branch decoded there, if any.
pub struct Sample {
    pub addr: u64,
    pub branch: Option<CondBranch>,
}

/// The mathematical value of a `Sample`.
pub ghost struct SampleV {
    pub addr: u64,
    pub branch: Option<(Seq<u8>, u64)>,
}

impl View for Sample {
    type V = SampleV;

    open spec fn view(&self) -> SampleV {
        SampleV {
            addr: self.addr,
            branch: match self.branch {
                Some(cb) => Some((cb.condition@, cb.target)),
                None => None,
            },
        }
    }
}

/// The classifier state as mathematics: the records, the order in which
/// their addresses were first recorded, and the pending branch address.
pub ghost struct StateV {
    pub recs: Map<u64, JumpV>,
    pub order: Seq<u64>,
    pub pending: Option<u64>,
}

pub open spec fn init_state() -> StateV {
    StateV { recs: Map::empty(), order: Seq::empty(), pending: None }
}

/// Resolving a pending branch: the next address hitting the stored target
/// witnesses `taken`, anything else witnesses `not_taken`.
pub open spec fn resolve_jump(j: JumpV, next: u64) -> JumpV {
    if next == j.target {
        JumpV { taken: true, not_taken: j.not_taken, condition: j.condition, target: j.target }
    } else {
        JumpV { taken: j.taken, not_taken: true, condition: j.condition, target: j.target }
    }
}

/// A freshly created record carries no evidence yet.
pub open spec fn fresh_jump(cond: Seq<u8>, target: u64) -> JumpV {
    JumpV { taken: false, not_taken: false, condition: cond, target }
}

/// A record seen again keeps its evidence; condition and target are taken
/// from the newest decode.
pub open spec fn renewed_jump(j: JumpV, cond: Seq<u8>, target: u64) -> JumpV {
    JumpV { taken: j.taken, not_taken: j.not_taken, condition: cond, target }
}

/// One step of the classifier: first resolve the pending branch, if any,
/// against the sample's address; then, if the sample is a conditional branch
/// with a known target, create or renew its record and make it pending.
pub open spec fn spec_step(s: StateV, e: SampleV) -> StateV {
    let s1 = match s.pending {
        Some(p) => if s.recs.dom().contains(p) {
            StateV {
                recs: s.recs.insert(p, resolve_jump(s.recs[p], e.addr)),
                order: s.order,
                pending: None,
            }
        } else {
            StateV { recs: s.recs, order: s.order, pending: None }
        },
        None => s,
    };
    match e.branch {
        Some((cond, target)) => if s1.recs.dom().contains(e.addr) {
            StateV {
                recs: s1.recs.insert(e.addr, renewed_jump(s1.recs[e.addr], cond, target)),
                order: s1.order,
                pending: Some(e.addr),
            }
        } else {
            StateV {
                recs: s1.recs.insert(e.addr, fresh_jump(cond, target)),
                order: s1.order.push(e.addr),
                pending: Some(e.addr),
            }
        },
        None => s1,
    }
}

/// The classifier run over a whole sample sequence.
pub open spec fn spec_run(s: StateV, evs: Seq<SampleV>) -> StateV
    decreases evs.len(),
{
    if evs.len() == 0 {
        s
    } else {
        spec_run(spec_step(s, evs[0]), evs.skip(1))
    }
}

pub open spec fn state_wf(s: StateV) -> bool {
    &&& s.order.no_duplicates()
    &&& forall|k: u64| s.recs.dom().contains(k) <==> s.order.contains(k)
    &&& (s.pending matches Some(p) ==> s.recs.dom().contains(p))
}

pub open spec fn views_of(ss: Seq<Sample>) -> Seq<SampleV> {
    ss.map_values(|s: Sample| s@)
}

pub open spec fn keys_of(es: Seq<(u64, Jump)>) -> Seq<u64> {
    es.map_values(|e: (u64, Jump)| e.0)
}

pub open spec fn map_of(es: Seq<(u64, Jump)>) -> Map<u64, JumpV>
    decreases es.len(),
{
    if es.len() == 0 {
        Map::empty()
    } else {
        map_of(es.drop_last()).insert(es.last().0, es.last().1@)
    }
}

/// The classification map: records keyed by branch address, kept in the
/// order in which the addresses were first recorded.
pub struct JumpMap {
    pub entries: Vec<(u64, Jump)>,
}

impl JumpMap {
    pub open spec fn keys(&self) -> Seq<u64> {
        keys_of(self.entries@)
    }

    pub open spec fn as_map(&self) -> Map<u64, JumpV> {
        map_of(self.entries@)
    }

    pub open spec fn wf(&self) -> bool {
        self.keys().no_duplicates()
    }

    pub fn new() -> (r: Self)
        ensures
            r.wf(),
            r.keys() == Seq::<u64>::empty(),
            r.as_map() == Map::<u64, JumpV>::empty(),
    {
        let r = JumpMap { entries: Vec::new() };
        proof {
            assert(r.keys() =~= Seq::<u64>::empty());
        }
        r
    }

    fn find_index(&self, k: u64) -> (r: Option<usize>)
        ensures
            r matches Some(i) ==> i < self.entries@.len() && self.entries@[i as int].0 == k,
            r is None ==> forall|i: int|
                0 <= i < self.entries@.len() ==> (#[trigger] self.entries@[i]).0 != k,
    {
        let mut i: usize = 0;
        while i < self.entries.len()
            invariant
                0 <= i <= self.entries@.len(),
                forall|j: int| 0 <= j < i ==> (#[trigger] self.entries@[j]).0 != k,
            decreases self.entries@.len() - i,
        {
            if self.entries[i].0 == k {
                return Some(i);
            }
            i += 1;
        }
        None
    }

    /// Whether a record exists for the address.
    pub fn contains(&self, k: u64) -> (r: bool)
        requires
            self.wf(),
        ensures
            r == self.as_map().dom().contains(k),
    {
        proof {
            lemma_map_of_index(self.entries@);
        }
        match self.find_index(k) {
            Some(_) => true,
            None => {
                proof {
                    if self.as_map().dom().contains(k) {
                        let i = choose|i: int|
                            0 <= i < self.keys().len() && self.keys()[i] == k;
                        assert(self.entries@[i].0 == k);
                    }
                }
                false
            },
        }
    }

    /// The record of an address, if one exists.
    pub fn get(&self, k: u64) -> (r: Option<&Jump>)
        requires
            self.wf(),
        ensures
            r matches Some(j) ==> self.as_map().dom().contains(k) && j@ == self.as_map()[k],
            r is None ==> !self.as_map().dom().contains(k),
    {
        proof {
            lemma_map_of_index(self.entries@);
        }
        match self.find_index(k) {
            Some(i) => Some(&self.entries[i].1),
            None => {
                proof {
                    if self.as_map().dom().contains(k) {
                        let i = choose|i: int|
                            0 <= i < self.keys().len() && self.keys()[i] == k;
                        assert(self.entries@[i].0 == k);
                    }
                }
                None
            },
        }
    }

    /// Resolve the pending record at `k` against the next address.
    fn resolve(&mut self, k: u64, next: u64)
        requires
            old(self).wf(),
            old(self).as_map().dom().contains(k),
        ensures
            final(self).wf(),
            final(self).keys() == old(self).keys(),
            final(self).as_map() == old(self).as_map().insert(
                k,
                resolve_jump(old(self).as_map()[k], next),
            ),
    {
        proof {
            lemma_map_of_index(self.entries@);
            if self.as_map().dom().contains(k) {
                let i = choose|i: int| 0 <= i < self.keys().len() && self.keys()[i] == k;
                assert(self.entries@[i].0 == k);
            }
        }
        let i = match self.find_index(k) {
            Some(i) => i,
            None => {
                proof {
                    assert(false);
                }
                0
            },
        };
        let ghost old_entries = self.entries@;
        let e = &mut self.entries[i];
        if next == e.1.target {
            e.1.taken = true;
        } else {
            e.1.not_taken = true;
        }
        proof {
            let p = (k, resolve_jump(old_entries[i as int].1@, next));
            assert(self.entries@[i as int].1@ == resolve_jump(old_entries[i as int].1@, next));
            assert(self.entries@ =~= old_entries.update(
                i as int,
                (self.entries@[i as int].0, self.entries@[i as int].1),
            ));
            lemma_map_of_update(old_entries, i as int, self.entries@[i as int]);
            assert(keys_of(self.entries@) =~= keys_of(old_entries));
            assert(old_entries[i as int].1@ == map_of(old_entries)[k]);
        }
    }

    /// Create the record of a conditional branch, or renew its condition and
    /// target while keeping the evidence gathered so far.
    fn record(&mut self, k: u64, cond: Vec<u8>, target: u64)
        requires
            old(self).wf(),
        ensures
            final(self).wf(),
            old(self).as_map().dom().contains(k) ==> final(self).keys() == old(self).keys()
                && final(self).as_map() == old(self).as_map().insert(
                k,
                renewed_jump(old(self).as_map()[k], cond@, target),
            ),
            !old(self).as_map().dom().contains(k) ==> final(self).keys() == old(self).keys().push(
                k,
            ) && final(self).as_map() == old(self).as_map().insert(k, fresh_jump(cond@, target)),
    {
        proof {
            lemma_map_of_index(self.entries@);
        }
        match self.find_index(k) {
            Some(i) => {
                let ghost old_entries = self.entries@;
                let e = &mut self.entries[i];
                e.1.condition = cond;
                e.1.target = target;
                proof {
                    assert(self.entries@[i as int].1@ == renewed_jump(
                        old_entries[i as int].1@,
                        self.entries@[i as int].1.condition@,
                        target,
                    ));
                    assert(self.entries@ =~= old_entries.update(
                        i as int,
                        (self.entries@[i as int].0, self.entries@[i as int].1),
                    ));
                    lemma_map_of_update(old_entries, i as int, self.entries@[i as int]);
                    assert(keys_of(self.entries@) =~= keys_of(old_entries));
                    assert(old_entries[i as int].1@ == map_of(old_entries)[k]);
                }
            },
            None => {
                let ghost old_entries = self.entries@;
                self.entries.push((k, Jump { taken: false, not_taken: false, condition: cond, target }));
                proof {
                    assert(self.entries@.drop_last() =~= old_entries);
                    assert(keys_of(self.entries@) =~= keys_of(old_entries).push(k));
                    if map_of(old_entries).dom().contains(k) {
                        let i = choose|i: int|
                            0 <= i < keys_of(old_entries).len() && keys_of(old_entries)[i] == k;
                        assert(old_entries[i].0 == k);
                    }
                    assert(forall|j: int|
                        0 <= j < keys_of(old_entries).len() ==> #[trigger] keys_of(old_entries)[j]
                            != k);
                    assert(keys_of(self.entries@).no_duplicates());
                }
            },
        }
    }
}

/// With distinct keys, the map agrees with the entries pointwise, and its
/// domain is exactly the key sequence.
pub proof fn lemma_map_of_index(es: Seq<(u64, Jump)>)
    requires
        keys_of(es).no_duplicates(),
    ensures
        forall|k: u64| #[trigger] map_of(es).dom().contains(k) ==> keys_of(es).contains(k),
        forall|k: u64| #[trigger] keys_of(es).contains(k) ==> map_of(es).dom().contains(k),
        forall|i: int| 0 <= i < es.len() ==> (#[trigger] keys_of(es)[i]) == es[i].0,
        forall|i: int|
            0 <= i < es.len() ==> map_of(es).dom().contains((#[trigger] es[i]).0) && map_of(es)[
                es[i].0
            ] == es[i].1@,
    decreases es.len(),
{
    if es.len() == 0 {
    } else {
        let prefix = es.drop_last();
        assert(keys_of(prefix) =~= keys_of(es).drop_last());
        assert(keys_of(prefix).no_duplicates()) by {
            assert(forall|i: int, j: int|
                0 <= i < j < keys_of(prefix).len() ==> keys_of(prefix)[i] == keys_of(es)[i]
                    && keys_of(prefix)[j] == keys_of(es)[j]);
        }
        lemma_map_of_index(prefix);
        let lastk = es.last().0;
        assert(keys_of(es)[es.len() - 1] == lastk);
        assert forall|k: u64| map_of(es).dom().contains(k) <==> keys_of(es).contains(k) by {
            if map_of(es).dom().contains(k) {
                if k == lastk {
                    assert(keys_of(es)[es.len() - 1] == k);
                    assert(keys_of(es).contains(k));
                } else {
                    assert(map_of(prefix).dom().contains(k));
                    assert(keys_of(prefix).contains(k));
                    let i = choose|i: int|
                        0 <= i < keys_of(prefix).len() && keys_of(prefix)[i] == k;
                    assert(keys_of(es)[i] == k);
                    assert(keys_of(es).contains(k));
                }
            }
            if keys_of(es).contains(k) {
                let i = choose|i: int| 0 <= i < keys_of(es).len() && keys_of(es)[i] == k;
                if i == es.len() - 1 {
                    assert(k == lastk);
                } else {
                    assert(keys_of(prefix)[i] == k);
                    assert(keys_of(prefix).contains(k));
                }
                assert(map_of(es).dom().contains(k));
            }
        }
        assert forall|i: int|
            0 <= i < es.len() implies map_of(es).dom().contains((#[trigger] es[i]).0) && map_of(
            es,
        )[es[i].0] == es[i].1@ by {
            if i == es.len() - 1 {
                assert(map_of(es)[lastk] == es.last().1@);
            } else {
                assert(keys_of(es)[i] == es[i].0);
                assert(es[i].0 != lastk);
                assert(prefix[i] == es[i]);
                assert(map_of(prefix)[es[i].0] == es[i].1@);
            }
        }
    }
}

/// Overwriting the entry of a key rewrites exactly that key's record.
pub proof fn lemma_map_of_update(es: Seq<(u64, Jump)>, i: int, p: (u64, Jump))
    requires
        0 <= i < es.len(),
        keys_of(es).no_duplicates(),
        p.0 == es[i].0,
    ensures
        map_of(es.update(i, p)) == map_of(es).insert(p.0, p.1@),
    decreases es.len(),
{
    let es2 = es.update(i, p);
    if i == es.len() - 1 {
        assert(es2.drop_last() =~= es.drop_last());
        assert(es2.last() == p);
        assert(map_of(es2) == map_of(es.drop_last()).insert(p.0, p.1@));
        assert(map_of(es).insert(p.0, p.1@) == map_of(es.drop_last()).insert(
            es.last().0,
            es.last().1@,
        ).insert(p.0, p.1@));
        assert(map_of(es.drop_last()).insert(es.last().0, es.last().1@).insert(p.0, p.1@)
            =~= map_of(es.drop_last()).insert(p.0, p.1@));
    } else {
        let prefix = es.drop_last();
        assert(keys_of(prefix) =~= keys_of(es).drop_last());
        assert(keys_of(prefix).no_duplicates()) by {
            assert(forall|a: int, b: int|
                0 <= a < b < keys_of(prefix).len() ==> keys_of(prefix)[a] == keys_of(es)[a]
                    && keys_of(prefix)[b] == keys_of(es)[b]);
        }
        assert(prefix[i] == es[i]);
        lemma_map_of_update(prefix, i, p);
        assert(es2.drop_last() =~= prefix.update(i, p));
        assert(es2.last() == es.last());
        assert(map_of(es2) == map_of(prefix).insert(p.0, p.1@).insert(es.last().0, es.last().1@));
        // the two inserted keys differ, so the inserts commute
        assert(keys_of(es)[i] == p.0);
        assert(keys_of(es)[es.len() - 1] == es.last().0);
        assert(p.0 != es.last().0);
        assert(map_of(prefix).insert(p.0, p.1@).insert(es.last().0, es.last().1@) =~= map_of(
            prefix,
        ).insert(es.last().0, es.last().1@).insert(p.0, p.1@));
    }
}

/// The classifier: the classification map and the pending branch address.
pub struct Classifier {
    pub map: JumpMap,
    pub pending: Option<u64>,
}

impl View for Classifier {
    type V = StateV;

    open spec fn view(&self) -> StateV {
        StateV { recs: self.map.as_map(), order: self.map.keys(), pending: self.pending }
    }
}

impl Classifier {
    pub open spec fn wf(&self) -> bool {
        self.map.wf() && (self.pending matches Some(p) ==> self.map.as_map().dom().contains(p))
    }

    pub fn new() -> (r: Self)
        ensures
            r.wf(),
            r@ == init_state(),
    {
        let r = Classifier { map: JumpMap::new(), pending: None };
        proof {
            assert(r@.recs =~= init_state().recs);
            assert(r@.order =~= init_state().order);
        }
        r
    }

    /// Consume one sample, as `spec_step` describes.
    pub fn step(&mut self, s: &Sample)
        requires
            old(self).wf(),
        ensures
            final(self).wf(),
            final(self)@ == spec_step(old(self)@, s@),
    {
        match self.pending {
            Some(p) => {
                self.map.resolve(p, s.addr);
                self.pending = None;
            },
            None => {},
        }
        match &s.branch {
            Some(cb) => {
                let cond = clone_bytes(&cb.condition);
                let existed = self.map.contains(s.addr);
                self.map.record(s.addr, cond, cb.target);
                self.pending = Some(s.addr);
                proof {
                    if !existed {
                        assert(self.map.as_map().dom().contains(s.addr)) by {
                            lemma_map_of_index(self.map.entries@);
                            assert(self.map.keys().last() == s.addr);
                            assert(self.map.keys().contains(s.addr));
                        }
                    }
                }
            },
            None => {},
        }
    }

    /// Consume a sequence of samples in order, as `spec_run` describes.
    pub fn process(&mut self, samples: &Vec<Sample>)
        requires
            old(self).wf(),
        ensures
            final(self).wf(),
            final(self)@ == spec_run(old(self)@, views_of(samples@)),
    {
        let ghost evs = views_of(samples@);
        let mut i: usize = 0;
        proof {
            assert(evs.take(0) =~= Seq::<SampleV>::empty());
        }
        while i < samples.len()
            invariant
                0 <= i <= samples@.len(),
                self.wf(),
                evs == views_of(samples@),
                self@ == spec_run(old(self)@, evs.take(i as int)),
            decreases samples@.len() - i,
        {
            self.step(&samples[i]);
            proof {
                assert(evs.take(i as int).push(evs[i as int]) =~= evs.take(i as int + 1));
                lemma_run_snoc(old(self)@, evs.take(i as int), evs[i as int]);
            }
            i += 1;
        }
        proof {
            assert(evs.take(samples@.len() as int) =~= evs);
        }
    }
}

fn clone_bytes(v: &Vec<u8>) -> (r: Vec<u8>)
    ensures
        r@ == v@,
{
    let mut r: Vec<u8> = Vec::new();
    let mut i: usize = 0;
    while i < v.len()
        invariant
            0 <= i <= v@.len(),
            r@ == v@.subrange(0, i as int),
        decreases v@.len() - i,
    {
        r.push(v[i]);
        proof {
            assert(v@.subrange(0, i as int).push(v@[i as int]) =~= v@.subrange(0, i as int + 1));
        }
        i += 1;
    }
    proof {
        assert(v@.subrange(0, v@.len() as int) =~= v@);
    }
    r
}

/// Appending one sample to a run is one more step.
pub proof fn lemma_run_snoc(s: StateV, evs: Seq<SampleV>, e: SampleV)
    ensures
        spec_run(s, evs.push(e)) == spec_step(spec_run(s, evs), e),
    decreases evs.len(),
{
    reveal_with_fuel(spec_run, 3);
    if evs.len() == 0 {
        assert(evs.push(e)[0] == e);
        assert(evs.push(e).skip(1) =~= Seq::<SampleV>::empty());
    } else {
        assert(evs.push(e)[0] == evs[0]);
        assert(evs.push(e).skip(1) =~= evs.skip(1).push(e));
        lemma_run_snoc(spec_step(s, evs[0]), evs.skip(1), e);
    }
}

} // verus!
