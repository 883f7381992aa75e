//! The report: one line per invariant branch, in first-recorded order.

use vstd::prelude::*;
use crate::classify::{Classifier, JumpV, lemma_map_of_index};
use crate::hex::{ZERO, hex_upper, hex_value, is_hex_digit, lemma_hex_upper_props, to_hex_upper};
use crate::insn::SPACE;

verus! {

pub const UPPER_X: u8 = 88;

pub const LOWER_A_LETTER: u8 = 97;

pub const LOWER_Z_LETTER: u8 = 122;

/// ASCII upper-casing, as the report spells the condition suffix.
pub open spec fn to_upper(b: u8) -> u8 {
    if LOWER_A_LETTER <= b && b <= LOWER_Z_LETTER {
        (b - 32) as u8
    } else {
        b
    }
}

pub open spec fn upper_seq(s: Seq<u8>) -> Seq<u8> {
    s.map_values(|b: u8| to_upper(b))
}

/// The bytes of `CONDITION_`.
pub open spec fn condition_tag() -> Seq<u8> {
    seq![67u8, 79u8, 78u8, 68u8, 73u8, 84u8, 73u8, 79u8, 78u8, 95u8]
}

/// The bytes of `ALWAYS_TAKEN`.
pub open spec fn always_taken() -> Seq<u8> {
    seq![65u8, 76u8, 87u8, 65u8, 89u8, 83u8, 95u8, 84u8, 65u8, 75u8, 69u8, 78u8]
}

/// The bytes of `NEVER_TAKEN`.
pub open spec fn never_taken() -> Seq<u8> {
    seq![78u8, 69u8, 86u8, 69u8, 82u8, 95u8, 84u8, 65u8, 75u8, 69u8, 78u8]
}

/// A record carries an invariant signal when exactly one outcome was seen.
pub open spec fn invariant_entry(j: JumpV) -> bool {
    j.taken != j.not_taken
}

pub open spec fn verdict_of(j: JumpV) -> Seq<u8> {
    if j.taken {
        always_taken()
    } else {
        never_taken()
    }
}

/// The report line of one invariant branch: upper-case hexadecimal address,
/// the condition tag in upper case, and the verdict.
pub open spec fn line_of(k: u64, j: JumpV) -> Seq<u8> {
    seq![ZERO, UPPER_X] + hex_upper(k as nat) + seq![SPACE] + condition_tag() + upper_seq(
        j.condition,
    ) + seq![SPACE] + verdict_of(j)
}

/// The report of a classification map, walking the addresses in order and
/// keeping exactly the invariant entries.
pub open spec fn report_of(order: Seq<u64>, m: Map<u64, JumpV>) -> Seq<Seq<u8>>
    decreases order.len(),
{
    if order.len() == 0 {
        Seq::empty()
    } else {
        let rest = report_of(order.skip(1), m);
        if m.dom().contains(order[0]) && invariant_entry(m[order[0]]) {
            seq![line_of(order[0], m[order[0]])] + rest
        } else {
            rest
        }
    }
}

pub proof fn lemma_report_of_concat(o1: Seq<u64>, o2: Seq<u64>, m: Map<u64, JumpV>)
    ensures
        report_of(o1 + o2, m) == report_of(o1, m) + report_of(o2, m),
    decreases o1.len(),
{
    if o1.len() == 0 {
        assert(o1 + o2 =~= o2);
        assert(report_of(o1, m) + report_of(o2, m) =~= report_of(o2, m));
    } else {
        assert((o1 + o2)[0] == o1[0]);
        assert((o1 + o2).skip(1) =~= o1.skip(1) + o2);
        lemma_report_of_concat(o1.skip(1), o2, m);
        if m.dom().contains(o1[0]) && invariant_entry(m[o1[0]]) {
            assert(seq![line_of(o1[0], m[o1[0]])] + (report_of(o1.skip(1), m) + report_of(o2, m))
                =~= (seq![line_of(o1[0], m[o1[0]])] + report_of(o1.skip(1), m)) + report_of(
                o2,
                m,
            ));
        }
    }
}

fn push_tag(v: &mut Vec<u8>)
    ensures
        final(v)@ == old(v)@ + condition_tag(),
{
    let ghost base = v@;
    v.push(67);
    v.push(79);
    v.push(78);
    v.push(68);
    v.push(73);
    v.push(84);
    v.push(73);
    v.push(79);
    v.push(78);
    v.push(95);
    proof {
        assert(v@ =~= base + condition_tag());
    }
}

fn push_verdict(v: &mut Vec<u8>, taken: bool)
    ensures
        taken ==> final(v)@ == old(v)@ + always_taken(),
        !taken ==> final(v)@ == old(v)@ + never_taken(),
{
    let ghost base = v@;
    if taken {
        v.push(65);
        v.push(76);
        v.push(87);
        v.push(65);
        v.push(89);
        v.push(83);
        v.push(95);
        v.push(84);
        v.push(65);
        v.push(75);
        v.push(69);
        v.push(78);
        proof {
            assert(v@ =~= base + always_taken());
        }
    } else {
        v.push(78);
        v.push(69);
        v.push(86);
        v.push(69);
        v.push(82);
        v.push(95);
        v.push(84);
        v.push(65);
        v.push(75);
        v.push(69);
        v.push(78);
        proof {
            assert(v@ =~= base + never_taken());
        }
    }
}

fn push_upper(v: &mut Vec<u8>, s: &Vec<u8>)
    ensures
        final(v)@ == old(v)@ + upper_seq(s@),
{
    let ghost base = v@;
    let mut i: usize = 0;
    while i < s.len()
        invariant
            0 <= i <= s@.len(),
            v@ == base + upper_seq(s@).subrange(0, i as int),
        decreases s@.len() - i,
    {
        let b = s[i];
        let u = if LOWER_A_LETTER <= b && b <= LOWER_Z_LETTER {
            b - 32
        } else {
            b
        };
        v.push(u);
        proof {
            assert(upper_seq(s@)[i as int] == to_upper(s@[i as int]));
            assert((base + upper_seq(s@).subrange(0, i as int)).push(u) =~= base + upper_seq(
                s@,
            ).subrange(0, i as int + 1));
        }
        i += 1;
    }
    proof {
        assert(upper_seq(s@).subrange(0, s@.len() as int) =~= upper_seq(s@));
    }
}

/// The report line of one entry, as `line_of` spells it.
fn line_for(k: u64, taken: bool, condition: &Vec<u8>) -> (r: Vec<u8>)
    ensures
        r@ == line_of(
            k,
            JumpV { taken, not_taken: !taken, condition: condition@, target: 0 },
        ),
        forall|j: JumpV|
            j.taken == taken && j.not_taken == !taken && j.condition == condition@
                ==> r@ == line_of(k, j),
{
    let mut v: Vec<u8> = Vec::new();
    v.push(ZERO);
    v.push(UPPER_X);
    let mut h = to_hex_upper(k);
    v.append(&mut h);
    v.push(SPACE);
    proof {
        assert(v@ =~= seq![ZERO, UPPER_X] + hex_upper(k as nat) + seq![SPACE]);
    }
    push_tag(&mut v);
    push_upper(&mut v, condition);
    v.push(SPACE);
    push_verdict(&mut v, taken);
    proof {
        let j = JumpV { taken, not_taken: !taken, condition: condition@, target: 0 };
        assert(v@ =~= line_of(k, j));
        assert forall|j2: JumpV|
            j2.taken == taken && j2.not_taken == !taken && j2.condition == condition@ implies v@
            == line_of(k, j2) by {
            assert(verdict_of(j2) == verdict_of(j));
            assert(line_of(k, j2) =~= line_of(k, j));
        }
    }
    v
}

/// Generate the report of a classification map: the line of every invariant
/// entry, in the order the branch addresses were first recorded.
pub fn report_lines(c: &Classifier) -> (r: Vec<Vec<u8>>)
    requires
        c.wf(),
    ensures
        r@.map_values(|l: Vec<u8>| l@) == report_of(c@.order, c@.recs),
{
    let ghost order = c.map.keys();
    let ghost m = c.map.as_map();
    proof {
        lemma_map_of_index(c.map.entries@);
    }
    let mut r: Vec<Vec<u8>> = Vec::new();
    let mut i: usize = 0;
    proof {
        assert(order.take(0) =~= Seq::<u64>::empty());
        assert(r@.map_values(|l: Vec<u8>| l@) =~= report_of(order.take(0), m));
    }
    while i < c.map.entries.len()
        invariant
            0 <= i <= c.map.entries@.len(),
            c.wf(),
            order == c.map.keys(),
            m == c.map.as_map(),
            r@.map_values(|l: Vec<u8>| l@) == report_of(order.take(i as int), m),
        decreases c.map.entries@.len() - i,
    {
        proof {
            reveal_with_fuel(report_of, 2);
            lemma_map_of_index(c.map.entries@);
            assert(order.take(i as int + 1) =~= order.take(i as int) + seq![order[i as int]]);
            lemma_report_of_concat(order.take(i as int), seq![order[i as int]], m);
            assert(seq![order[i as int]].skip(1) =~= Seq::<u64>::empty());
            assert(order[i as int] == c.map.entries@[i as int].0);
        }
        let entry = &c.map.entries[i];
        let ghost k = entry.0;
        if entry.1.taken != entry.1.not_taken {
            let line = line_for(entry.0, entry.1.taken, &entry.1.condition);
            r.push(line);
            proof {
                assert(m[k] == c.map.entries@[i as int].1@);
                assert(line@ == line_of(k, m[k]));
                assert(report_of(seq![k], m) =~= seq![line_of(k, m[k])]);
                assert(r@.map_values(|l: Vec<u8>| l@) =~= report_of(order.take(i as int), m)
                    + report_of(seq![k], m));
            }
        } else {
            proof {
                assert(m[k] == c.map.entries@[i as int].1@);
                assert(!invariant_entry(m[k]));
                assert(report_of(seq![k], m) =~= Seq::<Seq<u8>>::empty());
                assert(r@.map_values(|l: Vec<u8>| l@) =~= report_of(order.take(i as int), m)
                    + report_of(seq![k], m));
            }
        }
        i += 1;
    }
    proof {
        assert(order.take(c.map.entries@.len() as int) =~= order);
    }
    r
}

/// Equal report lines name equal addresses: the line opens with the address
/// spelling, whose digits run up to the first space.
pub proof fn lemma_line_addr_injective(k1: u64, j1: JumpV, k2: u64, j2: JumpV)
    requires
        line_of(k1, j1) == line_of(k2, j2),
    ensures
        k1 == k2,
{
    let h1 = hex_upper(k1 as nat);
    let h2 = hex_upper(k2 as nat);
    lemma_hex_upper_props(k1 as nat);
    lemma_hex_upper_props(k2 as nat);
    let l1 = line_of(k1, j1);
    let l2 = line_of(k2, j2);
    assert(forall|i: int| 0 <= i < h1.len() ==> l1[2 + i] == h1[i]);
    assert(forall|i: int| 0 <= i < h2.len() ==> l2[2 + i] == h2[i]);
    assert(l1[2 + h1.len() as int] == SPACE);
    assert(l2[2 + h2.len() as int] == SPACE);
    assert(forall|b: u8| is_hex_digit(b) ==> b != SPACE);
    if h1.len() < h2.len() {
        assert(is_hex_digit(h2[h1.len() as int]));
        assert(l2[2 + h1.len() as int] == h2[h1.len() as int]);
        assert(false);
    }
    if h2.len() < h1.len() {
        assert(is_hex_digit(h1[h2.len() as int]));
        assert(l1[2 + h2.len() as int] == h1[h2.len() as int]);
        assert(false);
    }
    assert(h1 =~= h2);
    assert(hex_value(h1) == k1 as nat);
    assert(hex_value(h2) == k2 as nat);
}

/// The line is the line of some invariant entry whose address stands in
/// the order.
pub open spec fn line_from_entry(order: Seq<u64>, m: Map<u64, JumpV>, l: Seq<u8>) -> bool {
    exists|k: u64|
        order.contains(k) && m.dom().contains(k) && invariant_entry(m[k]) && l == line_of(
            k,
            #[trigger] m[k],
        )
}

/// Every report line is the line of some invariant entry whose address
/// stands in the order.
pub proof fn lemma_report_members(order: Seq<u64>, m: Map<u64, JumpV>)
    ensures
        forall|i: int|
            0 <= i < report_of(order, m).len() ==> line_from_entry(
                order,
                m,
                #[trigger] report_of(order, m)[i],
            ),
    decreases order.len(),
{
    if order.len() == 0 {
    } else {
        lemma_report_members(order.skip(1), m);
        let k0 = order[0];
        let rep = report_of(order, m);
        let rest = report_of(order.skip(1), m);
        assert forall|k: u64| order.skip(1).contains(k) implies order.contains(k) by {
            let i = choose|i: int| 0 <= i < order.skip(1).len() && order.skip(1)[i] == k;
            assert(order[i + 1] == k);
        }
        assert(order.contains(k0)) by {
            assert(order[0] == k0);
        }
        assert forall|i: int| 0 <= i < rep.len() implies line_from_entry(order, m, rep[i]) by {
            if m.dom().contains(k0) && invariant_entry(m[k0]) {
                if i == 0 {
                    assert(rep[0] == line_of(k0, m[k0]));
                } else {
                    assert(rep[i] == rest[i - 1]);
                    let k = choose|k: u64|
                        order.skip(1).contains(k) && m.dom().contains(k) && invariant_entry(m[k])
                            && rest[i - 1] == line_of(k, #[trigger] m[k]);
                    assert(rep[i] == line_of(k, m[k]));
                }
            } else {
                assert(rep[i] == rest[i]);
                let k = choose|k: u64|
                    order.skip(1).contains(k) && m.dom().contains(k) && invariant_entry(m[k])
                        && rest[i] == line_of(k, #[trigger] m[k]);
                assert(rep[i] == line_of(k, m[k]));
            }
        }
    }
}

/// An address whose record saw both outcomes, or none, has no line in the
/// report: mixed or unresolved behavior carries no invariant signal.
pub proof fn lemma_no_line_without_signal(order: Seq<u64>, m: Map<u64, JumpV>, k: u64)
    requires
        m.dom().contains(k),
        !invariant_entry(m[k]),
    ensures
        forall|i: int, j: JumpV|
            #![trigger report_of(order, m)[i], line_of(k, j)]
            0 <= i < report_of(order, m).len() ==> report_of(order, m)[i] != line_of(k, j),
{
    lemma_report_members(order, m);
    assert forall|i: int, j: JumpV|
        #![trigger report_of(order, m)[i], line_of(k, j)]
        0 <= i < report_of(order, m).len() implies report_of(order, m)[i] != line_of(k, j) by {
        if report_of(order, m)[i] == line_of(k, j) {
            let k2 = choose|k2: u64|
                order.contains(k2) && m.dom().contains(k2) && invariant_entry(m[k2])
                    && report_of(order, m)[i] == line_of(k2, #[trigger] m[k2]);
            lemma_line_addr_injective(k2, m[k2], k, j);
        }
    }
}

/// No line names an address absent from the order.
pub proof fn lemma_no_line_for_absent(order: Seq<u64>, m: Map<u64, JumpV>, k: u64)
    requires
        !order.contains(k),
    ensures
        forall|i: int, j: JumpV|
            #![trigger report_of(order, m)[i], line_of(k, j)]
            0 <= i < report_of(order, m).len() ==> report_of(order, m)[i] != line_of(k, j),
{
    lemma_report_members(order, m);
    assert forall|i: int, j: JumpV|
        #![trigger report_of(order, m)[i], line_of(k, j)]
        0 <= i < report_of(order, m).len() implies report_of(order, m)[i] != line_of(k, j) by {
        if report_of(order, m)[i] == line_of(k, j) {
            let k2 = choose|k2: u64|
                order.contains(k2) && m.dom().contains(k2) && invariant_entry(m[k2])
                    && report_of(order, m)[i] == line_of(k2, #[trigger] m[k2]);
            lemma_line_addr_injective(k2, m[k2], k, j);
        }
    }
}

/// Every invariant entry has exactly one report line, spelling that entry:
/// the line exists, and no second index carries a line naming the same
/// address.
pub proof fn lemma_one_line_per_invariant_entry(order: Seq<u64>, m: Map<u64, JumpV>, k: u64)
    requires
        order.no_duplicates(),
        order.contains(k),
        m.dom().contains(k),
        invariant_entry(m[k]),
    ensures
        exists|i: int|
            0 <= i < report_of(order, m).len() && #[trigger] report_of(order, m)[i] == line_of(
                k,
                m[k],
            ),
        forall|i1: int, i2: int, j1: JumpV, j2: JumpV|
            #![trigger report_of(order, m)[i1], report_of(order, m)[i2], line_of(k, j1), line_of(k, j2)]
            0 <= i1 < report_of(order, m).len() && 0 <= i2 < report_of(order, m).len()
                && report_of(order, m)[i1] == line_of(k, j1) && report_of(order, m)[i2] == line_of(
                k,
                j2,
            ) ==> i1 == i2,
    decreases order.len(),
{
    let rep = report_of(order, m);
    let k0 = order[0];
    let rest = report_of(order.skip(1), m);
    assert(order.len() > 0);
    if k0 == k {
        assert(order.skip(1).no_duplicates());
        assert(!order.skip(1).contains(k)) by {
            if order.skip(1).contains(k) {
                let i = choose|i: int|
                    0 <= i < order.skip(1).len() && order.skip(1)[i] == k;
                assert(order[i + 1] == k);
                assert(order[0] == k);
            }
        }
        lemma_no_line_for_absent(order.skip(1), m, k);
        assert(rep == seq![line_of(k, m[k])] + rest);
        assert(rep[0] == line_of(k, m[k]));
        assert forall|i1: int, i2: int, j1: JumpV, j2: JumpV|
            #![trigger rep[i1], rep[i2], line_of(k, j1), line_of(k, j2)]
            0 <= i1 < rep.len() && 0 <= i2 < rep.len() && rep[i1] == line_of(k, j1) && rep[i2]
                == line_of(k, j2) implies i1 == i2 by {
            if i1 > 0 {
                assert(rep[i1] == rest[i1 - 1]);
            }
            if i2 > 0 {
                assert(rep[i2] == rest[i2 - 1]);
            }
        }
    } else {
        assert(order.skip(1).contains(k)) by {
            let i = choose|i: int| 0 <= i < order.len() && order[i] == k;
            assert(i != 0);
            assert(order.skip(1)[i - 1] == k);
        }
        assert(order.skip(1).no_duplicates());
        lemma_one_line_per_invariant_entry(order.skip(1), m, k);
        if m.dom().contains(k0) && invariant_entry(m[k0]) {
            assert(rep == seq![line_of(k0, m[k0])] + rest);
            let i0 = choose|i: int|
                0 <= i < rest.len() && #[trigger] rest[i] == line_of(k, m[k]);
            assert(rep[i0 + 1] == line_of(k, m[k]));
            assert forall|i1: int, i2: int, j1: JumpV, j2: JumpV|
                #![trigger rep[i1], rep[i2], line_of(k, j1), line_of(k, j2)]
                0 <= i1 < rep.len() && 0 <= i2 < rep.len() && rep[i1] == line_of(k, j1) && rep[i2]
                    == line_of(k, j2) implies i1 == i2 by {
                if i1 == 0 || i2 == 0 {
                    if i1 == 0 {
                        lemma_line_addr_injective(k0, m[k0], k, j1);
                    }
                    if i2 == 0 {
                        lemma_line_addr_injective(k0, m[k0], k, j2);
                    }
                } else {
                    assert(rep[i1] == rest[i1 - 1]);
                    assert(rep[i2] == rest[i2 - 1]);
                }
            }
        } else {
            assert(rep == rest);
        }
    }
}

} // verus!
