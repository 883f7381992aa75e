//! Reading a decoded instruction: which instructions are conditional
//! branches, and the statically encoded target in their printed operands.

use vstd::prelude::*;
use vstd::slice::slice_subrange;
use crate::hex::{LOWER_X, ZERO, hex_value, parse_hex_u64, parses_as_hex};

verus! {

/// The instruction id that the disassembler gives the ARM branch
/// instruction `b` (capstone's `arm_insn::ARM_INS_B`).
pub const ARM_BRANCH_INSN_ID: u32 = 11;

pub const HASH: u8 = 35;

pub const DOT: u8 = 46;

pub const LETTER_B: u8 = 98;

pub const LETTER_L: u8 = 108;

pub const SPACE: u8 = 32;

pub const TAB: u8 = 9;

pub const LINE_FEED: u8 = 10;

pub const VERTICAL_TAB: u8 = 11;

pub const FORM_FEED: u8 = 12;

pub const CARRIAGE_RETURN: u8 = 13;

/// One decoded instruction as the disassembler reports it: the numeric
/// instruction id, the mnemonic, and the printed operands.
pub struct DecodedInsn {
    pub id: u32,
    pub mnemonic: Vec<u8>,
    pub operands: Vec<u8>,
}

/// A conditional branch observed at some address: its two-byte condition
/// suffix and its statically encoded target address.
pub struct CondBranch {
    pub condition: Vec<u8>,
    pub target: u64,
}

impl View for CondBranch {
    type V = (Seq<u8>, u64);

    open spec fn view(&self) -> (Seq<u8>, u64) {
        (self.condition@, self.target)
    }
}

pub open spec fn blx_mnemonic() -> Seq<u8> {
    seq![LETTER_B, LETTER_L, LOWER_X]
}

/// A branch instruction with a genuine condition suffix: the mnemonic is
/// longer than two bytes, is not the branch-with-link-exchange form, and
/// carries no wide-encoding dot after the opcode letter.
pub open spec fn spec_is_cond_branch(id: u32, m: Seq<u8>) -> bool {
    id == ARM_BRANCH_INSN_ID && m.len() > 2 && m != blx_mnemonic() && m[1] != DOT
}

/// The marker that precedes a statically encoded target in the operands.
pub open spec fn marker_at(s: Seq<u8>, i: int) -> bool {
    0 <= i && i + 3 <= s.len() && s[i] == HASH && s[i + 1] == ZERO && s[i + 2] == LOWER_X
}

/// The first `#0x` marker at or after position `i`.
pub open spec fn find_marker(s: Seq<u8>, i: int) -> Option<int>
    recommends
        0 <= i <= s.len(),
    decreases s.len() - i when 0 <= i <= s.len()
{
    if i + 3 > s.len() {
        None
    } else if marker_at(s, i) {
        Some(i)
    } else {
        find_marker(s, i + 1)
    }
}

pub proof fn lemma_find_marker_props(s: Seq<u8>, i: int)
    requires
        0 <= i <= s.len(),
    ensures
        find_marker(s, i) matches Some(j) ==> i <= j && marker_at(s, j),
    decreases s.len() - i,
{
    if i + 3 > s.len() {
    } else if marker_at(s, i) {
    } else {
        lemma_find_marker_props(s, i + 1);
    }
}

/// The text between the first `#0x` marker and the next one, or the end of
/// the operands when no second marker follows.
pub open spec fn target_segment(s: Seq<u8>) -> Option<Seq<u8>> {
    match find_marker(s, 0) {
        None => None,
        Some(j) => {
            let start = j + 3;
            let end = match find_marker(s, start) {
                Some(k) => k,
                None => s.len() as int,
            };
            Some(s.subrange(start, end))
        },
    }
}

pub open spec fn is_ascii_space(b: u8) -> bool {
    b == SPACE || b == TAB || b == LINE_FEED || b == VERTICAL_TAB || b == FORM_FEED || b
        == CARRIAGE_RETURN
}

pub open spec fn trim_front(s: Seq<u8>) -> Seq<u8>
    decreases s.len(),
{
    if s.len() > 0 && is_ascii_space(s[0]) {
        trim_front(s.skip(1))
    } else {
        s
    }
}

pub open spec fn trim_back(s: Seq<u8>) -> Seq<u8>
    decreases s.len(),
{
    if s.len() > 0 && is_ascii_space(s.last()) {
        trim_back(s.drop_last())
    } else {
        s
    }
}

/// Surrounding ASCII whitespace removed.
pub open spec fn trim_spec(s: Seq<u8>) -> Seq<u8> {
    trim_back(trim_front(s))
}

/// What one decoded instruction contributes to classification: `Some` with
/// the condition suffix and target exactly for a conditional branch whose
/// operands carry a parseable static target.
pub open spec fn spec_classify(id: u32, m: Seq<u8>, ops: Seq<u8>) -> Option<(Seq<u8>, u64)> {
    if spec_is_cond_branch(id, m) {
        match target_segment(ops) {
            Some(seg) => {
                let t = trim_spec(seg);
                if parses_as_hex(t) {
                    Some((m.subrange(1, 3), (hex_value(t) as u64)))
                } else {
                    None
                }
            },
            None => None,
        }
    } else {
        None
    }
}

fn find_marker_exec(s: &[u8], from: usize) -> (r: Option<usize>)
    requires
        from <= s@.len(),
    ensures
        r matches Some(j) ==> find_marker(s@, from as int) == Some(j as int) && from <= j && j + 3
            <= s@.len(),
        r is None ==> find_marker(s@, from as int) is None,
{
    let mut j = from;
    while s.len() - j >= 3
        invariant
            from <= j <= s@.len(),
            find_marker(s@, from as int) == find_marker(s@, j as int),
        decreases s@.len() - j,
    {
        if s[j] == HASH && s[j + 1] == ZERO && s[j + 2] == LOWER_X {
            return Some(j);
        }
        j += 1;
    }
    None
}

fn is_ascii_space_exec(b: u8) -> (r: bool)
    ensures
        r == is_ascii_space(b),
{
    b == SPACE || b == TAB || b == LINE_FEED || b == VERTICAL_TAB || b == FORM_FEED || b
        == CARRIAGE_RETURN
}

/// The bounds of `trim_spec(s[start..end])` inside `s`.
fn trim_range(s: &[u8], start: usize, end: usize) -> (r: (usize, usize))
    requires
        start <= end <= s@.len(),
    ensures
        start <= r.0 <= r.1 <= end,
        s@.subrange(r.0 as int, r.1 as int) == trim_spec(s@.subrange(start as int, end as int)),
{
    let mut a = start;
    while a < end && is_ascii_space_exec(s[a])
        invariant
            start <= a <= end <= s@.len(),
            trim_front(s@.subrange(start as int, end as int)) == trim_front(
                s@.subrange(a as int, end as int),
            ),
        decreases end - a,
    {
        proof {
            let cur = s@.subrange(a as int, end as int);
            assert(cur[0] == s@[a as int]);
            assert(cur.skip(1) =~= s@.subrange(a as int + 1, end as int));
        }
        a += 1;
    }
    proof {
        let cur = s@.subrange(a as int, end as int);
        if cur.len() > 0 {
            assert(cur[0] == s@[a as int]);
        }
        assert(trim_front(cur) == cur);
    }
    let mut b = end;
    while b > a && is_ascii_space_exec(s[b - 1])
        invariant
            a <= b <= end <= s@.len(),
            trim_back(s@.subrange(a as int, end as int)) == trim_back(
                s@.subrange(a as int, b as int),
            ),
        decreases b,
    {
        proof {
            let cur = s@.subrange(a as int, b as int);
            assert(cur.last() == s@[b as int - 1]);
            assert(cur.drop_last() =~= s@.subrange(a as int, b as int - 1));
        }
        b -= 1;
    }
    proof {
        let cur = s@.subrange(a as int, b as int);
        if cur.len() > 0 {
            assert(cur.last() == s@[b as int - 1]);
        }
        assert(trim_back(cur) == cur);
    }
    (a, b)
}

/// Classify one decoded instruction, matching `spec_classify` exactly.
pub fn classify_insn(d: &DecodedInsn) -> (r: Option<CondBranch>)
    ensures
        r matches Some(cb) ==> spec_classify(d.id, d.mnemonic@, d.operands@) == Some(
            (cb.condition@, cb.target),
        ),
        r is None ==> spec_classify(d.id, d.mnemonic@, d.operands@) is None,
{
    if d.id != ARM_BRANCH_INSN_ID {
        return None;
    }
    if d.mnemonic.len() <= 2 {
        return None;
    }
    let m0 = d.mnemonic[0];
    let m1 = d.mnemonic[1];
    let m2 = d.mnemonic[2];
    if d.mnemonic.len() == 3 && m0 == LETTER_B && m1 == LETTER_L && m2 == LOWER_X {
        proof {
            assert(d.mnemonic@ =~= blx_mnemonic());
        }
        return None;
    }
    proof {
        if d.mnemonic@ == blx_mnemonic() {
            assert(d.mnemonic@.len() == 3);
            assert(d.mnemonic@[0] == LETTER_B);
            assert(d.mnemonic@[1] == LETTER_L);
            assert(d.mnemonic@[2] == LOWER_X);
        }
    }
    if m1 == DOT {
        return None;
    }
    let ops = d.operands.as_slice();
    let n = ops.len();
    let j = match find_marker_exec(ops, 0) {
        Some(j) => j,
        None => {
            return None;
        },
    };
    assert(j + 3 <= n);
    let start = j + 3;
    let end = match find_marker_exec(ops, start) {
        Some(k) => {
            proof {
                lemma_find_marker_props(ops@, start as int);
            }
            k
        },
        None => ops.len(),
    };
    let (a, b) = trim_range(ops, start, end);
    match parse_hex_u64(slice_subrange(ops, a, b)) {
        None => None,
        Some(t) => {
            let mut condition: Vec<u8> = Vec::new();
            condition.push(m1);
            condition.push(m2);
            proof {
                assert(condition@ =~= d.mnemonic@.subrange(1, 3));
            }
            Some(CondBranch { condition, target: t })
        },
    }
}

} // verus!
