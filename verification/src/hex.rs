//! Hexadecimal parsing and formatting over byte sequences.

use vstd::prelude::*;
use vstd::slice::slice_subrange;

verus! {

/// ASCII bytes that the hexadecimal notation uses.
pub const ZERO: u8 = 48;

pub const NINE: u8 = 57;

pub const LOWER_A: u8 = 97;

pub const LOWER_F: u8 = 102;

pub const UPPER_A: u8 = 65;

pub const UPPER_F: u8 = 70;

pub const LOWER_X: u8 = 120;


/// The bytes that count as hexadecimal digits: `0-9`, `a-f`, `A-F`.
pub open spec fn is_hex_digit(b: u8) -> bool {
    (ZERO <= b && b <= NINE) || (LOWER_A <= b && b <= LOWER_F) || (UPPER_A <= b && b <= UPPER_F)
}

/// The numeric value of one hexadecimal digit.
pub open spec fn hex_digit_value(b: u8) -> nat
    recommends
        is_hex_digit(b),
{
    if ZERO <= b && b <= NINE {
        (b - ZERO) as nat
    } else if LOWER_A <= b && b <= LOWER_F {
        (b - LOWER_A + 10) as nat
    } else {
        (b - UPPER_A + 10) as nat
    }
}

/// The value of a sequence of hexadecimal digits, most significant first.
pub open spec fn hex_value(s: Seq<u8>) -> nat
    decreases s.len(),
{
    if s.len() == 0 {
        0
    } else {
        hex_value(s.drop_last()) * 16 + hex_digit_value(s.last())
    }
}

pub open spec fn all_hex_digits(s: Seq<u8>) -> bool {
    forall|i: int| 0 <= i < s.len() ==> is_hex_digit(#[trigger] s[i])
}

/// A sequence denotes a `u64` exactly when it is a nonempty run of
/// hexadecimal digits whose value fits in 64 bits.
pub open spec fn parses_as_hex(s: Seq<u8>) -> bool {
    s.len() > 0 && all_hex_digits(s) && hex_value(s) <= u64::MAX
}

/// Every leading `0x` marker removed, as repeated prefix stripping leaves it.
pub open spec fn strip_hex_prefix(s: Seq<u8>) -> Seq<u8>
    decreases s.len(),
{
    if s.len() >= 2 && s[0] == ZERO && s[1] == LOWER_X {
        strip_hex_prefix(s.skip(2))
    } else {
        s
    }
}

/// A prefix of a digit run never exceeds the value of the whole run.
pub proof fn lemma_hex_value_prefix_le(s: Seq<u8>, i: int)
    requires
        0 <= i <= s.len(),
    ensures
        hex_value(s.subrange(0, i)) <= hex_value(s),
    decreases s.len() - i,
{
    if i == s.len() {
        assert(s.subrange(0, i) =~= s);
    } else {
        lemma_hex_value_prefix_le(s, i + 1);
        assert(s.subrange(0, i + 1).drop_last() =~= s.subrange(0, i));
        let v = hex_value(s.subrange(0, i));
        assert(hex_value(s.subrange(0, i + 1)) == v * 16 + hex_digit_value(
            s.subrange(0, i + 1).last(),
        ));
        assert(v <= v * 16) by (nonlinear_arith);
    }
}

fn hex_digit_value_exec(b: u8) -> (v: u64)
    requires
        is_hex_digit(b),
    ensures
        v == hex_digit_value(b),
        v < 16,
{
    if ZERO <= b && b <= NINE {
        (b - ZERO) as u64
    } else if LOWER_A <= b && b <= LOWER_F {
        (b - LOWER_A + 10) as u64
    } else {
        (b - UPPER_A + 10) as u64
    }
}

/// Parse a run of hexadecimal digits as a `u64`, rejecting empty or
/// malformed runs and values that overflow 64 bits.
pub fn parse_hex_u64(s: &[u8]) -> (r: Option<u64>)
    ensures
        parses_as_hex(s@) ==> r == Some((hex_value(s@) as u64)),
        !parses_as_hex(s@) ==> r is None,
{
    if s.len() == 0 {
        return None;
    }
    let mut acc: u64 = 0;
    let mut i: usize = 0;
    while i < s.len()
        invariant
            0 <= i <= s@.len(),
            all_hex_digits(s@.subrange(0, i as int)),
            acc == hex_value(s@.subrange(0, i as int)),
        decreases s@.len() - i,
    {
        let b = s[i];
        if !((ZERO <= b && b <= NINE) || (LOWER_A <= b && b <= LOWER_F) || (UPPER_A <= b && b <= UPPER_F)) {
            assert(!is_hex_digit(s@[i as int]));
            return None;
        }
        let d = hex_digit_value_exec(b);
        proof {
            assert(s@.subrange(0, i as int + 1).drop_last() =~= s@.subrange(0, i as int));
            assert(s@.subrange(0, i as int + 1).last() == s@[i as int]);
        }
        if acc > 0x0FFF_FFFF_FFFF_FFFFu64 {
            proof {
                assert(hex_value(s@.subrange(0, i as int + 1)) == acc * 16 + hex_digit_value(
                    s@[i as int],
                ));
                assert(acc * 16 > u64::MAX as nat) by (nonlinear_arith)
                    requires
                        acc > 0x0FFF_FFFF_FFFF_FFFFu64,
                ;
                lemma_hex_value_prefix_le(s@, i as int + 1);
            }
            return None;
        }
        acc = acc * 16 + d;
        i += 1;
    }
    proof {
        assert(s@.subrange(0, i as int) =~= s@);
    }
    Some(acc)
}

/// Parse a trace address: any leading `0x` markers are stripped, the rest
/// must be a hexadecimal digit run that fits in 64 bits.
pub fn parse_address(line: &[u8]) -> (r: Option<u64>)
    ensures
        parses_as_hex(strip_hex_prefix(line@)) ==> r == Some(
            (hex_value(strip_hex_prefix(line@)) as u64),
        ),
        !parses_as_hex(strip_hex_prefix(line@)) ==> r is None,
{
    let mut i: usize = 0;
    proof {
        assert(line@.skip(0) =~= line@);
    }
    while i < line.len() && i + 1 < line.len() && line[i] == ZERO && line[i + 1] == LOWER_X
        invariant
            0 <= i <= line@.len(),
            strip_hex_prefix(line@) == strip_hex_prefix(line@.skip(i as int)),
        decreases line@.len() - i,
    {
        proof {
            assert(line@.skip(i as int)[0] == line@[i as int]);
            assert(line@.skip(i as int)[1] == line@[i as int + 1]);
            assert(line@.skip(i as int).skip(2) =~= line@.skip(i as int + 2));
        }
        i += 2;
    }
    proof {
        let rest = line@.skip(i as int);
        if rest.len() >= 2 {
            assert(rest[0] == line@[i as int]);
            assert(rest[1] == line@[i as int + 1]);
        }
        assert(strip_hex_prefix(rest) == rest);
        assert(line@.subrange(i as int, line@.len() as int) =~= rest);
    }
    parse_hex_u64(slice_subrange(line, i, line.len()))
}

/// The byte spelling one hexadecimal digit, upper case.
pub open spec fn hex_digit_upper(v: nat) -> u8
    recommends
        v < 16,
{
    if v < 10 {
        (ZERO + v) as u8
    } else {
        (UPPER_A + (v - 10)) as u8
    }
}

/// The upper-case hexadecimal spelling of a number, without a prefix.
pub open spec fn hex_upper(n: nat) -> Seq<u8>
    decreases n,
{
    if n < 16 {
        seq![hex_digit_upper(n)]
    } else {
        hex_upper(n / 16).push(hex_digit_upper(n % 16))
    }
}

/// The spelling is nonempty, made of digits, and reads back to the number.
pub proof fn lemma_hex_upper_props(n: nat)
    ensures
        hex_upper(n).len() >= 1,
        all_hex_digits(hex_upper(n)),
        hex_value(hex_upper(n)) == n,
    decreases n,
{
    if n < 16 {
        let d = hex_digit_upper(n);
        assert(is_hex_digit(d));
        assert(hex_value(seq![d]) == hex_value(seq![d].drop_last()) * 16 + hex_digit_value(d));
        assert(seq![d].drop_last() =~= Seq::<u8>::empty());
        assert(hex_digit_value(d) == n);
    } else {
        lemma_hex_upper_props(n / 16);
        let q = hex_upper(n / 16);
        let d = hex_digit_upper(n % 16);
        assert(is_hex_digit(d));
        assert(hex_digit_value(d) == n % 16);
        assert(q.push(d).drop_last() =~= q);
        assert(q.push(d).last() == d);
        assert(hex_value(q.push(d)) == (n / 16) * 16 + n % 16);
        assert((n / 16) * 16 + n % 16 == n) by (nonlinear_arith);
        assert(forall|i: int|
            0 <= i < q.push(d).len() ==> is_hex_digit(#[trigger] q.push(d)[i]));
    }
}

fn hex_digit_upper_exec(v: u64) -> (b: u8)
    requires
        v < 16,
    ensures
        b == hex_digit_upper(v as nat),
{
    if v < 10 {
        ZERO + (v as u8)
    } else {
        UPPER_A + ((v - 10) as u8)
    }
}

/// Spell a number in upper-case hexadecimal.
pub fn to_hex_upper(n: u64) -> (r: Vec<u8>)
    ensures
        r@ == hex_upper(n as nat),
    decreases n,
{
    if n < 16 {
        let mut v: Vec<u8> = Vec::new();
        v.push(hex_digit_upper_exec(n));
        proof {
            assert(v@ =~= hex_upper(n as nat));
        }
        v
    } else {
        let mut v = to_hex_upper(n / 16);
        v.push(hex_digit_upper_exec(n % 16));
        v
    }
}

} // verus!
