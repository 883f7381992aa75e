//! From trace lines to classifier samples: address parsing, mode
//! resolution, disassembly, classification, and the report.

use vstd::prelude::*;
use capstone::arch::BuildsCapstone;
use crate::AnalysisError;
use crate::classify::{Classifier, Sample, SampleV, StateV, init_state, spec_run, spec_step};
use crate::hex::{hex_value, parse_address, parses_as_hex, strip_hex_prefix};
use crate::insn::{DecodedInsn, classify_insn, spec_classify};
use crate::mode::{Mode, image_index, resolve_mode, spec_image_index, spec_resolve_mode};
use crate::report::{report_of, report_lines};

verus! {

/// What the disassembler returns for the bytes at `start` of the image,
/// decoded at address `addr` in ARM (`thumb` false) or Thumb (`thumb` true)
/// mode: the id, mnemonic and operand text of the first instruction, or
/// nothing where the bytes do not decode. A function of the arguments alone.
pub uninterp spec fn arm_decoded(image: Seq<u8>, start: int, addr: u64, thumb: bool) -> Option<
    (u32, Seq<u8>, Seq<u8>),
>;

/// Relies on capstone's `Capstone::disasm_count` with an ARM-mode engine:
/// the result is deterministic in the code bytes, the decode address and the
/// engine mode; id, mnemonic and operand text are read off the decoded
/// instruction, and the instruction list is empty exactly when the bytes
/// decode as nothing. Engine construction for the fixed, valid ARM mode is
/// relied on to succeed.
#[verifier::external_body]
fn decode_arm(image: &Vec<u8>, start: usize, addr: u64) -> (r: Option<DecodedInsn>)
    requires
        start < image@.len(),
    ensures
        r matches Some(d) ==> arm_decoded(image@, start as int, addr, false) == Some(
            (d.id, d.mnemonic@, d.operands@),
        ),
        r is None ==> arm_decoded(image@, start as int, addr, false) is None,
{
    let mode = capstone::arch::arm::ArchMode::Arm;
    let cs = capstone::Capstone::new().arm().mode(mode).detail(true).build().ok()?;
    let insns = cs.disasm_count(&image[start..], addr, 1).ok()?;
    let insn = insns.iter().next()?;
    Some(DecodedInsn {
        id: insn.id().0,
        mnemonic: insn.mnemonic().unwrap_or("").as_bytes().to_vec(),
        operands: insn.op_str().unwrap_or("").as_bytes().to_vec(),
    })
}

/// Relies on capstone's `Capstone::disasm_count` with a Thumb-mode engine,
/// exactly as `decode_arm` relies on it for ARM mode.
#[verifier::external_body]
fn decode_thumb(image: &Vec<u8>, start: usize, addr: u64) -> (r: Option<DecodedInsn>)
    requires
        start < image@.len(),
    ensures
        r matches Some(d) ==> arm_decoded(image@, start as int, addr, true) == Some(
            (d.id, d.mnemonic@, d.operands@),
        ),
        r is None ==> arm_decoded(image@, start as int, addr, true) is None,
{
    let mode = capstone::arch::arm::ArchMode::Thumb;
    let cs = capstone::Capstone::new().arm().mode(mode).detail(true).build().ok()?;
    let insns = cs.disasm_count(&image[start..], addr, 1).ok()?;
    let insn = insns.iter().next()?;
    Some(DecodedInsn {
        id: insn.id().0,
        mnemonic: insn.mnemonic().unwrap_or("").as_bytes().to_vec(),
        operands: insn.op_str().unwrap_or("").as_bytes().to_vec(),
    })
}

/// The outcome of one trace line: the sample it contributes, or the error
/// that halts the run. A line fails with `Parse` when it is not hexadecimal,
/// with `Range` when its effective address falls outside the image, and with
/// `Decode` when the bytes there decode as no instruction.
pub open spec fn spec_line_outcome(image: Seq<u8>, offset: u64, line: Seq<u8>) -> Result<
    SampleV,
    AnalysisError,
> {
    let digits = strip_hex_prefix(line);
    if !parses_as_hex(digits) {
        Err(AnalysisError::Parse)
    } else {
        let raw = (hex_value(digits) as u64);
        let resolved = spec_resolve_mode(raw);
        let eff = resolved.1;
        match spec_image_index(eff, offset, image.len()) {
            None => Err(AnalysisError::Range),
            Some(start) => match arm_decoded(image, start, eff, resolved.0 == Mode::Thumb) {
                None => Err(AnalysisError::Decode),
                Some((id, m, ops)) => Ok(SampleV { addr: eff, branch: spec_classify(id, m, ops) }),
            },
        }
    }
}

/// Consume one trace line: parse the address, resolve the mode, bound the
/// image index, decode the instruction there, and step the classifier.
pub fn process_line(c: &mut Classifier, image: &Vec<u8>, offset: u64, line: &Vec<u8>) -> (r:
    Result<(), AnalysisError>)
    requires
        old(c).wf(),
    ensures
        final(c).wf(),
        r matches Ok(u) ==> spec_line_outcome(image@, offset, line@) matches Ok(s) && final(c)@
            == spec_step(old(c)@, s),
        spec_line_outcome(image@, offset, line@) matches Err(e) ==> r == Err::<(), AnalysisError>(
            e,
        ),
        r matches Err(e) ==> *final(c) == *old(c) && spec_line_outcome(image@, offset, line@)
            == Err::<SampleV, AnalysisError>(e),
{
    let addr_raw = match parse_address(line.as_slice()) {
        Some(a) => a,
        None => {
            return Err(AnalysisError::Parse);
        },
    };
    let resolved = resolve_mode(addr_raw);
    let eff = resolved.1;
    let start = match image_index(eff, offset, image.len()) {
        Some(i) => i,
        None => {
            return Err(AnalysisError::Range);
        },
    };
    let decoded = match resolved.0 {
        Mode::Thumb => decode_thumb(image, start, eff),
        Mode::Arm => decode_arm(image, start, eff),
    };
    let d = match decoded {
        Some(d) => d,
        None => {
            return Err(AnalysisError::Decode);
        },
    };
    let branch = classify_insn(&d);
    let sample = Sample { addr: eff, branch };
    c.step(&sample);
    Ok(())
}

pub open spec fn line_views(lines: Seq<Vec<u8>>) -> Seq<Seq<u8>> {
    lines.map_values(|l: Vec<u8>| l@)
}

/// The samples that a sequence of well-formed lines contributes, in order.
pub open spec fn spec_samples(image: Seq<u8>, offset: u64, lviews: Seq<Seq<u8>>) -> Seq<SampleV> {
    lviews.map_values(|l: Seq<u8>| spec_line_outcome(image, offset, l)->Ok_0)
}

pub open spec fn lines_ok(image: Seq<u8>, offset: u64, lviews: Seq<Seq<u8>>) -> bool {
    forall|i: int|
        0 <= i < lviews.len() ==> spec_line_outcome(image, offset, #[trigger] lviews[i]) is Ok
}

/// A run that halted at line `i`: every earlier line contributed its sample,
/// the state reflects exactly those, and the failing line's own outcome is
/// the reported error.
pub open spec fn failed_at(
    image: Seq<u8>,
    offset: u64,
    lviews: Seq<Seq<u8>>,
    s0: StateV,
    s1: StateV,
    e: AnalysisError,
    i: int,
) -> bool {
    &&& 0 <= i < lviews.len()
    &&& forall|j: int|
        0 <= j < i ==> spec_line_outcome(image, offset, #[trigger] lviews[j]) is Ok
    &&& s1 == spec_run(s0, spec_samples(image, offset, lviews.take(i)))
    &&& spec_line_outcome(image, offset, lviews[i]) == Err::<SampleV, AnalysisError>(e)
}

/// Consume the lines of one trace in recorded order. The pending branch is
/// carried in, and left for the next trace to resolve.
pub fn process_lines(c: &mut Classifier, image: &Vec<u8>, offset: u64, lines: &Vec<Vec<u8>>) -> (r:
    Result<(), AnalysisError>)
    requires
        old(c).wf(),
    ensures
        final(c).wf(),
        r matches Ok(u) ==> lines_ok(image@, offset, line_views(lines@)) && final(c)@ == spec_run(
            old(c)@,
            spec_samples(image@, offset, line_views(lines@)),
        ),
        r matches Err(e) ==> exists|i: int|
            failed_at(image@, offset, line_views(lines@), old(c)@, final(c)@, e, i),
        lines_ok(image@, offset, line_views(lines@)) ==> r is Ok,
{
    let ghost lviews = line_views(lines@);
    let mut i: usize = 0;
    proof {
        assert(lviews.take(0) =~= Seq::<Seq<u8>>::empty());
        assert(spec_samples(image@, offset, lviews.take(0)) =~= Seq::<SampleV>::empty());
    }
    while i < lines.len()
        invariant
            0 <= i <= lines@.len(),
            c.wf(),
            lviews == line_views(lines@),
            forall|j: int|
                0 <= j < i ==> spec_line_outcome(image@, offset, #[trigger] lviews[j]) is Ok,
            c@ == spec_run(old(c)@, spec_samples(image@, offset, lviews.take(i as int))),
        decreases lines@.len() - i,
    {
        let ghost pre = c@;
        match process_line(c, image, offset, &lines[i]) {
            Ok(()) => {
                proof {
                    assert(lviews[i as int] == lines@[i as int]@);
                    let s = spec_line_outcome(image@, offset, lviews[i as int])->Ok_0;
                    assert(spec_samples(image@, offset, lviews.take(i as int + 1)) =~= spec_samples(
                        image@,
                        offset,
                        lviews.take(i as int),
                    ).push(s));
                    crate::classify::lemma_run_snoc(
                        old(c)@,
                        spec_samples(image@, offset, lviews.take(i as int)),
                        s,
                    );
                }
                i += 1;
            },
            Err(e) => {
                proof {
                    assert(lviews[i as int] == lines@[i as int]@);
                    assert(failed_at(image@, offset, lviews, old(c)@, c@, e, i as int));
                }
                return Err(e);
            },
        }
    }
    proof {
        assert(lviews.take(lines@.len() as int) =~= lviews);
    }
    Ok(())
}

/// Analyze a whole trace set: feed every line, in recorded order, to a fresh
/// classifier and report the branches whose observed behavior is invariant.
pub fn analyze(image: &Vec<u8>, offset: u64, lines: &Vec<Vec<u8>>) -> (r: Result<
    Vec<Vec<u8>>,
    AnalysisError,
>)
    ensures
        r matches Ok(rep) ==> lines_ok(image@, offset, line_views(lines@)) && ({
            let end = spec_run(init_state(), spec_samples(image@, offset, line_views(lines@)));
            rep@.map_values(|l: Vec<u8>| l@) == report_of(end.order, end.recs)
        }),
        r matches Err(e) ==> exists|i: int, s1: StateV|
            failed_at(image@, offset, line_views(lines@), init_state(), s1, e, i),
        lines_ok(image@, offset, line_views(lines@)) ==> r is Ok,
{
    let mut c = Classifier::new();
    match process_lines(&mut c, image, offset, lines) {
        Ok(()) => Ok(report_lines(&c)),
        Err(e) => {
            proof {
                let i = choose|i: int|
                    failed_at(image@, offset, line_views(lines@), init_state(), c@, e, i);
                assert(failed_at(image@, offset, line_views(lines@), init_state(), c@, e, i));
            }
            Err(e)
        },
    }
}

} // verus!
