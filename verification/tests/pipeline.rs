//! End-to-end tests: real ARM and Thumb bytes decoded through capstone, fed
//! through the full pipeline from trace lines to the report.

use jxmpscare::classify::Classifier;
use jxmpscare::report::report_lines;
use jxmpscare::trace::{analyze, process_lines};
use jxmpscare::AnalysisError;

/// An image mapped at 0x1000: ARM `bne 0x2000` at 0x1000, ARM `b 0x2000` at
/// 0x1004, Thumb `bne 0x101c` at 0x1010, ARM `mov r0, r0` everywhere else.
fn make_image() -> Vec<u8> {
    let mut image = Vec::new();
    for _ in 0..(0x1100 / 4) {
        // mov r0, r0 (ARM nop), little endian
        image.extend_from_slice(&[0x00, 0x00, 0xa0, 0xe1]);
    }
    // bne 0x2000 decoded at 0x1000: cond NE, offset (0x2000 - 0x1000 - 8) / 4
    image[0..4].copy_from_slice(&[0xfe, 0x03, 0x00, 0x1a]);
    // b 0x2000 decoded at 0x1004: unconditional
    image[4..8].copy_from_slice(&[0xfd, 0x03, 0x00, 0xea]);
    // Thumb bne 0x101c decoded at 0x1010: 0x1010 + 4 + 4 * 2
    image[0x10..0x12].copy_from_slice(&[0x04, 0xd1]);
    image
}

fn lines(strs: &[&str]) -> Vec<Vec<u8>> {
    strs.iter().map(|s| s.as_bytes().to_vec()).collect()
}

#[test]
fn arm_branch_always_taken() {
    let image = make_image();
    let report = analyze(&image, 0x1000, &lines(&["0x1000", "0x2000"])).unwrap();
    assert_eq!(report.len(), 1);
    assert_eq!(report[0], b"0X1000 CONDITION_NE ALWAYS_TAKEN".to_vec());
}

#[test]
fn arm_branch_never_taken() {
    let image = make_image();
    let report = analyze(&image, 0x1000, &lines(&["0x1000", "0x1004", "0x2000"])).unwrap();
    assert_eq!(report.len(), 1);
    assert_eq!(report[0], b"0X1000 CONDITION_NE NEVER_TAKEN".to_vec());
}

#[test]
fn arm_branch_mixed_is_not_reported() {
    let image = make_image();
    let report = analyze(
        &image,
        0x1000,
        &lines(&["0x1000", "0x2000", "0x1000", "0x100c"]),
    )
    .unwrap();
    assert!(report.is_empty());
}

#[test]
fn unconditional_branch_gets_no_record() {
    let image = make_image();
    let report = analyze(&image, 0x1000, &lines(&["0x1004", "0x2000"])).unwrap();
    assert!(report.is_empty());
}

#[test]
fn thumb_branch_resolves_through_tag_bit() {
    let image = make_image();
    // 0x1011 has the low bit set: Thumb mode, effective address 0x1010
    let report = analyze(&image, 0x1000, &lines(&["0x1011", "0x101c"])).unwrap();
    assert_eq!(report.len(), 1);
    assert_eq!(report[0], b"0X1010 CONDITION_NE ALWAYS_TAKEN".to_vec());
}

#[test]
fn trailing_branch_stays_unresolved() {
    let image = make_image();
    let report = analyze(&image, 0x1000, &lines(&["0x1000"])).unwrap();
    assert!(report.is_empty());
}

#[test]
fn pending_branch_resolves_across_traces() {
    let image = make_image();
    let mut c = Classifier::new();
    process_lines(&mut c, &image, 0x1000, &lines(&["0x1000"])).unwrap();
    process_lines(&mut c, &image, 0x1000, &lines(&["0x2000"])).unwrap();
    let report = report_lines(&c);
    assert_eq!(report.len(), 1);
    assert_eq!(report[0], b"0X1000 CONDITION_NE ALWAYS_TAKEN".to_vec());
}

#[test]
fn malformed_address_is_a_parse_error() {
    let image = make_image();
    assert_eq!(
        analyze(&image, 0x1000, &lines(&["zzz"])).unwrap_err(),
        AnalysisError::Parse
    );
}

#[test]
fn address_below_base_is_a_range_error() {
    let image = make_image();
    assert_eq!(
        analyze(&image, 0x1000, &lines(&["0x100"])).unwrap_err(),
        AnalysisError::Range
    );
}

#[test]
fn address_past_image_is_a_range_error() {
    let image = make_image();
    assert_eq!(
        analyze(&image, 0x1000, &lines(&["0x9000"])).unwrap_err(),
        AnalysisError::Range
    );
}

#[test]
fn truncated_instruction_is_a_decode_error() {
    let image = make_image();
    // effective address 0x20fe leaves two bytes, too few for an ARM insn
    assert_eq!(
        analyze(&image, 0x1000, &lines(&["0x20fe"])).unwrap_err(),
        AnalysisError::Decode
    );
}

#[test]
fn error_aborts_without_a_report() {
    let image = make_image();
    // the first line classifies a branch, the second is malformed
    let r = analyze(&image, 0x1000, &lines(&["0x1000", "bad line"]));
    assert_eq!(r.unwrap_err(), AnalysisError::Parse);
}

#[test]
fn doubled_trace_set_yields_the_same_report() {
    let image = make_image();
    let once = analyze(&image, 0x1000, &lines(&["0x1000", "0x2000"])).unwrap();
    let twice = analyze(
        &image,
        0x1000,
        &lines(&["0x1000", "0x2000", "0x1000", "0x2000"]),
    )
    .unwrap();
    assert_eq!(once, twice);
}
