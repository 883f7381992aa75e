//! Tests of the verified logic: hexadecimal handling, mode resolution,
//! instruction classification, and the classifier state machine.

use jxmpscare::classify::{Classifier, Sample};
use jxmpscare::hex::{parse_address, parse_hex_u64, to_hex_upper};
use jxmpscare::insn::{classify_insn, CondBranch, DecodedInsn, ARM_BRANCH_INSN_ID};
use jxmpscare::mode::{image_index, resolve_mode, Mode};
use jxmpscare::report::report_lines;

fn branch_sample(addr: u64, condition: &[u8], target: u64) -> Sample {
    Sample {
        addr,
        branch: Some(CondBranch { condition: condition.to_vec(), target }),
    }
}

fn plain_sample(addr: u64) -> Sample {
    Sample { addr, branch: None }
}

#[test]
fn mode_resolution() {
    assert_eq!(resolve_mode(0x1001), (Mode::Thumb, 0x1000));
    assert_eq!(resolve_mode(0x1000), (Mode::Arm, 0x1000));
    assert_eq!(resolve_mode(1), (Mode::Thumb, 0));
    assert_eq!(resolve_mode(0), (Mode::Arm, 0));
}

#[test]
fn image_index_bounds() {
    assert_eq!(image_index(0x1000, 0x1000, 0x100), Some(0));
    assert_eq!(image_index(0x10ff, 0x1000, 0x100), Some(0xff));
    assert_eq!(image_index(0x1100, 0x1000, 0x100), None);
    assert_eq!(image_index(0xfff, 0x1000, 0x100), None);
}

#[test]
fn hex_parsing() {
    assert_eq!(parse_hex_u64(b"1000"), Some(0x1000));
    assert_eq!(parse_hex_u64(b"fF"), Some(0xff));
    assert_eq!(parse_hex_u64(b"0"), Some(0));
    assert_eq!(parse_hex_u64(b"ffffffffffffffff"), Some(u64::MAX));
    assert_eq!(parse_hex_u64(b""), None);
    assert_eq!(parse_hex_u64(b"12g4"), None);
    assert_eq!(parse_hex_u64(b"10000000000000000"), None);
}

#[test]
fn address_parsing_strips_prefixes() {
    assert_eq!(parse_address(b"0x1000"), Some(0x1000));
    assert_eq!(parse_address(b"1000"), Some(0x1000));
    assert_eq!(parse_address(b"0x0x10"), Some(0x10));
    assert_eq!(parse_address(b"0x"), None);
    assert_eq!(parse_address(b""), None);
}

#[test]
fn hex_formatting() {
    assert_eq!(to_hex_upper(0), b"0".to_vec());
    assert_eq!(to_hex_upper(0x1A2B), b"1A2B".to_vec());
    assert_eq!(to_hex_upper(0x1000), b"1000".to_vec());
    assert_eq!(to_hex_upper(u64::MAX), b"FFFFFFFFFFFFFFFF".to_vec());
}

#[test]
fn classify_conditional_branch() {
    let d = DecodedInsn {
        id: ARM_BRANCH_INSN_ID,
        mnemonic: b"bne".to_vec(),
        operands: b"#0x2000".to_vec(),
    };
    let cb = classify_insn(&d).expect("conditional branch expected");
    assert_eq!(cb.condition, b"ne".to_vec());
    assert_eq!(cb.target, 0x2000);
}

#[test]
fn classify_trims_target_text() {
    let d = DecodedInsn {
        id: ARM_BRANCH_INSN_ID,
        mnemonic: b"beq".to_vec(),
        operands: b"#0x30 ".to_vec(),
    };
    let cb = classify_insn(&d).expect("conditional branch expected");
    assert_eq!(cb.condition, b"eq".to_vec());
    assert_eq!(cb.target, 0x30);
}

#[test]
fn classify_rejects_non_branches() {
    let d = DecodedInsn { id: 7, mnemonic: b"bne".to_vec(), operands: b"#0x2000".to_vec() };
    assert!(classify_insn(&d).is_none());
}

#[test]
fn classify_rejects_unconditional_forms() {
    let plain = DecodedInsn {
        id: ARM_BRANCH_INSN_ID,
        mnemonic: b"b".to_vec(),
        operands: b"#0x2000".to_vec(),
    };
    assert!(classify_insn(&plain).is_none());
    let blx = DecodedInsn {
        id: ARM_BRANCH_INSN_ID,
        mnemonic: b"blx".to_vec(),
        operands: b"#0x2000".to_vec(),
    };
    assert!(classify_insn(&blx).is_none());
    let wide = DecodedInsn {
        id: ARM_BRANCH_INSN_ID,
        mnemonic: b"b.w".to_vec(),
        operands: b"#0x2000".to_vec(),
    };
    assert!(classify_insn(&wide).is_none());
}

#[test]
fn classify_needs_static_target() {
    let no_marker = DecodedInsn {
        id: ARM_BRANCH_INSN_ID,
        mnemonic: b"bne".to_vec(),
        operands: b"r3".to_vec(),
    };
    assert!(classify_insn(&no_marker).is_none());
    let bad_digits = DecodedInsn {
        id: ARM_BRANCH_INSN_ID,
        mnemonic: b"bne".to_vec(),
        operands: b"#0xzz".to_vec(),
    };
    assert!(classify_insn(&bad_digits).is_none());
}

#[test]
fn scenario_taken_branch() {
    let mut c = Classifier::new();
    c.step(&branch_sample(0x1000, b"eq", 0x2000));
    c.step(&plain_sample(0x2000));
    let j = c.map.get(0x1000).expect("record expected");
    assert!(j.taken);
    assert!(!j.not_taken);
    let report = report_lines(&c);
    assert_eq!(report.len(), 1);
    assert_eq!(report[0], b"0X1000 CONDITION_EQ ALWAYS_TAKEN".to_vec());
}

#[test]
fn scenario_never_taken_branch() {
    let mut c = Classifier::new();
    c.step(&branch_sample(0x1000, b"eq", 0x2000));
    c.step(&plain_sample(0x1004));
    let j = c.map.get(0x1000).expect("record expected");
    assert!(!j.taken);
    assert!(j.not_taken);
    let report = report_lines(&c);
    assert_eq!(report.len(), 1);
    assert_eq!(report[0], b"0X1000 CONDITION_EQ NEVER_TAKEN".to_vec());
}

#[test]
fn scenario_mixed_branch_is_not_reported() {
    let mut c = Classifier::new();
    // one execution reaches the target, another falls through
    c.process(&vec![
        branch_sample(0x1000, b"eq", 0x2000),
        plain_sample(0x2000),
    ]);
    c.process(&vec![
        branch_sample(0x1000, b"eq", 0x2000),
        plain_sample(0x1004),
    ]);
    let j = c.map.get(0x1000).expect("record expected");
    assert!(j.taken);
    assert!(j.not_taken);
    assert!(report_lines(&c).is_empty());
}

#[test]
fn scenario_trailing_branch_is_not_reported() {
    let mut c = Classifier::new();
    c.step(&branch_sample(0x1000, b"eq", 0x2000));
    let j = c.map.get(0x1000).expect("record expected");
    assert!(!j.taken);
    assert!(!j.not_taken);
    assert!(report_lines(&c).is_empty());
}

#[test]
fn scenario_no_record_without_conditional_branch() {
    let mut c = Classifier::new();
    c.process(&vec![
        plain_sample(0x1000),
        plain_sample(0x1000),
        plain_sample(0x1004),
    ]);
    assert!(c.map.get(0x1000).is_none());
    assert!(c.map.get(0x1004).is_none());
    assert!(report_lines(&c).is_empty());
}

#[test]
fn evidence_is_monotonic() {
    let mut c = Classifier::new();
    c.process(&vec![
        branch_sample(0x1000, b"eq", 0x2000),
        plain_sample(0x2000),
    ]);
    assert!(c.map.get(0x1000).unwrap().taken);
    // later contrary evidence adds the other flag but resets nothing
    c.process(&vec![
        branch_sample(0x1000, b"eq", 0x2000),
        plain_sample(0x1004),
    ]);
    let j = c.map.get(0x1000).unwrap();
    assert!(j.taken);
    assert!(j.not_taken);
}

#[test]
fn renewed_record_keeps_evidence() {
    let mut c = Classifier::new();
    c.process(&vec![
        branch_sample(0x1000, b"eq", 0x2000),
        plain_sample(0x2000),
    ]);
    // the same address decodes again with another target: condition and
    // target are renewed, the gathered evidence stays
    c.step(&branch_sample(0x1000, b"ne", 0x3000));
    let j = c.map.get(0x1000).unwrap();
    assert!(j.taken);
    assert!(!j.not_taken);
    assert_eq!(j.condition, b"ne".to_vec());
    assert_eq!(j.target, 0x3000);
}

#[test]
fn pending_branch_crosses_trace_boundaries() {
    let mut c = Classifier::new();
    c.process(&vec![branch_sample(0x1000, b"eq", 0x2000)]);
    // the next trace's first address resolves the trailing branch
    c.process(&vec![plain_sample(0x2000)]);
    let j = c.map.get(0x1000).unwrap();
    assert!(j.taken);
}

#[test]
fn reprocessing_is_idempotent() {
    let samples = vec![
        branch_sample(0x1000, b"eq", 0x2000),
        plain_sample(0x2000),
        branch_sample(0x1008, b"gt", 0x3000),
        plain_sample(0x100c),
        branch_sample(0x1010, b"lt", 0x4000),
    ];
    let mut c = Classifier::new();
    c.process(&samples);
    let first: Vec<(u64, bool, bool, Vec<u8>, u64)> = c
        .map
        .entries
        .iter()
        .map(|(k, j)| (*k, j.taken, j.not_taken, j.condition.clone(), j.target))
        .collect();
    let first_report = report_lines(&c);
    // a second pass over the very same trace set, started with no pending
    // branch as every pass is
    c.pending = None;
    c.process(&samples);
    let second: Vec<(u64, bool, bool, Vec<u8>, u64)> = c
        .map
        .entries
        .iter()
        .map(|(k, j)| (*k, j.taken, j.not_taken, j.condition.clone(), j.target))
        .collect();
    assert_eq!(first, second);
    assert_eq!(first_report, report_lines(&c));
}

#[test]
fn report_order_follows_first_record() {
    let mut c = Classifier::new();
    c.process(&vec![
        branch_sample(0x2000, b"eq", 0x3000),
        plain_sample(0x3000),
        branch_sample(0x1000, b"ne", 0x2000),
        plain_sample(0x1004),
    ]);
    let report = report_lines(&c);
    assert_eq!(report.len(), 2);
    assert_eq!(report[0], b"0X2000 CONDITION_EQ ALWAYS_TAKEN".to_vec());
    assert_eq!(report[1], b"0X1000 CONDITION_NE NEVER_TAKEN".to_vec());
}

#[test]
fn report_upper_cases_condition() {
    let mut c = Classifier::new();
    c.step(&branch_sample(0xdead, b"le", 0x2000));
    c.step(&plain_sample(0x2000));
    let report = report_lines(&c);
    assert_eq!(report[0], b"0XDEAD CONDITION_LE ALWAYS_TAKEN".to_vec());
}

#[test]
fn concatenated_reprocessing_is_idempotent() {
    // the trace ends with its last branch resolved, so nothing is pending
    let samples = vec![
        branch_sample(0x1000, b"eq", 0x2000),
        plain_sample(0x2000),
        branch_sample(0x1008, b"gt", 0x3000),
        plain_sample(0x100c),
    ];
    let mut once = Classifier::new();
    once.process(&samples);
    let mut twice = Classifier::new();
    twice.process(&samples);
    twice.process(&samples);
    let snapshot = |c: &Classifier| -> Vec<(u64, bool, bool, Vec<u8>, u64)> {
        c.map
            .entries
            .iter()
            .map(|(k, j)| (*k, j.taken, j.not_taken, j.condition.clone(), j.target))
            .collect()
    };
    assert_eq!(snapshot(&once), snapshot(&twice));
    assert_eq!(report_lines(&once), report_lines(&twice));
}

#[test]
fn concatenation_resolves_a_trailing_branch() {
    // a trace ending in an unresolved conditional branch is the one shape a
    // doubled run treats differently: the copy's first address resolves it
    let samples = vec![branch_sample(0x1000, b"eq", 0x2000)];
    let mut once = Classifier::new();
    once.process(&samples);
    assert!(report_lines(&once).is_empty());
    let mut twice = Classifier::new();
    twice.process(&samples);
    twice.process(&samples);
    let j = twice.map.get(0x1000).unwrap();
    assert!(!j.taken);
    assert!(j.not_taken);
    assert_eq!(
        report_lines(&twice),
        vec![b"0X1000 CONDITION_EQ NEVER_TAKEN".to_vec()]
    );
}
