use bf_rust::error::Error;
use bf_rust::instruction::{
    Combine, Instruction, LinkedInstructions, Position, UnlinkedInstructions,
};
use bf_rust::link::link;
use bf_rust::lower::transpile;
use bf_rust::optimise::Optimisations;

#[test]
fn lowering_filters_comments() {
    let unlinked = UnlinkedInstructions::from_text(b"a+ b- c> d< e[ f] g, h. #!");
    assert_eq!(
        unlinked.0,
        vec![
            Instruction::Incr { amount: 1, offset: 0 },
            Instruction::Incr { amount: -1, offset: 0 },
            Instruction::IncrDp { amount: 1 },
            Instruction::IncrDp { amount: -1 },
            Instruction::BranchIfZero { destination: 0 },
            Instruction::BranchIfNotZero { destination: 0 },
            Instruction::Read,
            Instruction::Write,
        ]
    );
}

#[test]
fn lowering_aliases_agree() {
    let a = UnlinkedInstructions::from_text(b"+-<>");
    let b = UnlinkedInstructions::transpile(b"+-<>");
    let c = transpile(b"+-<>");
    assert_eq!(a.0, b.0);
    assert_eq!(b.0, c.0);
}

#[test]
fn linking_writes_both_destinations() {
    let linked = UnlinkedInstructions::from_text(b"+[>[-]<]").link().expect("should link");
    // outer pair at 1 and 7, inner pair at 3 and 5
    assert_eq!(linked.0[1], Instruction::BranchIfZero { destination: 7 });
    assert_eq!(linked.0[7], Instruction::BranchIfNotZero { destination: 1 });
    assert_eq!(linked.0[3], Instruction::BranchIfZero { destination: 5 });
    assert_eq!(linked.0[5], Instruction::BranchIfNotZero { destination: 3 });
}

#[test]
fn free_link_matches_method() {
    let a = UnlinkedInstructions::from_text(b"[[]]").link().expect("should link");
    let b = link(UnlinkedInstructions::from_text(b"[[]]")).expect("should link");
    assert!(a == b);
}

#[test]
fn link_error_positions() {
    assert!(matches!(
        link(UnlinkedInstructions::from_text(b"++]")),
        Err(Error::MissingOpeningBracket(2))
    ));
    // the outermost unmatched `[` is reported
    assert!(matches!(
        link(UnlinkedInstructions::from_text(b"+[[]")),
        Err(Error::MissingClosingBracket(1))
    ));
}

#[test]
fn bytecode_round_trip() {
    let linked = UnlinkedInstructions::from_text(b"+-<>[.,]").link().expect("should link");
    let bytes = linked.to_bytecode();
    let back = LinkedInstructions::from_bytecode(&bytes).expect("should decode");
    assert!(linked == back);
}

#[test]
fn bytecode_round_trip_synthetic_ops() {
    let linked = LinkedInstructions(vec![
        Instruction::SetCell { amount: -7, offset: -3 },
        Instruction::Mul { amount: 5, offset: 1 },
        Instruction::IncrDp { amount: -9000 },
        Instruction::Incr { amount: -128, offset: i64::MIN },
        Instruction::BranchIfZero { destination: u64::MAX },
    ]);
    let bytes = linked.to_bytecode();
    let back = LinkedInstructions::from_bytecode(&bytes).expect("should decode");
    assert!(linked == back);
}

#[test]
fn bytecode_layout_is_big_endian() {
    let inst = Instruction::IncrDp { amount: 258 };
    assert_eq!(inst.to_bytecode(), vec![0, 0, 0, 0, 0, 0, 0, 1, 2]);
    let inst = Instruction::Incr { amount: -1, offset: 1 };
    assert_eq!(inst.to_bytecode(), vec![1, 255, 0, 0, 0, 0, 0, 0, 0, 1]);
    assert_eq!(Instruction::Read.to_bytecode(), vec![4]);
    assert_eq!(Instruction::Write.to_bytecode(), vec![5]);
}

#[test]
fn bytecode_unknown_opcode_is_an_error() {
    assert!(matches!(
        LinkedInstructions::from_bytecode(&[9]),
        Err(Error::UnknownBytecodeOpcode)
    ));
}

#[test]
fn bytecode_truncated_payload_is_an_error() {
    assert!(matches!(
        LinkedInstructions::from_bytecode(&[0, 1, 2]),
        Err(Error::TruncatedBytecode)
    ));
    assert!(matches!(
        LinkedInstructions::from_bytecode(&[6, 1]),
        Err(Error::TruncatedBytecode)
    ));
}

#[test]
fn read_bytecode_yields_unlinked() {
    let linked = UnlinkedInstructions::from_text(b"[-]").link().expect("should link");
    let bytes = linked.to_bytecode();
    let unlinked = bf_rust::bytecode::read_bytecode(&bytes).expect("should decode");
    // the decoded instructions carry the stored destinations and relink
    let relinked = unlinked.link().expect("should relink");
    assert!(relinked == linked);
}

#[test]
fn from_strings_all() {
    let opts = Optimisations::from_strings(&["all".to_owned()]);
    assert!(opts.combine_clears);
    assert!(opts.group_instructions);
    assert!(opts.reorder_instructions);
    assert!(opts.combine_multiply_loops);
    assert!(opts.combine_scan_loops);
}

#[test]
fn from_strings_selects_named_passes() {
    let opts = Optimisations::from_strings(&[
        "combine-clears".to_owned(),
        "group-instructions".to_owned(),
    ]);
    assert!(opts.combine_clears);
    assert!(opts.group_instructions);
    assert!(!opts.reorder_instructions);
    assert!(!opts.combine_multiply_loops);
    assert!(!opts.combine_scan_loops);
}

#[test]
fn from_strings_ignores_unknown() {
    let opts = Optimisations::from_strings(&["frobnicate".to_owned()]);
    assert_eq!(opts, Optimisations::empty());
}

#[test]
fn position_combine_merges_adjacent() {
    let a = Some(Position::new(0, 3));
    let b = Some(Position::new(4, 7));
    let merged = a.combine(b);
    assert_eq!(merged, Some(Position::new(0, 7)));
}

#[test]
fn position_combine_overlapping() {
    // ranges are merged from the first start to the second end
    let a = Some(Position::new(2, 9));
    let b = Some(Position::new(5, 6));
    assert_eq!(a.combine(b), Some(Position::new(2, 6)));
}

#[test]
fn position_combine_disjoint_keeps_second_argument() {
    let a = Some(Position::new(0, 1));
    let b = Some(Position::new(5, 6));
    assert_eq!(a.combine(b), Some(Position::new(5, 6)));
    // the later-starting range may also be the first argument; the second
    // argument still wins
    assert_eq!(b.combine(a), Some(Position::new(0, 1)));
}

#[test]
fn position_combine_none() {
    let a: Option<Position> = None;
    let b = Some(Position::new(1, 2));
    assert_eq!(a.combine(b), None);
    assert_eq!(b.combine(a), None);
}
