use bf_rust::error::Error;
use bf_rust::instruction::{Instruction, LinkedInstructions, UnlinkedInstructions};
use bf_rust::interpret::Interpreter;
use bf_rust::optimise::Optimisations;

const FUEL: u64 = 100_000_000;

fn lower_link(src: &[u8]) -> LinkedInstructions {
    UnlinkedInstructions::from_text(src).link().expect("program should link")
}

fn run_program(insts: &LinkedInstructions, input: &[u8]) -> (Result<bool, Error>, Vec<u8>) {
    let mut interp = Interpreter::new(insts);
    let r = interp.run(input, FUEL);
    (r, interp.output().clone())
}

const HELLO: &[u8] =
    b"++++++++[>++++[>++>+++>+++>+<<<<-]>+>+>->>+[<]<-]>>.>---.+++++++..+++.>>.<-.<.+++.------.--------.>>+.>++.";

#[test]
fn hello_world_unoptimised() {
    let linked = lower_link(HELLO);
    let (r, out) = run_program(&linked, b"");
    assert_eq!(r, Ok(true));
    assert_eq!(out, b"Hello World!\n".to_vec());
    assert_eq!(out.len(), 13);
}

#[test]
fn hello_world_all_passes() {
    let linked = UnlinkedInstructions::from_text(HELLO)
        .optimise(&Optimisations::all())
        .expect("should optimise");
    let (r, out) = run_program(&linked, b"");
    assert_eq!(r, Ok(true));
    assert_eq!(out, b"Hello World!\n".to_vec());
}

#[test]
fn hello_world_each_single_pass_is_equivalent() {
    let reference = run_program(&lower_link(HELLO), b"").1;
    for opts in [
        Optimisations { combine_clears: true, ..Optimisations::empty() },
        Optimisations { group_instructions: true, ..Optimisations::empty() },
        Optimisations { reorder_instructions: true, ..Optimisations::empty() },
        Optimisations { combine_multiply_loops: true, ..Optimisations::empty() },
        Optimisations { combine_clears: true, group_instructions: true, ..Optimisations::empty() },
        Optimisations {
            group_instructions: true,
            reorder_instructions: true,
            ..Optimisations::empty()
        },
    ] {
        let linked = UnlinkedInstructions::from_text(HELLO)
            .optimise(&opts)
            .expect("should optimise");
        let (r, out) = run_program(&linked, b"");
        assert_eq!(r, Ok(true));
        assert_eq!(out, reference);
    }
}

#[test]
fn cat_until_eof() {
    // `,[.,]` echoes its input; the final `,` meets end of input and the
    // interpreter reports it
    let linked = lower_link(b",[.,]");
    let (r, out) = run_program(&linked, b"abc\n");
    assert_eq!(r, Err(Error::CouldNotReadInput));
    assert_eq!(out, b"abc\n".to_vec());
}

#[test]
fn cat_empty_input_fails_immediately() {
    let linked = lower_link(b",[.,]");
    let (r, out) = run_program(&linked, b"");
    assert_eq!(r, Err(Error::CouldNotReadInput));
    assert!(out.is_empty());
}

#[test]
fn cat_optimised_matches_unoptimised() {
    let linked = UnlinkedInstructions::from_text(b",[.,]")
        .optimise(&Optimisations::all())
        .expect("should optimise");
    let (r, out) = run_program(&linked, b"abc\n");
    assert_eq!(r, Err(Error::CouldNotReadInput));
    assert_eq!(out, b"abc\n".to_vec());
}

#[test]
fn clear_loop_zeroes_cell() {
    let linked = lower_link(b"+++[-]");
    let mut interp = Interpreter::new(&linked);
    assert_eq!(interp.run(b"", FUEL), Ok(true));
    assert_eq!(interp.cell(0), 0);
}

#[test]
fn clear_loop_fuses_to_set() {
    let linked = lower_link(b"+++[-]");
    let after = linked.combine_clears();
    assert_eq!(
        after.0,
        vec![
            Instruction::Incr { amount: 1, offset: 0 },
            Instruction::Incr { amount: 1, offset: 0 },
            Instruction::Incr { amount: 1, offset: 0 },
            Instruction::SetCell { amount: 0, offset: 0 },
        ]
    );
}

#[test]
fn clear_loop_all_passes_single_set() {
    let linked = UnlinkedInstructions::from_text(b"+++[-]")
        .optimise(&Optimisations::all())
        .expect("should optimise");
    assert_eq!(linked.0, vec![Instruction::SetCell { amount: 0, offset: 0 }]);
}

#[test]
fn clear_loop_plus_body_also_fuses() {
    // `[+]` also reaches zero under wrapping arithmetic
    let linked = UnlinkedInstructions::from_text(b"+++[+]")
        .optimise(&Optimisations::all())
        .expect("should optimise");
    assert_eq!(linked.0, vec![Instruction::SetCell { amount: 0, offset: 0 }]);
}

#[test]
fn multiply_loop_recognised() {
    let linked = UnlinkedInstructions::from_text(b"++[->+++>+<<]")
        .optimise(&Optimisations::all())
        .expect("should optimise");
    assert_eq!(
        linked.0,
        vec![
            Instruction::Incr { amount: 2, offset: 0 },
            Instruction::Mul { amount: 3, offset: 1 },
            Instruction::Mul { amount: 1, offset: 2 },
            Instruction::SetCell { amount: 0, offset: 0 },
        ]
    );
    let mut interp = Interpreter::new(&linked);
    assert_eq!(interp.run(b"", FUEL), Ok(true));
    assert_eq!(interp.cell(0), 0);
    assert_eq!(interp.cell(1), 6);
    assert_eq!(interp.cell(2), 2);
}

#[test]
fn multiply_loop_matches_unoptimised_tape() {
    let linked = lower_link(b"++[->+++>+<<]");
    let mut interp = Interpreter::new(&linked);
    assert_eq!(interp.run(b"", FUEL), Ok(true));
    assert_eq!(interp.cell(0), 0);
    assert_eq!(interp.cell(1), 6);
    assert_eq!(interp.cell(2), 2);
}

#[test]
fn pointer_hoisting() {
    let linked = UnlinkedInstructions::from_text(b"+>++>+++")
        .optimise(&Optimisations::all())
        .expect("should optimise");
    assert_eq!(
        linked.0,
        vec![
            Instruction::Incr { amount: 1, offset: 0 },
            Instruction::Incr { amount: 2, offset: 1 },
            Instruction::Incr { amount: 3, offset: 2 },
            Instruction::IncrDp { amount: 2 },
        ]
    );
}

#[test]
fn unbalanced_missing_closing() {
    let r = UnlinkedInstructions::from_text(b"[[]").link();
    assert!(matches!(r, Err(Error::MissingClosingBracket(0))));
}

#[test]
fn unbalanced_missing_opening() {
    let r = UnlinkedInstructions::from_text(b"]").link();
    assert!(matches!(r, Err(Error::MissingOpeningBracket(0))));
}

#[test]
fn unbalanced_optimise_reports_link_error() {
    let r = UnlinkedInstructions::from_text(b"[[]").optimise(&Optimisations::all());
    assert!(matches!(r, Err(Error::MissingClosingBracket(0))));
}

#[test]
fn pointer_wraps_around_the_ring() {
    // one step left from the start lands on the last cell of the ring
    let linked = lower_link(b"<+");
    let mut interp = Interpreter::new(&linked);
    assert_eq!(interp.run(b"", FUEL), Ok(true));
    assert_eq!(interp.cell(65535), 1);
    assert_eq!(interp.cell(0), 0);
}

#[test]
fn cell_wraps_at_eight_bits() {
    // 256 pluses wrap back to zero; `.` writes the wrapped value
    let mut src = vec![b'+'; 256];
    src.push(b'.');
    let linked = lower_link(&src);
    let (r, out) = run_program(&linked, b"");
    assert_eq!(r, Ok(true));
    assert_eq!(out, vec![0u8]);
}

#[test]
fn step_budget_runs_out_on_infinite_loop() {
    // `+[]` never terminates: the budget is exhausted instead
    let linked = lower_link(b"+[]");
    let mut interp = Interpreter::new(&linked);
    assert_eq!(interp.run(b"", 1000), Ok(false));
}

#[test]
fn grouping_merges_runs() {
    let linked = lower_link(b"++++");
    let grouped = linked.group_instructions();
    assert_eq!(grouped.0, vec![Instruction::Incr { amount: 4, offset: 0 }]);
}

#[test]
fn grouping_drops_cancelling_moves() {
    // `><` cancels out entirely and the no-op move is dropped
    let linked = lower_link(b"><");
    let grouped = linked.group_instructions();
    assert_eq!(grouped.0, Vec::<Instruction>::new());
}

#[test]
fn grouping_keeps_set_zero() {
    // an explicit set-to-zero is not a no-op and must survive grouping
    let linked = UnlinkedInstructions::from_text(b"+++[-]")
        .optimise(&Optimisations { combine_clears: true, group_instructions: true, ..Optimisations::empty() })
        .expect("should optimise");
    assert_eq!(linked.0, vec![Instruction::SetCell { amount: 0, offset: 0 }]);
}

#[test]
fn transformer_one_shot_pipeline() {
    let linked = bf_rust::transformers::Transformer::transform(b"+++[-]")
        .expect("should transform");
    assert_eq!(linked.0, vec![Instruction::SetCell { amount: 0, offset: 0 }]);
}

#[test]
fn transformer_reports_link_error() {
    let r = bf_rust::transformers::Transformer::transform(b"]");
    assert!(matches!(r, Err(Error::MissingOpeningBracket(0))));
}

#[test]
fn empty_program_runs_cleanly() {
    let linked = lower_link(b"");
    let (r, out) = run_program(&linked, b"");
    assert_eq!(r, Ok(true));
    assert!(out.is_empty());
    assert!(linked.0.is_empty());
}

#[test]
fn comment_only_program_is_empty() {
    let linked = UnlinkedInstructions::from_text(b"hello world! no symbols here")
        .optimise(&Optimisations::all())
        .expect("should optimise");
    assert!(linked.0.is_empty());
}

#[test]
fn optimised_bytecode_round_trips_and_runs() {
    let linked = UnlinkedInstructions::from_text(HELLO)
        .optimise(&Optimisations::all())
        .expect("should optimise");
    let bytes = linked.to_bytecode();
    let back = LinkedInstructions::from_bytecode(&bytes).expect("should decode");
    let (r, out) = run_program(&back, b"");
    assert_eq!(r, Ok(true));
    assert_eq!(out, b"Hello World!\n".to_vec());
}
