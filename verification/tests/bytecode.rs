use bf_engine::error::{BfCompError, BfExecError, BfExecErrorTy};
use bf_engine::minibit::{prepare, tape_len, BTapeStream, Instr, WildArgs};
use bf_engine::state::{BfState, Reader};
use either::Either;

fn run_with(code: &[u8], input: &[u8], cells: usize) -> (Result<(), BfExecError>, Vec<u8>) {
    let stream = BTapeStream::from_bf(code).unwrap();
    let mut state = BfState::<u8>::zeroed(cells, Reader::new(input)).unwrap();
    let result = stream.run(&mut state);
    (result, state.output().to_vec())
}

#[test]
fn bytes_hold_instruction_and_operand() {
    assert_eq!(Instr::Inc.with(0), 0);
    assert_eq!(Instr::Dec.with(31), 63);
    assert_eq!(Instr::LStart.with(5), 4 * 32 + 5);
    assert_eq!(Instr::Zero.with(32), 6 * 32);
    assert_eq!(Instr::wild(WildArgs::Read), 224);
    assert_eq!(Instr::wild(WildArgs::Write), 225);
    assert_eq!(Instr::wild(WildArgs::IncPtrMany), 226);
    assert_eq!(Instr::wild(WildArgs::DecPtrMany), 227);
    assert_eq!(Instr::decode(0), (Instr::Inc, 0));
    assert_eq!(Instr::decode(63), (Instr::Dec, 31));
    assert_eq!(Instr::decode(64), (Instr::IncPtr, 0));
    assert_eq!(Instr::decode(100), (Instr::DecPtr, 4));
    assert_eq!(Instr::decode(133), (Instr::LStart, 5));
    assert_eq!(Instr::decode(160), (Instr::LEnd, 0));
    assert_eq!(Instr::decode(192), (Instr::Zero, 0));
    assert_eq!(Instr::decode(255), (Instr::Wild, 31));
    for b in 0..=255u8 {
        let (instr, operand) = Instr::decode(b);
        assert_eq!(instr.with(operand), b);
    }
    assert_eq!(WildArgs::from_wild(0), Some(WildArgs::Read));
    assert_eq!(WildArgs::from_wild(3), Some(WildArgs::DecPtrMany));
    assert_eq!(WildArgs::from_wild(4), None);
}

#[test]
fn rewrite_encodes_short_runs() {
    assert_eq!(
        BTapeStream::rewrite(b"+++ x --,.[-][>]<"),
        vec![
            Instr::Inc.with(2),
            Instr::Dec.with(1),
            Instr::wild(WildArgs::Read),
            Instr::wild(WildArgs::Write),
            Instr::Zero.with(0),
            Instr::LStart.with(0),
            Instr::IncPtr.with(0),
            Instr::LEnd.with(0),
            Instr::DecPtr.with(0),
        ]
    );
}

#[test]
fn rewrite_splits_long_cell_runs() {
    assert_eq!(
        BTapeStream::rewrite(&vec![b'+'; 70]),
        vec![Instr::Inc.with(31), Instr::Inc.with(31), Instr::Inc.with(5)]
    );
    assert_eq!(BTapeStream::rewrite(&vec![b'-'; 32]), vec![Instr::Dec.with(31)]);
    assert_eq!(BTapeStream::rewrite(&vec![b'>'; 31]), vec![Instr::IncPtr.with(30)]);
}

#[test]
fn rewrite_writes_long_head_moves_in_full() {
    let mut expect = vec![Instr::wild(WildArgs::IncPtrMany)];
    expect.extend_from_slice(&300u64.to_le_bytes());
    assert_eq!(BTapeStream::rewrite(&vec![b'>'; 300]), expect);
    let mut expect = vec![Instr::wild(WildArgs::DecPtrMany)];
    expect.extend_from_slice(&32u64.to_le_bytes());
    assert_eq!(BTapeStream::rewrite(&vec![b'<'; 32]), expect);
}

#[test]
fn insert_loop_fills_in_short_distances() {
    let stream = BTapeStream::from_bf(b"[>[.]<]").unwrap();
    assert_eq!(
        stream.0,
        vec![
            Instr::LStart.with(6),
            Instr::IncPtr.with(0),
            Instr::LStart.with(2),
            Instr::wild(WildArgs::Write),
            Instr::LEnd.with(2),
            Instr::DecPtr.with(0),
            Instr::LEnd.with(6),
        ]
    );
    assert!(stream.1.is_empty());
}

#[test]
fn insert_loop_maps_long_distances() {
    let mut code = vec![b'['];
    for _ in 0..20 {
        code.extend_from_slice(b"+>");
    }
    code.push(b']');
    let stream = BTapeStream::from_bf(&code).unwrap();
    assert_eq!(stream.0.len(), 42);
    assert_eq!(stream.0[0], Instr::LStart.with(0));
    assert_eq!(stream.0[41], Instr::LEnd.with(0));
    assert_eq!(stream.1.len(), 2);
    assert_eq!(stream.1[&0], 41);
    assert_eq!(stream.1[&41], 0);
}

#[test]
fn insert_loop_counts_operand_bytes() {
    let mut code = vec![b'['];
    code.extend_from_slice(&vec![b'>'; 1000]);
    code.extend_from_slice(&vec![b'<'; 1000]);
    code.extend_from_slice(b"-]");
    let stream = BTapeStream::from_bf(&code).unwrap();
    assert_eq!(stream.0.len(), 1 + 9 + 9 + 1 + 1);
    assert_eq!(stream.0[0], Instr::LStart.with(20));
    assert_eq!(stream.0[20], Instr::LEnd.with(20));
}

#[test]
fn insert_loop_skips_operand_bytes_that_look_like_loops() {
    let mut code = vec![b'>'; 133];
    code.push(b'+');
    let stream = BTapeStream::from_bf(&code).unwrap();
    assert_eq!(stream.0[1], 133);
    assert_eq!(stream.0.len(), 10);
    let mut raw = BTapeStream::rewrite(&code);
    assert_eq!(BTapeStream::insert_loop(&mut raw).unwrap().len(), 0);
}

#[test]
fn from_bf_rejects_unbalanced_loops() {
    assert_eq!(
        BTapeStream::from_bf(b"+]").err(),
        Some(BfCompError::LoopEndBeforeLoopStart)
    );
    assert_eq!(
        BTapeStream::from_bf(b"[[-]").err(),
        Some(BfCompError::LoopCountMismatch)
    );
    assert_eq!(
        BTapeStream::from_bf(b"[]][").err(),
        Some(BfCompError::LoopEndBeforeLoopStart)
    );
}

#[test]
fn bytecode_prints_a() {
    let (result, out) = run_with(b"++++[>++++[>++++<-]<-]>>+.", b"", 30_000);
    assert_eq!(result, Ok(()));
    assert_eq!(out, b"A");
}

#[test]
fn bytecode_reads_and_writes() {
    let (result, out) = run_with(b",+.", &[0x20], 30_000);
    assert_eq!(result, Ok(()));
    assert_eq!(out, vec![0x21]);
}

#[test]
fn bytecode_multiply_loop_prints_zero_digit() {
    let (result, out) = run_with(b"++++++[>++++++++<-]>.", b"", 30_000);
    assert_eq!(result, Ok(()));
    assert_eq!(out, vec![0x30]);
}

#[test]
fn bytecode_reports_bounds() {
    let (result, _) = run_with(b"<", b"", 30_000);
    assert_eq!(result, Err(BfExecError { source: BfExecErrorTy::Underflow, idx: 0 }));
    let (result, _) = run_with(b"+[>+]", b"", 30_000);
    assert_eq!(result.unwrap_err().source, BfExecErrorTy::Overflow);
}

#[test]
fn bytecode_takes_long_jumps_and_long_moves() {
    let mut code = b"+++".to_vec();
    code.push(b'[');
    code.extend_from_slice(&vec![b'>'; 40]);
    code.extend_from_slice(&vec![b'+'; 40]);
    code.push(b'.');
    code.extend_from_slice(&vec![b'<'; 40]);
    code.extend_from_slice(b"-]");
    let (result, out) = run_with(&code, b"", 100);
    assert_eq!(result, Ok(()));
    assert_eq!(out, vec![40, 80, 120]);
    let mut code = vec![b'>'; 99];
    code.extend_from_slice(b"+.");
    let (result, out) = run_with(&code, b"", 100);
    assert_eq!(result, Ok(()));
    assert_eq!(out, vec![1]);
    let code = vec![b'>'; 100];
    let (result, _) = run_with(&code, b"", 100);
    assert_eq!(result, Err(BfExecError { source: BfExecErrorTy::Overflow, idx: 0 }));
    let mut code = vec![b'>'; 50];
    code.extend_from_slice(&vec![b'<'; 51]);
    let (result, _) = run_with(&code, b"", 100);
    assert_eq!(result, Err(BfExecError { source: BfExecErrorTy::Underflow, idx: 9 }));
}

#[test]
fn bytecode_steps_one_instruction_at_a_time() {
    let stream = BTapeStream::from_bf(b"++[>+<-]").unwrap();
    let mut state = BfState::<u8>::zeroed(4, Reader::empty()).unwrap();
    let mut idx = 0;
    let mut steps = 0;
    while idx < stream.0.len() {
        idx = stream.step(&mut state, idx).unwrap();
        steps += 1;
    }
    assert_eq!(state.cells(), &[0u8, 2, 0, 0][..]);
    assert_eq!(steps, 1 + 1 + 2 * 5);
}

#[test]
fn tape_length_counts_moves_to_the_right() {
    assert_eq!(tape_len(b">>><<", None), 30_000);
    assert_eq!(tape_len(&vec![b'>'; 30_000], None), 30_000);
    assert_eq!(tape_len(&vec![b'>'; 30_001], None), 30_001);
    let mut code = vec![b'>'; 40_000];
    code.extend_from_slice(b"<<<< a +");
    code.extend_from_slice(&vec![b'>'; 5]);
    assert_eq!(tape_len(&code, None), 40_005);
    assert_eq!(tape_len(&code, Some(7)), 7);
    assert_eq!(tape_len(b"", Some(0)), 0);
}

#[test]
fn prepare_builds_program_and_state() {
    let (stream, mut state) = prepare::<u8>(b"+.", Some(3), Reader::empty()).ok().unwrap();
    assert_eq!(state.cells().len(), 3);
    assert_eq!(stream.run(&mut state), Ok(()));
    assert_eq!(state.output(), &[1u8][..]);
    assert_eq!(
        prepare::<u8>(b"+.", Some(0), Reader::empty()).err(),
        Some(Either::Left(BfExecError { source: BfExecErrorTy::InitOverflow, idx: 0 }))
    );
    assert_eq!(
        prepare::<u8>(b"]", Some(0), Reader::empty()).err(),
        Some(Either::Right(BfCompError::LoopEndBeforeLoopStart))
    );
}
