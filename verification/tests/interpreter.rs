use bf_engine::compiler::{BfInstruc, BfInstructionStream};
use bf_engine::error::{BfCompError, BfExecError, BfExecErrorTy};
use bf_engine::interpreter::{new_in_memory, BrainFuckExecutor};
use bf_engine::state::{BfState, Reader, Writer};

fn parse_bf(code: &str) -> BfInstructionStream<u8> {
    BfInstructionStream::optimized_from_text(code.as_bytes(), None).unwrap()
}

fn fresh_env(size: usize) -> BrainFuckExecutor<u8> {
    BrainFuckExecutor {
        state: BfState::new(0, vec![0u8; size], Reader::empty(), Writer::new())
            .map_err(|_| ())
            .unwrap(),
        instruction_limit: 0,
    }
}

fn run_code(code: &str) {
    let mut env = fresh_env(30_000);
    env.run(parse_bf(code).as_slice()).unwrap();
}

fn expect_output(code: &str, expect: &str) {
    let mut env = fresh_env(30_000);
    env.run(parse_bf(code).as_slice()).unwrap();
    let outv = env.state.output().to_vec();
    if outv != expect.as_bytes() {
        panic!("Expected {}, got instead {:?}", expect, outv);
    }
}

fn expect_error(code: &str, expected: BfExecErrorTy) {
    let mut env = fresh_env(30_000);
    env.add_instruction_limit(1_000_000).unwrap();
    match env.run_limited(parse_bf(code).as_slice()) {
        Ok(_) => panic!("Got Ok(()) value, expected {:?}", expected),
        Err(BfExecError { source, .. }) => {
            if source != expected {
                panic!("Got {:?} value, expected {:?}", source, expected);
            }
        }
    }
}

#[test]
fn test_exec_env() {
    expect_output("++++[>++++[>++++<-]<-]>>+.", "A");
    expect_error("<", BfExecErrorTy::Underflow);
    expect_error("+[>+]", BfExecErrorTy::Overflow);
    expect_error("+[]", BfExecErrorTy::NotEnoughInstructions);
    run_code("-");
    run_code(">>");
}

#[test]
fn nested_loops_print_a() {
    let mut env = fresh_env(30_000);
    let code = parse_bf("++++[>++++[>++++<-]<-]>>+.");
    assert_eq!(env.run(code.as_slice()), Ok(()));
    assert_eq!(env.state.output(), &[0x41u8][..]);
}

#[test]
fn underflow_is_reported_at_index_zero() {
    let mut env = fresh_env(30_000);
    env.add_instruction_limit(1_000_000).unwrap();
    let code = parse_bf("<");
    assert_eq!(
        env.run_limited(code.as_slice()),
        Err(BfExecError { source: BfExecErrorTy::Underflow, idx: 0 })
    );
    assert_eq!(env.state.ptr(), 0);
    assert_eq!(env.instructions_left(), 1_000_000);
}

#[test]
fn overflow_leaves_the_head_on_the_last_cell() {
    let mut env = fresh_env(30_000);
    env.add_instruction_limit(1_000_000).unwrap();
    let code = parse_bf("+[>+]");
    let err = env.run_limited(code.as_slice()).unwrap_err();
    assert_eq!(err.source, BfExecErrorTy::Overflow);
    assert_eq!(err.idx, 2);
    assert_eq!(env.state.ptr(), 29_999);
}

#[test]
fn empty_loop_uses_up_the_budget() {
    let mut env = fresh_env(30_000);
    env.add_instruction_limit(1_000_000).unwrap();
    let code = parse_bf("+[]");
    let err = env.run_limited(code.as_slice()).unwrap_err();
    assert_eq!(err.source, BfExecErrorTy::NotEnoughInstructions);
    assert_eq!(env.instructions_left(), 0);
}

#[test]
fn read_add_write() {
    let mut env = BrainFuckExecutor {
        state: BfState::<u8>::zeroed(30_000, Reader::new(&[0x20])).unwrap(),
        instruction_limit: 0,
    };
    let code = parse_bf(",+.");
    assert_eq!(env.run(code.as_slice()), Ok(()));
    assert_eq!(env.state.output(), &[0x21u8][..]);
}

#[test]
fn read_at_end_of_input_gives_zero() {
    let mut env = fresh_env(10);
    let code = parse_bf("+++,.");
    assert_eq!(env.run(code.as_slice()), Ok(()));
    assert_eq!(env.state.output(), &[0u8][..]);
}

#[test]
fn read_from_failing_reader_is_an_io_error() {
    let mut env = BrainFuckExecutor {
        state: BfState::<u8>::zeroed(10, Reader::failing()).unwrap(),
        instruction_limit: 0,
    };
    let code = parse_bf("+.,.");
    assert_eq!(
        env.run(code.as_slice()),
        Err(BfExecError { source: BfExecErrorTy::IOError, idx: 2 })
    );
    assert_eq!(env.state.output(), &[1u8][..]);
    assert_eq!(env.state.flushed(), 1);
    env.state.feed(7);
    env.instruction_limit = 10;
    assert_eq!(env.run_limited_from(code.as_slice(), 2), Ok(()));
    assert_eq!(env.state.output(), &[1u8, 7][..]);
}

#[test]
fn zero_budget_stops_before_the_first_instruction() {
    let mut env = fresh_env(10);
    let code = parse_bf("+");
    assert_eq!(
        env.run_limited(code.as_slice()),
        Err(BfExecError { source: BfExecErrorTy::NotEnoughInstructions, idx: 0 })
    );
    assert_eq!(env.state.cells()[0], 0);
    let empty = parse_bf("");
    assert_eq!(
        env.run_limited(empty.as_slice()),
        Err(BfExecError { source: BfExecErrorTy::NotEnoughInstructions, idx: 0 })
    );
}

#[test]
fn budget_that_just_suffices_is_used_up() {
    let mut env = fresh_env(10);
    let code = parse_bf("+>+>+");
    assert_eq!(code.as_slice().len(), 5);
    env.add_instruction_limit(5).unwrap();
    assert_eq!(env.run_limited(code.as_slice()), Ok(()));
    assert_eq!(env.instructions_left(), 0);
    assert_eq!(env.state.ptr(), 2);
}

#[test]
fn resumed_run_ends_like_one_run() {
    let program = "++++[>++++[>++++<-]<-]>>+.>,.";
    let code = parse_bf(program);
    let mut whole = BrainFuckExecutor {
        state: BfState::<u8>::zeroed(100, Reader::new(b"x")).unwrap(),
        instruction_limit: 0,
    };
    assert_eq!(whole.run(code.as_slice()), Ok(()));
    for slice in [1u64, 2, 3, 7, 50] {
        let mut env = BrainFuckExecutor {
            state: BfState::<u8>::zeroed(100, Reader::new(b"x")).unwrap(),
            instruction_limit: 0,
        };
        let mut at = 0usize;
        let mut spent = 0u64;
        loop {
            env.add_instruction_limit(slice).unwrap();
            match env.run_limited_from(code.as_slice(), at) {
                Ok(()) => {
                    spent += slice - env.instructions_left();
                    break;
                }
                Err(e) => {
                    assert_eq!(e.source, BfExecErrorTy::NotEnoughInstructions);
                    assert_eq!(env.instructions_left(), 0);
                    spent += slice;
                    at = e.idx;
                }
            }
        }
        assert_eq!(env.state.output(), whole.state.output());
        assert_eq!(env.state.cells(), whole.state.cells());
        assert_eq!(env.state.ptr(), whole.state.ptr());
        let mut single = BrainFuckExecutor {
            state: BfState::<u8>::zeroed(100, Reader::new(b"x")).unwrap(),
            instruction_limit: spent,
        };
        assert_eq!(single.run_limited(code.as_slice()), Ok(()));
        assert_eq!(single.instructions_left(), 0);
    }
}

#[test]
fn add_instruction_limit_overflows() {
    let mut env = fresh_env(1);
    env.add_instruction_limit(u64::MAX).unwrap();
    assert!(env.add_instruction_limit(1).is_err());
    assert_eq!(env.instructions_left(), u64::MAX);
    assert_eq!(
        env.add_instruction_limit(1).unwrap_err().message(),
        "overflow while attempting to add instruction limit"
    );
}

#[test]
fn executor_without_cells_is_refused() {
    let made = new_in_memory::<u8>(0, Reader::empty());
    assert_eq!(
        made.err(),
        Some(BfExecError { source: BfExecErrorTy::InitOverflow, idx: 0 })
    );
    let made = new_in_memory::<u16>(3, Reader::empty()).unwrap();
    assert_eq!(made.state.cells(), &[0u16, 0, 0][..]);
    assert_eq!(made.instruction_limit, 0);
}

#[test]
fn compile_folds_runs_and_clearing_loops() {
    let code = BfInstructionStream::<u8>::optimized_from_text(b"+++ x [-] >> [>.<,] -", None)
        .unwrap();
    let text = format!("{:?}", code.as_slice());
    assert_eq!(
        text,
        "[IncBy(3), Zero, IncPtrBy(2), LStart(8), IncPtr, Write, DecPtr, Read, LEnd(3), Dec]"
    );
    assert_eq!(code.reccomended_array_size(), 30_000);
}

#[test]
fn compile_reduces_long_runs_to_the_cell_width() {
    let text = vec![b'+'; 300];
    let narrow = BfInstructionStream::<u8>::optimized_from_text(&text, None).unwrap();
    assert!(matches!(narrow.as_slice()[0], BfInstruc::IncBy(44)));
    let wide = BfInstructionStream::<u16>::optimized_from_text(&text, None).unwrap();
    assert!(matches!(wide.as_slice()[0], BfInstruc::IncBy(300)));
}

#[test]
fn compile_sizes_the_tape() {
    let text = vec![b'>'; 30_001];
    let code = BfInstructionStream::<u8>::optimized_from_text(&text, None).unwrap();
    assert_eq!(code.reccomended_array_size(), 30_001);
    let code = BfInstructionStream::<u8>::optimized_from_text(&text, Some(12)).unwrap();
    assert_eq!(code.reccomended_array_size(), 12);
    assert!(matches!(code.as_slice()[0], BfInstruc::IncPtrBy(30_001)));
}

#[test]
fn compile_rejects_unbalanced_loops() {
    assert_eq!(
        BfInstructionStream::<u8>::optimized_from_text(b"+]", None).err(),
        Some(BfCompError::LoopEndBeforeLoopStart)
    );
    assert_eq!(
        BfInstructionStream::<u8>::optimized_from_text(b"[[+]", None).err(),
        Some(BfCompError::LoopCountMismatch)
    );
    assert_eq!(
        BfInstructionStream::<u8>::optimized_from_text(b"][", None).err(),
        Some(BfCompError::LoopEndBeforeLoopStart)
    );
}

#[test]
fn wider_cells_wrap_later() {
    let code = BfInstructionStream::<u16>::optimized_from_text(b"-.", None).unwrap();
    let mut env = new_in_memory::<u16>(4, Reader::empty()).unwrap();
    assert_eq!(env.run(code.as_slice()), Ok(()));
    assert_eq!(env.state.cells()[0], 0xffff);
    assert_eq!(env.state.output(), &[0xffu8][..]);
    let code = BfInstructionStream::<u32>::optimized_from_text(b"--", None).unwrap();
    let mut env = new_in_memory::<u32>(4, Reader::empty()).unwrap();
    assert_eq!(env.run(code.as_slice()), Ok(()));
    assert_eq!(env.state.cells()[0], 0xffff_fffe);
}

#[test]
fn messages_name_the_error() {
    assert_eq!(
        BfExecErrorTy::Overflow.message(),
        "runtime overflowed its backing array"
    );
    assert_eq!(
        BfExecErrorTy::Underflow.message(),
        "runtime underflowed its backing array"
    );
    assert_eq!(
        BfExecError { source: BfExecErrorTy::InitOverflow, idx: 3 }.message(),
        "the pointer was already overflowed when the runtime started"
    );
    assert_eq!(
        BfCompError::LoopCountMismatch.message(),
        "the count of loop start instructions does not match the count of loop end instructions"
    );
    assert_eq!(
        BfCompError::LoopEndBeforeLoopStart.message(),
        "loop end instruction was encountered before loop start instruction to complete it"
    );
    assert_eq!(
        BfCompError::Overflow.message(),
        "overflowed maximum code size allowed by interpreter"
    );
}

#[test]
fn a_budget_is_handed_out_in_slices() {
    let code = BfInstructionStream::<u8>::optimized_from_text(b"+[]", None).unwrap();
    let mut env = new_in_memory::<u8>(4, Reader::empty()).unwrap();
    let mut left = Some(25u64);
    let mut at = 0;
    let mut slices = Vec::new();
    while left != Some(0) {
        let granted = env.grant_slice(left, 10);
        slices.push(granted);
        let err = env.run_limited_from(code.as_slice(), at).unwrap_err();
        assert_eq!(err.source, BfExecErrorTy::NotEnoughInstructions);
        at = err.idx;
        left = env.left_after_slice(left, granted);
    }
    assert_eq!(slices, vec![10, 10, 5]);
    let mut env = new_in_memory::<u8>(4, Reader::empty()).unwrap();
    assert_eq!(env.grant_slice(None, 10), 10);
    let nothing: Vec<BfInstruc<u8>> = Vec::new();
    assert_eq!(env.run_limited_from(&nothing, 0), Ok(()));
    assert_eq!(env.left_after_slice(Some(30), 10), Some(30));
    assert_eq!(env.left_after_slice(None, 10), None);
}

#[test]
fn instructions_compare_by_value() {
    let code = BfInstructionStream::<u8>::optimized_from_text(b"++[>,.<-]>>>[-]", None).unwrap();
    assert_eq!(
        code.as_slice(),
        &[
            BfInstruc::IncBy(2),
            BfInstruc::LStart(7),
            BfInstruc::IncPtr,
            BfInstruc::Read,
            BfInstruc::Write,
            BfInstruc::DecPtr,
            BfInstruc::Dec,
            BfInstruc::LEnd(1),
            BfInstruc::IncPtrBy(3),
            BfInstruc::Zero,
        ][..]
    );
    assert_ne!(BfInstruc::<u8>::IncBy(2), BfInstruc::<u8>::DecBy(2));
}

#[test]
fn an_unbalanced_stream_keeps_what_is_no_loop_boundary() {
    let mut stream = BfInstructionStream::<u8>::from(vec![
        BfInstruc::Inc,
        BfInstruc::LStart(0),
        BfInstruc::Write,
        BfInstruc::LEnd(0),
        BfInstruc::LEnd(0),
        BfInstruc::Dec,
    ]);
    assert_eq!(stream.insert_bf_jump_points(), Err(BfCompError::LoopEndBeforeLoopStart));
    assert_eq!(
        stream.as_slice(),
        &[
            BfInstruc::Inc,
            BfInstruc::LStart(3),
            BfInstruc::Write,
            BfInstruc::LEnd(1),
            BfInstruc::LEnd(0),
            BfInstruc::Dec,
        ][..]
    );
    let mut stream = BfInstructionStream::<u8>::from(vec![
        BfInstruc::LStart(0),
        BfInstruc::LStart(0),
        BfInstruc::Read,
        BfInstruc::LEnd(0),
    ]);
    assert_eq!(stream.insert_bf_jump_points(), Err(BfCompError::LoopCountMismatch));
    assert_eq!(
        stream.as_slice(),
        &[BfInstruc::LStart(0), BfInstruc::LStart(3), BfInstruc::Read, BfInstruc::LEnd(1)][..]
    );
}
