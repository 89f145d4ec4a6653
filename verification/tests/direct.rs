use bf_engine::direct::{interpret, lend_jump, lstart_jump, step};
use bf_engine::error::{BfCompError, BfExecError, BfExecErrorTy};
use bf_engine::state::{BfState, Reader};
use either::Either;
use std::collections::HashMap;

fn run_with(
    code: &[u8],
    input: &[u8],
    cells: usize,
) -> (Result<(), Either<BfExecError, BfCompError>>, BfState<u8>) {
    let mut state = BfState::<u8>::zeroed(cells, Reader::new(input)).unwrap();
    let result = interpret(code, &mut state);
    (result, state)
}

#[test]
fn direct_prints_a() {
    let (result, state) = run_with(b"++++[>++++[>++++<-]<-]>>+.", b"", 30_000);
    assert_eq!(result, Ok(()));
    assert_eq!(state.output(), b"A");
    assert_eq!(state.flushed(), 1);
}

#[test]
fn direct_reads_and_writes() {
    let (result, state) = run_with(b", comment +.", &[0x20], 30_000);
    assert_eq!(result, Ok(()));
    assert_eq!(state.output(), &[0x21u8][..]);
}

#[test]
fn direct_multiply_loop_prints_zero_digit() {
    let (result, state) = run_with(b"++++++[>++++++++<-]>.", b"", 30_000);
    assert_eq!(result, Ok(()));
    assert_eq!(state.output(), &[0x30u8][..]);
}

#[test]
fn direct_reports_bounds() {
    let (result, _) = run_with(b"<", b"", 30_000);
    assert_eq!(
        result,
        Err(Either::Left(BfExecError { source: BfExecErrorTy::Underflow, idx: 0 }))
    );
    let (result, state) = run_with(b"+[>+]", b"", 50);
    assert_eq!(
        result,
        Err(Either::Left(BfExecError { source: BfExecErrorTy::Overflow, idx: 2 }))
    );
    assert_eq!(state.ptr(), 49);
}

#[test]
fn direct_finds_broken_loops_only_when_it_jumps() {
    let (result, _) = run_with(b"+[", b"", 10);
    assert_eq!(result, Ok(()));
    let (result, _) = run_with(b"[", b"", 10);
    assert_eq!(result, Err(Either::Right(BfCompError::LoopCountMismatch)));
    let (result, _) = run_with(b"]", b"", 10);
    assert_eq!(result, Ok(()));
    let (result, _) = run_with(b"+]", b"", 10);
    assert_eq!(result, Err(Either::Right(BfCompError::LoopEndBeforeLoopStart)));
    let (result, state) = run_with(b".[[]", b"", 10);
    assert_eq!(result, Err(Either::Right(BfCompError::LoopCountMismatch)));
    assert_eq!(state.flushed(), 0);
}

#[test]
fn jumps_find_partners_and_remember_them() {
    let code = b"[a[b]c[]]";
    let mut cache = HashMap::new();
    let mut iter = Vec::new();
    assert_eq!(lstart_jump(code, 0, &mut cache, &mut iter), Ok(8));
    assert_eq!(cache.get(&0), Some(&8));
    assert_eq!(cache.get(&8), Some(&0));
    assert_eq!(cache.get(&2), Some(&4));
    assert_eq!(cache.get(&4), Some(&2));
    assert_eq!(cache.get(&6), Some(&7));
    assert_eq!(cache.get(&7), Some(&6));
    assert_eq!(cache.len(), 6);
    assert_eq!(lend_jump(code, 4, &mut cache, &mut iter), Ok(2));
    let mut cache = HashMap::new();
    assert_eq!(lend_jump(code, 8, &mut cache, &mut iter), Ok(0));
    assert_eq!(cache.len(), 6);
    assert_eq!(lstart_jump(code, 2, &mut cache, &mut iter), Ok(4));
    let mut cache = HashMap::new();
    assert_eq!(lstart_jump(code, 2, &mut cache, &mut iter), Ok(4));
    assert_eq!(cache.len(), 2);
}

#[test]
fn jumps_without_partner_fail() {
    let mut cache = HashMap::new();
    let mut iter = vec![3, 4];
    assert_eq!(
        lstart_jump(b"[[]", 0, &mut cache, &mut iter),
        Err(BfCompError::LoopCountMismatch)
    );
    assert_eq!(cache.get(&1), Some(&2));
    let mut cache = HashMap::new();
    assert_eq!(
        lend_jump(b"[]]", 2, &mut cache, &mut iter),
        Err(BfCompError::LoopEndBeforeLoopStart)
    );
    assert_eq!(cache.get(&1), Some(&0));
}

#[test]
fn direct_steps_one_byte_at_a_time() {
    let code = b"+[-]x.";
    let mut state = BfState::<u8>::zeroed(2, Reader::empty()).unwrap();
    let mut cache = HashMap::new();
    let mut iter = Vec::new();
    let mut idx = 0;
    let mut seen = vec![];
    while idx < code.len() {
        seen.push(idx);
        idx = step(code, &mut state, &mut cache, &mut iter, idx).ok().unwrap();
    }
    assert_eq!(seen, vec![0, 1, 2, 3, 4, 5]);
    assert_eq!(state.output(), &[0u8][..]);
}
