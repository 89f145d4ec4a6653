use bf_engine::error::BfExecErrorTy;
use bf_engine::ir::MulArg;
use bf_engine::state::{BfState, ReadOutcome, Reader, Writer};

fn state_of(cells: Vec<u8>, ptr: usize) -> BfState<u8> {
    BfState::new(ptr, cells, Reader::empty(), Writer::new())
        .map_err(|_| ())
        .unwrap()
}

#[test]
fn new_checks_the_head() {
    assert!(BfState::new(3, vec![0u8; 3], Reader::empty(), Writer::new()).is_err());
    assert!(BfState::new(0, Vec::<u8>::new(), Reader::empty(), Writer::new()).is_err());
    let state = state_of(vec![1, 2, 3], 2);
    assert_eq!(state.ptr(), 2);
    assert_eq!(state.get(), 3);
    assert_eq!(state.cells(), &[1u8, 2, 3][..]);
    let back = BfState::new(5, vec![9u8], Reader::empty(), Writer::new()).err().unwrap();
    assert_eq!(back.0, 5);
    assert_eq!(back.1, vec![9u8]);
}

#[test]
fn zeroed_needs_a_cell() {
    assert!(BfState::<u8>::zeroed(0, Reader::empty()).is_none());
    let state = BfState::<u32>::zeroed(4, Reader::empty()).unwrap();
    assert_eq!(state.cells(), &[0u32; 4][..]);
    assert_eq!(state.ptr(), 0);
}

#[test]
fn cell_arithmetic_wraps() {
    let mut state = state_of(vec![250], 0);
    state.inc(10);
    assert_eq!(state.get(), 4);
    state.dec(5);
    assert_eq!(state.get(), 255);
    state.zero();
    assert_eq!(state.get(), 0);
    state.set(7);
    assert_eq!(state.get(), 7);
    state.map(|c| c * 3);
    assert_eq!(state.get(), 21);
}

#[test]
fn head_moves_are_checked() {
    let mut state = state_of(vec![0; 5], 2);
    assert_eq!(state.inc_ptr(2), Ok(()));
    assert_eq!(state.ptr(), 4);
    assert_eq!(state.inc_ptr(1), Err(BfExecErrorTy::Overflow));
    assert_eq!(state.ptr(), 4);
    assert_eq!(state.inc_ptr(usize::MAX), Err(BfExecErrorTy::Overflow));
    assert_eq!(state.ptr(), 4);
    assert_eq!(state.dec_ptr(4), Ok(()));
    assert_eq!(state.ptr(), 0);
    assert_eq!(state.dec_ptr(1), Err(BfExecErrorTy::Underflow));
    assert_eq!(state.ptr(), 0);
}

#[test]
fn jumps_test_the_head_cell() {
    let mut state = state_of(vec![0, 3], 0);
    assert!(state.jump_forward());
    assert!(!state.jump_backward());
    state.inc_ptr(1).unwrap();
    assert!(!state.jump_forward());
    assert!(state.jump_backward());
}

#[test]
fn write_takes_the_low_byte() {
    let mut state = BfState::<u16>::zeroed(2, Reader::empty()).unwrap();
    state.set(0x1234);
    state.write().unwrap();
    assert_eq!(state.output(), &[0x34u8][..]);
    assert_eq!(state.flushed(), 0);
    state.flush();
    assert_eq!(state.flushed(), 1);
    state.write_all(&[1, 2]);
    assert_eq!(state.output(), &[0x34u8, 1, 2][..]);
    assert_eq!(state.flushed(), 1);
}

#[test]
fn read_flushes_first() {
    let mut state = BfState::<u8>::zeroed(2, Reader::new(&[9])).unwrap();
    state.set(65);
    state.write().unwrap();
    assert_eq!(state.read(), Ok(()));
    assert_eq!(state.get(), 9);
    assert_eq!(state.flushed(), 1);
    assert_eq!(state.read(), Ok(()));
    assert_eq!(state.get(), 0);
}

#[test]
fn failed_read_keeps_the_cell() {
    let mut state = BfState::<u8>::zeroed(2, Reader::failing()).unwrap();
    state.set(65);
    state.write().unwrap();
    assert_eq!(state.read(), Err(BfExecErrorTy::IOError));
    assert_eq!(state.get(), 65);
    assert_eq!(state.flushed(), 1);
    state.close_input();
    assert_eq!(state.read(), Ok(()));
    assert_eq!(state.get(), 0);
}

#[test]
fn reader_hands_out_bytes_in_order() {
    let mut reader = Reader::new(&[1, 2]);
    reader.feed(3);
    assert_eq!(reader.read_byte(), ReadOutcome::Byte(1));
    assert_eq!(reader.read_byte(), ReadOutcome::Byte(2));
    assert_eq!(reader.read_byte(), ReadOutcome::Byte(3));
    assert_eq!(reader.read_byte(), ReadOutcome::End);
    let mut failing = Reader::failing();
    assert_eq!(failing.read_byte(), ReadOutcome::Failed);
    failing.feed(4);
    assert_eq!(failing.read_byte(), ReadOutcome::Byte(4));
    assert_eq!(failing.read_byte(), ReadOutcome::Failed);
    failing.close();
    assert_eq!(failing.read_byte(), ReadOutcome::End);
}

#[test]
fn writer_counts_what_is_flushed() {
    let mut writer = Writer::new();
    writer.write_byte(1);
    writer.write_all(&[2, 3]);
    assert_eq!(writer.bytes(), &[1u8, 2, 3][..]);
    assert_eq!(writer.flushed(), 0);
    writer.flush();
    assert_eq!(writer.flushed(), 3);
}

#[test]
fn mul_adds_multiples_and_clears_the_head() {
    let mut state = state_of(vec![10, 3, 5, 200], 1);
    let args = [
        MulArg { offset: -1, change: 2 },
        MulArg { offset: 2, change: 20 },
        MulArg { offset: 1, change: -1 },
    ];
    assert_eq!(state.mul(&(-1..2), &args), Ok(()));
    assert_eq!(state.cells(), &[16u8, 0, 2, 4][..]);
    assert_eq!(state.ptr(), 1);
}

#[test]
fn mul_checks_its_range_first() {
    let mut state = state_of(vec![1, 1, 1], 0);
    let args = [MulArg { offset: -1, change: 1 }];
    assert_eq!(state.mul(&(-1..0), &args), Err(BfExecErrorTy::Underflow));
    assert_eq!(state.cells(), &[1u8, 1, 1][..]);
    let args = [MulArg { offset: 3, change: 1 }];
    assert_eq!(state.mul(&(0..3), &args), Err(BfExecErrorTy::Overflow));
    assert_eq!(state.cells(), &[1u8, 1, 1][..]);
    let args = [MulArg { offset: 3, change: 1 }, MulArg { offset: -1, change: 1 }];
    assert_eq!(state.mul(&(-1..3), &args), Err(BfExecErrorTy::Underflow));
}

#[test]
fn mul_on_a_zero_head_still_checks_its_range() {
    let mut state = state_of(vec![0, 1], 0);
    let args = [MulArg { offset: -1, change: 1 }];
    assert_eq!(state.mul(&(-1..0), &args), Err(BfExecErrorTy::Underflow));
}

#[test]
fn mul_wraps_in_wide_cells() {
    let mut state = BfState::<u32>::zeroed(2, Reader::empty()).unwrap();
    state.set(0x8000_0001);
    let args = [MulArg { offset: 1, change: 2 }, MulArg { offset: 1, change: -5 }];
    assert_eq!(state.mul(&(0..1), &args), Ok(()));
    let expect = (0x8000_0001u32.wrapping_mul(2)).wrapping_sub(0x8000_0001u32.wrapping_mul(5));
    assert_eq!(state.cells(), &[0u32, expect][..]);
}
