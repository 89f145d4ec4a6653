use bf_engine::error::{BfCompError, BfExecError, BfExecErrorTy};
use bf_engine::ir::{
    find_if_conditions, rewrite_multiply, rewrite_write_loops, rewrite_zero, ITree, MulArg, Token,
};
use bf_engine::lower::{DistinctMultiply, Executable, MultiplyCache};
use bf_engine::state::{BfState, Reader};
use bf_engine::stream::{InterpreterStream, WriteBatch};

fn compile(code: &str) -> InterpreterStream {
    let tokens = Token::parse(code.as_bytes());
    let mut tree = Token::to_tree(&tokens).unwrap();
    rewrite_zero(&mut tree);
    rewrite_multiply(&mut tree);
    find_if_conditions(&mut tree);
    rewrite_write_loops(&mut tree);
    ITree::synthesize(&tree).unwrap()
}

fn run_with(code: &str, input: &[u8]) -> (Result<(), BfExecError>, Vec<u8>) {
    let stream = compile(code);
    let mut state = BfState::<u8>::zeroed(30_000, Reader::new(input)).unwrap();
    let result = stream.run(&mut state);
    (result, state.output().to_vec())
}

#[test]
fn parse_folds_runs() {
    assert_eq!(
        Token::parse(b"+++--a>>>><.,[]"),
        vec![
            Token::Inc(3),
            Token::Dec(2),
            Token::IncPtr(4),
            Token::DecPtr(1),
            Token::Write,
            Token::Read,
            Token::LStart,
            Token::LEnd,
        ]
    );
}

#[test]
fn parse_skips_comments_inside_runs() {
    assert_eq!(Token::parse(b"+ + x +\n-"), vec![Token::Inc(3), Token::Dec(1)]);
    assert_eq!(Token::parse(b"hello"), vec![]);
    assert_eq!(Token::parse(b""), vec![]);
}

#[test]
fn parse_sees_clearing_loops() {
    assert_eq!(Token::parse(b"[-]"), vec![Token::Zero]);
    assert_eq!(Token::parse(b"[ + ]"), vec![Token::Zero]);
    assert_eq!(
        Token::parse(b"[--]"),
        vec![Token::LStart, Token::Dec(2), Token::LEnd]
    );
    assert_eq!(
        Token::parse(b"[>]"),
        vec![Token::LStart, Token::IncPtr(1), Token::LEnd]
    );
    assert_eq!(
        Token::parse(b"[[-]]"),
        vec![Token::LStart, Token::Zero, Token::LEnd]
    );
    assert_eq!(Token::parse(b"[-"), vec![Token::LStart, Token::Dec(1)]);
    assert_eq!(
        Token::parse(b"[-][+]+"),
        vec![Token::Zero, Token::Zero, Token::Inc(1)]
    );
}

#[test]
fn to_tree_nests_loops() {
    let tokens = Token::parse(b"+[>[.]<]-");
    let tree = Token::to_tree(&tokens).unwrap();
    assert_eq!(
        tree,
        vec![
            ITree::Inc(1),
            ITree::Loop(vec![
                ITree::IncPtr(1),
                ITree::Loop(vec![ITree::Write]),
                ITree::DecPtr(1),
            ]),
            ITree::Dec(1),
        ]
    );
}

#[test]
fn to_tree_rejects_unbalanced_loops() {
    assert_eq!(
        Token::to_tree(&[Token::LEnd]).err(),
        Some(BfCompError::LoopEndBeforeLoopStart)
    );
    assert_eq!(
        Token::to_tree(&[Token::LStart, Token::LEnd, Token::LEnd, Token::LStart]).err(),
        Some(BfCompError::LoopEndBeforeLoopStart)
    );
    assert_eq!(
        Token::to_tree(&[Token::LStart, Token::LStart, Token::LEnd]).err(),
        Some(BfCompError::LoopCountMismatch)
    );
    assert_eq!(Token::to_tree(&[]).unwrap(), vec![]);
}

#[test]
fn tree_predicates() {
    assert!(ITree::Zero.terminates());
    assert!(ITree::If(vec![]).terminates());
    assert!(!ITree::Loop(vec![]).terminates());
    assert!(!ITree::WriteLoop(vec![]).terminates());
    assert!(ITree::zero_in_loop(&[ITree::Inc(1)]));
    assert!(ITree::zero_in_loop(&[ITree::Dec(1)]));
    assert!(!ITree::zero_in_loop(&[ITree::Dec(2)]));
    assert!(!ITree::zero_in_loop(&[ITree::Dec(1), ITree::Dec(1)]));
    assert!(!ITree::zero_in_loop(&[]));
    assert_eq!(ITree::terminating_nested_len(&[]), 0);
    assert_eq!(
        ITree::terminating_nested_len(&[
            ITree::Write,
            ITree::If(vec![ITree::Inc(1), ITree::If(vec![ITree::Zero])]),
            ITree::Loop(vec![ITree::Write, ITree::Write]),
        ]),
        6
    );
}

#[test]
fn write_loop_predicate() {
    assert!(ITree::is_writeloop(&[ITree::Write]));
    assert!(ITree::is_writeloop(&[ITree::Write, ITree::Dec(1)]));
    assert!(!ITree::is_writeloop(&[ITree::Dec(1)]));
    assert!(!ITree::is_writeloop(&[ITree::Write, ITree::Read]));
    assert!(!ITree::is_writeloop(&[ITree::Write, ITree::Loop(vec![])]));
    assert!(!ITree::is_writeloop(&[ITree::Write, ITree::If(vec![ITree::Read])]));
    assert!(!ITree::is_writeloop(&[ITree::Write, ITree::If(vec![ITree::Read, ITree::Zero])]));
    assert!(!ITree::is_writeloop(&[
        ITree::Write,
        ITree::If(vec![ITree::If(vec![ITree::Loop(vec![]), ITree::Zero]), ITree::Zero]),
    ]));
    assert!(!ITree::is_writeloop(&[ITree::Dec(1), ITree::If(vec![ITree::Write, ITree::Zero])]));
    assert!(ITree::is_writeloop(&[ITree::Write, ITree::If(vec![ITree::Dec(1), ITree::Zero])]));
    let mut long = vec![ITree::Write];
    for _ in 0..30 {
        long.push(ITree::Inc(1));
    }
    assert!(ITree::is_writeloop(&long));
    long.push(ITree::Inc(1));
    assert!(!ITree::is_writeloop(&long));
}

#[test]
fn multiply_predicate() {
    let body = [
        ITree::IncPtr(1),
        ITree::Inc(8),
        ITree::DecPtr(1),
        ITree::Dec(1),
    ];
    assert_eq!(
        ITree::as_multiply(&body),
        Some((0..1, vec![MulArg { offset: 1, change: 8 }]))
    );
    let body = [
        ITree::Dec(1),
        ITree::DecPtr(2),
        ITree::Dec(3),
        ITree::IncPtr(5),
        ITree::Inc(2),
        ITree::DecPtr(3),
    ];
    assert_eq!(
        ITree::as_multiply(&body),
        Some((
            -2..3,
            vec![
                MulArg { offset: -2, change: -3 },
                MulArg { offset: 3, change: 2 },
            ]
        ))
    );
    assert_eq!(ITree::as_multiply(&[ITree::Dec(1)]), Some((0..0, vec![])));
    assert_eq!(ITree::as_multiply(&[ITree::Dec(2)]), None);
    assert_eq!(ITree::as_multiply(&[ITree::Inc(1)]), None);
    assert_eq!(ITree::as_multiply(&[ITree::Dec(1), ITree::IncPtr(1)]), None);
    assert_eq!(ITree::as_multiply(&[ITree::Dec(1), ITree::Write]), None);
    assert_eq!(ITree::as_multiply(&[ITree::Dec(1), ITree::Zero]), None);
    assert_eq!(ITree::as_multiply(&[ITree::Dec(1), ITree::If(vec![])]), None);
    assert_eq!(ITree::as_multiply(&[]), None);
    assert_eq!(
        ITree::as_multiply(&[ITree::IncPtr(32), ITree::DecPtr(32), ITree::Dec(1)]),
        None
    );
    assert_eq!(
        ITree::as_multiply(&[ITree::IncPtr(31), ITree::DecPtr(31), ITree::Dec(1)]),
        Some((0..31, vec![]))
    );
    assert_eq!(
        ITree::as_multiply(&[ITree::DecPtr(32), ITree::IncPtr(32), ITree::Dec(1)]),
        Some((-32..0, vec![]))
    );
    assert_eq!(
        ITree::as_multiply(&[ITree::DecPtr(33), ITree::IncPtr(33), ITree::Dec(1)]),
        None
    );
}

#[test]
fn rewrite_zero_replaces_stepping_loops() {
    let mut tree = vec![
        ITree::Loop(vec![ITree::Dec(1)]),
        ITree::Loop(vec![ITree::Loop(vec![ITree::Inc(1)]), ITree::Write]),
        ITree::Loop(vec![ITree::Dec(2)]),
        ITree::If(vec![ITree::Loop(vec![ITree::Dec(1)])]),
    ];
    rewrite_zero(&mut tree);
    assert_eq!(
        tree,
        vec![
            ITree::Zero,
            ITree::Loop(vec![ITree::Zero, ITree::Write]),
            ITree::Loop(vec![ITree::Dec(2)]),
            ITree::If(vec![ITree::Loop(vec![ITree::Dec(1)])]),
        ]
    );
}

#[test]
fn find_if_conditions_works_from_the_inside() {
    let mut tree = vec![
        ITree::Loop(vec![ITree::Write, ITree::Zero]),
        ITree::Loop(vec![ITree::Zero, ITree::Write]),
        ITree::Loop(vec![ITree::Loop(vec![ITree::Read, ITree::Zero]), ITree::Zero]),
        ITree::Loop(vec![]),
    ];
    find_if_conditions(&mut tree);
    assert_eq!(
        tree,
        vec![
            ITree::If(vec![ITree::Write, ITree::Zero]),
            ITree::Loop(vec![ITree::Zero, ITree::Write]),
            ITree::If(vec![ITree::If(vec![ITree::Read, ITree::Zero]), ITree::Zero]),
            ITree::Loop(vec![]),
        ]
    );
}

#[test]
fn rewrite_multiply_fuses_loops() {
    let mut tree = Token::to_tree(&Token::parse(b"[>++<-][>[<+>-]<.]")).unwrap();
    rewrite_multiply(&mut tree);
    assert_eq!(
        tree,
        vec![
            ITree::Mul(0..1, vec![MulArg { offset: 1, change: 2 }]),
            ITree::Loop(vec![
                ITree::IncPtr(1),
                ITree::Mul(-1..0, vec![MulArg { offset: -1, change: 1 }]),
                ITree::DecPtr(1),
                ITree::Write,
            ]),
        ]
    );
}

#[test]
fn rewrite_write_loops_marks_loops() {
    let mut tree = Token::to_tree(&Token::parse(b"[.>][,.][[.]+]")).unwrap();
    rewrite_write_loops(&mut tree);
    assert_eq!(
        tree,
        vec![
            ITree::WriteLoop(vec![ITree::Write, ITree::IncPtr(1)]),
            ITree::Loop(vec![ITree::Read, ITree::Write]),
            ITree::Loop(vec![ITree::WriteLoop(vec![ITree::Write]), ITree::Inc(1)]),
        ]
    );
}

#[test]
fn multiply_cache_keeps_one_of_each() {
    let mut cache = MultiplyCache::default();
    let a = || DistinctMultiply(0..1, vec![MulArg { offset: 1, change: 2 }]);
    let b = || DistinctMultiply(0..1, vec![MulArg { offset: 1, change: 3 }]);
    assert_eq!(cache.insert(a()), 0);
    assert_eq!(cache.insert(b()), 1);
    assert_eq!(cache.insert(a()), 0);
    assert_eq!(cache.insert(b()), 1);
    assert_eq!(cache.0.len(), 2);
    assert!(a().same(&a()));
    assert!(!a().same(&b()));
    assert!(!a().same(&DistinctMultiply(0..2, vec![MulArg { offset: 1, change: 2 }])));
    assert!(!a().same(&DistinctMultiply(0..1, vec![])));
}

#[test]
fn synthesize_resolves_jumps() {
    let tree = vec![
        ITree::Inc(1),
        ITree::Loop(vec![ITree::IncPtr(1), ITree::Read]),
        ITree::WriteLoop(vec![ITree::Write]),
        ITree::If(vec![ITree::Write, ITree::Zero]),
        ITree::Mul(0..1, vec![MulArg { offset: 1, change: 1 }]),
        ITree::Mul(0..1, vec![MulArg { offset: 1, change: 1 }]),
        ITree::Mul(0..2, vec![MulArg { offset: 2, change: 1 }]),
    ];
    let stream = ITree::synthesize(&tree).unwrap();
    assert_eq!(
        stream.0,
        vec![
            Executable::Inc(1),
            Executable::LStart(4),
            Executable::IncPtr(1),
            Executable::Read,
            Executable::LEnd(1),
            Executable::WLStart(7),
            Executable::Write,
            Executable::WLEnd(5),
            Executable::LStart(11),
            Executable::Write,
            Executable::Zero,
            Executable::LEnd(8),
            Executable::Multiply(0),
            Executable::Multiply(0),
            Executable::Multiply(1),
        ]
    );
    assert_eq!(stream.1.len(), 2);
}

#[test]
fn synthesize_gives_every_loop_its_own_end_and_drops_empty_ifs() {
    let tree = vec![
        ITree::Loop(vec![ITree::IncPtr(1), ITree::Loop(vec![ITree::IncPtr(1)])]),
        ITree::If(vec![]),
        ITree::Loop(vec![]),
        ITree::Loop(vec![ITree::If(vec![])]),
    ];
    let stream = ITree::synthesize(&tree).unwrap();
    assert_eq!(
        stream.0,
        vec![
            Executable::LStart(5),
            Executable::IncPtr(1),
            Executable::LStart(4),
            Executable::IncPtr(1),
            Executable::LEnd(2),
            Executable::LEnd(0),
            Executable::LStart(7),
            Executable::LEnd(6),
            Executable::LStart(9),
            Executable::LEnd(8),
        ]
    );
}

#[test]
fn nested_loops_do_not_share_an_end() {
    let tree = vec![ITree::Loop(vec![ITree::Loop(vec![ITree::Inc(2)])])];
    let stream = ITree::synthesize(&tree).unwrap();
    assert_eq!(
        stream.0,
        vec![
            Executable::LStart(4),
            Executable::LStart(3),
            Executable::Inc(2),
            Executable::LEnd(1),
            Executable::LEnd(0),
        ]
    );
}

#[test]
fn starts_and_ends_point_at_each_other() {
    let stream = compile("+[>[-]+[>+<-]<[,.[-]]>[.-]<]");
    let mut starts = 0;
    for (at, op) in stream.0.iter().enumerate() {
        match op {
            Executable::LStart(e) => {
                starts += 1;
                assert!(at < *e as usize);
                assert_eq!(stream.0[*e as usize], Executable::LEnd(at as u32));
            }
            Executable::WLStart(e) => {
                starts += 1;
                assert!(at < *e as usize);
                assert_eq!(stream.0[*e as usize], Executable::WLEnd(at as u32));
            }
            Executable::LEnd(b) => {
                assert_eq!(stream.0[*b as usize], Executable::LStart(at as u32));
            }
            Executable::WLEnd(b) => {
                assert_eq!(stream.0[*b as usize], Executable::WLStart(at as u32));
            }
            _ => {}
        }
    }
    assert!(starts >= 3);
}

#[test]
fn an_if_runs_its_body_once() {
    let tree = vec![
        ITree::Inc(3),
        ITree::If(vec![ITree::Write, ITree::Zero]),
        ITree::If(vec![ITree::Write, ITree::Zero]),
        ITree::Write,
    ];
    let stream = ITree::synthesize(&tree).unwrap();
    let mut state = BfState::<u8>::zeroed(4, Reader::empty()).unwrap();
    assert_eq!(stream.run(&mut state), Ok(()));
    assert_eq!(state.output(), &[3u8, 0][..]);
}

#[test]
fn tree_pipeline_prints_a() {
    let (result, out) = run_with("++++[>++++[>++++<-]<-]>>+.", b"");
    assert_eq!(result, Ok(()));
    assert_eq!(out, b"A");
}

#[test]
fn tree_pipeline_reads_and_writes() {
    let (result, out) = run_with(",+.", &[0x20]);
    assert_eq!(result, Ok(()));
    assert_eq!(out, vec![0x21]);
}

#[test]
fn tree_pipeline_reports_bounds() {
    let (result, _) = run_with("<", b"");
    assert_eq!(result, Err(BfExecError { source: BfExecErrorTy::Underflow, idx: 0 }));
    let (result, _) = run_with("+[>+]", b"");
    assert_eq!(result.unwrap_err().source, BfExecErrorTy::Overflow);
}

#[test]
fn multiply_loop_is_one_instruction() {
    let stream = compile("++++++[>++++++++<-]>.");
    let fused = stream
        .0
        .iter()
        .filter(|op| matches!(op, Executable::Multiply(_)))
        .count();
    assert_eq!(fused, 1);
    assert_eq!(
        stream.0,
        vec![
            Executable::Inc(6),
            Executable::Multiply(0),
            Executable::IncPtr(1),
            Executable::Write,
        ]
    );
    let (result, out) = run_with("++++++[>++++++++<-]>.", b"");
    assert_eq!(result, Ok(()));
    assert_eq!(out, vec![0x30]);
}

#[test]
fn fused_loop_on_a_zero_head_still_checks_its_range() {
    let (result, _) = run_with("[<+>-]", b"");
    assert_eq!(result, Err(BfExecError { source: BfExecErrorTy::Underflow, idx: 0 }));
}

#[test]
fn write_loop_keeps_the_order_of_the_output() {
    let program = "++++++++[>++++++++<-]>+.<+++++[>.+.+<-]>.";
    let stream = compile(program);
    assert!(stream.0.iter().any(|op| matches!(op, Executable::WLStart(_))));
    let (result, out) = run_with(program, b"");
    assert_eq!(result, Ok(()));
    assert_eq!(out, b"AABCDEFGHIJK");
}

#[test]
fn write_loop_hands_on_full_batches() {
    let program = "++++++++++[>++++++++++<-]>[.-]";
    let stream = compile(program);
    assert!(stream.0.iter().any(|op| matches!(op, Executable::WLStart(_))));
    let (result, out) = run_with(program, b"");
    assert_eq!(result, Ok(()));
    let expect: Vec<u8> = (1..=100u8).rev().collect();
    assert_eq!(out, expect);
}

#[test]
fn write_loop_stopped_by_an_error_hands_on_its_batch() {
    let stream = compile("+[.>+]");
    assert!(matches!(stream.0[1], Executable::WLStart(_)));
    let mut state = BfState::<u8>::zeroed(4, Reader::empty()).unwrap();
    let result = stream.run(&mut state);
    assert_eq!(result.unwrap_err().source, BfExecErrorTy::Overflow);
    assert_eq!(state.output(), &[1u8, 1, 1, 1][..]);
}

#[test]
fn turning_a_loop_into_a_write_loop_keeps_the_output_of_a_failing_run() {
    let plain = vec![ITree::Inc(1), ITree::Loop(vec![ITree::Write, ITree::DecPtr(1)])];
    let mut batched = vec![ITree::Inc(1), ITree::Loop(vec![ITree::Write, ITree::DecPtr(1)])];
    rewrite_write_loops(&mut batched);
    assert_eq!(
        batched,
        vec![ITree::Inc(1), ITree::WriteLoop(vec![ITree::Write, ITree::DecPtr(1)])]
    );
    let mut outputs = Vec::new();
    for tree in [plain, batched] {
        let stream = ITree::synthesize(&tree).unwrap();
        let mut state = BfState::<u8>::zeroed(30_000, Reader::empty()).unwrap();
        let result = stream.run(&mut state);
        assert_eq!(result, Err(BfExecError { source: BfExecErrorTy::Underflow, idx: 3 }));
        outputs.push(state.output().to_vec());
    }
    assert_eq!(outputs[0], vec![1u8]);
    assert_eq!(outputs[1], vec![1u8]);
}

#[test]
fn a_read_inside_a_write_loop_hands_on_what_was_gathered() {
    let tree = vec![ITree::Inc(7), ITree::WriteLoop(vec![ITree::Write, ITree::Read])];
    let stream = ITree::synthesize(&tree).unwrap();
    let mut state = BfState::<u8>::zeroed(4, Reader::failing()).unwrap();
    let mut batch = WriteBatch::new();
    let mut idx = 0;
    while idx < 3 {
        idx = stream.step(&mut state, &mut batch, idx).unwrap();
    }
    assert_eq!(batch.buf, vec![7u8]);
    assert_eq!(state.output(), &[] as &[u8]);
    let stopped = stream.step(&mut state, &mut batch, idx);
    assert_eq!(stopped, Err(BfExecError { source: BfExecErrorTy::IOError, idx: 3 }));
    assert!(batch.buf.is_empty());
    assert_eq!(state.output(), &[7u8][..]);
    assert_eq!(state.flushed(), 1);

    let mut state = BfState::<u8>::zeroed(4, Reader::new(&[0])).unwrap();
    assert_eq!(stream.run(&mut state), Ok(()));
    assert_eq!(state.output(), &[7u8][..]);
}

#[test]
fn a_stepped_run_stopped_by_an_error_hands_on_its_batch() {
    let stream = compile("+[.<]");
    let mut state = BfState::<u8>::zeroed(4, Reader::empty()).unwrap();
    let mut batch = WriteBatch::new();
    let mut idx = 0;
    let stopped = loop {
        match stream.step(&mut state, &mut batch, idx) {
            Ok(next) => idx = next,
            Err(e) => break e,
        }
    };
    assert_eq!(stopped, BfExecError { source: BfExecErrorTy::Underflow, idx: 3 });
    assert!(batch.buf.is_empty());
    assert_eq!(state.output(), &[1u8][..]);
}

#[test]
fn step_by_step_run_agrees() {
    let stream = compile("++[>+.<-]>.");
    let mut state = BfState::<u8>::zeroed(10, Reader::empty()).unwrap();
    let mut batch = WriteBatch::new();
    let mut idx = 0;
    while idx < stream.0.len() {
        idx = stream.step(&mut state, &mut batch, idx).unwrap();
    }
    assert_eq!(state.output(), &[1u8, 2, 2][..]);
    assert!(!batch.active);
    assert!(batch.buf.is_empty());
}

#[test]
fn batch_helpers() {
    let mut state = BfState::<u8>::zeroed(2, Reader::empty()).unwrap();
    state.set(7);
    let mut buf = vec![1u8; 31];
    InterpreterStream::write(&mut buf, &mut state).unwrap();
    assert_eq!(buf.len(), 32);
    assert_eq!(state.output(), &[] as &[u8]);
    InterpreterStream::write(&mut buf, &mut state).unwrap();
    assert_eq!(buf, vec![7u8]);
    assert_eq!(state.output().len(), 32);
    InterpreterStream::softflush(&mut buf, &mut state).unwrap();
    assert!(buf.is_empty());
    assert_eq!(state.output().len(), 33);
    assert_eq!(state.output()[32], 7);
}

#[test]
fn quiet_bodies_neither_loop_nor_read() {
    assert!(ITree::is_quiet(&[]));
    assert!(ITree::is_quiet(&[ITree::Write, ITree::Inc(1), ITree::IncPtr(2), ITree::Zero]));
    assert!(ITree::is_quiet(&[ITree::If(vec![ITree::Write, ITree::Zero])]));
    assert!(ITree::is_quiet(&[ITree::Mul(0..1, vec![MulArg { offset: 1, change: 1 }])]));
    assert!(!ITree::is_quiet(&[ITree::Read]));
    assert!(!ITree::is_quiet(&[ITree::Loop(vec![])]));
    assert!(!ITree::is_quiet(&[ITree::WriteLoop(vec![ITree::Write])]));
    assert!(!ITree::is_quiet(&[ITree::Write, ITree::If(vec![ITree::Zero, ITree::If(vec![ITree::Read])])]));
}

#[test]
fn a_loop_with_a_read_under_an_if_is_not_batched() {
    let mut tree = Token::to_tree(&Token::parse(b"+[.[,[-]]]")).unwrap();
    rewrite_zero(&mut tree);
    rewrite_multiply(&mut tree);
    find_if_conditions(&mut tree);
    rewrite_write_loops(&mut tree);
    assert_eq!(
        tree,
        vec![
            ITree::Inc(1),
            ITree::Loop(vec![ITree::Write, ITree::If(vec![ITree::Read, ITree::Zero])]),
        ]
    );
    let mut tree = vec![
        ITree::Inc(1),
        ITree::Loop(vec![ITree::Write, ITree::If(vec![ITree::Read, ITree::Zero]), ITree::Inc(1)]),
    ];
    rewrite_write_loops(&mut tree);
    assert!(matches!(tree[1], ITree::Loop(_)));
}
