use bf_engine::compiler::{BfInstruc, BfInstructionStream};
use bf_engine::direct::interpret;
use bf_engine::interpreter::BrainFuckExecutor;
use bf_engine::ir::{
    find_if_conditions, rewrite_multiply, rewrite_write_loops, rewrite_zero, ITree, Token,
};
use bf_engine::minibit::BTapeStream;
use bf_engine::state::{BfState, Reader};

const HELLO: &str = "++++++++[>++++[>++>+++>+++>+<<<<-]>+>+>->>+[<]<-]>>.>---.+++++++..+++.>>.<-.<.+++.------.--------.>>+.>++.";

fn fresh(input: &[u8]) -> BfState<u8> {
    BfState::<u8>::zeroed(30_000, Reader::new(input)).unwrap()
}

fn stream_output(code: &str, input: &[u8]) -> Vec<u8> {
    let stream = BfInstructionStream::<u8>::optimized_from_text(code.as_bytes(), None).unwrap();
    let mut env = BrainFuckExecutor { state: fresh(input), instruction_limit: 0 };
    env.run(stream.as_slice()).unwrap();
    env.state.output().to_vec()
}

fn tree_output(code: &str, input: &[u8]) -> Vec<u8> {
    let mut tree = Token::to_tree(&Token::parse(code.as_bytes())).unwrap();
    rewrite_zero(&mut tree);
    rewrite_multiply(&mut tree);
    find_if_conditions(&mut tree);
    rewrite_write_loops(&mut tree);
    let stream = ITree::synthesize(&tree).unwrap();
    let mut state = fresh(input);
    stream.run(&mut state).unwrap();
    state.output().to_vec()
}

fn bytecode_output(code: &str, input: &[u8]) -> Vec<u8> {
    let stream = BTapeStream::from_bf(code.as_bytes()).unwrap();
    let mut state = fresh(input);
    stream.run(&mut state).unwrap();
    state.output().to_vec()
}

fn direct_output(code: &str, input: &[u8]) -> Vec<u8> {
    let mut state = fresh(input);
    interpret(code.as_bytes(), &mut state).ok().unwrap();
    state.output().to_vec()
}

fn all_agree(code: &str, input: &[u8]) -> Vec<u8> {
    let out = direct_output(code, input);
    assert_eq!(stream_output(code, input), out);
    assert_eq!(tree_output(code, input), out);
    assert_eq!(bytecode_output(code, input), out);
    out
}

#[test]
fn all_interpreters_print_hello_world() {
    assert_eq!(all_agree(HELLO, b""), b"Hello World!\n");
}

#[test]
fn all_interpreters_echo_their_input() {
    assert_eq!(all_agree(",[.,]", b"echo me"), b"echo me");
    assert_eq!(all_agree(",[.[-],]", b"ab"), b"ab");
}

#[test]
fn all_interpreters_agree_on_folded_runs() {
    let mut code = "+".repeat(300);
    code.push('.');
    code.push_str(&">".repeat(40));
    code.push_str(&"-".repeat(33));
    code.push('.');
    code.push_str(&"<".repeat(40));
    code.push('.');
    assert_eq!(all_agree(&code, b""), vec![44, 223, 44]);
}

#[test]
fn all_interpreters_agree_on_comments_and_nesting() {
    let code = "++ two [ > +++ three [ > ++ < - ] < - ] >> . twelve";
    assert_eq!(all_agree(code, b""), vec![12]);
    let code = "+[[-]+>[-]<[->+<]>[.[-]]]";
    assert_eq!(all_agree(code, b""), vec![1]);
}

#[test]
fn all_interpreters_agree_on_multiply_loops() {
    let code = ">+++++[<+++>>++<-]<.>>.[-<<->>]<<.";
    assert_eq!(all_agree(code, b""), vec![15, 10, 5]);
}

#[test]
fn stream_round_trips_through_a_vector() {
    let stream = BfInstructionStream::<u8>::from(vec![BfInstruc::Inc, BfInstruc::Write]);
    assert_eq!(stream.reccomended_array_size(), 2);
    let mut env = BrainFuckExecutor { state: fresh(b""), instruction_limit: 0 };
    env.run(stream.as_slice()).unwrap();
    assert_eq!(env.state.output(), &[1u8][..]);
    assert_eq!(stream.into_vec().len(), 2);
}

#[test]
fn output_can_be_drained() {
    let mut state = fresh(b"");
    state.set(5);
    state.write().unwrap();
    state.flush();
    assert_eq!(state.drain_output(), vec![5]);
    assert_eq!(state.output(), &[] as &[u8]);
    assert_eq!(state.flushed(), 0);
    state.write().unwrap();
    assert_eq!(state.drain_output(), vec![5]);
}

#[test]
fn clearing_loops_clear_whatever_the_cell_holds() {
    for v in [0usize, 1, 7, 255] {
        for step in ["+", "-"] {
            let code = format!(">+++>{}[{}]<<", "+".repeat(v), step);
            let stream =
                BfInstructionStream::<u8>::optimized_from_text(code.as_bytes(), None).unwrap();
            let mut env = BrainFuckExecutor { state: fresh(b""), instruction_limit: 0 };
            env.run(stream.as_slice()).unwrap();
            assert_eq!(&env.state.cells()[..4], &[0u8, 3, 0, 0][..]);
            assert_eq!(env.state.ptr(), 0);
            let mut state = fresh(b"");
            interpret(code.as_bytes(), &mut state).ok().unwrap();
            assert_eq!(&state.cells()[..4], &[0u8, 3, 0, 0][..]);
            let mut tree = Token::to_tree(&Token::parse(code.as_bytes())).unwrap();
            rewrite_zero(&mut tree);
            let lowered = ITree::synthesize(&tree).unwrap();
            let mut state = fresh(b"");
            lowered.run(&mut state).unwrap();
            assert_eq!(&state.cells()[..4], &[0u8, 3, 0, 0][..]);
            assert_eq!(all_agree(&format!("{}.", code), b""), vec![0]);
        }
    }
}
