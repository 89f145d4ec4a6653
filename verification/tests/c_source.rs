use bf_engine::c_source::{byte_to_hex_literal, to_decimal, BfExecState};
use bf_engine::cell::BfOptimizable;
use bf_engine::compiler::{BfInstruc, BfInstructionStream};
use bf_engine::consteval::{decide, render_c_deadline, throughput, Slice, Verdict};
use bf_engine::error::{BfExecError, BfExecErrorTy};
use bf_engine::interpreter::{new_in_memory, BrainFuckExecutor};
use bf_engine::state::Reader;
use std::time::{Duration, Instant};

const HEADER_U8_30000: &str = "#include <stdio.h>\n#define ARRSIZE 30000\nvoid w(char v) { fputc(v, stdout); }\nvoid r(unsigned char* a) { fflush(stdout); *a = fgetc(stdin); if (feof(stdin)) *a = 0; }\nint main() {\nunsigned char arr[ARRSIZE] = {0,};\nunsigned char* restrict a = arr;\n";

#[test]
fn decimal_text() {
    assert_eq!(to_decimal(0), "0");
    assert_eq!(to_decimal(7), "7");
    assert_eq!(to_decimal(10), "10");
    assert_eq!(to_decimal(30_000), "30000");
    assert_eq!(to_decimal(1234567890), "1234567890");
    assert_eq!(to_decimal(u64::MAX), "18446744073709551615");
}

#[test]
fn hex_escapes() {
    assert_eq!(byte_to_hex_literal(0), "\\x00");
    assert_eq!(byte_to_hex_literal(0x41), "\\x41");
    assert_eq!(byte_to_hex_literal(0xaf), "\\xAF");
    assert_eq!(byte_to_hex_literal(0xff), "\\xFF");
}

#[test]
fn cell_types_have_c_names() {
    assert_eq!(<u8 as BfOptimizable>::c_int_name(), "unsigned char");
    assert_eq!(<u16 as BfOptimizable>::c_int_name(), "unsigned short");
    assert_eq!(<u32 as BfOptimizable>::c_int_name(), "unsigned int");
    assert_eq!(<u8 as BfOptimizable>::max(), 255);
    assert_eq!(<u16 as BfOptimizable>::max(), 65535);
    assert_eq!(<u32 as BfOptimizable>::zero(), 0);
    assert_eq!(<u8 as BfOptimizable>::truncate_from(0x1234), 0x34);
    assert_eq!(<u16 as BfOptimizable>::truncate_from(0x12345), 0x2345);
    assert_eq!(<u16 as BfOptimizable>::truncate_u8(0x1234), 0x34);
    assert_eq!(BfOptimizable::wrapping_mul(200u8, 3u8), 88);
}

#[test]
fn statements_for_instructions() {
    assert_eq!(BfInstruc::<u8>::Zero.write_c_for(), "*a=0;");
    assert_eq!(BfInstruc::<u8>::Inc.write_c_for(), "++*a;");
    assert_eq!(BfInstruc::<u8>::Dec.write_c_for(), "--*a;");
    assert_eq!(BfInstruc::<u8>::IncPtr.write_c_for(), "++a;");
    assert_eq!(BfInstruc::<u8>::DecPtr.write_c_for(), "--a;");
    assert_eq!(BfInstruc::<u8>::Write.write_c_for(), "w(*a);");
    assert_eq!(BfInstruc::<u8>::Read.write_c_for(), "r(a);");
    assert_eq!(BfInstruc::<u8>::LStart(3).write_c_for(), "while(*a!=0){");
    assert_eq!(BfInstruc::<u8>::LEnd(3).write_c_for(), "}");
    assert_eq!(BfInstruc::<u8>::IncBy(200).write_c_for(), "*a+=200;");
    assert_eq!(BfInstruc::<u16>::DecBy(4000).write_c_for(), "*a-=4000;");
    assert_eq!(BfInstruc::<u8>::IncPtrBy(12).write_c_for(), "a+=12;");
    assert_eq!(BfInstruc::<u8>::DecPtrBy(7).write_c_for(), "a-=7;");
}

#[test]
fn instructions_from_bytes() {
    assert!(matches!(BfInstruc::<u8>::try_from(b'+'), Ok(BfInstruc::Inc)));
    assert!(matches!(BfInstruc::<u8>::try_from(b'['), Ok(BfInstruc::LStart(0))));
    assert!(matches!(BfInstruc::<u8>::try_from(b']'), Ok(BfInstruc::LEnd(0))));
    assert!(matches!(BfInstruc::<u8>::try_from(b'x'), Err(b'x')));
    assert!(BfInstruc::<u8>::Inc.is_multi_optimizable());
    assert!(!BfInstruc::<u8>::Write.is_multi_optimizable());
    assert!(matches!(BfInstruc::<u8>::Inc.as_multi_with(258), Some(BfInstruc::IncBy(2))));
    assert!(matches!(BfInstruc::<u32>::Dec.as_multi_with(258), Some(BfInstruc::DecBy(258))));
    assert!(matches!(BfInstruc::<u8>::DecPtr.as_multi_with(258), Some(BfInstruc::DecPtrBy(258))));
    assert!(BfInstruc::<u8>::Read.as_multi_with(2).is_none());
}

#[test]
fn cold_source() {
    let code = BfInstructionStream::<u8>::optimized_from_text(b"++[>,.<-]", None).unwrap();
    let expect = format!(
        "{}*a+=2;\nwhile(*a!=0){{\n++a;\nr(a);\nw(*a);\n--a;\n--*a;\n}}\n}}\n",
        HEADER_U8_30000
    );
    assert_eq!(code.render_c(), expect);
    assert_eq!(code.render_c(), code.render_c());
}

#[test]
fn cold_source_names_the_cell_type() {
    let code = BfInstructionStream::<u16>::optimized_from_text(b"", Some(5)).unwrap();
    assert_eq!(
        code.render_c(),
        "#include <stdio.h>\n#define ARRSIZE 5\nvoid w(char v) { fputc(v, stdout); }\nvoid r(unsigned short* a) { fflush(stdout); *a = fgetc(stdin); if (feof(stdin)) *a = 0; }\nint main() {\nunsigned short arr[ARRSIZE] = {0,};\nunsigned short* restrict a = arr;\n}\n"
    );
    assert_eq!(code.write_c_header() + "}\n", code.render_c());
}

#[test]
fn byte_strings() {
    assert_eq!(
        BfInstructionStream::<u8>::write_bytestring_c(b"A\n"),
        "fwrite(\"\\x41\\x0A\", 1, 2, stdout);\nfflush(stdout);\n"
    );
}

#[test]
fn source_of_a_program_that_has_ended() {
    let code = BfInstructionStream::<u8>::optimized_from_text(b"+.", None).unwrap();
    let state = BfExecState { cursor: 3, data: &[1u8, 0, 2], instruction_pointer: None };
    let expect = format!(
        "{}fwrite(\"\\x01\", 1, 1, stdout);\nfflush(stdout);\n}}\n",
        HEADER_U8_30000
    );
    assert_eq!(code.render_interpreted_c(&state, &[1]), expect);
    let expect = format!("{}}}\n", HEADER_U8_30000);
    assert_eq!(code.render_interpreted_c(&state, &[]), expect);
}

#[test]
fn source_of_a_snapshot() {
    let code = BfInstructionStream::<u8>::optimized_from_text(b"+>,.", None).unwrap();
    let state = BfExecState { cursor: 1, data: &[1u8, 0, 200], instruction_pointer: Some(2) };
    let expect = format!(
        "{}a[0] = 1;\na[2] = 200;\na += 1;\ngoto startpos_jump;\n++*a;\n++a;\nstartpos_jump:\nr(a);\nw(*a);\n}}\n",
        HEADER_U8_30000
    );
    assert_eq!(code.render_interpreted_c(&state, &[]), expect);
    let state = BfExecState { cursor: 0, data: &[0u8, 0], instruction_pointer: Some(0) };
    let expect = format!("{}++*a;\n++a;\nr(a);\nw(*a);\n}}\n", HEADER_U8_30000);
    assert_eq!(code.render_interpreted_c(&state, &[]), expect);
}

#[test]
fn throughput_formula() {
    assert_eq!(throughput(100_000, 1_000_000), Some(100_000_000));
    assert_eq!(throughput(100_000, 3), Some(33_333_333_333_333));
    assert_eq!(throughput(0, 5), Some(0));
    assert_eq!(throughput(7, 0), None);
    assert_eq!(throughput(u32::MAX, 1), Some(u32::MAX as u128 * 1_000_000_000));
}

#[test]
fn throughput_estimates() {
    if let Some(rate) = BrainFuckExecutor::<u8>::estimate_instructions_per_second() {
        assert!(rate > 0);
    }
    let stream = [BfInstruc::<u8>::Inc, BfInstruc::Dec];
    let rate = BrainFuckExecutor::<u8>::estimate_instructions_per_second_from_stream(&stream);
    assert!(rate.is_ok());
    let stream = [BfInstruc::<u8>::Inc, BfInstruc::DecPtr];
    assert_eq!(
        BrainFuckExecutor::<u8>::estimate_instructions_per_second_from_stream(&stream),
        Err(BfExecError { source: BfExecErrorTy::Underflow, idx: 1 })
    );
}

#[test]
fn verdicts() {
    assert_eq!(decide(Ok(()), false), Verdict::Render(None));
    assert_eq!(decide(Ok(()), true), Verdict::Render(None));
    let at = |source| Err(BfExecError { source, idx: 4 });
    assert_eq!(decide(at(BfExecErrorTy::IOError), false), Verdict::Render(Some(4)));
    assert_eq!(
        decide(at(BfExecErrorTy::NotEnoughInstructions), false),
        Verdict::Resume(4)
    );
    assert_eq!(
        decide(at(BfExecErrorTy::NotEnoughInstructions), true),
        Verdict::Render(Some(4))
    );
    assert_eq!(
        decide(at(BfExecErrorTy::Overflow), true),
        Verdict::Fail(BfExecErrorTy::Overflow)
    );
    assert_eq!(
        decide(at(BfExecErrorTy::Underflow), false),
        Verdict::Fail(BfExecErrorTy::Underflow)
    );
    assert_eq!(
        decide(at(BfExecErrorTy::InitOverflow), false),
        Verdict::Fail(BfExecErrorTy::InitOverflow)
    );
}

fn partial(code: &str, budget: u64) -> Result<String, BfExecErrorTy> {
    let code = BfInstructionStream::<u8>::optimized_from_text(code.as_bytes(), Some(4)).unwrap();
    let mut env = new_in_memory::<u8>(code.reccomended_array_size(), Reader::failing()).unwrap();
    let deadline = Instant::now() + Duration::from_secs(3600);
    let mut at = 0;
    loop {
        env.add_instruction_limit(budget).unwrap();
        match render_c_deadline(&code, &mut env, at, &deadline) {
            Slice::Rendered(text) => return Ok(text),
            Slice::Resume(idx) => at = idx,
            Slice::Failed(e) => return Err(e),
        }
    }
}

const HEADER_U8_4: &str = "#include <stdio.h>\n#define ARRSIZE 4\nvoid w(char v) { fputc(v, stdout); }\nvoid r(unsigned char* a) { fflush(stdout); *a = fgetc(stdin); if (feof(stdin)) *a = 0; }\nint main() {\nunsigned char arr[ARRSIZE] = {0,};\nunsigned char* restrict a = arr;\n";

#[test]
fn partial_evaluation_of_a_program_without_input() {
    let expect = format!(
        "{}fwrite(\"\\x41\", 1, 1, stdout);\nfflush(stdout);\n}}\n",
        HEADER_U8_4
    );
    for budget in [1, 3, 1000] {
        assert_eq!(partial("++++[>++++[>++++<-]<-]>>+.", budget), Ok(expect.clone()));
    }
}

#[test]
fn partial_evaluation_stops_at_the_first_read() {
    let expect = format!(
        "{}fwrite(\"\\x02\", 1, 1, stdout);\nfflush(stdout);\na[0] = 2;\na += 1;\ngoto startpos_jump;\n*a+=2;\nw(*a);\n++a;\nstartpos_jump:\nr(a);\nw(*a);\n}}\n",
        HEADER_U8_4
    );
    for budget in [1, 2, 1000] {
        assert_eq!(partial("++.>,.", budget), Ok(expect.clone()));
    }
}

#[test]
fn partial_evaluation_fails_when_the_program_leaves_the_tape() {
    assert_eq!(partial("+[>+]", 5), Err(BfExecErrorTy::Overflow));
    assert_eq!(partial("+<", 5), Err(BfExecErrorTy::Underflow));
}

#[test]
fn partial_evaluation_gives_up_at_the_deadline() {
    let code = BfInstructionStream::<u8>::optimized_from_text(b"+[]", Some(4)).unwrap();
    let mut env = new_in_memory::<u8>(4, Reader::failing()).unwrap();
    let deadline = Instant::now();
    while deadline.elapsed() == Duration::ZERO {}
    env.add_instruction_limit(10).unwrap();
    match render_c_deadline(&code, &mut env, 0, &deadline) {
        Slice::Rendered(text) => {
            assert!(text.starts_with(HEADER_U8_4));
            assert!(text.contains("a[0] = 1;\n"));
            assert!(text.contains("goto startpos_jump;\n"));
        }
        _ => panic!("expected the source"),
    }
}
