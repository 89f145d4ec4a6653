//! Rendering of the direct instruction stream as C source, either from a
//! cold start or resuming from a snapshot of a partly run program.

use crate::cell::BfOptimizable;
use crate::compiler::{BfInstruc, BfInstructionStream};
use vstd::prelude::*;

verus! {

/// A snapshot of a partly run program: the head position, the tape, and
/// the index of the instruction to resume at, if the program has not ended.
pub struct BfExecState<'a, T: BfOptimizable> {
    pub cursor: usize,
    pub data: &'a [T],
    pub instruction_pointer: Option<usize>,
}

/// The text of one decimal digit.
pub open spec fn digit_text(d: int) -> Seq<char> {
    if d == 0 {
        "0"@
    } else if d == 1 {
        "1"@
    } else if d == 2 {
        "2"@
    } else if d == 3 {
        "3"@
    } else if d == 4 {
        "4"@
    } else if d == 5 {
        "5"@
    } else if d == 6 {
        "6"@
    } else if d == 7 {
        "7"@
    } else if d == 8 {
        "8"@
    } else {
        "9"@
    }
}

/// The decimal text of a number, without leading zeros.
pub open spec fn decimal(n: nat) -> Seq<char>
    decreases n,
{
    if n < 10 {
        digit_text(n as int)
    } else {
        decimal(n / 10) + digit_text((n % 10) as int)
    }
}

/// The text of one upper-case hexadecimal digit.
pub open spec fn hex_digit_text(d: int) -> Seq<char> {
    if d < 10 {
        digit_text(d)
    } else if d == 10 {
        "A"@
    } else if d == 11 {
        "B"@
    } else if d == 12 {
        "C"@
    } else if d == 13 {
        "D"@
    } else if d == 14 {
        "E"@
    } else {
        "F"@
    }
}

/// The C escape of a byte: a backslash, `x` and two hexadecimal digits.
pub open spec fn hex_literal(b: u8) -> Seq<char> {
    "\\x"@ + hex_digit_text(b as int / 16) + hex_digit_text(b as int % 16)
}

/// The escapes of a byte string, in order.
pub open spec fn hex_literals(bytes: Seq<u8>) -> Seq<char>
    decreases bytes.len(),
{
    if bytes.len() == 0 {
        Seq::empty()
    } else {
        hex_literals(bytes.drop_last()) + hex_literal(bytes.last())
    }
}

/// The C statements that print `written` in one call and flush.
pub open spec fn bytestring_c(written: Seq<u8>) -> Seq<char> {
    "fwrite(\""@ + hex_literals(written) + "\", 1, "@ + decimal(written.len()) + ", stdout);\n"@
        + "fflush(stdout);\n"@
}

/// The C statement for one instruction.
pub open spec fn c_for<T: BfOptimizable>(i: BfInstruc<T>) -> Seq<char> {
    match i {
        BfInstruc::Zero => "*a=0;"@,
        BfInstruc::Inc => "++*a;"@,
        BfInstruc::Dec => "--*a;"@,
        BfInstruc::IncPtr => "++a;"@,
        BfInstruc::DecPtr => "--a;"@,
        BfInstruc::Write => "w(*a);"@,
        BfInstruc::Read => "r(a);"@,
        BfInstruc::LStart(_) => "while(*a!=0){"@,
        BfInstruc::LEnd(_) => "}"@,
        BfInstruc::IncBy(amount) => "*a+="@ + decimal(amount.val() as nat) + ";"@,
        BfInstruc::DecBy(amount) => "*a-="@ + decimal(amount.val() as nat) + ";"@,
        BfInstruc::IncPtrBy(amount) => "a+="@ + decimal(amount as nat) + ";"@,
        BfInstruc::DecPtrBy(amount) => "a-="@ + decimal(amount as nat) + ";"@,
    }
}

/// The fixed opening of every emitted program, for a tape of `size` cells
/// of the C type `name`.
pub open spec fn c_header(name: Seq<char>, size: nat) -> Seq<char> {
    "#include <stdio.h>\n#define ARRSIZE "@ + decimal(size) + "\n"@
        + "void w(char v) { fputc(v, stdout); }\n"@ + "void r("@ + name
        + "* a) { fflush(stdout); *a = fgetc(stdin); if (feof(stdin)) *a = 0; }\n"@
        + "int main() {\n"@ + name + " arr[ARRSIZE] = {0,};\n"@ + name + "* restrict a = arr;\n"@
}

/// `text` with the label line behind it, if the instruction at `idx` is
/// the one to resume at and not the first.
pub open spec fn labelled(text: Seq<char>, idx: int, label: int) -> Seq<char> {
    if idx == label && label != 0 {
        text + "startpos_jump:\n"@
    } else {
        text
    }
}

/// `text` with one line behind it for each instruction; the line of the
/// instruction at `label` is preceded by the label line, unless `label`
/// is zero.
pub open spec fn c_lines<T: BfOptimizable>(
    text: Seq<char>,
    s: Seq<BfInstruc<T>>,
    label: int,
) -> Seq<char>
    decreases s.len(),
{
    if s.len() == 0 {
        text
    } else {
        labelled(c_lines(text, s.drop_last(), label), s.len() - 1, label) + c_for(s.last())
            + "\n"@
    }
}

/// The C source of a program run from a cold start.
pub open spec fn cold_c<T: BfOptimizable>(s: Seq<BfInstruc<T>>, size: nat) -> Seq<char> {
    c_lines(c_header(T::c_name(), size), s, 0) + "}\n"@
}

/// The assignment that restores the cell at `idx` to `v`.
pub open spec fn c_cell(idx: nat, v: nat) -> Seq<char> {
    "a["@ + decimal(idx) + "] = "@ + decimal(v) + ";\n"@
}

/// `text` with one assignment behind it for each cell that is not zero,
/// in tape order.
pub open spec fn c_cells(text: Seq<char>, data: Seq<int>) -> Seq<char>
    decreases data.len(),
{
    if data.len() == 0 {
        text
    } else if data.last() != 0 {
        c_cells(text, data.drop_last()) + c_cell((data.len() - 1) as nat, data.last() as nat)
    } else {
        c_cells(text, data.drop_last())
    }
}

/// `text` with the statement behind it that moves the head to `cursor`,
/// unless that is zero.
pub open spec fn c_cursor(text: Seq<char>, cursor: nat) -> Seq<char> {
    if cursor != 0 {
        text + ("a += "@ + decimal(cursor) + ";\n"@)
    } else {
        text
    }
}

/// `text` with the jump to the label behind it, unless the program
/// resumes at its first instruction.
pub open spec fn c_goto(text: Seq<char>, left_off: nat) -> Seq<char> {
    if left_off != 0 {
        text + "goto startpos_jump;\n"@
    } else {
        text
    }
}

/// `text` with the output so far printed behind it, if there is any.
pub open spec fn c_written(text: Seq<char>, written: Seq<u8>) -> Seq<char> {
    if written.len() != 0 {
        text + bytestring_c(written)
    } else {
        text
    }
}

/// `text` with what restores a snapshot and resumes the program behind
/// it, unless the program has ended.
pub open spec fn c_resume<T: BfOptimizable>(
    text: Seq<char>,
    s: Seq<BfInstruc<T>>,
    data: Seq<int>,
    cursor: nat,
    instruction_pointer: Option<usize>,
) -> Seq<char> {
    match instruction_pointer {
        Some(left_off) => c_lines(
            c_goto(c_cursor(c_cells(text, data), cursor), left_off as nat),
            s,
            left_off as int,
        ),
        None => text,
    }
}

/// The C source of a program that has been run in part: the output so
/// far is printed at once, and, unless the program has ended, the tape is
/// restored and the program resumed.
pub open spec fn interpreted_c<T: BfOptimizable>(
    s: Seq<BfInstruc<T>>,
    size: nat,
    data: Seq<int>,
    cursor: nat,
    instruction_pointer: Option<usize>,
    written: Seq<u8>,
) -> Seq<char> {
    c_resume(
        c_written(c_header(T::c_name(), size), written),
        s,
        data,
        cursor,
        instruction_pointer,
    ) + "}\n"@
}

fn digit_str(d: u64) -> (r: &'static str)
    requires
        d < 10,
    ensures
        r@ == digit_text(d as int),
{
    if d == 0 {
        "0"
    } else if d == 1 {
        "1"
    } else if d == 2 {
        "2"
    } else if d == 3 {
        "3"
    } else if d == 4 {
        "4"
    } else if d == 5 {
        "5"
    } else if d == 6 {
        "6"
    } else if d == 7 {
        "7"
    } else if d == 8 {
        "8"
    } else {
        "9"
    }
}

fn hex_digit_str(d: u8) -> (r: &'static str)
    requires
        d < 16,
    ensures
        r@ == hex_digit_text(d as int),
{
    if d < 10 {
        digit_str(d as u64)
    } else if d == 10 {
        "A"
    } else if d == 11 {
        "B"
    } else if d == 12 {
        "C"
    } else if d == 13 {
        "D"
    } else if d == 14 {
        "E"
    } else {
        "F"
    }
}

/// The decimal text of `n`.
pub fn to_decimal(n: u64) -> (r: String)
    ensures
        r@ == decimal(n as nat),
    decreases n,
{
    if n >= 10 {
        let mut out = to_decimal(n / 10);
        out.append(digit_str(n % 10));
        out
    } else {
        String::from_str(digit_str(n))
    }
}

/// The C escape of a byte.
pub fn byte_to_hex_literal(b: u8) -> (r: String)
    ensures
        r@ == hex_literal(b),
{
    let mut out = String::from_str("\\x");
    out.append(hex_digit_str(b / 16));
    out.append(hex_digit_str(b % 16));
    out
}

/// `prefix`, the decimal text of `n`, and `suffix`.
fn around_decimal(prefix: &str, n: u64, suffix: &str) -> (r: String)
    ensures
        r@ == prefix@ + decimal(n as nat) + suffix@,
{
    let mut out = String::from_str(prefix);
    let number = to_decimal(n);
    out.append(number.as_str());
    out.append(suffix);
    out
}

impl<T: BfOptimizable> BfInstruc<T> {
    /// The C statement for the instruction.
    pub fn write_c_for(&self) -> (r: String)
        ensures
            r@ == c_for(*self),
    {
        match self {
            BfInstruc::Zero => String::from_str("*a=0;"),
            BfInstruc::Inc => String::from_str("++*a;"),
            BfInstruc::Dec => String::from_str("--*a;"),
            BfInstruc::IncPtr => String::from_str("++a;"),
            BfInstruc::DecPtr => String::from_str("--a;"),
            BfInstruc::Write => String::from_str("w(*a);"),
            BfInstruc::Read => String::from_str("r(a);"),
            BfInstruc::LStart(_) => String::from_str("while(*a!=0){"),
            BfInstruc::LEnd(_) => String::from_str("}"),
            BfInstruc::IncBy(amount) => {
                proof {
                    amount.lemma_val_range();
                }
                around_decimal("*a+=", amount.into_u32() as u64, ";")
            },
            BfInstruc::DecBy(amount) => {
                proof {
                    amount.lemma_val_range();
                }
                around_decimal("*a-=", amount.into_u32() as u64, ";")
            },
            BfInstruc::IncPtrBy(amount) => around_decimal("a+=", *amount as u64, ";"),
            BfInstruc::DecPtrBy(amount) => around_decimal("a-=", *amount as u64, ";"),
        }
    }
}

impl<T: BfOptimizable> BfInstructionStream<T> {
    /// The fixed opening of every emitted program.
    pub fn write_c_header(&self) -> (r: String)
        ensures
            r@ == c_header(T::c_name(), self.spec_array_size() as nat),
    {
        let name = T::c_int_name();
        let size = to_decimal(self.reccomended_array_size() as u64);
        let mut out = String::from_str("#include <stdio.h>\n#define ARRSIZE ");
        out.append(size.as_str());
        out.append("\n");
        out.append("void w(char v) { fputc(v, stdout); }\n");
        out.append("void r(");
        out.append(name);
        out.append("* a) { fflush(stdout); *a = fgetc(stdin); if (feof(stdin)) *a = 0; }\n");
        out.append("int main() {\n");
        out.append(name);
        out.append(" arr[ARRSIZE] = {0,};\n");
        out.append(name);
        out.append("* restrict a = arr;\n");
        out
    }

    /// Appends one line for each instruction, with the label line before
    /// the instruction at `label` unless `label` is zero.
    fn write_c_lines(&self, label: usize, out: &mut String)
        ensures
            final(out)@ == c_lines(old(out)@, self@, label as int),
    {
        let stream = self.as_slice();
        let mut idx: usize = 0;
        proof {
            assert(stream@.take(0) =~= Seq::<BfInstruc<T>>::empty());
        }
        while idx < stream.len()
            invariant
                idx <= stream.len(),
                stream@ == self@,
                out@ == c_lines(old(out)@, stream@.take(idx as int), label as int),
            decreases stream.len() - idx,
        {
            proof {
                let next = stream@.take(idx + 1);
                assert(next.drop_last() =~= stream@.take(idx as int));
                assert(next.last() == stream@[idx as int]);
            }
            if idx == label && label != 0 {
                out.append("startpos_jump:\n");
            }
            let line = stream[idx].write_c_for();
            out.append(line.as_str());
            out.append("\n");
            idx = idx + 1;
        }
        proof {
            assert(stream@.take(idx as int) =~= stream@);
        }
    }

    /// The C source of the program, run from a cold start.
    pub fn render_c(&self) -> (r: String)
        ensures
            r@ == cold_c(self@, self.spec_array_size() as nat),
    {
        let mut out = self.write_c_header();
        self.write_c_lines(0, &mut out);
        out.append("}\n");
        out
    }

    /// The C statements that print `write` in one call and flush.
    pub fn write_bytestring_c(write: &[u8]) -> (r: String)
        ensures
            r@ == bytestring_c(write@),
    {
        let mut escapes = String::new();
        let mut i: usize = 0;
        proof {
            assert(write@.take(0) =~= Seq::<u8>::empty());
        }
        while i < write.len()
            invariant
                i <= write.len(),
                escapes@ == hex_literals(write@.take(i as int)),
            decreases write.len() - i,
        {
            proof {
                let next = write@.take(i + 1);
                assert(next.drop_last() =~= write@.take(i as int));
                assert(next.last() == write@[i as int]);
            }
            let lit = byte_to_hex_literal(write[i]);
            escapes.append(lit.as_str());
            i = i + 1;
        }
        proof {
            assert(write@.take(i as int) =~= write@);
        }
        let count = to_decimal(write.len() as u64);
        let mut out = String::from_str("fwrite(\"");
        out.append(escapes.as_str());
        out.append("\", 1, ");
        out.append(count.as_str());
        out.append(", stdout);\n");
        out.append("fflush(stdout);\n");
        out
    }

    /// The assignment that restores the cell at `idx` to `v`.
    fn write_c_cell(idx: usize, v: u32) -> (r: String)
        ensures
            r@ == c_cell(idx as nat, v as nat),
    {
        let at = to_decimal(idx as u64);
        let value = to_decimal(v as u64);
        let mut out = String::from_str("a[");
        out.append(at.as_str());
        out.append("] = ");
        out.append(value.as_str());
        out.append(";\n");
        out
    }

    /// Appends one assignment for each cell that is not zero.
    fn write_c_cells(data: &[T], out: &mut String)
        ensures
            final(out)@ == c_cells(old(out)@, Seq::new(data@.len(), |i: int| data@[i].val())),
    {
        let ghost vals = Seq::new(data@.len(), |i: int| data@[i].val());
        let mut idx: usize = 0;
        proof {
            assert(vals.take(0) =~= Seq::<int>::empty());
        }
        while idx < data.len()
            invariant
                idx <= data.len(),
                vals == Seq::new(data@.len(), |i: int| data@[i].val()),
                out@ == c_cells(old(out)@, vals.take(idx as int)),
            decreases data.len() - idx,
        {
            let b = data[idx];
            proof {
                b.lemma_val_range();
                let next = vals.take(idx + 1);
                assert(next.drop_last() =~= vals.take(idx as int));
                assert(next.last() == b.val());
            }
            if b.into_u32() != 0 {
                let line = Self::write_c_cell(idx, b.into_u32());
                out.append(line.as_str());
            }
            idx = idx + 1;
        }
        proof {
            assert(vals.take(idx as int) =~= vals);
        }
    }

    /// The C source of the program after it has been run in part: it
    /// prints `written` at once and, unless the program has ended,
    /// restores the tape of `state` and resumes at its instruction.
    pub fn render_interpreted_c(&self, state: &BfExecState<T>, written: &[u8]) -> (r: String)
        ensures
            r@ == interpreted_c(
                self@,
                self.spec_array_size() as nat,
                Seq::new(state.data@.len(), |i: int| state.data@[i].val()),
                state.cursor as nat,
                state.instruction_pointer,
                written@,
            ),
    {
        let mut out = self.write_c_header();
        if written.len() != 0 {
            let printed = Self::write_bytestring_c(written);
            out.append(printed.as_str());
        }
        if let Some(left_off) = state.instruction_pointer {
            Self::write_c_cells(state.data, &mut out);
            if state.cursor != 0 {
                let moved = around_decimal("a += ", state.cursor as u64, ";\n");
                out.append(moved.as_str());
            }
            if left_off != 0 {
                out.append("goto startpos_jump;\n");
            }
            self.write_c_lines(left_off, &mut out);
        }
        out.append("}\n");
        out
    }
}

} // verus!
