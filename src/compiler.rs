use vstd::prelude::*;
use crate::ast::{ASTNode, Emission, Instr, Label, Register, conds, emit};
use crate::lexer::{Token, lex, lex_text, tokens_view};
use crate::parser::{Parser, same_error, sp_program};
use crate::error::CompileError;

verus! {

pub open spec fn digit_char(d: nat) -> char {
    seq!['0', '1', '2', '3', '4', '5', '6', '7', '8', '9'][d as int]
}

/// Decimal digits of `n`, without sign or leading zeros.
pub open spec fn decimal(n: nat) -> Seq<char>
    decreases n,
{
    if n < 10 {
        seq![digit_char(n)]
    } else {
        decimal(n / 10).push(digit_char(n % 10))
    }
}

/// Decimal text of `v`, with `-` before a negative value.
pub open spec fn signed_decimal(v: int) -> Seq<char> {
    if v < 0 {
        seq!['-'] + decimal((-v) as nat)
    } else {
        decimal(v as nat)
    }
}

/// Relies on `u64`'s `to_string` (its `Display`): the decimal digits, without
/// sign, padding or leading zeros.
#[verifier::external_body]
fn u64_text(n: u64) -> (r: String)
    ensures
        r@ == decimal(n as nat),
{
    n.to_string()
}

/// Relies on `i32`'s `to_string` (its `Display`): `-` for a negative value,
/// then the decimal digits, without padding or leading zeros.
#[verifier::external_body]
fn i32_text(v: i32) -> (r: String)
    ensures
        r@ == signed_decimal(v as int),
{
    v.to_string()
}

/// The name of a label.
pub open spec fn label_text(l: Label) -> Seq<char> {
    match l {
        Label::Else(k) => "else_branch_"@ + decimal(k as nat),
        Label::End(k) => "endif_"@ + decimal(k as nat),
    }
}

/// The text of one instruction, without its line end.
pub open spec fn instr_text(i: Instr) -> Seq<char> {
    match i {
        Instr::Text => ".text"@,
        Instr::Halt => "hlt"@,
        Instr::LoadImm(Register::A, v) => "ldi A "@ + signed_decimal(v as int),
        Instr::LoadImm(Register::B, v) => "ldi B "@ + signed_decimal(v as int),
        Instr::Load(s) => "lda "@ + decimal(s as nat),
        Instr::Store(s) => "sta "@ + decimal(s as nat),
        Instr::MoveB(s) => "mov B M "@ + decimal(s as nat),
        Instr::Add => "add"@,
        Instr::Sub => "sub"@,
        Instr::Cmp => "cmp"@,
        Instr::JumpNonZero(l) => "jnz %"@ + label_text(l),
        Instr::Jump(l) => "jmp %"@ + label_text(l),
        Instr::Mark(l) => label_text(l) + ":"@,
    }
}

/// The text of a program: one instruction per line, each line ended by `\n`.
pub open spec fn listing(code: Seq<Instr>) -> Seq<char>
    decreases code.len(),
{
    if code.len() == 0 {
        Seq::<char>::empty()
    } else {
        listing(code.drop_last()) + instr_text(code.last()) + "\n"@
    }
}

/// A whole program around the code `c`.
pub open spec fn program(c: Seq<Instr>) -> Seq<Instr> {
    seq![Instr::Text] + c + seq![Instr::Halt]
}

/// The program of a token sequence: the code of its root block, or the first
/// error of the parse or of code generation.
pub open spec fn compiled(toks: Seq<Token>) -> Result<Seq<Instr>, CompileError> {
    match sp_program(toks) {
        Ok((t, _)) => match emit(t, Emission::Value, 0) {
            Some((c, _)) => Ok(program(c)),
            None => Err(CompileError::UnsupportedOperator),
        },
        Err(e) => Err(e),
    }
}

fn label_string(l: Label) -> (r: String)
    ensures
        r@ == label_text(l),
{
    match l {
        Label::Else(k) => {
            let mut s = String::from_str("else_branch_");
            s.append(u64_text(k).as_str());
            s
        },
        Label::End(k) => {
            let mut s = String::from_str("endif_");
            s.append(u64_text(k).as_str());
            s
        },
    }
}

fn with_text(head: &str, tail: String) -> (r: String)
    ensures
        r@ == head@ + tail@,
{
    let mut s = String::from_str(head);
    s.append(tail.as_str());
    s
}

/// The text of one instruction.
pub fn instr_string(i: Instr) -> (r: String)
    ensures
        r@ == instr_text(i),
{
    match i {
        Instr::Text => String::from_str(".text"),
        Instr::Halt => String::from_str("hlt"),
        Instr::LoadImm(Register::A, v) => with_text("ldi A ", i32_text(v)),
        Instr::LoadImm(Register::B, v) => with_text("ldi B ", i32_text(v)),
        Instr::Load(s) => with_text("lda ", u64_text(s)),
        Instr::Store(s) => with_text("sta ", u64_text(s)),
        Instr::MoveB(s) => with_text("mov B M ", u64_text(s)),
        Instr::Add => String::from_str("add"),
        Instr::Sub => String::from_str("sub"),
        Instr::Cmp => String::from_str("cmp"),
        Instr::JumpNonZero(l) => with_text("jnz %", label_string(l)),
        Instr::Jump(l) => with_text("jmp %", label_string(l)),
        Instr::Mark(l) => {
            let mut s = label_string(l);
            s.append(":");
            s
        },
    }
}

/// The text of a program, one instruction per line.
pub fn render(code: &Vec<Instr>) -> (r: String)
    ensures
        r@ == listing(code@),
{
    let mut out = String::new();
    let mut i: usize = 0;
    while i < code.len()
        invariant
            i <= code@.len(),
            out@ == listing(code@.subrange(0, i as int)),
        decreases code@.len() - i,
    {
        proof {
            assert(code@.subrange(0, i + 1).drop_last() =~= code@.subrange(0, i as int));
        }
        let line = instr_string(code[i]);
        out.append(line.as_str());
        out.append("\n");
        i = i + 1;
    }
    assert(code@.subrange(0, code@.len() as int) =~= code@);
    out
}

/// `.text`, the code of `root` as a statement, then `hlt`.
pub fn generate_program(root: &ASTNode) -> (r: Result<Vec<Instr>, CompileError>)
    requires
        conds(root@) <= u64::MAX,
    ensures
        match emit(root@, Emission::Value, 0) {
            Some((c, _)) => r matches Ok(v) && v@ == program(c),
            None => r == Err::<Vec<Instr>, CompileError>(CompileError::UnsupportedOperator),
        },
{
    let mut out: Vec<Instr> = Vec::new();
    out.push(Instr::Text);
    let mut labels: u64 = 0;
    match root.generate_code(&mut out, &mut labels) {
        Ok(()) => {},
        Err(e) => return Err(e),
    }
    out.push(Instr::Halt);
    proof {
        let c = emit(root@, Emission::Value, 0).unwrap().0;
        assert(out@ =~= program(c));
    }
    Ok(out)
}

/// Parses a token sequence with a fresh symbol table and generates its program.
pub fn compile_tokens(tokens: Vec<Token>) -> (r: Result<Vec<Instr>, CompileError>)
    ensures
        match compiled(tokens@) {
            Ok(p) => r matches Ok(v) && v@ == p,
            Err(e) => r matches Err(e2) && same_error(e2, e),
        },
{
    let mut parser = Parser::new(tokens);
    let root = match parser.parse() {
        Ok(root) => root,
        Err(e) => return Err(e),
    };
    generate_program(&root)
}

/// Compiles a source text to the program's text.
pub fn compile(source: &str) -> (r: Result<String, CompileError>)
    ensures
        match lex(source@) {
            Ok(ts) => exists|toks: Seq<Token>|
                #[trigger] tokens_view(toks) == ts && match compiled(toks) {
                    Ok(p) => r matches Ok(s) && s@ == listing(p),
                    Err(e) => r matches Err(e2) && same_error(e2, e),
                },
            Err(e) => r == Err::<String, CompileError>(e),
        },
{
    let tokens = match lex_text(source) {
        Ok(t) => t,
        Err(e) => return Err(e),
    };
    let ghost toks = tokens@;
    let r = match compile_tokens(tokens) {
        Ok(code) => Ok(render(&code)),
        Err(e) => Err(e),
    };
    assert(tokens_view(toks) == lex(source@).unwrap());
    r
}

} // verus!
