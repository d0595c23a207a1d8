use vstd::prelude::*;
use crate::ast::{
    ASTNode, BinaryOpNode, BlockNode, ConditionalNode, NumberNode, Operator, Tree, VariableDec,
    VariableNode, conds, conds_from, lemma_conds_push, lemma_views_from, lemma_views_push, views_from,
};
use crate::lexer::{Token, Tokentype};
use crate::error::{CompileError, Expected};
use crate::symbols::{SymbolTable, lemma_position, position, slot_in};

verus! {

/// Whether position `pos` holds no more input: past the tokens or at `END`.
pub open spec fn at_end(toks: Seq<Token>, pos: int) -> bool {
    pos >= toks.len() || toks[pos].typ == Tokentype::END
}

/// Whether position `pos` holds a token of kind `t` (never `END`'s place past the end).
pub open spec fn is_at(toks: Seq<Token>, pos: int, t: Tokentype) -> bool {
    0 <= pos && !at_end(toks, pos) && toks[pos].typ == t
}

/// Whether position `pos` holds an infix operator.
pub open spec fn is_op_at(toks: Seq<Token>, pos: int) -> bool {
    is_at(toks, pos, Tokentype::PLUS) || is_at(toks, pos, Tokentype::MINUS) || is_at(toks, pos, Tokentype::EQ)
        || is_at(toks, pos, Tokentype::EQUAL)
}

pub open spec fn op_of(t: Tokentype) -> Operator {
    match t {
        Tokentype::PLUS => Operator::Plus,
        Tokentype::MINUS => Operator::Minus,
        Tokentype::EQUAL => Operator::Equals,
        _ => Operator::Assign,
    }
}

pub open spec fn is_digit(c: char) -> bool {
    '0' <= c <= '9'
}

/// The value of a string of decimal digits.
pub open spec fn digits_value(s: Seq<char>) -> int
    decreases s.len(),
{
    if s.len() == 0 {
        0
    } else {
        digits_value(s.drop_last()) * 10 + (s.last() as int - '0' as int)
    }
}

/// The value of a number literal: some decimal digits whose value fits in an `i32`.
pub open spec fn number_value(s: Seq<char>) -> Option<i32> {
    if s.len() > 0 && (forall|i: int| 0 <= i < s.len() ==> is_digit(#[trigger] s[i])) && digits_value(s)
        <= i32::MAX {
        Some(digits_value(s) as i32)
    } else {
        None
    }
}

/// The text of the token at `pos`, if there is one.
pub open spec fn found_at(toks: Seq<Token>, pos: int) -> Option<String> {
    if 0 <= pos < toks.len() {
        Some(toks[pos].value)
    } else {
        None
    }
}

/// A parse error at `pos`, where `expected` was wanted.
pub open spec fn parse_err<A>(toks: Seq<Token>, pos: int, expected: Expected) -> Result<A, CompileError> {
    Err(CompileError::ParseError { at: pos as usize, expected, found: found_at(toks, pos) })
}

/// The table after `name` is looked up for a read: an unknown name is
/// declared and takes the next slot.
pub open spec fn declared(syms: Seq<Seq<char>>, name: Seq<char>) -> Seq<Seq<char>> {
    if syms.contains(name) {
        syms
    } else {
        syms.push(name)
    }
}

/// `primary := NUMBER | IDENTIFIER | "(" expr ")"`, from `pos`: the tree, the
/// position after it and the table after it.
pub open spec fn sp_prim(toks: Seq<Token>, pos: int, syms: Seq<Seq<char>>) -> Result<(Tree, int, Seq<Seq<char>>), CompileError>
    decreases toks.len() - pos, 0nat,
{
    if is_at(toks, pos, Tokentype::NUMBER) {
        match number_value(toks[pos].value@) {
            Some(v) => Ok((Tree::Num(v), pos + 1, syms)),
            None => Err(CompileError::InvalidNumber(pos as usize)),
        }
    } else if is_at(toks, pos, Tokentype::IDENTIFIER) {
        let name = toks[pos].value@;
        let s2 = declared(syms, name);
        Ok((Tree::Var(name, slot_in(s2, name) as u64), pos + 1, s2))
    } else if is_at(toks, pos, Tokentype::LPAREN) {
        match sp_exp(toks, pos + 1, syms) {
            Ok((e, p, s2)) => if is_at(toks, p, Tokentype::RPAREN) {
                Ok((e, p + 1, s2))
            } else {
                parse_err(toks, p, Expected::Token(Tokentype::RPAREN))
            },
            Err(e) => Err(e),
        }
    } else {
        parse_err(toks, pos, Expected::Primary)
    }
}

/// `expr := primary (op primary)*`, folded to the left.
pub open spec fn sp_exp(toks: Seq<Token>, pos: int, syms: Seq<Seq<char>>) -> Result<(Tree, int, Seq<Seq<char>>), CompileError>
    decreases toks.len() - pos, 2nat,
{
    match sp_prim(toks, pos, syms) {
        Ok((l, p, s2)) => if pos < p <= toks.len() {
            sp_exp_rest(toks, l, p, s2)
        } else {
            parse_err(toks, pos, Expected::Primary)
        },
        Err(e) => Err(e),
    }
}

/// The `(op primary)*` part of an expression whose operands so far fold to `left`.
pub open spec fn sp_exp_rest(toks: Seq<Token>, left: Tree, pos: int, syms: Seq<Seq<char>>) -> Result<(Tree, int, Seq<Seq<char>>), CompileError>
    decreases toks.len() - pos, 1nat,
{
    if is_op_at(toks, pos) {
        match sp_prim(toks, pos + 1, syms) {
            Ok((r, p, s2)) => if pos < p <= toks.len() {
                sp_exp_rest(toks, Tree::Bin(Box::new(left), op_of(toks[pos].typ), Box::new(r)), p, s2)
            } else {
                parse_err(toks, pos, Expected::Primary)
            },
            Err(e) => Err(e),
        }
    } else {
        Ok((left, pos, syms))
    }
}

/// `statement`, from `pos`: the tree, the position after it and the table after it.
pub open spec fn sp_stat(toks: Seq<Token>, pos: int, syms: Seq<Seq<char>>) -> Result<(Tree, int, Seq<Seq<char>>), CompileError>
    decreases toks.len() - pos, 4nat,
{
    if is_at(toks, pos, Tokentype::INT) {
        sp_var_dec(toks, pos + 1, syms)
    } else if is_at(toks, pos, Tokentype::IF) {
        sp_cond(toks, pos + 1, syms)
    } else if is_at(toks, pos, Tokentype::IDENTIFIER) {
        sp_var_assign(toks, pos + 1, syms)
    } else {
        sp_exp_stat(toks, pos, syms)
    }
}

/// `expr ";"`.
pub open spec fn sp_exp_stat(toks: Seq<Token>, pos: int, syms: Seq<Seq<char>>) -> Result<(Tree, int, Seq<Seq<char>>), CompileError>
    decreases toks.len() - pos, 3nat,
{
    match sp_exp(toks, pos, syms) {
        Ok((e, p, s2)) => if is_at(toks, p, Tokentype::SEMICOLON) {
            Ok((e, p + 1, s2))
        } else {
            parse_err(toks, p, Expected::Token(Tokentype::SEMICOLON))
        },
        Err(e) => Err(e),
    }
}

/// `"=" expr ";"` after the identifier at `pos - 1`, which must be declared.
pub open spec fn sp_var_assign(toks: Seq<Token>, pos: int, syms: Seq<Seq<char>>) -> Result<(Tree, int, Seq<Seq<char>>), CompileError>
    decreases toks.len() - pos, 3nat,
{
    let name = toks[pos - 1].value;
    if !syms.contains(name@) {
        Err(CompileError::UndeclaredVariable(name))
    } else if !is_at(toks, pos, Tokentype::EQ) {
        parse_err(toks, pos, Expected::Token(Tokentype::EQ))
    } else {
        match sp_exp(toks, pos + 1, syms) {
            Ok((e, p, s2)) => if is_at(toks, p, Tokentype::SEMICOLON) {
                Ok((Tree::Dec(name@, slot_in(s2, name@) as u64, Box::new(e)), p + 1, s2))
            } else {
                parse_err(toks, p, Expected::Token(Tokentype::SEMICOLON))
            },
            Err(e) => Err(e),
        }
    }
}

/// `IDENTIFIER ( "=" expr | ) ";"` after `int`. The name must not be declared
/// yet; it is declared once the declaration is complete, unless the
/// initializer read it first. Without an initializer the declaration reads the
/// new variable, which declares it, and stores `A` into its slot.
pub open spec fn sp_var_dec(toks: Seq<Token>, pos: int, syms: Seq<Seq<char>>) -> Result<(Tree, int, Seq<Seq<char>>), CompileError>
    decreases toks.len() - pos, 3nat,
{
    if !is_at(toks, pos, Tokentype::IDENTIFIER) {
        parse_err(toks, pos, Expected::Token(Tokentype::IDENTIFIER))
    } else {
        let name = toks[pos].value;
        if syms.contains(name@) {
            Err(CompileError::DuplicateDeclaration(name))
        } else if is_at(toks, pos + 1, Tokentype::EQ) {
            match sp_exp(toks, pos + 2, syms) {
                Ok((e, p, s2)) => if is_at(toks, p, Tokentype::SEMICOLON) {
                    let s3 = declared(s2, name@);
                    Ok((Tree::Dec(name@, slot_in(s3, name@) as u64, Box::new(e)), p + 1, s3))
                } else {
                    parse_err(toks, p, Expected::Token(Tokentype::SEMICOLON))
                },
                Err(e) => Err(e),
            }
        } else if is_at(toks, pos + 1, Tokentype::SEMICOLON) {
            let s2 = syms.push(name@);
            let slot = slot_in(s2, name@) as u64;
            Ok((Tree::Dec(name@, slot, Box::new(Tree::Var(name@, slot))), pos + 2, s2))
        } else {
            parse_err(toks, pos + 1, Expected::Token(Tokentype::SEMICOLON))
        }
    }
}

/// `"(" expr ")" block ( "else" block )?` after `if`.
pub open spec fn sp_cond(toks: Seq<Token>, pos: int, syms: Seq<Seq<char>>) -> Result<(Tree, int, Seq<Seq<char>>), CompileError>
    decreases toks.len() - pos, 3nat,
{
    if !is_at(toks, pos, Tokentype::LPAREN) {
        parse_err(toks, pos, Expected::Token(Tokentype::LPAREN))
    } else {
        match sp_exp(toks, pos + 1, syms) {
            Ok((c, p, s1)) => if !is_at(toks, p, Tokentype::RPAREN) {
                parse_err(toks, p, Expected::Token(Tokentype::RPAREN))
            } else if p < pos {
                parse_err(toks, pos, Expected::Primary)
            } else {
                match sp_block(toks, p + 1, s1) {
                    Ok((t, p2, s2)) => if p2 < pos {
                        parse_err(toks, pos, Expected::Primary)
                    } else if is_at(toks, p2, Tokentype::ELSE) {
                        match sp_block(toks, p2 + 1, s2) {
                            Ok((e, p3, s3)) => Ok((Tree::Cond(Box::new(c), Box::new(t), Some(Box::new(e))), p3, s3)),
                            Err(e) => Err(e),
                        }
                    } else {
                        Ok((Tree::Cond(Box::new(c), Box::new(t), None), p2, s2))
                    },
                    Err(e) => Err(e),
                }
            },
            Err(e) => Err(e),
        }
    }
}

/// Statements from `pos` up to the end of input, or up to a `}` when
/// `in_braces`, appended to `acc`.
pub open spec fn sp_items(
    toks: Seq<Token>,
    pos: int,
    syms: Seq<Seq<char>>,
    acc: Seq<Tree>,
    in_braces: bool,
) -> Result<(Seq<Tree>, int, Seq<Seq<char>>), CompileError>
    decreases toks.len() - pos, 6nat,
{
    if at_end(toks, pos) || (in_braces && is_at(toks, pos, Tokentype::RBRACE)) {
        Ok((acc, pos, syms))
    } else {
        match sp_stat(toks, pos, syms) {
            Ok((t, p, s2)) => if pos < p <= toks.len() {
                sp_items(toks, p, s2, acc.push(t), in_braces)
            } else {
                parse_err(toks, pos, Expected::Primary)
            },
            Err(e) => Err(e),
        }
    }
}

/// `block := "{" statement* "}" | statement`.
pub open spec fn sp_block(toks: Seq<Token>, pos: int, syms: Seq<Seq<char>>) -> Result<(Tree, int, Seq<Seq<char>>), CompileError>
    decreases toks.len() - pos, 7nat,
{
    if is_at(toks, pos, Tokentype::LBRACE) {
        match sp_items(toks, pos + 1, syms, seq![], true) {
            Ok((ts, p, s2)) => if is_at(toks, p, Tokentype::RBRACE) {
                Ok((Tree::Blk(ts), p + 1, s2))
            } else {
                parse_err(toks, p, Expected::Token(Tokentype::RBRACE))
            },
            Err(e) => Err(e),
        }
    } else {
        sp_stat(toks, pos, syms)
    }
}

/// `program := statement* END`: the root block and the final symbol table.
pub open spec fn sp_program(toks: Seq<Token>) -> Result<(Tree, Seq<Seq<char>>), CompileError> {
    match sp_items(toks, 0, seq![], seq![], false) {
        Ok((ts, _, s)) => Ok((Tree::Blk(ts), s)),
        Err(e) => Err(e),
    }
}

/// A declaration of a name that is already declared fails with
/// `DuplicateDeclaration`, before anything after the name is read.
pub proof fn lemma_redeclaration_fails(toks: Seq<Token>, pos: int, syms: Seq<Seq<char>>)
    requires
        is_at(toks, pos, Tokentype::INT),
        is_at(toks, pos + 1, Tokentype::IDENTIFIER),
        syms.contains(toks[pos + 1].value@),
    ensures
        sp_stat(toks, pos, syms) == Err::<(Tree, int, Seq<Seq<char>>), CompileError>(
            CompileError::DuplicateDeclaration(toks[pos + 1].value),
        ),
{
}

/// An assignment to a name that was never declared fails with
/// `UndeclaredVariable`, before the `=` is read.
pub proof fn lemma_undeclared_assignment_fails(toks: Seq<Token>, pos: int, syms: Seq<Seq<char>>)
    requires
        is_at(toks, pos, Tokentype::IDENTIFIER),
        !syms.contains(toks[pos].value@),
    ensures
        sp_stat(toks, pos, syms) == Err::<(Tree, int, Seq<Seq<char>>), CompileError>(
            CompileError::UndeclaredVariable(toks[pos].value),
        ),
{
}

/// Operators share one precedence level and fold to the left: the numbers
/// `a op1 b op2 c`, followed by no operator, parse as `(a op1 b) op2 c`.
pub proof fn lemma_left_fold(toks: Seq<Token>, pos: int, syms: Seq<Seq<char>>)
    requires
        0 <= pos,
        pos + 5 <= toks.len(),
        is_at(toks, pos, Tokentype::NUMBER),
        is_op_at(toks, pos + 1),
        is_at(toks, pos + 2, Tokentype::NUMBER),
        is_op_at(toks, pos + 3),
        is_at(toks, pos + 4, Tokentype::NUMBER),
        !is_op_at(toks, pos + 5),
        number_value(toks[pos].value@) is Some,
        number_value(toks[pos + 2].value@) is Some,
        number_value(toks[pos + 4].value@) is Some,
    ensures
        sp_exp(toks, pos, syms) == Ok::<(Tree, int, Seq<Seq<char>>), CompileError>(
            (
                Tree::Bin(
                    Box::new(
                        Tree::Bin(
                            Box::new(Tree::Num(number_value(toks[pos].value@).unwrap())),
                            op_of(toks[pos + 1].typ),
                            Box::new(Tree::Num(number_value(toks[pos + 2].value@).unwrap())),
                        ),
                    ),
                    op_of(toks[pos + 3].typ),
                    Box::new(Tree::Num(number_value(toks[pos + 4].value@).unwrap())),
                ),
                pos + 5,
                syms,
            ),
        ),
{
    let a = Tree::Num(number_value(toks[pos].value@).unwrap());
    let b = Tree::Num(number_value(toks[pos + 2].value@).unwrap());
    let c = Tree::Num(number_value(toks[pos + 4].value@).unwrap());
    let ab = Tree::Bin(Box::new(a), op_of(toks[pos + 1].typ), Box::new(b));
    let abc = Tree::Bin(Box::new(ab), op_of(toks[pos + 3].typ), Box::new(c));
    assert(sp_prim(toks, pos + 4, syms) == Ok::<(Tree, int, Seq<Seq<char>>), CompileError>((c, pos + 5, syms)));
    assert(sp_exp_rest(toks, abc, pos + 5, syms) == Ok::<(Tree, int, Seq<Seq<char>>), CompileError>((abc, pos + 5, syms)));
    assert(sp_exp_rest(toks, ab, pos + 3, syms) == Ok::<(Tree, int, Seq<Seq<char>>), CompileError>((abc, pos + 5, syms)));
    assert(sp_prim(toks, pos + 2, syms) == Ok::<(Tree, int, Seq<Seq<char>>), CompileError>((b, pos + 3, syms)));
    assert(sp_exp_rest(toks, a, pos + 1, syms) == Ok::<(Tree, int, Seq<Seq<char>>), CompileError>((abc, pos + 5, syms)));
    assert(sp_prim(toks, pos, syms) == Ok::<(Tree, int, Seq<Seq<char>>), CompileError>((a, pos + 1, syms)));
}

/// Each further operator wraps everything parsed so far as its left operand:
/// after `left`, the tokens `op primary ...` continue from `left op primary`.
pub proof fn lemma_fold_step(toks: Seq<Token>, left: Tree, pos: int, syms: Seq<Seq<char>>)
    requires
        is_op_at(toks, pos),
        sp_prim(toks, pos + 1, syms) is Ok,
        pos < sp_prim(toks, pos + 1, syms)->Ok_0.1 <= toks.len(),
    ensures
        sp_exp_rest(toks, left, pos, syms) == sp_exp_rest(
            toks,
            Tree::Bin(Box::new(left), op_of(toks[pos].typ), Box::new(sp_prim(toks, pos + 1, syms)->Ok_0.0)),
            sp_prim(toks, pos + 1, syms)->Ok_0.1,
            sp_prim(toks, pos + 1, syms)->Ok_0.2,
        ),
{
}

/// Appending a new name keeps the table free of repeats, and the name gets
/// the slot after all the others.
pub proof fn lemma_push_new(syms: Seq<Seq<char>>, name: Seq<char>)
    requires
        syms.no_duplicates(),
        !syms.contains(name),
    ensures
        syms.push(name).no_duplicates(),
        slot_in(syms.push(name), name) == syms.len() + 1,
{
    let s2 = syms.push(name);
    assert forall|a: int, b: int| 0 <= a < s2.len() && 0 <= b < s2.len() && a != b implies s2[a] != s2[b] by {
        if a == syms.len() {
            assert(syms.contains(s2[b]));
        } else if b == syms.len() {
            assert(syms.contains(s2[a]));
        }
    }
    assert(s2[syms.len() as int] == name);
    lemma_position(s2, name);
}

/// Reading a name that was never declared declares it: it takes the next
/// slot, one more than the number of names declared before, and the table
/// grows by that one name.
pub proof fn lemma_read_declares(toks: Seq<Token>, pos: int, syms: Seq<Seq<char>>)
    requires
        syms.no_duplicates(),
        syms.len() < u64::MAX,
        is_at(toks, pos, Tokentype::IDENTIFIER),
        !syms.contains(toks[pos].value@),
    ensures
        sp_prim(toks, pos, syms) == Ok::<(Tree, int, Seq<Seq<char>>), CompileError>(
            (
                Tree::Var(toks[pos].value@, (syms.len() + 1) as u64),
                pos + 1,
                syms.push(toks[pos].value@),
            ),
        ),
        syms.push(toks[pos].value@).no_duplicates(),
{
    lemma_push_new(syms, toks[pos].value@);
}

/// A declaration of a new name without an initializer gives it the next
/// slot, one more than the number of names declared before, and appends it
/// to the table: slots are handed out from 1 upwards in the order of first
/// declaration.
pub proof fn lemma_declaration_takes_next_slot(toks: Seq<Token>, pos: int, syms: Seq<Seq<char>>)
    requires
        syms.no_duplicates(),
        syms.len() < u64::MAX,
        is_at(toks, pos, Tokentype::INT),
        is_at(toks, pos + 1, Tokentype::IDENTIFIER),
        is_at(toks, pos + 2, Tokentype::SEMICOLON),
        !syms.contains(toks[pos + 1].value@),
    ensures
        ({
            let name = toks[pos + 1].value@;
            &&& sp_stat(toks, pos, syms) == Ok::<(Tree, int, Seq<Seq<char>>), CompileError>(
                (
                    Tree::Dec(name, (syms.len() + 1) as u64, Box::new(Tree::Var(name, (syms.len() + 1) as u64))),
                    pos + 3,
                    syms.push(name),
                ),
            )
            &&& syms.push(name).no_duplicates()
        }),
{
    lemma_push_new(syms, toks[pos + 1].value@);
    assert(sp_stat(toks, pos, syms) == sp_var_dec(toks, pos + 1, syms));
}

/// `b` starts with `a`: names are only ever added to a table.
pub open spec fn extends(a: Seq<Seq<char>>, b: Seq<Seq<char>>) -> bool {
    a.len() <= b.len() && forall|i: int| 0 <= i < a.len() ==> #[trigger] b[i] == a[i]
}

/// Every variable node in `t`, read or declaration, names a name of `s` and
/// carries its slot there.
pub open spec fn slots_ok(t: Tree, s: Seq<Seq<char>>) -> bool
    decreases t,
{
    match t {
        Tree::Num(_) => true,
        Tree::Var(n, id) => s.contains(n) && id == slot_in(s, n),
        Tree::Bin(l, _, r) => slots_ok(*l, s) && slots_ok(*r, s),
        Tree::Dec(n, slot, v) => s.contains(n) && slot == slot_in(s, n) && slots_ok(*v, s),
        Tree::Cond(c, t, e) => slots_ok(*c, s) && slots_ok(*t, s) && match e {
            Some(e) => slots_ok(*e, s),
            None => true,
        },
        Tree::Blk(ts) => slots_ok_from(ts, 0, s),
    }
}

/// `slots_ok` for each of the statements `ts[i..]`.
pub open spec fn slots_ok_from(ts: Seq<Tree>, i: int, s: Seq<Seq<char>>) -> bool
    decreases ts, ts.len() - i,
{
    if 0 <= i < ts.len() {
        slots_ok(ts[i], s) && slots_ok_from(ts, i + 1, s)
    } else {
        true
    }
}

proof fn lemma_slot_kept(s: Seq<Seq<char>>, s2: Seq<Seq<char>>, n: Seq<char>)
    requires
        s.contains(n),
        extends(s, s2),
        s2.no_duplicates(),
    ensures
        s2.contains(n),
        slot_in(s2, n) == slot_in(s, n),
{
    lemma_position(s, n);
    let i = position(s, n);
    assert(s2[i] == n);
    lemma_position(s2, n);
}

/// Slots in a tree stay right while the table only grows.
pub proof fn lemma_slots_ok_extend(t: Tree, s: Seq<Seq<char>>, s2: Seq<Seq<char>>)
    requires
        slots_ok(t, s),
        extends(s, s2),
        s2.no_duplicates(),
    ensures
        slots_ok(t, s2),
    decreases t,
{
    match t {
        Tree::Num(_) => {},
        Tree::Var(n, _) => lemma_slot_kept(s, s2, n),
        Tree::Bin(l, _, r) => {
            lemma_slots_ok_extend(*l, s, s2);
            lemma_slots_ok_extend(*r, s, s2);
        },
        Tree::Dec(n, _, v) => {
            lemma_slot_kept(s, s2, n);
            lemma_slots_ok_extend(*v, s, s2);
        },
        Tree::Cond(c, th, e) => {
            lemma_slots_ok_extend(*c, s, s2);
            lemma_slots_ok_extend(*th, s, s2);
            if let Some(e) = e {
                lemma_slots_ok_extend(*e, s, s2);
            }
        },
        Tree::Blk(ts) => lemma_slots_ok_from_extend(ts, 0, s, s2),
    }
}

proof fn lemma_slots_ok_from_extend(ts: Seq<Tree>, i: int, s: Seq<Seq<char>>, s2: Seq<Seq<char>>)
    requires
        slots_ok_from(ts, i, s),
        extends(s, s2),
        s2.no_duplicates(),
    ensures
        slots_ok_from(ts, i, s2),
    decreases ts, ts.len() - i,
{
    if 0 <= i < ts.len() {
        lemma_slots_ok_extend(ts[i], s, s2);
        lemma_slots_ok_from_extend(ts, i + 1, s, s2);
    }
}

proof fn lemma_slots_ok_push(ts: Seq<Tree>, t: Tree, i: int, s: Seq<Seq<char>>)
    requires
        0 <= i <= ts.len(),
        slots_ok_from(ts, i, s),
        slots_ok(t, s),
    ensures
        slots_ok_from(ts.push(t), i, s),
    decreases ts.len() - i,
{
    if i < ts.len() {
        lemma_slots_ok_push(ts, t, i + 1, s);
        assert(ts.push(t)[i] == ts[i]);
    } else {
        assert(ts.push(t)[i] == t);
        assert(slots_ok_from(ts.push(t), i + 1, s));
    }
}

/// Two errors are the same when their kinds and payloads agree, names by their text.
pub open spec fn same_error(a: CompileError, b: CompileError) -> bool {
    match (a, b) {
        (CompileError::UndeclaredVariable(x), CompileError::UndeclaredVariable(y)) => x@ == y@,
        (CompileError::DuplicateDeclaration(x), CompileError::DuplicateDeclaration(y)) => x@ == y@,
        _ => a == b,
    }
}

/// A statement parser's result agrees with its grammar rule.
pub open spec fn stat_agrees(
    r: Result<ASTNode, CompileError>,
    s: Result<(Tree, int, Seq<Seq<char>>), CompileError>,
    p1: int,
    syms1: Seq<Seq<char>>,
) -> bool {
    match s {
        Ok((t, p, syms)) => r matches Ok(n) && n@ == t && p1 == p && syms1 == syms,
        Err(e) => r matches Err(e2) && same_error(e2, e),
    }
}

/// Decimal value of a number literal's text; `None` unless it is some
/// decimal digits whose value fits in an `i32`.
pub fn parse_number(s: &str) -> (r: Option<i32>)
    ensures
        r == number_value(s@),
{
    let n = s.unicode_len();
    if n == 0 {
        return None;
    }
    let mut v: i64 = 0;
    let mut i: usize = 0;
    while i < n
        invariant
            n == s@.len(),
            i <= n,
            forall|j: int| 0 <= j < i ==> is_digit(#[trigger] s@[j]),
            v == digits_value(s@.subrange(0, i as int)),
            0 <= v <= i32::MAX,
        decreases n - i,
    {
        let c = s.get_char(i);
        if !('0' <= c && c <= '9') {
            return None;
        }
        proof {
            let t = s@.subrange(0, i + 1);
            assert(t.drop_last() =~= s@.subrange(0, i as int));
        }
        v = v * 10 + (c as i64 - '0' as i64);
        if v > i32::MAX as i64 {
            proof {
                if forall|j: int| 0 <= j < s@.len() ==> is_digit(#[trigger] s@[j]) {
                    lemma_digits_prefix(s@, i + 1);
                }
            }
            return None;
        }
        i = i + 1;
    }
    assert(s@.subrange(0, n as int) =~= s@);
    Some(v as i32)
}

/// A prefix of a digit string is worth no more than the whole.
proof fn lemma_digits_prefix(s: Seq<char>, k: int)
    requires
        0 <= k <= s.len(),
        forall|j: int| 0 <= j < s.len() ==> is_digit(#[trigger] s[j]),
    ensures
        digits_value(s.subrange(0, k)) <= digits_value(s),
        0 <= digits_value(s.subrange(0, k)),
    decreases s.len() - k,
{
    if k < s.len() {
        lemma_digits_prefix(s, k + 1);
        assert(s.subrange(0, k + 1).drop_last() =~= s.subrange(0, k));
        assert(is_digit(s[k]));
    } else {
        assert(s.subrange(0, k) =~= s);
        lemma_digits_nonneg(s);
    }
}

proof fn lemma_digits_nonneg(s: Seq<char>)
    requires
        forall|j: int| 0 <= j < s.len() ==> is_digit(#[trigger] s[j]),
    ensures
        0 <= digits_value(s),
    decreases s.len(),
{
    if s.len() > 0 {
        assert(is_digit(s[s.len() - 1]));
        lemma_digits_nonneg(s.drop_last());
    }
}

/// A recursive-descent parser over a token sequence. It owns the symbol
/// table of its compilation and declares names into it as it goes.
pub struct Parser {
    tokens: Vec<Token>,
    pos: usize,
    symbols: SymbolTable,
}

impl Parser {
    pub closed spec fn wf(&self) -> bool {
        &&& self.symbols.wf()
        &&& self.pos <= self.tokens@.len()
        &&& self.symbols@.len() <= self.pos
        &&& self.tokens@.len() <= usize::MAX
    }

    /// The tokens being parsed.
    pub closed spec fn toks(&self) -> Seq<Token> {
        self.tokens@
    }

    /// The position of the next token.
    pub closed spec fn at(&self) -> int {
        self.pos as int
    }

    /// The names declared so far, in declaration order.
    pub closed spec fn table(&self) -> Seq<Seq<char>> {
        self.symbols@
    }

    /// A parser at the first token, with an empty symbol table.
    pub fn new(tokens: Vec<Token>) -> (r: Parser)
        ensures
            r.wf(),
            r.toks() == tokens@,
            r.at() == 0,
            r.table() == Seq::<Seq<char>>::empty(),
    {
        // A `Vec`'s length is a `usize`: a cursor can reach every position.
        let _count: usize = tokens.len();
        Parser { tokens, pos: 0, symbols: SymbolTable::new() }
    }

    /// The symbol table built so far.
    pub fn symbols(&self) -> (r: &SymbolTable)
        requires
            self.wf(),
        ensures
            r@ == self.table(),
            r.wf(),
    {
        &self.symbols
    }

    fn is_at_end(&self) -> (r: bool)
        ensures
            r == at_end(self.tokens@, self.pos as int),
    {
        self.pos >= self.tokens.len() || self.tokens[self.pos].typ == Tokentype::END
    }

    fn check(&self, typ: Tokentype) -> (r: bool)
        ensures
            r == is_at(self.tokens@, self.pos as int, typ),
    {
        if self.is_at_end() {
            return false;
        }
        self.tokens[self.pos].typ == typ
    }

    /// The text of the next token, if there is one.
    fn found(&self) -> (r: Option<String>)
        ensures
            r == found_at(self.tokens@, self.pos as int),
    {
        if self.pos < self.tokens.len() {
            Some(self.tokens[self.pos].value.clone())
        } else {
            None
        }
    }

    fn previous(&self) -> (r: &Token)
        requires
            0 < self.pos <= self.tokens@.len(),
        ensures
            *r == self.tokens@[self.pos - 1],
    {
        &self.tokens[self.pos - 1]
    }

    fn advance(&mut self)
        requires
            old(self).wf(),
        ensures
            final(self).wf(),
            final(self).tokens == old(self).tokens,
            final(self).symbols == old(self).symbols,
            final(self).pos == if at_end(old(self).tokens@, old(self).pos as int) {
                old(self).pos
            } else {
                (old(self).pos + 1) as usize
            },
    {
        if !self.is_at_end() {
            self.pos = self.pos + 1;
        }
    }

    /// Steps over the next token if it has kind `typ`.
    fn match_types(&mut self, typ: Tokentype) -> (r: bool)
        requires
            old(self).wf(),
        ensures
            final(self).wf(),
            final(self).tokens == old(self).tokens,
            final(self).symbols == old(self).symbols,
            r == is_at(old(self).tokens@, old(self).pos as int, typ),
            final(self).pos == if r { (old(self).pos + 1) as usize } else { old(self).pos },
    {
        if self.check(typ) {
            self.advance();
            true
        } else {
            false
        }
    }

    /// Steps over the next token if it has kind `typ`, else fails at it.
    fn consume(&mut self, typ: Tokentype) -> (r: Result<(), CompileError>)
        requires
            old(self).wf(),
        ensures
            final(self).wf(),
            final(self).tokens == old(self).tokens,
            final(self).symbols == old(self).symbols,
            is_at(old(self).tokens@, old(self).pos as int, typ) ==> r is Ok && final(self).pos == old(self).pos + 1,
            !is_at(old(self).tokens@, old(self).pos as int, typ) ==> r == parse_err::<()>(old(self).tokens@, old(self).pos as int, Expected::Token(typ))
                && final(self).pos == old(self).pos,
    {
        if self.match_types(typ) {
            Ok(())
        } else {
            Err(CompileError::ParseError { at: self.pos, expected: Expected::Token(typ), found: self.found() })
        }
    }
    fn parse_prim(&mut self) -> (r: Result<ASTNode, CompileError>)
        requires
            old(self).wf(),
        ensures
            final(self).wf(),
            final(self).tokens == old(self).tokens,
            extends(old(self).symbols@, final(self).symbols@),
            stat_agrees(r, sp_prim(old(self).tokens@, old(self).pos as int, old(self).symbols@), final(self).pos as int, final(self).symbols@),
            r matches Ok(n) ==> old(self).pos < final(self).pos && conds(n@) == 0,
            !(is_at(old(self).tokens@, old(self).pos as int, Tokentype::NUMBER) || is_at(
                old(self).tokens@,
                old(self).pos as int,
                Tokentype::IDENTIFIER,
            ) || is_at(old(self).tokens@, old(self).pos as int, Tokentype::LPAREN)) ==> (final(self).pos
                == old(self).pos && final(self).symbols@ == old(self).symbols@),
            (!is_at(old(self).tokens@, old(self).pos as int, Tokentype::LPAREN) && r is Err) ==> final(self).symbols@
                == old(self).symbols@,
            r matches Ok(n) ==> slots_ok(n@, final(self).symbols@),
        decreases old(self).tokens@.len() - old(self).pos, 0nat,
    {
        if self.match_types(Tokentype::NUMBER) {
            match parse_number(self.previous().value.as_str()) {
                Some(v) => Ok(ASTNode::Number(NumberNode::new(v))),
                None => Err(CompileError::InvalidNumber(self.pos - 1)),
            }
        } else if self.match_types(Tokentype::IDENTIFIER) {
            let name = self.previous().value.clone();
            Ok(ASTNode::Variable(VariableNode::new(name, &mut self.symbols)))
        } else if self.match_types(Tokentype::LPAREN) {
            let e = match self.parse_exp() {
                Ok(e) => e,
                Err(x) => return Err(x),
            };
            match self.consume(Tokentype::RPAREN) {
                Ok(()) => Ok(e),
                Err(x) => Err(x),
            }
        } else {
            Err(CompileError::ParseError { at: self.pos, expected: Expected::Primary, found: self.found() })
        }
    }

    fn parse_exp(&mut self) -> (r: Result<ASTNode, CompileError>)
        requires
            old(self).wf(),
        ensures
            final(self).wf(),
            final(self).tokens == old(self).tokens,
            extends(old(self).symbols@, final(self).symbols@),
            stat_agrees(r, sp_exp(old(self).tokens@, old(self).pos as int, old(self).symbols@), final(self).pos as int, final(self).symbols@),
            r matches Ok(n) ==> old(self).pos < final(self).pos && conds(n@) == 0,
            r matches Ok(n) ==> slots_ok(n@, final(self).symbols@),
        decreases old(self).tokens@.len() - old(self).pos, 2nat,
    {
        match self.parse_prim() {
            Ok(left) => self.parse_exp_rest(left),
            Err(e) => Err(e),
        }
    }

    /// Folds each further `op primary` into `left`, from the left.
    fn parse_exp_rest(&mut self, left: ASTNode) -> (r: Result<ASTNode, CompileError>)
        requires
            old(self).wf(),
            conds(left@) == 0,
            slots_ok(left@, old(self).symbols@),
        ensures
            final(self).wf(),
            final(self).tokens == old(self).tokens,
            extends(old(self).symbols@, final(self).symbols@),
            stat_agrees(r, sp_exp_rest(old(self).tokens@, left@, old(self).pos as int, old(self).symbols@), final(self).pos as int, final(self).symbols@),
            r matches Ok(n) ==> old(self).pos <= final(self).pos && conds(n@) == 0,
            r matches Ok(n) ==> slots_ok(n@, final(self).symbols@),
        decreases old(self).tokens@.len() - old(self).pos, 1nat,
    {
        if self.check(Tokentype::PLUS) || self.check(Tokentype::MINUS) || self.check(Tokentype::EQ) || self.check(
            Tokentype::EQUAL,
        ) {
            let op = match self.tokens[self.pos].typ {
                Tokentype::PLUS => Operator::Plus,
                Tokentype::MINUS => Operator::Minus,
                Tokentype::EQUAL => Operator::Equals,
                _ => Operator::Assign,
            };
            self.advance();
            let ghost syms1 = self.symbols@;
            match self.parse_prim() {
                Ok(right) => {
                    proof {
                        lemma_slots_ok_extend(left@, syms1, self.symbols@);
                    }
                    self.parse_exp_rest(ASTNode::BinaryOp(BinaryOpNode::new(left, op, right)))
                },
                Err(e) => Err(e),
            }
        } else {
            Ok(left)
        }
    }

    fn parse_exp_stat(&mut self) -> (r: Result<ASTNode, CompileError>)
        requires
            old(self).wf(),
        ensures
            final(self).wf(),
            final(self).tokens == old(self).tokens,
            stat_agrees(r, sp_exp_stat(old(self).tokens@, old(self).pos as int, old(self).symbols@), final(self).pos as int, final(self).symbols@),
            r matches Ok(n) ==> old(self).pos < final(self).pos && conds(n@) <= final(self).pos - old(self).pos,
            extends(old(self).symbols@, final(self).symbols@),
            r matches Ok(n) ==> slots_ok(n@, final(self).symbols@),
        decreases old(self).tokens@.len() - old(self).pos, 3nat,
    {
        let e = match self.parse_exp() {
            Ok(e) => e,
            Err(x) => return Err(x),
        };
        match self.consume(Tokentype::SEMICOLON) {
            Ok(()) => Ok(e),
            Err(x) => Err(x),
        }
    }

    /// An assignment, after its identifier: the name must be declared.
    fn parse_var_assign(&mut self) -> (r: Result<ASTNode, CompileError>)
        requires
            old(self).wf(),
            old(self).pos >= 1,
        ensures
            final(self).wf(),
            final(self).tokens == old(self).tokens,
            stat_agrees(r, sp_var_assign(old(self).tokens@, old(self).pos as int, old(self).symbols@), final(self).pos as int, final(self).symbols@),
            r matches Ok(n) ==> old(self).pos < final(self).pos && conds(n@) <= final(self).pos - old(self).pos,
            !old(self).symbols@.contains(old(self).tokens@[old(self).pos - 1].value@) ==> final(self).pos
                == old(self).pos && final(self).symbols@ == old(self).symbols@,
            extends(old(self).symbols@, final(self).symbols@),
            r matches Ok(n) ==> slots_ok(n@, final(self).symbols@),
        decreases old(self).tokens@.len() - old(self).pos, 3nat,
    {
        let name = self.previous().value.clone();
        if !self.symbols.is_declared(name.as_str()) {
            return Err(CompileError::UndeclaredVariable(name));
        }
        let ghost syms0 = self.symbols@;
        match self.consume(Tokentype::EQ) {
            Ok(()) => {},
            Err(x) => return Err(x),
        }
        let val = match self.parse_exp() {
            Ok(e) => e,
            Err(x) => return Err(x),
        };
        proof {
            lemma_position(syms0, name@);
            assert(self.symbols@[position(syms0, name@)] == name@);
        }
        match self.consume(Tokentype::SEMICOLON) {
            Ok(()) => {},
            Err(x) => return Err(x),
        }
        Ok(ASTNode::Declaration(VariableDec::new(name, val, &mut self.symbols)))
    }

    /// A declaration, after `int`: the name must be new.
    fn parse_var_dec(&mut self) -> (r: Result<ASTNode, CompileError>)
        requires
            old(self).wf(),
        ensures
            final(self).wf(),
            final(self).tokens == old(self).tokens,
            stat_agrees(r, sp_var_dec(old(self).tokens@, old(self).pos as int, old(self).symbols@), final(self).pos as int, final(self).symbols@),
            r matches Ok(n) ==> old(self).pos < final(self).pos && conds(n@) <= final(self).pos - old(self).pos,
            is_at(old(self).tokens@, old(self).pos as int, Tokentype::IDENTIFIER) && old(self).symbols@.contains(
                old(self).tokens@[old(self).pos as int].value@,
            ) ==> final(self).pos == old(self).pos + 1 && final(self).symbols@ == old(self).symbols@,
            extends(old(self).symbols@, final(self).symbols@),
            r matches Ok(n) ==> slots_ok(n@, final(self).symbols@),
        decreases old(self).tokens@.len() - old(self).pos, 3nat,
    {
        match self.consume(Tokentype::IDENTIFIER) {
            Ok(()) => {},
            Err(x) => return Err(x),
        }
        let name = self.previous().value.clone();
        if self.symbols.is_declared(name.as_str()) {
            return Err(CompileError::DuplicateDeclaration(name));
        }
        let val = if self.match_types(Tokentype::EQ) {
            let e = match self.parse_exp() {
                Ok(e) => e,
                Err(x) => return Err(x),
            };
            match self.consume(Tokentype::SEMICOLON) {
                Ok(()) => {},
                Err(x) => return Err(x),
            }
            e
        } else {
            match self.consume(Tokentype::SEMICOLON) {
                Ok(()) => {},
                Err(x) => return Err(x),
            }
            ASTNode::Variable(VariableNode::new(name.clone(), &mut self.symbols))
        };
        let ghost syms2 = self.symbols@;
        let dec = VariableDec::new(name, val, &mut self.symbols);
        assert(conds(dec.val@) == 0);
        proof {
            lemma_slots_ok_extend(dec.val@, syms2, self.symbols@);
            assert(self.symbols@.contains(dec.var_name@)) by {
                if !syms2.contains(dec.var_name@) {
                    assert(self.symbols@[syms2.len() as int] == dec.var_name@);
                }
            }
        }
        Ok(ASTNode::Declaration(dec))
    }

    /// A conditional, after `if`.
    fn parse_cond(&mut self) -> (r: Result<ASTNode, CompileError>)
        requires
            old(self).wf(),
        ensures
            final(self).wf(),
            final(self).tokens == old(self).tokens,
            stat_agrees(r, sp_cond(old(self).tokens@, old(self).pos as int, old(self).symbols@), final(self).pos as int, final(self).symbols@),
            r matches Ok(n) ==> old(self).pos < final(self).pos && conds(n@) <= final(self).pos - old(self).pos,
            extends(old(self).symbols@, final(self).symbols@),
            r matches Ok(n) ==> slots_ok(n@, final(self).symbols@),
        decreases old(self).tokens@.len() - old(self).pos, 3nat,
    {
        match self.consume(Tokentype::LPAREN) {
            Ok(()) => {},
            Err(x) => return Err(x),
        }
        let cond = match self.parse_exp() {
            Ok(e) => e,
            Err(x) => return Err(x),
        };
        match self.consume(Tokentype::RPAREN) {
            Ok(()) => {},
            Err(x) => return Err(x),
        }
        let ghost syms1 = self.symbols@;
        let then_branch = match self.parse_block() {
            Ok(b) => b,
            Err(x) => return Err(x),
        };
        let ghost syms2 = self.symbols@;
        let else_branch = if self.match_types(Tokentype::ELSE) {
            match self.parse_block() {
                Ok(b) => Some(b),
                Err(x) => return Err(x),
            }
        } else {
            None
        };
        proof {
            lemma_slots_ok_extend(cond@, syms1, self.symbols@);
            lemma_slots_ok_extend(then_branch@, syms2, self.symbols@);
        }
        Ok(ASTNode::Conditional(ConditionalNode::new(cond, then_branch, else_branch)))
    }

    /// Statements appended to `block` up to the end of input, or up to a `}`
    /// when `in_braces`.
    fn parse_items(&mut self, block: BlockNode, in_braces: bool) -> (r: Result<BlockNode, CompileError>)
        requires
            old(self).wf(),
            slots_ok_from(views_from(block.statements@, 0), 0, old(self).symbols@),
        ensures
            final(self).wf(),
            final(self).tokens == old(self).tokens,
            r matches Ok(b) ==> slots_ok_from(views_from(b.statements@, 0), 0, final(self).symbols@),
            match sp_items(old(self).tokens@, old(self).pos as int, old(self).symbols@, views_from(block.statements@, 0), in_braces) {
                Ok((ts, p, syms)) => r matches Ok(b) && views_from(b.statements@, 0) == ts && final(self).pos == p
                    && final(self).symbols@ == syms,
                Err(e) => r matches Err(e2) && same_error(e2, e),
            },
            r is Ok ==> at_end(old(self).tokens@, final(self).pos as int) || (in_braces && is_at(
                old(self).tokens@,
                final(self).pos as int,
                Tokentype::RBRACE,
            )),
            r matches Ok(b) ==> old(self).pos <= final(self).pos && conds_from(views_from(b.statements@, 0), 0)
                <= conds_from(views_from(block.statements@, 0), 0) + final(self).pos - old(self).pos,
            extends(old(self).symbols@, final(self).symbols@),
        decreases old(self).tokens@.len() - old(self).pos, 6nat,
    {
        if self.is_at_end() || (in_braces && self.check(Tokentype::RBRACE)) {
            return Ok(block);
        }
        let ghost syms0 = self.symbols@;
        match self.parse_stat() {
            Ok(st) => {
                let mut block = block;
                proof {
                    lemma_slots_ok_from_extend(views_from(block.statements@, 0), 0, syms0, self.symbols@);
                    lemma_slots_ok_push(views_from(block.statements@, 0), st@, 0, self.symbols@);
                    lemma_views_push(block.statements@, st);
                    lemma_views_from(block.statements@, 0);
                    lemma_conds_push(views_from(block.statements@, 0), st@, 0);
                }
                block.add_stat(st);
                self.parse_items(block, in_braces)
            },
            Err(e) => Err(e),
        }
    }

    /// A braced block, or a single statement.
    fn parse_block(&mut self) -> (r: Result<ASTNode, CompileError>)
        requires
            old(self).wf(),
        ensures
            final(self).wf(),
            final(self).tokens == old(self).tokens,
            stat_agrees(r, sp_block(old(self).tokens@, old(self).pos as int, old(self).symbols@), final(self).pos as int, final(self).symbols@),
            r matches Ok(n) ==> old(self).pos < final(self).pos && conds(n@) <= final(self).pos - old(self).pos,
            extends(old(self).symbols@, final(self).symbols@),
            r matches Ok(n) ==> slots_ok(n@, final(self).symbols@),
        decreases old(self).tokens@.len() - old(self).pos, 7nat,
    {
        if self.match_types(Tokentype::LBRACE) {
            let empty = BlockNode::new();
            assert(views_from(empty.statements@, 0) =~= Seq::<Tree>::empty());
            assert(slots_ok_from(views_from(empty.statements@, 0), 0, self.symbols@));
            let b = match self.parse_items(empty, true) {
                Ok(b) => b,
                Err(x) => return Err(x),
            };
            match self.consume(Tokentype::RBRACE) {
                Ok(()) => Ok(ASTNode::Block(b)),
                Err(x) => Err(x),
            }
        } else {
            self.parse_stat()
        }
    }

    fn parse_stat(&mut self) -> (r: Result<ASTNode, CompileError>)
        requires
            old(self).wf(),
        ensures
            final(self).wf(),
            final(self).tokens == old(self).tokens,
            stat_agrees(r, sp_stat(old(self).tokens@, old(self).pos as int, old(self).symbols@), final(self).pos as int, final(self).symbols@),
            r matches Ok(n) ==> old(self).pos < final(self).pos && conds(n@) <= final(self).pos - old(self).pos,
            extends(old(self).symbols@, final(self).symbols@),
            r matches Ok(n) ==> slots_ok(n@, final(self).symbols@),
        decreases old(self).tokens@.len() - old(self).pos, 4nat,
    {
        if self.match_types(Tokentype::INT) {
            self.parse_var_dec()
        } else if self.match_types(Tokentype::IF) {
            self.parse_cond()
        } else if self.match_types(Tokentype::IDENTIFIER) {
            self.parse_var_assign()
        } else {
            self.parse_exp_stat()
        }
    }

    /// Parses statements up to the end of input into one root block,
    /// declaring names into the parser's table.
    pub fn parse(&mut self) -> (r: Result<ASTNode, CompileError>)
        requires
            old(self).wf(),
        ensures
            final(self).wf(),
            final(self).toks() == old(self).toks(),
            final(self).table().no_duplicates(),
            match sp_items(old(self).toks(), old(self).at(), old(self).table(), seq![], false) {
                Ok((ts, p, syms)) => r matches Ok(n) && n@ == Tree::Blk(ts) && final(self).table() == syms
                    && final(self).at() == p,
                Err(e) => r matches Err(e2) && same_error(e2, e),
            },
            r is Ok ==> at_end(old(self).toks(), final(self).at()),
            r is Err ==> final(self).table() == old(self).table() && final(self).at() == old(self).at(),
            r matches Ok(n) ==> conds(n@) <= old(self).toks().len() <= usize::MAX,
            r matches Ok(n) ==> slots_ok(n@, final(self).table()),
    {
        let pos0 = self.pos;
        let declared0 = self.symbols.len();
        let empty = BlockNode::new();
        assert(views_from(empty.statements@, 0) =~= Seq::<Tree>::empty());
        assert(slots_ok_from(views_from(empty.statements@, 0), 0, self.symbols@));
        match self.parse_items(empty, false) {
            Ok(b) => Ok(ASTNode::Block(b)),
            Err(e) => {
                // A failed compilation keeps none of its declarations.
                self.symbols.truncate(declared0);
                self.pos = pos0;
                assert(self.symbols@ =~= old(self).symbols@);
                Err(e)
            },
        }
    }
}

} // verus!
