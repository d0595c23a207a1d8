use vstd::prelude::*;
use crate::error::CompileError;
use crate::symbols::{SymbolTable, slot_in};

verus! {

broadcast use vstd::std_specs::vec::group_vec_axioms;

/// One of the machine's two accumulators.
#[derive(PartialEq, Eq, Structural, Clone, Copy, Debug)]
pub enum Register {
    A,
    B,
}

/// A jump target. Each conditional owns the pair of labels with its number.
#[derive(PartialEq, Eq, Structural, Clone, Copy, Debug)]
pub enum Label {
    Else(u64),
    End(u64),
}

/// One line of the generated program.
#[derive(PartialEq, Eq, Structural, Clone, Copy, Debug)]
pub enum Instr {
    /// `.text`
    Text,
    /// `hlt`
    Halt,
    /// `ldi A v` or `ldi B v`
    LoadImm(Register, i32),
    /// `lda slot`
    Load(u64),
    /// `sta slot`
    Store(u64),
    /// `mov B M slot`
    MoveB(u64),
    /// `add`
    Add,
    /// `sub`
    Sub,
    /// `cmp`
    Cmp,
    /// `jnz %label`
    JumpNonZero(Label),
    /// `jmp %label`
    Jump(Label),
    /// `label:`
    Mark(Label),
}

/// An infix operator of the expression grammar.
#[derive(PartialEq, Eq, Structural, Clone, Copy, Debug)]
pub enum Operator {
    Plus,
    Minus,
    Equals,
    /// `=` is accepted between operands but has no instruction.
    Assign,
}

/// The three ways a node can be emitted: as a statement or value, as the
/// left operand of a binary operation (into `A`), or as its right operand (into `B`).
#[derive(PartialEq, Eq, Structural, Clone, Copy, Debug)]
pub enum Emission {
    Value,
    Left,
    Right,
}

pub struct NumberNode {
    pub val: i32,
}

pub struct VariableNode {
    pub name: String,
    pub id: u64,
}

pub struct BinaryOpNode {
    pub l: Box<ASTNode>,
    pub op: Operator,
    pub r: Box<ASTNode>,
}

pub struct VariableDec {
    pub var_name: String,
    pub slot: u64,
    pub val: Box<ASTNode>,
}

pub struct ConditionalNode {
    pub cond: Box<ASTNode>,
    pub then_branch: Box<ASTNode>,
    pub else_branch: Option<Box<ASTNode>>,
}

pub struct BlockNode {
    pub statements: Vec<ASTNode>,
}

/// A node of the syntax tree.
pub enum ASTNode {
    Number(NumberNode),
    Variable(VariableNode),
    BinaryOp(BinaryOpNode),
    Declaration(VariableDec),
    Conditional(ConditionalNode),
    Block(BlockNode),
}

/// The instruction of an operator, if it has one.
pub open spec fn op_instr(op: Operator) -> Option<Instr> {
    match op {
        Operator::Plus => Some(Instr::Add),
        Operator::Minus => Some(Instr::Sub),
        Operator::Equals => Some(Instr::Cmp),
        Operator::Assign => None,
    }
}

/// The mathematical form of a syntax tree.
pub enum Tree {
    Num(i32),
    Var(Seq<char>, u64),
    Bin(Box<Tree>, Operator, Box<Tree>),
    Dec(Seq<char>, u64, Box<Tree>),
    Cond(Box<Tree>, Box<Tree>, Option<Box<Tree>>),
    Blk(Seq<Tree>),
}

impl ASTNode {
    pub open spec fn view(&self) -> Tree
        decreases self,
    {
        match self {
            ASTNode::Number(x) => Tree::Num(x.val),
            ASTNode::Variable(v) => Tree::Var(v.name@, v.id),
            ASTNode::BinaryOp(b) => Tree::Bin(Box::new(b.l.view()), b.op, Box::new(b.r.view())),
            ASTNode::Declaration(d) => Tree::Dec(d.var_name@, d.slot, Box::new(d.val.view())),
            ASTNode::Conditional(c) => Tree::Cond(
                Box::new(c.cond.view()),
                Box::new(c.then_branch.view()),
                match &c.else_branch {
                    Some(e) => Some(Box::new(e.view())),
                    None => None,
                },
            ),
            ASTNode::Block(b) => Tree::Blk(views_from(b.statements@, 0)),
        }
    }
}

/// The views of `s[i..]`.
pub open spec fn views_from(s: Seq<ASTNode>, i: int) -> Seq<Tree>
    decreases s, s.len() - i,
{
    if 0 <= i < s.len() {
        seq![s[i].view()] + views_from(s, i + 1)
    } else {
        seq![]
    }
}

pub proof fn lemma_views_from(s: Seq<ASTNode>, i: int)
    requires
        0 <= i <= s.len(),
    ensures
        views_from(s, i).len() == s.len() - i,
        forall|k: int| 0 <= k < s.len() - i ==> #[trigger] views_from(s, i)[k] == s[i + k].view(),
    decreases s.len() - i,
{
    if i < s.len() {
        lemma_views_from(s, i + 1);
        assert forall|k: int| 0 <= k < s.len() - i implies #[trigger] views_from(s, i)[k] == s[i + k].view() by {
            if k > 0 {
                assert(views_from(s, i)[k] == views_from(s, i + 1)[k - 1]);
            }
        }
    }
}

pub proof fn lemma_views_push(s: Seq<ASTNode>, x: ASTNode)
    ensures
        views_from(s.push(x), 0) == views_from(s, 0).push(x@),
{
    lemma_views_from(s, 0);
    lemma_views_from(s.push(x), 0);
    assert forall|k: int| 0 <= k < s.len() + 1 implies #[trigger] views_from(s.push(x), 0)[k] == views_from(s, 0).push(x@)[k] by {
        assert(s.push(x)[k] == if k < s.len() { s[k] } else { x });
    }
    assert(views_from(s.push(x), 0) =~= views_from(s, 0).push(x@));
}

/// Appends `rest` after `code`, threading the label counter.
pub open spec fn then_emit(code: Seq<Instr>, rest: Option<(Seq<Instr>, nat)>) -> Option<(Seq<Instr>, nat)> {
    match rest {
        Some((c, n)) => Some((code + c, n)),
        None => None,
    }
}

/// The code of `n` in mode `mode` when the next free label number is `base`,
/// with the next free label number afterwards; `None` when an operator
/// without an instruction is reached.
pub open spec fn emit(n: Tree, mode: Emission, base: nat) -> Option<(Seq<Instr>, nat)>
    decreases n,
{
    match n {
        Tree::Num(v) => Some(
            (
                seq![
                    if mode == Emission::Right {
                        Instr::LoadImm(Register::B, v)
                    } else {
                        Instr::LoadImm(Register::A, v)
                    },
                ],
                base,
            ),
        ),
        Tree::Var(_, id) => Some(
            (
                seq![
                    match mode {
                        Emission::Value => Instr::Store(id),
                        Emission::Left => Instr::Load(id),
                        Emission::Right => Instr::MoveB(id),
                    },
                ],
                base,
            ),
        ),
        Tree::Bin(l, op, r) => match emit(*l, Emission::Left, base) {
            Some((lc, l1)) => match emit(*r, Emission::Right, l1) {
                Some((rc, l2)) => match op_instr(op) {
                    Some(i) => Some(((lc + rc).push(i), l2)),
                    None => None,
                },
                None => None,
            },
            None => None,
        },
        Tree::Dec(_, slot, val) => if mode == Emission::Value {
            match emit(*val, Emission::Value, base) {
                Some((c, l1)) => Some((c.push(Instr::Store(slot)), l1)),
                None => None,
            }
        } else {
            Some((seq![], base))
        },
        Tree::Cond(cond, then_branch, else_branch) => if mode == Emission::Value {
            match emit(*cond, Emission::Value, base + 1) {
                Some((cc, l1)) => match emit(*then_branch, Emission::Value, l1) {
                    Some((tc, l2)) => {
                        let head = cc.push(Instr::JumpNonZero(Label::Else(base as u64))) + tc + seq![
                            Instr::Jump(Label::End(base as u64)),
                            Instr::Mark(Label::Else(base as u64)),
                        ];
                        match else_branch {
                            Some(e) => match emit(*e, Emission::Value, l2) {
                                Some((ec, l3)) => Some(((head + ec).push(Instr::Mark(Label::End(base as u64))), l3)),
                                None => None,
                            },
                            None => Some((head.push(Instr::Mark(Label::End(base as u64))), l2)),
                        }
                    },
                    None => None,
                },
                None => None,
            }
        } else {
            Some((seq![], base))
        },
        Tree::Blk(stmts) => if mode == Emission::Value {
            emit_from(stmts, 0, base)
        } else {
            Some((seq![], base))
        },
    }
}

/// The code of the statements `s[i..]`, one after another.
pub open spec fn emit_from(s: Seq<Tree>, i: int, base: nat) -> Option<(Seq<Instr>, nat)>
    decreases s, s.len() - i,
{
    if 0 <= i < s.len() {
        match emit(s[i], Emission::Value, base) {
            Some((c, l1)) => then_emit(c, emit_from(s, i + 1, l1)),
            None => None,
        }
    } else {
        Some((seq![], base))
    }
}

/// Number of conditionals in `n`: an upper bound on the labels its code takes.
pub open spec fn conds(n: Tree) -> nat
    decreases n,
{
    match n {
        Tree::Num(_) => 0,
        Tree::Var(_, _) => 0,
        Tree::Bin(l, _, r) => conds(*l) + conds(*r),
        Tree::Dec(_, _, val) => conds(*val),
        Tree::Cond(c, t, e) => 1 + conds(*c) + conds(*t) + match e {
            Some(e) => conds(*e),
            None => 0,
        },
        Tree::Blk(s) => conds_from(s, 0),
    }
}

/// Number of conditionals in the statements `s[i..]`.
pub open spec fn conds_from(s: Seq<Tree>, i: int) -> nat
    decreases s, s.len() - i,
{
    if 0 <= i < s.len() {
        conds(s[i]) + conds_from(s, i + 1)
    } else {
        0
    }
}

pub proof fn lemma_conds_push(a: Seq<Tree>, t: Tree, i: int)
    requires
        0 <= i <= a.len(),
    ensures
        conds_from(a.push(t), i) == conds_from(a, i) + conds(t),
    decreases a.len() - i,
{
    if i < a.len() {
        lemma_conds_push(a, t, i + 1);
        assert(a.push(t)[i] == a[i]);
    } else {
        assert(a.push(t)[i] == t);
        assert(conds_from(a.push(t), i + 1) == 0);
    }
}

/// A conditional with an else-branch lays out its code as: the condition,
/// a jump to its else label, the then-branch, a jump to its end label, the
/// else label, the else-branch, the end label. The two labels differ, so the
/// else code comes after the jump that skips the then code, and the end label
/// after the else code.
pub proof fn lemma_conditional_layout(c: Tree, t: Tree, e: Tree, base: nat)
    requires
        base <= u64::MAX,
        emit(Tree::Cond(Box::new(c), Box::new(t), Some(Box::new(e))), Emission::Value, base) is Some,
    ensures
        ({
            let (cc, l1) = emit(c, Emission::Value, base + 1)->Some_0;
            let (tc, l2) = emit(t, Emission::Value, l1)->Some_0;
            let (ec, _) = emit(e, Emission::Value, l2)->Some_0;
            let k = base as u64;
            &&& emit(Tree::Cond(Box::new(c), Box::new(t), Some(Box::new(e))), Emission::Value, base)->Some_0.0
                == cc + seq![Instr::JumpNonZero(Label::Else(k))] + tc + seq![
                Instr::Jump(Label::End(k)),
                Instr::Mark(Label::Else(k)),
            ] + ec + seq![Instr::Mark(Label::End(k))]
            &&& Label::Else(k) != Label::End(k)
        }),
{
    let (cc, l1) = emit(c, Emission::Value, base + 1)->Some_0;
    let (tc, l2) = emit(t, Emission::Value, l1)->Some_0;
    let (ec, _) = emit(e, Emission::Value, l2)->Some_0;
    let k = base as u64;
    let head = cc.push(Instr::JumpNonZero(Label::Else(k))) + tc + seq![
        Instr::Jump(Label::End(k)),
        Instr::Mark(Label::Else(k)),
    ];
    assert((head + ec).push(Instr::Mark(Label::End(k))) =~= cc + seq![Instr::JumpNonZero(Label::Else(k))] + tc
        + seq![Instr::Jump(Label::End(k)), Instr::Mark(Label::Else(k))] + ec + seq![Instr::Mark(Label::End(k))]);
}

/// What a code generator owes: on success the code of `n` was appended to
/// `before` and the label counter moved past the labels it took; otherwise the
/// error is `UnsupportedOperator` and nothing was appended.
pub open spec fn generated(
    n: Tree,
    mode: Emission,
    before: Seq<Instr>,
    after: Seq<Instr>,
    l0: u64,
    l1: u64,
    r: Result<(), CompileError>,
) -> bool {
    match emit(n, mode, l0 as nat) {
        Some((c, l)) => r is Ok && after == before + c && l1 == l,
        None => r == Err::<(), CompileError>(CompileError::UnsupportedOperator) && after == before,
    }
}

pub proof fn lemma_then_emit_assoc(p: Seq<Instr>, c: Seq<Instr>, x: Option<(Seq<Instr>, nat)>)
    ensures
        then_emit(p, then_emit(c, x)) == then_emit(p + c, x),
{
    if let Some((c2, n)) = x {
        assert((p + c) + c2 =~= p + (c + c2));
    }
}

impl NumberNode {
    pub fn new(val: i32) -> (r: NumberNode)
        ensures
            r.val == val,
    {
        NumberNode { val }
    }

    /// `ldi A v`.
    pub fn generate_code(&self, out: &mut Vec<Instr>)
        ensures
            final(out)@ == old(out)@ + emit(ASTNode::Number(*self)@, Emission::Value, 0).unwrap().0,
    {
        out.push(Instr::LoadImm(Register::A, self.val));
        assert(final(out)@ =~= old(out)@ + emit(ASTNode::Number(*self)@, Emission::Value, 0).unwrap().0);
    }

    /// `ldi A v`.
    pub fn generate_l(&self, out: &mut Vec<Instr>)
        ensures
            final(out)@ == old(out)@ + emit(ASTNode::Number(*self)@, Emission::Left, 0).unwrap().0,
    {
        out.push(Instr::LoadImm(Register::A, self.val));
        assert(final(out)@ =~= old(out)@ + emit(ASTNode::Number(*self)@, Emission::Left, 0).unwrap().0);
    }

    /// `ldi B v`.
    pub fn generate_r(&self, out: &mut Vec<Instr>)
        ensures
            final(out)@ == old(out)@ + emit(ASTNode::Number(*self)@, Emission::Right, 0).unwrap().0,
    {
        out.push(Instr::LoadImm(Register::B, self.val));
        assert(final(out)@ =~= old(out)@ + emit(ASTNode::Number(*self)@, Emission::Right, 0).unwrap().0);
    }
}

impl VariableNode {
    /// A read of `name`, with its slot resolved now: a name that `table`
    /// does not hold yet is declared there and takes the next slot.
    pub fn new(name: String, table: &mut SymbolTable) -> (r: VariableNode)
        requires
            old(table).wf(),
            old(table)@.len() < u64::MAX,
        ensures
            final(table).wf(),
            old(table)@.contains(name@) ==> final(table)@ == old(table)@,
            !old(table)@.contains(name@) ==> final(table)@ == old(table)@.push(name@),
            r.name == name,
            r.id == slot_in(final(table)@, name@),
    {
        let id = table.declare(name.as_str());
        VariableNode { name, id }
    }

    /// Whether `name` has a slot in `table`.
    pub fn is_declared(name: &str, table: &SymbolTable) -> (r: bool)
        requires
            table.wf(),
        ensures
            r == table@.contains(name@),
    {
        table.is_declared(name)
    }

    /// `sta slot`: stores `A` into the variable, as the target of an assignment.
    pub fn generate_code(&self, out: &mut Vec<Instr>)
        ensures
            final(out)@ == old(out)@ + emit(ASTNode::Variable(*self)@, Emission::Value, 0).unwrap().0,
    {
        out.push(Instr::Store(self.id));
        assert(final(out)@ =~= old(out)@ + emit(ASTNode::Variable(*self)@, Emission::Value, 0).unwrap().0);
    }

    /// `lda slot`.
    pub fn generate_l(&self, out: &mut Vec<Instr>)
        ensures
            final(out)@ == old(out)@ + emit(ASTNode::Variable(*self)@, Emission::Left, 0).unwrap().0,
    {
        out.push(Instr::Load(self.id));
        assert(final(out)@ =~= old(out)@ + emit(ASTNode::Variable(*self)@, Emission::Left, 0).unwrap().0);
    }

    /// `mov B M slot`.
    pub fn generate_r(&self, out: &mut Vec<Instr>)
        ensures
            final(out)@ == old(out)@ + emit(ASTNode::Variable(*self)@, Emission::Right, 0).unwrap().0,
    {
        out.push(Instr::MoveB(self.id));
        assert(final(out)@ =~= old(out)@ + emit(ASTNode::Variable(*self)@, Emission::Right, 0).unwrap().0);
    }
}

impl BinaryOpNode {
    pub fn new(l: ASTNode, op: Operator, r: ASTNode) -> (res: BinaryOpNode)
        ensures
            *res.l == l,
            res.op == op,
            *res.r == r,
    {
        BinaryOpNode { l: Box::new(l), op, r: Box::new(r) }
    }

    /// Same code as `generate_code`: the result lands in `A`.
    pub fn generate_l(&self, out: &mut Vec<Instr>, labels: &mut u64) -> (r: Result<(), CompileError>)
        requires
            *old(labels) + conds(ASTNode::BinaryOp(*self)@) <= u64::MAX,
        ensures
            generated(ASTNode::BinaryOp(*self)@, Emission::Left, old(out)@, final(out)@, *old(labels), *final(labels), r),
            *final(labels) <= *old(labels) + conds(ASTNode::BinaryOp(*self)@),
        decreases self, 1nat,
    {
        self.generate_code(out, labels)
    }

    /// Same code as `generate_code`: the operands of a nested operation
    /// reuse both accumulators, and the result lands in `A`.
    pub fn generate_r(&self, out: &mut Vec<Instr>, labels: &mut u64) -> (r: Result<(), CompileError>)
        requires
            *old(labels) + conds(ASTNode::BinaryOp(*self)@) <= u64::MAX,
        ensures
            generated(ASTNode::BinaryOp(*self)@, Emission::Right, old(out)@, final(out)@, *old(labels), *final(labels), r),
            *final(labels) <= *old(labels) + conds(ASTNode::BinaryOp(*self)@),
        decreases self, 1nat,
    {
        self.generate_code(out, labels)
    }

    /// The left operand into `A`, the right one into `B`, then the operator.
    pub fn generate_code(&self, out: &mut Vec<Instr>, labels: &mut u64) -> (r: Result<(), CompileError>)
        requires
            *old(labels) + conds(ASTNode::BinaryOp(*self)@) <= u64::MAX,
        ensures
            generated(ASTNode::BinaryOp(*self)@, Emission::Value, old(out)@, final(out)@, *old(labels), *final(labels), r),
            *final(labels) <= *old(labels) + conds(ASTNode::BinaryOp(*self)@),
        decreases self, 0nat,
    {
        let ghost o0 = out@;
        let ghost k0 = *labels;
        let len0 = out.len();
        let r1 = self.l.generate_l(out, labels);
        if r1.is_err() {
            return r1;
        }
        let ghost o1 = out@;
        let ghost k1 = *labels;
        let r2 = self.r.generate_r(out, labels);
        if r2.is_err() {
            out.truncate(len0);
            assert(out@ =~= o0);
            return r2;
        }
        match self.op {
            Operator::Plus => out.push(Instr::Add),
            Operator::Minus => out.push(Instr::Sub),
            Operator::Equals => out.push(Instr::Cmp),
            Operator::Assign => {
                out.truncate(len0);
                assert(out@ =~= o0);
                return Err(CompileError::UnsupportedOperator);
            },
        }
        proof {
            let lc = emit(self.l.view(), Emission::Left, k0 as nat).unwrap().0;
            let rc = emit(self.r.view(), Emission::Right, k1 as nat).unwrap().0;
            assert(out@ =~= o0 + (lc + rc).push(op_instr(self.op).unwrap()));
        }
        Ok(())
    }
}

impl VariableDec {
    /// A declaration or assignment of `var_name`: the name is declared in
    /// `table` if it is new, and the node records its slot.
    pub fn new(var_name: String, val: ASTNode, table: &mut SymbolTable) -> (r: VariableDec)
        requires
            old(table).wf(),
            old(table)@.len() < u64::MAX,
        ensures
            final(table).wf(),
            old(table)@.contains(var_name@) ==> final(table)@ == old(table)@,
            !old(table)@.contains(var_name@) ==> final(table)@ == old(table)@.push(var_name@),
            r.var_name == var_name,
            r.slot == slot_in(final(table)@, var_name@),
            *r.val == val,
    {
        let slot = table.declare(var_name.as_str());
        VariableDec { var_name, slot, val: Box::new(val) }
    }

    /// The slot the value is stored into.
    pub fn get_memory_location(&self) -> (r: u64)
        ensures
            r == self.slot,
    {
        self.slot
    }

    /// The value into `A`, then `sta slot`.
    pub fn generate_code(&self, out: &mut Vec<Instr>, labels: &mut u64) -> (r: Result<(), CompileError>)
        requires
            *old(labels) + conds(ASTNode::Declaration(*self)@) <= u64::MAX,
        ensures
            generated(ASTNode::Declaration(*self)@, Emission::Value, old(out)@, final(out)@, *old(labels), *final(labels), r),
            *final(labels) <= *old(labels) + conds(ASTNode::Declaration(*self)@),
        decreases self, 0nat,
    {
        let ghost o0 = out@;
        let r1 = self.val.generate_code(out, labels);
        if r1.is_err() {
            return r1;
        }
        let ghost o1 = out@;
        out.push(Instr::Store(self.get_memory_location()));
        assert(out@ =~= o1.push(Instr::Store(self.slot)));
        assert(out@ =~= o0 + (o1.subrange(o0.len() as int, o1.len() as int)).push(Instr::Store(self.slot)));
        Ok(())
    }
}

impl ConditionalNode {
    pub fn new(cond: ASTNode, then_branch: ASTNode, else_branch: Option<ASTNode>) -> (r: ConditionalNode)
        ensures
            *r.cond == cond,
            *r.then_branch == then_branch,
            else_branch is None ==> r.else_branch is None,
            else_branch matches Some(e) ==> (r.else_branch matches Some(b) && *b == e),
    {
        let else_branch = match else_branch {
            Some(e) => Some(Box::new(e)),
            None => None,
        };
        ConditionalNode { cond: Box::new(cond), then_branch: Box::new(then_branch), else_branch }
    }

    /// Takes the next label number `k`, then emits the condition, `jnz
    /// %else_branch_k`, the then-branch, `jmp %endif_k`, `else_branch_k:`, the
    /// else-branch if any, and `endif_k:`.
    pub fn generate_code(&self, out: &mut Vec<Instr>, labels: &mut u64) -> (r: Result<(), CompileError>)
        requires
            *old(labels) + conds(ASTNode::Conditional(*self)@) <= u64::MAX,
        ensures
            generated(ASTNode::Conditional(*self)@, Emission::Value, old(out)@, final(out)@, *old(labels), *final(labels), r),
            *final(labels) <= *old(labels) + conds(ASTNode::Conditional(*self)@),
        decreases self, 0nat,
    {
        let ghost o0 = out@;
        let len0 = out.len();
        let k = *labels;
        *labels = k + 1;
        let r1 = self.cond.generate_code(out, labels);
        if r1.is_err() {
            return r1;
        }
        out.push(Instr::JumpNonZero(Label::Else(k)));
        let r2 = self.then_branch.generate_code(out, labels);
        if r2.is_err() {
            out.truncate(len0);
            assert(out@ =~= o0);
            return r2;
        }
        out.push(Instr::Jump(Label::End(k)));
        out.push(Instr::Mark(Label::Else(k)));
        let ghost o3 = out@;
        let ghost k3 = *labels;
        match &self.else_branch {
            Some(e) => {
                let r3 = e.generate_code(out, labels);
                if r3.is_err() {
                    out.truncate(len0);
                    assert(out@ =~= o0);
                    return r3;
                }
            },
            None => {},
        }
        let ghost o4 = out@;
        out.push(Instr::Mark(Label::End(k)));
        proof {
            let cc = emit(self.cond.view(), Emission::Value, k as nat + 1).unwrap();
            let tc = emit(self.then_branch.view(), Emission::Value, cc.1).unwrap();
            let head = cc.0.push(Instr::JumpNonZero(Label::Else(k))) + tc.0 + seq![
                Instr::Jump(Label::End(k)),
                Instr::Mark(Label::Else(k)),
            ];
            assert(o3 =~= o0 + head);
            match &self.else_branch {
                Some(e) => {
                    let ec = emit(e.view(), Emission::Value, k3 as nat).unwrap();
                    assert(out@ =~= o0 + (head + ec.0).push(Instr::Mark(Label::End(k))));
                },
                None => {
                    assert(out@ =~= o0 + head.push(Instr::Mark(Label::End(k))));
                },
            }
        }
        Ok(())
    }
}

impl BlockNode {
    pub fn new() -> (r: BlockNode)
        ensures
            r.statements@ == Seq::<ASTNode>::empty(),
    {
        BlockNode { statements: Vec::new() }
    }

    /// Appends a statement.
    pub fn add_stat(&mut self, statement: ASTNode)
        ensures
            final(self).statements@ == old(self).statements@.push(statement),
    {
        self.statements.push(statement);
    }

    /// Each statement in order, as a value.
    pub fn generate_code(&self, out: &mut Vec<Instr>, labels: &mut u64) -> (r: Result<(), CompileError>)
        requires
            *old(labels) + conds(ASTNode::Block(*self)@) <= u64::MAX,
        ensures
            generated(ASTNode::Block(*self)@, Emission::Value, old(out)@, final(out)@, *old(labels), *final(labels), r),
            *final(labels) <= *old(labels) + conds(ASTNode::Block(*self)@),
        decreases self, 0nat,
    {
        let ghost o0 = out@;
        let len0 = out.len();
        let ghost k0 = *labels;
        let ghost s = views_from(self.statements@, 0);
        proof {
            lemma_views_from(self.statements@, 0);
        }
        assert(emit(ASTNode::Block(*self)@, Emission::Value, k0 as nat) == emit_from(s, 0, k0 as nat));
        assert(conds(ASTNode::Block(*self)@) == conds_from(s, 0));
        let mut i: usize = 0;
        let mut failed = false;
        while i < self.statements.len() && !failed
            invariant
                s == views_from(self.statements@, 0),
                s.len() == self.statements@.len(),
                forall|k: int| 0 <= k < s.len() ==> #[trigger] s[k] == self.statements@[k]@,
                i <= s.len(),
                o0.len() <= out@.len(),
                out@.subrange(0, o0.len() as int) == o0,
                !failed ==> then_emit(out@.subrange(o0.len() as int, out@.len() as int), emit_from(s, i as int, *labels as nat))
                    == emit_from(s, 0, k0 as nat),
                !failed ==> *labels + conds_from(s, i as int) <= k0 + conds_from(s, 0),
                failed ==> emit_from(s, 0, k0 as nat) is None,
                failed ==> *labels <= k0 + conds_from(s, 0),
                k0 + conds_from(s, 0) <= u64::MAX,
            decreases s.len() - i,
        {
            let ghost p = out@.subrange(o0.len() as int, out@.len() as int);
            let ghost o1 = out@;
            let ghost k1 = *labels;
            assert(conds_from(s, i as int) == conds(s[i as int]) + conds_from(s, i + 1));
            assert(s[i as int] == self.statements@[i as int]@);
            let r = self.statements[i].generate_code(out, labels);
            if r.is_err() {
                assert(emit_from(s, i as int, k1 as nat) is None);
                failed = true;
            } else {
                proof {
                    let c = emit(s[i as int], Emission::Value, k1 as nat).unwrap().0;
                    lemma_then_emit_assoc(p, c, emit_from(s, i + 1, *labels as nat));
                    assert(out@.subrange(o0.len() as int, out@.len() as int) =~= p + c);
                    assert(out@.subrange(0, o0.len() as int) =~= o1.subrange(0, o0.len() as int));
                }
            }
            i = i + 1;
        }
        if failed {
            out.truncate(len0);
            assert(out@ =~= o0);
            return Err(CompileError::UnsupportedOperator);
        }
        proof {
            assert(out@ =~= o0 + out@.subrange(o0.len() as int, out@.len() as int));
        }
        Ok(())
    }
}

impl ASTNode {
    /// Emission as a statement or value.
    pub fn generate_code(&self, out: &mut Vec<Instr>, labels: &mut u64) -> (r: Result<(), CompileError>)
        requires
            *old(labels) + conds(self@) <= u64::MAX,
        ensures
            generated(self@, Emission::Value, old(out)@, final(out)@, *old(labels), *final(labels), r),
            *final(labels) <= *old(labels) + conds(self@),
        decreases self, 2nat,
    {
        match self {
            ASTNode::Number(n) => {
                n.generate_code(out);
                Ok(())
            },
            ASTNode::Variable(v) => {
                v.generate_code(out);
                Ok(())
            },
            ASTNode::BinaryOp(b) => b.generate_code(out, labels),
            ASTNode::Declaration(d) => d.generate_code(out, labels),
            ASTNode::Conditional(c) => c.generate_code(out, labels),
            ASTNode::Block(b) => b.generate_code(out, labels),
        }
    }

    /// Emission as a left operand: the value into `A`. Statements emit nothing.
    pub fn generate_l(&self, out: &mut Vec<Instr>, labels: &mut u64) -> (r: Result<(), CompileError>)
        requires
            *old(labels) + conds(self@) <= u64::MAX,
        ensures
            generated(self@, Emission::Left, old(out)@, final(out)@, *old(labels), *final(labels), r),
            *final(labels) <= *old(labels) + conds(self@),
        decreases self, 2nat,
    {
        match self {
            ASTNode::Number(n) => {
                n.generate_l(out);
                Ok(())
            },
            ASTNode::Variable(v) => {
                v.generate_l(out);
                Ok(())
            },
            ASTNode::BinaryOp(b) => b.generate_l(out, labels),
            _ => {
                assert(out@ =~= old(out)@ + Seq::<Instr>::empty());
                Ok(())
            },
        }
    }

    /// Emission as a right operand: the value into `B`. Statements emit nothing.
    pub fn generate_r(&self, out: &mut Vec<Instr>, labels: &mut u64) -> (r: Result<(), CompileError>)
        requires
            *old(labels) + conds(self@) <= u64::MAX,
        ensures
            generated(self@, Emission::Right, old(out)@, final(out)@, *old(labels), *final(labels), r),
            *final(labels) <= *old(labels) + conds(self@),
        decreases self, 2nat,
    {
        match self {
            ASTNode::Number(n) => {
                n.generate_r(out);
                Ok(())
            },
            ASTNode::Variable(v) => {
                v.generate_r(out);
                Ok(())
            },
            ASTNode::BinaryOp(b) => b.generate_r(out, labels),
            _ => {
                assert(out@ =~= old(out)@ + Seq::<Instr>::empty());
                Ok(())
            },
        }
    }
}

} // verus!
