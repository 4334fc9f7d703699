//! The readable text of registers, labels, ops and programs: a disassembly.
//!
//! A floating-point constant is written with the text a [`FloatTexts`] table holds
//! for its bits; the table is filled by the caller, who can format an `f64`.

use crate::error::CodegenError;
use crate::outside::{
    binop_text, ir_binop_text, ir_unop_text, ir_validation_text, unop_text, validation_text,
};
use crate::program::{Const, Label, Op, Program, Reg};
use vstd::prelude::*;
use vstd::string::StringExecFns;

verus! {

/// The text of the decimal digit `d`.
pub open spec fn digit_text(d: nat) -> Seq<char> {
    if d == 0 {
        "0"@
    } else if d == 1 {
        "1"@
    } else if d == 2 {
        "2"@
    } else if d == 3 {
        "3"@
    } else if d == 4 {
        "4"@
    } else if d == 5 {
        "5"@
    } else if d == 6 {
        "6"@
    } else if d == 7 {
        "7"@
    } else if d == 8 {
        "8"@
    } else {
        "9"@
    }
}

/// The decimal text of `n`, with no leading zeros.
pub open spec fn decimal(n: nat) -> Seq<char>
    decreases n,
{
    if n < 10 {
        digit_text(n)
    } else {
        decimal(n / 10) + digit_text(n % 10)
    }
}

/// The decimal text of a signed integer: a minus sign before the magnitude of a
/// negative one.
pub open spec fn int_text(v: int) -> Seq<char> {
    if v < 0 {
        "-"@ + decimal((-v) as nat)
    } else {
        decimal(v as nat)
    }
}

/// A register's text: `r` and its number.
pub open spec fn reg_text(r: Reg) -> Seq<char> {
    "r"@ + decimal(r.0 as nat)
}

/// A label's text: `L` and its number.
pub open spec fn label_text(l: Label) -> Seq<char> {
    "L"@ + decimal(l.0 as nat)
}

/// A table giving the text each floating-point constant is written with, by the
/// bits of its `f64`. A later entry for the same bits replaces an earlier one; a
/// constant whose bits have no entry is written as nothing.
#[derive(Clone, Debug)]
pub struct FloatTexts {
    entries: Vec<(u64, String)>,
}

/// The text the entries give for `bits`: that of the last entry with those bits.
pub open spec fn float_text(entries: Seq<(u64, Seq<char>)>, bits: u64) -> Seq<char>
    decreases entries.len(),
{
    if entries.len() == 0 {
        seq![]
    } else if entries.last().0 == bits {
        entries.last().1
    } else {
        float_text(entries.drop_last(), bits)
    }
}

impl View for FloatTexts {
    type V = Seq<(u64, Seq<char>)>;

    closed spec fn view(&self) -> Seq<(u64, Seq<char>)> {
        self.entries@.map_values(|e: (u64, String)| (e.0, e.1@))
    }
}

impl FloatTexts {
    /// An empty table.
    pub fn new() -> (res: FloatTexts)
        ensures
            res@ == Seq::<(u64, Seq<char>)>::empty(),
    {
        let res = FloatTexts { entries: Vec::new() };
        assert(res@ =~= Seq::<(u64, Seq<char>)>::empty());
        res
    }

    /// Records `text` as the text of the constant with `bits`.
    pub fn insert(&mut self, bits: u64, text: String)
        ensures
            final(self)@ == old(self)@.push((bits, text@)),
    {
        self.entries.push((bits, text));
        assert(final(self)@ =~= old(self)@.push((bits, text@)));
    }

    /// The text recorded for `bits`.
    pub fn text(&self, bits: u64) -> (res: String)
        ensures
            res@ == float_text(self@, bits),
    {
        let mut i = self.entries.len();
        assert(self@.take(i as int) =~= self@);
        while i > 0
            invariant
                i <= self.entries.len(),
                self@.len() == self.entries.len(),
                float_text(self@, bits) == float_text(self@.take(i as int), bits),
            decreases i,
        {
            let e = &self.entries[i - 1];
            assert(self@.take(i as int).drop_last() =~= self@.take(i - 1));
            assert(self@[i - 1] == (e.0, e.1@));
            if e.0 == bits {
                return e.1.clone();
            }
            i = i - 1;
        }
        String::new()
    }
}

/// A constant's text: an integer in decimal, a boolean as `true` or `false`, a
/// floating-point constant as the table gives it.
pub open spec fn const_text(c: Const, floats: Seq<(u64, Seq<char>)>) -> Seq<char> {
    match c {
        Const::Int(v) => int_text(v as int),
        Const::Float(bits) => float_text(floats, bits),
        Const::Bool(b) => if b {
            "true"@
        } else {
            "false"@
        },
    }
}

/// An op's text: one disassembly line, without its indentation or line break.
pub open spec fn op_text(op: Op, floats: Seq<(u64, Seq<char>)>) -> Seq<char> {
    match op {
        Op::Const { dst, value } => reg_text(dst) + " = const "@ + const_text(value, floats),
        Op::Bin { op, dst, lhs, rhs } => reg_text(dst) + " = "@ + ir_binop_text(op) + " "@
            + reg_text(lhs) + ", "@ + reg_text(rhs),
        Op::Un { op, dst, src } => reg_text(dst) + " = "@ + ir_unop_text(op) + " "@ + reg_text(src),
        Op::Move { dst, src } => reg_text(dst) + " = "@ + reg_text(src),
        Op::Jump { target } => "jump "@ + label_text(target),
        Op::JumpUnless { cond, target } => "jump_unless "@ + reg_text(cond) + ", "@ + label_text(
            target,
        ),
        Op::Return { value } => match value {
            Some(r) => "ret "@ + reg_text(r),
            None => "ret"@,
        },
    }
}

/// The first `k` parameter registers, separated by commas.
pub open spec fn params_text(params: Seq<Reg>, k: nat) -> Seq<char>
    decreases k,
{
    if k == 0 {
        seq![]
    } else if k == 1 {
        reg_text(params[0])
    } else {
        params_text(params, (k - 1) as nat) + ", "@ + reg_text(params[k - 1])
    }
}

/// The lines naming, in label order, each of the first `k` labels that points at
/// op `index`.
pub open spec fn labels_text(labels: Seq<u32>, index: nat, k: nat) -> Seq<char>
    decreases k,
{
    if k == 0 {
        seq![]
    } else {
        labels_text(labels, index, (k - 1) as nat) + if labels[k - 1] as nat == index {
            label_text(Label((k - 1) as u32)) + ":\n"@
        } else {
            seq![]
        }
    }
}

/// The lines of the first `k` ops: each preceded by the labels that point at it,
/// and indented.
pub open spec fn ops_text(ops: Seq<Op>, labels: Seq<u32>, floats: Seq<(u64, Seq<char>)>, k: nat) -> Seq<char>
    decreases k,
{
    if k == 0 {
        seq![]
    } else {
        ops_text(ops, labels, floats, (k - 1) as nat) + labels_text(labels, (k - 1) as nat, labels.len())
            + "    "@ + op_text(ops[k - 1], floats) + "\n"@
    }
}

/// The disassembly of a program: a header naming the function, its parameter
/// registers and its register count, then the op lines.
pub open spec fn program_text(
    name: Seq<char>,
    params: Seq<Reg>,
    registers: u32,
    ops: Seq<Op>,
    labels: Seq<u32>,
    floats: Seq<(u64, Seq<char>)>,
) -> Seq<char> {
    name + "("@ + params_text(params, params.len()) + ") regs="@ + decimal(registers as nat) + "\n"@
        + ops_text(ops, labels, floats, ops.len())
}

/// The text of the digit `d`.
fn digit(d: u64) -> (res: &'static str)
    requires
        d < 10,
    ensures
        res@ == digit_text(d as nat),
{
    if d == 0 {
        "0"
    } else if d == 1 {
        "1"
    } else if d == 2 {
        "2"
    } else if d == 3 {
        "3"
    } else if d == 4 {
        "4"
    } else if d == 5 {
        "5"
    } else if d == 6 {
        "6"
    } else if d == 7 {
        "7"
    } else if d == 8 {
        "8"
    } else {
        "9"
    }
}

/// Appends the decimal text of `n`.
fn push_decimal(s: &mut String, n: u64)
    ensures
        final(s)@ == old(s)@ + decimal(n as nat),
    decreases n,
{
    if n >= 10 {
        push_decimal(s, n / 10);
    }
    s.append(digit(n % 10));
    assert(final(s)@ =~= old(s)@ + decimal(n as nat));
}

/// Appends the decimal text of a signed integer.
fn push_int(s: &mut String, v: i64)
    ensures
        final(s)@ == old(s)@ + int_text(v as int),
{
    if v < 0 {
        s.append("-");
        let magnitude = (0i128 - v as i128) as u64;
        push_decimal(s, magnitude);
    } else {
        push_decimal(s, v as u64);
    }
    assert(final(s)@ =~= old(s)@ + int_text(v as int));
}

fn push_reg(s: &mut String, r: Reg)
    ensures
        final(s)@ == old(s)@ + reg_text(r),
{
    s.append("r");
    push_decimal(s, r.0 as u64);
    assert(final(s)@ =~= old(s)@ + reg_text(r));
}

fn push_label(s: &mut String, l: Label)
    ensures
        final(s)@ == old(s)@ + label_text(l),
{
    s.append("L");
    push_decimal(s, l.0 as u64);
    assert(final(s)@ =~= old(s)@ + label_text(l));
}

fn push_const(s: &mut String, c: Const, floats: &FloatTexts)
    ensures
        final(s)@ == old(s)@ + const_text(c, floats@),
{
    match c {
        Const::Int(v) => push_int(s, v),
        Const::Float(bits) => {
            let t = floats.text(bits);
            s.append(t.as_str());
        },
        Const::Bool(b) => {
            if b {
                s.append("true");
            } else {
                s.append("false");
            }
        },
    }
}

fn push_op(s: &mut String, op: Op, floats: &FloatTexts)
    ensures
        final(s)@ == old(s)@ + op_text(op, floats@),
{
    match op {
        Op::Const { dst, value } => {
            push_reg(s, dst);
            s.append(" = const ");
            push_const(s, value, floats);
        },
        Op::Bin { op, dst, lhs, rhs } => {
            push_reg(s, dst);
            s.append(" = ");
            let t = binop_text(op);
            s.append(t.as_str());
            s.append(" ");
            push_reg(s, lhs);
            s.append(", ");
            push_reg(s, rhs);
        },
        Op::Un { op, dst, src } => {
            push_reg(s, dst);
            s.append(" = ");
            let t = unop_text(op);
            s.append(t.as_str());
            s.append(" ");
            push_reg(s, src);
        },
        Op::Move { dst, src } => {
            push_reg(s, dst);
            s.append(" = ");
            push_reg(s, src);
        },
        Op::Jump { target } => {
            s.append("jump ");
            push_label(s, target);
        },
        Op::JumpUnless { cond, target } => {
            s.append("jump_unless ");
            push_reg(s, cond);
            s.append(", ");
            push_label(s, target);
        },
        Op::Return { value } => match value {
            Some(r) => {
                s.append("ret ");
                push_reg(s, r);
            },
            None => {
                s.append("ret");
            },
        },
    }
    assert(final(s)@ =~= old(s)@ + op_text(op, floats@));
}

impl Reg {
    /// The register's text, such as `r2`.
    pub fn to_string(&self) -> (res: String)
        ensures
            res@ == reg_text(*self),
    {
        let mut s = String::new();
        push_reg(&mut s, *self);
        assert(s@ =~= reg_text(*self));
        s
    }
}

impl Label {
    /// The label's text, such as `L3`.
    pub fn to_string(&self) -> (res: String)
        ensures
            res@ == label_text(*self),
    {
        let mut s = String::new();
        push_label(&mut s, *self);
        assert(s@ =~= label_text(*self));
        s
    }
}

impl Const {
    /// The constant's text, such as `-7` or `true`; a floating-point constant is
    /// written as `floats` gives it.
    pub fn to_string(&self, floats: &FloatTexts) -> (res: String)
        ensures
            res@ == const_text(*self, floats@),
    {
        let mut s = String::new();
        push_const(&mut s, *self, floats);
        assert(s@ =~= const_text(*self, floats@));
        s
    }
}

impl Op {
    /// The op's disassembly line, such as `r2 = add r0, r1`.
    pub fn to_string(&self, floats: &FloatTexts) -> (res: String)
        ensures
            res@ == op_text(*self, floats@),
    {
        let mut s = String::new();
        push_op(&mut s, *self, floats);
        assert(s@ =~= op_text(*self, floats@));
        s
    }
}

impl Program {
    /// The program's disassembly: a header line, then each op on its own indented
    /// line, preceded by a line for each label that points at it.
    pub fn to_string(&self, floats: &FloatTexts) -> (res: String)
        ensures
            res@ == program_text(
                self@.name,
                self@.params,
                self@.registers,
                self@.ops,
                self@.labels,
                floats@,
            ),
    {
        let name = self.name();
        let params = self.params();
        let ops = self.ops();
        let labels = self.label_offsets();
        let mut s = String::new();
        s.append(name);
        s.append("(");
        let ghost head = s@;
        for i in 0..params.len()
            invariant
                params@ == self@.params,
                s@ == head + params_text(params@, i as nat),
        {
            if i != 0 {
                s.append(", ");
            }
            push_reg(&mut s, params[i]);
            assert(s@ =~= head + params_text(params@, (i + 1) as nat));
        }
        s.append(") regs=");
        push_decimal(&mut s, self.register_count() as u64);
        s.append("\n");
        let ghost top = s@;
        for index in 0..ops.len()
            invariant
                ops@ == self@.ops,
                labels@ == self@.labels,
                s@ == top + ops_text(ops@, labels@, floats@, index as nat),
        {
            let ghost before = s@;
            // A label points at exactly one op, so at most one label line prints
            // before each op of a program that lowering produced.
            for id in 0..labels.len()
                invariant
                    labels@ == self@.labels,
                    s@ == before + labels_text(labels@, index as nat, id as nat),
            {
                if labels[id] as usize == index {
                    push_label(&mut s, Label(id as u32));
                    s.append(":\n");
                }
                assert(s@ =~= before + labels_text(labels@, index as nat, (id + 1) as nat));
            }
            s.append("    ");
            push_op(&mut s, ops[index], floats);
            s.append("\n");
            assert(s@ =~= top + ops_text(ops@, labels@, floats@, (index + 1) as nat));
        }
        assert(s@ =~= program_text(
            self@.name,
            self@.params,
            self@.registers,
            self@.ops,
            self@.labels,
            floats@,
        ));
        s
    }
}

impl CodegenError {
    /// The error's text: that the function is not well-formed, and why.
    pub fn to_string(&self) -> (res: String)
        ensures
            match *self {
                CodegenError::InvalidIr(reason) => res@
                    == "cannot lower a function that is not well-formed: "@ + ir_validation_text(
                    reason,
                ),
            },
    {
        match self {
            CodegenError::InvalidIr(reason) => {
                let mut s = String::new();
                s.append("cannot lower a function that is not well-formed: ");
                let t = validation_text(reason);
                s.append(t.as_str());
                s
            },
        }
    }
}


/// The number a string of decimal digits reads as.
pub open spec fn numeral_value(s: Seq<char>) -> int
    decreases s.len(),
{
    if s.len() == 0 {
        0
    } else {
        numeral_value(s.drop_last()) * 10 + (s.last() as int - 48)
    }
}

/// Whether `s` is the decimal numeral of `n`: one or more digits, no leading
/// zero, reading as `n`.
pub open spec fn is_numeral(s: Seq<char>, n: int) -> bool {
    &&& s.len() >= 1
    &&& forall|k: int| 0 <= k < s.len() ==> 48 <= #[trigger] (s[k] as int) <= 57
    &&& (s.len() > 1 ==> s[0] != '0')
    &&& numeral_value(s) == n
}

proof fn lemma_digit_text(d: nat)
    requires
        d < 10,
    ensures
        digit_text(d).len() == 1,
        digit_text(d)[0] as int == 48 + d,
{
    reveal_strlit("0");
    reveal_strlit("1");
    reveal_strlit("2");
    reveal_strlit("3");
    reveal_strlit("4");
    reveal_strlit("5");
    reveal_strlit("6");
    reveal_strlit("7");
    reveal_strlit("8");
    reveal_strlit("9");
}

/// The decimal text of a number is its numeral.
pub proof fn lemma_decimal_is_numeral(n: nat)
    ensures
        is_numeral(decimal(n), n as int),
    decreases n,
{
    if n < 10 {
        lemma_digit_text(n);
        let s = decimal(n);
        assert(s.drop_last() =~= Seq::<char>::empty());
        assert(numeral_value(s.drop_last()) == 0);
        assert(s.last() == s[0]);
    } else {
        lemma_decimal_is_numeral(n / 10);
        lemma_digit_text(n % 10);
        let h = decimal(n / 10);
        let s = decimal(n);
        assert(s == h + digit_text(n % 10));
        assert(s.drop_last() =~= h);
        assert(s.last() == digit_text(n % 10)[0]);
        assert(s[0] == h[0]);
        if n / 10 < 10 {
            lemma_digit_text(n / 10);
        } else {
            lemma_decimal_is_numeral(n / 100);
            lemma_digit_text(n / 10 % 10);
            assert(h == decimal(n / 10 / 10) + digit_text(n / 10 % 10));
            assert(n / 10 / 10 == n / 100);
            assert(h.len() > 1);
        }
        assert forall|k: int| 0 <= k < s.len() implies 48 <= #[trigger] (s[k] as int) <= 57 by {
            if k < h.len() {
                assert(s[k] == h[k]);
                assert(48 <= (h[k] as int) <= 57);
            }
        }
        assert(numeral_value(s) == numeral_value(h) * 10 + (n % 10));
        assert((n / 10) * 10 + n % 10 == n) by (nonlinear_arith);
    }
}

/// A constant integer is written as its decimal numeral, after a minus sign when
/// it is negative.
pub proof fn lemma_int_const_text(v: i64, floats: Seq<(u64, Seq<char>)>)
    ensures
        v >= 0 ==> is_numeral(const_text(Const::Int(v), floats), v as int),
        v < 0 ==> const_text(Const::Int(v), floats)[0] == '-' && is_numeral(
            const_text(Const::Int(v), floats).drop_first(),
            -(v as int),
        ),
{
    reveal_strlit("-");
    if v >= 0 {
        lemma_decimal_is_numeral(v as nat);
    } else {
        lemma_decimal_is_numeral((-v) as nat);
        assert(const_text(Const::Int(v), floats).drop_first() =~= decimal((-v) as nat));
    }
}

/// A register is written as `r` and the numeral of its number; a label as `L`
/// and the numeral of its number.
pub proof fn lemma_reg_and_label_text(r: Reg, l: Label)
    ensures
        reg_text(r)[0] == 'r',
        is_numeral(reg_text(r).drop_first(), r.0 as int),
        label_text(l)[0] == 'L',
        is_numeral(label_text(l).drop_first(), l.0 as int),
{
    reveal_strlit("r");
    reveal_strlit("L");
    lemma_decimal_is_numeral(r.0 as nat);
    lemma_decimal_is_numeral(l.0 as nat);
    assert(reg_text(r).drop_first() =~= decimal(r.0 as nat));
    assert(label_text(l).drop_first() =~= decimal(l.0 as nat));
}

proof fn lemma_params_text_prefix(params: Seq<Reg>, a: nat, b: nat)
    requires
        1 <= a <= b,
    ensures
        params_text(params, a).len() <= params_text(params, b).len(),
        params_text(params, b).subrange(0, params_text(params, a).len() as int) == params_text(
            params,
            a,
        ),
    decreases b,
{
    if a < b {
        lemma_params_text_prefix(params, a, (b - 1) as nat);
        let t = params_text(params, (b - 1) as nat);
        assert(params_text(params, b).subrange(0, t.len() as int) =~= t);
        assert(params_text(params, b).subrange(0, params_text(params, a).len() as int) =~= t.subrange(
            0,
            params_text(params, a).len() as int,
        ));
    } else {
        assert(params_text(params, b).subrange(0, params_text(params, a).len() as int) =~= params_text(
            params,
            a,
        ));
    }
}

/// The parameter list of a disassembly names the parameters' registers in order,
/// separated by `, `: the list of all `n` parameters begins with that of the
/// first `i`, then (past a separator when `i > 0`) `r` and the number of
/// parameter `i`'s register.
pub proof fn lemma_params_text_in_order(params: Seq<Reg>, i: nat, n: nat)
    requires
        i < n <= params.len(),
    ensures
        params_text(params, 0) == Seq::<char>::empty(),
        ({
            let pre = params_text(params, i) + (if i == 0 {
                Seq::<char>::empty()
            } else {
                ", "@
            }) + ("r"@ + decimal(params[i as int].0 as nat));
            &&& pre.len() <= params_text(params, n).len()
            &&& params_text(params, n).subrange(0, pre.len() as int) == pre
        }),
{
    let pre = params_text(params, i) + (if i == 0 {
        Seq::<char>::empty()
    } else {
        ", "@
    }) + ("r"@ + decimal(params[i as int].0 as nat));
    if i == 0 {
        assert(pre =~= params_text(params, 1));
    } else {
        assert(pre =~= params_text(params, i + 1));
    }
    lemma_params_text_prefix(params, i + 1, n);
}

/// The header of a program's disassembly is its name and `(`, then its
/// parameters' registers in order, separated by `, `.
pub proof fn lemma_program_header_names_params(
    name: Seq<char>,
    params: Seq<Reg>,
    registers: u32,
    ops: Seq<Op>,
    labels: Seq<u32>,
    floats: Seq<(u64, Seq<char>)>,
    i: nat,
)
    requires
        i < params.len(),
    ensures
        ({
            let pre = name + "("@ + params_text(params, i) + (if i == 0 {
                Seq::<char>::empty()
            } else {
                ", "@
            }) + ("r"@ + decimal(params[i as int].0 as nat));
            let t = program_text(name, params, registers, ops, labels, floats);
            &&& pre.len() <= t.len()
            &&& t.subrange(0, pre.len() as int) == pre
        }),
{
    lemma_params_text_in_order(params, i, params.len());
    let sep = if i == 0 {
        Seq::<char>::empty()
    } else {
        ", "@
    };
    let item = params_text(params, i) + sep + ("r"@ + decimal(params[i as int].0 as nat));
    let pt = params_text(params, params.len());
    let t = program_text(name, params, registers, ops, labels, floats);
    let head = name + "("@;
    assert(t == head + pt + (") regs="@ + decimal(registers as nat) + "\n"@ + ops_text(
        ops,
        labels,
        floats,
        ops.len(),
    )));
    assert(pt =~= item + pt.subrange(item.len() as int, pt.len() as int));
    assert(t.subrange(0, (head + item).len() as int) =~= head + item);
    assert(name + "("@ + params_text(params, i) + sep + ("r"@ + decimal(params[i as int].0 as nat))
        =~= head + item);
}

/// Whether a text holds no space.
pub open spec fn spaceless(s: Seq<char>) -> bool {
    forall|k: int| 0 <= k < s.len() ==> #[trigger] s[k] != ' '
}

proof fn lemma_label_line(id: nat)
    ensures
        spaceless("L"@ + decimal(id) + ":\n"@),
{
    reveal_strlit("L");
    reveal_strlit(":\n");
    lemma_decimal_is_numeral(id);
    let s = "L"@ + decimal(id) + ":\n"@;
    assert forall|k: int| 0 <= k < s.len() implies #[trigger] s[k] != ' ' by {
        if 1 <= k < 1 + decimal(id).len() {
            assert(s[k] == decimal(id)[k - 1]);
            assert(48 <= (decimal(id)[k - 1] as int) <= 57);
        }
    }
}

/// Label lines grow by whole lines: those of the first `b` labels begin with those
/// of the first `a`, followed by text with no space.
proof fn lemma_labels_text_grow(labels: Seq<u32>, index: nat, a: nat, b: nat)
    requires
        a <= b <= labels.len(),
        b <= u32::MAX + 1,
    ensures
        ({
            let x = labels_text(labels, index, a);
            let y = labels_text(labels, index, b);
            &&& x.len() <= y.len()
            &&& y.subrange(0, x.len() as int) == x
            &&& spaceless(y.subrange(x.len() as int, y.len() as int))
        }),
    decreases b,
{
    let x = labels_text(labels, index, a);
    let y = labels_text(labels, index, b);
    if a == b {
        assert(y.subrange(0, x.len() as int) =~= x);
        assert(y.subrange(x.len() as int, y.len() as int) =~= Seq::<char>::empty());
    } else {
        let c = (b - 1) as nat;
        lemma_labels_text_grow(labels, index, a, c);
        let z = labels_text(labels, index, c);
        let line = if labels[c as int] as nat == index {
            label_text(Label(c as u32)) + ":\n"@
        } else {
            seq![]
        };
        assert(y == z + line);
        lemma_label_line(c);
        assert(label_text(Label(c as u32)) == "L"@ + decimal(c));
        assert(spaceless(line));
        assert(y.subrange(0, x.len() as int) =~= z.subrange(0, x.len() as int));
        let zr = z.subrange(x.len() as int, z.len() as int);
        assert(y.subrange(x.len() as int, y.len() as int) =~= zr + line);
        assert forall|k: int| 0 <= k < (zr + line).len() implies #[trigger] (zr + line)[k] != ' ' by {
            if k < zr.len() {
                assert((zr + line)[k] == zr[k]);
            } else {
                assert((zr + line)[k] == line[k - zr.len()]);
            }
        }
    }
}

proof fn lemma_ops_text_prefix(
    ops: Seq<Op>,
    labels: Seq<u32>,
    floats: Seq<(u64, Seq<char>)>,
    a: nat,
    b: nat,
)
    requires
        a <= b <= ops.len(),
    ensures
        ops_text(ops, labels, floats, a).len() <= ops_text(ops, labels, floats, b).len(),
        ops_text(ops, labels, floats, b).subrange(0, ops_text(ops, labels, floats, a).len() as int)
            == ops_text(ops, labels, floats, a),
    decreases b,
{
    let x = ops_text(ops, labels, floats, a);
    if a < b {
        lemma_ops_text_prefix(ops, labels, floats, a, (b - 1) as nat);
        let z = ops_text(ops, labels, floats, (b - 1) as nat);
        assert(ops_text(ops, labels, floats, b).subrange(0, x.len() as int) =~= z.subrange(
            0,
            x.len() as int,
        ));
    } else {
        assert(ops_text(ops, labels, floats, b).subrange(0, x.len() as int) =~= x);
    }
}

/// In a program's disassembly, each label that points at op `i` has its own line,
/// `L` and the label's number and a colon, before op `i`'s indented line: between
/// the two stand only other label lines, which hold no space, while every op line
/// begins with spaces. The positions of the two lines are returned.
pub proof fn lemma_label_line_precedes_its_op(
    name: Seq<char>,
    params: Seq<Reg>,
    registers: u32,
    ops: Seq<Op>,
    labels: Seq<u32>,
    floats: Seq<(u64, Seq<char>)>,
    i: nat,
    id: nat,
) -> (at: (int, int))
    requires
        i < ops.len(),
        id < labels.len() <= u32::MAX + 1,
        labels[id as int] as nat == i,
    ensures
        ({
            let t = program_text(name, params, registers, ops, labels, floats);
            let line = "L"@ + decimal(id) + ":\n"@;
            let op_line = "    "@ + op_text(ops[i as int], floats) + "\n"@;
            &&& 0 <= at.0
            &&& at.0 + line.len() <= at.1
            &&& at.1 + op_line.len() <= t.len()
            &&& t.subrange(at.0, at.0 + line.len()) == line
            &&& t.subrange(at.1, at.1 + op_line.len()) == op_line
            &&& spaceless(t.subrange(at.0 + line.len(), at.1))
        }),
{
    let t = program_text(name, params, registers, ops, labels, floats);
    let line = "L"@ + decimal(id) + ":\n"@;
    let op_line = "    "@ + op_text(ops[i as int], floats) + "\n"@;
    let n = labels.len();
    let head = name + "("@ + params_text(params, params.len()) + ") regs="@ + decimal(registers as nat)
        + "\n"@;
    let before = ops_text(ops, labels, floats, i);
    let ls = labels_text(labels, i, n);
    let upto = labels_text(labels, i, id);
    let with = labels_text(labels, i, id + 1);
    lemma_ops_text_prefix(ops, labels, floats, i + 1, ops.len());
    lemma_labels_text_grow(labels, i, id + 1, n);
    assert(label_text(Label(id as u32)) == "L"@ + decimal(id));
    assert(with == upto + line);
    let all = ops_text(ops, labels, floats, ops.len());
    let first = ops_text(ops, labels, floats, i + 1);
    assert(first == before + ls + op_line);
    assert(t == head + all);
    let p: int = (head.len() + before.len() + upto.len()) as int;
    let q: int = (head.len() + before.len() + ls.len()) as int;
    assert(all.subrange(0, first.len() as int) == first);
    assert(ls.subrange(0, with.len() as int) == with);
    assert forall|k: int| 0 <= k < line.len() implies t.subrange(p, p + line.len())[k] == line[k] by {
        assert(t[p + k] == all[before.len() + upto.len() + k]);
        assert(all[before.len() + upto.len() + k] == first[before.len() + upto.len() + k]);
        assert(first[before.len() + upto.len() + k] == ls[upto.len() + k]);
        assert(ls[upto.len() + k] == with[upto.len() + k]);
    }
    assert(t.subrange(p, p + line.len()) =~= line);
    assert forall|k: int| 0 <= k < op_line.len() implies t.subrange(q, q + op_line.len())[k] == op_line[k] by {
        assert(t[q + k] == all[before.len() + ls.len() + k]);
        assert(all[before.len() + ls.len() + k] == first[before.len() + ls.len() + k]);
    }
    assert(t.subrange(q, q + op_line.len()) =~= op_line);
    let gap = t.subrange(p + line.len(), q);
    let tail = ls.subrange(with.len() as int, ls.len() as int);
    assert forall|k: int| 0 <= k < gap.len() implies #[trigger] gap[k] != ' ' by {
        assert(gap[k] == t[p + line.len() + k]);
        assert(t[p + line.len() + k] == all[before.len() + with.len() + k]);
        assert(all[before.len() + with.len() + k] == first[before.len() + with.len() + k]);
        assert(first[before.len() + with.len() + k] == ls[with.len() + k]);
        assert(ls[with.len() + k] == tail[k]);
    }
    (p, q)
}


/// Each op is written with its registers and labels in operand order: a result
/// register first, then ` = `, then what it computes from; a jump as `jump` and
/// its target; a conditional jump as `jump_unless`, its condition, then its
/// target; a return as `ret` and the register it returns, if any.
pub proof fn lemma_op_text_names_operands_in_order(op: Op, floats: Seq<(u64, Seq<char>)>)
    ensures
        op_text(op, floats) == match op {
            Op::Const { dst, value } => ("r"@ + decimal(dst.0 as nat)) + " = const "@ + const_text(
                value,
                floats,
            ),
            Op::Bin { op, dst, lhs, rhs } => ("r"@ + decimal(dst.0 as nat)) + " = "@ + ir_binop_text(op)
                + " "@ + ("r"@ + decimal(lhs.0 as nat)) + ", "@ + ("r"@ + decimal(rhs.0 as nat)),
            Op::Un { op, dst, src } => ("r"@ + decimal(dst.0 as nat)) + " = "@ + ir_unop_text(op)
                + " "@ + ("r"@ + decimal(src.0 as nat)),
            Op::Move { dst, src } => ("r"@ + decimal(dst.0 as nat)) + " = "@ + ("r"@ + decimal(
                src.0 as nat,
            )),
            Op::Jump { target } => "jump "@ + ("L"@ + decimal(target.0 as nat)),
            Op::JumpUnless { cond, target } => "jump_unless "@ + ("r"@ + decimal(cond.0 as nat))
                + ", "@ + ("L"@ + decimal(target.0 as nat)),
            Op::Return { value } => match value {
                Some(r) => "ret "@ + ("r"@ + decimal(r.0 as nat)),
                None => "ret"@,
            },
        },
{
}

/// A boolean constant is written `true` or `false`, and a floating-point constant
/// as the caller's table gives it for its bits.
pub proof fn lemma_bool_and_float_const_text(b: bool, bits: u64, floats: Seq<(u64, Seq<char>)>)
    ensures
        const_text(Const::Bool(b), floats) == (if b {
            "true"@
        } else {
            "false"@
        }),
        const_text(Const::Float(bits), floats) == float_text(floats, bits),
{
}

/// The header line of a program's disassembly: its name, its parameter list in
/// parentheses, ` regs=` and the numeral of its register count, and a line break.
pub proof fn lemma_program_header(
    name: Seq<char>,
    params: Seq<Reg>,
    registers: u32,
    ops: Seq<Op>,
    labels: Seq<u32>,
    floats: Seq<(u64, Seq<char>)>,
)
    ensures
        ({
            let h = name + "("@ + params_text(params, params.len()) + ") regs="@ + decimal(
                registers as nat,
            ) + "\n"@;
            let t = program_text(name, params, registers, ops, labels, floats);
            &&& h.len() <= t.len()
            &&& t.subrange(0, h.len() as int) == h
        }),
{
    let h = name + "("@ + params_text(params, params.len()) + ") regs="@ + decimal(registers as nat)
        + "\n"@;
    let t = program_text(name, params, registers, ops, labels, floats);
    assert(t == h + ops_text(ops, labels, floats, ops.len()));
    assert(t.subrange(0, h.len() as int) =~= h);
}


/// Where op `k`'s indented line stands in a program's disassembly: it ends where
/// the text of the first `k + 1` ops ends.
proof fn lemma_op_line_at(
    name: Seq<char>,
    params: Seq<Reg>,
    registers: u32,
    ops: Seq<Op>,
    labels: Seq<u32>,
    floats: Seq<(u64, Seq<char>)>,
    k: nat,
) -> (q: int)
    requires
        k < ops.len(),
    ensures
        ({
            let t = program_text(name, params, registers, ops, labels, floats);
            let head = name + "("@ + params_text(params, params.len()) + ") regs="@ + decimal(
                registers as nat,
            ) + "\n"@;
            let op_line = "    "@ + op_text(ops[k as int], floats) + "\n"@;
            &&& head.len() + ops_text(ops, labels, floats, k).len() <= q
            &&& q + op_line.len() == head.len() + ops_text(ops, labels, floats, k + 1).len()
            &&& q + op_line.len() <= t.len()
            &&& t.subrange(q, q + op_line.len()) == op_line
        }),
{
    let t = program_text(name, params, registers, ops, labels, floats);
    let head = name + "("@ + params_text(params, params.len()) + ") regs="@ + decimal(registers as nat)
        + "\n"@;
    let op_line = "    "@ + op_text(ops[k as int], floats) + "\n"@;
    let before = ops_text(ops, labels, floats, k);
    let ls = labels_text(labels, k, labels.len());
    let all = ops_text(ops, labels, floats, ops.len());
    let first = ops_text(ops, labels, floats, k + 1);
    lemma_ops_text_prefix(ops, labels, floats, k + 1, ops.len());
    assert(first == before + ls + op_line);
    assert(t == head + all);
    let q: int = (head.len() + before.len() + ls.len()) as int;
    assert forall|x: int| 0 <= x < op_line.len() implies t.subrange(q, q + op_line.len())[x] == op_line[x] by {
        assert(t[q + x] == all[before.len() + ls.len() + x]);
        assert(all[before.len() + ls.len() + x] == first[before.len() + ls.len() + x]);
    }
    assert(t.subrange(q, q + op_line.len()) =~= op_line);
    q
}

/// A program's disassembly gives each op its own indented line, in op order: the
/// line of op `i` ends before the line of a later op `j` begins. Their positions
/// are returned.
pub proof fn lemma_op_lines_in_order(
    name: Seq<char>,
    params: Seq<Reg>,
    registers: u32,
    ops: Seq<Op>,
    labels: Seq<u32>,
    floats: Seq<(u64, Seq<char>)>,
    i: nat,
    j: nat,
) -> (at: (int, int))
    requires
        i < j < ops.len(),
    ensures
        ({
            let t = program_text(name, params, registers, ops, labels, floats);
            let line_i = "    "@ + op_text(ops[i as int], floats) + "\n"@;
            let line_j = "    "@ + op_text(ops[j as int], floats) + "\n"@;
            &&& 0 <= at.0
            &&& at.0 + line_i.len() <= at.1
            &&& at.1 + line_j.len() <= t.len()
            &&& t.subrange(at.0, at.0 + line_i.len()) == line_i
            &&& t.subrange(at.1, at.1 + line_j.len()) == line_j
        }),
{
    let qi = lemma_op_line_at(name, params, registers, ops, labels, floats, i);
    let qj = lemma_op_line_at(name, params, registers, ops, labels, floats, j);
    lemma_ops_text_prefix(ops, labels, floats, i + 1, j);
    (qi, qj)
}

} // verus!
