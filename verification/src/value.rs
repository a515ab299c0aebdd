//! Run-time values, bytecode instructions, and their mathematical models.

use vstd::prelude::*;
use crate::num::{dec_int, dec_string_i32};

verus! {

broadcast use vstd::std_specs::vec::group_vec_axioms;

/// The operations the virtual machine can execute.
#[derive(Clone, Copy, PartialEq, Eq, Structural, Debug)]
pub enum OpCode {
    Dup,
    Drop,
    Swap,
    Over,
    Add,
    Sub,
    Mul,
    Div,
    BeginDefine,
    EndDefine,
    Push,
    Pop,
    PrintStack,
    PrintTop,
    Exit,
}

/// The kinds a line's tokens can have.
#[derive(Clone, Copy, PartialEq, Eq, Structural, Debug)]
pub enum TokenId {
    Plus,
    Minus,
    Star,
    Slash,
    Text,
    Digit,
    Colon,
    Semicolon,
}

/// Everything that can go wrong while a line is lexed, compiled or run.
/// Each failure spoils only the line it arose on.
#[derive(Clone, Copy, PartialEq, Eq, Structural, Debug)]
pub enum Error {
    /// An unterminated quoted string.
    LexicalError,
    /// Malformed word-definition nesting, or a digit token whose text
    /// does not denote a 32-bit integer.
    CompileError,
    /// An opcode found fewer operands on the stack than it needs.
    RuntimeStackUnderflow,
    /// Arithmetic on a non-integer, or a define instruction whose body
    /// operands are not nested instructions.
    RuntimeTypeError,
    /// Integer division by zero.
    RuntimeArithmeticError,
    /// A chain of word invocations nested deeper than the machine allows.
    RuntimeRecursionLimit,
}

/// A run-time value: an integer, a string, or an embedded instruction.
#[derive(Debug, PartialEq)]
pub enum Value {
    Int(i32),
    Str(String),
    Ins(Box<Instruction>),
}

/// One bytecode instruction: an opcode and its inline operands.
#[derive(Debug, PartialEq)]
pub struct Instruction {
    pub opcode: OpCode,
    pub values: Vec<Value>,
}

/// The mathematical model of a `Value`.
pub enum AbsValue {
    Int(int),
    Str(Seq<char>),
    Ins(Box<AbsInstr>),
}

/// The mathematical model of an `Instruction`.
pub struct AbsInstr {
    pub op: OpCode,
    pub args: Seq<AbsValue>,
}

/// The model of a value: integers widen, strings become character
/// sequences, embedded instructions are modelled recursively.
pub open spec fn abs_value(v: Value) -> AbsValue
    decreases v,
{
    match v {
        Value::Int(i) => AbsValue::Int(i as int),
        Value::Str(s) => AbsValue::Str(s@),
        Value::Ins(b) => AbsValue::Ins(Box::new(abs_instr(*b))),
    }
}

/// The model of an instruction.
pub open spec fn abs_instr(ins: Instruction) -> AbsInstr
    decreases ins,
{
    AbsInstr { op: ins.opcode, args: abs_values(ins.values@) }
}

/// The models of a sequence of values.
pub open spec fn abs_values(s: Seq<Value>) -> Seq<AbsValue>
    decreases s,
{
    if s.len() == 0 {
        Seq::empty()
    } else {
        abs_values(s.drop_last()).push(abs_value(s.last()))
    }
}

/// The models of a sequence of instructions.
pub open spec fn abs_instrs(s: Seq<Instruction>) -> Seq<AbsInstr>
    decreases s,
{
    if s.len() == 0 {
        Seq::empty()
    } else {
        abs_instrs(s.drop_last()).push(abs_instr(s.last()))
    }
}

/// Pointwise reading of `abs_values`.
pub proof fn lemma_abs_values_index(s: Seq<Value>)
    ensures
        abs_values(s).len() == s.len(),
        forall|i: int| 0 <= i < s.len() ==> abs_values(s)[i] == abs_value(#[trigger] s[i]),
    decreases s.len(),
{
    if s.len() > 0 {
        lemma_abs_values_index(s.drop_last());
        assert forall|i: int| 0 <= i < s.len() implies abs_values(s)[i] == abs_value(#[trigger] s[i]) by {
            if i < s.len() - 1 {
                assert(s.drop_last()[i] == s[i]);
            } else {
                assert(s.last() == s[i]);
            }
        }
    }
}

/// Pointwise reading of `abs_instrs`.
pub proof fn lemma_abs_instrs_index(s: Seq<Instruction>)
    ensures
        abs_instrs(s).len() == s.len(),
        forall|i: int| 0 <= i < s.len() ==> abs_instrs(s)[i] == abs_instr(#[trigger] s[i]),
    decreases s.len(),
{
    if s.len() > 0 {
        lemma_abs_instrs_index(s.drop_last());
        assert forall|i: int| 0 <= i < s.len() implies abs_instrs(s)[i] == abs_instr(#[trigger] s[i]) by {
            if i < s.len() - 1 {
                assert(s.drop_last()[i] == s[i]);
            } else {
                assert(s.last() == s[i]);
            }
        }
    }
}

/// The model of a pushed value is pushed onto the model.
pub proof fn lemma_abs_values_push(s: Seq<Value>, v: Value)
    ensures
        abs_values(s.push(v)) == abs_values(s).push(abs_value(v)),
{
    assert(s.push(v).drop_last() =~= s);
}

/// The model of a shortened stack is the shortened model.
pub proof fn lemma_abs_values_drop(s: Seq<Value>)
    requires
        s.len() > 0,
    ensures
        abs_values(s.drop_last()) == abs_values(s).drop_last(),
        abs_values(s).len() == s.len(),
    decreases s.len(),
{
    lemma_abs_values_index(s);
    assert(abs_values(s.drop_last()).push(abs_value(s.last())).drop_last() =~= abs_values(
        s.drop_last(),
    ));
}

/// The model of a pushed instruction is pushed onto the model.
pub proof fn lemma_abs_instrs_push(s: Seq<Instruction>, v: Instruction)
    ensures
        abs_instrs(s.push(v)) == abs_instrs(s).push(abs_instr(v)),
{
    assert(s.push(v).drop_last() =~= s);
}

/// The display name of an opcode.
pub open spec fn opcode_name(op: OpCode) -> Seq<char> {
    match op {
        OpCode::Dup => "Dup"@,
        OpCode::Drop => "Drop"@,
        OpCode::Swap => "Swap"@,
        OpCode::Over => "Over"@,
        OpCode::Add => "Add"@,
        OpCode::Sub => "Sub"@,
        OpCode::Mul => "Mul"@,
        OpCode::Div => "Div"@,
        OpCode::BeginDefine => "BeginDefine"@,
        OpCode::EndDefine => "EndDefine"@,
        OpCode::Push => "Push"@,
        OpCode::Pop => "Pop"@,
        OpCode::PrintStack => "PrintStack"@,
        OpCode::PrintTop => "PrintTop"@,
        OpCode::Exit => "Exit"@,
    }
}

/// How a value is displayed: integers in decimal, strings as their
/// characters, an embedded instruction by its opcode's name.
pub open spec fn render_value(v: AbsValue) -> Seq<char> {
    match v {
        AbsValue::Int(i) => dec_int(i),
        AbsValue::Str(s) => s,
        AbsValue::Ins(b) => opcode_name(b.op),
    }
}

/// The values of a stack rendered bottom-first, separated by `, `.
pub open spec fn render_items(stack: Seq<AbsValue>) -> Seq<char>
    decreases stack.len(),
{
    if stack.len() == 0 {
        Seq::empty()
    } else if stack.len() == 1 {
        render_value(stack[0])
    } else {
        render_items(stack.drop_last()) + ", "@ + render_value(stack.last())
    }
}

/// How a whole stack is displayed.
pub open spec fn render_stack(stack: Seq<AbsValue>) -> Seq<char> {
    "["@ + render_items(stack) + "]"@
}

/// The display name of an opcode, executably.
pub fn opcode_string(op: OpCode) -> (r: String)
    ensures
        r@ == opcode_name(op),
{
    match op {
        OpCode::Dup => "Dup".to_owned(),
        OpCode::Drop => "Drop".to_owned(),
        OpCode::Swap => "Swap".to_owned(),
        OpCode::Over => "Over".to_owned(),
        OpCode::Add => "Add".to_owned(),
        OpCode::Sub => "Sub".to_owned(),
        OpCode::Mul => "Mul".to_owned(),
        OpCode::Div => "Div".to_owned(),
        OpCode::BeginDefine => "BeginDefine".to_owned(),
        OpCode::EndDefine => "EndDefine".to_owned(),
        OpCode::Push => "Push".to_owned(),
        OpCode::Pop => "Pop".to_owned(),
        OpCode::PrintStack => "PrintStack".to_owned(),
        OpCode::PrintTop => "PrintTop".to_owned(),
        OpCode::Exit => "Exit".to_owned(),
    }
}

impl View for Value {
    type V = AbsValue;

    open spec fn view(&self) -> AbsValue {
        abs_value(*self)
    }
}

impl View for Instruction {
    type V = AbsInstr;

    open spec fn view(&self) -> AbsInstr {
        abs_instr(*self)
    }
}

/// Addition on the wrapped-around 32-bit integers: what arithmetic on a
/// pair of values yields, or the error that arises instead.
pub open spec fn arith_result(op: OpCode, a: AbsValue, b: AbsValue) -> Result<AbsValue, Error> {
    match (a, b) {
        (AbsValue::Int(x), AbsValue::Int(y)) => {
            let xi = x as i32;
            let yi = y as i32;
            match op {
                OpCode::Add => Ok(AbsValue::Int(vstd::wrapping::i32_specs::wrapping_add(xi, yi) as int)),
                OpCode::Sub => Ok(AbsValue::Int(vstd::wrapping::i32_specs::wrapping_sub(xi, yi) as int)),
                OpCode::Mul => Ok(AbsValue::Int(vstd::wrapping::i32_specs::wrapping_mul(xi, yi) as int)),
                OpCode::Div => if yi == 0 {
                    Err(Error::RuntimeArithmeticError)
                } else {
                    Ok(AbsValue::Int(wrap_div_i32(xi as int, yi as int)))
                },
                _ => Err(Error::RuntimeTypeError),
            }
        },
        _ => Err(Error::RuntimeTypeError),
    }
}

/// Rust's truncating division, defined over the magnitudes.
pub open spec fn trunc_div_i32(a: int, b: int) -> int {
    let ma = if a < 0 {
        -a
    } else {
        a
    };
    let mb = if b < 0 {
        -b
    } else {
        b
    };
    let q = ma / mb;
    if (a < 0) != (b < 0) {
        -q
    } else {
        q
    }
}

/// Truncating division that wraps on the one overflowing dividend.
pub open spec fn wrap_div_i32(a: int, b: int) -> int {
    if a == i32::MIN && b == -1 {
        i32::MIN as int
    } else {
        trunc_div_i32(a, b)
    }
}

impl Value {
    /// The display text of this value; integers render in decimal.
    pub fn get_str(&self) -> (r: String)
        ensures
            r@ == render_value(self@),
    {
        match self {
            Value::Int(i) => dec_string_i32(*i),
            Value::Str(s) => s.clone(),
            Value::Ins(ins) => opcode_string(ins.opcode),
        }
    }

    /// The integer behind this value: strings read as 0, embedded
    /// instructions as -1.
    pub fn get_int(&self) -> (r: i32)
        ensures
            r as int == match self@ {
                AbsValue::Int(x) => x,
                AbsValue::Str(_) => 0int,
                AbsValue::Ins(_) => -1int,
            },
    {
        match self {
            Value::Int(a) => *a,
            Value::Str(_) => 0,
            Value::Ins(_) => -1,
        }
    }

    /// Wrapping sum of two integer values; anything else is a type error.
    pub fn add(&self, other: &Value) -> (r: Result<Value, Error>)
        ensures
            match r {
                Ok(v) => arith_result(OpCode::Add, self@, other@) == Ok::<AbsValue, Error>(v@),
                Err(e) => arith_result(OpCode::Add, self@, other@) == Err::<AbsValue, Error>(e),
            },
    {
        match (self, other) {
            (Value::Int(x), Value::Int(y)) => Ok(Value::Int(x.wrapping_add(*y))),
            _ => Err(Error::RuntimeTypeError),
        }
    }

    /// Wrapping difference of two integer values.
    pub fn sub(&self, other: &Value) -> (r: Result<Value, Error>)
        ensures
            match r {
                Ok(v) => arith_result(OpCode::Sub, self@, other@) == Ok::<AbsValue, Error>(v@),
                Err(e) => arith_result(OpCode::Sub, self@, other@) == Err::<AbsValue, Error>(e),
            },
    {
        match (self, other) {
            (Value::Int(x), Value::Int(y)) => Ok(Value::Int(x.wrapping_sub(*y))),
            _ => Err(Error::RuntimeTypeError),
        }
    }

    /// Wrapping product of two integer values.
    pub fn mul(&self, other: &Value) -> (r: Result<Value, Error>)
        ensures
            match r {
                Ok(v) => arith_result(OpCode::Mul, self@, other@) == Ok::<AbsValue, Error>(v@),
                Err(e) => arith_result(OpCode::Mul, self@, other@) == Err::<AbsValue, Error>(e),
            },
    {
        match (self, other) {
            (Value::Int(x), Value::Int(y)) => Ok(Value::Int(x.wrapping_mul(*y))),
            _ => Err(Error::RuntimeTypeError),
        }
    }

    /// Truncating quotient of two integer values; division by zero is an
    /// arithmetic error, and the one overflowing quotient wraps.
    pub fn div(&self, other: &Value) -> (r: Result<Value, Error>)
        ensures
            match r {
                Ok(v) => arith_result(OpCode::Div, self@, other@) == Ok::<AbsValue, Error>(v@),
                Err(e) => arith_result(OpCode::Div, self@, other@) == Err::<AbsValue, Error>(e),
            },
    {
        match (self, other) {
            (Value::Int(x), Value::Int(y)) => {
                let a: i32 = *x;
                let b: i32 = *y;
                if b == 0 {
                    Err(Error::RuntimeArithmeticError)
                } else if a == i32::MIN && b == -1 {
                    Ok(Value::Int(i32::MIN))
                } else {
                    let ma: u32 = if a < 0 {
                        (-(a as i64)) as u32
                    } else {
                        a as u32
                    };
                    let mb: u32 = if b < 0 {
                        (-(b as i64)) as u32
                    } else {
                        b as u32
                    };
                    let q: u32 = ma / mb;
                    proof {
                        vstd::arithmetic::div_mod::lemma_div_nonincreasing(ma as int, mb as int);
                    }
                    if (a < 0) != (b < 0) {
                        Ok(Value::Int((-(q as i64)) as i32))
                    } else {
                        proof {
                            if a == i32::MIN {
                                vstd::arithmetic::div_mod::lemma_div_is_ordered_by_denominator(
                                    ma as int,
                                    2,
                                    mb as int,
                                );
                            }
                        }
                        Ok(Value::Int(q as i32))
                    }
                }
            },
            _ => Err(Error::RuntimeTypeError),
        }
    }
}

/// A structural copy of a value, with the same model.
pub fn clone_value(v: &Value) -> (r: Value)
    ensures
        r@ == v@,
    decreases v,
{
    match v {
        Value::Int(i) => Value::Int(*i),
        Value::Str(s) => Value::Str(s.clone()),
        Value::Ins(b) => Value::Ins(Box::new(clone_instr(b))),
    }
}

/// A structural copy of an instruction.
pub fn clone_instr(ins: &Instruction) -> (r: Instruction)
    ensures
        r@ == ins@,
    decreases ins,
{
    let mut values: Vec<Value> = Vec::new();
    let n: usize = ins.values.len();
    let mut j: usize = 0;
    while j < n
        invariant
            j <= n,
            n == ins.values@.len(),
            values@.len() == j,
            forall|k: int| 0 <= k < j ==> abs_value(#[trigger] values@[k]) == abs_value(ins.values@[k]),
        decreases n - j,
    {
        let c = clone_value(&ins.values[j]);
        values.push(c);
        j = j + 1;
    }
    proof {
        lemma_abs_values_index(values@);
        lemma_abs_values_index(ins.values@);
        assert forall|k: int| 0 <= k < abs_values(values@).len() implies abs_values(values@)[k]
            == abs_values(ins.values@)[k] by {
            assert(abs_values(values@)[k] == abs_value(values@[k]));
            assert(abs_values(ins.values@)[k] == abs_value(ins.values@[k]));
        }
        assert(abs_values(values@) =~= abs_values(ins.values@));
    }
    Instruction { opcode: ins.opcode, values }
}

/// A structural copy of a vector of values.
pub fn clone_values(vs: &Vec<Value>) -> (r: Vec<Value>)
    ensures
        abs_values(r@) == abs_values(vs@),
{
    let mut out: Vec<Value> = Vec::new();
    let n: usize = vs.len();
    let mut j: usize = 0;
    while j < n
        invariant
            j <= n,
            n == vs@.len(),
            out@.len() == j,
            forall|k: int| 0 <= k < j ==> abs_value(#[trigger] out@[k]) == abs_value(vs@[k]),
        decreases n - j,
    {
        let c = clone_value(&vs[j]);
        out.push(c);
        j = j + 1;
    }
    proof {
        lemma_abs_values_index(out@);
        lemma_abs_values_index(vs@);
        assert forall|k: int| 0 <= k < abs_values(out@).len() implies abs_values(out@)[k]
            == abs_values(vs@)[k] by {
            assert(abs_values(out@)[k] == abs_value(out@[k]));
            assert(abs_values(vs@)[k] == abs_value(vs@[k]));
        }
        assert(abs_values(out@) =~= abs_values(vs@));
    }
    out
}

/// A structural copy of a vector of instructions.
pub fn clone_instrs(ins: &Vec<Instruction>) -> (r: Vec<Instruction>)
    ensures
        abs_instrs(r@) == abs_instrs(ins@),
{
    let mut out: Vec<Instruction> = Vec::new();
    let n: usize = ins.len();
    let mut j: usize = 0;
    while j < n
        invariant
            j <= n,
            n == ins@.len(),
            out@.len() == j,
            forall|k: int| 0 <= k < j ==> abs_instr(#[trigger] out@[k]) == abs_instr(ins@[k]),
        decreases n - j,
    {
        let c = clone_instr(&ins[j]);
        out.push(c);
        j = j + 1;
    }
    proof {
        lemma_abs_instrs_index(out@);
        lemma_abs_instrs_index(ins@);
        assert forall|k: int| 0 <= k < abs_instrs(out@).len() implies abs_instrs(out@)[k]
            == abs_instrs(ins@)[k] by {
            assert(abs_instrs(out@)[k] == abs_instr(out@[k]));
            assert(abs_instrs(ins@)[k] == abs_instr(ins@[k]));
        }
        assert(abs_instrs(out@) =~= abs_instrs(ins@));
    }
    out
}

} // verus!
