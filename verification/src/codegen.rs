//! The code generator: a token sequence becomes a bytecode instruction
//! sequence in one forward pass. A `:` token opens a declaration; the
//! next plain name becomes the word being defined; every instruction
//! compiled while the definition is open is stored into the word's
//! operand list instead of the program; `;` closes it. A compiled line
//! that does not end by printing the stack prints its top value.

use vstd::prelude::*;
use vstd::string::StrSliceExecFns;
use crate::lexer::{abs_token, abs_tokens, AbsToken, Token};
use crate::num::{parse_i32, parse_i32_chars};
use crate::value::{abs_instr, abs_instrs, abs_values, abs_value, AbsInstr, AbsValue, Error, Instruction, OpCode, TokenId, Value};

verus! {

/// An instruction with no operands.
pub open spec fn instr0(op: OpCode) -> AbsInstr {
    AbsInstr { op, args: Seq::empty() }
}

/// Compiling one instruction: appended to the program, or, while a
/// definition is open, wrapped as a value and stored into the operand
/// list of the most recently opened definition.
pub open spec fn emit(acc: Seq<AbsInstr>, defining: bool, ins: AbsInstr) -> Option<Seq<AbsInstr>> {
    if defining {
        if acc.len() == 0 {
            None
        } else {
            let last = acc.last();
            Some(
                acc.update(
                    acc.len() - 1,
                    AbsInstr { op: last.op, args: last.args.push(AbsValue::Ins(Box::new(ins))) },
                ),
            )
        }
    } else {
        Some(acc.push(ins))
    }
}

/// The opcode a reserved built-in word name denotes, if any.
pub open spec fn builtin_op(t: Seq<char>) -> Option<OpCode> {
    if t == "DUP"@ {
        Some(OpCode::Dup)
    } else if t == "DROP"@ {
        Some(OpCode::Drop)
    } else if t == "SWAP"@ {
        Some(OpCode::Swap)
    } else if t == "OVER"@ {
        Some(OpCode::Over)
    } else if t == "PRINT"@ {
        Some(OpCode::PrintStack)
    } else if t == "POP"@ {
        Some(OpCode::Pop)
    } else if t == "EXIT"@ {
        Some(OpCode::Exit)
    } else {
        None
    }
}

/// Unless the compiled line is empty or already ends by printing the
/// whole stack, it ends by printing the top of the stack.
pub open spec fn post_pass(acc: Seq<AbsInstr>) -> Seq<AbsInstr> {
    if acc.len() > 0 && acc.last().op != OpCode::PrintStack {
        acc.push(instr0(OpCode::PrintTop))
    } else {
        acc
    }
}

/// What compiling the tokens from position `i` onward yields, given the
/// program so far and the two mode flags; `None` on malformed
/// word-definition nesting or an unparsable digit token.
pub open spec fn cg(
    tokens: Seq<AbsToken>,
    i: int,
    acc: Seq<AbsInstr>,
    declaring: bool,
    defining: bool,
) -> Option<Seq<AbsInstr>>
    decreases tokens.len() - i,
{
    if i < 0 || i >= tokens.len() {
        if declaring || defining {
            None
        } else {
            Some(post_pass(acc))
        }
    } else {
        let t = tokens[i];
        match t.id {
            TokenId::Plus => match emit(acc, defining, instr0(OpCode::Add)) {
                None => None,
                Some(acc2) => cg(tokens, i + 1, acc2, declaring, defining),
            },
            TokenId::Minus => match emit(acc, defining, instr0(OpCode::Sub)) {
                None => None,
                Some(acc2) => cg(tokens, i + 1, acc2, declaring, defining),
            },
            TokenId::Star => match emit(acc, defining, instr0(OpCode::Mul)) {
                None => None,
                Some(acc2) => cg(tokens, i + 1, acc2, declaring, defining),
            },
            TokenId::Slash => match emit(acc, defining, instr0(OpCode::Div)) {
                None => None,
                Some(acc2) => cg(tokens, i + 1, acc2, declaring, defining),
            },
            TokenId::Colon => if declaring || defining {
                None
            } else {
                cg(tokens, i + 1, acc, true, defining)
            },
            TokenId::Semicolon => if !defining {
                None
            } else {
                cg(tokens, i + 1, acc.push(instr0(OpCode::EndDefine)), declaring, false)
            },
            TokenId::Digit => match t.text {
                None => None,
                Some(txt) => match parse_i32(txt) {
                    None => None,
                    Some(v) => match emit(
                        acc,
                        defining,
                        AbsInstr { op: OpCode::Push, args: seq![AbsValue::Int(v)] },
                    ) {
                        None => None,
                        Some(acc2) => cg(tokens, i + 1, acc2, declaring, defining),
                    },
                },
            },
            TokenId::Text => match t.text {
                None => cg(tokens, i + 1, acc, declaring, defining),
                Some(txt) => match builtin_op(txt) {
                    Some(op) => match emit(acc, defining, instr0(op)) {
                        None => None,
                        Some(acc2) => cg(tokens, i + 1, acc2, declaring, defining),
                    },
                    None => if declaring {
                        cg(
                            tokens,
                            i + 1,
                            acc.push(
                                AbsInstr { op: OpCode::BeginDefine, args: seq![AbsValue::Str(txt)] },
                            ),
                            false,
                            true,
                        )
                    } else {
                        match emit(
                            acc,
                            defining,
                            AbsInstr { op: OpCode::Push, args: seq![AbsValue::Str(txt)] },
                        ) {
                            None => None,
                            Some(acc2) => cg(tokens, i + 1, acc2, declaring, defining),
                        }
                    },
                },
            },
        }
    }
}

/// What compiling a whole token sequence yields.
pub open spec fn compile_spec(tokens: Seq<AbsToken>) -> Option<Seq<AbsInstr>> {
    cg(tokens, 0, Seq::empty(), false, false)
}

/// Do two strings hold the same characters?
pub fn str_eq(a: &str, b: &str) -> (r: bool)
    ensures
        r == (a@ == b@),
{
    let na: usize = a.unicode_len();
    let nb: usize = b.unicode_len();
    if na != nb {
        return false;
    }
    let mut i: usize = 0;
    while i < na
        invariant
            i <= na,
            na == a@.len(),
            na == b@.len(),
            forall|k: int| 0 <= k < i ==> a@[k] == b@[k],
        decreases na - i,
    {
        if a.get_char(i) != b.get_char(i) {
            return false;
        }
        i = i + 1;
    }
    proof {
        assert(a@ =~= b@);
    }
    true
}

/// The opcode a reserved built-in word name denotes, executably.
pub fn builtin_of(s: &String) -> (r: Option<OpCode>)
    ensures
        r == builtin_op(s@),
{
    if str_eq(s.as_str(), "DUP") {
        Some(OpCode::Dup)
    } else if str_eq(s.as_str(), "DROP") {
        Some(OpCode::Drop)
    } else if str_eq(s.as_str(), "SWAP") {
        Some(OpCode::Swap)
    } else if str_eq(s.as_str(), "OVER") {
        Some(OpCode::Over)
    } else if str_eq(s.as_str(), "PRINT") {
        Some(OpCode::PrintStack)
    } else if str_eq(s.as_str(), "POP") {
        Some(OpCode::Pop)
    } else if str_eq(s.as_str(), "EXIT") {
        Some(OpCode::Exit)
    } else {
        None
    }
}

/// Compiles one instruction into the program, or into the open
/// definition's operand list while one is open.
fn emit_instr(acc: &mut Vec<Instruction>, defining: bool, ins: Instruction) -> (r: Result<
    (),
    Error,
>)
    ensures
        match r {
            Ok(_) => emit(abs_instrs(old(acc)@), defining, ins@) == Some(abs_instrs(final(acc)@)),
            Err(e) => emit(abs_instrs(old(acc)@), defining, ins@) is None && e
                == Error::CompileError && final(acc)@ == old(acc)@,
        },
{
    if defining {
        let ghost acc0 = acc@;
        if acc.len() == 0 {
            proof {
                crate::value::lemma_abs_instrs_index(acc@);
            }
            return Err(Error::CompileError);
        }
        let mut last: Instruction = match acc.pop() {
            Some(l) => l,
            None => {
                return Err(Error::CompileError);
            },
        };
        let ghost last0 = last;
        last.values.push(Value::Ins(Box::new(ins)));
        proof {
            assert(last.values@.drop_last() =~= last0.values@);
            assert(last.values@.last() == Value::Ins(Box::new(ins)));
            assert(abs_value(Value::Ins(Box::new(ins))) == AbsValue::Ins(Box::new(abs_instr(ins))));
            assert(abs_values(last.values@) == abs_values(last.values@.drop_last()).push(
                abs_value(last.values@.last()),
            ));
            assert(abs_values(last.values@) == abs_values(last0.values@).push(
                AbsValue::Ins(Box::new(ins@)),
            ));
        }
        acc.push(last);
        proof {
            crate::value::lemma_abs_instrs_index(acc0);
            crate::value::lemma_abs_instrs_index(acc@);
            let target = emit(abs_instrs(acc0), true, ins@).unwrap();
            assert forall|k: int| 0 <= k < abs_instrs(acc@).len() implies abs_instrs(acc@)[k]
                == target[k] by {
                assert(abs_instrs(acc@)[k] == abs_instr(acc@[k]));
                if k < acc0.len() - 1 {
                    assert(acc@[k] == acc0[k]);
                }
            }
            assert(abs_instrs(acc@) =~= target);
        }
        Ok(())
    } else {
        let ghost acc0 = acc@;
        acc.push(ins);
        proof {
            assert(acc@.drop_last() =~= acc0);
            assert(abs_instrs(acc@) == abs_instrs(acc0).push(abs_instr(acc@.last())));
        }
        Ok(())
    }
}

/// Compiles a token sequence into a bytecode program, or reports the
/// compile error on malformed definition nesting or an unparsable
/// digit token.
pub fn compile_tokens(tokens: &Vec<Token>) -> (r: Result<Vec<Instruction>, Error>)
    ensures
        match r {
            Ok(instrs) => compile_spec(abs_tokens(tokens@)) == Some(abs_instrs(instrs@)),
            Err(e) => compile_spec(abs_tokens(tokens@)) is None && e == Error::CompileError,
        },
{
    let ghost toks = abs_tokens(tokens@);
    let n: usize = tokens.len();
    let mut acc: Vec<Instruction> = Vec::new();
    let mut declaring: bool = false;
    let mut defining: bool = false;
    let mut i: usize = 0;
    proof {
        assert(abs_instrs(acc@) =~= Seq::<AbsInstr>::empty());
    }
    while i < n
        invariant
            i <= n,
            n == tokens@.len(),
            toks == abs_tokens(tokens@),
            toks.len() == n,
            forall|k: int| 0 <= k < n ==> toks[k] == abs_token(#[trigger] tokens@[k]),
            cg(toks, i as int, abs_instrs(acc@), declaring, defining) == compile_spec(toks),
        decreases n - i,
    {
        let ghost acc_before = abs_instrs(acc@);
        let tok: &Token = &tokens[i];
        proof {
            assert(toks[i as int] == abs_token(tokens@[i as int]));
        }
        match tok.id {
            TokenId::Plus => {
                let ins = Instruction { opcode: OpCode::Add, values: Vec::new() };
                proof {
                    assert(abs_values(ins.values@) =~= Seq::<AbsValue>::empty());
                    assert(ins@ == instr0(OpCode::Add));
                }
                let e = emit_instr(&mut acc, defining, ins);
                if e.is_err() {
                    return Err(Error::CompileError);
                }
            },
            TokenId::Minus => {
                let ins = Instruction { opcode: OpCode::Sub, values: Vec::new() };
                proof {
                    assert(abs_values(ins.values@) =~= Seq::<AbsValue>::empty());
                    assert(ins@ == instr0(OpCode::Sub));
                }
                let e = emit_instr(&mut acc, defining, ins);
                if e.is_err() {
                    return Err(Error::CompileError);
                }
            },
            TokenId::Star => {
                let ins = Instruction { opcode: OpCode::Mul, values: Vec::new() };
                proof {
                    assert(abs_values(ins.values@) =~= Seq::<AbsValue>::empty());
                    assert(ins@ == instr0(OpCode::Mul));
                }
                let e = emit_instr(&mut acc, defining, ins);
                if e.is_err() {
                    return Err(Error::CompileError);
                }
            },
            TokenId::Slash => {
                let ins = Instruction { opcode: OpCode::Div, values: Vec::new() };
                proof {
                    assert(abs_values(ins.values@) =~= Seq::<AbsValue>::empty());
                    assert(ins@ == instr0(OpCode::Div));
                }
                let e = emit_instr(&mut acc, defining, ins);
                if e.is_err() {
                    return Err(Error::CompileError);
                }
            },
            TokenId::Colon => {
                if declaring || defining {
                    return Err(Error::CompileError);
                }
                declaring = true;
            },
            TokenId::Semicolon => {
                if !defining {
                    return Err(Error::CompileError);
                }
                let ghost acc0 = acc@;
                acc.push(Instruction { opcode: OpCode::EndDefine, values: Vec::new() });
                defining = false;
                proof {
                    assert(acc@.drop_last() =~= acc0);
                    assert(abs_values(Seq::<Value>::empty()) =~= Seq::<AbsValue>::empty());
                    assert(abs_instrs(acc@) == abs_instrs(acc0).push(instr0(OpCode::EndDefine)));
                }
            },
            TokenId::Digit => {
                match &tok.itself {
                    None => {
                        return Err(Error::CompileError);
                    },
                    Some(txt) => {
                        let cs = crate::lexer::to_chars(txt.as_str());
                        match parse_i32_chars(&cs) {
                            None => {
                                return Err(Error::CompileError);
                            },
                            Some(v) => {
                                let ins = Instruction { opcode: OpCode::Push, values: vec![Value::Int(v)] };
                                proof {
                                    assert(ins.values@.drop_last() =~= Seq::<Value>::empty());
                                    assert(abs_values(ins.values@) =~= seq![AbsValue::Int(v as int)]);
                                    assert(ins@ == AbsInstr { op: OpCode::Push, args: seq![AbsValue::Int(v as int)] });
                                }
                                let e = emit_instr(&mut acc, defining, ins);
                                if e.is_err() {
                                    return Err(Error::CompileError);
                                }
                            },
                        }
                    },
                }
            },
            TokenId::Text => {
                match &tok.itself {
                    None => {
                    },
                    Some(txt) => {
                        match builtin_of(txt) {
                            Some(op) => {
                                let ins = Instruction { opcode: op, values: Vec::new() };
                                proof {
                                    assert(abs_values(ins.values@) =~= Seq::<AbsValue>::empty());
                                    assert(ins@ == instr0(op));
                                }
                                let e = emit_instr(&mut acc, defining, ins);
                                if e.is_err() {
                                    return Err(Error::CompileError);
                                }
                            },
                            None => {
                                if declaring {
                                    let ghost acc0 = acc@;
                                    let name = txt.clone();
                                    acc.push(
                                        Instruction {
                                            opcode: OpCode::BeginDefine,
                                            values: vec![Value::Str(name)],
                                        },
                                    );
                                    declaring = false;
                                    defining = true;
                                    proof {
                                        assert(acc@.drop_last() =~= acc0);
                                        assert(acc@.last().values@.drop_last() =~= Seq::<Value>::empty());
                                        assert(abs_values(acc@.last().values@) =~= seq![AbsValue::Str(txt@)]);
                                        assert(abs_instrs(acc@) == abs_instrs(acc0).push(
                                            AbsInstr {
                                                op: OpCode::BeginDefine,
                                                args: seq![AbsValue::Str(txt@)],
                                            },
                                        ));
                                    }
                                } else {
                                    let lit = txt.clone();
                                    let ins = Instruction { opcode: OpCode::Push, values: vec![Value::Str(lit)] };
                                    proof {
                                        assert(ins.values@.drop_last() =~= Seq::<Value>::empty());
                                        assert(abs_values(ins.values@) =~= seq![AbsValue::Str(txt@)]);
                                        assert(ins@ == AbsInstr { op: OpCode::Push, args: seq![AbsValue::Str(txt@)] });
                                    }
                                    let e = emit_instr(&mut acc, defining, ins);
                                    if e.is_err() {
                                        return Err(Error::CompileError);
                                    }
                                }
                            },
                        }
                    },
                }
            },
        }
        i = i + 1;
    }
    if declaring || defining {
        return Err(Error::CompileError);
    }
    let m: usize = acc.len();
    if m > 0 {
        let is_print: bool = match acc[m - 1].opcode {
            OpCode::PrintStack => true,
            _ => false,
        };
        proof {
            crate::value::lemma_abs_instrs_index(acc@);
        }
        if !is_print {
            let ghost acc0 = acc@;
            acc.push(Instruction { opcode: OpCode::PrintTop, values: Vec::new() });
            proof {
                assert(acc@.drop_last() =~= acc0);
                assert(abs_values(Seq::<Value>::empty()) =~= Seq::<AbsValue>::empty());
                assert(abs_instrs(acc@) == abs_instrs(acc0).push(instr0(OpCode::PrintTop)));
            }
        }
    }
    Ok(acc)
}

} // verus!
