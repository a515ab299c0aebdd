//! The virtual machine: an operand stack, a table of user-defined
//! words, and the output it has printed. It executes one compiled
//! instruction sequence at a time; a word reference pushed by `Push`
//! runs that word's stored body against the same stack and table.

use vstd::prelude::*;
use vstd::string::StringExecFns;
use crate::codegen::{compile_spec, compile_tokens, str_eq};
use crate::lexer::{abs_tokens, tokenize_spec, tokenize_line, Token};
use crate::value::{
    abs_instr, abs_instrs, abs_value, abs_values, arith_result, clone_instr, clone_instrs,
    clone_value, clone_values, lemma_abs_instrs_index, lemma_abs_values_index, render_items,
    render_stack, render_value, AbsInstr, AbsValue, Error, Instruction, OpCode, Value,
};

verus! {

/// How deep word invocations may nest before the machine reports a
/// recursion-limit error instead of running on forever.
pub const MAX_DEPTH: u32 = 64;

/// A user-defined word: its name and its stored instruction sequence.
#[derive(Debug)]
pub struct CustomCommand {
    pub name: String,
    pub instructions: Vec<Instruction>,
}

/// The mathematical model of a user-defined word.
pub struct AbsWord {
    pub name: Seq<char>,
    pub body: Seq<AbsInstr>,
}

/// The model of a word table entry.
pub open spec fn abs_word(c: CustomCommand) -> AbsWord {
    AbsWord { name: c.name@, body: abs_instrs(c.instructions@) }
}

/// The models of a word table.
pub open spec fn abs_words(s: Seq<CustomCommand>) -> Seq<AbsWord> {
    s.map_values(|c: CustomCommand| abs_word(c))
}

/// The character sequences behind printed output lines.
pub open spec fn strings_view(s: Seq<String>) -> Seq<Seq<char>> {
    s.map_values(|x: String| x@)
}

/// The model of the whole machine: stack, word table, output so far.
pub struct AbsState {
    pub stack: Seq<AbsValue>,
    pub words: Seq<AbsWord>,
    pub output: Seq<Seq<char>>,
}

/// The machine. The instruction pointer is bookkeeping for the
/// currently running sequence; it carries no state between lines.
#[derive(Debug)]
pub struct VirtualMachine {
    stack: Vec<Value>,
    custom_commands: Vec<CustomCommand>,
    ip: usize,
    output: Vec<String>,
}

impl View for VirtualMachine {
    type V = AbsState;

    closed spec fn view(&self) -> AbsState {
        AbsState {
            stack: abs_values(self.stack@),
            words: abs_words(self.custom_commands@),
            output: strings_view(self.output@),
        }
    }
}

/// The stored body of the word `name`: the last registered entry with
/// that name wins, so redefinitions shadow older entries.
pub open spec fn lookup_word(words: Seq<AbsWord>, name: Seq<char>) -> Option<Seq<AbsInstr>>
    decreases words.len(),
{
    if words.len() == 0 {
        None
    } else if words.last().name == name {
        Some(words.last().body)
    } else {
        lookup_word(words.drop_last(), name)
    }
}

/// The nested instructions behind a define instruction's body operands;
/// `None` when some operand is not a nested instruction.
pub open spec fn body_of_args(args: Seq<AbsValue>) -> Option<Seq<AbsInstr>>
    decreases args.len(),
{
    if args.len() == 0 {
        Some(Seq::empty())
    } else {
        match body_of_args(args.drop_last()) {
            None => None,
            Some(bs) => match args.last() {
                AbsValue::Ins(b) => Some(bs.push(*b)),
                _ => None,
            },
        }
    }
}

/// A malformed operand anywhere spoils the whole body.
pub proof fn lemma_body_of_args_none(s: Seq<AbsValue>, m: int)
    requires
        0 <= m <= s.len(),
        body_of_args(s.take(m)) is None,
    ensures
        body_of_args(s) is None,
    decreases s.len() - m,
{
    if m < s.len() {
        assert(s.take(m + 1).drop_last() =~= s.take(m));
        lemma_body_of_args_none(s, m + 1);
    } else {
        assert(s.take(m) =~= s);
    }
}

/// Appending one more wrapped instruction extends the body.
pub proof fn lemma_body_of_args_push(s: Seq<AbsValue>, b: AbsInstr)
    ensures
        body_of_args(s.push(AbsValue::Ins(Box::new(b)))) == match body_of_args(s) {
            Some(bs) => Some(bs.push(b)),
            None => None::<Seq<AbsInstr>>,
        },
{
    assert(s.push(AbsValue::Ins(Box::new(b))).drop_last() =~= s);
}

/// How one run ends: the final state and the exit flag, or the state
/// at the failure and its kind.
pub enum RunOut {
    Fin(AbsState, bool),
    Fail(AbsState, Error),
}

/// Sequencing: the rest of the run, with an exit request already seen
/// carried through.
pub open spec fn proceed(exit1: bool, rest: RunOut) -> RunOut {
    match rest {
        RunOut::Fin(st2, e2) => RunOut::Fin(st2, exit1 || e2),
        RunOut::Fail(st2, k) => RunOut::Fail(st2, k),
    }
}

/// What executing `instrs` from position `i` does to the machine, with
/// `depth` nested word invocations allowed. Each opcode that needs
/// operands fails with a stack underflow unless the stack holds them;
/// arithmetic demands two integers; `Push` of a string that names a
/// word runs that word's body against the same state; a define
/// instruction registers a new word table entry; printing appends to
/// the output; `Exit` only raises the exit flag.
pub open spec fn interp_from(st: AbsState, instrs: Seq<AbsInstr>, i: int, depth: nat) -> RunOut
    decreases depth, instrs.len() - i,
{
    if i < 0 || i >= instrs.len() {
        RunOut::Fin(st, false)
    } else {
        let ins = instrs[i];
        match ins.op {
            OpCode::Add | OpCode::Sub | OpCode::Mul | OpCode::Div => {
                if st.stack.len() < 2 {
                    RunOut::Fail(st, Error::RuntimeStackUnderflow)
                } else {
                    let b = st.stack.last();
                    let a = st.stack[st.stack.len() - 2];
                    match arith_result(ins.op, a, b) {
                        Err(e) => RunOut::Fail(st, e),
                        Ok(v) => proceed(
                            false,
                            interp_from(
                                AbsState {
                                    stack: st.stack.drop_last().drop_last().push(v),
                                    ..st
                                },
                                instrs,
                                i + 1,
                                depth,
                            ),
                        ),
                    }
                }
            },
            OpCode::Dup => {
                if st.stack.len() < 1 {
                    RunOut::Fail(st, Error::RuntimeStackUnderflow)
                } else {
                    proceed(
                        false,
                        interp_from(
                            AbsState { stack: st.stack.push(st.stack.last()), ..st },
                            instrs,
                            i + 1,
                            depth,
                        ),
                    )
                }
            },
            OpCode::Drop | OpCode::Pop => {
                if st.stack.len() < 1 {
                    RunOut::Fail(st, Error::RuntimeStackUnderflow)
                } else {
                    proceed(
                        false,
                        interp_from(
                            AbsState { stack: st.stack.drop_last(), ..st },
                            instrs,
                            i + 1,
                            depth,
                        ),
                    )
                }
            },
            OpCode::Swap => {
                if st.stack.len() < 2 {
                    RunOut::Fail(st, Error::RuntimeStackUnderflow)
                } else {
                    let b = st.stack.last();
                    let a = st.stack[st.stack.len() - 2];
                    proceed(
                        false,
                        interp_from(
                            AbsState {
                                stack: st.stack.drop_last().drop_last().push(b).push(a),
                                ..st
                            },
                            instrs,
                            i + 1,
                            depth,
                        ),
                    )
                }
            },
            OpCode::Over => {
                if st.stack.len() < 2 {
                    RunOut::Fail(st, Error::RuntimeStackUnderflow)
                } else {
                    proceed(
                        false,
                        interp_from(
                            AbsState { stack: st.stack.push(st.stack[st.stack.len() - 2]), ..st },
                            instrs,
                            i + 1,
                            depth,
                        ),
                    )
                }
            },
            OpCode::Push => {
                if ins.args.len() != 1 {
                    RunOut::Fail(st, Error::RuntimeTypeError)
                } else {
                    match ins.args[0] {
                        AbsValue::Str(name) => match lookup_word(st.words, name) {
                            Some(body) => {
                                if depth == 0 {
                                    RunOut::Fail(st, Error::RuntimeRecursionLimit)
                                } else {
                                    match interp_from(st, body, 0, (depth - 1) as nat) {
                                        RunOut::Fail(st2, k) => RunOut::Fail(st2, k),
                                        RunOut::Fin(st2, e1) => proceed(
                                            e1,
                                            interp_from(st2, instrs, i + 1, depth),
                                        ),
                                    }
                                }
                            },
                            None => proceed(
                                false,
                                interp_from(
                                    AbsState { stack: st.stack.push(ins.args[0]), ..st },
                                    instrs,
                                    i + 1,
                                    depth,
                                ),
                            ),
                        },
                        _ => proceed(
                            false,
                            interp_from(
                                AbsState { stack: st.stack.push(ins.args[0]), ..st },
                                instrs,
                                i + 1,
                                depth,
                            ),
                        ),
                    }
                }
            },
            OpCode::BeginDefine => {
                if ins.args.len() < 1 {
                    RunOut::Fail(st, Error::RuntimeTypeError)
                } else {
                    match ins.args[0] {
                        AbsValue::Str(name) => match body_of_args(ins.args.skip(1)) {
                            None => RunOut::Fail(st, Error::RuntimeTypeError),
                            Some(body) => proceed(
                                false,
                                interp_from(
                                    AbsState {
                                        words: st.words.push(AbsWord { name, body }),
                                        ..st
                                    },
                                    instrs,
                                    i + 1,
                                    depth,
                                ),
                            ),
                        },
                        _ => RunOut::Fail(st, Error::RuntimeTypeError),
                    }
                }
            },
            OpCode::EndDefine => proceed(false, interp_from(st, instrs, i + 1, depth)),
            OpCode::PrintStack => {
                let line = if st.stack.len() == 0 {
                    "nil"@
                } else {
                    render_stack(st.stack)
                };
                proceed(
                    false,
                    interp_from(
                        AbsState { output: st.output.push(line), ..st },
                        instrs,
                        i + 1,
                        depth,
                    ),
                )
            },
            OpCode::PrintTop => {
                let line = if st.stack.len() == 0 {
                    "nil"@
                } else {
                    render_value(st.stack.last())
                };
                proceed(
                    false,
                    interp_from(
                        AbsState { output: st.output.push(line), ..st },
                        instrs,
                        i + 1,
                        depth,
                    ),
                )
            },
            OpCode::Exit => proceed(true, interp_from(st, instrs, i + 1, depth)),
        }
    }
}

/// What one whole line does to the machine: tokenize, compile, run. On
/// a failure anywhere the stack and the word table are as they were
/// before the line, and only output printed before a run-time failure
/// is kept.
pub open spec fn execute_spec(st: AbsState, line: Seq<char>, depth: nat) -> (AbsState, Result<
    bool,
    Error,
>) {
    match tokenize_spec(line) {
        None => (st, Err(Error::LexicalError)),
        Some(toks) => match compile_spec(toks) {
            None => (st, Err(Error::CompileError)),
            Some(prog) => match interp_from(st, prog, 0, depth) {
                RunOut::Fin(st2, ex) => (st2, Ok(ex)),
                RunOut::Fail(st2, kind) => (
                    AbsState { stack: st.stack, words: st.words, output: st2.output },
                    Err(kind),
                ),
            },
        },
    }
}

/// The running state of the execution loop: whatever the rest of the
/// sequence yields, combined with what has already happened, is the
/// whole run.
pub open spec fn run_inv(
    start: AbsState,
    prog: Seq<AbsInstr>,
    depth: nat,
    st: AbsState,
    i: int,
    exit: bool,
) -> bool {
    match interp_from(st, prog, i, depth) {
        RunOut::Fin(st2, e2) => interp_from(start, prog, 0, depth) == RunOut::Fin(st2, exit || e2),
        RunOut::Fail(st2, k) => interp_from(start, prog, 0, depth) == RunOut::Fail(st2, k),
    }
}

/// Taking the step the interpreter prescribes keeps the loop state.
pub proof fn lemma_run_step(
    start: AbsState,
    prog: Seq<AbsInstr>,
    depth: nat,
    st: AbsState,
    i: int,
    exit: bool,
    e1: bool,
    st_next: AbsState,
)
    requires
        run_inv(start, prog, depth, st, i, exit),
        interp_from(st, prog, i, depth) == proceed(e1, interp_from(st_next, prog, i + 1, depth)),
    ensures
        run_inv(start, prog, depth, st_next, i + 1, exit || e1),
{
    match interp_from(st_next, prog, i + 1, depth) {
        RunOut::Fin(st2, e2) => {
            assert(interp_from(st, prog, i, depth) == RunOut::Fin(st2, e1 || e2));
            assert(exit || (e1 || e2) == ((exit || e1) || e2));
        },
        RunOut::Fail(st2, k) => {
        },
    }
}

/// Arithmetic dispatch over the four arithmetic opcodes.
fn apply_arith(op: OpCode, a: &Value, b: &Value) -> (r: Result<Value, Error>)
    ensures
        match r {
            Ok(v) => arith_result(op, a@, b@) == Ok::<AbsValue, Error>(v@),
            Err(e) => arith_result(op, a@, b@) == Err::<AbsValue, Error>(e),
        },
{
    match op {
        OpCode::Add => a.add(b),
        OpCode::Sub => a.sub(b),
        OpCode::Mul => a.mul(b),
        OpCode::Div => a.div(b),
        _ => Err(Error::RuntimeTypeError),
    }
}

/// The display text of a whole stack, bracketed, bottom first.
pub fn render_stack_string(stack: &Vec<Value>) -> (r: String)
    ensures
        r@ == render_stack(abs_values(stack@)),
{
    let ghost av = abs_values(stack@);
    let mut out: String = String::from_str("[");
    let n: usize = stack.len();
    let mut i: usize = 0;
    proof {
        lemma_abs_values_index(stack@);
        assert(av.take(0) =~= Seq::<AbsValue>::empty());
        assert(out@ + render_items(av.take(0)) =~= "["@);
    }
    while i < n
        invariant
            i <= n,
            n == stack@.len(),
            av == abs_values(stack@),
            av.len() == n,
            forall|k: int| 0 <= k < n ==> av[k] == abs_value(#[trigger] stack@[k]),
            out@ == "["@ + render_items(av.take(i as int)),
        decreases n - i,
    {
        if i > 0 {
            out.append(", ");
        }
        let s = stack[i].get_str();
        out.append(s.as_str());
        proof {
            assert(av.take(i + 1).drop_last() =~= av.take(i as int));
            assert(av.take(i + 1).last() == av[i as int]);
            if i == 0 {
                assert(render_items(av.take(1)) == render_value(av[0]));
                assert("["@ + Seq::<char>::empty() + render_value(av[0]) =~= "["@ + render_value(
                    av[0],
                ));
                assert(out@ =~= "["@ + render_items(av.take(1)));
            } else {
                assert(render_items(av.take(i + 1)) == render_items(av.take(i as int)) + ", "@
                    + render_value(av[i as int]));
                assert(("["@ + render_items(av.take(i as int))) + ", "@ + render_value(av[i as int])
                    =~= "["@ + (render_items(av.take(i as int)) + ", "@ + render_value(
                    av[i as int],
                )));
                assert(out@ =~= "["@ + render_items(av.take(i + 1)));
            }
        }
        i = i + 1;
    }
    out.append("]");
    proof {
        assert(av.take(n as int) =~= av);
        assert(("["@ + render_items(av)) + "]"@ =~= render_stack(av));
    }
    out
}

/// A structural copy of a word table.
fn clone_commands(cs: &Vec<CustomCommand>) -> (r: Vec<CustomCommand>)
    ensures
        abs_words(r@) == abs_words(cs@),
{
    let mut out: Vec<CustomCommand> = Vec::new();
    let n: usize = cs.len();
    let mut j: usize = 0;
    while j < n
        invariant
            j <= n,
            n == cs@.len(),
            out@.len() == j,
            forall|k: int| 0 <= k < j ==> abs_word(#[trigger] out@[k]) == abs_word(cs@[k]),
        decreases n - j,
    {
        let c: &CustomCommand = &cs[j];
        out.push(CustomCommand { name: c.name.clone(), instructions: clone_instrs(&c.instructions) });
        j = j + 1;
    }
    proof {
        assert forall|k: int| 0 <= k < abs_words(out@).len() implies abs_words(out@)[k]
            == abs_words(cs@)[k] by {
            assert(abs_words(out@)[k] == abs_word(out@[k]));
            assert(abs_words(cs@)[k] == abs_word(cs@[k]));
        }
        assert(abs_words(out@) =~= abs_words(cs@));
    }
    out
}

/// The name and the nested-instruction body behind a define
/// instruction's operands; the type error when the name operand is not
/// a string or some body operand is not a nested instruction.
fn build_body(values: &Vec<Value>) -> (r: Result<(String, Vec<Instruction>), Error>)
    requires
        values@.len() >= 1,
    ensures
        match r {
            Ok(p) => abs_values(values@)[0] == AbsValue::Str(p.0@) && body_of_args(
                abs_values(values@).skip(1),
            ) == Some(abs_instrs(p.1@)),
            Err(e) => e == Error::RuntimeTypeError && (!(abs_values(values@)[0] is Str)
                || body_of_args(abs_values(values@).skip(1)) is None),
        },
{
    let ghost args = abs_values(values@);
    proof {
        lemma_abs_values_index(values@);
    }
    let vn: usize = values.len();
    let name: String = match &values[0] {
        Value::Str(s) => s.clone(),
        _ => {
            return Err(Error::RuntimeTypeError);
        },
    };
    let mut body: Vec<Instruction> = Vec::new();
    let mut k: usize = 1;
    proof {
        assert(args.skip(1).take(0) =~= Seq::<AbsValue>::empty());
        assert(abs_instrs(body@) =~= Seq::<AbsInstr>::empty());
    }
    while k < vn
        invariant
            1 <= k <= vn,
            vn == values@.len(),
            args == abs_values(values@),
            args.len() == vn,
            forall|m: int| 0 <= m < vn ==> args[m] == abs_value(#[trigger] values@[m]),
            body_of_args(args.skip(1).take(k - 1)) == Some(abs_instrs(body@)),
        decreases vn - k,
    {
        match &values[k] {
            Value::Ins(b) => {
                let ci = clone_instr(&**b);
                let ghost body0 = body@;
                body.push(ci);
                proof {
                    crate::value::lemma_abs_instrs_push(body0, body@.last());
                    assert(args[k as int] == AbsValue::Ins(
                        Box::new(abs_instr(*(values@[k as int]->Ins_0))),
                    ));
                    assert(args.skip(1).take(k as int) =~= args.skip(1).take(k - 1).push(
                        args[k as int],
                    ));
                    lemma_body_of_args_push(args.skip(1).take(k - 1), abs_instr(ci));
                }
            },
            _ => {
                proof {
                    assert(args.skip(1).take(k as int) =~= args.skip(1).take(k - 1).push(
                        args[k as int],
                    ));
                    assert(args.skip(1).take(k as int).drop_last() =~= args.skip(1).take(k - 1));
                    assert(body_of_args(args.skip(1).take(k as int)) is None);
                    lemma_body_of_args_none(args.skip(1), k as int);
                }
                return Err(Error::RuntimeTypeError);
            },
        }
        k = k + 1;
    }
    proof {
        assert(args.skip(1).take(vn - 1) =~= args.skip(1));
    }
    Ok((name, body))
}

impl VirtualMachine {
    /// A machine with an empty stack, no words, and no output.
    pub fn new() -> (r: Self)
        ensures
            r@ == (AbsState {
                stack: Seq::<AbsValue>::empty(),
                words: Seq::<AbsWord>::empty(),
                output: Seq::<Seq<char>>::empty(),
            }),
    {
        let r = Self { stack: Vec::new(), custom_commands: Vec::new(), ip: 0, output: Vec::new() };
        proof {
            assert(abs_values(r.stack@) =~= Seq::<AbsValue>::empty());
            assert(abs_words(r.custom_commands@) =~= Seq::<AbsWord>::empty());
            assert(strings_view(r.output@) =~= Seq::<Seq<char>>::empty());
        }
        r
    }

    /// The operand stack, bottom first.
    pub fn stack(&self) -> (r: &Vec<Value>)
        ensures
            abs_values(r@) == self@.stack,
    {
        &self.stack
    }

    /// The lines printed so far, oldest first.
    pub fn output(&self) -> (r: &Vec<String>)
        ensures
            strings_view(r@) == self@.output,
    {
        &self.output
    }

    /// Forgets the lines printed so far; stack and words stay.
    pub fn clear_output(&mut self)
        ensures
            final(self)@ == (AbsState { output: Seq::<Seq<char>>::empty(), ..old(self)@ }),
    {
        self.output = Vec::new();
        proof {
            assert(strings_view(self.output@) =~= Seq::<Seq<char>>::empty());
        }
    }

    /// Turns one line of input into tokens; the lexical error on an
    /// unterminated quoted string.
    pub fn parse(&self, command: &str) -> (r: Result<Vec<Token>, Error>)
        ensures
            match r {
                Ok(ts) => tokenize_spec(command@) == Some(abs_tokens(ts@)),
                Err(e) => tokenize_spec(command@) is None && e == Error::LexicalError,
            },
    {
        tokenize_line(command)
    }

    /// Compiles tokens into a bytecode program; the compile error on
    /// malformed definition nesting or an unparsable digit token.
    pub fn codegen(&self, tokens: &Vec<Token>) -> (r: Result<Vec<Instruction>, Error>)
        ensures
            match r {
                Ok(instrs) => compile_spec(abs_tokens(tokens@)) == Some(abs_instrs(instrs@)),
                Err(e) => compile_spec(abs_tokens(tokens@)) is None && e == Error::CompileError,
            },
    {
        compile_tokens(tokens)
    }

    /// The stored body of the most recent word named `name`, if any.
    fn lookup_body(&self, name: &String) -> (r: Option<Vec<Instruction>>)
        ensures
            match r {
                Some(b) => lookup_word(self@.words, name@) == Some(abs_instrs(b@)),
                None => lookup_word(self@.words, name@) is None,
            },
    {
        let ghost words = abs_words(self.custom_commands@);
        let mut idx: usize = self.custom_commands.len();
        proof {
            assert(words.take(idx as int) =~= words);
        }
        while idx > 0
            invariant
                idx <= self.custom_commands@.len(),
                words == abs_words(self.custom_commands@),
                words.len() == self.custom_commands@.len(),
                forall|k: int| 0 <= k < words.len() ==> words[k] == abs_word(
                    #[trigger] self.custom_commands@[k],
                ),
                lookup_word(words, name@) == lookup_word(words.take(idx as int), name@),
            decreases idx,
        {
            let cmd: &CustomCommand = &self.custom_commands[idx - 1];
            proof {
                assert(words.take(idx as int).last() == abs_word(
                    self.custom_commands@[idx - 1],
                ));
            }
            if str_eq(cmd.name.as_str(), name.as_str()) {
                return Some(clone_instrs(&cmd.instructions));
            }
            proof {
                assert(words.take(idx as int).drop_last() =~= words.take(idx - 1));
            }
            idx = idx - 1;
        }
        proof {
            assert(words.take(0) =~= Seq::<AbsWord>::empty());
        }
        None
    }

    /// Runs the instructions from the start, `depth` nested word
    /// invocations allowed, exactly as `interp_from` prescribes.
    fn run_seq(&mut self, instrs: &Vec<Instruction>, depth: u32) -> (r: Result<bool, Error>)
        ensures
            match interp_from(old(self)@, abs_instrs(instrs@), 0, depth as nat) {
                RunOut::Fin(st, ex) => r == Ok::<bool, Error>(ex) && final(self)@ == st,
                RunOut::Fail(st, k) => r == Err::<bool, Error>(k) && final(self)@ == st,
            },
        decreases depth,
    {
        let ghost start = self@;
        let ghost prog = abs_instrs(instrs@);
        proof {
            lemma_abs_instrs_index(instrs@);
        }
        let n: usize = instrs.len();
        let mut i: usize = 0;
        let mut exit: bool = false;
        while i < n
            invariant
                i <= n,
                n == instrs@.len(),
                start == old(self)@,
                prog == abs_instrs(instrs@),
                prog.len() == n,
                forall|k: int| 0 <= k < n ==> prog[k] == abs_instr(#[trigger] instrs@[k]),
                run_inv(start, prog, depth as nat, self@, i as int, exit),
            decreases n - i,
        {
            self.ip = i;
            let ghost st0 = self@;
            let ins: &Instruction = &instrs[i];
            proof {
                assert(prog[i as int] == ins@);
                lemma_abs_values_index(self.stack@);
                lemma_abs_values_index(ins.values@);
            }
            match ins.opcode {
                OpCode::Add | OpCode::Sub | OpCode::Mul | OpCode::Div => {
                    let sl: usize = self.stack.len();
                    if sl < 2 {
                        return Err(Error::RuntimeStackUnderflow);
                    }
                    let res = apply_arith(ins.opcode, &self.stack[sl - 2], &self.stack[sl - 1]);
                    proof {
                        assert(abs_value(self.stack@[sl - 2]) == st0.stack[st0.stack.len() - 2]);
                        assert(abs_value(self.stack@[sl - 1]) == st0.stack.last());
                    }
                    match res {
                        Err(e) => {
                            return Err(e);
                        },
                        Ok(v) => {
                            let ghost va = abs_value(v);
                            let ghost s0 = self.stack@;
                            let _ = self.stack.pop();
                            let _ = self.stack.pop();
                            self.stack.push(v);
                            proof {
                                crate::value::lemma_abs_values_drop(s0);
                                crate::value::lemma_abs_values_drop(s0.drop_last());
                                crate::value::lemma_abs_values_push(
                                    s0.drop_last().drop_last(),
                                    self.stack@.last(),
                                );
                                assert(abs_values(self.stack@) == st0.stack.drop_last().drop_last()
                                    .push(va));
                                assert(self@ == (AbsState {
                                    stack: st0.stack.drop_last().drop_last().push(va),
                                    ..st0
                                }));
                                lemma_run_step(
                                    start,
                                    prog,
                                    depth as nat,
                                    st0,
                                    i as int,
                                    exit,
                                    false,
                                    self@,
                                );
                            }
                        },
                    }
                },
                OpCode::Dup => {
                    let sl: usize = self.stack.len();
                    if sl < 1 {
                        return Err(Error::RuntimeStackUnderflow);
                    }
                    let top = clone_value(&self.stack[sl - 1]);
                    proof {
                        crate::value::lemma_abs_values_push(self.stack@, top);
                        assert(abs_value(self.stack@[sl - 1]) == st0.stack.last());
                    }
                    self.stack.push(top);
                    proof {
                        assert(self@ == (AbsState { stack: st0.stack.push(st0.stack.last()), ..st0 }));
                        lemma_run_step(start, prog, depth as nat, st0, i as int, exit, false, self@);
                    }
                },
                OpCode::Drop | OpCode::Pop => {
                    let sl: usize = self.stack.len();
                    if sl < 1 {
                        return Err(Error::RuntimeStackUnderflow);
                    }
                    proof {
                        crate::value::lemma_abs_values_drop(self.stack@);
                    }
                    let _ = self.stack.pop();
                    proof {
                        assert(self@ == (AbsState { stack: st0.stack.drop_last(), ..st0 }));
                        lemma_run_step(start, prog, depth as nat, st0, i as int, exit, false, self@);
                    }
                },
                OpCode::Swap => {
                    let sl: usize = self.stack.len();
                    if sl < 2 {
                        return Err(Error::RuntimeStackUnderflow);
                    }
                    let ghost s0 = self.stack@;
                    let b = self.stack.pop().unwrap();
                    let a = self.stack.pop().unwrap();
                    proof {
                        crate::value::lemma_abs_values_drop(s0);
                        crate::value::lemma_abs_values_drop(s0.drop_last());
                        assert(abs_value(b) == st0.stack.last());
                        assert(abs_value(a) == abs_value(s0[sl - 2]));
                        assert(abs_value(a) == st0.stack[st0.stack.len() - 2]);
                    }
                    let ghost bv = abs_value(b);
                    let ghost av2 = abs_value(a);
                    self.stack.push(b);
                    proof {
                        crate::value::lemma_abs_values_push(s0.drop_last().drop_last(), self.stack@.last());
                    }
                    let ghost s1 = self.stack@;
                    self.stack.push(a);
                    proof {
                        crate::value::lemma_abs_values_push(s1, self.stack@.last());
                        assert(self@ == (AbsState {
                            stack: st0.stack.drop_last().drop_last().push(bv).push(av2),
                            ..st0
                        }));
                        lemma_run_step(start, prog, depth as nat, st0, i as int, exit, false, self@);
                    }
                },
                OpCode::Over => {
                    let sl: usize = self.stack.len();
                    if sl < 2 {
                        return Err(Error::RuntimeStackUnderflow);
                    }
                    let v = clone_value(&self.stack[sl - 2]);
                    proof {
                        crate::value::lemma_abs_values_push(self.stack@, v);
                        assert(abs_value(self.stack@[sl - 2]) == st0.stack[st0.stack.len() - 2]);
                    }
                    self.stack.push(v);
                    proof {
                        assert(self@ == (AbsState {
                            stack: st0.stack.push(st0.stack[st0.stack.len() - 2]),
                            ..st0
                        }));
                        lemma_run_step(start, prog, depth as nat, st0, i as int, exit, false, self@);
                    }
                },
                OpCode::Push => {
                    if ins.values.len() != 1 {
                        return Err(Error::RuntimeTypeError);
                    }
                    let val = clone_value(&ins.values[0]);
                    proof {
                        assert(abs_value(val) == ins@.args[0]);
                    }
                    let body_opt: Option<Vec<Instruction>> = match &val {
                        Value::Str(nm) => self.lookup_body(nm),
                        _ => None,
                    };
                    match body_opt {
                        Some(body) => {
                            if depth == 0 {
                                return Err(Error::RuntimeRecursionLimit);
                            }
                            match self.run_seq(&body, depth - 1) {
                                Err(e) => {
                                    return Err(e);
                                },
                                Ok(e1) => {
                                    proof {
                                        lemma_run_step(
                                            start,
                                            prog,
                                            depth as nat,
                                            st0,
                                            i as int,
                                            exit,
                                            e1,
                                            self@,
                                        );
                                    }
                                    exit = exit || e1;
                                },
                            }
                        },
                        None => {
                            let ghost s0 = self.stack@;
                            proof {
                                crate::value::lemma_abs_values_push(s0, val);
                            }
                            self.stack.push(val);
                            proof {
                                assert(self@ == (AbsState {
                                    stack: st0.stack.push(ins@.args[0]),
                                    ..st0
                                }));
                                lemma_run_step(start, prog, depth as nat, st0, i as int, exit, false, self@);
                            }
                        },
                    }
                },
                OpCode::BeginDefine => {
                    let vn: usize = ins.values.len();
                    if vn < 1 {
                        return Err(Error::RuntimeTypeError);
                    }
                    let ghost args = ins@.args;
                    match build_body(&ins.values) {
                        Err(_) => {
                            return Err(Error::RuntimeTypeError);
                        },
                        Ok((name, body)) => {
                            let ghost namev = name@;
                            let ghost cc0 = self.custom_commands@;
                            self.custom_commands.push(CustomCommand { name, instructions: body });
                            proof {
                                assert forall|m: int| 0 <= m < abs_words(self.custom_commands@).len()
                                    implies abs_words(self.custom_commands@)[m] == abs_words(
                                    cc0,
                                ).push(abs_word(self.custom_commands@.last()))[m] by {
                                    assert(abs_words(self.custom_commands@)[m] == abs_word(
                                        self.custom_commands@[m],
                                    ));
                                    if m < cc0.len() {
                                        assert(abs_words(cc0)[m] == abs_word(cc0[m]));
                                    }
                                }
                                assert(abs_words(self.custom_commands@) =~= abs_words(cc0).push(
                                    abs_word(self.custom_commands@.last()),
                                ));
                                assert(self@ == (AbsState {
                                    words: st0.words.push(
                                        AbsWord {
                                            name: namev,
                                            body: body_of_args(args.skip(1)).unwrap(),
                                        },
                                    ),
                                    ..st0
                                }));
                                lemma_run_step(
                                    start,
                                    prog,
                                    depth as nat,
                                    st0,
                                    i as int,
                                    exit,
                                    false,
                                    self@,
                                );
                            }
                        },
                    }
                },
                OpCode::EndDefine => {
                    proof {
                        lemma_run_step(start, prog, depth as nat, st0, i as int, exit, false, self@);
                    }
                },
                OpCode::PrintStack => {
                    let line: String = if self.stack.len() == 0 {
                        "nil".to_owned()
                    } else {
                        render_stack_string(&self.stack)
                    };
                    let ghost linev = line@;
                    let ghost o0 = self.output@;
                    self.output.push(line);
                    proof {
                        assert forall|m: int| 0 <= m < strings_view(self.output@).len()
                            implies strings_view(self.output@)[m] == strings_view(o0).push(linev)[m]
                        by {
                            assert(strings_view(self.output@)[m] == self.output@[m]@);
                            if m < o0.len() {
                                assert(strings_view(o0)[m] == o0[m]@);
                            }
                        }
                        assert(strings_view(self.output@) =~= strings_view(o0).push(linev));
                        assert(self@ == (AbsState { output: st0.output.push(linev), ..st0 }));
                        lemma_run_step(start, prog, depth as nat, st0, i as int, exit, false, self@);
                    }
                },
                OpCode::PrintTop => {
                    let sl: usize = self.stack.len();
                    let line: String = if sl == 0 {
                        "nil".to_owned()
                    } else {
                        self.stack[sl - 1].get_str()
                    };
                    proof {
                        if sl > 0 {
                            assert(abs_value(self.stack@[sl - 1]) == st0.stack.last());
                        }
                    }
                    let ghost linev = line@;
                    let ghost o0 = self.output@;
                    self.output.push(line);
                    proof {
                        assert forall|m: int| 0 <= m < strings_view(self.output@).len()
                            implies strings_view(self.output@)[m] == strings_view(o0).push(linev)[m]
                        by {
                            assert(strings_view(self.output@)[m] == self.output@[m]@);
                            if m < o0.len() {
                                assert(strings_view(o0)[m] == o0[m]@);
                            }
                        }
                        assert(strings_view(self.output@) =~= strings_view(o0).push(linev));
                        assert(self@ == (AbsState { output: st0.output.push(linev), ..st0 }));
                        lemma_run_step(start, prog, depth as nat, st0, i as int, exit, false, self@);
                    }
                },
                OpCode::Exit => {
                    proof {
                        lemma_run_step(start, prog, depth as nat, st0, i as int, exit, true, self@);
                    }
                    exit = true;
                },
            }
            i = i + 1;
        }
        Ok(exit)
    }

    /// Runs a compiled instruction sequence to completion; the result
    /// says whether an exit was requested. On a failure the machine is
    /// left exactly where the failing instruction stopped.
    pub fn run(&mut self, instructions: &Vec<Instruction>) -> (r: Result<bool, Error>)
        ensures
            match interp_from(old(self)@, abs_instrs(instructions@), 0, MAX_DEPTH as nat) {
                RunOut::Fin(st, ex) => r == Ok::<bool, Error>(ex) && final(self)@ == st,
                RunOut::Fail(st, k) => r == Err::<bool, Error>(k) && final(self)@ == st,
            },
    {
        self.ip = 0;
        self.run_seq(instructions, MAX_DEPTH)
    }

    /// One whole line: tokenize, compile, run. `Ok(true)` asks the
    /// caller to end the session. On any error the line reports it,
    /// the stack and the word table keep their state from before the
    /// line, and output printed before a run-time failure is kept.
    pub fn execute(&mut self, command: &str) -> (r: Result<bool, Error>)
        ensures
            ({
                let (st2, res) = execute_spec(old(self)@, command@, MAX_DEPTH as nat);
                final(self)@ == st2 && r == res
            }),
    {
        self.ip = 0;
        let tokens = match self.parse(command) {
            Ok(t) => t,
            Err(e) => {
                return Err(e);
            },
        };
        let instrs = match self.codegen(&tokens) {
            Ok(p) => p,
            Err(e) => {
                return Err(e);
            },
        };
        let snap_stack = clone_values(&self.stack);
        let snap_words = clone_commands(&self.custom_commands);
        match self.run_seq(&instrs, MAX_DEPTH) {
            Ok(ex) => Ok(ex),
            Err(e) => {
                self.stack = snap_stack;
                self.custom_commands = snap_words;
                Err(e)
            },
        }
    }
}

} // verus!
