//! Laws of the interpreter, stated over the machine's model and proved
//! once and for all.

use vstd::prelude::*;
use crate::codegen::{cg, compile_spec, emit, instr0, post_pass};
use crate::lexer::{
    classify, cons_tok, is_ws, lemma_wlen_scan, lex_from, split_from, starts_quote, ends_quote,
    tokenize_spec, AbsToken,
};
use crate::num::{
    all_digits, dec_int, dec_nat, is_digit, lemma_dec_nat_props, lemma_dec_roundtrip,
    parse_dec, parse_i32,
};
use crate::value::{arith_result, render_value, trunc_div_i32, AbsInstr, AbsValue, Error, OpCode, TokenId};
use crate::vm::{execute_spec, interp_from, lookup_word, proceed, AbsState, AbsWord, RunOut, MAX_DEPTH};

verus! {

/// Determinism: what a run does is a function of the machine's stack,
/// word table and output alone, with no hidden state. Two machines in
/// equal states running equal instruction sequences end equal; the
/// same holds for whole input lines.
pub proof fn lemma_run_deterministic(
    st1: AbsState,
    st2: AbsState,
    instrs: Seq<AbsInstr>,
    depth: nat,
    line: Seq<char>,
)
    requires
        st1 == st2,
    ensures
        interp_from(st1, instrs, 0, depth) == interp_from(st2, instrs, 0, depth),
        execute_spec(st1, line, depth) == execute_spec(st2, line, depth),
{
}

/// Splitting a line made of three space-separated words finds exactly
/// those words.
proof fn lemma_split_three(s: Seq<char>, w1: Seq<char>, w2: Seq<char>, w3: Seq<char>)
    requires
        s == w1 + seq![' '] + w2 + seq![' '] + w3,
        w1.len() >= 1,
        w2.len() >= 1,
        w3.len() >= 1,
        forall|k: int| 0 <= k < w1.len() ==> !is_ws(#[trigger] w1[k]),
        forall|k: int| 0 <= k < w2.len() ==> !is_ws(#[trigger] w2[k]),
        forall|k: int| 0 <= k < w3.len() ==> !is_ws(#[trigger] w3[k]),
    ensures
        split_from(s, 0) == seq![w1, w2, w3],
{
    let l1 = w1.len() as int;
    let l2 = w2.len() as int;
    let l3 = w3.len() as int;
    let n = s.len() as int;
    assert(n == l1 + 1 + l2 + 1 + l3);
    assert forall|k: int| 0 <= k < l1 implies s[k] == w1[k] && !is_ws(#[trigger] s[k]) by {
        assert(s[k] == w1[k]);
    }
    assert(s[l1] == ' ');
    assert forall|k: int| l1 + 1 <= k < l1 + 1 + l2 implies s[k] == w2[k - l1 - 1] && !is_ws(
        #[trigger] s[k],
    ) by {
        assert(s[k] == w2[k - l1 - 1]);
    }
    assert(s[l1 + 1 + l2] == ' ');
    assert forall|k: int| l1 + l2 + 2 <= k < n implies s[k] == w3[k - l1 - l2 - 2] && !is_ws(
        #[trigger] s[k],
    ) by {
        assert(s[k] == w3[k - l1 - l2 - 2]);
    }
    lemma_wlen_scan(s, 0, l1);
    assert(split_from(s, 0) == seq![s.subrange(0, l1)] + split_from(s, l1));
    assert(s.subrange(0, l1) =~= w1);
    assert(split_from(s, l1) == split_from(s, l1 + 1));
    lemma_wlen_scan(s, l1 + 1, l1 + 1 + l2);
    assert(split_from(s, l1 + 1) == seq![s.subrange(l1 + 1, l1 + 1 + l2)] + split_from(
        s,
        l1 + 1 + l2,
    ));
    assert(s.subrange(l1 + 1, l1 + 1 + l2) =~= w2);
    assert(split_from(s, l1 + 1 + l2) == split_from(s, l1 + l2 + 2));
    lemma_wlen_scan(s, l1 + l2 + 2, n);
    assert(split_from(s, l1 + l2 + 2) == seq![s.subrange(l1 + l2 + 2, n)] + split_from(s, n));
    assert(s.subrange(l1 + l2 + 2, n) =~= w3);
    assert(split_from(s, n) =~= Seq::<Seq<char>>::empty());
    assert(seq![w1] + (seq![w2] + (seq![w3] + Seq::<Seq<char>>::empty())) =~= seq![w1, w2, w3]);
}

/// Lexing three plain words (no quotes at either end) classifies each
/// in order.
proof fn lemma_lex_three(w1: Seq<char>, w2: Seq<char>, w3: Seq<char>)
    requires
        !starts_quote(w1) && !ends_quote(w1),
        !starts_quote(w2) && !ends_quote(w2),
        !starts_quote(w3) && !ends_quote(w3),
    ensures
        lex_from(seq![w1, w2, w3], 0) == Some(seq![classify(w1), classify(w2), classify(w3)]),
{
    let ws = seq![w1, w2, w3];
    assert(lex_from(ws, 3) == Some(Seq::<AbsToken>::empty()));
    assert(lex_from(ws, 2) == cons_tok(classify(w3), lex_from(ws, 3)));
    assert(lex_from(ws, 1) == cons_tok(classify(w2), lex_from(ws, 2)));
    assert(lex_from(ws, 0) == cons_tok(classify(w1), lex_from(ws, 1)));
    assert(seq![classify(w1)] + (seq![classify(w2)] + (seq![classify(w3)]
        + Seq::<AbsToken>::empty())) =~= seq![classify(w1), classify(w2), classify(w3)]);
}

/// The decimal text of an integer is one plain word and classifies as
/// a digit token.
proof fn lemma_classify_dec(v: i32)
    ensures
        classify(dec_int(v as int)) == (AbsToken {
            id: TokenId::Digit,
            text: Some(dec_int(v as int)),
        }),
        dec_int(v as int).len() >= 1,
        !starts_quote(dec_int(v as int)),
        !ends_quote(dec_int(v as int)),
        forall|k: int| 0 <= k < dec_int(v as int).len() ==> !is_ws(#[trigger] dec_int(v as int)[k]),
{
    lemma_dec_roundtrip(v);
    let s = dec_int(v as int);
    if v >= 0 {
        lemma_dec_nat_props(v as nat);
        assert forall|k: int| 0 <= k < s.len() implies !is_ws(#[trigger] s[k]) by {
            assert(is_digit(s[k]));
        }
        assert(is_digit(s[0]));
        assert(is_digit(s[s.len() - 1]));
    } else {
        lemma_dec_nat_props((-(v as int)) as nat);
        let d = dec_nat((-(v as int)) as nat);
        assert forall|k: int| 0 <= k < s.len() implies !is_ws(#[trigger] s[k]) by {
            if k > 0 {
                assert(s[k] == d[k - 1]);
                assert(is_digit(s[k]));
            }
        }
        assert(s[s.len() - 1] == d[d.len() - 1]);
        assert(is_digit(s[s.len() - 1]));
    }
}

/// Which token each of the four arithmetic symbols becomes.
proof fn lemma_classify_sym(sym: char)
    requires
        sym == '+' || sym == '-' || sym == '*' || sym == '/',
    ensures
        classify(seq![sym]) == (AbsToken {
            id: if sym == '+' {
                TokenId::Plus
            } else if sym == '-' {
                TokenId::Minus
            } else if sym == '*' {
                TokenId::Star
            } else {
                TokenId::Slash
            },
            text: None,
        }),
        !starts_quote(seq![sym]),
        !ends_quote(seq![sym]),
        !is_ws(sym),
{
    let w = seq![sym];
    if sym == '+' || sym == '-' {
        assert(w.skip(1) =~= Seq::<char>::empty());
        assert(parse_dec(w) is None);
    } else {
        assert(!is_digit(w[0]));
        assert(!all_digits(w));
        assert(parse_dec(w) is None);
    }
    if sym == '-' {
        assert(w != seq!['+']) by {
            assert(w[0] != '+');
        }
    }
    if sym == '*' {
        assert(w != seq!['+']) by {
            assert(w[0] != '+');
        }
        assert(w != seq!['-']) by {
            assert(w[0] != '-');
        }
    }
    if sym == '/' {
        assert(w != seq!['+']) by {
            assert(w[0] != '+');
        }
        assert(w != seq!['-']) by {
            assert(w[0] != '-');
        }
        assert(w != seq!['*']) by {
            assert(w[0] != '*');
        }
    }
}

/// The line `a b <sym>`: both integers in decimal, separated by single
/// spaces from the operator symbol.
pub open spec fn arith_line(a: i32, b: i32, sym: char) -> Seq<char> {
    dec_int(a as int) + seq![' '] + dec_int(b as int) + seq![' '] + seq![sym]
}

/// The opcode behind an arithmetic symbol.
pub open spec fn sym_op(sym: char) -> OpCode {
    if sym == '+' {
        OpCode::Add
    } else if sym == '-' {
        OpCode::Sub
    } else if sym == '*' {
        OpCode::Mul
    } else {
        OpCode::Div
    }
}

/// The mathematical result of one arithmetic opcode.
pub open spec fn arith_val(op: OpCode, a: int, b: int) -> int {
    match op {
        OpCode::Add => a + b,
        OpCode::Sub => a - b,
        OpCode::Mul => a * b,
        OpCode::Div => trunc_div_i32(a, b),
        _ => 0,
    }
}

/// Cropping to 32 bits does nothing to a value already in range.
proof fn lemma_signed_crop_id(p: int)
    requires
        i32::MIN <= p <= i32::MAX,
    ensures
        vstd::wrapping::i32_specs::signed_crop(p) == p,
{
    let m: int = 0x1_0000_0000;
    if p >= 0 {
        vstd::arithmetic::div_mod::lemma_small_mod(p as nat, m as nat);
    } else {
        vstd::arithmetic::div_mod::lemma_mod_multiples_vanish(1, p, m);
        assert(m * 1 + p == p + m);
        vstd::arithmetic::div_mod::lemma_small_mod((p + m) as nat, m as nat);
        assert(p % m == p + m);
    }
}

/// Compiling the three tokens `a b <op>` yields push, push, the
/// opcode, and the implicit print of the top of the stack.
proof fn lemma_compile_arith(da: Seq<char>, db: Seq<char>, id: TokenId, op: OpCode, a: i32, b: i32)
    requires
        parse_i32(da) == Some(a as int),
        parse_i32(db) == Some(b as int),
        (id == TokenId::Plus && op == OpCode::Add) || (id == TokenId::Minus && op == OpCode::Sub)
            || (id == TokenId::Star && op == OpCode::Mul) || (id == TokenId::Slash && op
            == OpCode::Div),
    ensures
        compile_spec(
            seq![
                AbsToken { id: TokenId::Digit, text: Some(da) },
                AbsToken { id: TokenId::Digit, text: Some(db) },
                AbsToken { id, text: None },
            ],
        ) == Some(
            seq![
                AbsInstr { op: OpCode::Push, args: seq![AbsValue::Int(a as int)] },
                AbsInstr { op: OpCode::Push, args: seq![AbsValue::Int(b as int)] },
                instr0(op),
                instr0(OpCode::PrintTop),
            ],
        ),
{
    let toks = seq![
        AbsToken { id: TokenId::Digit, text: Some(da) },
        AbsToken { id: TokenId::Digit, text: Some(db) },
        AbsToken { id, text: None },
    ];
    let p1 = AbsInstr { op: OpCode::Push, args: seq![AbsValue::Int(a as int)] };
    let p2 = AbsInstr { op: OpCode::Push, args: seq![AbsValue::Int(b as int)] };
    let e0 = Seq::<AbsInstr>::empty();
    assert(emit(e0, false, p1) == Some(e0.push(p1)));
    assert(e0.push(p1) =~= seq![p1]);
    assert(cg(toks, 0, e0, false, false) == cg(toks, 1, seq![p1], false, false));
    assert(emit(seq![p1], false, p2) == Some(seq![p1].push(p2)));
    assert(seq![p1].push(p2) =~= seq![p1, p2]);
    assert(cg(toks, 1, seq![p1], false, false) == cg(toks, 2, seq![p1, p2], false, false));
    assert(emit(seq![p1, p2], false, instr0(op)) == Some(seq![p1, p2].push(instr0(op))));
    assert(seq![p1, p2].push(instr0(op)) =~= seq![p1, p2, instr0(op)]);
    assert(cg(toks, 2, seq![p1, p2], false, false) == cg(toks, 3, seq![p1, p2, instr0(op)], false, false));
    assert(cg(toks, 3, seq![p1, p2, instr0(op)], false, false) == Some(
        post_pass(seq![p1, p2, instr0(op)]),
    ));
    assert(seq![p1, p2, instr0(op)].last() == instr0(op));
    assert(post_pass(seq![p1, p2, instr0(op)]) == seq![p1, p2, instr0(op)].push(
        instr0(OpCode::PrintTop),
    ));
    assert(seq![p1, p2, instr0(op)].push(instr0(OpCode::PrintTop)) =~= seq![
        p1,
        p2,
        instr0(op),
        instr0(OpCode::PrintTop),
    ]);
}

/// Running push, push, one arithmetic opcode, print-top: the expected
/// value lands on the stack and is printed, and nothing else changes.
proof fn lemma_run_arith(st: AbsState, a: i32, b: i32, op: OpCode, depth: nat)
    requires
        op == OpCode::Add || op == OpCode::Sub || op == OpCode::Mul || op == OpCode::Div,
        op == OpCode::Add ==> i32::MIN <= a + b <= i32::MAX,
        op == OpCode::Sub ==> i32::MIN <= a - b <= i32::MAX,
        op == OpCode::Mul ==> i32::MIN <= a * b <= i32::MAX,
        op == OpCode::Div ==> b != 0 && !(a == i32::MIN && b == -1),
    ensures
        ({
            let val = arith_val(op, a as int, b as int);
            interp_from(
                st,
                seq![
                    AbsInstr { op: OpCode::Push, args: seq![AbsValue::Int(a as int)] },
                    AbsInstr { op: OpCode::Push, args: seq![AbsValue::Int(b as int)] },
                    instr0(op),
                    instr0(OpCode::PrintTop),
                ],
                0,
                depth,
            ) == RunOut::Fin(
                AbsState {
                    stack: st.stack.push(AbsValue::Int(val)),
                    words: st.words,
                    output: st.output.push(dec_int(val)),
                },
                false,
            )
        }),
{
    let val = arith_val(op, a as int, b as int);
    let prog = seq![
        AbsInstr { op: OpCode::Push, args: seq![AbsValue::Int(a as int)] },
        AbsInstr { op: OpCode::Push, args: seq![AbsValue::Int(b as int)] },
        instr0(op),
        instr0(OpCode::PrintTop),
    ];
    let st1 = AbsState { stack: st.stack.push(AbsValue::Int(a as int)), ..st };
    let st2 = AbsState { stack: st1.stack.push(AbsValue::Int(b as int)), ..st1 };
    assert(interp_from(st, prog, 0, depth) == proceed(false, interp_from(st1, prog, 1, depth)));
    assert(interp_from(st1, prog, 1, depth) == proceed(false, interp_from(st2, prog, 2, depth)));
    assert(st2.stack.len() == st.stack.len() + 2);
    assert(st2.stack.last() == AbsValue::Int(b as int));
    assert(st2.stack[st2.stack.len() - 2] == AbsValue::Int(a as int));
    if op == OpCode::Mul {
        lemma_signed_crop_id(a as int * b as int);
    }
    assert(arith_result(op, AbsValue::Int(a as int), AbsValue::Int(b as int)) == Ok::<
        AbsValue,
        Error,
    >(AbsValue::Int(val)));
    let st3 = AbsState {
        stack: st2.stack.drop_last().drop_last().push(AbsValue::Int(val)),
        ..st2
    };
    assert(interp_from(st2, prog, 2, depth) == proceed(false, interp_from(st3, prog, 3, depth)));
    assert(st2.stack.drop_last() =~= st1.stack);
    assert(st1.stack.drop_last() =~= st.stack);
    assert(st3.stack == st.stack.push(AbsValue::Int(val)));
    assert(st3.stack.len() > 0);
    assert(st3.stack.last() == AbsValue::Int(val));
    let st4 = AbsState { output: st3.output.push(dec_int(val)), ..st3 };
    assert(render_value(AbsValue::Int(val)) == dec_int(val));
    assert(interp_from(st3, prog, 3, depth) == proceed(false, interp_from(st4, prog, 4, depth)));
    assert(interp_from(st4, prog, 4, depth) == RunOut::Fin(st4, false));
    assert(st4 == (AbsState {
        stack: st.stack.push(AbsValue::Int(val)),
        words: st.words,
        output: st.output.push(dec_int(val)),
    }));
}

/// For every pair of 32-bit integers whose result is representable
/// (and, for division, a divisor that is not zero), the line
/// `a b +`, `a b -`, `a b *` or `a b /` runs without error and leaves
/// exactly the sum, difference, product or truncated quotient on top
/// of the stack, printing it; the rest of the stack, the word table
/// and earlier output are untouched.
pub proof fn lemma_arith_line(st: AbsState, a: i32, b: i32, sym: char)
    requires
        sym == '+' || sym == '-' || sym == '*' || sym == '/',
        sym == '+' ==> i32::MIN <= a + b <= i32::MAX,
        sym == '-' ==> i32::MIN <= a - b <= i32::MAX,
        sym == '*' ==> i32::MIN <= a * b <= i32::MAX,
        sym == '/' ==> b != 0 && !(a == i32::MIN && b == -1),
    ensures
        ({
            let val = arith_val(sym_op(sym), a as int, b as int);
            let (st2, res) = execute_spec(st, arith_line(a, b, sym), MAX_DEPTH as nat);
            res == Ok::<bool, Error>(false) && st2.stack == st.stack.push(AbsValue::Int(val))
                && st2.stack.last() == AbsValue::Int(val) && st2.words == st.words && st2.output
                == st.output.push(dec_int(val))
        }),
{
    let da = dec_int(a as int);
    let db = dec_int(b as int);
    let op = sym_op(sym);
    let id = if sym == '+' {
        TokenId::Plus
    } else if sym == '-' {
        TokenId::Minus
    } else if sym == '*' {
        TokenId::Star
    } else {
        TokenId::Slash
    };
    lemma_classify_dec(a);
    lemma_classify_dec(b);
    lemma_classify_sym(sym);
    lemma_dec_roundtrip(a);
    lemma_dec_roundtrip(b);
    lemma_split_three(arith_line(a, b, sym), da, db, seq![sym]);
    lemma_lex_three(da, db, seq![sym]);
    assert(tokenize_spec(arith_line(a, b, sym)) == Some(
        seq![
            AbsToken { id: TokenId::Digit, text: Some(da) },
            AbsToken { id: TokenId::Digit, text: Some(db) },
            AbsToken { id, text: None },
        ],
    ));
    lemma_compile_arith(da, db, id, op, a, b);
    lemma_run_arith(st, a, b, op, MAX_DEPTH as nat);
}

/// Registering a word makes its body what its name looks up, and
/// shadows nothing else: redefinition is last-definition-wins.
pub proof fn lemma_define_then_lookup(words: Seq<AbsWord>, w: AbsWord)
    ensures
        lookup_word(words.push(w), w.name) == Some(w.body),
        forall|n: Seq<char>| n != w.name ==> lookup_word(words.push(w), n) == lookup_word(
            words,
            n,
        ),
{
    assert(words.push(w).last() == w);
    assert(words.push(w).drop_last() =~= words);
}

/// Invoking a defined word runs exactly its stored body, against the
/// same stack and word table, with one level of nesting spent.
pub proof fn lemma_word_invocation(st: AbsState, name: Seq<char>, body: Seq<AbsInstr>, depth: nat)
    requires
        lookup_word(st.words, name) == Some(body),
        depth > 0,
    ensures
        interp_from(
            st,
            seq![AbsInstr { op: OpCode::Push, args: seq![AbsValue::Str(name)] }],
            0,
            depth,
        ) == interp_from(st, body, 0, (depth - 1) as nat),
{
    let prog = seq![AbsInstr { op: OpCode::Push, args: seq![AbsValue::Str(name)] }];
    match interp_from(st, body, 0, (depth - 1) as nat) {
        RunOut::Fin(st2, e1) => {
            assert(interp_from(st2, prog, 1, depth) == RunOut::Fin(st2, false));
            assert(e1 || false == e1);
        },
        RunOut::Fail(st2, k) => {
        },
    }
}

/// A line that fails — however it fails — leaves the stack and the
/// word table exactly as they were before the line.
pub proof fn lemma_error_preserves_state(st: AbsState, line: Seq<char>, depth: nat)
    ensures
        ({
            let (st2, res) = execute_spec(st, line, depth);
            res is Err ==> st2.stack == st.stack && st2.words == st.words
        }),
{
}


} // verus!
