use miniforth::value::{Error, Value};
use miniforth::vm::VirtualMachine;

fn ints(vm: &VirtualMachine) -> Vec<i32> {
    vm.stack().iter().map(|v| v.get_int()).collect()
}

#[test]
fn arithmetic_leaves_exact_result() {
    let mut vm = VirtualMachine::new();
    assert_eq!(vm.execute("3 4 +"), Ok(false));
    assert_eq!(ints(&vm), vec![7]);

    let mut vm = VirtualMachine::new();
    assert_eq!(vm.execute("3 4 -"), Ok(false));
    assert_eq!(ints(&vm), vec![-1]);

    let mut vm = VirtualMachine::new();
    assert_eq!(vm.execute("3 4 *"), Ok(false));
    assert_eq!(ints(&vm), vec![12]);

    let mut vm = VirtualMachine::new();
    assert_eq!(vm.execute("12 4 /"), Ok(false));
    assert_eq!(ints(&vm), vec![3]);
}

#[test]
fn division_truncates_toward_zero() {
    let mut vm = VirtualMachine::new();
    assert_eq!(vm.execute("-7 2 /"), Ok(false));
    assert_eq!(ints(&vm), vec![-3]);

    let mut vm = VirtualMachine::new();
    assert_eq!(vm.execute("7 -2 /"), Ok(false));
    assert_eq!(ints(&vm), vec![-3]);
}

#[test]
fn negative_operands() {
    let mut vm = VirtualMachine::new();
    assert_eq!(vm.execute("-5 -6 +"), Ok(false));
    assert_eq!(ints(&vm), vec![-11]);
}

#[test]
fn dup_duplicates_top() {
    let mut vm = VirtualMachine::new();
    assert_eq!(vm.execute("5 DUP"), Ok(false));
    assert_eq!(ints(&vm), vec![5, 5]);
}

#[test]
fn swap_exchanges_top_two() {
    let mut vm = VirtualMachine::new();
    assert_eq!(vm.execute("1 2 SWAP"), Ok(false));
    assert_eq!(ints(&vm), vec![2, 1]);
}

#[test]
fn over_copies_second() {
    let mut vm = VirtualMachine::new();
    assert_eq!(vm.execute("1 2 OVER"), Ok(false));
    assert_eq!(ints(&vm), vec![1, 2, 1]);
}

#[test]
fn drop_removes_top() {
    let mut vm = VirtualMachine::new();
    assert_eq!(vm.execute("1 DROP"), Ok(false));
    assert!(vm.stack().is_empty());
}

#[test]
fn pop_removes_top() {
    let mut vm = VirtualMachine::new();
    assert_eq!(vm.execute("1 2 POP"), Ok(false));
    assert_eq!(ints(&vm), vec![1]);
}

#[test]
fn division_by_zero_preserves_stack() {
    let mut vm = VirtualMachine::new();
    assert_eq!(vm.execute("7"), Ok(false));
    assert_eq!(vm.execute("5 0 /"), Err(Error::RuntimeArithmeticError));
    assert_eq!(ints(&vm), vec![7]);
}

#[test]
fn word_round_trip_square() {
    let mut vm = VirtualMachine::new();
    assert_eq!(vm.execute(": SQUARE DUP * ; 4 SQUARE"), Ok(false));
    assert_eq!(ints(&vm), vec![16]);
}

#[test]
fn underflow_reported_and_prompt_continues() {
    let mut vm = VirtualMachine::new();
    assert_eq!(vm.execute("+"), Err(Error::RuntimeStackUnderflow));
    assert!(vm.stack().is_empty());
    assert_eq!(vm.execute("1 2 +"), Ok(false));
    assert_eq!(ints(&vm), vec![3]);
}

#[test]
fn quoted_string_in_word_body_is_one_value() {
    let mut vm = VirtualMachine::new();
    assert_eq!(vm.execute(": GREET \"HELLO WORLD\" ;"), Ok(false));
    assert_eq!(vm.execute("GREET"), Ok(false));
    assert_eq!(vm.stack().len(), 1);
    assert_eq!(vm.stack()[0], Value::Str(String::from("HELLO WORLD")));
    assert_eq!(vm.output().last().unwrap(), "HELLO WORLD");
}

#[test]
fn rerun_from_fresh_state_is_identical() {
    let mut a = VirtualMachine::new();
    let mut b = VirtualMachine::new();
    let line = ": TWICE DUP + ; 21 TWICE 1 -";
    assert_eq!(a.execute(line), Ok(false));
    assert_eq!(b.execute(line), Ok(false));
    assert_eq!(a.stack(), b.stack());
    assert_eq!(ints(&a), vec![41]);
}

#[test]
fn word_redefinition_last_wins() {
    let mut vm = VirtualMachine::new();
    assert_eq!(vm.execute(": W 1 ;"), Ok(false));
    assert_eq!(vm.execute(": W 2 ;"), Ok(false));
    assert_eq!(vm.execute("W"), Ok(false));
    assert_eq!(ints(&vm), vec![2]);
}

#[test]
fn words_can_call_words() {
    let mut vm = VirtualMachine::new();
    assert_eq!(vm.execute(": SQUARE DUP * ;"), Ok(false));
    assert_eq!(vm.execute(": QUAD SQUARE SQUARE ;"), Ok(false));
    assert_eq!(vm.execute("3 QUAD"), Ok(false));
    assert_eq!(ints(&vm), vec![81]);
}

#[test]
fn runaway_recursion_is_an_error_not_a_crash() {
    let mut vm = VirtualMachine::new();
    assert_eq!(vm.execute(": R R ;"), Ok(false));
    assert_eq!(vm.execute("R"), Err(Error::RuntimeRecursionLimit));
    assert!(vm.stack().is_empty());
    assert_eq!(vm.execute("1 2 +"), Ok(false));
    assert_eq!(ints(&vm), vec![3]);
}

#[test]
fn unterminated_quote_is_lexical_error() {
    let mut vm = VirtualMachine::new();
    assert_eq!(vm.execute("\"HELLO WORLD"), Err(Error::LexicalError));
    assert!(vm.stack().is_empty());
}

#[test]
fn stray_semicolon_is_compile_error() {
    let mut vm = VirtualMachine::new();
    assert_eq!(vm.execute(";"), Err(Error::CompileError));
    assert_eq!(vm.execute("1 ; 2"), Err(Error::CompileError));
    assert!(vm.stack().is_empty());
}

#[test]
fn unclosed_definition_is_compile_error() {
    let mut vm = VirtualMachine::new();
    assert_eq!(vm.execute(": SQUARE DUP *"), Err(Error::CompileError));
    assert_eq!(vm.execute(":"), Err(Error::CompileError));
}

#[test]
fn arithmetic_on_string_is_type_error() {
    let mut vm = VirtualMachine::new();
    assert_eq!(vm.execute("5 HELLO +"), Err(Error::RuntimeTypeError));
    assert!(vm.stack().is_empty());
}

#[test]
fn exit_requests_session_end() {
    let mut vm = VirtualMachine::new();
    assert_eq!(vm.execute("EXIT"), Ok(true));
    assert_eq!(vm.execute("1 2 + EXIT"), Ok(true));
    assert_eq!(ints(&vm), vec![3]);
}

#[test]
fn unknown_name_pushes_literal_string() {
    let mut vm = VirtualMachine::new();
    assert_eq!(vm.execute("HELLO"), Ok(false));
    assert_eq!(vm.stack()[0], Value::Str(String::from("HELLO")));
}

#[test]
fn top_of_stack_is_printed_by_default() {
    let mut vm = VirtualMachine::new();
    assert_eq!(vm.execute("2 3 +"), Ok(false));
    assert_eq!(vm.output().len(), 1);
    assert_eq!(vm.output()[0], "5");
}

#[test]
fn print_shows_whole_stack_once() {
    let mut vm = VirtualMachine::new();
    assert_eq!(vm.execute("1 2 PRINT"), Ok(false));
    assert_eq!(vm.output().len(), 1);
    assert_eq!(vm.output()[0], "[1, 2]");
}

#[test]
fn printing_an_empty_stack_shows_nil() {
    let mut vm = VirtualMachine::new();
    assert_eq!(vm.execute("PRINT"), Ok(false));
    assert_eq!(vm.output()[0], "nil");
    vm.clear_output();
    assert_eq!(vm.execute("1 DROP"), Ok(false));
    assert_eq!(vm.output()[0], "nil");
}

#[test]
fn empty_line_does_nothing() {
    let mut vm = VirtualMachine::new();
    assert_eq!(vm.execute(""), Ok(false));
    assert!(vm.stack().is_empty());
    assert!(vm.output().is_empty());
}

#[test]
fn clear_output_forgets_lines() {
    let mut vm = VirtualMachine::new();
    assert_eq!(vm.execute("1"), Ok(false));
    assert_eq!(vm.output().len(), 1);
    vm.clear_output();
    assert!(vm.output().is_empty());
    assert_eq!(ints(&vm), vec![1]);
}

#[test]
fn overflowing_numeral_is_a_string_not_a_number() {
    let mut vm = VirtualMachine::new();
    assert_eq!(vm.execute("9999999999"), Ok(false));
    assert_eq!(vm.stack()[0], Value::Str(String::from("9999999999")));
}

#[test]
fn extreme_integers_parse_and_print() {
    let mut vm = VirtualMachine::new();
    assert_eq!(vm.execute("-2147483648"), Ok(false));
    assert_eq!(vm.execute("2147483647"), Ok(false));
    assert_eq!(ints(&vm), vec![i32::MIN, i32::MAX]);
    assert_eq!(vm.output()[0], "-2147483648");
    assert_eq!(vm.output()[1], "2147483647");
}

#[test]
fn wrapping_arithmetic_at_the_edges() {
    let mut vm = VirtualMachine::new();
    assert_eq!(vm.execute("2147483647 1 +"), Ok(false));
    assert_eq!(ints(&vm), vec![i32::MIN]);

    let mut vm = VirtualMachine::new();
    assert_eq!(vm.execute("-2147483648 -1 /"), Ok(false));
    assert_eq!(ints(&vm), vec![i32::MIN]);
}
