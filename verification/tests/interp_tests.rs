use rorth::interp::simulate_program;
use rorth::lexer::parse_word_as_op;
use rorth::ops::Op;
use rorth::resolver::cross_reference_blocks;

const FUEL: u64 = 1_000_000;

fn program(src: &str) -> Vec<Op> {
    let mut ops = parse_word_as_op(&vec![src.to_string()]).unwrap();
    cross_reference_blocks(&mut ops).unwrap();
    ops
}

fn run(src: &str) -> String {
    simulate_program(&program(src), FUEL).expect("program did not finish")
}

/// The decimal digits right-aligned in a 20-character NUL-padded field,
/// followed by a newline: what one `print` writes.
fn field(n: u64) -> String {
    let digits = n.to_string();
    let mut s = "\0".repeat(20 - digits.len());
    s.push_str(&digits);
    s.push('\n');
    s
}

#[test]
fn empty_program_writes_nothing() {
    assert_eq!(run(""), "");
}

#[test]
fn print_pads_a_single_digit_to_twenty_characters() {
    let out = run("7 print");
    assert_eq!(out, field(7));
    assert_eq!(out.len(), 21);
    assert!(out.starts_with(&"\0".repeat(19)));
    assert!(out.ends_with("7\n"));
}

#[test]
fn print_fills_the_field_for_a_large_value() {
    let out = run("123456789012345 print");
    assert_eq!(out, field(123456789012345));
    assert!(out.starts_with(&"\0".repeat(5)));
}

#[test]
fn print_of_the_largest_value_uses_all_twenty_characters() {
    let out = run("18446744073709551615 print");
    assert_eq!(out, "18446744073709551615\n");
}

#[test]
fn plus_adds() {
    assert_eq!(run("2 3 + print"), field(5));
}

#[test]
fn minus_subtracts_top_from_second() {
    assert_eq!(run("10 4 - print"), field(6));
}

#[test]
fn minus_wraps_below_zero() {
    assert_eq!(run("3 5 - print"), field(18446744073709551614));
}

#[test]
fn mult_multiplies() {
    assert_eq!(run("6 7 * print"), field(42));
}

#[test]
fn div_is_integer_division() {
    assert_eq!(run("7 2 / print"), field(3));
}

#[test]
fn div_by_zero_yields_zero() {
    // Both operands are consumed and a zero is pushed, as the target's
    // divide instruction does.
    assert_eq!(run("9 7 0 / + print"), field(9));
    assert_eq!(run("7 0 / print"), field(0));
}

#[test]
fn equals_compares_integers() {
    assert_eq!(run("4 4 = print"), field(1));
    assert_eq!(run("4 5 = print"), field(0));
}

#[test]
fn equals_compares_string_contents() {
    assert_eq!(run("\"ab\" \"ab\" = print"), field(1));
    assert_eq!(run("\"ab\" \"ac\" = print"), field(0));
    assert_eq!(run("\"ab\" 7 = print"), field(0));
}

#[test]
fn gt_and_lt_compare_second_against_top() {
    assert_eq!(run("5 3 > print"), field(1));
    assert_eq!(run("3 5 > print"), field(0));
    assert_eq!(run("3 3 > print"), field(0));
    assert_eq!(run("3 5 < print"), field(1));
    assert_eq!(run("5 3 < print"), field(0));
}

#[test]
fn dup_then_drop_leaves_the_push_alone() {
    assert_eq!(run("5 dup drop print"), field(5));
}

#[test]
fn dup_doubles_the_top() {
    assert_eq!(run("5 dup + print"), field(10));
}

#[test]
fn swap_exchanges_the_top_two() {
    assert_eq!(run("1 2 swap print print"), field(1) + &field(2));
}

#[test]
fn swap_twice_is_a_no_op() {
    assert_eq!(run("1 2 swap swap print print"), field(2) + &field(1));
}

#[test]
fn rot_brings_the_third_to_the_top() {
    assert_eq!(run("1 2 3 rot print print print"), field(1) + &field(3) + &field(2));
}

#[test]
fn over_copies_the_second_over_the_top() {
    assert_eq!(run("1 2 over print print print"), field(1) + &field(2) + &field(1));
}

#[test]
fn write_sends_text_to_fd_one_verbatim() {
    assert_eq!(run("\"hello world\" 1 11 write"), "hello world");
}

#[test]
fn write_to_another_fd_is_silent() {
    assert_eq!(run("\"hello\" 2 5 write"), "");
}

#[test]
fn truthy_if_runs_its_body_and_falls_through() {
    assert_eq!(run("1 if 7 print end 9 print"), field(7) + &field(9));
}

#[test]
fn falsy_if_skips_exactly_its_body() {
    assert_eq!(run("0 if 7 print end 9 print"), field(9));
}

#[test]
fn nested_ifs_resolve_and_run() {
    assert_eq!(run("1 if 1 if 7 print end end"), field(7));
    assert_eq!(run("1 if 0 if 7 print end 8 print end"), field(8));
}

#[test]
fn while_counts_down_and_stops_at_zero() {
    let out = run("3 while dup 0 > do dup print 1 - end");
    assert_eq!(out, field(3) + &field(2) + &field(1));
}

#[test]
fn while_with_falsy_condition_never_runs_its_body() {
    assert_eq!(run("0 while dup 0 > do 7 print end 9 print"), field(9));
}

#[test]
fn pop_of_an_empty_stack_is_skipped() {
    // The plus has no operands and is skipped; the push and print still run.
    assert_eq!(run("+ 5 print"), field(5));
}

#[test]
fn an_endless_loop_exhausts_its_fuel() {
    assert_eq!(simulate_program(&program("1 while 1 do end"), 1000), None);
}

#[test]
fn a_finished_run_is_insensitive_to_more_fuel() {
    let p = program("2 3 + print");
    assert_eq!(simulate_program(&p, FUEL), simulate_program(&p, FUEL * 2));
}

#[test]
fn a_text_condition_skips_the_branch_test() {
    // The `if` needs an integer on top; a text leaves it untouched and the
    // operation is skipped, so execution continues into the body.
    assert_eq!(run("\"s\" if 7 print end drop 9 print"), field(7) + &field(9));
}

#[test]
fn plus_prefixed_literal_pushes_its_value() {
    assert_eq!(run("+5 print"), field(5));
    assert_eq!(run("2 +3 + print"), field(5));
}
