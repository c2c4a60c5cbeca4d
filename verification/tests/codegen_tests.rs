use rorth::codegen::{compile_program_darwin_arm64, intern_strings};
use rorth::lexer::parse_word_as_op;
use rorth::ops::Op;
use rorth::resolver::cross_reference_blocks;

fn program(src: &str) -> Vec<Op> {
    let mut ops = parse_word_as_op(&vec![src.to_string()]).unwrap();
    cross_reference_blocks(&mut ops).unwrap();
    ops
}

fn compile(src: &str) -> String {
    compile_program_darwin_arm64(&program(src))
}

#[test]
fn artifact_opens_with_the_preamble_and_print_routine() {
    let text = compile("7 print");
    assert!(text.starts_with(".global _start\n.align 2\n\n.text\nprint:\n"));
    assert!(text.contains("_start: \n"));
    assert!(text.contains("    bl print\n"));
    assert!(text.contains("    num: .zero 20\n"));
    assert!(text.contains("    newline: .asciz \"\\n\" \n"));
}

#[test]
fn artifact_closes_with_the_exit_call() {
    let text = compile("");
    assert!(text.contains("    // exit syscall\n    mov x0, #0\n    mov x16, #1\n    svc #0x80\n"));
}

#[test]
fn integer_push_loads_a_full_width_immediate() {
    let text = compile("42");
    assert!(text.contains("    ldr x0, =42\n"));
    let text = compile("18446744073709551615");
    assert!(text.contains("    ldr x0, =18446744073709551615\n"));
}

#[test]
fn duplicate_literal_is_stored_once_and_referenced_from_both_sites() {
    let text = compile("\"a\" \"a\"");
    let stored = text.matches(": .asciz \"a\" \n").count();
    assert_eq!(stored, 1, "one stored copy of the literal");
    let refs = text.matches("adrp x0, string0@PAGE").count();
    assert_eq!(refs, 2, "both push sites address the same copy");
}

#[test]
fn literal_address_is_the_first_occurrence_among_pushes() {
    // Pushes in order: "a" (0), 5 (1), "b" (2), "a" again.
    let tbl = intern_strings(&program("\"a\" 5 \"b\" \"a\""));
    assert_eq!(tbl.len(), 2);
    assert_eq!(tbl[0].index, 0);
    assert_eq!(tbl[0].text, "a");
    assert_eq!(tbl[1].index, 2);
    assert_eq!(tbl[1].text, "b");
}

#[test]
fn string_push_addresses_its_stored_position() {
    let text = compile("\"a\" 5 \"b\"");
    assert!(text.contains("    adrp x0, string0@PAGE\n    add x0, x0, string0@PAGEOFF\n"));
    assert!(text.contains("    adrp x0, string2@PAGE\n    add x0, x0, string2@PAGEOFF\n"));
    assert!(text.contains("    string0: .asciz \"a\" \n"));
    assert!(text.contains("    string2: .asciz \"b\" \n"));
}

#[test]
fn if_branches_to_its_resolved_target() {
    // ops: 0 Push 1, 1 If, 2 End; the if exits to 3, the end falls through.
    let text = compile("1 if end");
    assert!(text.contains("    // if \n    ldr x0, [sp], #16\n    cmp x0, #0\n    beq addr_3\n"));
    assert!(text.contains("addr_3:\n"));
    assert!(!text.contains("    b addr_"), "a fall-through end emits no branch");
}

#[test]
fn while_loop_emits_label_and_back_branch() {
    // ops: 0 While, 1 Push 1, 2 Do, 3 End.
    let text = compile("while 1 do end");
    assert!(text.contains("addr_0:\n"), "the while marks the loop head");
    assert!(text.contains("    beq addr_4\n"), "the do exits past the end");
    assert!(text.contains("    b addr_0\n"), "the end branches back");
    assert!(text.contains("addr_4:\n"), "the exit label lands after the end");
}

#[test]
fn every_branch_target_has_a_label() {
    let text = compile("1 if 2 while dup 0 > do 1 - end end 9 print");
    for part in text.split("addr_").skip(1) {
        // Each use is either "addr_<n>:\n" (a label) or "addr_<n>\n" (a branch).
        let n: String = part.chars().take_while(|c| c.is_ascii_digit()).collect();
        assert!(!n.is_empty());
        let label = format!("addr_{}:\n", n);
        assert!(text.contains(&label), "no label for target {}", n);
    }
}

#[test]
fn stack_shufflers_emit_their_fixed_blocks() {
    let text = compile("1 2 dup swap rot drop over");
    assert!(text.contains("    // dup \n    ldr x0, [sp], #16\n    str x0, [sp, #-16]!\n    str x0, [sp, #-16]!\n"));
    assert!(text.contains("    // swap \n"));
    assert!(text.contains("    // rot \n"));
    assert!(text.contains("    // drop \n    ldr x0, [sp], #16\n"));
    assert!(text.contains("    // over \n"));
}

#[test]
fn arithmetic_and_comparisons_emit_their_fixed_blocks() {
    let text = compile("1 2 + 3 - 4 * 5 / 6 = 7 > 8 <");
    assert!(text.contains("    add x3, x0, x1\n"));
    assert!(text.contains("    sub x3, x1, x0\n"));
    assert!(text.contains("    mul x3, x1, x0\n"));
    assert!(text.contains("    udiv x3, x1, x0\n"));
    assert!(text.contains("    cmp x0, x1\n    cset x0, EQ\n"));
    assert!(text.contains("    cmp x1, x0\n    cset x0, HI\n"));
    assert!(text.contains("    cmp x1, x0\n    cset x0, LO\n"));
}

#[test]
fn write_emits_the_three_argument_call() {
    let text = compile("\"hi\" 1 2 write");
    assert!(text.contains("    // write \n    ldr\tX2, [sp], #16\n    ldr\tX0, [sp], #16\n    ldr\tX1, [sp], #16\n    mov\tX16, #4\n    svc\t#0x80\n"));
}

#[test]
fn decimal_rendering_matches_the_standard_form() {
    assert_eq!(rorth::numfmt::u64_to_dec(0), "0");
    assert_eq!(rorth::numfmt::u64_to_dec(7), "7");
    assert_eq!(rorth::numfmt::u64_to_dec(100), "100");
    assert_eq!(rorth::numfmt::u64_to_dec(u64::MAX), "18446744073709551615");
}

#[test]
fn print_field_formatting_matches_the_interpreter() {
    let s = rorth::numfmt::format_print(7);
    assert_eq!(s.len(), 21);
    assert_eq!(&s[..19], "\0".repeat(19));
    assert_eq!(&s[19..], "7\n");
}
