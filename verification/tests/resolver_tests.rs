use rorth::lexer::parse_word_as_op;
use rorth::ops::{Op, OpValue};
use rorth::resolver::{cross_reference_blocks, ResolveError};

fn parse(src: &str) -> Vec<Op> {
    parse_word_as_op(&vec![src.to_string()]).unwrap()
}

fn resolved(src: &str) -> Vec<Op> {
    let mut ops = parse(src);
    cross_reference_blocks(&mut ops).unwrap();
    ops
}

fn target(op: &Op) -> u64 {
    match &op.value {
        Some(OpValue::IntVal(t)) => *t,
        other => panic!("expected a resolved jump target, got {:?}", other),
    }
}

#[test]
fn if_block_points_past_its_end() {
    // ops: 0 If, 1 Push 1, 2 End
    let ops = resolved("if 1 end");
    assert_eq!(target(&ops[0]), 3, "the if skips to just past the end");
    assert_eq!(target(&ops[2]), 2, "the end holds its own index: fall through");
}

#[test]
fn empty_if_block_resolves_like_any_other() {
    // ops: 0 If, 1 End
    let ops = resolved("if end");
    assert_eq!(target(&ops[0]), 2);
    assert_eq!(target(&ops[1]), 1);
}

#[test]
fn nested_ifs_get_distinct_self_targets() {
    // ops: 0 If, 1 Push 1, 2 If, 3 Push 1, 4 End, 5 End
    let ops = resolved("if 1 if 1 end end");
    assert_eq!(target(&ops[2]), 5, "the inner if exits past the inner end");
    assert_eq!(target(&ops[0]), 6, "the outer if exits past the outer end");
    assert_eq!(target(&ops[4]), 4, "the inner end falls through at its own index");
    assert_eq!(target(&ops[5]), 5, "the outer end falls through at its own index");
    assert_ne!(target(&ops[4]), target(&ops[5]));
}

#[test]
fn while_loop_wires_do_and_end() {
    // ops: 0 While, 1 Push 1, 2 Do, 3 End
    let ops = resolved("while 1 do end");
    assert_eq!(target(&ops[0]), 0, "the while is marked resolved with 0");
    assert_eq!(target(&ops[2]), 4, "the do exits past the end");
    assert_eq!(target(&ops[3]), 0, "the end loops back to the while");
}

#[test]
fn while_nested_in_if_resolves_independently() {
    // ops: 0 If, 1 While, 2 Push 1, 3 Do, 4 End, 5 End
    let ops = resolved("if while 1 do end end");
    assert_eq!(target(&ops[3]), 5, "the do exits past the inner end");
    assert_eq!(target(&ops[4]), 1, "the inner end loops back to the while");
    assert_eq!(target(&ops[0]), 6, "the if skips past the outer end");
    assert_eq!(target(&ops[5]), 5, "the outer end falls through");
}

#[test]
fn non_control_ops_are_untouched() {
    let ops = resolved("1 2 + if dup end print");
    match &ops[0].value {
        Some(OpValue::IntVal(1)) => {},
        other => panic!("push payload changed: {:?}", other),
    }
    assert!(ops[2].value.is_none());
    assert!(ops[4].value.is_none());
    assert!(ops[6].value.is_none());
}

#[test]
fn do_without_while_is_rejected() {
    let mut ops = parse("1 do end");
    assert_eq!(cross_reference_blocks(&mut ops), Err(ResolveError::UnexpectedDo));
}

#[test]
fn do_on_top_of_open_if_is_rejected() {
    let mut ops = parse("while if do end end");
    assert_eq!(cross_reference_blocks(&mut ops), Err(ResolveError::UnexpectedDo));
}

#[test]
fn end_without_open_block_is_rejected() {
    let mut ops = parse("1 end");
    assert_eq!(cross_reference_blocks(&mut ops), Err(ResolveError::UnexpectedEnd));
}

#[test]
fn while_closed_without_do_is_rejected() {
    let mut ops = parse("while 1 end");
    assert_eq!(cross_reference_blocks(&mut ops), Err(ResolveError::MissingDo));
}

#[test]
fn unterminated_if_is_rejected() {
    let mut ops = parse("if 1");
    assert_eq!(cross_reference_blocks(&mut ops), Err(ResolveError::UnclosedBlock));
}

#[test]
fn unterminated_while_do_is_rejected() {
    let mut ops = parse("while 1 do");
    assert_eq!(cross_reference_blocks(&mut ops), Err(ResolveError::UnclosedBlock));
}

#[test]
fn program_without_control_flow_is_a_no_op_pass() {
    let before = parse("1 2 + print");
    let mut after = parse("1 2 + print");
    cross_reference_blocks(&mut after).unwrap();
    assert_eq!(before.len(), after.len());
    for (b, a) in before.iter().zip(after.iter()) {
        assert_eq!(b.kind, a.kind);
        match (&b.value, &a.value) {
            (None, None) => {},
            (Some(OpValue::IntVal(x)), Some(OpValue::IntVal(y))) => assert_eq!(x, y),
            other => panic!("values diverged: {:?}", other),
        }
    }
}
