use ot_rs::error::OperationError;
use ot_rs::text::TextOperation;

#[test]
fn empty_operation_text() {
    let ops = TextOperation::new();
    assert_eq!("(0->0){}", ops.to_string());
    assert!(ops.is_noop());
    assert!(TextOperation::default() == ops);
}

#[test]
fn operation_text_escapes_quotes() {
    let mut ops = TextOperation::new();
    ops.retain(1).delete(1).retain(1).insert("de\"");
    assert_eq!(
        "(3->5){retain(1).delete(1).retain(1).insert(\"de\\\"\")}",
        ops.to_string()
    );
}

#[test]
fn retain_merges() {
    let mut ops = TextOperation::new();
    ops.retain(1);
    assert_eq!("(1->1){retain(1)}", ops.to_string());
    ops.retain(1);
    assert_eq!("(2->2){retain(2)}", ops.to_string());
    ops.retain(0);
    assert_eq!("(2->2){retain(2)}", ops.to_string());
}

#[test]
fn delete_merges() {
    let mut ops = TextOperation::new();
    ops.delete(1);
    assert_eq!("(1->0){delete(1)}", ops.to_string());
    ops.delete(2);
    assert_eq!("(3->0){delete(3)}", ops.to_string());
}

#[test]
fn insert_normal_form() {
    let mut ops = TextOperation::new();
    ops.insert("a");
    assert_eq!("(0->1){insert(\"a\")}", ops.to_string());
    ops.insert("b");
    assert_eq!("(0->2){insert(\"ab\")}", ops.to_string());
    ops.delete(1);
    assert_eq!("(1->2){insert(\"ab\").delete(1)}", ops.to_string());
    ops.insert("c");
    assert_eq!("(1->3){insert(\"abc\").delete(1)}", ops.to_string());
    ops.retain(1).delete(1);
    assert_eq!(
        "(3->4){insert(\"abc\").delete(1).retain(1).delete(1)}",
        ops.to_string()
    );
    ops.insert("d");
    assert_eq!(
        "(3->5){insert(\"abc\").delete(1).retain(1).insert(\"d\").delete(1)}",
        ops.to_string()
    );
    ops.insert("");
    assert_eq!(
        "(3->5){insert(\"abc\").delete(1).retain(1).insert(\"d\").delete(1)}",
        ops.to_string()
    );
}

#[test]
fn structural_equality() {
    let mut ops1 = TextOperation::new();
    let mut ops2 = TextOperation::new();
    assert!(ops1 == ops2);
    ops1.retain(1).delete(1).retain(1).insert("d");
    assert!(ops1 != ops2);
    ops2.retain(1).delete(1).retain(1).insert("d");
    assert!(ops1 == ops2);
    ops2.insert("1");
    assert!(ops1 != ops2);
}

#[test]
fn apply_and_invert_basic() {
    let base = "abc";
    let mut ops = TextOperation::new();
    ops.retain(1).delete(1).retain(1).insert("d");
    assert_eq!("acd", ops.apply(base).unwrap());
    let inverse = ops.invert(base).unwrap();
    assert_eq!("(3->3){retain(1).insert(\"b\").retain(1).delete(1)}", inverse.to_string());
    assert_eq!(base, inverse.apply("acd").unwrap());
}

#[test]
fn apply_wrong_length() {
    let mut ops = TextOperation::new();
    assert_eq!(
        OperationError::OperationApplyStringNotCompatible,
        ops.insert("a").apply("---").unwrap_err()
    );
    let mut ops = TextOperation::new();
    ops.retain(2);
    assert_eq!(
        OperationError::OperationApplyStringNotCompatible,
        ops.invert("abc").unwrap_err()
    );
}

#[test]
fn compose_basic() {
    let base = "abc";
    let mut ops1 = TextOperation::new();
    ops1.retain(1).insert("123").delete(1).retain(1);
    let after1 = ops1.apply(base).unwrap();
    assert_eq!("a123c", after1);
    let mut ops2 = TextOperation::new();
    ops2.retain(2)
        .insert("$$$")
        .delete(1)
        .retain(1)
        .insert("###")
        .retain(1);
    let after2 = ops2.apply(&after1).unwrap();
    assert_eq!("a1$$$3###c", after2);
    let compose_ops = ops1.compose(&ops2).unwrap();
    assert_eq!(after2, compose_ops.apply(base).unwrap());
}

#[test]
fn compose_wrong_length() {
    let mut a = TextOperation::new();
    a.retain(3);
    let mut b = TextOperation::new();
    b.retain(2);
    assert_eq!(
        OperationError::SecondBaseLengthNotEqualFirstAfterLength,
        a.compose(&b).unwrap_err()
    );
}

#[test]
fn compose_exact_atoms() {
    let mut a = TextOperation::new();
    a.retain(1).insert("xy").delete(1);
    let mut b = TextOperation::new();
    b.retain(2).delete(1);
    let c = a.compose(&b).unwrap();
    assert_eq!("(2->2){retain(1).insert(\"x\").delete(1)}", c.to_string());
}

#[test]
fn transform_tie_break() {
    let base = "abc";
    let mut a = TextOperation::new();
    a.insert("x").retain(3);
    let mut b = TextOperation::new();
    b.insert("y").retain(3);
    let (a_prime, b_prime) = a.transform(&b).unwrap();
    assert_eq!("(4->5){insert(\"x\").retain(4)}", a_prime.to_string());
    assert_eq!("(4->5){retain(1).insert(\"y\").retain(3)}", b_prime.to_string());
    let via_a = b_prime.apply(&a.apply(base).unwrap()).unwrap();
    let via_b = a_prime.apply(&b.apply(base).unwrap()).unwrap();
    assert_eq!("xyabc", via_a);
    assert_eq!("xyabc", via_b);
    assert!(a.compose(&b_prime).unwrap() == b.compose(&a_prime).unwrap());
}

#[test]
fn transform_deletes() {
    let base = "abcdef";
    let mut a = TextOperation::new();
    a.retain(1).delete(3).retain(2);
    let mut b = TextOperation::new();
    b.retain(2).delete(3).retain(1);
    let (a_prime, b_prime) = a.transform(&b).unwrap();
    assert_eq!("(3->2){retain(1).delete(1).retain(1)}", a_prime.to_string());
    assert_eq!("(3->2){retain(1).delete(1).retain(1)}", b_prime.to_string());
    let via_a = b_prime.apply(&a.apply(base).unwrap()).unwrap();
    let via_b = a_prime.apply(&b.apply(base).unwrap()).unwrap();
    assert_eq!("af", via_a);
    assert_eq!(via_a, via_b);
}

#[test]
fn transform_wrong_length() {
    let mut a = TextOperation::new();
    a.retain(3);
    let mut b = TextOperation::new();
    b.retain(2);
    assert_eq!(
        OperationError::TransformBaseDifferent,
        a.transform(&b).unwrap_err()
    );
}

#[test]
fn supplementary_plane_chars() {
    let mut a = TextOperation::new();
    a.retain(1).delete(1).insert("a").retain(1);
    assert_eq!(3, a.base_length());
    assert_eq!(3, a.after_length());
    assert_eq!("中a文", a.apply("中😂文").unwrap());
    let inverse = a.invert("中😂文").unwrap();
    assert_eq!("中😂文", inverse.apply("中a文").unwrap());
}

#[test]
fn noop_composes_with_anything() {
    let mut a = TextOperation::new();
    a.retain(3);
    assert!(a.is_noop());
    let mut b = TextOperation::new();
    b.retain(1).insert("xxx").retain(2);
    assert!(!b.is_noop());
    assert!(a.should_be_composed_with(&b));
    assert!(b.should_be_composed_with(&a));
    let mut d = TextOperation::new();
    d.delete(3);
    assert!(a.should_be_composed_with(&d));
}

#[test]
fn should_be_composed_with_cases() {
    let mut ops1 = TextOperation::new();
    ops1.retain(1).insert("a").retain(2);
    let mut ops2 = TextOperation::new();
    ops2.retain(2).insert("b").retain(2);
    assert!(ops1.should_be_composed_with(&ops2));
    ops1.delete(3);
    assert!(!ops1.should_be_composed_with(&ops2));

    let mut ops1 = TextOperation::new();
    ops1.retain(1).insert("b").retain(2);
    let mut ops2 = TextOperation::new();
    ops2.retain(1).insert("a").retain(3);
    assert!(!ops1.should_be_composed_with(&ops2));

    let mut ops1 = TextOperation::new();
    ops1.retain(4).delete(3).retain(10);
    let mut ops2 = TextOperation::new();
    ops2.retain(2).delete(2).retain(10);
    assert!(ops1.should_be_composed_with(&ops2));
    let mut ops2 = TextOperation::new();
    ops2.retain(4).delete(7).retain(3);
    assert!(ops1.should_be_composed_with(&ops2));
    let mut ops2 = TextOperation::new();
    ops2.retain(2).delete(9).retain(3);
    assert!(!ops1.should_be_composed_with(&ops2));
}

#[test]
fn inverted_duality_on_typing() {
    // insert "x" at 0, then "y" at 1: typing on
    let base = "abc";
    let mut a = TextOperation::new();
    a.insert("x").retain(3);
    let after = a.apply(base).unwrap();
    let mut b = TextOperation::new();
    b.retain(1).insert("y").retain(3);
    assert!(a.should_be_composed_with(&b));
    let a_inv = a.invert(base).unwrap();
    let b_inv = b.invert(&after).unwrap();
    assert!(b_inv.should_be_composed_with_inverted(&a_inv));
}

#[test]
fn inverted_duality_on_backspace() {
    let base = "abcdefgh";
    let mut a = TextOperation::new();
    a.retain(4).delete(2).retain(2);
    let after = a.apply(base).unwrap();
    let mut b = TextOperation::new();
    b.retain(2).delete(2).retain(2);
    assert!(a.should_be_composed_with(&b));
    let a_inv = a.invert(base).unwrap();
    let b_inv = b.invert(&after).unwrap();
    assert!(b_inv.should_be_composed_with_inverted(&a_inv));
    let mut c = TextOperation::new();
    c.retain(1).delete(2).retain(3);
    assert!(!a.should_be_composed_with(&c));
    let c_inv = c.invert(&after).unwrap();
    assert!(!c_inv.should_be_composed_with_inverted(&a_inv));
}

#[test]
fn identity_compose_and_transform() {
    let empty = TextOperation::new();
    let mut b = TextOperation::new();
    b.insert("hi");
    assert!(empty.compose(&b).unwrap() == b);
    let (a_prime, b_prime) = empty.transform(&b).unwrap();
    assert_eq!("(2->2){retain(2)}", a_prime.to_string());
    assert!(b_prime == b);
    assert!(empty.compose(&empty).unwrap() == empty);
}
