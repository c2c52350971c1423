use mullion::diff::{diff_lines, DiffOp};

#[test]
fn diff_lines_produces_lcs_script() {
    let old = ["a", "b", "c"];
    let new = ["a", "x", "c"];
    let ops = diff_lines(&old, &new);
    assert_eq!(ops.iter().filter(|o| matches!(o, DiffOp::Equal(_))).count(), 2);
    assert!(ops.contains(&DiffOp::Delete("b")));
    assert!(ops.contains(&DiffOp::Insert("x")));
    // Order: a stays, then the b→x change, then c stays.
    assert_eq!(ops[0], DiffOp::Equal("a"));
    assert_eq!(*ops.last().unwrap(), DiffOp::Equal("c"));
}

