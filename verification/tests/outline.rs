use mullion::outline::tree_prefix;

#[test]
fn prefix_builds_guides_connector_and_expander() {
    assert_eq!(tree_prefix(&[], false, None), "├─ ");
    assert_eq!(tree_prefix(&[], true, None), "└─ ");
    // Ancestor not-last → "│  "; this node last → "└─ "; closed branch → "▸ ".
    assert_eq!(tree_prefix(&[false], true, Some(false)), "│  └─ ▸ ");
    // Ancestor last → "   "; not-last node → "├─ "; open branch → "▾ ".
    assert_eq!(tree_prefix(&[true], false, Some(true)), "   ├─ ▾ ");
}

