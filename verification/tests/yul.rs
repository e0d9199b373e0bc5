use fandango_targets::targets::yul::ScopeFixer;

fn s(name: &str) -> String {
    name.to_string()
}

#[test]
fn declarations_are_scoped_to_blocks() {
    let mut fixer = ScopeFixer::new();
    assert!(!fixer.in_scope(&s("x")));
    assert!(fixer.declare(s("x")));
    assert!(!fixer.in_scope(&s("x")));
    fixer.enter_block();
    assert!(fixer.declare(s("x")));
    assert!(fixer.in_scope(&s("x")));
    fixer.enter_block();
    assert!(!fixer.declare(s("x")));
    assert!(fixer.declare(s("y")));
    assert_eq!(fixer.pick_in_scope(), Some(s("y")));
    fixer.leave_block();
    assert!(!fixer.in_scope(&s("y")));
    assert_eq!(fixer.pick_in_scope(), Some(s("x")));
    fixer.leave_block();
    assert!(!fixer.in_scope(&s("x")));
    assert_eq!(fixer.pick_in_scope(), None);
    fixer.leave_block();
}

#[test]
fn out_of_scope_uses_are_rewritten() {
    let mut fixer = ScopeFixer::new();
    assert_eq!(fixer.resolve_use(&s("a")), None);
    fixer.enter_block();
    assert_eq!(fixer.resolve_use(&s("a")), None);
    assert!(fixer.declare(s("a")));
    fixer.enter_block();
    assert_eq!(fixer.resolve_use(&s("a")), None);
    assert_eq!(fixer.resolve_use(&s("b")), Some(s("a")));
    assert!(fixer.declare(s("c")));
    assert_eq!(fixer.resolve_use(&s("b")), Some(s("c")));
    fixer.enter_block();
    assert_eq!(fixer.resolve_use(&s("b")), Some(s("c")));
}
