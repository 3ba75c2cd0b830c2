use memory::formula::{and, or, Formula};

fn assert_resolve(expected: bool, f: Formula) {
    assert_eq!(expected, f.resolve());
}

#[test]
fn resolve_true_when_true() {
    assert_resolve(true, Formula::True);
}

#[test]
fn resolve_true_when_true_and_true() {
    assert_resolve(true, and(Formula::True, Formula::True));
}

#[test]
fn resolve_false_when_true_and_false() {
    assert_resolve(false, and(Formula::True, Formula::False));
}

#[test]
fn resolve_false_when_false_or_false() {
    assert_resolve(false, or(Formula::False, Formula::False));
}

#[test]
fn resolve_true_when_true_or_false() {
    assert_resolve(true, or(Formula::True, Formula::False));
}

#[test]
fn resolve_false_when_false() {
    assert_resolve(false, Formula::False);
}

#[test]
fn resolve_false_when_false_and_true() {
    assert_resolve(false, and(Formula::False, Formula::True));
}

#[test]
fn resolve_true_when_false_or_true() {
    assert_resolve(true, or(Formula::False, Formula::True));
}

#[test]
fn resolve_nested_formulas() {
    let f = or(
        and(Formula::True, Formula::False),
        and(Formula::True, or(Formula::False, Formula::True)),
    );
    assert_resolve(true, f);
    let g = and(
        or(Formula::True, Formula::False),
        and(Formula::True, or(Formula::False, Formula::False)),
    );
    assert_resolve(false, g);
}

#[test]
fn combinators_keep_both_operands() {
    assert!(matches!(
        and(Formula::True, Formula::False),
        Formula::And(l, r) if matches!(*l, Formula::True) && matches!(*r, Formula::False)
    ));
    assert!(matches!(
        or(Formula::False, Formula::True),
        Formula::Or(l, r) if matches!(*l, Formula::False) && matches!(*r, Formula::True)
    ));
}
