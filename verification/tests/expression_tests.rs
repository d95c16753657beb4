use potato::expression::{AtomType, Expression, ExpressionType};

#[test]
fn a_new_list_is_empty() {
    let list = Expression::new_list();
    assert_eq!(list.len(), 0);
    assert!(matches!(list.get_value(), ExpressionType::List(items) if items.is_empty()));
}

#[test]
fn atoms_hold_their_text() {
    assert!(matches!(
        Expression::new_symbol("x".to_string()).get_value(),
        ExpressionType::Atom(AtomType::Symbol(s)) if s == "x"
    ));
    assert!(matches!(
        Expression::new_string("\"x\"".to_string()).get_value(),
        ExpressionType::Atom(AtomType::String(s)) if s == "\"x\""
    ));
    assert!(matches!(
        Expression::new_number("1".to_string()).get_value(),
        ExpressionType::Atom(AtomType::Number(s)) if s == "1"
    ));
    assert_eq!(Expression::new_symbol("x".to_string()).len(), 0);
}

#[test]
fn new_wraps_what_it_is_given() {
    let e = Expression::new(ExpressionType::Atom(AtomType::Number("2".to_string())));
    assert!(matches!(e.get_value(), ExpressionType::Atom(AtomType::Number(s)) if s == "2"));
    let e = Expression::new(ExpressionType::List(vec![Expression::new_list()]));
    assert_eq!(e.len(), 1);
}

#[test]
fn push_keeps_the_order() {
    let mut list = Expression::new_list();
    assert!(list.push(Expression::new_symbol("a".to_string())).is_ok());
    assert!(list.push(Expression::new_list()).is_ok());
    assert!(list.push(Expression::new_symbol("b".to_string())).is_ok());
    assert_eq!(list.len(), 3);
    match list.get_value() {
        ExpressionType::List(items) => {
            assert!(matches!(items[0].get_value(), ExpressionType::Atom(AtomType::Symbol(s)) if s == "a"));
            assert!(matches!(items[1].get_value(), ExpressionType::List(inner) if inner.is_empty()));
            assert!(matches!(items[2].get_value(), ExpressionType::Atom(AtomType::Symbol(s)) if s == "b"));
        }
        ExpressionType::Atom(_) => panic!("a list was expected"),
    }
}

#[test]
fn push_onto_an_atom_fails() {
    let mut atom = Expression::new_symbol("a".to_string());
    let r = atom.push(Expression::new_list());
    assert_eq!(r, Err("Tried to append to an atom".to_string()));
    assert!(matches!(atom.get_value(), ExpressionType::Atom(AtomType::Symbol(s)) if s == "a"));
    assert_eq!(atom.len(), 0);
}

#[test]
fn a_copy_is_deep() {
    let mut inner = Expression::new_list();
    inner.push(Expression::new_number("1".to_string())).unwrap();
    let mut list = Expression::new_list();
    list.push(inner).unwrap();
    let copy = list.clone();
    list.push(Expression::new_symbol("x".to_string())).unwrap();
    assert_eq!(copy.len(), 1);
    assert_eq!(list.len(), 2);
    assert_eq!(format!("{:?}", copy.get_value().clone()), format!("{:?}", copy.get_value()));
    match copy.get_value() {
        ExpressionType::List(items) => assert_eq!(items[0].len(), 1),
        ExpressionType::Atom(_) => panic!("a list was expected"),
    }
}
