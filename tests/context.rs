use yjit::context::{Context, Type};

fn one(t: Type) -> Context {
    Context::from_types(Type::Unknown, vec![t])
}

#[test]
fn type_lattice() {
    assert!(Type::Unknown.generalizes(Type::Fixnum));
    assert!(Type::UnknownImm.generalizes(Type::Nil));
    assert!(!Type::UnknownImm.generalizes(Type::Str));
    assert!(Type::UnknownHeap.generalizes(Type::Array));
    assert!(!Type::UnknownHeap.generalizes(Type::Unknown));
    assert!(!Type::Fixnum.generalizes(Type::Str));
    assert!(Type::Str.generalizes(Type::Str));
}

#[test]
fn context_generalization_and_distance() {
    let u = one(Type::Unknown);
    let i = one(Type::Fixnum);
    let s = one(Type::Str);
    assert!(u.generalizes(&i));
    assert!(!i.generalizes(&u));
    assert!(!i.generalizes(&s));
    assert!(!u.generalizes(&Context::new()));
    assert_eq!(u.diff(&i), 1);
    assert_eq!(i.diff(&i), 0);
    let g = Context::from_types(Type::Array, vec![Type::Fixnum, Type::Str]).generic();
    assert!(g.same_as(&Context::from_types(Type::Unknown, vec![Type::Unknown, Type::Unknown])));
}

#[test]
fn context_updates() {
    let mut c = Context::new();
    c.stack_push(Type::Unknown);
    c.stack_push(Type::UnknownHeap);
    c.upgrade_temp(0, Type::Fixnum);
    c.upgrade_temp(1, Type::Fixnum);
    assert_eq!(c.get_temp(0), Type::Fixnum);
    assert_eq!(c.get_temp(1), Type::UnknownHeap);
    c.clear_temp(0);
    assert_eq!(c.get_temp(0), Type::Unknown);
    c.upgrade_self_type(Type::UnknownHeap);
    assert_eq!(c.get_self_type(), Type::UnknownHeap);
    c.stack_pop(1);
    assert_eq!(c.stack_size(), 1);
    assert!(c.duplicate().same_as(&c));
}
