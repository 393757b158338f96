use rune_core::datalog::lattice::{
    BoolLattice, CounterLattice, Lattice, LatticeValue, MaxLattice, MinLattice, SetLattice,
};
use rune_core::types::Value;

#[test]
fn test_max_lattice() {
    let a = MaxLattice::new(5);
    let b = MaxLattice::new(10);
    let c = a.join(&b);
    assert_eq!(c.value(), &10);

    // Commutative
    assert_eq!(a.join(&b), b.join(&a));

    // Idempotent
    assert_eq!(a.join(&a), a);

    // Partial order
    assert!(a.less_than_or_equal(&c));
    assert!(b.less_than_or_equal(&c));
}

#[test]
fn test_min_lattice() {
    let a = MinLattice::new(5);
    let b = MinLattice::new(10);
    let c = a.join(&b);
    assert_eq!(c.value(), &5);

    // Commutative
    assert_eq!(a.join(&b), b.join(&a));

    // Idempotent
    assert_eq!(a.join(&a), a);
}

#[test]
fn test_set_lattice() {
    let a = SetLattice::from_iter(vec![1, 2, 3]);
    let b = SetLattice::from_iter(vec![3, 4, 5]);
    let c = a.join(&b);

    assert_eq!(c.len(), 5);
    assert!(c.contains(&1));
    assert!(c.contains(&5));

    // Commutative
    assert_eq!(a.join(&b), b.join(&a));

    // Idempotent
    assert_eq!(a.join(&a), a);

    // Bottom
    let bottom = SetLattice::<i32>::bottom().unwrap();
    assert!(bottom.is_empty());
    assert_eq!(a.join(&bottom), a);
}

#[test]
fn test_counter_lattice() {
    let a = CounterLattice::new(5);
    let b = CounterLattice::new(10);
    let c = a.join(&b);
    assert_eq!(c.count(), 15);

    // Commutative
    assert_eq!(a.join(&b), b.join(&a));

    // Bottom
    let bottom = CounterLattice::bottom().unwrap();
    assert_eq!(bottom.count(), 0);
    assert_eq!(a.join(&bottom), a);
}

#[test]
fn test_bool_lattice() {
    let t = BoolLattice::new(true);
    let f = BoolLattice::new(false);

    assert_eq!(t.join(&f).value(), true);
    assert_eq!(f.join(&f).value(), false);

    // Commutative
    assert_eq!(t.join(&f), f.join(&t));

    // Idempotent
    assert_eq!(t.join(&t), t);

    // Bottom
    let bottom = BoolLattice::bottom().unwrap();
    assert!(!bottom.value());
}

#[test]
fn test_lattice_value_max() {
    let a = LatticeValue::max(5);
    let b = LatticeValue::max(10);
    let c = a.join(&b).unwrap();

    assert_eq!(c, LatticeValue::max(10));
    assert!(a.less_than_or_equal(&c));
}

#[test]
fn test_lattice_value_set() {
    let a = LatticeValue::set(vec![Value::Integer(1), Value::Integer(2)]);
    let b = LatticeValue::set(vec![Value::Integer(2), Value::Integer(3)]);
    let c = a.join(&b).unwrap();

    if let LatticeValue::Values(s) = c {
        assert_eq!(s.len(), 3);
    } else {
        panic!("Expected Set");
    }
}

#[test]
fn test_lattice_value_counter() {
    let a = LatticeValue::counter(5);
    let b = LatticeValue::counter(10);
    let c = a.join(&b).unwrap();

    assert_eq!(c, LatticeValue::counter(15));
}

#[test]
fn test_lattice_value_incompatible() {
    let a = LatticeValue::max(5);
    let b = LatticeValue::min(10);
    assert!(a.join(&b).is_none());
}

#[test]
fn test_lattice_associativity() {
    let a = MaxLattice::new(3);
    let b = MaxLattice::new(7);
    let c = MaxLattice::new(5);

    // (a ⊔ b) ⊔ c = a ⊔ (b ⊔ c)
    assert_eq!(a.join(&b).join(&c), a.join(&b.join(&c)));
}

#[test]
fn lattice_counter_saturates() {
    let a = CounterLattice::new(u64::MAX - 1);
    let b = CounterLattice::new(5);
    assert_eq!(a.join(&b).count(), u64::MAX);
    let mut c = CounterLattice::new(u64::MAX);
    c.increment();
    assert_eq!(c.count(), u64::MAX);
    let mut d = CounterLattice::new(1);
    d.add(2);
    assert_eq!(d.count(), 3);
    // Joining a counter with itself doubles it: the join is not idempotent here.
    assert_eq!(d.join(&d).count(), 6);
}

#[test]
fn lattice_set_iterates_in_order() {
    let s = SetLattice::from_iter(vec![5, 1, 3, 1]);
    assert_eq!(s.iter(), vec![1, 3, 5]);
    assert!(SetLattice::from_iter(vec![1, 3]).less_than_or_equal(&s));
    assert!(!s.less_than_or_equal(&SetLattice::from_iter(vec![1, 3])));
}

#[test]
fn lattice_value_order_and_storage() {
    assert!(LatticeValue::min(10).less_than_or_equal(&LatticeValue::min(5)));
    assert!(!LatticeValue::max(10).less_than_or_equal(&LatticeValue::min(10)));
    assert_eq!(LatticeValue::counter(7).to_value(), Value::Integer(7));
    assert_eq!(LatticeValue::bool(true).to_value(), Value::Bool(true));
    let v = LatticeValue::set(vec![Value::Integer(1), Value::Integer(1)]).to_value();
    assert_eq!(v, Value::array(vec![Value::Integer(1)]));
}
