use galeon_engine::resource::{Resources, TypeKey};

const I32: TypeKey = 1;
const U32: TypeKey = 2;
const F64: TypeKey = 3;

#[test]
fn insert_and_get() {
    let mut res: Resources<i64> = Resources::new();
    res.insert(I32, 42);
    assert_eq!(*res.get(I32), 42);
}

#[test]
fn get_mut() {
    let mut res: Resources<i64> = Resources::new();
    res.insert(U32, 10);
    *res.get_mut(U32) = 20;
    assert_eq!(*res.get(U32), 20);
}

#[test]
fn overwrite() {
    let mut res: Resources<i64> = Resources::new();
    res.insert(I32, 1);
    res.insert(I32, 2);
    assert_eq!(*res.get(I32), 2);
}

#[test]
fn try_get_missing_returns_none() {
    let res: Resources<i64> = Resources::new();
    assert!(res.try_get(F64).is_none());
}

#[test]
fn contains() {
    let mut res: Resources<i64> = Resources::new();
    assert!(!res.contains(I32));
    res.insert(I32, 1);
    assert!(res.contains(I32));
}

#[test]
fn take_removes_resource() {
    let mut res: Resources<i64> = Resources::new();
    res.insert(I32, 5);
    res.insert(U32, 6);
    assert_eq!(res.take(I32), 5);
    assert!(!res.contains(I32));
    assert_eq!(res.try_take(I32), None);
    assert_eq!(res.try_take(U32), Some(6));
    assert!(!res.contains(U32));
}
