use kademlia_dht::fixed_vec::FixedVec;

#[test]
fn push() {
    let mut fvec = FixedVec::new();

    fvec.push("a");
    fvec.push("b");

    assert_eq!("a", fvec.as_slice()[0]);
    assert_eq!("b", fvec.as_slice()[1]);

    fvec.push("c");

    assert_eq!("a", fvec.as_slice()[0]);
    assert_eq!("b", fvec.as_slice()[1]);
    assert_eq!("c", fvec.as_slice()[2]);
}

#[test]
fn append() {
    let mut other = FixedVec::new();
    other.push("a");
    other.push("b");
    other.push("c");

    let mut fvec = FixedVec::new();
    fvec.append(other);

    assert_eq!("a", fvec.as_slice()[0]);
    assert_eq!("b", fvec.as_slice()[1]);
    assert_eq!("c", fvec.as_slice()[2]);
}

#[test]
fn append_vec() {
    let mut fvec = FixedVec::new();

    let vec = vec!["a", "b", "c"];
    fvec.append_vec(vec);

    assert_eq!("a", fvec.as_slice()[0]);
    assert_eq!("b", fvec.as_slice()[1]);
    assert_eq!("c", fvec.as_slice()[2]);
}

#[test]
fn len_and_full() {
    let mut fvec = FixedVec::new();
    assert_eq!(0, fvec.len());
    assert_eq!(8, fvec.empty_slots());
    assert!(fvec.is_not_full());

    fvec.append_vec(vec!["a", "b"]);

    assert_eq!(2, fvec.len());
    assert_eq!(6, fvec.empty_slots());
    assert!(fvec.is_not_full());

    fvec.append_vec(vec!["c", "d", "e", "f", "g", "h"]);

    assert_eq!(8, fvec.len());
    assert_eq!(0, fvec.empty_slots());
    assert!(fvec.is_full());
}

#[test]
fn iter() {
    let mut fvec = FixedVec::new();

    fvec.push("a");
    fvec.push("b");
    fvec.push("c");

    let vec: Vec<_> = fvec.iter().collect();

    assert_eq!(3, vec.len());
    assert_eq!(&"a", vec[0]);
    assert_eq!(&"b", vec[1]);
    assert_eq!(&"c", vec[2]);
}

#[test]
fn swap_remove() {
    let mut fvec = FixedVec::new();

    fvec.push("a");
    fvec.push("b");
    fvec.push("c");

    fvec.swap_remove(0);
    assert_eq!(2, fvec.len());
    assert_eq!("c", fvec.as_slice()[0]);
    assert_eq!("b", fvec.as_slice()[1]);

    fvec.swap_remove(1);
    assert_eq!(1, fvec.len());
    assert_eq!("c", fvec.as_slice()[0]);
}

#[test]
fn append_after_existing_items() {
    let mut fvec = FixedVec::new();
    fvec.push(1);
    let mut other = FixedVec::new();
    other.push(2);
    other.push(3);
    fvec.append(other);
    assert_eq!(&[1, 2, 3][..], fvec.as_slice());
    fvec.set(0, 9);
    assert_eq!(9, *fvec.get(0));
}
