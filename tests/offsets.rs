use kino::offset::{Offset, Offset2, Smt2Offset};

fn one(n: usize) -> Smt2Offset {
    Smt2Offset::One(Offset::of_int(n))
}

fn two(a: usize, b: usize) -> Smt2Offset {
    Smt2Offset::Two(Offset::of_int(a), Offset::of_int(b))
}

#[test]
fn merge_table() {
    assert_eq!(Smt2Offset::No.merge(&one(3)), Some(one(3)));
    assert_eq!(one(1).merge(&one(1)), Some(one(1)));
    assert_eq!(one(1).merge(&one(2)), Some(two(1, 2)));
    assert_eq!(one(2).merge(&one(1)), Some(two(1, 2)));
    assert_eq!(two(1, 2).merge(&one(1)), Some(two(1, 2)));
    assert_eq!(one(2).merge(&two(1, 2)), Some(two(1, 2)));
    assert_eq!(two(1, 2).merge(&one(3)), None);
    assert_eq!(two(1, 2).merge(&two(3, 4)), None);
    assert_eq!(two(1, 2).merge(&two(1, 2)), Some(two(1, 2)));
    assert_eq!(two(1, 2).merge(&Smt2Offset::No), Some(two(1, 2)));
}

#[test]
fn offsets_count_up() {
    let o = Offset::of_bytes(b"42");
    assert_eq!(o.to_int(), 42);
    assert_eq!(o.nxt().to_int(), 43);
    assert_eq!(Offset::of_int(7).to_int(), 7);
    let k = Offset2::init();
    assert_eq!(k.curr().to_int(), 0);
    assert_eq!(k.next().to_int(), 1);
    let k = k.nxt().nxt();
    assert_eq!(k.curr().to_int(), 2);
    assert_eq!(k.next().to_int(), 3);
}

#[test]
fn spans_of_offsets() {
    assert_eq!(Smt2Offset::of_opt(None), Smt2Offset::No);
    assert_eq!(Smt2Offset::of_opt(Some(Offset::of_int(4))), one(4));
    assert!(one(2).is_next_of(&two(1, 2)));
    assert!(!one(1).is_next_of(&two(1, 2)));
    assert!(!two(1, 2).is_next_of(&two(1, 2)));
}
