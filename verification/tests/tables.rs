use jigsaw_doubler::literal::Literal;
use jigsaw_doubler::tables::{MatchingVars, TableVars};

#[test]
fn table_tells_the_order_of_a_pair() {
    let mut table = TableVars::new();
    let a = Literal::positive(1);
    let b = Literal::positive(2);
    assert_eq!(table.get(3, 4), None);
    table.put(3, 4, a);
    table.put(4, 3, b);
    table.put(0, 0, !a);
    assert_eq!(table.get(3, 4), Some(a));
    assert_eq!(table.get(4, 3), Some(b));
    assert_eq!(table.get(0, 0), Some(!a));
    assert_eq!(table.get(0, 3), None);
    assert_eq!(table.get(3, 0), None);
}

#[test]
fn table_keeps_apart_pairs_with_the_same_sum() {
    let mut table = TableVars::new();
    for a in 0..20 {
        for b in 0..20 {
            table.put(a, b, Literal::positive((a * 20 + b + 1) as u32));
        }
    }
    for a in 0..20 {
        for b in 0..20 {
            assert_eq!(table.get(a, b), Some(Literal::positive((a * 20 + b + 1) as u32)));
        }
    }
    assert_eq!(table.get(20, 0), None);
    assert_eq!(table.get(usize::MAX, 0), None);
}

#[test]
fn matching_table_does_not_tell_the_order() {
    let mut table = MatchingVars::new();
    let a = Literal::positive(1);
    let b = Literal::positive(2);
    assert_eq!(MatchingVars::key(3, 4), (3, 4));
    assert_eq!(MatchingVars::key(4, 3), (3, 4));
    assert_eq!(MatchingVars::key(5, 5), (5, 5));
    table.put(4, 3, a);
    table.put(1, 7, b);
    assert_eq!(table.get(3, 4), Some(a));
    assert_eq!(table.get(4, 3), Some(a));
    assert_eq!(table.get(7, 1), Some(b));
    assert_eq!(table.get(3, 7), None);
    table.put(6, 6, Literal::False);
    assert_eq!(table.get(6, 6), Some(Literal::False));
}
