use runes::edict::Edict;
use runes::rune_id::RuneId;

fn id(block: u64, tx: u32) -> RuneId {
    RuneId { block, tx }
}

#[test]
fn delta_within_a_block() {
    assert_eq!(id(1, 2).delta(id(1, 5)), Some((0, 3)));
    assert_eq!(id(1, 2).delta(id(1, 2)), Some((0, 0)));
}

#[test]
fn delta_across_blocks() {
    assert_eq!(id(1, 2).delta(id(2, 0)), Some((1, 0)));
    assert_eq!(id(3, 1).delta(id(4, 2)), Some((1, 2)));
    assert_eq!(id(0, 0).delta(id(u64::MAX, u32::MAX)), Some((u64::MAX.into(), u32::MAX.into())));
}

#[test]
fn delta_backwards_fails() {
    assert_eq!(id(2, 0).delta(id(1, 5)), None);
    assert_eq!(id(1, 5).delta(id(1, 4)), None);
}

#[test]
fn next_undoes_delta() {
    for (a, b) in [(id(1, 2), id(1, 5)), (id(1, 2), id(2, 0)), (id(0, 0), id(7, 9)), (id(4, 4), id(4, 4))] {
        let (block, tx) = a.delta(b).unwrap();
        assert_eq!(a.next(block, tx), Some(b));
    }
}

#[test]
fn next_steps() {
    assert_eq!(id(1, 2).next(0, 3), Some(id(1, 5)));
    assert_eq!(id(1, 2).next(1, 0), Some(id(2, 0)));
    assert_eq!(id(1, 2).next(1, 7), Some(id(2, 7)));
    assert_eq!(id(0, 0).next(0, 0), Some(id(0, 0)));
}

#[test]
fn next_out_of_range() {
    assert_eq!(id(1, 2).next(u128::from(u64::MAX), 0), None);
    assert_eq!(id(1, 2).next(u128::from(u64::MAX) + 1, 0), None);
    assert_eq!(id(1, 2).next(0, u128::from(u32::MAX)), None);
    assert_eq!(id(1, 2).next(1, u128::from(u32::MAX) + 1), None);
    assert_eq!(id(1, 0).next(0, u128::from(u32::MAX)), Some(id(1, u32::MAX)));
}

#[test]
fn next_in_block_zero() {
    assert_eq!(id(0, 0).next(0, 1), None);
    assert_eq!(id(0, 0).next(1, 1), Some(id(1, 1)));
}

#[test]
fn new_refuses_transactions_of_block_zero() {
    assert_eq!(RuneId::new(0, 0), Some(id(0, 0)));
    assert_eq!(RuneId::new(0, 1), None);
    assert_eq!(RuneId::new(1, 0), Some(id(1, 0)));
    assert_eq!(RuneId::new(1, 1), Some(id(1, 1)));
}

#[test]
fn identifiers_are_ordered_by_block_then_transaction() {
    assert!(id(1, 2).le(id(1, 2)));
    assert!(id(1, 2).le(id(1, 3)));
    assert!(id(1, 9).le(id(2, 0)));
    assert!(!id(2, 0).le(id(1, 9)));
    assert!(!id(1, 3).le(id(1, 2)));
    assert!(id(1, 9) < id(2, 0));
    assert!(id(1, 2) < id(1, 3));
    assert_eq!(RuneId::default(), id(0, 0));
}

#[test]
fn edicts_from_integers() {
    assert_eq!(
        Edict::from_integers(id(1, 1), 5, 0),
        Some(Edict { id: id(1, 1), amount: 5, output: 0 }),
    );
    assert_eq!(
        Edict::from_integers(id(1, 1), u128::MAX, u128::from(u32::MAX)),
        Some(Edict { id: id(1, 1), amount: u128::MAX, output: u32::MAX }),
    );
    assert_eq!(Edict::from_integers(id(1, 1), 5, u128::from(u32::MAX) + 1), None);
    assert_eq!(Edict::default(), Edict { id: id(0, 0), amount: 0, output: 0 });
}
