use orderbook::ledger::PriceLevelLedger;
use orderbook::ledger::Side;

#[test]
fn upsert_zero_on_absent_price_is_noop() {
    let mut l = PriceLevelLedger::new(Side::Ask);
    l.upsert(1100, 3);
    l.upsert(950, 0);
    assert_eq!(l.get(950), None);
    assert_eq!(l.get(1100), Some(3));
    assert_eq!(l.best(), Some((1100, 3)));
}

#[test]
fn upsert_zero_on_empty_ledger_is_noop() {
    let mut l = PriceLevelLedger::new(Side::Bid);
    l.upsert(1000, 0);
    assert_eq!(l.best(), None);
    assert_eq!(l.get(1000), None);
}

#[test]
fn repeated_upsert_replaces_quantity() {
    let mut l = PriceLevelLedger::new(Side::Ask);
    l.upsert(1000, 5);
    l.upsert(1000, 9);
    assert_eq!(l.get(1000), Some(9));
    assert_eq!(l.best(), Some((1000, 9)));
    // One removal leaves nothing behind: the second upsert replaced the
    // level, it did not duplicate it.
    l.upsert(1000, 0);
    assert_eq!(l.get(1000), None);
    assert_eq!(l.best(), None);
}

#[test]
fn best_ask_is_minimum_price() {
    let mut l = PriceLevelLedger::new(Side::Ask);
    l.upsert(1200, 1);
    l.upsert(1000, 2);
    l.upsert(1100, 3);
    assert_eq!(l.best(), Some((1000, 2)));
    l.upsert(1000, 0);
    assert_eq!(l.best(), Some((1100, 3)));
    l.upsert(1100, 0);
    assert_eq!(l.best(), Some((1200, 1)));
}

#[test]
fn best_bid_is_maximum_price() {
    let mut l = PriceLevelLedger::new(Side::Bid);
    l.upsert(900, 1);
    l.upsert(1000, 2);
    l.upsert(950, 3);
    assert_eq!(l.best(), Some((1000, 2)));
    l.upsert(1000, 0);
    assert_eq!(l.best(), Some((950, 3)));
}

#[test]
fn best_of_empty_ledger_is_none() {
    let l = PriceLevelLedger::new(Side::Ask);
    assert_eq!(l.best(), None);
}

#[test]
fn clear_empties_the_ledger() {
    let mut l = PriceLevelLedger::new(Side::Bid);
    l.upsert(1000, 5);
    l.upsert(990, 4);
    l.clear();
    assert_eq!(l.best(), None);
    assert_eq!(l.get(1000), None);
    assert_eq!(l.get(990), None);
}

#[test]
fn many_levels_stay_consistent() {
    let mut l = PriceLevelLedger::new(Side::Ask);
    for p in [1500u64, 1100, 1300, 1000, 1400, 1200] {
        l.upsert(p, p + 1);
    }
    assert_eq!(l.best(), Some((1000, 1001)));
    for p in [1000u64, 1100, 1200, 1300, 1400, 1500] {
        assert_eq!(l.get(p), Some(p + 1));
    }
    l.upsert(1000, 0);
    l.upsert(1100, 0);
    assert_eq!(l.best(), Some((1200, 1201)));
}
