use crypto_tracker::price::Price;
use crypto_tracker::store::PriceStore;

fn price(units: i64, scale: u8) -> Price {
    Price::new(units, scale).unwrap()
}

#[test]
fn unknown_symbol_reads_zero() {
    let store = PriceStore::empty();
    assert_eq!(store.get("BTCUSDT"), Price::zero());
}

#[test]
fn get_after_update_is_exact() {
    let mut store = PriceStore::empty();
    store.update("BTCUSDT", price(6723412, 2));
    assert_eq!(store.get("BTCUSDT"), price(6723412, 2));
    assert_eq!(store.get("ETHUSDT"), Price::zero());
}

#[test]
fn repeated_update_is_idempotent() {
    let mut store = PriceStore::empty();
    store.update("ETHUSDT", price(3100, 0));
    store.update("ETHUSDT", price(3100, 0));
    assert_eq!(store.get("ETHUSDT"), price(3100, 0));
}

#[test]
fn last_update_wins() {
    let mut store = PriceStore::empty();
    store.update("ETHUSDT", price(3100, 0));
    store.update("ETHUSDT", price(30995, 1));
    assert_eq!(store.get("ETHUSDT"), price(30995, 1));
}

#[test]
fn accepts_zero_and_negative_prices() {
    let mut store = PriceStore::empty();
    store.update("A", price(-5, 0));
    store.update("B", Price::zero());
    assert_eq!(store.get("A"), price(-5, 0));
    assert_eq!(store.get("B"), Price::zero());
}
