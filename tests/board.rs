use crypto_tracker::input::{Event, KeyCode, KeyEvent, KeyEventKind, CONTROL};
use crypto_tracker::price::Price;
use crypto_tracker::tracker::{default_coins, App, CoinConfig, DisplayColor, FETCH_INTERVAL_MS};

fn coin(symbol: &str, precision: usize) -> CoinConfig {
    CoinConfig {
        symbol: symbol.to_string(),
        display_name: symbol.to_string(),
        color: DisplayColor::White,
        precision,
    }
}

fn key(code: KeyCode, modifiers: u8, kind: KeyEventKind) -> Event {
    Event::Key(KeyEvent { code, modifiers, kind })
}

fn press(code: KeyCode) -> Event {
    key(code, 0, KeyEventKind::Press)
}

#[test]
fn starts_running_with_zero_prices() {
    let app = App::new();
    assert!(app.is_running());
    assert_eq!(app.coin_configs().len(), 10);
    for c in app.coin_configs() {
        assert_eq!(app.price(&c.symbol), Price::zero());
    }
}

#[test]
fn default_coins_are_in_display_order() {
    let coins = default_coins();
    let symbols: Vec<&str> = coins.iter().map(|c| c.symbol.as_str()).collect();
    assert_eq!(
        symbols,
        vec![
            "BTCUSDT", "ETHUSDT", "BNBUSDT", "UNIUSDT", "TONUSDT", "SOLUSDT", "XRPUSDT",
            "DOGEUSDT", "TONUSDT", "ADAUSDT"
        ]
    );
    assert_eq!(coins[7].display_name, "DOGE/USDT");
    assert_eq!(coins[7].color, DisplayColor::LightYellow);
    assert_eq!(coins[7].precision, 6);
}

#[test]
fn coin_config_default() {
    let c = CoinConfig::default();
    assert_eq!(c.symbol, "");
    assert_eq!(c.display_name, "");
    assert_eq!(c.color, DisplayColor::White);
    assert_eq!(c.precision, 2);
}

#[test]
fn esc_quits() {
    let mut app = App::new();
    app.handle_event(press(KeyCode::Esc));
    assert!(!app.is_running());
}

#[test]
fn q_quits() {
    let mut app = App::new();
    app.handle_event(press(KeyCode::Char('q')));
    assert!(!app.is_running());
}

#[test]
fn control_c_quits() {
    let mut app = App::new();
    app.handle_event(key(KeyCode::Char('c'), CONTROL, KeyEventKind::Press));
    assert!(!app.is_running());
    let mut app = App::new();
    app.handle_event(key(KeyCode::Char('C'), CONTROL, KeyEventKind::Press));
    assert!(!app.is_running());
}

#[test]
fn other_keys_do_not_quit() {
    let mut app = App::new();
    app.handle_event(press(KeyCode::Char('c')));
    app.handle_event(press(KeyCode::Char('x')));
    app.handle_event(press(KeyCode::Other));
    app.handle_event(key(KeyCode::Char('c'), CONTROL | 0b1, KeyEventKind::Press));
    app.handle_event(Event::Mouse);
    app.handle_event(Event::Resize(80, 24));
    app.handle_event(Event::Other);
    assert!(app.is_running());
}

#[test]
fn key_release_is_ignored() {
    let mut app = App::new();
    app.handle_event(key(KeyCode::Char('q'), 0, KeyEventKind::Release));
    assert!(app.is_running());
    app.handle_event(key(KeyCode::Esc, 0, KeyEventKind::Release));
    assert!(app.is_running());
}

#[test]
fn quit_is_final() {
    let mut app = App::new();
    app.quit();
    app.handle_event(press(KeyCode::Char('x')));
    assert!(!app.is_running());
}

#[test]
fn fetch_waits_for_a_full_interval() {
    let mut app = App::new();
    let mut fetches = 0;
    // ten loop iterations, 20 ms apart, all before the first second
    let mut now: u64 = 0;
    for _ in 0..10 {
        if app.fetch_due(now) {
            fetches += 1;
            app.mark_fetched(now);
        }
        now += 20;
    }
    assert_eq!(fetches, 0);
    assert!(app.fetch_due(FETCH_INTERVAL_MS));
}

#[test]
fn fetch_at_most_once_per_interval() {
    let mut app = App::new();
    let mut fetches = 0;
    let mut now: u64 = 0;
    while now < 3000 {
        if app.fetch_due(now) {
            fetches += 1;
            app.mark_fetched(now);
        }
        now += 50;
    }
    assert_eq!(fetches, 2);
    app.mark_fetched(5000);
    assert!(!app.fetch_due(5999));
    assert!(app.fetch_due(6000));
}

#[test]
fn failed_fetch_leaves_price_and_others_update() {
    let mut app = App::with_coins(vec![coin("AUSDT", 2), coin("BUSDT", 2)]);
    app.apply_fetch(&vec![Some(Price::new(10, 0).unwrap()), None]);
    app.apply_fetch(&vec![None, Some(Price::new(425, 1).unwrap())]);
    assert_eq!(app.price("AUSDT"), Price::new(10, 0).unwrap());
    assert_eq!(app.price("BUSDT"), Price::new(425, 1).unwrap());
}

#[test]
fn never_fetched_symbol_stays_zero() {
    let mut app = App::with_coins(vec![coin("AUSDT", 2), coin("BUSDT", 2)]);
    app.apply_fetch(&vec![None, Some(Price::new(425, 1).unwrap())]);
    app.apply_fetch(&vec![None, None]);
    assert_eq!(app.price("AUSDT"), Price::zero());
    assert_eq!(app.price_text(0), "$0.00");
}

#[test]
fn lines_show_label_and_price() {
    let mut app = App::with_coins(vec![
        CoinConfig {
            symbol: "BTCUSDT".to_string(),
            display_name: "BTC/USDT".to_string(),
            color: DisplayColor::Green,
            precision: 2,
        },
        coin("XRPUSDT", 4),
    ]);
    app.apply_fetch(&vec![Some(Price::new(12345, 1).unwrap()), Some(Price::new(12345, 1).unwrap())]);
    assert_eq!(app.label_text(0), "BTC/USDT:  ");
    assert_eq!(app.price_text(0), "$1234.50");
    assert_eq!(app.price_text(1), "$1234.5000");
}

#[test]
fn quit_key_anywhere_in_a_run_stops() {
    for pos in 0..3 {
        let mut app = App::new();
        for j in 0..3 {
            let code = if j == pos { KeyCode::Esc } else { KeyCode::Char('a') };
            app.on_key_event(KeyEvent { code, modifiers: 0, kind: KeyEventKind::Press });
        }
        assert!(!app.is_running());
    }
}

#[test]
fn same_cycle_twice_equals_once() {
    let results = vec![Some(Price::new(425, 1).unwrap()), None];
    let mut app = App::with_coins(vec![coin("AUSDT", 2), coin("BUSDT", 2)]);
    app.apply_fetch(&results);
    app.apply_fetch(&results);
    assert_eq!(app.price("AUSDT"), Price::new(425, 1).unwrap());
    assert_eq!(app.price("BUSDT"), Price::zero());
}

#[test]
fn later_cycle_wins() {
    let mut app = App::with_coins(vec![coin("AUSDT", 2), coin("BUSDT", 2), coin("CUSDT", 2)]);
    app.apply_fetch(&vec![Some(Price::new(1, 0).unwrap()), Some(Price::new(2, 0).unwrap()), None]);
    app.apply_fetch(&vec![Some(Price::new(3, 0).unwrap()), None, None]);
    assert_eq!(app.price("AUSDT"), Price::new(3, 0).unwrap());
    assert_eq!(app.price("BUSDT"), Price::new(2, 0).unwrap());
    assert_eq!(app.price("CUSDT"), Price::zero());
}
