use vstd::prelude::*;
use vstd::string::*;
use crate::input::{asks_to_quit, is_quit_key, quit_key, Event, KeyEvent, KeyEventKind};
use crate::market::{fetch_price_text, MarketClient};
use crate::price::{parse_price, Price};
use crate::store::{price_in, zero_price, PriceStore};

verus! {

/// Milliseconds between two fetch cycles.
pub const FETCH_INTERVAL_MS: u64 = 1000;

/// Colour a coin's price is drawn in.
#[derive(Clone, Copy, Debug, PartialEq, Eq, Structural)]
pub enum DisplayColor {
    Reset,
    Black,
    Red,
    Green,
    Yellow,
    Blue,
    Magenta,
    Cyan,
    Gray,
    DarkGray,
    LightRed,
    LightGreen,
    LightYellow,
    LightBlue,
    LightMagenta,
    LightCyan,
    White,
}

/// How one trading pair is fetched and shown.
#[derive(Clone, Debug)]
pub struct CoinConfig {
    /// Exchange ticker, such as "BTCUSDT".
    pub symbol: String,
    /// Label shown before the price.
    pub display_name: String,
    pub color: DisplayColor,
    /// Number of fractional digits shown.
    pub precision: usize,
}

impl Default for CoinConfig {
    fn default() -> (r: CoinConfig)
        ensures
            r.symbol@ == Seq::<char>::empty(),
            r.display_name@ == Seq::<char>::empty(),
            r.color == DisplayColor::White,
            r.precision == 2,
    {
        CoinConfig {
            symbol: String::new(),
            display_name: String::new(),
            color: DisplayColor::White,
            precision: 2,
        }
    }
}

pub open spec fn symbols_of(configs: Seq<CoinConfig>) -> Seq<Seq<char>> {
    configs.map_values(|c: CoinConfig| c.symbol@)
}

/// Every configured symbol at price zero.
pub open spec fn initial_prices(symbols: Seq<Seq<char>>) -> Map<Seq<char>, Price> {
    Map::new(|k: Seq<char>| symbols.contains(k), |k: Seq<char>| zero_price())
}

/// The prices after the first `n` outcomes of a fetch cycle, taken in order:
/// a price that came back overwrites the symbol's price, a failure leaves it.
pub open spec fn after_fetch(
    m: Map<Seq<char>, Price>,
    symbols: Seq<Seq<char>>,
    results: Seq<Option<Price>>,
    n: nat,
) -> Map<Seq<char>, Price>
    decreases n,
{
    if n == 0 {
        m
    } else {
        let prev = after_fetch(m, symbols, results, (n - 1) as nat);
        match results[n - 1] {
            Some(p) => prev.insert(symbols[n - 1], p),
            None => prev,
        }
    }
}

/// A fetch is due once the interval has passed since the last one.
pub open spec fn fetch_due_at(last_fetch_ms: nat, now_ms: nat) -> bool {
    now_ms >= last_fetch_ms + FETCH_INTERVAL_MS
}

pub open spec fn coin_is(
    c: CoinConfig,
    symbol: Seq<char>,
    display_name: Seq<char>,
    color: DisplayColor,
    precision: usize,
) -> bool {
    c.symbol@ == symbol && c.display_name@ == display_name && c.color == color && c.precision
        == precision
}

/// The trading pairs the board shows unless told otherwise.
pub open spec fn is_default_coin_list(s: Seq<CoinConfig>) -> bool {
    &&& s.len() == 10
    &&& coin_is(s[0], "BTCUSDT"@, "BTC/USDT"@, DisplayColor::Green, 2)
    &&& coin_is(s[1], "ETHUSDT"@, "ETH/USDT"@, DisplayColor::Blue, 2)
    &&& coin_is(s[2], "BNBUSDT"@, "BNB/USDT"@, DisplayColor::Yellow, 2)
    &&& coin_is(s[3], "UNIUSDT"@, "UNI/USDT"@, DisplayColor::Cyan, 2)
    &&& coin_is(s[4], "TONUSDT"@, "TON/USDT"@, DisplayColor::Cyan, 2)
    &&& coin_is(s[5], "SOLUSDT"@, "SOL/USDT"@, DisplayColor::Cyan, 2)
    &&& coin_is(s[6], "XRPUSDT"@, "XRP/USDT"@, DisplayColor::Magenta, 4)
    &&& coin_is(s[7], "DOGEUSDT"@, "DOGE/USDT"@, DisplayColor::LightYellow, 6)
    &&& coin_is(s[8], "TONUSDT"@, "TON/USDT"@, DisplayColor::LightBlue, 4)
    &&& coin_is(s[9], "ADAUSDT"@, "ADA/USDT"@, DisplayColor::LightCyan, 4)
}

fn coin(symbol: &str, display_name: &str, color: DisplayColor, precision: usize) -> (r: CoinConfig)
    ensures
        coin_is(r, symbol@, display_name@, color, precision),
{
    CoinConfig {
        symbol: String::from_str(symbol),
        display_name: String::from_str(display_name),
        color,
        precision,
    }
}

/// The default trading pairs, in display order.
pub fn default_coins() -> (r: Vec<CoinConfig>)
    ensures
        is_default_coin_list(r@),
{
    let mut v: Vec<CoinConfig> = Vec::new();
    v.push(coin("BTCUSDT", "BTC/USDT", DisplayColor::Green, 2));
    v.push(coin("ETHUSDT", "ETH/USDT", DisplayColor::Blue, 2));
    v.push(coin("BNBUSDT", "BNB/USDT", DisplayColor::Yellow, 2));
    v.push(coin("UNIUSDT", "UNI/USDT", DisplayColor::Cyan, 2));
    v.push(coin("TONUSDT", "TON/USDT", DisplayColor::Cyan, 2));
    v.push(coin("SOLUSDT", "SOL/USDT", DisplayColor::Cyan, 2));
    v.push(coin("XRPUSDT", "XRP/USDT", DisplayColor::Magenta, 4));
    v.push(coin("DOGEUSDT", "DOGE/USDT", DisplayColor::LightYellow, 6));
    v.push(coin("TONUSDT", "TON/USDT", DisplayColor::LightBlue, 4));
    v.push(coin("ADAUSDT", "ADA/USDT", DisplayColor::LightCyan, 4));
    v
}

/// The state of the price board.
#[derive(Clone, Debug)]
pub struct App {
    running: bool,
    store: PriceStore,
    coin_configs: Vec<CoinConfig>,
    last_fetch_ms: u64,
}

impl App {
    pub closed spec fn wf(&self) -> bool {
        self.store.wf()
    }

    pub closed spec fn spec_running(&self) -> bool {
        self.running
    }

    pub closed spec fn spec_prices(&self) -> Map<Seq<char>, Price> {
        self.store@
    }

    pub closed spec fn spec_configs(&self) -> Seq<CoinConfig> {
        self.coin_configs@
    }

    pub closed spec fn spec_last_fetch_ms(&self) -> nat {
        self.last_fetch_ms as nat
    }

    /// A running board over `coin_configs`, each symbol at price zero. The
    /// clock starts at zero, so the first fetch comes one interval later.
    pub fn with_coins(coin_configs: Vec<CoinConfig>) -> (r: App)
        ensures
            r.wf(),
            r.spec_running(),
            r.spec_configs() == coin_configs@,
            r.spec_prices() == initial_prices(symbols_of(coin_configs@)),
            r.spec_last_fetch_ms() == 0,
    {
        let mut store = PriceStore::empty();
        let ghost syms = symbols_of(coin_configs@);
        let mut i: usize = 0;
        assert(store@ =~= initial_prices(syms.take(0)));
        while i < coin_configs.len()
            invariant
                i <= coin_configs@.len(),
                syms == symbols_of(coin_configs@),
                store.wf(),
                store@ == initial_prices(syms.take(i as int)),
            decreases coin_configs@.len() - i,
        {
            let zero = Price::zero();
            store.update(coin_configs[i].symbol.as_str(), zero);
            proof {
                let next = syms.take(i + 1);
                assert(next =~= syms.take(i as int).push(syms[i as int]));
                assert forall|k: Seq<char>| #[trigger] next.contains(k) <==> (syms.take(
                    i as int,
                ).contains(k) || k == syms[i as int]) by {
                    if next.contains(k) {
                        let j = choose|j: int| 0 <= j < next.len() && next[j] == k;
                        if j < i {
                            assert(syms.take(i as int)[j] == k);
                        }
                    }
                    if k == syms[i as int] {
                        assert(next[i as int] == k);
                    }
                    if syms.take(i as int).contains(k) {
                        let j = choose|j: int| 0 <= j < i && syms.take(i as int)[j] == k;
                        assert(next[j] == k);
                    }
                }
                assert(store@ =~= initial_prices(next));
            }
            i = i + 1;
        }
        assert(syms.take(coin_configs@.len() as int) =~= syms);
        App { running: true, store, coin_configs, last_fetch_ms: 0 }
    }

    /// A running board over the default set of trading pairs.
    pub fn new() -> (r: App)
        ensures
            r.wf(),
            r.spec_running(),
            is_default_coin_list(r.spec_configs()),
            r.spec_prices() == initial_prices(symbols_of(r.spec_configs())),
            r.spec_last_fetch_ms() == 0,
    {
        App::with_coins(default_coins())
    }

    pub fn is_running(&self) -> (r: bool)
        ensures
            r == self.spec_running(),
    {
        self.running
    }

    pub fn coin_configs(&self) -> (r: &Vec<CoinConfig>)
        ensures
            r@ == self.spec_configs(),
    {
        &self.coin_configs
    }

    /// The price the board holds for `symbol` (zero if it has none).
    pub fn price(&self, symbol: &str) -> (r: Price)
        requires
            self.wf(),
        ensures
            r == price_in(self.spec_prices(), symbol@),
            r.wf(),
    {
        self.store.get(symbol)
    }

    /// Whether a fetch cycle is due at `now_ms` (milliseconds since the
    /// board was made).
    pub fn fetch_due(&self, now_ms: u64) -> (r: bool)
        ensures
            r == fetch_due_at(self.spec_last_fetch_ms(), now_ms as nat),
    {
        now_ms >= self.last_fetch_ms && now_ms - self.last_fetch_ms >= FETCH_INTERVAL_MS
    }

    /// Records that a fetch cycle ended at `now_ms`.
    pub fn mark_fetched(&mut self, now_ms: u64)
        ensures
            final(self).spec_last_fetch_ms() == now_ms,
            final(self).spec_running() == old(self).spec_running(),
            final(self).spec_prices() == old(self).spec_prices(),
            final(self).spec_configs() == old(self).spec_configs(),
            final(self).wf() == old(self).wf(),
    {
        self.last_fetch_ms = now_ms;
    }

    /// Stops the board.
    pub fn quit(&mut self)
        ensures
            !final(self).spec_running(),
            final(self).spec_prices() == old(self).spec_prices(),
            final(self).spec_configs() == old(self).spec_configs(),
            final(self).spec_last_fetch_ms() == old(self).spec_last_fetch_ms(),
            final(self).wf() == old(self).wf(),
    {
        self.running = false;
    }

    /// Stops the board on a quit key; any other key does nothing.
    pub fn on_key_event(&mut self, key: KeyEvent)
        ensures
            final(self).spec_running() == (old(self).spec_running() && !is_quit_key(key)),
            final(self).spec_prices() == old(self).spec_prices(),
            final(self).spec_configs() == old(self).spec_configs(),
            final(self).spec_last_fetch_ms() == old(self).spec_last_fetch_ms(),
            final(self).wf() == old(self).wf(),
    {
        if quit_key(&key) {
            self.quit();
        }
    }

    /// Dispatches one input event: only a pressed key is acted on; releases,
    /// mouse and resize events are ignored.
    pub fn handle_event(&mut self, event: Event)
        ensures
            final(self).spec_running() == (old(self).spec_running() && !asks_to_quit(event)),
            final(self).spec_prices() == old(self).spec_prices(),
            final(self).spec_configs() == old(self).spec_configs(),
            final(self).spec_last_fetch_ms() == old(self).spec_last_fetch_ms(),
            final(self).wf() == old(self).wf(),
    {
        match event {
            Event::Key(key) => {
                if key.kind == KeyEventKind::Press {
                    self.on_key_event(key);
                }
            },
            Event::Mouse => {},
            Event::Resize(_, _) => {},
            Event::Other => {},
        }
    }

    /// Applies the outcomes of one fetch cycle, one per configured coin in
    /// order: a price overwrites the coin's price, a failure leaves it.
    pub fn apply_fetch(&mut self, results: &Vec<Option<Price>>)
        requires
            old(self).wf(),
            results@.len() == old(self).spec_configs().len(),
            forall|i: int| 0 <= i < results@.len() ==> (#[trigger] results@[i] matches Some(p)
                ==> p.wf()),
        ensures
            final(self).wf(),
            final(self).spec_prices() == after_fetch(
                old(self).spec_prices(),
                symbols_of(old(self).spec_configs()),
                results@,
                results@.len(),
            ),
            distinct_symbols(symbols_of(old(self).spec_configs())) ==> forall|i: int|
                0 <= i < results@.len() ==> price_in(
                    final(self).spec_prices(),
                    #[trigger] symbols_of(old(self).spec_configs())[i],
                ) == match results@[i] {
                    Some(p) => p,
                    None => price_in(old(self).spec_prices(), symbols_of(old(self).spec_configs())[i]),
                },
            final(self).spec_running() == old(self).spec_running(),
            final(self).spec_configs() == old(self).spec_configs(),
            final(self).spec_last_fetch_ms() == old(self).spec_last_fetch_ms(),
    {
        let ghost start = self.store@;
        let ghost syms = symbols_of(self.coin_configs@);
        let mut i: usize = 0;
        while i < results.len()
            invariant
                i <= results@.len(),
                results@.len() == self.coin_configs@.len(),
                forall|j: int| 0 <= j < results@.len() ==> (#[trigger] results@[j] matches Some(p)
                    ==> p.wf()),
                syms == symbols_of(self.coin_configs@),
                self.store.wf(),
                self.store@ == after_fetch(start, syms, results@, i as nat),
                self.running == old(self).running,
                self.coin_configs == old(self).coin_configs,
                self.last_fetch_ms == old(self).last_fetch_ms,
            decreases results@.len() - i,
        {
            match results[i] {
                Some(p) => {
                    assert(results@[i as int] matches Some(q) ==> q.wf());
                    self.store.update(self.coin_configs[i].symbol.as_str(), p);
                },
                None => {},
            }
            i = i + 1;
        }
        proof {
            if distinct_symbols(syms) {
                assert forall|j: int| 0 <= j < results@.len() implies price_in(
                    self.store@,
                    #[trigger] syms[j],
                ) == match results@[j] {
                    Some(p) => p,
                    None => price_in(start, syms[j]),
                } by {
                    lemma_cycle_outcome_per_symbol(start, syms, results@, j);
                }
            }
        }
    }

    /// Runs one fetch cycle: asks `market` once for each configured symbol,
    /// in the order of the configuration, and applies what came back. A failed request
    /// leaves that symbol's price as it was. So does an answer that does not
    /// read as a `Price`: an infinite or NaN price, one with more than
    /// eighteen decimal places, or one whose digits do not fit an `i64`. Such
    /// an answer is skipped, not shown.
    pub fn update_prices(&mut self, market: &mut MarketClient)
        requires
            old(self).wf(),
        ensures
            final(self).wf(),
            final(market).asked() == old(market).asked() + symbols_of(old(self).spec_configs()),
            exists|results: Seq<Option<Price>>|
                results.len() == old(self).spec_configs().len() && final(self).spec_prices()
                    == after_fetch(
                    old(self).spec_prices(),
                    symbols_of(old(self).spec_configs()),
                    results,
                    results.len(),
                ),
            final(self).spec_running() == old(self).spec_running(),
            final(self).spec_configs() == old(self).spec_configs(),
            final(self).spec_last_fetch_ms() == old(self).spec_last_fetch_ms(),
    {
        let ghost asked_before = market.asked();
        let ghost syms = symbols_of(self.coin_configs@);
        let mut results: Vec<Option<Price>> = Vec::new();
        let mut i: usize = 0;
        while i < self.coin_configs.len()
            invariant
                i <= self.coin_configs@.len(),
                syms == symbols_of(self.coin_configs@),
                market.asked() == asked_before + syms.take(i as int),
                results@.len() == i,
                forall|j: int| 0 <= j < results@.len() ==> (#[trigger] results@[j] matches Some(p)
                    ==> p.wf()),
            decreases self.coin_configs@.len() - i,
        {
            let outcome = fetch_price_text(market, self.coin_configs[i].symbol.as_str());
            assert(syms.take(i + 1) =~= syms.take(i as int).push(syms[i as int]));
            let price = match outcome {
                Ok(text) => parse_price(text.as_str()),
                Err(_) => None,
            };
            results.push(price);
            i = i + 1;
        }
        assert(syms.take(i as int) =~= syms);
        self.apply_fetch(&results);
    }

    /// The label in front of coin `i`'s price.
    pub fn label_text(&self, i: usize) -> (r: String)
        requires
            i < self.spec_configs().len(),
        ensures
            r@ == self.spec_configs()[i as int].display_name@ + seq![':', ' ', ' '],
    {
        proof {
            reveal_strlit(":  ");
        }
        self.coin_configs[i].display_name.clone().concat(":  ")
    }

    /// Coin `i`'s price as shown: a dollar sign, then the price with the
    /// coin's precision.
    pub fn price_text(&self, i: usize) -> (r: String)
        requires
            self.wf(),
            i < self.spec_configs().len(),
        ensures
            r@ == seq!['$'] + price_in(
                self.spec_prices(),
                self.spec_configs()[i as int].symbol@,
            ).text(self.spec_configs()[i as int].precision as nat),
    {
        proof {
            reveal_strlit("$");
        }
        let config = &self.coin_configs[i];
        let p = self.store.get(config.symbol.as_str());
        let digits = p.format_price(config.precision);
        String::from_str("$").concat(digits.as_str())
    }
}

/// A board that was just made reads zero for every symbol.
pub proof fn lemma_fresh_board_reads_zero(symbols: Seq<Seq<char>>, symbol: Seq<char>)
    ensures
        price_in(initial_prices(symbols), symbol) == zero_price(),
{
}

/// A symbol whose every fetch in a cycle failed keeps the price it had.
pub proof fn lemma_failed_fetch_keeps_price(
    m: Map<Seq<char>, Price>,
    symbols: Seq<Seq<char>>,
    results: Seq<Option<Price>>,
    n: nat,
    symbol: Seq<char>,
)
    requires
        n <= symbols.len(),
        n <= results.len(),
        forall|i: int| 0 <= i < n && symbols[i] == symbol ==> (#[trigger] results[i]) is None,
    ensures
        price_in(after_fetch(m, symbols, results, n), symbol) == price_in(m, symbol),
    decreases n,
{
    if n > 0 {
        lemma_failed_fetch_keeps_price(m, symbols, results, (n - 1) as nat, symbol);
        let _ = results[n - 1];
    }
}

/// A symbol whose last fetch in a cycle returned `p` holds `p` afterwards,
/// whatever happened to the other symbols.
pub proof fn lemma_last_fetched_price_stored(
    m: Map<Seq<char>, Price>,
    symbols: Seq<Seq<char>>,
    results: Seq<Option<Price>>,
    n: nat,
    j: int,
    p: Price,
)
    requires
        n <= symbols.len(),
        n <= results.len(),
        0 <= j < n,
        results[j] == Some(p),
        forall|i: int| j < i < n && symbols[i] == symbols[j] ==> (#[trigger] results[i]) is None,
    ensures
        price_in(after_fetch(m, symbols, results, n), symbols[j]) == p,
    decreases n,
{
    if n - 1 > j {
        lemma_last_fetched_price_stored(m, symbols, results, (n - 1) as nat, j, p);
        let _ = results[n - 1];
    }
}

/// Once a cycle has run, no other is due until a full interval has passed,
/// however often the loop asks in between.
pub proof fn lemma_one_fetch_per_interval(last_fetch_ms: nat, now_ms: nat)
    requires
        now_ms < last_fetch_ms + FETCH_INTERVAL_MS,
    ensures
        !fetch_due_at(last_fetch_ms, now_ms),
{
}

/// Whether the board still runs after `on_key_event` on each of `keys`, in order.
pub open spec fn running_after_keys(running: bool, keys: Seq<KeyEvent>) -> bool
    decreases keys.len(),
{
    if keys.len() == 0 {
        running
    } else {
        running_after_keys(running, keys.drop_last()) && !is_quit_key(keys.last())
    }
}

/// Whether the board still runs after `handle_event` on each of `events`, in order.
pub open spec fn running_after_events(running: bool, events: Seq<Event>) -> bool
    decreases events.len(),
{
    if events.len() == 0 {
        running
    } else {
        running_after_events(running, events.drop_last()) && !asks_to_quit(events.last())
    }
}

/// A running board stops after a run of keys exactly when one of them is a
/// quit key, wherever it stands and whatever the other keys are.
pub proof fn lemma_keys_stop_iff_quit_key(keys: Seq<KeyEvent>)
    ensures
        running_after_keys(true, keys) == !(exists|j: int|
            0 <= j < keys.len() && is_quit_key(#[trigger] keys[j])),
    decreases keys.len(),
{
    if keys.len() > 0 {
        let prefix = keys.drop_last();
        lemma_keys_stop_iff_quit_key(prefix);
        if exists|j: int| 0 <= j < prefix.len() && is_quit_key(#[trigger] prefix[j]) {
            let j = choose|j: int| 0 <= j < prefix.len() && is_quit_key(#[trigger] prefix[j]);
            assert(keys[j] == prefix[j]);
        }
        if exists|j: int| 0 <= j < keys.len() && is_quit_key(#[trigger] keys[j]) {
            let j = choose|j: int| 0 <= j < keys.len() && is_quit_key(#[trigger] keys[j]);
            if j < prefix.len() {
                assert(prefix[j] == keys[j]);
            }
        }
    }
}

/// A running board stops after a run of events exactly when one of them is
/// a pressed quit key; releases and all other events never stop it.
pub proof fn lemma_events_stop_iff_quit_press(events: Seq<Event>)
    ensures
        running_after_events(true, events) == !(exists|j: int|
            0 <= j < events.len() && asks_to_quit(#[trigger] events[j])),
    decreases events.len(),
{
    if events.len() > 0 {
        let prefix = events.drop_last();
        lemma_events_stop_iff_quit_press(prefix);
        if exists|j: int| 0 <= j < prefix.len() && asks_to_quit(#[trigger] prefix[j]) {
            let j = choose|j: int| 0 <= j < prefix.len() && asks_to_quit(#[trigger] prefix[j]);
            assert(events[j] == prefix[j]);
        }
        if exists|j: int| 0 <= j < events.len() && asks_to_quit(#[trigger] events[j]) {
            let j = choose|j: int| 0 <= j < events.len() && asks_to_quit(#[trigger] events[j]);
            if j < prefix.len() {
                assert(prefix[j] == events[j]);
            }
        }
    }
}

/// Over a whole run, fetch cycles start at least one interval apart: cycle
/// `j` starts when a fetch is due after the mark of cycle `j - 1`, and each
/// cycle is marked no earlier than it started.
pub proof fn lemma_fetch_cycles_spaced(starts: Seq<nat>, marks: Seq<nat>)
    requires
        starts.len() == marks.len(),
        forall|j: int| 0 <= j < starts.len() ==> starts[j] <= #[trigger] marks[j],
        forall|j: int| 0 < j < starts.len() ==> fetch_due_at(marks[j - 1], #[trigger] starts[j]),
    ensures
        forall|j: int| 0 < j < starts.len() ==> #[trigger] starts[j] >= starts[j - 1] + FETCH_INTERVAL_MS,
{
    assert forall|j: int| 0 < j < starts.len() implies #[trigger] starts[j] >= starts[j - 1]
        + FETCH_INTERVAL_MS by {
        assert(starts[j - 1] <= marks[j - 1]);
    }
}

/// A fetch cycle overrides the prices it started from with the prices it
/// brought back, the last one per symbol.
pub proof fn lemma_fetch_overrides(
    m: Map<Seq<char>, Price>,
    symbols: Seq<Seq<char>>,
    results: Seq<Option<Price>>,
    n: nat,
)
    ensures
        after_fetch(m, symbols, results, n) == m.union_prefer_right(
            after_fetch(Map::empty(), symbols, results, n),
        ),
    decreases n,
{
    if n == 0 {
        assert(m =~= m.union_prefer_right(Map::<Seq<char>, Price>::empty()));
    } else {
        lemma_fetch_overrides(m, symbols, results, (n - 1) as nat);
        let prev = after_fetch(Map::empty(), symbols, results, (n - 1) as nat);
        match results[n - 1] {
            Some(p) => {
                assert(m.union_prefer_right(prev).insert(symbols[n - 1], p) =~= m.union_prefer_right(
                    prev.insert(symbols[n - 1], p),
                ));
            },
            None => {},
        }
    }
}

/// Running the same fetch outcomes twice leaves the prices of running them once.
pub proof fn lemma_same_cycle_twice(
    m: Map<Seq<char>, Price>,
    symbols: Seq<Seq<char>>,
    results: Seq<Option<Price>>,
    n: nat,
)
    ensures
        after_fetch(after_fetch(m, symbols, results, n), symbols, results, n) == after_fetch(
            m,
            symbols,
            results,
            n,
        ),
{
    let o = after_fetch(Map::empty(), symbols, results, n);
    lemma_fetch_overrides(m, symbols, results, n);
    lemma_fetch_overrides(after_fetch(m, symbols, results, n), symbols, results, n);
    assert(m.union_prefer_right(o).union_prefer_right(o) =~= m.union_prefer_right(o));
}

pub open spec fn distinct_symbols(symbols: Seq<Seq<char>>) -> bool {
    forall|a: int, b: int|
        0 <= a < symbols.len() && 0 <= b < symbols.len() && a != b ==> #[trigger] symbols[a]
            != #[trigger] symbols[b]
}

/// With distinct symbols, each symbol's price after a cycle is its own
/// outcome: the fetched price, or the old price when its fetch failed. No
/// other symbol's outcome touches it.
pub proof fn lemma_cycle_outcome_per_symbol(
    m: Map<Seq<char>, Price>,
    symbols: Seq<Seq<char>>,
    results: Seq<Option<Price>>,
    i: int,
)
    requires
        distinct_symbols(symbols),
        results.len() == symbols.len(),
        0 <= i < symbols.len(),
    ensures
        price_in(after_fetch(m, symbols, results, symbols.len()), symbols[i]) == match results[i] {
            Some(p) => p,
            None => price_in(m, symbols[i]),
        },
{
    let n = symbols.len();
    match results[i] {
        Some(p) => {
            lemma_last_fetched_price_stored(m, symbols, results, n, i, p);
        },
        None => {
            assert forall|j: int| 0 <= j < n && symbols[j] == symbols[i] implies (
            #[trigger] results[j]) is None by {
                assert(j == i);
            }
            lemma_failed_fetch_keeps_price(m, symbols, results, n, symbols[i]);
        },
    }
}

/// Of two cycles in a row, the later success wins; a symbol whose fetch
/// failed both times keeps the price it had before the first.
pub proof fn lemma_later_cycle_wins(
    m: Map<Seq<char>, Price>,
    symbols: Seq<Seq<char>>,
    first: Seq<Option<Price>>,
    second: Seq<Option<Price>>,
    i: int,
)
    requires
        distinct_symbols(symbols),
        first.len() == symbols.len(),
        second.len() == symbols.len(),
        0 <= i < symbols.len(),
    ensures
        price_in(
            after_fetch(
                after_fetch(m, symbols, first, symbols.len()),
                symbols,
                second,
                symbols.len(),
            ),
            symbols[i],
        ) == match second[i] {
            Some(q) => q,
            None => match first[i] {
                Some(p) => p,
                None => price_in(m, symbols[i]),
            },
        },
{
    lemma_cycle_outcome_per_symbol(m, symbols, first, i);
    lemma_cycle_outcome_per_symbol(
        after_fetch(m, symbols, first, symbols.len()),
        symbols,
        second,
        i,
    );
}

/// The prices after the first `c` of a series of fetch cycles.
pub open spec fn after_cycles(
    m: Map<Seq<char>, Price>,
    symbols: Seq<Seq<char>>,
    cycles: Seq<Seq<Option<Price>>>,
    c: nat,
) -> Map<Seq<char>, Price>
    decreases c,
{
    if c == 0 {
        m
    } else {
        after_fetch(
            after_cycles(m, symbols, cycles, (c - 1) as nat),
            symbols,
            cycles[c - 1],
            symbols.len(),
        )
    }
}

/// On a fresh board, a symbol whose fetch failed in every cycle so far still
/// reads zero.
pub proof fn lemma_never_fetched_reads_zero(
    symbols: Seq<Seq<char>>,
    cycles: Seq<Seq<Option<Price>>>,
    c: nat,
    symbol: Seq<char>,
)
    requires
        c <= cycles.len(),
        forall|k: int| 0 <= k < cycles.len() ==> (#[trigger] cycles[k]).len() == symbols.len(),
        forall|k: int, i: int|
            0 <= k < c && 0 <= i < symbols.len() && symbols[i] == symbol ==> (
            #[trigger] cycles[k][i]) is None,
    ensures
        price_in(after_cycles(initial_prices(symbols), symbols, cycles, c), symbol) == zero_price(),
    decreases c,
{
    if c == 0 {
        lemma_fresh_board_reads_zero(symbols, symbol);
    } else {
        lemma_never_fetched_reads_zero(symbols, cycles, (c - 1) as nat, symbol);
        let r = cycles[c - 1];
        assert forall|i: int| 0 <= i < symbols.len() && symbols[i] == symbol implies (
        #[trigger] r[i]) is None by {
            assert(cycles[c - 1][i] is None);
        }
        lemma_failed_fetch_keeps_price(
            after_cycles(initial_prices(symbols), symbols, cycles, (c - 1) as nat),
            symbols,
            r,
            symbols.len(),
            symbol,
        );
    }
}

} // verus!
