use vstd::prelude::*;
use binance::api::Binance;

verus! {

#[verifier::external_type_specification]
#[verifier::external_body]
pub struct ExMarket(binance::market::Market);

#[verifier::external_type_specification]
#[verifier::external_body]
pub struct ExBinanceError(binance::errors::Error);

/// Relies on binance's `Market::new(None, None)`: a market-data client for
/// the public endpoints, with no keys and verbose output off.
#[verifier::external_body]
pub(crate) fn new_market() -> (r: binance::market::Market) {
    binance::market::Market::new(None, None)
}

/// A market-data client, together with the list of symbols it has been
/// asked for so far.
pub struct MarketClient {
    market: binance::market::Market,
    asked: Ghost<Seq<Seq<char>>>,
}

impl MarketClient {
    /// The symbols looked up through this client, oldest first.
    pub closed spec fn asked(&self) -> Seq<Seq<char>> {
        self.asked@
    }

    /// A client for the public market-data endpoints that has asked for nothing yet.
    pub fn new() -> (r: MarketClient)
        ensures
            r.asked() == Seq::<Seq<char>>::empty(),
    {
        MarketClient { market: new_market(), asked: Ghost(Seq::empty()) }
    }
}

/// Relies on binance's `Market::get_price`: one REST request for the price
/// of `symbol`, which is passed on as given. The price is handed on as the
/// decimal text that `f64`'s `Display` writes, which never uses an exponent.
/// Whether the request succeeds and what it answers depend on the network,
/// so nothing is promised of the result.
#[verifier::external_body]
pub(crate) fn fetch_price_text(client: &mut MarketClient, symbol: &str) -> (r: Result<
    String,
    binance::errors::Error,
>)
    ensures
        final(client).asked() == old(client).asked().push(symbol@),
{
    match client.market.get_price(symbol) {
        Ok(p) => Ok(p.price.to_string()),
        Err(e) => Err(e),
    }
}

} // verus!
