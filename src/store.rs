use vstd::prelude::*;
use vstd::string::*;
use crate::price::Price;

verus! {

/// The last price seen for one symbol.
#[derive(Clone, Debug)]
pub struct PriceEntry {
    pub symbol: String,
    pub price: Price,
}

/// Latest known price per symbol. A symbol that has never been given a
/// price reads as zero.
#[derive(Clone, Debug)]
pub struct PriceStore {
    entries: Vec<PriceEntry>,
}

pub open spec fn zero_price() -> Price {
    Price { units: 0, scale: 0 }
}

/// What `get` answers for `symbol` in a store whose contents are `m`.
pub open spec fn price_in(m: Map<Seq<char>, Price>, symbol: Seq<char>) -> Price {
    if m.contains_key(symbol) {
        m[symbol]
    } else {
        zero_price()
    }
}

pub open spec fn has_symbol(entries: Seq<PriceEntry>, k: Seq<char>) -> bool {
    exists|i: int| 0 <= i < entries.len() && #[trigger] entries[i].symbol@ == k
}

pub open spec fn contents_of(entries: Seq<PriceEntry>) -> Map<Seq<char>, Price> {
    Map::new(
        |k: Seq<char>| has_symbol(entries, k),
        |k: Seq<char>|
            entries[choose|i: int| 0 <= i < entries.len() && #[trigger] entries[i].symbol@ == k].price,
    )
}

impl View for PriceStore {
    type V = Map<Seq<char>, Price>;

    closed spec fn view(&self) -> Map<Seq<char>, Price> {
        contents_of(self.entries@)
    }
}

proof fn lemma_contents_at(entries: Seq<PriceEntry>, i: int)
    requires
        0 <= i < entries.len(),
        forall|a: int, b: int|
            0 <= a < entries.len() && 0 <= b < entries.len() && #[trigger] entries[a].symbol@
                == #[trigger] entries[b].symbol@ ==> a == b,
    ensures
        contents_of(entries).contains_key(entries[i].symbol@),
        contents_of(entries)[entries[i].symbol@] == entries[i].price,
{
    let k = entries[i].symbol@;
    assert(has_symbol(entries, k));
    let j = choose|j: int| 0 <= j < entries.len() && #[trigger] entries[j].symbol@ == k;
    assert(entries[j].symbol@ == entries[i].symbol@);
}

impl PriceStore {
    /// Symbols are unique and every price is well formed.
    pub closed spec fn wf(&self) -> bool {
        &&& forall|a: int, b: int|
            0 <= a < self.entries@.len() && 0 <= b < self.entries@.len()
                && #[trigger] self.entries@[a].symbol@ == #[trigger] self.entries@[b].symbol@
                ==> a == b
        &&& forall|i: int| 0 <= i < self.entries@.len() ==> (#[trigger] self.entries@[i]).price.wf()
    }

    /// A store holding no price at all.
    pub fn empty() -> (r: PriceStore)
        ensures
            r.wf(),
            r@ == Map::<Seq<char>, Price>::empty(),
    {
        let r = PriceStore { entries: Vec::new() };
        assert(r@ =~= Map::<Seq<char>, Price>::empty());
        r
    }

    /// Position of `symbol`'s entry, if it has one.
    fn find(&self, symbol: &String) -> (r: Option<usize>)
        requires
            self.wf(),
        ensures
            r matches Some(i) ==> i < self.entries@.len() && self.entries@[i as int].symbol@
                == symbol@,
            r is None ==> !has_symbol(self.entries@, symbol@),
    {
        let mut i: usize = 0;
        while i < self.entries.len()
            invariant
                i <= self.entries@.len(),
                forall|j: int| 0 <= j < i ==> (#[trigger] self.entries@[j]).symbol@ != symbol@,
            decreases self.entries@.len() - i,
        {
            if self.entries[i].symbol == *symbol {
                return Some(i);
            }
            i = i + 1;
        }
        None
    }

    /// The last price stored for `symbol`, or zero when it has none.
    pub fn get(&self, symbol: &str) -> (r: Price)
        requires
            self.wf(),
        ensures
            r == price_in(self@, symbol@),
            r.wf(),
    {
        let key = String::from_str(symbol);
        match self.find(&key) {
            Some(i) => {
                proof {
                    lemma_contents_at(self.entries@, i as int);
                }
                self.entries[i].price
            },
            None => Price::zero(),
        }
    }

    /// Overwrites the price of `symbol`, adding the symbol when it is new.
    pub fn update(&mut self, symbol: &str, price: Price)
        requires
            old(self).wf(),
            price.wf(),
        ensures
            final(self).wf(),
            final(self)@ == old(self)@.insert(symbol@, price),
    {
        let key = String::from_str(symbol);
        let ghost before = self.entries@;
        match self.find(&key) {
            Some(i) => {
                self.entries.set(i, PriceEntry { symbol: key, price });
                let ghost after = self.entries@;
                assert(forall|j: int| 0 <= j < after.len() ==> #[trigger] after[j].symbol@
                    == before[j].symbol@);
                assert forall|k: Seq<char>| #[trigger] contents_of(after).contains_key(k)
                    <==> old(self)@.insert(symbol@, price).contains_key(k) by {
                    if has_symbol(before, k) {
                        let j = choose|j: int| 0 <= j < before.len() && #[trigger] before[j].symbol@ == k;
                        assert(after[j].symbol@ == k);
                    }
                    if has_symbol(after, k) {
                        let j = choose|j: int| 0 <= j < after.len() && #[trigger] after[j].symbol@ == k;
                        assert(before[j].symbol@ == k);
                    }
                }
                assert forall|k: Seq<char>| #[trigger] contents_of(after).contains_key(k)
                    implies contents_of(after)[k] == old(self)@.insert(symbol@, price)[k] by {
                    let j = choose|j: int| 0 <= j < after.len() && #[trigger] after[j].symbol@ == k;
                    lemma_contents_at(after, j);
                    if k != symbol@ {
                        assert(j != i);
                        lemma_contents_at(before, j);
                    }
                }
                assert(final(self)@ =~= old(self)@.insert(symbol@, price));
            },
            None => {
                self.entries.push(PriceEntry { symbol: key, price });
                let ghost after = self.entries@;
                let ghost n = before.len() as int;
                assert(forall|j: int| 0 <= j < n ==> #[trigger] after[j] == before[j]);
                assert forall|k: Seq<char>| #[trigger] contents_of(after).contains_key(k)
                    <==> old(self)@.insert(symbol@, price).contains_key(k) by {
                    if has_symbol(before, k) {
                        let j = choose|j: int| 0 <= j < before.len() && #[trigger] before[j].symbol@ == k;
                        assert(after[j].symbol@ == k);
                    }
                    if k == symbol@ {
                        assert(after[n].symbol@ == k);
                    }
                    if has_symbol(after, k) && k != symbol@ {
                        let j = choose|j: int| 0 <= j < after.len() && #[trigger] after[j].symbol@ == k;
                        assert(before[j].symbol@ == k);
                    }
                }
                assert forall|k: Seq<char>| #[trigger] contents_of(after).contains_key(k)
                    implies contents_of(after)[k] == old(self)@.insert(symbol@, price)[k] by {
                    let j = choose|j: int| 0 <= j < after.len() && #[trigger] after[j].symbol@ == k;
                    lemma_contents_at(after, j);
                    if k != symbol@ {
                        lemma_contents_at(before, j);
                    }
                }
                assert(final(self)@ =~= old(self)@.insert(symbol@, price));
            },
        }
    }
}

/// A store reads zero for a symbol it was never given a price for.
pub proof fn lemma_unset_symbol_reads_zero(m: Map<Seq<char>, Price>, symbol: Seq<char>)
    requires
        !m.contains_key(symbol),
    ensures
        price_in(m, symbol) == zero_price(),
{
}

/// Right after `update(symbol, p)`, `get(symbol)` reads exactly `p`.
pub proof fn lemma_get_after_update(m: Map<Seq<char>, Price>, symbol: Seq<char>, p: Price)
    ensures
        price_in(m.insert(symbol, p), symbol) == p,
{
}

/// Storing the same price twice is the same as storing it once.
pub proof fn lemma_update_idempotent(m: Map<Seq<char>, Price>, symbol: Seq<char>, p: Price)
    ensures
        m.insert(symbol, p).insert(symbol, p) == m.insert(symbol, p),
{
    assert(m.insert(symbol, p).insert(symbol, p) =~= m.insert(symbol, p));
}

/// Of two updates of one symbol, the later one wins.
pub proof fn lemma_last_update_wins(
    m: Map<Seq<char>, Price>,
    symbol: Seq<char>,
    first: Price,
    second: Price,
)
    ensures
        m.insert(symbol, first).insert(symbol, second) == m.insert(symbol, second),
        price_in(m.insert(symbol, first).insert(symbol, second), symbol) == second,
{
    assert(m.insert(symbol, first).insert(symbol, second) =~= m.insert(symbol, second));
}

} // verus!
