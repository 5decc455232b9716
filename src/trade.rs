//! Trade proposals and the netting of their spot legs.
use vstd::prelude::*;

verus! {

/// A market order on the spot venue. Quantity and price are fixed-point
/// integers with eight decimals.
pub struct BinanceMarketOrder {
    pub symbol: String,
    pub is_buy: bool,
    pub qty: u64,
    pub price: u64,
}

/// The value of a spot order: its symbol as characters and its other fields.
pub struct OrderView {
    pub symbol: Seq<char>,
    pub is_buy: bool,
    pub qty: u64,
    pub price: u64,
}

impl View for BinanceMarketOrder {
    type V = OrderView;

    open spec fn view(&self) -> OrderView {
        OrderView { symbol: self.symbol@, is_buy: self.is_buy, qty: self.qty, price: self.price }
    }
}

/// An order on the options venue: a whole number of contracts of one option.
#[derive(Clone, Copy, PartialEq, Eq, Structural, Debug)]
pub struct LedgerXOrder {
    pub contract_id: u64,
    pub is_ask: bool,
    pub price: u64,
    pub size: u64,
}

/// A proposal: legs on the spot venue and legs on the options venue.
pub struct Trade {
    pub binance: Vec<BinanceMarketOrder>,
    pub ledgerx: Vec<LedgerXOrder>,
}

/// The values of a sequence of spot orders.
pub open spec fn order_views(s: Seq<BinanceMarketOrder>) -> Seq<OrderView> {
    s.map_values(|o: BinanceMarketOrder| o@)
}

/// The running net position of one symbol: positive is a net buy.
pub struct NetEntry {
    pub symbol: Seq<char>,
    pub price: u64,
    pub net: int,
}

/// The signed quantity of an order: positive for a buy, negative for a sell.
pub open spec fn signed_qty(o: OrderView) -> int {
    if o.is_buy {
        o.qty as int
    } else {
        -(o.qty as int)
    }
}

/// The sum of the quantities of the orders.
pub open spec fn total_qty(legs: Seq<OrderView>) -> int
    decreases legs.len(),
{
    if legs.len() == 0 {
        0
    } else {
        total_qty(legs.drop_last()) + legs.last().qty
    }
}

/// The index of the entry for `sym`, or -1 where there is none.
pub open spec fn position(acc: Seq<NetEntry>, sym: Seq<char>) -> int {
    if exists|k: int| 0 <= k < acc.len() && (#[trigger] acc[k]).symbol == sym {
        choose|k: int| 0 <= k < acc.len() && (#[trigger] acc[k]).symbol == sym
    } else {
        -1
    }
}

/// The net position of every symbol of `legs`, in order of first appearance,
/// each at the price of its first order.
pub open spec fn accumulate(legs: Seq<OrderView>) -> Seq<NetEntry>
    decreases legs.len(),
{
    if legs.len() == 0 {
        seq![]
    } else {
        let acc = accumulate(legs.drop_last());
        let o = legs.last();
        let k = position(acc, o.symbol);
        if k >= 0 {
            acc.update(k, NetEntry { net: acc[k].net + signed_qty(o), ..acc[k] })
        } else {
            acc.push(NetEntry { symbol: o.symbol, price: o.price, net: signed_qty(o) })
        }
    }
}

/// The order that carries a net position.
pub open spec fn order_of(e: NetEntry) -> OrderView {
    OrderView {
        symbol: e.symbol,
        is_buy: e.net > 0,
        qty: (if e.net >= 0 {
            e.net
        } else {
            -e.net
        }) as u64,
        price: e.price,
    }
}

/// The orders for the positions that are not flat, in order.
pub open spec fn nonzero_orders(acc: Seq<NetEntry>) -> Seq<OrderView>
    decreases acc.len(),
{
    if acc.len() == 0 {
        seq![]
    } else {
        let rest = nonzero_orders(acc.drop_last());
        if acc.last().net != 0 {
            rest.push(order_of(acc.last()))
        } else {
            rest
        }
    }
}

/// The netted spot legs: one order per symbol whose net position is not
/// flat, on the side of its sign, for its absolute size.
pub open spec fn netted(legs: Seq<OrderView>) -> Seq<OrderView> {
    nonzero_orders(accumulate(legs))
}

/// No two entries are for the same symbol.
pub open spec fn distinct_entries(acc: Seq<NetEntry>) -> bool {
    forall|a: int, b: int|
        0 <= a < acc.len() && 0 <= b < acc.len() && a != b ==> (#[trigger] acc[a]).symbol
            != (#[trigger] acc[b]).symbol
}

/// No two orders are for the same symbol.
pub open spec fn distinct_orders(s: Seq<OrderView>) -> bool {
    forall|a: int, b: int|
        0 <= a < s.len() && 0 <= b < s.len() && a != b ==> (#[trigger] s[a]).symbol
            != (#[trigger] s[b]).symbol
}

/// Accumulating keeps one entry per symbol, each no larger than the total.
pub proof fn lemma_accumulate(legs: Seq<OrderView>)
    ensures
        distinct_entries(accumulate(legs)),
        forall|k: int|
            0 <= k < accumulate(legs).len() ==> -total_qty(legs) <= (#[trigger] accumulate(legs)[k]).net
                <= total_qty(legs),
        total_qty(legs) >= 0,
    decreases legs.len(),
{
    if legs.len() > 0 {
        let p = legs.drop_last();
        lemma_accumulate(p);
        let acc = accumulate(p);
        let o = legs.last();
        let k = position(acc, o.symbol);
        if k >= 0 {
            assert(acc[k].symbol == o.symbol);
        } else {
            assert forall|j: int| 0 <= j < acc.len() implies acc[j].symbol != o.symbol by {}
        }
    }
}

proof fn lemma_position_distinct(acc: Seq<NetEntry>, k: int)
    requires
        distinct_entries(acc),
        0 <= k < acc.len(),
    ensures
        position(acc, acc[k].symbol) == k,
{
}

/// Orders for the non-flat positions of distinct entries are for distinct
/// symbols and have a positive quantity.
proof fn lemma_nonzero_orders(acc: Seq<NetEntry>)
    requires
        distinct_entries(acc),
        forall|k: int| 0 <= k < acc.len() ==> -0x1_0000_0000_0000_0000 < (#[trigger] acc[k]).net < 0x1_0000_0000_0000_0000,
    ensures
        distinct_orders(nonzero_orders(acc)),
        forall|j: int| 0 <= j < nonzero_orders(acc).len() ==> (#[trigger] nonzero_orders(acc)[j]).qty > 0,
        forall|j: int|
            0 <= j < nonzero_orders(acc).len() ==> exists|k: int|
                0 <= k < acc.len() && (#[trigger] nonzero_orders(acc)[j]).symbol == acc[k].symbol,
    decreases acc.len(),
{
    if acc.len() > 0 {
        let p = acc.drop_last();
        assert forall|k: int| 0 <= k < p.len() implies -0x1_0000_0000_0000_0000 < (#[trigger] p[k]).net < 0x1_0000_0000_0000_0000 by {
            assert(p[k] == acc[k]);
        }
        lemma_nonzero_orders(p);
        let r = nonzero_orders(p);
        let s = nonzero_orders(acc);
        assert forall|j: int| 0 <= j < r.len() implies exists|k: int|
            0 <= k < acc.len() && (#[trigger] r[j]).symbol == acc[k].symbol by {
            let k = choose|k: int| 0 <= k < p.len() && (#[trigger] r[j]).symbol == p[k].symbol;
            assert(p[k] == acc[k]);
        }
        if acc.last().net != 0 {
            assert(s[s.len() - 1].symbol == acc[acc.len() - 1].symbol);
            assert forall|j: int| 0 <= j < r.len() implies r[j].symbol != acc.last().symbol by {
                let k = choose|k: int| 0 <= k < p.len() && (#[trigger] r[j]).symbol == p[k].symbol;
                assert(p[k] == acc[k]);
            }
        }
    }
}

/// The entry that a single order opens.
pub open spec fn entry_of(o: OrderView) -> NetEntry {
    NetEntry { symbol: o.symbol, price: o.price, net: signed_qty(o) }
}

/// Orders for distinct symbols accumulate to one entry each, in order.
proof fn lemma_accumulate_distinct(s: Seq<OrderView>)
    requires
        distinct_orders(s),
    ensures
        accumulate(s) == s.map_values(|o: OrderView| entry_of(o)),
    decreases s.len(),
{
    if s.len() > 0 {
        let p = s.drop_last();
        assert(distinct_orders(p)) by {
            assert forall|a: int, b: int|
                0 <= a < p.len() && 0 <= b < p.len() && a != b implies (#[trigger] p[a]).symbol
                    != (#[trigger] p[b]).symbol by {
                assert(p[a] == s[a] && p[b] == s[b]);
            }
        }
        lemma_accumulate_distinct(p);
        let acc = accumulate(p);
        assert forall|k: int| 0 <= k < acc.len() implies (#[trigger] acc[k]).symbol != s.last().symbol by {
            assert(acc[k] == entry_of(p[k]));
            assert(p[k] == s[k]);
        }
        assert(position(acc, s.last().symbol) == -1);
        assert(accumulate(s) =~= s.map_values(|o: OrderView| entry_of(o)));
    }
}

/// Orders of positive quantity pass through unchanged.
proof fn lemma_nonzero_orders_of_entries(s: Seq<OrderView>)
    requires
        forall|j: int| 0 <= j < s.len() ==> (#[trigger] s[j]).qty > 0,
    ensures
        nonzero_orders(s.map_values(|o: OrderView| entry_of(o))) == s,
    decreases s.len(),
{
    if s.len() > 0 {
        let p = s.drop_last();
        assert(s.map_values(|o: OrderView| entry_of(o)).drop_last() =~= p.map_values(
            |o: OrderView| entry_of(o),
        ));
        lemma_nonzero_orders_of_entries(p);
        assert(s[s.len() - 1].qty > 0);
        assert(order_of(entry_of(s.last())) == s.last());
        assert(p.push(s.last()) =~= s);
    }
}

/// Netting is idempotent: netting netted legs changes nothing.
pub proof fn lemma_netting_idempotent(legs: Seq<OrderView>)
    requires
        total_qty(legs) <= u64::MAX,
    ensures
        netted(netted(legs)) == netted(legs),
{
    lemma_accumulate(legs);
    let acc = accumulate(legs);
    lemma_nonzero_orders(acc);
    let y = netted(legs);
    lemma_accumulate_distinct(y);
    lemma_nonzero_orders_of_entries(y);
}

/// Offsetting legs vanish: a buy and a sell of the same quantity of one
/// symbol net to no order at all.
pub proof fn lemma_offsetting_legs_vanish(buy: OrderView, sell: OrderView)
    requires
        buy.symbol == sell.symbol,
        buy.is_buy,
        !sell.is_buy,
        buy.qty == sell.qty,
    ensures
        netted(seq![buy, sell]) == Seq::<OrderView>::empty(),
{
    let legs = seq![buy, sell];
    assert(legs.drop_last() =~= seq![buy]);
    assert(seq![buy].drop_last() =~= Seq::<OrderView>::empty());
    let e = Seq::<OrderView>::empty();
    assert(accumulate(e) == Seq::<NetEntry>::empty());
    assert(position(Seq::<NetEntry>::empty(), buy.symbol) == -1);
    let a1 = accumulate(seq![buy]);
    assert(a1 =~= seq![entry_of(buy)]);
    assert(a1[0].symbol == sell.symbol);
    let k = position(a1, sell.symbol);
    assert(k == 0);
    let a2 = accumulate(legs);
    assert(a2.len() == 1 && a2[0].net == 0);
    assert(a2.drop_last() =~= Seq::<NetEntry>::empty());
    assert(nonzero_orders(Seq::<NetEntry>::empty()) == Seq::<OrderView>::empty());
}

proof fn lemma_total_prefix(legs: Seq<OrderView>, i: int)
    requires
        0 <= i <= legs.len(),
    ensures
        0 <= total_qty(legs.take(i)) <= total_qty(legs),
    decreases legs.len(),
{
    if i == legs.len() {
        assert(legs.take(i) =~= legs);
        lemma_accumulate(legs);
    } else {
        let p = legs.drop_last();
        assert(p.take(i) =~= legs.take(i));
        lemma_total_prefix(p, i);
    }
}

/// The running net position of one symbol, as netting keeps it.
struct NetAcc {
    symbol: String,
    price: u64,
    net: i128,
}

spec fn acc_view(s: Seq<NetAcc>) -> Seq<NetEntry> {
    s.map_values(|a: NetAcc| NetEntry { symbol: a.symbol@, price: a.price, net: a.net as int })
}

fn find_entry(acc: &Vec<NetAcc>, sym: &String) -> (r: Option<usize>)
    ensures
        match r {
            Some(k) => k < acc@.len() && acc@[k as int].symbol@ == sym@,
            None => forall|j: int| 0 <= j < acc@.len() ==> (#[trigger] acc@[j]).symbol@ != sym@,
        },
{
    let mut k: usize = 0;
    while k < acc.len()
        invariant
            k <= acc@.len(),
            forall|j: int| 0 <= j < k ==> (#[trigger] acc@[j]).symbol@ != sym@,
        decreases acc@.len() - k,
    {
        if acc[k].symbol == *sym {
            return Some(k);
        }
        k += 1;
    }
    None
}

impl Trade {
    /// A trade with no legs.
    pub fn empty() -> (r: Self)
        ensures
            r.binance@.len() == 0,
            r.ledgerx@.len() == 0,
    {
        Trade { binance: Vec::new(), ledgerx: Vec::new() }
    }

    /// The sum of the quantities of the spot legs, where it fits in a `u64`.
    pub fn total_quantity(&self) -> (r: Option<u64>)
        ensures
            match r {
                Some(t) => t == total_qty(order_views(self.binance@)),
                None => total_qty(order_views(self.binance@)) > u64::MAX,
            },
    {
        let ghost legs = order_views(self.binance@);
        let mut total: u64 = 0;
        let mut i: usize = 0;
        while i < self.binance.len()
            invariant
                legs == order_views(self.binance@),
                i <= legs.len(),
                total == total_qty(legs.take(i as int)),
            decreases legs.len() - i,
        {
            proof {
                assert(legs.take(i + 1).drop_last() =~= legs.take(i as int));
                assert(legs.take(i + 1).last() == legs[i as int]);
                lemma_total_prefix(legs, i + 1);
            }
            let q = self.binance[i].qty;
            if q > u64::MAX - total {
                return None;
            }
            total = total + q;
            i += 1;
        }
        proof {
            assert(legs.take(legs.len() as int) =~= legs);
        }
        Some(total)
    }

    /// Collapses the spot legs by symbol: one order per symbol for its net
    /// quantity, on the side of its sign, at the price of its first leg, in
    /// order of first appearance; flat symbols are dropped. The options legs
    /// stay as they are.
    pub fn net_out(&mut self)
        requires
            total_qty(order_views(old(self).binance@)) <= u64::MAX,
        ensures
            order_views(final(self).binance@) == netted(order_views(old(self).binance@)),
            final(self).ledgerx@ == old(self).ledgerx@,
    {
        let ghost legs = order_views(self.binance@);
        let mut acc: Vec<NetAcc> = Vec::new();
        let mut i: usize = 0;
        while i < self.binance.len()
            invariant
                legs == order_views(self.binance@),
                i <= legs.len(),
                total_qty(legs) <= u64::MAX,
                acc_view(acc@) == accumulate(legs.take(i as int)),
            decreases legs.len() - i,
        {
            proof {
                lemma_accumulate(legs.take(i as int));
                lemma_total_prefix(legs, i + 1);
                assert(legs.take(i + 1).drop_last() =~= legs.take(i as int));
                assert(legs.take(i + 1).last() == legs[i as int]);
            }
            let o = &self.binance[i];
            let signed: i128 = if o.is_buy {
                o.qty as i128
            } else {
                -(o.qty as i128)
            };
            let ghost accv = acc_view(acc@);
            match find_entry(&acc, &o.symbol) {
                Some(k) => {
                    proof {
                        assert(accv[k as int].symbol == o.symbol@);
                        lemma_position_distinct(accv, k as int);
                    }
                    let e = NetAcc { symbol: acc[k].symbol.clone(), price: acc[k].price, net: acc[k].net + signed };
                    acc.set(k, e);
                },
                None => {
                    proof {
                        assert forall|j: int| 0 <= j < accv.len() implies (#[trigger] accv[j]).symbol != o.symbol@ by {
                            assert(accv[j].symbol == acc@[j].symbol@);
                        }
                    }
                    acc.push(NetAcc { symbol: o.symbol.clone(), price: o.price, net: signed });
                },
            }
            proof {
                assert(acc_view(acc@) =~= accumulate(legs.take(i + 1)));
            }
            i += 1;
        }
        proof {
            assert(legs.take(legs.len() as int) =~= legs);
            lemma_accumulate(legs);
        }
        let ghost accs = acc_view(acc@);
        let mut out: Vec<BinanceMarketOrder> = Vec::new();
        let mut j: usize = 0;
        while j < acc.len()
            invariant
                accs == acc_view(acc@),
                accs == accumulate(legs),
                total_qty(legs) <= u64::MAX,
                forall|k: int| 0 <= k < accs.len() ==> -total_qty(legs) <= (#[trigger] accs[k]).net <= total_qty(legs),
                j <= acc@.len(),
                order_views(out@) == nonzero_orders(accs.take(j as int)),
            decreases acc@.len() - j,
        {
            proof {
                assert(accs.take(j + 1).drop_last() =~= accs.take(j as int));
                assert(accs.take(j + 1).last() == accs[j as int]);
            }
            let net = acc[j].net;
            if net != 0 {
                let qty: u64 = if net >= 0 {
                    net as u64
                } else {
                    (-net) as u64
                };
                let ghost before = out@;
                out.push(BinanceMarketOrder { symbol: acc[j].symbol.clone(), is_buy: net > 0, qty, price: acc[j].price });
                proof {
                    assert(order_views(out@) =~= order_views(before).push(order_of(accs[j as int])));
                }
            }
            j += 1;
        }
        proof {
            assert(accs.take(accs.len() as int) =~= accs);
        }
        self.binance = out;
    }
}

} // verus!
