//! The arbitrage engine: put-call-parity tests, trade sizing and assembly,
//! and the two update paths (spot quote, option quote).
use std::collections::HashSet;
use vstd::prelude::*;

use crate::options_chain::{
    ContractSpec, LedgerXOptionsChain, LedgerXOptionsContract, LatticePointer, lemma_refs_in_range,
    refs_in_range, unique_ids,
};
use crate::trade::{BinanceMarketOrder, LedgerXOrder, OrderView, Trade, netted, order_views, total_qty};

verus! {

broadcast use vstd::std_specs::hash::group_hash_axioms;

/// Prices and spot quantities are fixed-point integers scaled by this
/// factor (eight decimals).
pub const QTY_SCALE: u64 = 100_000_000;

/// Transaction costs are given in parts per million.
pub const TC_SCALE: u64 = 1_000_000;

/// The size factor is given in basis points.
pub const BP_SCALE: u64 = 10_000;

/// The size factor that halves the available size.
pub const DEFAULT_SIZE_FACTOR: u32 = 5_000;

/// Run configuration of the strategy.
pub struct ComboStratConfig {
    /// The spot symbol traded against the options.
    pub symbol: String,
    /// The underlying whose options make up the chain.
    pub underlying: String,
    /// Options-side transaction cost, in parts per million.
    pub opts_tc: u32,
    /// Spot-side transaction cost, in parts per million.
    pub spot_tc: u32,
    /// The share of the available size that a trade takes, in basis points.
    pub size_factor: u32,
}

impl ComboStratConfig {
    /// The size factor scales down.
    pub open spec fn wf(&self) -> bool {
        self.size_factor <= BP_SCALE
    }

    pub open spec fn total_tc(&self) -> int {
        self.opts_tc + self.spot_tc
    }
}

/// Best bid and ask of the spot market, with their sizes.
#[derive(Clone, Copy, PartialEq, Eq, Structural, Debug)]
pub struct SpotQuote {
    pub best_bid: u64,
    pub best_bid_qty: u64,
    pub best_ask: u64,
    pub best_ask_qty: u64,
}

/// Top of book of one option: best bid and ask, sizes in contracts.
#[derive(Clone, Copy, PartialEq, Eq, Structural, Debug)]
pub struct BookTop {
    pub contract_id: u64,
    pub bid: u64,
    pub bid_size: u64,
    pub ask: u64,
    pub ask_size: u64,
}

/// An inconsistency that the engine reports instead of trading.
#[derive(Clone, Copy, PartialEq, Eq, Structural, Debug)]
pub enum StratFault {
    /// A quote names a contract that the catalog does not list.
    UnseenContract(u64),
    /// Conversion and reversal both hold for one call and put.
    ConflictingSignals { call: u64, put: u64 },
    /// The spot legs of a trade add up to more than a quantity can hold.
    SizeOverflow,
}

/// The value of a synthetic position: call price minus put price plus the
/// present value of the strike.
pub open spec fn synthetic(call_px: u64, put_px: u64, pv_strike: u64) -> int {
    call_px - put_px + pv_strike
}

/// `num / den > tc / TC_SCALE`, where a zero denominator gives an infinite
/// ratio of the sign of `num` (and no ratio where `num` is zero too).
#[verifier::opaque]
pub open spec fn ratio_exceeds(num: int, den: int, tc: int) -> bool {
    if den > 0 {
        num * TC_SCALE > tc * den
    } else if den < 0 {
        num * TC_SCALE < tc * den
    } else {
        num > 0
    }
}

/// The reversal condition: `2 (spot_bid - L) / (spot_bid + L) > tc`, with
/// `L` the synthetic long (call ask, put bid).
pub open spec fn rev_cond(cfg: ComboStratConfig, spot_bid: u64, call_ask: u64, put_bid: u64, pv_strike: u64) -> bool {
    let l = synthetic(call_ask, put_bid, pv_strike);
    ratio_exceeds(2 * (spot_bid - l), spot_bid + l, cfg.total_tc())
}

/// The conversion condition: `2 (S - spot_ask) / (S + spot_ask) > tc`, with
/// `S` the synthetic short (call bid, put ask).
pub open spec fn conv_cond(cfg: ComboStratConfig, spot_ask: u64, call_bid: u64, put_ask: u64, pv_strike: u64) -> bool {
    let s = synthetic(call_bid, put_ask, pv_strike);
    ratio_exceeds(2 * (s - spot_ask), s + spot_ask, cfg.total_tc())
}

fn exceeds(num: i128, den: i128, tc: i128) -> (r: bool)
    requires
        -0x10_0000_0000_0000_0000 <= num <= 0x10_0000_0000_0000_0000,
        -0x10_0000_0000_0000_0000 <= den <= 0x10_0000_0000_0000_0000,
        0 <= tc <= 0x1_0000_0000_0000,
    ensures
        r == ratio_exceeds(num as int, den as int, tc as int),
{
    reveal(ratio_exceeds);
    let scale = TC_SCALE as i128;
    if den > 0 {
        assert(-0x10_0000_0000_0000_0000 * 1_000_000 <= num * 1_000_000 <= 0x10_0000_0000_0000_0000
            * 1_000_000) by (nonlinear_arith)
            requires
                -0x10_0000_0000_0000_0000 <= num <= 0x10_0000_0000_0000_0000,
        ;
        assert(0 <= tc * den <= 0x1_0000_0000_0000 * 0x10_0000_0000_0000_0000) by (nonlinear_arith)
            requires
                0 <= tc <= 0x1_0000_0000_0000,
                0 < den <= 0x10_0000_0000_0000_0000,
        ;
        num * scale > tc * den
    } else if den < 0 {
        assert(-0x10_0000_0000_0000_0000 * 1_000_000 <= num * 1_000_000 <= 0x10_0000_0000_0000_0000
            * 1_000_000) by (nonlinear_arith)
            requires
                -0x10_0000_0000_0000_0000 <= num <= 0x10_0000_0000_0000_0000,
        ;
        assert(-0x1_0000_0000_0000 * 0x10_0000_0000_0000_0000 <= tc * den <= 0) by (nonlinear_arith)
            requires
                0 <= tc <= 0x1_0000_0000_0000,
                -0x10_0000_0000_0000_0000 <= den < 0,
        ;
        num * scale < tc * den
    } else {
        num > 0
    }
}

impl ComboStratConfig {
    /// Whether selling the synthetic against the spot bid clears the costs.
    pub fn is_rev_arb(&self, spot_bid: u64, call_ask: u64, put_bid: u64, pv_strike: u64) -> (r: bool)
        ensures
            r == rev_cond(*self, spot_bid, call_ask, put_bid, pv_strike),
    {
        let l = call_ask as i128 - put_bid as i128 + pv_strike as i128;
        let s = spot_bid as i128;
        exceeds(2 * (s - l), s + l, self.opts_tc as i128 + self.spot_tc as i128)
    }

    /// Whether buying the synthetic against the spot ask clears the costs.
    pub fn is_conv_arb(&self, spot_ask: u64, call_bid: u64, put_ask: u64, pv_strike: u64) -> (r: bool)
        ensures
            r == conv_cond(*self, spot_ask, call_bid, put_ask, pv_strike),
    {
        let syn = call_bid as i128 - put_ask as i128 + pv_strike as i128;
        let a = spot_ask as i128;
        exceeds(2 * (syn - a), syn + a, self.opts_tc as i128 + self.spot_tc as i128)
    }
}

pub open spec fn min_int(a: int, b: int) -> int {
    if a <= b {
        a
    } else {
        b
    }
}

/// The size an option quote offers, in spot units: contracts times
/// multiplier, at the fixed-point scale.
pub open spec fn avail(qty: u64, mult: u64) -> int {
    qty * mult * QTY_SCALE
}

/// Trade size: the least of the three available sizes, scaled down by the
/// configured factor (rounded down).
pub open spec fn trade_size(cfg: ComboStratConfig, call_avail: int, put_avail: int, spot_avail: int) -> int {
    min_int(min_int(call_avail, put_avail), spot_avail) * cfg.size_factor / (BP_SCALE as int)
}

/// The trade reaches at least one whole contract of an option with this multiplier.
pub open spec fn fillable(size: int, mult: u64) -> bool {
    size * mult >= QTY_SCALE
}

/// Whole contracts of an option with this multiplier for a trade size
/// (rounded down, at most `u64::MAX`).
pub open spec fn contracts(size: int, mult: u64) -> u64 {
    let c = size * mult / (QTY_SCALE as int);
    if c > u64::MAX {
        u64::MAX
    } else {
        c as u64
    }
}

/// The legs of a reversal: buy the call at its ask, sell the put at its
/// bid, sell spot at its bid; none where a leg would be under one contract.
#[verifier::opaque]
pub open spec fn reversal_legs(cfg: ComboStratConfig, spot: SpotQuote, call: LedgerXOptionsContract, put: LedgerXOptionsContract) -> Option<(OrderView, LedgerXOrder, LedgerXOrder)> {
    let size = trade_size(
        cfg,
        avail(call.ask_quantity.unwrap(), call.multiplier),
        avail(put.bid_quantity.unwrap(), put.multiplier),
        spot.best_bid_qty as int,
    );
    if fillable(size, call.multiplier) && fillable(size, put.multiplier) {
        Some(
            (
                OrderView { symbol: cfg.symbol@, is_buy: false, qty: size as u64, price: spot.best_bid },
                LedgerXOrder { contract_id: call.id, is_ask: false, price: call.ask.unwrap(), size: contracts(size, call.multiplier) },
                LedgerXOrder { contract_id: put.id, is_ask: true, price: put.bid.unwrap(), size: contracts(size, put.multiplier) },
            ),
        )
    } else {
        None
    }
}

/// The legs of a conversion: sell the call at its bid, buy the put at its
/// ask, buy spot at its ask; none where a leg would be under one contract.
#[verifier::opaque]
pub open spec fn conversion_legs(cfg: ComboStratConfig, spot: SpotQuote, call: LedgerXOptionsContract, put: LedgerXOptionsContract) -> Option<(OrderView, LedgerXOrder, LedgerXOrder)> {
    let size = trade_size(
        cfg,
        avail(call.bid_quantity.unwrap(), call.multiplier),
        avail(put.ask_quantity.unwrap(), put.multiplier),
        spot.best_ask_qty as int,
    );
    if fillable(size, call.multiplier) && fillable(size, put.multiplier) {
        Some(
            (
                OrderView { symbol: cfg.symbol@, is_buy: true, qty: size as u64, price: spot.best_ask },
                LedgerXOrder { contract_id: call.id, is_ask: true, price: call.bid.unwrap(), size: contracts(size, call.multiplier) },
                LedgerXOrder { contract_id: put.id, is_ask: false, price: put.ask.unwrap(), size: contracts(size, put.multiplier) },
            ),
        )
    } else {
        None
    }
}

proof fn lemma_mul_fits(a: u64, b: u64)
    ensures
        0 <= a as int * b as int <= u128::MAX,
{
    assert(a as int * b as int <= 0xffff_ffff_ffff_ffff * 0xffff_ffff_ffff_ffff) by (nonlinear_arith)
        requires
            0 <= a <= 0xffff_ffff_ffff_ffff,
            0 <= b <= 0xffff_ffff_ffff_ffff,
    ;
    assert(0 <= a as int * b as int) by (nonlinear_arith)
        requires
            0 <= a,
            0 <= b,
    ;
}

/// `min(avail(qty, mult), cap)`, without overflow.
fn capped_avail(qty: u64, mult: u64, cap: u64) -> (r: u64)
    ensures
        r as int == min_int(avail(qty, mult), cap as int),
{
    proof {
        lemma_mul_fits(qty, mult);
    }
    let am = qty as u128 * mult as u128;
    if am > cap as u128 {
        assert(am * QTY_SCALE >= am) by (nonlinear_arith);
        cap
    } else {
        assert(am * 100_000_000 <= 0xffff_ffff_ffff_ffff * 100_000_000) by (nonlinear_arith)
            requires
                am <= 0xffff_ffff_ffff_ffff,
        ;
        let v = am * (QTY_SCALE as u128);
        if v > cap as u128 {
            cap
        } else {
            v as u64
        }
    }
}

/// The trade size and the contracts of each option leg, where both legs
/// reach a whole contract.
fn size_legs(cfg: &ComboStratConfig, call_qty: u64, call_mult: u64, put_qty: u64, put_mult: u64, spot_qty: u64) -> (r: Option<(u64, u64, u64)>)
    requires
        cfg.wf(),
    ensures
        ({
            let size = trade_size(*cfg, avail(call_qty, call_mult), avail(put_qty, put_mult), spot_qty as int);
            match r {
                Some((s, c, p)) => fillable(size, call_mult) && fillable(size, put_mult) && s == size
                    && c == contracts(size, call_mult) && p == contracts(size, put_mult),
                None => !(fillable(size, call_mult) && fillable(size, put_mult)),
            }
        }),
{
    let ca = capped_avail(call_qty, call_mult, spot_qty);
    let pa = capped_avail(put_qty, put_mult, spot_qty);
    let m = if ca <= pa {
        ca
    } else {
        pa
    };
    let factor = cfg.size_factor as u128;
    assert(m as u128 * factor <= m as u128 * 10_000) by (nonlinear_arith)
        requires
            factor <= 10_000,
    ;
    let size = m as u128 * factor / (BP_SCALE as u128);
    assert(size <= m) by (nonlinear_arith)
        requires
            size == m as u128 * factor / 10_000,
            factor <= 10_000,
    ;
    let size = size as u64;
    let ghost gsize = trade_size(*cfg, avail(call_qty, call_mult), avail(put_qty, put_mult), spot_qty as int);
    assert(gsize == size);
    proof {
        lemma_mul_fits(size, call_mult);
        lemma_mul_fits(size, put_mult);
    }
    let cm = size as u128 * call_mult as u128;
    let pm = size as u128 * put_mult as u128;
    if cm < QTY_SCALE as u128 || pm < QTY_SCALE as u128 {
        return None;
    }
    let cc = cm / (QTY_SCALE as u128);
    let pc = pm / (QTY_SCALE as u128);
    let cc = if cc > u64::MAX as u128 {
        u64::MAX
    } else {
        cc as u64
    };
    let pc = if pc > u64::MAX as u128 {
        u64::MAX
    } else {
        pc as u64
    };
    Some((size, cc, pc))
}

impl Trade {
    /// Appends the legs of a reversal on `call` and `put` against `spot`,
    /// where both option legs reach a whole contract; returns whether it did.
    pub fn reversal(&mut self, cfg: &ComboStratConfig, spot: &SpotQuote, call: &LedgerXOptionsContract, put: &LedgerXOptionsContract) -> (r: bool)
        requires
            cfg.wf(),
            call.ask is Some,
            call.ask_quantity is Some,
            put.bid is Some,
            put.bid_quantity is Some,
        ensures
            match reversal_legs(*cfg, *spot, *call, *put) {
                Some((o, c, p)) => r && order_views(final(self).binance@) == order_views(old(self).binance@).push(o)
                    && final(self).ledgerx@ == old(self).ledgerx@.push(c).push(p),
                None => !r && final(self).binance@ == old(self).binance@ && final(self).ledgerx@ == old(self).ledgerx@,
            },
    {
        reveal(reversal_legs);
        let call_ask = call.ask.unwrap();
        let put_bid = put.bid.unwrap();
        match size_legs(cfg, call.ask_quantity.unwrap(), call.multiplier, put.bid_quantity.unwrap(), put.multiplier, spot.best_bid_qty) {
            Some((size, cc, pc)) => {
                let ghost before = self.binance@;
                self.binance.push(BinanceMarketOrder { symbol: cfg.symbol.clone(), is_buy: false, qty: size, price: spot.best_bid });
                proof {
                    assert(order_views(self.binance@) =~= order_views(before).push(self.binance@.last()@));
                }
                self.ledgerx.push(LedgerXOrder { contract_id: call.id, is_ask: false, price: call_ask, size: cc });
                self.ledgerx.push(LedgerXOrder { contract_id: put.id, is_ask: true, price: put_bid, size: pc });
                true
            },
            None => false,
        }
    }

    /// Appends the legs of a conversion on `call` and `put` against `spot`,
    /// where both option legs reach a whole contract; returns whether it did.
    pub fn conversion(&mut self, cfg: &ComboStratConfig, spot: &SpotQuote, call: &LedgerXOptionsContract, put: &LedgerXOptionsContract) -> (r: bool)
        requires
            cfg.wf(),
            call.bid is Some,
            call.bid_quantity is Some,
            put.ask is Some,
            put.ask_quantity is Some,
        ensures
            match conversion_legs(*cfg, *spot, *call, *put) {
                Some((o, c, p)) => r && order_views(final(self).binance@) == order_views(old(self).binance@).push(o)
                    && final(self).ledgerx@ == old(self).ledgerx@.push(c).push(p),
                None => !r && final(self).binance@ == old(self).binance@ && final(self).ledgerx@ == old(self).ledgerx@,
            },
    {
        reveal(conversion_legs);
        let call_bid = call.bid.unwrap();
        let put_ask = put.ask.unwrap();
        match size_legs(cfg, call.bid_quantity.unwrap(), call.multiplier, put.ask_quantity.unwrap(), put.multiplier, spot.best_ask_qty) {
            Some((size, cc, pc)) => {
                let ghost before = self.binance@;
                self.binance.push(BinanceMarketOrder { symbol: cfg.symbol.clone(), is_buy: true, qty: size, price: spot.best_ask });
                proof {
                    assert(order_views(self.binance@) =~= order_views(before).push(self.binance@.last()@));
                }
                self.ledgerx.push(LedgerXOrder { contract_id: call.id, is_ask: true, price: call_bid, size: cc });
                self.ledgerx.push(LedgerXOrder { contract_id: put.id, is_ask: false, price: put_ask, size: pc });
                true
            },
            None => false,
        }
    }
}

/// Conversion holds for the pair: its quotes are all there and the
/// condition clears the costs.
pub open spec fn conv_fires(cfg: ComboStratConfig, spot: SpotQuote, call: LedgerXOptionsContract, put: LedgerXOptionsContract) -> bool {
    &&& call.bid is Some
    &&& call.bid_quantity is Some
    &&& put.ask is Some
    &&& put.ask_quantity is Some
    &&& conv_cond(cfg, spot.best_ask, call.bid.unwrap(), put.ask.unwrap(), call.pv_strike)
}

/// Reversal holds for the pair: its quotes are all there and the condition
/// clears the costs.
pub open spec fn rev_fires(cfg: ComboStratConfig, spot: SpotQuote, call: LedgerXOptionsContract, put: LedgerXOptionsContract) -> bool {
    &&& call.ask is Some
    &&& call.ask_quantity is Some
    &&& put.bid is Some
    &&& put.bid_quantity is Some
    &&& rev_cond(cfg, spot.best_bid, call.ask.unwrap(), put.bid.unwrap(), call.pv_strike)
}

/// What one evaluation of a call and its put against a spot quote gives: a
/// fault where both conditions hold, else the legs of the condition that
/// holds, if any and if they reach a whole contract.
pub open spec fn pair_step(cfg: ComboStratConfig, spot: SpotQuote, call: LedgerXOptionsContract, put: LedgerXOptionsContract) -> Result<Option<(OrderView, LedgerXOrder, LedgerXOrder)>, StratFault> {
    if conv_fires(cfg, spot, call, put) && rev_fires(cfg, spot, call, put) {
        Err(StratFault::ConflictingSignals { call: call.id, put: put.id })
    } else if conv_fires(cfg, spot, call, put) {
        Ok(conversion_legs(cfg, spot, call, put))
    } else if rev_fires(cfg, spot, call, put) {
        Ok(reversal_legs(cfg, spot, call, put))
    } else {
        Ok(None)
    }
}

/// The legs that evaluating every listed call with a counterpart gives, in
/// order, or the first fault.
pub open spec fn scan(nodes: Seq<LedgerXOptionsContract>, calls: Seq<LatticePointer>, cfg: ComboStratConfig, spot: SpotQuote) -> Result<(Seq<OrderView>, Seq<LedgerXOrder>), StratFault>
    decreases calls.len(),
{
    if calls.len() == 0 {
        Ok((seq![], seq![]))
    } else {
        match scan(nodes, calls.drop_last(), cfg, spot) {
            Err(e) => Err(e),
            Ok((b, l)) => {
                let call = nodes[calls.last() as int];
                match call.adjacent {
                    None => Ok((b, l)),
                    Some(p) => match pair_step(cfg, spot, call, nodes[p as int]) {
                        Err(e) => Err(e),
                        Ok(None) => Ok((b, l)),
                        Ok(Some((o, c, q))) => Ok((b.push(o), l.push(c).push(q))),
                    },
                }
            },
        }
    }
}

/// What a list of legs gives once assembled: no trade where it is empty, a
/// fault where the spot legs overflow, else the netted trade.
pub open spec fn assembled(legs: Result<(Seq<OrderView>, Seq<LedgerXOrder>), StratFault>) -> Result<Option<(Seq<OrderView>, Seq<LedgerXOrder>)>, StratFault> {
    match legs {
        Err(e) => Err(e),
        Ok((b, l)) => if b.len() == 0 {
            Ok(None)
        } else if total_qty(b) > u64::MAX {
            Err(StratFault::SizeOverflow)
        } else {
            Ok(Some((netted(b), l)))
        },
    }
}

/// The trade `r` is the one `e` describes.
pub open spec fn trade_is(r: Result<Option<Trade>, StratFault>, e: Result<Option<(Seq<OrderView>, Seq<LedgerXOrder>)>, StratFault>) -> bool {
    match r {
        Err(f) => e == Err::<Option<(Seq<OrderView>, Seq<LedgerXOrder>)>, StratFault>(f),
        Ok(None) => e == Ok::<Option<(Seq<OrderView>, Seq<LedgerXOrder>)>, StratFault>(None),
        Ok(Some(t)) => e == Ok::<Option<(Seq<OrderView>, Seq<LedgerXOrder>)>, StratFault>(
            Some((order_views(t.binance@), t.ledgerx@)),
        ),
    }
}

/// Evaluates both conditions for `call` and `put` against `spot` and
/// appends the legs of the one that holds.
fn arb_check(cfg: &ComboStratConfig, out: &mut Trade, call: &LedgerXOptionsContract, put: &LedgerXOptionsContract, spot: &SpotQuote) -> (r: Result<bool, StratFault>)
    requires
        cfg.wf(),
    ensures
        match pair_step(*cfg, *spot, *call, *put) {
            Err(e) => r == Err::<bool, StratFault>(e) && final(out).binance@ == old(out).binance@
                && final(out).ledgerx@ == old(out).ledgerx@,
            Ok(None) => r == Ok::<bool, StratFault>(false) && final(out).binance@ == old(out).binance@
                && final(out).ledgerx@ == old(out).ledgerx@,
            Ok(Some((o, c, p))) => r == Ok::<bool, StratFault>(true) && order_views(final(out).binance@)
                == order_views(old(out).binance@).push(o) && final(out).ledgerx@ == old(out).ledgerx@.push(c).push(p),
        },
{
    let conv = match (call.bid, call.bid_quantity, put.ask, put.ask_quantity) {
        (Some(bid), Some(_), Some(ask), Some(_)) => cfg.is_conv_arb(spot.best_ask, bid, ask, call.pv_strike),
        _ => false,
    };
    let rev = match (call.ask, call.ask_quantity, put.bid, put.bid_quantity) {
        (Some(ask), Some(_), Some(bid), Some(_)) => cfg.is_rev_arb(spot.best_bid, ask, bid, call.pv_strike),
        _ => false,
    };
    if conv && rev {
        return Err(StratFault::ConflictingSignals { call: call.id, put: put.id });
    }
    if conv {
        return Ok(out.conversion(cfg, spot, call, put));
    }
    if rev {
        return Ok(out.reversal(cfg, spot, call, put));
    }
    Ok(false)
}

/// The ids that the catalog lists.
pub open spec fn catalog_ids(t: Seq<ContractSpec>) -> Set<u64> {
    Set::new(|id: u64| exists|k: int| 0 <= k < t.len() && (#[trigger] t[k]).spec_id() == id)
}

/// The engine: the chain, the ids of the catalog, the last spot quote and
/// the configuration.
pub struct ComboStrat {
    pub opts_chain: LedgerXOptionsChain,
    pub spec_ids: HashSet<u64>,
    pub last_spot_tick: Option<SpotQuote>,
    pub config: ComboStratConfig,
}

impl ComboStrat {
    pub open spec fn wf(&self) -> bool {
        self.opts_chain.wf() && self.config.wf()
    }

    /// Builds the engine from the catalog: the chain of the active options
    /// on the configured underlying, and no spot quote yet.
    pub fn startup(config: ComboStratConfig, table: &Vec<ContractSpec>) -> (r: Self)
        requires
            config.wf(),
            unique_ids(table@),
        ensures
            r.wf(),
            r.opts_chain.built_from(table@, config.underlying@),
            r.spec_ids@ == catalog_ids(table@),
            r.last_spot_tick is None,
            r.config == config,
    {
        let opts_chain = LedgerXOptionsChain::from_spec_table(config.underlying.as_str(), table);
        let mut spec_ids: HashSet<u64> = HashSet::new();
        let mut i: usize = 0;
        while i < table.len()
            invariant
                i <= table@.len(),
                spec_ids@ == catalog_ids(table@.take(i as int)),
            decreases table@.len() - i,
        {
            let id = table[i].id();
            spec_ids.insert(id);
            proof {
                let t1 = table@.take(i + 1);
                let t0 = table@.take(i as int);
                assert forall|x: u64| spec_ids@.contains(x) <==> catalog_ids(t1).contains(x) by {
                    if x == id {
                        assert(t1[i as int].spec_id() == x);
                    }
                    if catalog_ids(t1).contains(x) && x != id {
                        let k = choose|k: int| 0 <= k < t1.len() && (#[trigger] t1[k]).spec_id() == x;
                        assert(t0[k] == t1[k]);
                    }
                    if catalog_ids(t0).contains(x) {
                        let k = choose|k: int| 0 <= k < t0.len() && (#[trigger] t0[k]).spec_id() == x;
                        assert(t0[k] == t1[k]);
                    }
                }
                assert(spec_ids@ =~= catalog_ids(t1));
            }
            i += 1;
        }
        proof {
            assert(table@.take(table@.len() as int) =~= table@);
        }
        ComboStrat { opts_chain, spec_ids, last_spot_tick: None, config }
    }

    /// Handles a spot quote: evaluates every call that has a counterpart
    /// against it, caches it, and returns the netted trade, if any leg was
    /// assembled.
    pub fn process_spot_update(&mut self, msg: SpotQuote) -> (r: Result<Option<Trade>, StratFault>)
        requires
            old(self).wf(),
        ensures
            final(self).wf(),
            final(self).opts_chain == old(self).opts_chain,
            final(self).spec_ids == old(self).spec_ids,
            final(self).config == old(self).config,
            final(self).last_spot_tick == Some(msg),
            trade_is(r, assembled(scan(old(self).opts_chain.nodes@, old(self).opts_chain.calls@, old(self).config, msg))),
    {
        self.last_spot_tick = Some(msg);
        let mut out = Trade::empty();
        proof {
            lemma_refs_in_range(self.opts_chain);
        }
        match scan_calls(&self.opts_chain, &self.config, &msg, &mut out) {
            Ok(()) => {},
            Err(e) => return Err(e),
        }
        finish(out)
    }

    /// Handles an option quote: a contract the catalog does not list is a
    /// fault; one the chain does not hold is ignored; otherwise its node takes
    /// the quote, and its pair (where it has a counterpart) is evaluated
    /// against the last spot quote, if there is one.
    pub fn process_opts_update(&mut self, msg: BookTop) -> (r: Result<Option<Trade>, StratFault>)
        requires
            old(self).wf(),
        ensures
            final(self).wf(),
            final(self).spec_ids == old(self).spec_ids,
            final(self).config == old(self).config,
            final(self).last_spot_tick == old(self).last_spot_tick,
            final(self).opts_chain.calls@ == old(self).opts_chain.calls@,
            final(self).opts_chain.puts@ == old(self).opts_chain.puts@,
            final(self).opts_chain.id_map@ == old(self).opts_chain.id_map@,
            !old(self).spec_ids@.contains(msg.contract_id) ==> r == Err::<Option<Trade>, StratFault>(
                StratFault::UnseenContract(msg.contract_id),
            ) && final(self).opts_chain.nodes@ == old(self).opts_chain.nodes@,
            old(self).spec_ids@.contains(msg.contract_id) && !old(self).opts_chain.id_map@.contains_key(
                msg.contract_id,
            ) ==> r is Ok && r.unwrap() is None && final(self).opts_chain.nodes@ == old(self).opts_chain.nodes@,
            old(self).spec_ids@.contains(msg.contract_id) && old(self).opts_chain.id_map@.contains_key(
                msg.contract_id,
            ) ==> {
                let i = old(self).opts_chain.id_map@[msg.contract_id] as int;
                &&& final(self).opts_chain.nodes@ == old(self).opts_chain.nodes@.update(i, quoted(old(self).opts_chain.nodes@[i], msg))
                &&& trade_is(r, assembled(pair_legs(final(self).opts_chain.nodes@, i, old(self).last_spot_tick, old(self).config)))
            },
    {
        if !self.spec_ids.contains(&msg.contract_id) {
            return Err(StratFault::UnseenContract(msg.contract_id));
        }
        match self.opts_chain.update_quote(msg.contract_id, msg.bid, msg.bid_size, msg.ask, msg.ask_size) {
            None => Ok(None),
            Some(i) => {
                proof {
                    lemma_refs_in_range(self.opts_chain);
                }
                evaluate_pair(&self.opts_chain, i, &self.last_spot_tick, &self.config)
            },
        }
    }
}

/// Evaluates node `i` and its counterpart against the last spot quote.
fn evaluate_pair(chain: &LedgerXOptionsChain, i: usize, last_spot: &Option<SpotQuote>, cfg: &ComboStratConfig) -> (r: Result<Option<Trade>, StratFault>)
    requires
        refs_in_range(*chain),
        cfg.wf(),
        (i as int) < chain.nodes@.len(),
    ensures
        trade_is(r, assembled(pair_legs(chain.nodes@, i as int, *last_spot, *cfg))),
{
    let ghost nodes = chain.nodes@;
    proof {
        assert(nodes[i as int].adjacent is Some ==> (nodes[i as int].adjacent.unwrap() as int) < nodes.len());
        assert(order_views(Seq::<BinanceMarketOrder>::empty()) =~= Seq::<OrderView>::empty());
    }
    let node = &chain.nodes[i];
    proof {
        let e = Ok::<(Seq<OrderView>, Seq<LedgerXOrder>), StratFault>((seq![], seq![]));
        if node.adjacent is None || last_spot is None {
            assert(pair_legs(nodes, i as int, *last_spot, *cfg) == e);
            assert(assembled(e) == Ok::<Option<(Seq<OrderView>, Seq<LedgerXOrder>)>, StratFault>(None));
        }
    }
    match node.adjacent {
        None => Ok(None),
        Some(j) => match last_spot {
            None => Ok(None),
            Some(spot) => {
                let adj = &chain.nodes[j];
                let mut out = Trade::empty();
                proof {
                    assert(order_views(out.binance@) =~= Seq::<OrderView>::empty());
                }
                let res = if node.is_call {
                    arb_check(cfg, &mut out, node, adj, spot)
                } else {
                    arb_check(cfg, &mut out, adj, node, spot)
                };
                match res {
                    Err(e) => Err(e),
                    Ok(_) => {
                        proof {
                            assert(out.ledgerx@.len() == 0 ==> out.ledgerx@ =~= Seq::<LedgerXOrder>::empty());
                            assert(out.binance@.len() == 0 ==> order_views(out.binance@) =~= Seq::<OrderView>::empty());
                            if out.binance@.len() == 1 {
                                assert(order_views(out.binance@) =~= seq![order_views(out.binance@)[0]]);
                            }
                            if out.ledgerx@.len() == 2 {
                                assert(out.ledgerx@ =~= seq![out.ledgerx@[0], out.ledgerx@[1]]);
                            }
                        }
                        finish(out)
                    },
                }
            },
        },
    }
}

/// A node with the quote of `msg` recorded.
pub open spec fn quoted(n: LedgerXOptionsContract, msg: BookTop) -> LedgerXOptionsContract {
    LedgerXOptionsContract {
        bid: Some(msg.bid),
        bid_quantity: Some(msg.bid_size),
        ask: Some(msg.ask),
        ask_quantity: Some(msg.ask_size),
        ..n
    }
}

/// The legs that evaluating node `i` and its counterpart against the last
/// spot quote gives: none where it has no counterpart or no spot quote was
/// seen.
pub open spec fn pair_legs(nodes: Seq<LedgerXOptionsContract>, i: int, last_spot: Option<SpotQuote>, cfg: ComboStratConfig) -> Result<(Seq<OrderView>, Seq<LedgerXOrder>), StratFault> {
    let node = nodes[i];
    match (node.adjacent, last_spot) {
        (Some(j), Some(spot)) => {
            let other = nodes[j as int];
            let step = if node.is_call {
                pair_step(cfg, spot, node, other)
            } else {
                pair_step(cfg, spot, other, node)
            };
            match step {
                Err(e) => Err(e),
                Ok(None) => Ok((seq![], seq![])),
                Ok(Some((o, c, p))) => Ok((seq![o], seq![c, p])),
            }
        },
        _ => Ok((seq![], seq![])),
    }
}

/// Turns the assembled legs into the result: no trade where there is no
/// spot leg, a fault where the spot legs overflow, else the netted trade.
fn finish(out: Trade) -> (r: Result<Option<Trade>, StratFault>)
    ensures
        trade_is(r, assembled(Ok((order_views(out.binance@), out.ledgerx@)))),
{
    let mut out = out;
    if out.binance.len() == 0 {
        return Ok(None);
    }
    match out.total_quantity() {
        None => Err(StratFault::SizeOverflow),
        Some(_) => {
            out.net_out();
            Ok(Some(out))
        },
    }
}

/// Evaluates every listed call that has a counterpart against `spot`,
/// appending the legs of each opportunity to `out`, which starts empty.
fn scan_calls(chain: &LedgerXOptionsChain, cfg: &ComboStratConfig, spot: &SpotQuote, out: &mut Trade) -> (r: Result<(), StratFault>)
    requires
        refs_in_range(*chain),
        cfg.wf(),
        old(out).binance@.len() == 0,
        old(out).ledgerx@.len() == 0,
    ensures
        match scan(chain.nodes@, chain.calls@, *cfg, *spot) {
            Err(e) => r == Err::<(), StratFault>(e),
            Ok((b, l)) => r is Ok && order_views(final(out).binance@) == b && final(out).ledgerx@ == l,
        },
{
    let ghost nodes = chain.nodes@;
    let ghost calls = chain.calls@;
    proof {
        assert(calls.take(0) =~= Seq::<LatticePointer>::empty());
        assert(order_views(out.binance@) =~= Seq::<OrderView>::empty());
        assert(out.ledgerx@ =~= Seq::<LedgerXOrder>::empty());
        assert(scan(nodes, calls.take(0), *cfg, *spot) == Ok::<(Seq<OrderView>, Seq<LedgerXOrder>), StratFault>(
            (Seq::<OrderView>::empty(), Seq::<LedgerXOrder>::empty()),
        ));
    }
    let mut i: usize = 0;
    while i < chain.calls.len()
        invariant
            refs_in_range(*chain),
            cfg.wf(),
            nodes == chain.nodes@,
            calls == chain.calls@,
            i <= calls.len(),
            scan(nodes, calls.take(i as int), *cfg, *spot) == Ok::<(Seq<OrderView>, Seq<LedgerXOrder>), StratFault>(
                (order_views(out.binance@), out.ledgerx@),
            ),
        decreases calls.len() - i,
    {
        proof {
            assert(calls.take(i + 1).drop_last() =~= calls.take(i as int));
            assert(calls.take(i + 1).last() == calls[i as int]);
            assert((calls[i as int] as int) < nodes.len());
            assert(nodes[calls[i as int] as int].adjacent is Some ==> (nodes[calls[i as int] as int].adjacent.unwrap() as int) < nodes.len());
        }
        let c = chain.calls[i];
        let call = &chain.nodes[c];
        match call.adjacent {
            Some(p) => {
                let put = &chain.nodes[p];
                match arb_check(cfg, out, call, put, spot) {
                    Ok(_) => {},
                    Err(e) => {
                        proof {
                            lemma_scan_err_sticks(nodes, calls, *cfg, *spot, i as int + 1);
                        }
                        return Err(e);
                    },
                }
            },
            None => {},
        }
        i += 1;
    }
    proof {
        assert(calls.take(calls.len() as int) =~= calls);
    }
    Ok(())
}

/// A fault in the scan of a prefix of the calls is the fault of the whole scan.
proof fn lemma_scan_err_sticks(nodes: Seq<LedgerXOptionsContract>, calls: Seq<LatticePointer>, cfg: ComboStratConfig, spot: SpotQuote, n: int)
    requires
        0 <= n <= calls.len(),
        scan(nodes, calls.take(n), cfg, spot) is Err,
    ensures
        scan(nodes, calls, cfg, spot) == scan(nodes, calls.take(n), cfg, spot),
    decreases calls.len() - n,
{
    if n == calls.len() {
        assert(calls.take(n) =~= calls);
    } else {
        assert(calls.take(n + 1).drop_last() =~= calls.take(n));
        lemma_scan_err_sticks(nodes, calls, cfg, spot, n + 1);
    }
}

} // verus!
