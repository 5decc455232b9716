use combo_arb::options_chain::{ContractSpec, OptionContractSpec};
use combo_arb::quote::parse_fixed;
use combo_arb::strat::{
    BookTop, ComboStrat, ComboStratConfig, SpotQuote, StratFault, DEFAULT_SIZE_FACTOR, QTY_SCALE,
};
use combo_arb::trade::{BinanceMarketOrder, LedgerXOrder, Trade};

fn fixed(x: f64) -> u64 {
    (x * QTY_SCALE as f64).round() as u64
}

fn pv_strike(strike: u64, rate: f64, tte: f64) -> u64 {
    fixed(strike as f64 * (-rate * tte).exp())
}

fn mock_contract_table() -> Vec<ContractSpec> {
    let tte = 0.6600180575256285;
    let call = OptionContractSpec {
        id: 22248027,
        label: "BTC-Mini-30JUN2023-10000-Call".to_string(),
        underlying: "CBTC".to_string(),
        strike: 10000,
        is_call: true,
        multiplier: 100,
        active: true,
        expiry: 0,
        pv_strike: pv_strike(10000, 0.02, tte),
    };
    let put = OptionContractSpec {
        id: 22248028,
        label: "BTC-Mini-30JUN2023-10000-Put".to_string(),
        underlying: "CBTC".to_string(),
        strike: 10000,
        is_call: false,
        multiplier: 100,
        active: true,
        expiry: 0,
        pv_strike: pv_strike(10000, 0.02, tte),
    };
    vec![ContractSpec::Option(call), ContractSpec::Option(put), ContractSpec::Other(7)]
}

fn config() -> ComboStratConfig {
    ComboStratConfig {
        symbol: "BTCUSDT".to_string(),
        underlying: "CBTC".to_string(),
        opts_tc: 0,
        spot_tc: 0,
        size_factor: DEFAULT_SIZE_FACTOR,
    }
}

fn spot(bid: &str, ask: &str) -> SpotQuote {
    SpotQuote::parse(bid, "1.0", ask, "1.0").unwrap()
}

fn book(id: u64, bid: f64, ask: f64) -> BookTop {
    BookTop { contract_id: id, bid: fixed(bid), bid_size: 1, ask: fixed(ask), ask_size: 1 }
}

enum Msg {
    Spot(SpotQuote),
    Opts(BookTop),
}

fn mock_msg_stream() -> Vec<Msg> {
    vec![
        Msg::Spot(spot("20449.0", "20450.0")),
        Msg::Opts(book(22248027, 11070.0, 11180.0)),
        Msg::Opts(book(22248028, 500.0, 580.0)),
        Msg::Spot(spot("20299.0", "20300.0")),
    ]
}

fn order(symbol: &str, is_buy: bool, qty: u64) -> BinanceMarketOrder {
    BinanceMarketOrder { symbol: symbol.to_string(), is_buy, qty, price: 0 }
}

fn summary(t: &Trade) -> Vec<(String, bool, u64, u64)> {
    t.binance.iter().map(|o| (o.symbol.clone(), o.is_buy, o.qty, o.price)).collect()
}

#[test]
fn find_arb() {
    let table = mock_contract_table();
    let mut strat = ComboStrat::startup(config(), &table);
    let mut trades = vec![];
    for (k, msg) in mock_msg_stream().into_iter().enumerate() {
        let out = match msg {
            Msg::Spot(q) => strat.process_spot_update(q),
            Msg::Opts(b) => strat.process_opts_update(b),
        };
        let out = out.unwrap();
        if k < 3 {
            assert!(out.is_none());
        }
        if let Some(t) = out {
            trades.push(t);
        }
    }
    assert_eq!(trades.len(), 1);
    let t = &trades[0];
    // Conversion: buy spot at the ask, sell the call at its bid, buy the put at its ask.
    assert_eq!(summary(t), vec![("BTCUSDT".to_string(), true, QTY_SCALE / 2, fixed(20300.0))]);
    assert_eq!(
        t.ledgerx,
        vec![
            LedgerXOrder { contract_id: 22248027, is_ask: true, price: fixed(11070.0), size: 50 },
            LedgerXOrder { contract_id: 22248028, is_ask: false, price: fixed(580.0), size: 50 },
        ]
    );
}

#[test]
fn test_net_out() {
    let mut trade = Trade {
        binance: vec![
            order("coin", true, 60),
            order("quoyn", true, 80),
            order("coin", false, 200),
            order("quoyn", false, 60),
            order("coin", true, 70),
            order("koheen", true, 100),
            order("koheen", false, 100),
        ],
        ledgerx: vec![],
    };
    trade.net_out();
    assert_eq!(
        summary(&trade),
        vec![("coin".to_string(), false, 70, 0), ("quoyn".to_string(), true, 20, 0)]
    );
}

#[test]
fn netting_twice_is_netting_once() {
    let mut trade = Trade {
        binance: vec![order("a", true, 5), order("b", false, 3), order("a", true, 2), order("c", true, 4), order("c", false, 4)],
        ledgerx: vec![LedgerXOrder { contract_id: 1, is_ask: true, price: 2, size: 3 }],
    };
    trade.net_out();
    let once = summary(&trade);
    assert_eq!(once, vec![("a".to_string(), true, 7, 0), ("b".to_string(), false, 3, 0)]);
    trade.net_out();
    assert_eq!(summary(&trade), once);
    assert_eq!(trade.ledgerx.len(), 1);
}

#[test]
fn offsetting_legs_disappear() {
    let mut trade = Trade { binance: vec![order("x", true, 9), order("x", false, 9)], ledgerx: vec![] };
    trade.net_out();
    assert!(trade.binance.is_empty());
}

#[test]
fn parity_threshold_boundary() {
    let cfg = config();
    let pv = pv_strike(10000, 0.02, 0.6600180575256285);
    // Synthetic long (call ask 11180, put bid 500) is about 20548.9: the
    // spot bid stays below it at both quotes, so no reversal.
    assert!(!cfg.is_rev_arb(fixed(20299.0), fixed(11180.0), fixed(500.0), pv));
    assert!(!cfg.is_rev_arb(fixed(20449.0), fixed(11180.0), fixed(500.0), pv));
    // Synthetic short (call bid 11070, put ask 580) is about 20358.9.
    assert!(cfg.is_conv_arb(fixed(20300.0), fixed(11070.0), fixed(580.0), pv));
    assert!(!cfg.is_conv_arb(fixed(20450.0), fixed(11070.0), fixed(580.0), pv));
    // A spot bid above the synthetic long gives a reversal.
    assert!(cfg.is_rev_arb(fixed(20600.0), fixed(11180.0), fixed(500.0), pv));
}

#[test]
fn transaction_costs_raise_the_bar() {
    let mut cfg = config();
    let pv = pv_strike(10000, 0.02, 0.6600180575256285);
    // The conversion edge at spot ask 20300 is about 0.29%.
    cfg.opts_tc = 1000;
    cfg.spot_tc = 1000;
    assert!(cfg.is_conv_arb(fixed(20300.0), fixed(11070.0), fixed(580.0), pv));
    cfg.opts_tc = 2000;
    cfg.spot_tc = 1000;
    assert!(!cfg.is_conv_arb(fixed(20300.0), fixed(11070.0), fixed(580.0), pv));
}

#[test]
fn exact_threshold_is_not_an_opportunity() {
    let cfg = config();
    // spot bid == synthetic long: the ratio is zero, not above zero.
    assert!(!cfg.is_rev_arb(1000, 600, 100, 500));
    assert!(cfg.is_rev_arb(1001, 600, 100, 500));
}

#[test]
fn reversal_trade_sells_spot() {
    let mut strat = ComboStrat::startup(config(), &mock_contract_table());
    assert!(strat.process_spot_update(spot("20600.0", "20700.0")).unwrap().is_none());
    assert!(strat.process_opts_update(book(22248027, 11070.0, 11180.0)).unwrap().is_none());
    let t = strat.process_opts_update(book(22248028, 500.0, 580.0)).unwrap().unwrap();
    assert_eq!(summary(&t), vec![("BTCUSDT".to_string(), false, QTY_SCALE / 2, fixed(20600.0))]);
    assert_eq!(
        t.ledgerx,
        vec![
            LedgerXOrder { contract_id: 22248027, is_ask: false, price: fixed(11180.0), size: 50 },
            LedgerXOrder { contract_id: 22248028, is_ask: true, price: fixed(500.0), size: 50 },
        ]
    );
}

#[test]
fn too_small_a_size_is_abandoned() {
    let mut strat = ComboStrat::startup(config(), &mock_contract_table());
    strat.process_opts_update(book(22248027, 11070.0, 11180.0)).unwrap();
    strat.process_opts_update(book(22248028, 500.0, 580.0)).unwrap();
    // Half of 0.01 spot is 0.005: under one contract of multiplier 100.
    let q = SpotQuote::parse("20299.0", "0.01", "20300.0", "0.01").unwrap();
    assert!(strat.process_spot_update(q).unwrap().is_none());
    let q = SpotQuote::parse("20299.0", "0.02", "20300.0", "0.02").unwrap();
    let t = strat.process_spot_update(q).unwrap().unwrap();
    assert_eq!(t.ledgerx[0].size, 1);
}

#[test]
fn unknown_id_is_a_fault() {
    let mut strat = ComboStrat::startup(config(), &mock_contract_table());
    assert_eq!(
        strat.process_opts_update(book(99, 1.0, 2.0)).err(),
        Some(StratFault::UnseenContract(99))
    );
}

#[test]
fn known_non_option_id_is_ignored() {
    let mut strat = ComboStrat::startup(config(), &mock_contract_table());
    assert!(strat.process_opts_update(book(7, 1.0, 2.0)).unwrap().is_none());
}

#[test]
fn option_quote_before_any_spot_quote_does_not_evaluate() {
    let mut strat = ComboStrat::startup(config(), &mock_contract_table());
    assert!(strat.process_opts_update(book(22248027, 11070.0, 11180.0)).unwrap().is_none());
    assert!(strat.process_opts_update(book(22248028, 500.0, 580.0)).unwrap().is_none());
    assert!(strat.last_spot_tick.is_none());
}

#[test]
fn crossed_quotes_are_a_fault() {
    let mut strat = ComboStrat::startup(config(), &mock_contract_table());
    strat.process_opts_update(book(22248027, 11070.0, 11180.0)).unwrap();
    strat.process_opts_update(book(22248028, 500.0, 580.0)).unwrap();
    // A spot bid above the synthetic long and an ask below the synthetic short.
    let q = spot("20600.0", "20000.0");
    assert_eq!(
        strat.process_spot_update(q).err(),
        Some(StratFault::ConflictingSignals { call: 22248027, put: 22248028 })
    );
    assert_eq!(strat.last_spot_tick, Some(q));
}

#[test]
fn fixed_point_reading() {
    assert_eq!(parse_fixed("20449.0"), Some(2_044_900_000_000));
    assert_eq!(parse_fixed("1.00000000"), Some(100_000_000));
    assert_eq!(parse_fixed("0.5"), Some(50_000_000));
    assert_eq!(parse_fixed("7"), Some(700_000_000));
    assert_eq!(parse_fixed("3."), Some(300_000_000));
    assert_eq!(parse_fixed(""), None);
    assert_eq!(parse_fixed(".5"), None);
    assert_eq!(parse_fixed("1.2.3"), None);
    assert_eq!(parse_fixed("1e5"), None);
    assert_eq!(parse_fixed("0.123456789"), None);
    assert_eq!(parse_fixed("184467440737.09551615"), Some(u64::MAX));
    assert_eq!(parse_fixed("184467440737.09551616"), None);
    assert_eq!(parse_fixed("99999999999999999999999"), None);
    assert!(SpotQuote::parse("1", "x", "1", "1").is_none());
}

fn two_strike_table() -> Vec<ContractSpec> {
    let mut t = vec![];
    for (id, strike, is_call) in [(11u64, 100u64, true), (12, 100, false), (13, 200, true), (14, 200, false)] {
        t.push(ContractSpec::Option(OptionContractSpec {
            id,
            label: format!("X-{}-{}", strike, if is_call { "C" } else { "P" }),
            underlying: "CBTC".to_string(),
            strike,
            is_call,
            multiplier: 1,
            active: true,
            expiry: 0,
            pv_strike: 50,
        }));
    }
    t
}

fn quote_all(strat: &mut ComboStrat, size: u64) {
    for id in [11u64, 13] {
        let b = BookTop { contract_id: id, bid: 200, bid_size: size, ask: 210, ask_size: size };
        assert!(strat.process_opts_update(b).unwrap().is_none());
    }
    for id in [12u64, 14] {
        let b = BookTop { contract_id: id, bid: 5, bid_size: size, ask: 10, ask_size: size };
        assert!(strat.process_opts_update(b).unwrap().is_none());
    }
}

#[test]
fn spot_scan_nets_legs_of_every_strike() {
    let mut cfg = config();
    cfg.size_factor = 10_000;
    let mut strat = ComboStrat::startup(cfg, &two_strike_table());
    quote_all(&mut strat, 5);
    let q = SpotQuote { best_bid: 90, best_bid_qty: 3 * QTY_SCALE, best_ask: 100, best_ask_qty: 3 * QTY_SCALE };
    let t = strat.process_spot_update(q).unwrap().unwrap();
    // Two conversions of 3 each, netted into one spot buy of 6.
    assert_eq!(summary(&t), vec![("BTCUSDT".to_string(), true, 6 * QTY_SCALE, 100)]);
    assert_eq!(t.ledgerx.len(), 4);
    assert!(t.ledgerx.iter().all(|o| o.size == 3));
}

#[test]
fn oversized_spot_legs_are_a_fault() {
    let mut cfg = config();
    cfg.size_factor = 10_000;
    let mut strat = ComboStrat::startup(cfg, &two_strike_table());
    quote_all(&mut strat, u64::MAX);
    let q = SpotQuote { best_bid: 90, best_bid_qty: u64::MAX, best_ask: 100, best_ask_qty: u64::MAX };
    assert_eq!(strat.process_spot_update(q).err(), Some(StratFault::SizeOverflow));
}
