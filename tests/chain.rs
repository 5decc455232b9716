use combo_arb::options_chain::{ContractSpec, LatticeRef, LedgerXOptionsChain, OptionContractSpec};

const EXPIRY: i64 = 1_688_140_800;

fn option(id: u64, strike: u64, is_call: bool, expiry: i64, active: bool, underlying: &str) -> ContractSpec {
    let month = if expiry == EXPIRY { "30JUN2023" } else { "29DEC2023" };
    let parity = if is_call { "Call" } else { "Put" };
    ContractSpec::Option(OptionContractSpec {
        id,
        label: format!("BTC-Mini-{}-{}-{}", month, strike, parity),
        underlying: underlying.to_string(),
        strike,
        is_call,
        multiplier: 100,
        active,
        expiry,
        pv_strike: strike * 100_000_000,
    })
}

fn catalog() -> Vec<ContractSpec> {
    vec![
        option(22252867, 200000, true, EXPIRY, true, "CBTC"),
        option(22252868, 200000, false, EXPIRY, true, "CBTC"),
        option(1, 10000, true, EXPIRY, true, "CBTC"),
        option(2, 10000, false, EXPIRY, true, "CBTC"),
        option(3, 5000, false, EXPIRY, true, "CBTC"),
        option(4, 250000, true, EXPIRY, true, "CBTC"),
        option(5, 100000, true, EXPIRY, true, "CBTC"),
        option(6, 30000, false, EXPIRY, true, "CBTC"),
        option(7, 150000, true, EXPIRY + 86_400 * 180, true, "CBTC"),
        option(8, 300000, true, EXPIRY, false, "CBTC"),
        option(9, 20000, true, EXPIRY, true, "ETH"),
        ContractSpec::Other(42),
    ]
}

fn label_of(chain: &LedgerXOptionsChain, i: usize) -> String {
    chain.nodes[i].label.clone()
}

#[test]
fn id_map() {
    let chain = LedgerXOptionsChain::from_spec_table("CBTC", &catalog());
    let id1 = 22252867;
    let id2 = 22252868;
    let a = chain.get_by_id(id1).unwrap();
    let b = chain.get_by_id(id2).unwrap();
    assert_eq!(chain.nodes[a].id, id1);
    assert_eq!(chain.nodes[b].id, id2);
    assert_eq!(chain.nodes[a].adjacent, Some(b));
    assert_eq!(chain.nodes[b].adjacent, Some(a));
    let put = chain.nodes[a].adjacent.unwrap().lattice_deref(&chain);
    assert_eq!(put.id, id2);
    assert!(!put.is_call);
}

#[test]
fn crawl_up() {
    let chain = LedgerXOptionsChain::from_spec_table("CBTC", &catalog());
    let start = chain.get_by_label("BTC-Mini-30JUN2023-200000-Call").unwrap();
    let mut seen = vec![];
    let mut at = Some(start);
    while let Some(i) = at {
        seen.push(label_of(&chain, i));
        at = chain.nodes[i].up;
    }
    assert_eq!(seen, vec!["BTC-Mini-30JUN2023-200000-Call", "BTC-Mini-30JUN2023-250000-Call"]);

    let low = chain.get_by_label("BTC-Mini-30JUN2023-10000-Call").unwrap();
    let mut strikes = vec![];
    let mut at = Some(low);
    while let Some(i) = at {
        strikes.push(chain.nodes[i].strike);
        at = chain.nodes[i].up;
    }
    assert_eq!(strikes, vec![10000, 100000, 200000, 250000]);
}

#[test]
fn crawl_down() {
    let chain = LedgerXOptionsChain::from_spec_table("CBTC", &catalog());
    let start = chain.get_by_label("BTC-Mini-30JUN2023-10000-Put").unwrap();
    let mut seen = vec![];
    let mut at = Some(start);
    while let Some(i) = at {
        seen.push(label_of(&chain, i));
        at = chain.nodes[i].down;
    }
    assert_eq!(seen, vec!["BTC-Mini-30JUN2023-10000-Put", "BTC-Mini-30JUN2023-5000-Put"]);

    let high = chain.get_by_label("BTC-Mini-30JUN2023-200000-Put").unwrap();
    let mut strikes = vec![];
    let mut at = Some(high);
    while let Some(i) = at {
        strikes.push(chain.nodes[i].strike);
        at = chain.nodes[i].down;
    }
    assert_eq!(strikes, vec![200000, 30000, 10000, 5000]);
}

#[test]
fn completeness_filters_symbol_and_activity() {
    let chain = LedgerXOptionsChain::from_spec_table("CBTC", &catalog());
    assert_eq!(chain.nodes.len(), 9);
    assert_eq!(chain.calls.len(), 5);
    assert_eq!(chain.puts.len(), 4);
    assert!(chain.get_by_id(8).is_none());
    assert!(chain.get_by_id(9).is_none());
    assert!(chain.get_by_id(42).is_none());
    assert!(chain.get_by_label("BTC-Mini-30JUN2023-300000-Call").is_none());
    for &c in chain.calls.iter() {
        assert!(chain.nodes[c].is_call);
    }
    for &p in chain.puts.iter() {
        assert!(!chain.nodes[p].is_call);
    }
    for (i, n) in chain.nodes.iter().enumerate() {
        assert_eq!(chain.get_by_id(n.id), Some(i));
        assert_eq!(chain.get_by_label(&n.label), Some(i));
        assert!(n.bid.is_none() && n.ask.is_none());
    }
}

#[test]
fn empty_catalog_gives_empty_chain() {
    let chain = LedgerXOptionsChain::from_spec_table("CBTC", &vec![]);
    assert!(chain.nodes.is_empty());
    assert!(chain.calls.is_empty() && chain.puts.is_empty());
}

#[test]
fn single_parity_level_has_no_counterpart() {
    let chain = LedgerXOptionsChain::from_spec_table("CBTC", &catalog());
    let i = chain.get_by_id(5).unwrap();
    assert_eq!(chain.nodes[i].adjacent, None);
    // The only call of the later expiry has no neighbours.
    let j = chain.get_by_id(7).unwrap();
    assert_eq!(chain.nodes[j].up, None);
    assert_eq!(chain.nodes[j].down, None);
    assert_eq!(chain.nodes[j].adjacent, None);
}

#[test]
fn adjacency_is_symmetric() {
    let chain = LedgerXOptionsChain::from_spec_table("CBTC", &catalog());
    for (i, n) in chain.nodes.iter().enumerate() {
        if let Some(j) = n.adjacent {
            assert_eq!(chain.nodes[j].adjacent, Some(i));
            assert_eq!(chain.nodes[j].strike, n.strike);
            assert_ne!(chain.nodes[j].is_call, n.is_call);
        }
    }
}

#[test]
fn level_lookup() {
    let chain = LedgerXOptionsChain::from_spec_table("CBTC", &catalog());
    let level = chain.get_opts_level(EXPIRY, 10000);
    assert_eq!(level.call, chain.get_by_id(1));
    assert_eq!(level.put, chain.get_by_id(2));
    let level = chain.get_opts_level(EXPIRY, 5000);
    assert_eq!(level.call, None);
    assert_eq!(level.put, chain.get_by_id(3));
}

#[test]
fn quote_update_touches_one_node() {
    let mut chain = LedgerXOptionsChain::from_spec_table("CBTC", &catalog());
    let i = chain.update_quote(1, 10, 2, 12, 3).unwrap();
    assert_eq!(chain.nodes[i].bid, Some(10));
    assert_eq!(chain.nodes[i].bid_quantity, Some(2));
    assert_eq!(chain.nodes[i].ask, Some(12));
    assert_eq!(chain.nodes[i].ask_quantity, Some(3));
    for (k, n) in chain.nodes.iter().enumerate() {
        if k != i {
            assert!(n.bid.is_none());
        }
    }
    assert_eq!(chain.update_quote(9, 1, 1, 1, 1), None);
}
