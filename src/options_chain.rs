//! The options chain lattice: every live option of one underlying, indexed by
//! id and by parity, and linked to its counterpart at the same level and to
//! its nearest neighbours by strike within its expiry and parity.
use std::collections::HashMap;
use vstd::prelude::*;

use crate::linking::{link_all, links_ok};

verus! {

broadcast use vstd::std_specs::hash::group_hash_axioms;

/// A non-owning reference to a node of the chain: its index in the arena.
pub type LatticePointer = usize;

/// Resolution of a navigational reference to the node it names.
pub trait LatticeRef {
    spec fn target(&self) -> int;

    fn lattice_deref<'a>(&self, chain: &'a LedgerXOptionsChain) -> (r: &'a LedgerXOptionsContract)
        requires
            0 <= self.target() < chain.nodes@.len(),
        ensures
            *r == chain.nodes@[self.target()],
    ;
}

impl LatticeRef for LatticePointer {
    open spec fn target(&self) -> int {
        *self as int
    }

    fn lattice_deref<'a>(&self, chain: &'a LedgerXOptionsChain) -> (r: &'a LedgerXOptionsContract) {
        &chain.nodes[*self]
    }
}

/// Static description of an option contract, as the reference-data service
/// lists it. Prices are fixed-point integers scaled by `QTY_SCALE` (eight
/// decimals); the strike is in whole price units.
pub struct OptionContractSpec {
    pub id: u64,
    pub label: String,
    pub underlying: String,
    pub strike: u64,
    pub is_call: bool,
    /// Contract multiplier.
    pub multiplier: u64,
    pub active: bool,
    /// Expiry time, in seconds since the Unix epoch.
    pub expiry: i64,
    /// Present value of the strike, `K * exp(-r * tau)`, as a fixed-point price
    /// (discounted at the configured borrow rate over the time to expiry).
    pub pv_strike: u64,
}

/// One entry of the contract catalog: an option, or another kind of
/// contract that the chain leaves out.
pub enum ContractSpec {
    Option(OptionContractSpec),
    Other(u64),
}

impl ContractSpec {
    pub open spec fn spec_id(&self) -> u64 {
        match self {
            ContractSpec::Option(o) => o.id,
            ContractSpec::Other(id) => *id,
        }
    }

    pub fn id(&self) -> (r: u64)
        ensures
            r == self.spec_id(),
    {
        match self {
            ContractSpec::Option(o) => o.id,
            ContractSpec::Other(id) => *id,
        }
    }
}

/// The catalog entry is an active option on the underlying `sym`.
pub open spec fn keeps(c: ContractSpec, sym: Seq<char>) -> bool {
    match c {
        ContractSpec::Option(o) => o.active && o.underlying@ == sym,
        ContractSpec::Other(_) => false,
    }
}

/// The options of the catalog that a chain on `sym` holds, in catalog order.
pub open spec fn selected(t: Seq<ContractSpec>, sym: Seq<char>) -> Seq<OptionContractSpec>
    decreases t.len(),
{
    if t.len() == 0 {
        seq![]
    } else {
        let rest = selected(t.drop_last(), sym);
        match t.last() {
            ContractSpec::Option(o) => if o.active && o.underlying@ == sym {
                rest.push(o)
            } else {
                rest
            },
            ContractSpec::Other(_) => rest,
        }
    }
}

/// No two entries of the catalog share an id.
pub open spec fn unique_ids(t: Seq<ContractSpec>) -> bool {
    forall|a: int, b: int|
        0 <= a < t.len() && 0 <= b < t.len() && a != b ==> #[trigger] t[a].spec_id()
            != #[trigger] t[b].spec_id()
}

/// Every selected option comes from the catalog, and selection keeps ids unique.
pub proof fn lemma_selected_ids(t: Seq<ContractSpec>, sym: Seq<char>)
    ensures
        forall|j: int|
            0 <= j < selected(t, sym).len() ==> exists|k: int|
                0 <= k < t.len() && t[k] == ContractSpec::Option(#[trigger] selected(t, sym)[j]) && keeps(t[k], sym),
        unique_ids(t) ==> forall|a: int, b: int|
            0 <= a < selected(t, sym).len() && 0 <= b < selected(t, sym).len() && a != b
                ==> #[trigger] selected(t, sym)[a].id != #[trigger] selected(t, sym)[b].id,
    decreases t.len(),
{
    if t.len() > 0 {
        let p = t.drop_last();
        lemma_selected_ids(p, sym);
        let sp = selected(p, sym);
        let st = selected(t, sym);
        assert forall|j: int| 0 <= j < sp.len() implies exists|k: int|
            0 <= k < t.len() && t[k] == ContractSpec::Option(#[trigger] sp[j]) && keeps(t[k], sym) by {
            let k = choose|k: int| 0 <= k < p.len() && p[k] == ContractSpec::Option(#[trigger] sp[j]) && keeps(p[k], sym);
            assert(t[k] == p[k]);
        }
        if st.len() > sp.len() {
            assert(t[t.len() - 1] == ContractSpec::Option(st[st.len() - 1]));
        }
        if unique_ids(t) {
            assert forall|a: int, b: int|
                0 <= a < st.len() && 0 <= b < st.len() && a != b implies #[trigger] st[a].id
                    != #[trigger] st[b].id by {
                if a < sp.len() && b < sp.len() {
                    assert(unique_ids(p)) by {
                        assert forall|x: int, y: int|
                            0 <= x < p.len() && 0 <= y < p.len() && x != y implies #[trigger] p[x].spec_id()
                                != #[trigger] p[y].spec_id() by {
                            assert(p[x] == t[x] && p[y] == t[y]);
                        }
                    }
                } else if a < sp.len() {
                    let k = choose|k: int| 0 <= k < p.len() && p[k] == ContractSpec::Option(#[trigger] sp[a]) && keeps(p[k], sym);
                    assert(t[k] == p[k]);
                    assert(t[t.len() - 1].spec_id() != t[k].spec_id());
                } else if b < sp.len() {
                    let k = choose|k: int| 0 <= k < p.len() && p[k] == ContractSpec::Option(#[trigger] sp[b]) && keeps(p[k], sym);
                    assert(t[k] == p[k]);
                    assert(t[t.len() - 1].spec_id() != t[k].spec_id());
                }
            }
        }
    }
}

/// Every active option on `sym` that the catalog lists is selected.
pub proof fn lemma_selected_covers(t: Seq<ContractSpec>, sym: Seq<char>)
    ensures
        forall|k: int|
            0 <= k < t.len() && keeps(#[trigger] t[k], sym) ==> exists|j: int|
                0 <= j < selected(t, sym).len() && t[k] == ContractSpec::Option(
                    #[trigger] selected(t, sym)[j],
                ),
    decreases t.len(),
{
    if t.len() > 0 {
        let p = t.drop_last();
        lemma_selected_covers(p, sym);
        let sp = selected(p, sym);
        let st = selected(t, sym);
        assert forall|k: int| 0 <= k < t.len() && keeps(#[trigger] t[k], sym) implies exists|j: int|
            0 <= j < st.len() && t[k] == ContractSpec::Option(#[trigger] st[j]) by {
            if k < p.len() {
                assert(p[k] == t[k]);
                let j = choose|j: int| 0 <= j < sp.len() && p[k] == ContractSpec::Option(#[trigger] sp[j]);
                assert(st[j] == sp[j]);
            } else {
                assert(t[k] == ContractSpec::Option(st[st.len() - 1]));
            }
        }
    }
}

/// One live option of the chain: static fields copied from its spec, the
/// best quote seen so far, and its navigational links.
pub struct LedgerXOptionsContract {
    pub id: u64,
    pub label: String,
    pub underlying: String,
    pub strike: u64,
    pub is_call: bool,
    pub multiplier: u64,
    pub expiry: i64,
    pub pv_strike: u64,

    pub bid: Option<u64>,
    pub bid_quantity: Option<u64>,
    pub ask: Option<u64>,
    pub ask_quantity: Option<u64>,

    /// The option of opposite parity at the same strike and expiry.
    pub adjacent: Option<LatticePointer>,
    /// The nearest higher-strike option of the same parity and expiry.
    pub up: Option<LatticePointer>,
    /// The nearest lower-strike option of the same parity and expiry.
    pub down: Option<LatticePointer>,
}

/// The place of a node in the lattice: expiry, strike and parity.
pub open spec fn node_key(n: LedgerXOptionsContract) -> (i64, u64, bool) {
    (n.expiry, n.strike, n.is_call)
}

/// The keys of a sequence of nodes, index by index.
pub open spec fn keys_of(nodes: Seq<LedgerXOptionsContract>) -> Seq<(i64, u64, bool)> {
    nodes.map_values(|n: LedgerXOptionsContract| node_key(n))
}

/// `b` is the counterpart of `a`: same expiry and strike, opposite parity.
pub open spec fn counterpart(a: (i64, u64, bool), b: (i64, u64, bool)) -> bool {
    a.0 == b.0 && a.1 == b.1 && a.2 != b.2
}

/// `a` and `b` belong to the same series: same expiry and parity.
pub open spec fn same_series(a: (i64, u64, bool), b: (i64, u64, bool)) -> bool {
    a.0 == b.0 && a.2 == b.2
}

/// `r` is the counterpart link of node `i`: the first counterpart in arena
/// order, or none where the level holds no counterpart.
pub open spec fn adjacent_link(keys: Seq<(i64, u64, bool)>, i: int, r: Option<usize>) -> bool {
    match r {
        Some(j) => (j as int) < keys.len() && counterpart(keys[i], keys[j as int]) && forall|k: int|
            0 <= k < j ==> !counterpart(keys[i], #[trigger] keys[k]),
        None => forall|k: int| 0 <= k < keys.len() ==> !counterpart(keys[i], #[trigger] keys[k]),
    }
}

/// `r` is the upward link of node `i`: a node of its series with the least
/// strike above its own, or none where no strike of the series is higher.
pub open spec fn up_link(keys: Seq<(i64, u64, bool)>, i: int, r: Option<usize>) -> bool {
    match r {
        Some(j) => (j as int) < keys.len() && same_series(keys[i], keys[j as int]) && keys[j as int].1
            > keys[i].1 && forall|k: int|
            0 <= k < keys.len() && same_series(keys[i], #[trigger] keys[k]) && keys[k].1 > keys[i].1
                ==> keys[k].1 >= keys[j as int].1,
        None => forall|k: int|
            0 <= k < keys.len() && same_series(keys[i], #[trigger] keys[k]) ==> keys[k].1 <= keys[i].1,
    }
}

/// `r` is the downward link of node `i`: a node of its series with the
/// greatest strike below its own, or none where no strike of the series is lower.
pub open spec fn down_link(keys: Seq<(i64, u64, bool)>, i: int, r: Option<usize>) -> bool {
    match r {
        Some(j) => (j as int) < keys.len() && same_series(keys[i], keys[j as int]) && keys[j as int].1
            < keys[i].1 && forall|k: int|
            0 <= k < keys.len() && same_series(keys[i], #[trigger] keys[k]) && keys[k].1 < keys[i].1
                ==> keys[k].1 <= keys[j as int].1,
        None => forall|k: int|
            0 <= k < keys.len() && same_series(keys[i], #[trigger] keys[k]) ==> keys[k].1 >= keys[i].1,
    }
}

impl LedgerXOptionsContract {
    /// The node holds the static fields of `s` and no quote.
    pub open spec fn holds_spec(&self, s: OptionContractSpec) -> bool {
        &&& self.id == s.id
        &&& self.label@ == s.label@
        &&& self.underlying@ == s.underlying@
        &&& self.strike == s.strike
        &&& self.is_call == s.is_call
        &&& self.multiplier == s.multiplier
        &&& self.expiry == s.expiry
        &&& self.pv_strike == s.pv_strike
        &&& self.bid is None
        &&& self.bid_quantity is None
        &&& self.ask is None
        &&& self.ask_quantity is None
    }

    /// The node holds the static fields of `s`, no quote and no links.
    pub open spec fn fresh_from(&self, s: OptionContractSpec) -> bool {
        &&& self.holds_spec(s)
        &&& self.adjacent is None
        &&& self.up is None
        &&& self.down is None
    }

    /// A node for `spec`, with no quote yet and no links.
    pub fn from_spec(spec: &OptionContractSpec) -> (r: Self)
        ensures
            r.fresh_from(*spec),
    {
        LedgerXOptionsContract {
            id: spec.id,
            label: spec.label.clone(),
            underlying: spec.underlying.clone(),
            strike: spec.strike,
            is_call: spec.is_call,
            multiplier: spec.multiplier,
            expiry: spec.expiry,
            pv_strike: spec.pv_strike,
            bid: None,
            bid_quantity: None,
            ask: None,
            ask_quantity: None,
            adjacent: None,
            up: None,
            down: None,
        }
    }

    /// A copy of this node with the given links.
    fn with_links(&self, adjacent: Option<LatticePointer>, up: Option<LatticePointer>, down: Option<
        LatticePointer,
    >) -> (r: Self)
        ensures
            r == (LedgerXOptionsContract { adjacent, up, down, ..*self }),
    {
        LedgerXOptionsContract {
            id: self.id,
            label: self.label.clone(),
            underlying: self.underlying.clone(),
            strike: self.strike,
            is_call: self.is_call,
            multiplier: self.multiplier,
            expiry: self.expiry,
            pv_strike: self.pv_strike,
            bid: self.bid,
            bid_quantity: self.bid_quantity,
            ask: self.ask,
            ask_quantity: self.ask_quantity,
            adjacent,
            up,
            down,
        }
    }

    /// A copy of this node with the given best bid and ask.
    pub fn with_quote(&self, bid: u64, bid_quantity: u64, ask: u64, ask_quantity: u64) -> (r: Self)
        ensures
            r == (LedgerXOptionsContract {
                bid: Some(bid),
                bid_quantity: Some(bid_quantity),
                ask: Some(ask),
                ask_quantity: Some(ask_quantity),
                ..*self
            }),
    {
        LedgerXOptionsContract {
            id: self.id,
            label: self.label.clone(),
            underlying: self.underlying.clone(),
            strike: self.strike,
            is_call: self.is_call,
            multiplier: self.multiplier,
            expiry: self.expiry,
            pv_strike: self.pv_strike,
            bid: Some(bid),
            bid_quantity: Some(bid_quantity),
            ask: Some(ask),
            ask_quantity: Some(ask_quantity),
            adjacent: self.adjacent,
            up: self.up,
            down: self.down,
        }
    }
}


/// The chain: an arena of nodes, the indices of its calls and of its puts,
/// and a lookup from contract id to node.
pub struct LedgerXOptionsChain {
    pub nodes: Vec<LedgerXOptionsContract>,
    pub calls: Vec<LatticePointer>,
    pub puts: Vec<LatticePointer>,
    pub id_map: HashMap<u64, LatticePointer>,
}

impl LedgerXOptionsChain {
    /// The links of every node are those its place in the lattice determines,
    /// `id_map` maps each node's id to it and nothing else, and `calls` and
    /// `puts` list, in increasing order, exactly the nodes of each parity.
    pub open spec fn wf(&self) -> bool {
        let nodes = self.nodes@;
        let keys = keys_of(nodes);
        &&& forall|i: int|
            0 <= i < nodes.len() ==> {
                &&& adjacent_link(keys, i, (#[trigger] nodes[i]).adjacent)
                &&& up_link(keys, i, nodes[i].up)
                &&& down_link(keys, i, nodes[i].down)
            }
        &&& id_index(nodes, self.id_map@)
        &&& parity_index(nodes, self.calls@, true)
        &&& parity_index(nodes, self.puts@, false)
    }

    /// The node of the contract `id`, if the chain holds it.
    pub fn get_by_id(&self, id: u64) -> (r: Option<LatticePointer>)
        requires
            self.wf(),
        ensures
            match r {
                Some(i) => self.id_map@.contains_key(id) && i == self.id_map@[id] && (i as int)
                    < self.nodes@.len() && self.nodes@[i as int].id == id,
                None => !self.id_map@.contains_key(id),
            },
    {
        match self.id_map.get(&id) {
            Some(i) => Some(*i),
            None => None,
        }
    }

    /// The node whose label is `label`, if the chain holds one.
    pub fn get_by_label(&self, label: &str) -> (r: Option<LatticePointer>)
        ensures
            match r {
                Some(i) => (i as int) < self.nodes@.len() && self.nodes@[i as int].label@ == label@,
                None => forall|i: int| 0 <= i < self.nodes@.len() ==> (#[trigger] self.nodes@[i]).label@ != label@,
            },
    {
        let wanted = label.to_owned();
        let mut i: usize = 0;
        while i < self.nodes.len()
            invariant
                i <= self.nodes@.len(),
                wanted@ == label@,
                forall|k: int| 0 <= k < i ==> (#[trigger] self.nodes@[k]).label@ != label@,
            decreases self.nodes@.len() - i,
        {
            if self.nodes[i].label == wanted {
                return Some(i);
            }
            i += 1;
        }
        None
    }

    /// The call and the put (the first of each in arena order) at one
    /// expiry and strike.
    pub fn get_opts_level(&self, expiration: i64, strike: u64) -> (r: LedgerXOptionsLevel)
        ensures
            r.expiration == expiration,
            r.strike == strike,
            level_member(self.nodes@, expiration, strike, true, r.call),
            level_member(self.nodes@, expiration, strike, false, r.put),
    {
        let mut call: Option<LatticePointer> = None;
        let mut put: Option<LatticePointer> = None;
        let mut i: usize = self.nodes.len();
        while i > 0
            invariant
                i <= self.nodes@.len(),
                level_member_from(self.nodes@, expiration, strike, true, call, i as int),
                level_member_from(self.nodes@, expiration, strike, false, put, i as int),
            decreases i,
        {
            i -= 1;
            let n = &self.nodes[i];
            if n.expiry == expiration && n.strike == strike {
                if n.is_call {
                    call = Some(i);
                } else {
                    put = Some(i);
                }
            }
        }
        LedgerXOptionsLevel { expiration, strike, call, put }
    }

    /// Records a new best bid and ask for the contract `id`. Returns its node,
    /// or none where the chain does not hold the contract; only that node's
    /// quote changes.
    pub fn update_quote(&mut self, id: u64, bid: u64, bid_quantity: u64, ask: u64, ask_quantity: u64) -> (r:
        Option<LatticePointer>)
        requires
            old(self).wf(),
        ensures
            final(self).wf(),
            final(self).calls@ == old(self).calls@,
            final(self).puts@ == old(self).puts@,
            final(self).id_map@ == old(self).id_map@,
            match r {
                Some(i) => old(self).id_map@.contains_key(id) && i == old(self).id_map@[id]
                    && final(self).nodes@ == old(self).nodes@.update(
                    i as int,
                    LedgerXOptionsContract {
                        bid: Some(bid),
                        bid_quantity: Some(bid_quantity),
                        ask: Some(ask),
                        ask_quantity: Some(ask_quantity),
                        ..old(self).nodes@[i as int]
                    },
                ),
                None => !old(self).id_map@.contains_key(id) && final(self).nodes@ == old(self).nodes@,
            },
    {
        match self.get_by_id(id) {
            Some(i) => {
                let n = self.nodes[i].with_quote(bid, bid_quantity, ask, ask_quantity);
                let ghost before = self.nodes@;
                self.nodes.set(i, n);
                proof {
                    lemma_same_shape_wf(*old(self), *self);
                }
                Some(i)
            },
            None => None,
        }
    }

    /// Builds the chain of the active options on `symbol` that `table` lists,
    /// with every node linked to its counterpart and to its nearest
    /// neighbours by strike.
    pub fn from_spec_table(symbol: &str, table: &Vec<ContractSpec>) -> (r: Self)
        requires
            unique_ids(table@),
        ensures
            r.wf(),
            r.built_from(table@, symbol@),
    {
        let sym = symbol.to_owned();
        let mut bare: Vec<LedgerXOptionsContract> = Vec::new();
        let mut t: usize = 0;
        while t < table.len()
            invariant
                t <= table@.len(),
                sym@ == symbol@,
                bare@.len() == selected(table@.take(t as int), symbol@).len(),
                forall|i: int|
                    0 <= i < bare@.len() ==> (#[trigger] bare@[i]).fresh_from(
                        selected(table@.take(t as int), symbol@)[i],
                    ),
            decreases table@.len() - t,
        {
            proof {
                assert(table@.take(t + 1).drop_last() =~= table@.take(t as int));
            }
            match &table[t] {
                ContractSpec::Option(s) => {
                    if s.active && s.underlying == sym {
                        bare.push(LedgerXOptionsContract::from_spec(s));
                    }
                },
                ContractSpec::Other(_) => {},
            }
            t += 1;
        }
        proof {
            assert(table@.take(table@.len() as int) =~= table@);
        }
        let ghost sel = selected(table@, symbol@);
        proof {
            assert(forall|a: int, b: int|
                0 <= a < sel.len() && 0 <= b < sel.len() && a != b ==> #[trigger] sel[a].id
                    != #[trigger] sel[b].id) by {
                lemma_selected_ids(table@, symbol@);
            }
        }
        let ghost keys = keys_of(bare@);
        let n = bare.len();
        let (adj, ups, downs) = link_all(&bare);
        let mut nodes: Vec<LedgerXOptionsContract> = Vec::new();
        let mut calls: Vec<LatticePointer> = Vec::new();
        let mut puts: Vec<LatticePointer> = Vec::new();
        let mut id_map: HashMap<u64, LatticePointer> = HashMap::new();
        let mut i: usize = 0;
        while i < n
            invariant
                n == bare@.len(),
                i <= n,
                keys == keys_of(bare@),
                adj@.len() == n && ups@.len() == n && downs@.len() == n,
                links_ok(keys, adj@, ups@, downs@),
                sel == selected(table@, symbol@),
                bare@.len() == sel.len(),
                forall|a: int, b: int|
                    0 <= a < sel.len() && 0 <= b < sel.len() && a != b ==> #[trigger] sel[a].id
                        != #[trigger] sel[b].id,
                forall|m: int| 0 <= m < bare@.len() ==> (#[trigger] bare@[m]).fresh_from(sel[m]),
                nodes@.len() == i,
                forall|m: int|
                    0 <= m < i ==> {
                        &&& (#[trigger] nodes@[m]).holds_spec(sel[m])
                        &&& adjacent_link(keys, m, nodes@[m].adjacent)
                        &&& up_link(keys, m, nodes@[m].up)
                        &&& down_link(keys, m, nodes@[m].down)
                    },
                forall|m: int|
                    0 <= m < i ==> id_map@.contains_key((#[trigger] nodes@[m]).id) && id_map@[nodes@[m].id]
                        == m,
                forall|id: u64| #[trigger]
                    id_map@.contains_key(id) ==> (id_map@[id] as int) < i && nodes@[id_map@[id] as int].id
                        == id,
                forall|k: int| 0 <= k < calls@.len() ==> (#[trigger] calls@[k] as int) < i,
                forall|k: int| 0 <= k < puts@.len() ==> (#[trigger] puts@[k] as int) < i,
                parity_index(nodes@, calls@, true),
                parity_index(nodes@, puts@, false),
            decreases n - i,
        {
            let node = bare[i].with_links(adj[i], ups[i], downs[i]);
            let id = node.id;
            let is_call = node.is_call;
            proof {
                assert(node.holds_spec(sel[i as int]));
                assert forall|m: int| 0 <= m < i implies nodes@[m].id != id by {
                    assert(nodes@[m].holds_spec(sel[m]));
                }
            }
            let ghost old_calls = calls@;
            let ghost old_puts = puts@;
            let ghost old_nodes = nodes@;
            nodes.push(node);
            id_map.insert(id, i);
            if is_call {
                calls.push(i);
            } else {
                puts.push(i);
            }
            proof {
                assert forall|m: int| 0 <= m < i implies nodes@[m] == old_nodes[m] by {}
                assert(nodes@[i as int] == node);
                assert forall|m: int|
                    0 <= m < nodes@.len() && (#[trigger] nodes@[m]).is_call == true implies calls@.contains(
                        m as usize,
                    ) by {
                    if m < i {
                        assert(old_nodes[m] == nodes@[m]);
                        assert(old_calls.contains(m as usize));
                        let k = choose|k: int| 0 <= k < old_calls.len() && old_calls[k] == m as usize;
                        assert(calls@[k] == m as usize);
                    } else {
                        assert(calls@[calls@.len() - 1] == m as usize);
                    }
                }
                assert forall|m: int|
                    0 <= m < nodes@.len() && (#[trigger] nodes@[m]).is_call == false implies puts@.contains(
                        m as usize,
                    ) by {
                    if m < i {
                        assert(old_nodes[m] == nodes@[m]);
                        assert(old_puts.contains(m as usize));
                        let k = choose|k: int| 0 <= k < old_puts.len() && old_puts[k] == m as usize;
                        assert(puts@[k] == m as usize);
                    } else {
                        assert(puts@[puts@.len() - 1] == m as usize);
                    }
                }
            }
            i += 1;
        }
        proof {
            assert(keys_of(nodes@) =~= keys);
        }
        LedgerXOptionsChain { nodes, calls, puts, id_map }
    }

    /// The chain holds exactly the options that `t` lists as active on `sym`,
    /// in catalog order, with no quote yet.
    pub open spec fn built_from(&self, t: Seq<ContractSpec>, sym: Seq<char>) -> bool {
        &&& self.nodes@.len() == selected(t, sym).len()
        &&& forall|i: int|
            0 <= i < self.nodes@.len() ==> (#[trigger] self.nodes@[i]).holds_spec(selected(t, sym)[i])
    }
}

/// Lattice completeness, by id: a chain built from a catalog with unique ids
/// maps exactly the ids of the active options on its symbol.
pub proof fn lemma_ids_complete(c: LedgerXOptionsChain, t: Seq<ContractSpec>, sym: Seq<char>)
    requires
        id_index(c.nodes@, c.id_map@),
        c.built_from(t, sym),
        unique_ids(t),
    ensures
        forall|id: u64|
            c.id_map@.contains_key(id) <==> exists|k: int|
                0 <= k < t.len() && keeps(#[trigger] t[k], sym) && t[k].spec_id() == id,
{
    lemma_selected_ids(t, sym);
    let sel = selected(t, sym);
    assert forall|id: u64| c.id_map@.contains_key(id) implies exists|k: int|
        0 <= k < t.len() && keeps(#[trigger] t[k], sym) && t[k].spec_id() == id by {
        let i = c.id_map@[id] as int;
        assert(c.nodes@[i].holds_spec(sel[i]));
        let k = choose|k: int|
            0 <= k < t.len() && t[k] == ContractSpec::Option(#[trigger] sel[i]) && keeps(t[k], sym);
        assert(t[k].spec_id() == id);
    }
    assert forall|id: u64| (exists|k: int| 0 <= k < t.len() && keeps(#[trigger] t[k], sym) && t[k].spec_id() == id)
        implies c.id_map@.contains_key(id) by {
        let k = choose|k: int| 0 <= k < t.len() && keeps(#[trigger] t[k], sym) && t[k].spec_id() == id;
        lemma_selected_covers(t, sym);
        let j = choose|j: int| 0 <= j < sel.len() && t[k] == ContractSpec::Option(#[trigger] sel[j]);
        assert(c.nodes@[j].holds_spec(sel[j]));
    }
}

/// Lattice completeness, by entry: each active option on the symbol that
/// the catalog lists is the node that its id maps to, with its fields.
pub proof fn lemma_entries_placed(c: LedgerXOptionsChain, t: Seq<ContractSpec>, sym: Seq<char>)
    requires
        id_index(c.nodes@, c.id_map@),
        c.built_from(t, sym),
        unique_ids(t),
    ensures
        forall|k: int|
            0 <= k < t.len() && keeps(#[trigger] t[k], sym) ==> {
                let i = c.id_map@[t[k].spec_id()] as int;
                &&& 0 <= i < c.nodes@.len()
                &&& t[k] == ContractSpec::Option(selected(t, sym)[i])
                &&& c.nodes@[i].holds_spec(selected(t, sym)[i])
            },
{
    lemma_selected_covers(t, sym);
    let sel = selected(t, sym);
    assert forall|k: int| 0 <= k < t.len() && keeps(#[trigger] t[k], sym) implies {
        let i = c.id_map@[t[k].spec_id()] as int;
        &&& 0 <= i < c.nodes@.len()
        &&& t[k] == ContractSpec::Option(sel[i])
        &&& c.nodes@[i].holds_spec(sel[i])
    } by {
        let j = choose|j: int| 0 <= j < sel.len() && t[k] == ContractSpec::Option(#[trigger] sel[j]);
        assert(c.nodes@[j].holds_spec(sel[j]));
        assert(c.id_map@.contains_key(c.nodes@[j].id));
    }
}

/// Lattice completeness, by node: each node, and so each label the chain
/// finds, is an active option on the symbol that the catalog lists, and each
/// node is among the calls or among the puts according to its parity.
pub proof fn lemma_nodes_listed(c: LedgerXOptionsChain, t: Seq<ContractSpec>, sym: Seq<char>)
    requires
        c.wf(),
        c.built_from(t, sym),
    ensures
        forall|i: int|
            0 <= i < c.nodes@.len() ==> exists|k: int|
                0 <= k < t.len() && keeps(#[trigger] t[k], sym) && t[k] == ContractSpec::Option(
                    selected(t, sym)[i],
                ) && (#[trigger] c.nodes@[i]).label@ == selected(t, sym)[i].label@,
        forall|i: int|
            0 <= i < c.nodes@.len() ==> (c.calls@.contains(i as usize) <==> (#[trigger] c.nodes@[i]).is_call)
                && (c.puts@.contains(i as usize) <==> !c.nodes@[i].is_call),
{
    lemma_selected_ids(t, sym);
    let sel = selected(t, sym);
    assert forall|i: int| 0 <= i < c.nodes@.len() implies exists|k: int|
        0 <= k < t.len() && keeps(#[trigger] t[k], sym) && t[k] == ContractSpec::Option(sel[i])
            && (#[trigger] c.nodes@[i]).label@ == sel[i].label@ by {
        assert(c.nodes@[i].holds_spec(sel[i]));
        let k = choose|k: int|
            0 <= k < t.len() && t[k] == ContractSpec::Option(#[trigger] sel[i]) && keeps(t[k], sym);
    }
    assert forall|i: int| 0 <= i < c.nodes@.len() implies (c.calls@.contains(i as usize) <==> (
    #[trigger] c.nodes@[i]).is_call) && (c.puts@.contains(i as usize) <==> !c.nodes@[i].is_call) by {
        if c.calls@.contains(i as usize) {
            let k = choose|k: int| 0 <= k < c.calls@.len() && c.calls@[k] == i as usize;
        }
        if c.puts@.contains(i as usize) {
            let k = choose|k: int| 0 <= k < c.puts@.len() && c.puts@[k] == i as usize;
        }
    }
}

/// No two nodes share expiry, strike and parity: each level holds at most
/// one call and one put.
pub open spec fn unique_levels(nodes: Seq<LedgerXOptionsContract>) -> bool {
    forall|a: int, b: int|
        0 <= a < nodes.len() && 0 <= b < nodes.len() && a != b ==> node_key(#[trigger] nodes[a])
            != node_key(#[trigger] nodes[b])
}

/// Adjacency symmetry: where a level holds both a call and a put, each one's
/// `adjacent` link names the other.
pub proof fn lemma_adjacency_symmetry(c: LedgerXOptionsChain, i: int, j: int)
    requires
        c.wf(),
        unique_levels(c.nodes@),
        0 <= i < c.nodes@.len(),
        0 <= j < c.nodes@.len(),
        counterpart(node_key(c.nodes@[i]), node_key(c.nodes@[j])),
    ensures
        c.nodes@[i].adjacent == Some(j as usize),
        c.nodes@[j].adjacent == Some(i as usize),
{
    let keys = keys_of(c.nodes@);
    assert(keys[i] == node_key(c.nodes@[i]) && keys[j] == node_key(c.nodes@[j]));
    assert(adjacent_link(keys, i, c.nodes@[i].adjacent));
    assert(adjacent_link(keys, j, c.nodes@[j].adjacent));
    match c.nodes@[i].adjacent {
        Some(x) => {
            assert(keys[x as int] == node_key(c.nodes@[x as int]));
            if x as int != j {
                assert(node_key(c.nodes@[x as int]) != node_key(c.nodes@[j]));
            }
        },
        None => {
            assert(!counterpart(keys[i], keys[j]));
        },
    }
    match c.nodes@[j].adjacent {
        Some(x) => {
            assert(keys[x as int] == node_key(c.nodes@[x as int]));
            if x as int != i {
                assert(node_key(c.nodes@[x as int]) != node_key(c.nodes@[i]));
            }
        },
        None => {
            assert(!counterpart(keys[j], keys[i]));
        },
    }
}

/// The node reached from node `i` by following `up` links `n` times, if the
/// walk gets that far.
pub open spec fn walk_up(nodes: Seq<LedgerXOptionsContract>, i: int, n: nat) -> Option<int>
    decreases n,
{
    if n == 0 {
        Some(i)
    } else {
        match nodes[i].up {
            Some(j) => walk_up(nodes, j as int, (n - 1) as nat),
            None => None,
        }
    }
}

/// The node reached from node `i` by following `down` links `n` times, if the
/// walk gets that far.
pub open spec fn walk_down(nodes: Seq<LedgerXOptionsContract>, i: int, n: nat) -> Option<int>
    decreases n,
{
    if n == 0 {
        Some(i)
    } else {
        match nodes[i].down {
            Some(j) => walk_down(nodes, j as int, (n - 1) as nat),
            None => None,
        }
    }
}

/// A walk up the chain stays in its series, climbs at least one strike per
/// step, each step follows the `up` link of the node before it, and it stops
/// only at the highest strike of the series.
pub proof fn lemma_walk_up_climbs(c: LedgerXOptionsChain, i: int, n: nat)
    requires
        c.wf(),
        0 <= i < c.nodes@.len(),
    ensures
        walk_up(c.nodes@, i, n) matches Some(m) ==> {
            &&& 0 <= m < c.nodes@.len()
            &&& same_series(node_key(c.nodes@[i]), node_key(c.nodes@[m]))
            &&& c.nodes@[m].strike >= c.nodes@[i].strike + n
            &&& walk_up(c.nodes@, i, n + 1) == match c.nodes@[m].up {
                Some(x) => Some(x as int),
                None => None::<int>,
            }
            &&& c.nodes@[m].up is None ==> forall|k: int|
                0 <= k < c.nodes@.len() && same_series(node_key(c.nodes@[i]), node_key(#[trigger] c.nodes@[k]))
                    ==> c.nodes@[k].strike <= c.nodes@[m].strike
        },
    decreases n,
{
    let keys = keys_of(c.nodes@);
    assert(up_link(keys, i, c.nodes@[i].up));
    if n == 0 {
        assert(walk_up(c.nodes@, i, 1) == match c.nodes@[i].up {
            Some(x) => walk_up(c.nodes@, x as int, 0),
            None => None::<int>,
        });
        if c.nodes@[i].up is None {
            assert forall|k: int|
                0 <= k < c.nodes@.len() && same_series(node_key(c.nodes@[i]), node_key(#[trigger] c.nodes@[k]))
                    implies c.nodes@[k].strike <= c.nodes@[i].strike by {
                assert(keys[k] == node_key(c.nodes@[k]));
            }
        }
    } else {
        match c.nodes@[i].up {
            Some(j) => {
                lemma_walk_up_climbs(c, j as int, (n - 1) as nat);
                assert(keys[j as int] == node_key(c.nodes@[j as int]));
                assert(walk_up(c.nodes@, i, n + 1) == walk_up(c.nodes@, j as int, n));
            },
            None => {},
        }
    }
}

/// Monotone navigation upward: walking `up` from node `i` reaches, after
/// some number of steps, a node at every strike of its series at or above
/// its own.
pub proof fn lemma_walk_up_visits(c: LedgerXOptionsChain, i: int, k: int)
    requires
        c.wf(),
        0 <= i < c.nodes@.len(),
        0 <= k < c.nodes@.len(),
        same_series(node_key(c.nodes@[i]), node_key(c.nodes@[k])),
        c.nodes@[k].strike >= c.nodes@[i].strike,
    ensures
        exists|n: nat| #[trigger]
            walk_up(c.nodes@, i, n) matches Some(m) && c.nodes@[m].strike == c.nodes@[k].strike,
    decreases c.nodes@[k].strike - c.nodes@[i].strike,
{
    let keys = keys_of(c.nodes@);
    assert(up_link(keys, i, c.nodes@[i].up));
    assert(keys[k] == node_key(c.nodes@[k]) && keys[i] == node_key(c.nodes@[i]));
    if c.nodes@[k].strike == c.nodes@[i].strike {
        assert(walk_up(c.nodes@, i, 0) == Some(i));
    } else {
        let j = c.nodes@[i].up.unwrap() as int;
        assert(keys[j] == node_key(c.nodes@[j]));
        lemma_walk_up_visits(c, j, k);
        let n = choose|n: nat| #[trigger]
            walk_up(c.nodes@, j, n) matches Some(m) && c.nodes@[m].strike == c.nodes@[k].strike;
        assert(walk_up(c.nodes@, i, n + 1) == walk_up(c.nodes@, j, n));
    }
}

/// A walk down the chain stays in its series, descends at least one strike
/// per step, each step follows the `down` link of the node before it, and it
/// stops only at the lowest strike of the series.
pub proof fn lemma_walk_down_descends(c: LedgerXOptionsChain, i: int, n: nat)
    requires
        c.wf(),
        0 <= i < c.nodes@.len(),
    ensures
        walk_down(c.nodes@, i, n) matches Some(m) ==> {
            &&& 0 <= m < c.nodes@.len()
            &&& same_series(node_key(c.nodes@[i]), node_key(c.nodes@[m]))
            &&& c.nodes@[m].strike + n <= c.nodes@[i].strike
            &&& walk_down(c.nodes@, i, n + 1) == match c.nodes@[m].down {
                Some(x) => Some(x as int),
                None => None::<int>,
            }
            &&& c.nodes@[m].down is None ==> forall|k: int|
                0 <= k < c.nodes@.len() && same_series(node_key(c.nodes@[i]), node_key(#[trigger] c.nodes@[k]))
                    ==> c.nodes@[k].strike >= c.nodes@[m].strike
        },
    decreases n,
{
    let keys = keys_of(c.nodes@);
    assert(down_link(keys, i, c.nodes@[i].down));
    if n == 0 {
        assert(walk_down(c.nodes@, i, 1) == match c.nodes@[i].down {
            Some(x) => walk_down(c.nodes@, x as int, 0),
            None => None::<int>,
        });
        if c.nodes@[i].down is None {
            assert forall|k: int|
                0 <= k < c.nodes@.len() && same_series(node_key(c.nodes@[i]), node_key(#[trigger] c.nodes@[k]))
                    implies c.nodes@[k].strike >= c.nodes@[i].strike by {
                assert(keys[k] == node_key(c.nodes@[k]));
            }
        }
    } else {
        match c.nodes@[i].down {
            Some(j) => {
                lemma_walk_down_descends(c, j as int, (n - 1) as nat);
                assert(keys[j as int] == node_key(c.nodes@[j as int]));
                assert(walk_down(c.nodes@, i, n + 1) == walk_down(c.nodes@, j as int, n));
            },
            None => {},
        }
    }
}

/// Monotone navigation downward: walking `down` from node `i` reaches, after
/// some number of steps, a node at every strike of its series at or below
/// its own.
pub proof fn lemma_walk_down_visits(c: LedgerXOptionsChain, i: int, k: int)
    requires
        c.wf(),
        0 <= i < c.nodes@.len(),
        0 <= k < c.nodes@.len(),
        same_series(node_key(c.nodes@[i]), node_key(c.nodes@[k])),
        c.nodes@[k].strike <= c.nodes@[i].strike,
    ensures
        exists|n: nat| #[trigger]
            walk_down(c.nodes@, i, n) matches Some(m) && c.nodes@[m].strike == c.nodes@[k].strike,
    decreases c.nodes@[i].strike - c.nodes@[k].strike,
{
    let keys = keys_of(c.nodes@);
    assert(down_link(keys, i, c.nodes@[i].down));
    assert(keys[k] == node_key(c.nodes@[k]) && keys[i] == node_key(c.nodes@[i]));
    if c.nodes@[k].strike == c.nodes@[i].strike {
        assert(walk_down(c.nodes@, i, 0) == Some(i));
    } else {
        let j = c.nodes@[i].down.unwrap() as int;
        assert(keys[j] == node_key(c.nodes@[j]));
        lemma_walk_down_visits(c, j, k);
        let n = choose|n: nat| #[trigger]
            walk_down(c.nodes@, j, n) matches Some(m) && c.nodes@[m].strike == c.nodes@[k].strike;
        assert(walk_down(c.nodes@, i, n + 1) == walk_down(c.nodes@, j, n));
    }
}

/// Every link of a node of a well-formed chain names a node of the chain;
/// its counterpart link names a counterpart.
pub proof fn lemma_links_in_range(c: LedgerXOptionsChain, i: int)
    requires
        c.wf(),
        0 <= i < c.nodes@.len(),
    ensures
        c.nodes@[i].adjacent matches Some(p) ==> (p as int) < c.nodes@.len() && counterpart(
            node_key(c.nodes@[i]),
            node_key(c.nodes@[p as int]),
        ),
        c.nodes@[i].up matches Some(p) ==> (p as int) < c.nodes@.len(),
        c.nodes@[i].down matches Some(p) ==> (p as int) < c.nodes@.len(),
{
    let keys = keys_of(c.nodes@);
    assert(adjacent_link(keys, i, c.nodes@[i].adjacent));
    assert(up_link(keys, i, c.nodes@[i].up));
    assert(down_link(keys, i, c.nodes@[i].down));
    if c.nodes@[i].adjacent is Some {
        let p = c.nodes@[i].adjacent.unwrap() as int;
        assert(keys[p] == node_key(c.nodes@[p]));
    }
}

/// Every listed call names a node, and every counterpart link names a node.
pub open spec fn refs_in_range(c: LedgerXOptionsChain) -> bool {
    &&& forall|k: int| 0 <= k < c.calls@.len() ==> (#[trigger] c.calls@[k] as int) < c.nodes@.len()
    &&& forall|i: int|
        0 <= i < c.nodes@.len() && (#[trigger] c.nodes@[i]).adjacent is Some ==> (c.nodes@[i].adjacent.unwrap() as int)
            < c.nodes@.len()
}

/// The references of a well-formed chain are in range.
pub proof fn lemma_refs_in_range(c: LedgerXOptionsChain)
    requires
        c.wf(),
    ensures
        refs_in_range(c),
{
    let keys = keys_of(c.nodes@);
    assert forall|i: int| 0 <= i < c.nodes@.len() && (#[trigger] c.nodes@[i]).adjacent is Some implies (
    c.nodes@[i].adjacent.unwrap() as int) < c.nodes@.len() by {
        assert(adjacent_link(keys, i, c.nodes@[i].adjacent));
    }
}

/// Two chains whose nodes differ at most in their quotes are both
/// well-formed where one is.
proof fn lemma_same_shape_wf(a: LedgerXOptionsChain, b: LedgerXOptionsChain)
    requires
        a.wf(),
        a.calls@ == b.calls@,
        a.puts@ == b.puts@,
        a.id_map@ == b.id_map@,
        a.nodes@.len() == b.nodes@.len(),
        forall|k: int|
            0 <= k < a.nodes@.len() ==> {
                &&& (#[trigger] b.nodes@[k]).id == a.nodes@[k].id
                &&& node_key(b.nodes@[k]) == node_key(a.nodes@[k])
                &&& b.nodes@[k].adjacent == a.nodes@[k].adjacent
                &&& b.nodes@[k].up == a.nodes@[k].up
                &&& b.nodes@[k].down == a.nodes@[k].down
            },
    ensures
        b.wf(),
{
    let na = a.nodes@;
    let nb = b.nodes@;
    assert(keys_of(nb) =~= keys_of(na));
    assert forall|i: int| 0 <= i < nb.len() implies {
        &&& adjacent_link(keys_of(nb), i, (#[trigger] nb[i]).adjacent)
        &&& up_link(keys_of(nb), i, nb[i].up)
        &&& down_link(keys_of(nb), i, nb[i].down)
    } by {
        assert(na[i].adjacent == nb[i].adjacent);
    }
    assert(id_index(nb, b.id_map@)) by {
        assert forall|i: int| 0 <= i < nb.len() implies b.id_map@.contains_key((#[trigger] nb[i]).id)
            && b.id_map@[nb[i].id] == i by {
            assert(na[i].id == nb[i].id);
        }
        assert forall|id: u64| #[trigger] b.id_map@.contains_key(id) implies (b.id_map@[id] as int) < nb.len()
            && nb[b.id_map@[id] as int].id == id by {
            assert(a.id_map@.contains_key(id));
        }
    }
    assert(parity_index(nb, b.calls@, true)) by {
        assert forall|k: int| 0 <= k < b.calls@.len() implies (#[trigger] b.calls@[k] as int) < nb.len()
            && nb[b.calls@[k] as int].is_call == true by {
            assert(node_key(nb[b.calls@[k] as int]) == node_key(na[b.calls@[k] as int]));
        }
        assert forall|i: int| 0 <= i < nb.len() && (#[trigger] nb[i]).is_call == true implies b.calls@.contains(
            i as usize,
        ) by {
            assert(node_key(nb[i]) == node_key(na[i]));
        }
    }
    assert(parity_index(nb, b.puts@, false)) by {
        assert forall|k: int| 0 <= k < b.puts@.len() implies (#[trigger] b.puts@[k] as int) < nb.len()
            && nb[b.puts@[k] as int].is_call == false by {
            assert(node_key(nb[b.puts@[k] as int]) == node_key(na[b.puts@[k] as int]));
        }
        assert forall|i: int| 0 <= i < nb.len() && (#[trigger] nb[i]).is_call == false implies b.puts@.contains(
            i as usize,
        ) by {
            assert(node_key(nb[i]) == node_key(na[i]));
        }
    }
}

/// The call and the put at one expiry and strike.
pub struct LedgerXOptionsLevel {
    pub expiration: i64,
    pub strike: u64,
    pub call: Option<LatticePointer>,
    pub put: Option<LatticePointer>,
}

/// `r` is the first node from index `from` on at the given expiry, strike
/// and parity, or none where there is none.
pub open spec fn level_member_from(
    nodes: Seq<LedgerXOptionsContract>,
    expiration: i64,
    strike: u64,
    call: bool,
    r: Option<LatticePointer>,
    from: int,
) -> bool {
    match r {
        Some(i) => from <= i < nodes.len() && node_key(nodes[i as int]) == (expiration, strike, call)
            && forall|k: int| from <= k < i ==> node_key(#[trigger] nodes[k]) != (expiration, strike, call),
        None => forall|k: int|
            from <= k < nodes.len() ==> node_key(#[trigger] nodes[k]) != (expiration, strike, call),
    }
}

/// `r` is the first node of the arena at the given expiry, strike and
/// parity, or none where there is none.
pub open spec fn level_member(
    nodes: Seq<LedgerXOptionsContract>,
    expiration: i64,
    strike: u64,
    call: bool,
    r: Option<LatticePointer>,
) -> bool {
    level_member_from(nodes, expiration, strike, call, r, 0)
}

/// `m` maps the id of every node to that node, and nothing else.
pub open spec fn id_index(nodes: Seq<LedgerXOptionsContract>, m: Map<u64, usize>) -> bool {
    &&& forall|i: int| 0 <= i < nodes.len() ==> m.contains_key((#[trigger] nodes[i]).id) && m[nodes[i].id] == i
    &&& forall|id: u64| #[trigger] m.contains_key(id) ==> (m[id] as int) < nodes.len() && nodes[m[id] as int].id == id
}

/// `idx` lists, in strictly increasing order, exactly the nodes whose parity is `call`.
pub open spec fn parity_index(nodes: Seq<LedgerXOptionsContract>, idx: Seq<usize>, call: bool) -> bool {
    &&& forall|k: int|
        0 <= k < idx.len() ==> (#[trigger] idx[k] as int) < nodes.len() && nodes[idx[k] as int].is_call
            == call
    &&& forall|a: int, b: int| 0 <= a < b < idx.len() ==> #[trigger] idx[a] < #[trigger] idx[b]
    &&& forall|i: int| 0 <= i < nodes.len() && (#[trigger] nodes[i]).is_call == call ==> idx.contains(i as usize)
}

} // verus!
