//! Put-call-parity arbitrage between a listed options chain and a spot
//! market.
//!
//! `options_chain` holds the chain: an arena of option nodes linked to their
//! counterpart at the same strike and to their neighbours by strike.
//! `strat` evaluates the conversion and reversal conditions on each quote and
//! assembles trades; `trade` nets their spot legs; `quote` reads the spot
//! venue's decimal texts as fixed-point integers.
pub mod linking;
pub mod options_chain;
pub mod quote;
pub mod strat;
pub mod trade;
