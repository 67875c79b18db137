use vstd::prelude::*;

verus! {

/// Ceiling division on mathematical integers: the least `q` with `q * d >= n`
/// for a positive denominator `d` and non-negative `n`.
pub open spec fn ceil_div(n: int, d: int) -> int {
    (n + d - 1) / d
}

/// Run-time configuration of the replica: how many connections to open, how
/// many price levels to keep per side, which instruments to watch, and the
/// endpoints to reach the exchange at.
///
/// Argument parsing itself is transport-side work; the one computation the
/// engine derives from the configuration is the partition size
/// [`Config::instruments_per_connection`].
pub struct Config {
    /// number of connections to the exchange allowed to open; at least 1
    pub connections: u32,
    /// number of price levels kept and displayed per side
    pub levels: u32,
    /// delay between displayed updates in ms
    pub delay: u32,
    /// instruments to watch
    pub instruments: Vec<String>,
    /// websocket streaming endpoint
    pub ws_api_url: String,
    /// snapshot request endpoint
    pub api_url: String,
}

impl Config {
    /// How many instruments each connection receives: the instrument list is
    /// split into `connections` contiguous chunks of this size (the last chunk
    /// possibly smaller, or absent when `connections` exceeds the count).
    pub fn instruments_per_connection(&self) -> (r: usize)
        requires
            self.connections >= 1,
        ensures
            r == ceil_div(self.instruments@.len() as int, self.connections as int),
    {
        let n = self.instruments.len();
        let c = self.connections as usize;
        if n == 0 {
            proof {
                vstd::arithmetic::div_mod::lemma_basic_div(c - 1, c as int);
            }
            0
        } else {
            proof {
                vstd::arithmetic::div_mod::lemma_div_plus_one(n - 1, c as int);
            }
            (n - 1) / c + 1
        }
    }
}

impl Default for Config {
    /// The all-empty configuration: zero counts, no instruments, empty URLs.
    fn default() -> (r: Self)
        ensures
            r.connections == 0,
            r.levels == 0,
            r.delay == 0,
            r.instruments@ == Seq::<String>::empty(),
            r.ws_api_url@ == Seq::<char>::empty(),
            r.api_url@ == Seq::<char>::empty(),
    {
        Config {
            connections: 0,
            levels: 0,
            delay: 0,
            instruments: Vec::new(),
            ws_api_url: String::new(),
            api_url: String::new(),
        }
    }
}

} // verus!
