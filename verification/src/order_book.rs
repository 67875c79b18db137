use vstd::prelude::*;
use vstd::utf8::encode_utf8;
use crate::decimal::parse_fixed;
use crate::decimal::parse_fixed_point;
use crate::messages::BookDepthUpdate;
use crate::messages::FullBook;
use crate::messages::LevelApi;
use crate::price_level::Level;
use crate::price_level::PriceLevelSet;
use crate::price_level::side_sorted;
use crate::price_level::truncated;
use crate::price_level::upsert_spec;

verus! {

/// The level-update token could not be read as a decimal number: it is
/// rejected, and the rest of its event is still applied.
#[derive(Clone, Copy, Debug, PartialEq, Eq, Structural)]
pub struct MalformedLevel;

/// What applying a diff event decided: `Applied` is the normal path,
/// `Stale` marks an event wholly covered by state already applied, and
/// `Gap` marks a discontinuity that only a fresh snapshot can repair.
#[derive(Clone, Copy, Debug, PartialEq, Eq, Structural)]
pub enum DiffOutcome {
    Applied,
    Stale,
    Gap,
}

/// The level a wire-encoded level denotes, when both of its decimal tokens
/// parse.
pub open spec fn level_of_api(api: LevelApi) -> Option<Level> {
    match (parse_fixed(encode_utf8(api.price@)), parse_fixed(encode_utf8(api.quantity@))) {
        (Some(p), Some(q)) => Some(Level { quantity: q, price: p }),
        _ => None,
    }
}

/// What a list of wire-encoded level updates does to a side, applied first
/// to last; an update whose tokens do not parse is skipped.
pub open spec fn apply_levels(s: Seq<Level>, updates: Seq<LevelApi>, ascending: bool) -> Seq<Level>
    decreases updates.len(),
{
    if updates.len() == 0 {
        s
    } else {
        let once = match level_of_api(updates[0]) {
            Some(lv) => upsert_spec(s, lv, ascending),
            None => s,
        };
        apply_levels(once, updates.skip(1), ascending)
    }
}

/// Applying one more update at the end goes through the same single step.
pub proof fn lemma_apply_levels_snoc(
    s: Seq<Level>,
    updates: Seq<LevelApi>,
    x: LevelApi,
    ascending: bool,
)
    ensures
        apply_levels(s, updates.push(x), ascending) == (match level_of_api(x) {
            Some(lv) => upsert_spec(apply_levels(s, updates, ascending), lv, ascending),
            None => apply_levels(s, updates, ascending),
        }),
    decreases updates.len(),
{
    let pp = updates.push(x);
    if updates.len() == 0 {
        assert(pp[0] == x);
        assert(pp.skip(1) =~= Seq::<LevelApi>::empty());
        let once = match level_of_api(x) {
            Some(lv) => upsert_spec(s, lv, ascending),
            None => s,
        };
        assert(apply_levels(s, pp, ascending) == apply_levels(once, pp.skip(1), ascending));
        assert(apply_levels(once, pp.skip(1), ascending) == once);
        assert(apply_levels(s, updates, ascending) == s);
    } else {
        assert(pp[0] == updates[0]);
        assert(pp.skip(1) =~= updates.skip(1).push(x));
        let once = match level_of_api(updates[0]) {
            Some(lv) => upsert_spec(s, lv, ascending),
            None => s,
        };
        assert(apply_levels(s, pp, ascending) == apply_levels(once, pp.skip(1), ascending));
        lemma_apply_levels_snoc(once, updates.skip(1), x, ascending);
        assert(apply_levels(s, updates, ascending) == apply_levels(
            once,
            updates.skip(1),
            ascending,
        ));
    }
}

/// Parses one wire-encoded level into fixed-point atoms, rejecting a level
/// whose price or quantity is not a well-shaped decimal.
pub fn level_api_to_level(api: &LevelApi) -> (r: Result<Level, MalformedLevel>)
    ensures
        r == (match level_of_api(*api) {
            Some(lv) => Ok::<Level, MalformedLevel>(lv),
            None => Err::<Level, MalformedLevel>(MalformedLevel),
        }),
{
    match parse_fixed_point(api.price.as_str()) {
        Some(p) => match parse_fixed_point(api.quantity.as_str()) {
            Some(q) => Ok(Level { quantity: q, price: p }),
            None => Err(MalformedLevel),
        },
        None => Err(MalformedLevel),
    }
}

/// The synchronized order book of one instrument: the two sorted sides, the
/// configured depth, and the sequencing cursor that reconciliation turns on.
pub struct OrderBook {
    last_update_id: u64,
    levels: u32,
    symbol: String,
    bid: PriceLevelSet,
    ask: PriceLevelSet,
    is_just_initialised: bool,
}

impl OrderBook {
    /// The sequence id of the last fully applied event.
    pub closed spec fn spec_last_update_id(&self) -> u64 {
        self.last_update_id
    }

    /// The configured number of levels retained per side.
    pub closed spec fn spec_levels(&self) -> u32 {
        self.levels
    }

    /// The instrument this book belongs to.
    pub closed spec fn spec_symbol(&self) -> Seq<char> {
        self.symbol@
    }

    /// The bid side, best (highest) price first.
    pub closed spec fn bids(&self) -> Seq<Level> {
        self.bid@
    }

    /// The ask side, best (lowest) price first.
    pub closed spec fn asks(&self) -> Seq<Level> {
        self.ask@
    }

    /// Whether a snapshot was applied and no diff yet after it: for exactly
    /// that one transition the continuity check is relaxed.
    pub closed spec fn spec_is_just_initialised(&self) -> bool {
        self.is_just_initialised
    }

    /// The two sides sorted in their directions: bids descending, asks
    /// ascending.
    pub closed spec fn sides_sorted(&self) -> bool {
        &&& self.bid.well_formed()
        &&& !self.bid.is_ascending()
        &&& self.ask.well_formed()
        &&& self.ask.is_ascending()
    }

    /// The book's invariant: sorted sides, each no deeper than the
    /// configured depth.
    pub open spec fn well_formed(&self) -> bool {
        &&& self.sides_sorted()
        &&& self.bids().len() <= self.spec_levels()
        &&& self.asks().len() <= self.spec_levels()
    }

    /// A diff event wholly covered by state already applied: its final id
    /// lies strictly before the cursor.
    pub open spec fn is_update_applied(&self, book_update: &BookDepthUpdate) -> bool {
        book_update.u < self.spec_last_update_id()
    }

    /// A diff event whose covered id range contains the cursor.
    pub open spec fn is_eligible_for_update(&self, book_update: &BookDepthUpdate) -> bool {
        book_update.U <= self.spec_last_update_id() && self.spec_last_update_id() <= book_update.u
    }

    /// An empty book for one instrument, with its depth fixed for good.
    pub fn new(levels: u32, symbol: String) -> (r: Self)
        ensures
            r.well_formed(),
            r.spec_last_update_id() == 0,
            r.spec_levels() == levels,
            r.spec_symbol() == symbol@,
            r.bids() == Seq::<Level>::empty(),
            r.asks() == Seq::<Level>::empty(),
            !r.spec_is_just_initialised(),
    {
        OrderBook {
            last_update_id: 0,
            levels,
            symbol,
            bid: PriceLevelSet::new(false),
            ask: PriceLevelSet::new(true),
            is_just_initialised: false,
        }
    }

    /// The best bid: the highest-priced level of the bid side.
    pub fn get_best_bid(&self) -> (r: Option<Level>)
        ensures
            r == (if self.bids().len() == 0 {
                None::<Level>
            } else {
                Some(self.bids()[0])
            }),
    {
        self.bid.best()
    }

    /// The best ask: the lowest-priced level of the ask side.
    pub fn get_best_ask(&self) -> (r: Option<Level>)
        ensures
            r == (if self.asks().len() == 0 {
                None::<Level>
            } else {
                Some(self.asks()[0])
            }),
    {
        self.ask.best()
    }

    /// The mid price in atoms — the average of the best bid and best ask,
    /// rounded down — when both sides are non-empty.
    pub fn get_mid(&self) -> (r: Option<u64>)
        ensures
            r == (if self.bids().len() > 0 && self.asks().len() > 0 {
                Some((((self.bids()[0].price + self.asks()[0].price) as int) / 2) as u64)
            } else {
                None::<u64>
            }),
    {
        match self.get_best_bid() {
            Some(bid_level) => match self.get_best_ask() {
                Some(ask_level) => {
                    let sum: u128 = bid_level.price as u128 + ask_level.price as u128;
                    Some((sum / 2) as u64)
                },
                None => None,
            },
            None => None,
        }
    }

    /// The spread in atoms — best ask minus best bid, negative if the book
    /// is crossed — when both sides are non-empty.
    pub fn get_spread(&self) -> (r: Option<i128>)
        ensures
            r == (if self.bids().len() > 0 && self.asks().len() > 0 {
                Some(((self.asks()[0].price - self.bids()[0].price) as int) as i128)
            } else {
                None::<i128>
            }),
    {
        match self.get_best_bid() {
            Some(bid_level) => match self.get_best_ask() {
                Some(ask_level) => Some(ask_level.price as i128 - bid_level.price as i128),
                None => None,
            },
            None => None,
        }
    }

    /// Applies one bid-side level update, skipping it when malformed.
    fn apply_bid(&mut self, api_level: &LevelApi)
        requires
            old(self).sides_sorted(),
        ensures
            final(self).sides_sorted(),
            final(self).bids() == (match level_of_api(*api_level) {
                Some(lv) => upsert_spec(old(self).bids(), lv, false),
                None => old(self).bids(),
            }),
            final(self).asks() == old(self).asks(),
            final(self).spec_last_update_id() == old(self).spec_last_update_id(),
            final(self).spec_levels() == old(self).spec_levels(),
            final(self).spec_symbol() == old(self).spec_symbol(),
            final(self).spec_is_just_initialised() == old(self).spec_is_just_initialised(),
    {
        match level_api_to_level(api_level) {
            Ok(lv) => self.bid.upsert(lv.price, lv.quantity),
            Err(_) => (),
        }
    }

    /// Applies one ask-side level update, skipping it when malformed.
    fn apply_ask(&mut self, api_level: &LevelApi)
        requires
            old(self).sides_sorted(),
        ensures
            final(self).sides_sorted(),
            final(self).asks() == (match level_of_api(*api_level) {
                Some(lv) => upsert_spec(old(self).asks(), lv, true),
                None => old(self).asks(),
            }),
            final(self).bids() == old(self).bids(),
            final(self).spec_last_update_id() == old(self).spec_last_update_id(),
            final(self).spec_levels() == old(self).spec_levels(),
            final(self).spec_symbol() == old(self).spec_symbol(),
            final(self).spec_is_just_initialised() == old(self).spec_is_just_initialised(),
    {
        match level_api_to_level(api_level) {
            Ok(lv) => self.ask.upsert(lv.price, lv.quantity),
            Err(_) => (),
        }
    }

    /// Cuts both sides back to the configured depth.
    fn trim(&mut self)
        ensures
            final(self).bids() == truncated(old(self).bids(), old(self).spec_levels() as int),
            final(self).asks() == truncated(old(self).asks(), old(self).spec_levels() as int),
            old(self).sides_sorted() ==> final(self).sides_sorted(),
            final(self).bids().len() <= final(self).spec_levels(),
            final(self).asks().len() <= final(self).spec_levels(),
            final(self).spec_last_update_id() == old(self).spec_last_update_id(),
            final(self).spec_levels() == old(self).spec_levels(),
            final(self).spec_symbol() == old(self).spec_symbol(),
            final(self).spec_is_just_initialised() == old(self).spec_is_just_initialised(),
    {
        let depth = self.levels as usize;
        self.bid.truncate_to(depth);
        self.ask.truncate_to(depth);
    }

    /// Replaces the whole book from a snapshot: both sides are rebuilt from
    /// the given lists (malformed levels skipped), the cursor moves to the
    /// snapshot's id, and the one-diff continuity relaxation is armed.
    pub fn apply_full_book_from_http_api(&mut self, book: &FullBook)
        requires
            old(self).well_formed(),
        ensures
            final(self).well_formed(),
            final(self).spec_last_update_id() == book.last_update_id,
            final(self).spec_is_just_initialised(),
            final(self).spec_levels() == old(self).spec_levels(),
            final(self).spec_symbol() == old(self).spec_symbol(),
            final(self).bids() == truncated(
                apply_levels(Seq::<Level>::empty(), book.bids@, false),
                old(self).spec_levels() as int,
            ),
            final(self).asks() == truncated(
                apply_levels(Seq::<Level>::empty(), book.asks@, true),
                old(self).spec_levels() as int,
            ),
    {
        self.last_update_id = book.last_update_id;
        self.is_just_initialised = true;

        self.bid = PriceLevelSet::new(false);
        let ghost bid_updates = book.bids@;
        let mut i: usize = 0;
        while i < book.bids.len()
            invariant
                0 <= i <= book.bids.len(),
                book.bids@ == bid_updates,
                self.sides_sorted(),
                self.bids() == apply_levels(Seq::<Level>::empty(), bid_updates.take(i as int), false),
                self.asks() == old(self).asks(),
                self.spec_levels() == old(self).spec_levels(),
                self.spec_symbol() == old(self).spec_symbol(),
                self.spec_last_update_id() == book.last_update_id,
                self.spec_is_just_initialised(),
            decreases book.bids.len() - i,
        {
            proof {
                assert(bid_updates.take(i + 1) =~= bid_updates.take(i as int).push(bid_updates[i as int]));
                lemma_apply_levels_snoc(
                    Seq::<Level>::empty(),
                    bid_updates.take(i as int),
                    bid_updates[i as int],
                    false,
                );
            }
            self.apply_bid(&book.bids[i]);
            i += 1;
        }
        proof {
            assert(bid_updates.take(book.bids@.len() as int) =~= bid_updates);
        }

        self.ask = PriceLevelSet::new(true);
        let ghost ask_updates = book.asks@;
        let mut j: usize = 0;
        while j < book.asks.len()
            invariant
                0 <= j <= book.asks.len(),
                book.asks@ == ask_updates,
                self.sides_sorted(),
                self.asks() == apply_levels(Seq::<Level>::empty(), ask_updates.take(j as int), true),
                self.bids() == apply_levels(Seq::<Level>::empty(), bid_updates, false),
                self.spec_levels() == old(self).spec_levels(),
                self.spec_symbol() == old(self).spec_symbol(),
                self.spec_last_update_id() == book.last_update_id,
                self.spec_is_just_initialised(),
            decreases book.asks.len() - j,
        {
            proof {
                assert(ask_updates.take(j + 1) =~= ask_updates.take(j as int).push(ask_updates[j as int]));
                lemma_apply_levels_snoc(
                    Seq::<Level>::empty(),
                    ask_updates.take(j as int),
                    ask_updates[j as int],
                    true,
                );
            }
            self.apply_ask(&book.asks[j]);
            j += 1;
        }
        proof {
            assert(ask_updates.take(book.asks@.len() as int) =~= ask_updates);
        }

        self.trim()
    }

    /// Reconciles one diff event against the cursor.
    ///
    /// An event that ends strictly before the cursor is [`DiffOutcome::Stale`]
    /// and changes nothing. An event whose id range does not contain the
    /// cursor, or that fails the continuity check against the previous
    /// event's final id — relaxed for exactly the first diff after a
    /// snapshot — is [`DiffOutcome::Gap`] and changes nothing. Otherwise
    /// every level update of the event is applied (malformed ones skipped),
    /// the cursor advances to the event's final id, and the outcome is
    /// [`DiffOutcome::Applied`]. The cursor never moves backwards.
    pub fn apply_depth_book_update_from_websocket(&mut self, book: &BookDepthUpdate) -> (r:
        DiffOutcome)
        requires
            old(self).well_formed(),
        ensures
            final(self).well_formed(),
            final(self).spec_levels() == old(self).spec_levels(),
            final(self).spec_symbol() == old(self).spec_symbol(),
            final(self).spec_last_update_id() >= old(self).spec_last_update_id(),
            old(self).is_update_applied(book) ==> r == DiffOutcome::Stale && *final(self) == *old(
                self,
            ),
            !old(self).is_update_applied(book) && !old(self).is_eligible_for_update(book) ==> r
                == DiffOutcome::Gap && *final(self) == *old(self),
            !old(self).is_update_applied(book) && old(self).is_eligible_for_update(book) && !old(
                self,
            ).spec_is_just_initialised() && book.pu != old(self).spec_last_update_id() ==> r
                == DiffOutcome::Gap && *final(self) == *old(self),
            !old(self).is_update_applied(book) && old(self).is_eligible_for_update(book) && (old(
                self,
            ).spec_is_just_initialised() || book.pu == old(self).spec_last_update_id()) ==> {
                &&& r == DiffOutcome::Applied
                &&& final(self).spec_last_update_id() == book.u
                &&& !final(self).spec_is_just_initialised()
                &&& final(self).bids() == truncated(
                    apply_levels(old(self).bids(), book.b@, false),
                    old(self).spec_levels() as int,
                )
                &&& final(self).asks() == truncated(
                    apply_levels(old(self).asks(), book.a@, true),
                    old(self).spec_levels() as int,
                )
            },
    {
        // an event that ends before the cursor was applied already
        if book.u < self.last_update_id {
            return DiffOutcome::Stale;
        }
        // the cursor must fall inside the event's covered id range
        if !(book.U <= self.last_update_id && self.last_update_id <= book.u) {
            return DiffOutcome::Gap;
        }
        // the event must chain from the previous one, except for the first
        // diff right after a snapshot
        if !self.is_just_initialised && self.last_update_id != book.pu {
            return DiffOutcome::Gap;
        }

        let ghost bid_updates = book.b@;
        let ghost bids0 = self.bids();
        let mut i: usize = 0;
        while i < book.b.len()
            invariant
                0 <= i <= book.b.len(),
                book.b@ == bid_updates,
                self.sides_sorted(),
                bids0 == old(self).bids(),
                self.bids() == apply_levels(bids0, bid_updates.take(i as int), false),
                self.asks() == old(self).asks(),
                self.spec_levels() == old(self).spec_levels(),
                self.spec_symbol() == old(self).spec_symbol(),
                self.spec_last_update_id() == old(self).spec_last_update_id(),
                self.spec_is_just_initialised() == old(self).spec_is_just_initialised(),
            decreases book.b.len() - i,
        {
            proof {
                assert(bid_updates.take(i + 1) =~= bid_updates.take(i as int).push(bid_updates[i as int]));
                lemma_apply_levels_snoc(bids0, bid_updates.take(i as int), bid_updates[i as int], false);
            }
            self.apply_bid(&book.b[i]);
            i += 1;
        }
        proof {
            assert(bid_updates.take(book.b@.len() as int) =~= bid_updates);
        }

        let ghost ask_updates = book.a@;
        let ghost asks0 = old(self).asks();
        let mut j: usize = 0;
        while j < book.a.len()
            invariant
                0 <= j <= book.a.len(),
                book.a@ == ask_updates,
                self.sides_sorted(),
                asks0 == old(self).asks(),
                self.asks() == apply_levels(asks0, ask_updates.take(j as int), true),
                self.bids() == apply_levels(old(self).bids(), bid_updates, false),
                self.spec_levels() == old(self).spec_levels(),
                self.spec_symbol() == old(self).spec_symbol(),
                self.spec_last_update_id() == old(self).spec_last_update_id(),
                self.spec_is_just_initialised() == old(self).spec_is_just_initialised(),
            decreases book.a.len() - j,
        {
            proof {
                assert(ask_updates.take(j + 1) =~= ask_updates.take(j as int).push(ask_updates[j as int]));
                lemma_apply_levels_snoc(asks0, ask_updates.take(j as int), ask_updates[j as int], true);
            }
            self.apply_ask(&book.a[j]);
            j += 1;
        }
        proof {
            assert(ask_updates.take(book.a@.len() as int) =~= ask_updates);
        }

        self.last_update_id = book.u;
        self.is_just_initialised = false;
        self.trim();

        DiffOutcome::Applied
    }

    /// The cursor: the sequence id of the last fully applied event.
    pub fn get_last_update_id(&self) -> (r: u64)
        ensures
            r == self.spec_last_update_id(),
    {
        self.last_update_id
    }

    /// The configured depth of the book.
    pub fn get_levels(&self) -> (r: u32)
        ensures
            r == self.spec_levels(),
    {
        self.levels
    }

    /// The instrument this book belongs to.
    pub fn get_symbol(&self) -> (r: &String)
        ensures
            r@ == self.spec_symbol(),
    {
        &self.symbol
    }

    /// How many levels the bid side holds.
    pub fn bid_len(&self) -> (r: usize)
        ensures
            r == self.bids().len(),
    {
        self.bid.len()
    }

    /// How many levels the ask side holds.
    pub fn ask_len(&self) -> (r: usize)
        ensures
            r == self.asks().len(),
    {
        self.ask.len()
    }

    /// The bid level at rank `index`, best first.
    pub fn bid_level_at(&self, index: usize) -> (r: Option<Level>)
        ensures
            r == (if index < self.bids().len() {
                Some(self.bids()[index as int])
            } else {
                None::<Level>
            }),
    {
        self.bid.level_at(index)
    }

    /// The ask level at rank `index`, best first.
    pub fn ask_level_at(&self, index: usize) -> (r: Option<Level>)
        ensures
            r == (if index < self.asks().len() {
                Some(self.asks()[index as int])
            } else {
                None::<Level>
            }),
    {
        self.ask.level_at(index)
    }
}

} // verus!
