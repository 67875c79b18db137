use vstd::prelude::*;

verus! {

/// One price level of one side of the book, in fixed-point atoms (see
/// [`crate::decimal`]). A level whose quantity is zero is a tombstone: it
/// asks for the removal of its price, and is never stored.
#[derive(Clone, Copy, Debug, PartialEq, Eq, Structural)]
pub struct Level {
    pub quantity: u64,
    pub price: u64,
}

/// Whether price `a` ranks strictly better than price `b` on a side:
/// lower first for asks (`ascending`), higher first for bids.
pub open spec fn price_before(a: u64, b: u64, ascending: bool) -> bool {
    if ascending {
        a < b
    } else {
        a > b
    }
}

/// A side is well formed when its prices are strictly ordered in the side's
/// direction; strictness makes the prices unique as well.
pub open spec fn side_sorted(s: Seq<Level>, ascending: bool) -> bool {
    forall|i: int, j: int|
        0 <= i < j < s.len() ==> price_before(#[trigger] s[i].price, #[trigger] s[j].price, ascending)
}

/// What a single level update does to a side: replaces the quantity when the
/// price is present, removes the price when the update is a tombstone,
/// inserts at the rank-preserving position when the price is new, and does
/// nothing for a tombstone on an absent price.
pub open spec fn upsert_spec(s: Seq<Level>, lv: Level, ascending: bool) -> Seq<Level>
    decreases s.len(),
{
    if s.len() == 0 {
        if lv.quantity == 0 {
            s
        } else {
            seq![lv]
        }
    } else if lv.price == s[0].price {
        if lv.quantity == 0 {
            s.skip(1)
        } else {
            seq![lv] + s.skip(1)
        }
    } else if price_before(lv.price, s[0].price, ascending) {
        if lv.quantity == 0 {
            s
        } else {
            seq![lv] + s
        }
    } else {
        seq![s[0]] + upsert_spec(s.skip(1), lv, ascending)
    }
}

/// The retained prefix of a side after a cut to `depth` levels.
pub open spec fn truncated(s: Seq<Level>, depth: int) -> Seq<Level> {
    if s.len() <= depth {
        s
    } else {
        s.take(depth)
    }
}

/// An update keeps a side sorted, and introduces no level other than its own.
pub proof fn lemma_upsert_sorted(s: Seq<Level>, lv: Level, ascending: bool)
    requires
        side_sorted(s, ascending),
    ensures
        side_sorted(upsert_spec(s, lv, ascending), ascending),
        forall|j: int|
            0 <= j < upsert_spec(s, lv, ascending).len() ==> (#[trigger] upsert_spec(
                s,
                lv,
                ascending,
            )[j] == lv || s.contains(upsert_spec(s, lv, ascending)[j])),
    decreases s.len(),
{
    let r = upsert_spec(s, lv, ascending);
    if s.len() == 0 {
    } else if lv.price == s[0].price {
    } else if price_before(lv.price, s[0].price, ascending) {
    } else {
        assert(side_sorted(s.skip(1), ascending));
        lemma_upsert_sorted(s.skip(1), lv, ascending);
        let rt = upsert_spec(s.skip(1), lv, ascending);
        assert(price_before(s[0].price, lv.price, ascending));
        assert forall|j: int| 0 <= j < r.len() implies (#[trigger] r[j] == lv || s.contains(r[j]))
        by {
            if j >= 1 {
                assert(r[j] == rt[j - 1]);
                if rt[j - 1] != lv {
                    assert(s.skip(1).contains(rt[j - 1]));
                    let w = choose|w: int| 0 <= w < s.skip(1).len() && s.skip(1)[w] == rt[j - 1];
                    assert(s[w + 1] == rt[j - 1]);
                }
            }
        }
        assert forall|i: int, j: int| 0 <= i < j < r.len() implies price_before(
            #[trigger] r[i].price,
            #[trigger] r[j].price,
            ascending,
        ) by {
            if i == 0 {
                if rt[j - 1] == lv {
                } else {
                    let w = choose|w: int| 0 <= w < s.skip(1).len() && s.skip(1)[w] == rt[j - 1];
                    assert(s[w + 1] == rt[j - 1]);
                    assert(price_before(s[0].price, s[w + 1].price, ascending));
                }
            } else {
                assert(r[i] == rt[i - 1] && r[j] == rt[j - 1]);
            }
        }
    }
}

/// When the updated price is present at index `i` of a sorted side, the
/// update is exactly a removal (tombstone) or an in-place replacement there.
pub proof fn lemma_upsert_found(s: Seq<Level>, lv: Level, ascending: bool, i: int)
    requires
        side_sorted(s, ascending),
        0 <= i < s.len(),
        s[i].price == lv.price,
    ensures
        lv.quantity == 0 ==> upsert_spec(s, lv, ascending) == s.remove(i),
        lv.quantity != 0 ==> upsert_spec(s, lv, ascending) == s.update(i, lv),
    decreases s.len(),
{
    if i == 0 {
        if lv.quantity == 0 {
            assert(s.skip(1) =~= s.remove(0));
        } else {
            assert(seq![lv] + s.skip(1) =~= s.update(0, lv));
        }
    } else {
        assert(price_before(s[0].price, s[i].price, ascending));
        assert(side_sorted(s.skip(1), ascending));
        assert(s.skip(1)[i - 1].price == lv.price);
        lemma_upsert_found(s.skip(1), lv, ascending, i - 1);
        if lv.quantity == 0 {
            assert(seq![s[0]] + s.skip(1).remove(i - 1) =~= s.remove(i));
        } else {
            assert(seq![s[0]] + s.skip(1).update(i - 1, lv) =~= s.update(i, lv));
        }
    }
}

/// When the updated price is absent from a sorted side and `i` is its
/// rank-preserving position, the update is exactly an insertion there, or a
/// no-op for a tombstone.
pub proof fn lemma_upsert_absent(s: Seq<Level>, lv: Level, ascending: bool, i: int)
    requires
        side_sorted(s, ascending),
        0 <= i <= s.len(),
        forall|j: int| 0 <= j < i ==> price_before(#[trigger] s[j].price, lv.price, ascending),
        forall|j: int| i <= j < s.len() ==> price_before(lv.price, #[trigger] s[j].price, ascending),
    ensures
        lv.quantity == 0 ==> upsert_spec(s, lv, ascending) == s,
        lv.quantity != 0 ==> upsert_spec(s, lv, ascending) == s.insert(i, lv),
    decreases s.len(),
{
    if s.len() == 0 {
        if lv.quantity != 0 {
            assert(seq![lv] =~= s.insert(0, lv));
        }
    } else if i == 0 {
        assert(price_before(lv.price, s[0].price, ascending));
        if lv.quantity != 0 {
            assert(seq![lv] + s =~= s.insert(0, lv));
        }
    } else {
        assert(price_before(s[0].price, lv.price, ascending));
        assert(side_sorted(s.skip(1), ascending));
        assert(forall|j: int|
            0 <= j < i - 1 ==> price_before(#[trigger] s.skip(1)[j].price, lv.price, ascending));
        assert(forall|j: int|
            i - 1 <= j < s.skip(1).len() ==> price_before(
                lv.price,
                #[trigger] s.skip(1)[j].price,
                ascending,
            ));
        lemma_upsert_absent(s.skip(1), lv, ascending, i - 1);
        if lv.quantity == 0 {
            assert(seq![s[0]] + s.skip(1) =~= s);
        } else {
            assert(seq![s[0]] + s.skip(1).insert(i - 1, lv) =~= s.insert(i, lv));
        }
    }
}

/// A tombstone for a price that is not on the side leaves the side as it is.
/// This needs no sortedness: it holds of any side.
pub proof fn lemma_tombstone_absent(s: Seq<Level>, price: u64, ascending: bool)
    requires
        forall|j: int| 0 <= j < s.len() ==> (#[trigger] s[j].price) != price,
    ensures
        upsert_spec(s, Level { quantity: 0, price }, ascending) == s,
    decreases s.len(),
{
    if s.len() > 0 && !price_before(price, s[0].price, ascending) {
        lemma_tombstone_absent(s.skip(1), price, ascending);
        assert(seq![s[0]] + s.skip(1) =~= s);
    }
}

/// After a tombstone is applied to a sorted side, its price is gone.
pub proof fn lemma_tombstone_removes(s: Seq<Level>, price: u64, ascending: bool)
    requires
        side_sorted(s, ascending),
    ensures
        forall|j: int|
            0 <= j < upsert_spec(s, Level { quantity: 0, price }, ascending).len() ==> (
            #[trigger] upsert_spec(s, Level { quantity: 0, price }, ascending)[j].price) != price,
    decreases s.len(),
{
    let lv = Level { quantity: 0, price };
    let r = upsert_spec(s, lv, ascending);
    if s.len() == 0 {
    } else if price == s[0].price {
        assert(forall|j: int|
            0 <= j < s.skip(1).len() ==> price_before(
                s[0].price,
                (#[trigger] s.skip(1)[j]).price,
                ascending,
            ));
    } else if price_before(price, s[0].price, ascending) {
        assert(forall|j: int|
            1 <= j < s.len() ==> price_before(s[0].price, (#[trigger] s[j]).price, ascending));
    } else {
        assert(side_sorted(s.skip(1), ascending));
        lemma_tombstone_removes(s.skip(1), price, ascending);
        let rt = upsert_spec(s.skip(1), lv, ascending);
        assert(forall|j: int| 1 <= j < r.len() ==> r[j] == (#[trigger] rt[j - 1]));
    }
}

/// Tombstones are idempotent on a sorted side: deleting a price twice in a
/// row leaves the same side as deleting it once.
pub proof fn lemma_tombstone_idempotent(s: Seq<Level>, price: u64, ascending: bool)
    requires
        side_sorted(s, ascending),
    ensures
        upsert_spec(
            upsert_spec(s, Level { quantity: 0, price }, ascending),
            Level { quantity: 0, price },
            ascending,
        ) == upsert_spec(s, Level { quantity: 0, price }, ascending),
{
    lemma_tombstone_removes(s, price, ascending);
    lemma_tombstone_absent(upsert_spec(s, Level { quantity: 0, price }, ascending), price, ascending);
}

/// Locates `price` in a side sorted in the direction given by `ascending`,
/// by binary search. On a hit the index of the level is handed back; on a
/// miss, the position at which the price would have to be inserted to keep
/// the side sorted.
pub fn look_for_level(price: u64, levels: &Vec<Level>, ascending: bool) -> (r: Result<
    usize,
    usize,
>)
    requires
        side_sorted(levels@, ascending),
    ensures
        match r {
            Ok(i) => i < levels@.len() && levels@[i as int].price == price,
            Err(i) => {
                &&& i <= levels@.len()
                &&& forall|j: int|
                    0 <= j < i ==> price_before(#[trigger] levels@[j].price, price, ascending)
                &&& forall|j: int|
                    i <= j < levels@.len() ==> price_before(
                        price,
                        #[trigger] levels@[j].price,
                        ascending,
                    )
            },
        },
{
    let mut lo: usize = 0;
    let mut hi: usize = levels.len();
    while lo < hi
        invariant
            lo <= hi <= levels@.len(),
            side_sorted(levels@, ascending),
            forall|j: int| 0 <= j < lo ==> price_before(#[trigger] levels@[j].price, price, ascending),
            forall|j: int|
                hi <= j < levels@.len() ==> price_before(
                    price,
                    #[trigger] levels@[j].price,
                    ascending,
                ),
        decreases hi - lo,
    {
        let mid = lo + (hi - lo) / 2;
        let mid_price = levels[mid].price;
        if mid_price == price {
            return Ok(mid);
        } else if (ascending && mid_price < price) || (!ascending && mid_price > price) {
            lo = mid + 1;
        } else {
            hi = mid;
        }
    }
    Err(lo)
}

/// An ordered collection of price levels for one side of the book: unique
/// prices, strictly sorted in the side's direction, so that index 0 is
/// always the best price.
pub struct PriceLevelSet {
    levels: Vec<Level>,
    ascending: bool,
}

impl View for PriceLevelSet {
    type V = Seq<Level>;

    closed spec fn view(&self) -> Seq<Level> {
        self.levels@
    }
}

impl PriceLevelSet {
    /// The side's sort direction: lowest price first for asks, highest first
    /// for bids.
    pub closed spec fn is_ascending(&self) -> bool {
        self.ascending
    }

    /// The invariant of the side: strictly sorted, hence unique, prices.
    pub open spec fn well_formed(&self) -> bool {
        side_sorted(self@, self.is_ascending())
    }

    /// An empty side with the given sort direction.
    pub fn new(ascending: bool) -> (s: Self)
        ensures
            s@ == Seq::<Level>::empty(),
            s.is_ascending() == ascending,
            s.well_formed(),
    {
        PriceLevelSet { levels: Vec::new(), ascending }
    }

    /// Applies one level update: replace the quantity at `price` if present,
    /// remove the price on a zero quantity, insert a new level at the
    /// rank-preserving position otherwise; a zero quantity for an absent
    /// price changes nothing.
    pub fn upsert(&mut self, price: u64, quantity: u64)
        requires
            old(self).well_formed(),
        ensures
            final(self)@ == upsert_spec(
                old(self)@,
                Level { quantity, price },
                old(self).is_ascending(),
            ),
            final(self).well_formed(),
            final(self).is_ascending() == old(self).is_ascending(),
    {
        let lv = Level { quantity, price };
        proof {
            lemma_upsert_sorted(self@, lv, self.is_ascending());
        }
        match look_for_level(price, &self.levels, self.ascending) {
            Ok(index) => {
                proof {
                    lemma_upsert_found(self@, lv, self.is_ascending(), index as int);
                }
                if quantity == 0 {
                    self.levels.remove(index);
                } else {
                    self.levels.remove(index);
                    self.levels.insert(index, lv);
                    proof {
                        assert(old(self)@.remove(index as int).insert(index as int, lv)
                            =~= old(self)@.update(index as int, lv));
                    }
                }
            },
            Err(index) => {
                proof {
                    lemma_upsert_absent(self@, lv, self.is_ascending(), index as int);
                }
                if quantity == 0 {
                    // a tombstone for an absent price: nothing to do
                } else {
                    self.levels.insert(index, lv);
                }
            },
        }
    }

    /// Drops every level beyond index `depth - 1`, keeping the `depth` best
    /// prices of the side.
    pub fn truncate_to(&mut self, depth: usize)
        ensures
            final(self)@ == truncated(old(self)@, depth as int),
            final(self).is_ascending() == old(self).is_ascending(),
            old(self).well_formed() ==> final(self).well_formed(),
            final(self)@.len() <= depth,
    {
        self.levels.truncate(depth);
        proof {
            if old(self)@.len() > depth {
                assert(self@ =~= old(self)@.take(depth as int));
            }
        }
    }

    /// The best level of the side: index 0, or nothing when the side is
    /// empty.
    pub fn best(&self) -> (r: Option<Level>)
        ensures
            r == (if self@.len() == 0 {
                None::<Level>
            } else {
                Some(self@[0])
            }),
    {
        if self.levels.len() == 0 {
            None
        } else {
            Some(self.levels[0])
        }
    }

    /// How many levels the side holds.
    pub fn len(&self) -> (r: usize)
        ensures
            r == self@.len(),
    {
        self.levels.len()
    }

    /// The level at rank `index`, best first, or nothing beyond the end.
    pub fn level_at(&self, index: usize) -> (r: Option<Level>)
        ensures
            r == (if index < self@.len() {
                Some(self@[index as int])
            } else {
                None::<Level>
            }),
    {
        if index < self.levels.len() {
            Some(self.levels[index])
        } else {
            None
        }
    }
}

} // verus!
