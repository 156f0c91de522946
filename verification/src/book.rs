//! The depth-of-book snapshot: ordered price levels per side, and the
//! walk that accumulates quantity outward from the best price until a
//! limit is crossed or the side runs dry.

use vstd::prelude::*;

use crate::errors::ArbError;

verus! {

/// One order-book level: the price in quote atoms per whole base unit,
/// and the resting quantity in base atoms.
#[derive(Clone, Copy, PartialEq, Eq, Structural, Debug)]
pub struct DepthLevel {
    pub price: u128,
    pub quantity: u128,
}

/// Which side of the book a walk reads.
#[derive(Clone, Copy, PartialEq, Eq, Structural, Debug)]
pub enum BookSide {
    Bids,
    Asks,
}

/// The sum of `price * quantity` over a side: an upper bound for every
/// amount a walk can accumulate, in either unit.
pub open spec fn sum_qp(levels: Seq<DepthLevel>) -> int
    decreases levels.len(),
{
    if levels.len() == 0 {
        0
    } else {
        levels[0].price * levels[0].quantity + sum_qp(levels.skip(1))
    }
}

/// The sum of the quantities of a side.
pub open spec fn sum_q(levels: Seq<DepthLevel>) -> int
    decreases levels.len(),
{
    if levels.len() == 0 {
        0
    } else {
        levels[0].quantity + sum_q(levels.skip(1))
    }
}

/// Neighbouring prices never fall (ask side) or never rise (bid side).
pub open spec fn sorted_asc(levels: Seq<DepthLevel>) -> bool {
    forall|i: int| 0 <= i && i + 1 < levels.len() ==> (#[trigger] levels[i]).price <= levels[i + 1].price
}

pub open spec fn sorted_desc(levels: Seq<DepthLevel>) -> bool {
    forall|i: int| 0 <= i && i + 1 < levels.len() ==> (#[trigger] levels[i]).price >= levels[i + 1].price
}

/// Best-first order: ascending prices on the ask side, descending on the
/// bid side.
pub open spec fn side_sorted(levels: Seq<DepthLevel>, side: BookSide) -> bool {
    match side {
        BookSide::Asks => sorted_asc(levels),
        BookSide::Bids => sorted_desc(levels),
    }
}

/// The cap on a side's total `price * quantity`, so every partial sum of
/// a walk fits comfortably in 128 bits.
pub open spec fn qp_cap() -> int {
    0x40000000000000000000000000000000
}

/// A side the walks can read: best-first order, positive prices, and a
/// bounded total.
pub open spec fn side_wf(levels: Seq<DepthLevel>, side: BookSide) -> bool {
    &&& side_sorted(levels, side)
    &&& forall|i: int| 0 <= i < levels.len() ==> (#[trigger] levels[i]).price >= 1
    &&& sum_qp(levels) <= qp_cap()
}

/// A depth-of-book snapshot: bids best (highest) first, asks best
/// (lowest) first.
pub struct DepthBook {
    pub bids: Vec<DepthLevel>,
    pub asks: Vec<DepthLevel>,
}

pub open spec fn book_wf(book: DepthBook) -> bool {
    &&& side_wf(book.bids@, BookSide::Bids)
    &&& side_wf(book.asks@, BookSide::Asks)
}

/// Every term of the two sums is non-negative, so the sums are too.
pub proof fn lemma_sums_nonneg(levels: Seq<DepthLevel>)
    ensures
        sum_qp(levels) >= 0,
        sum_q(levels) >= 0,
    decreases levels.len(),
{
    if levels.len() > 0 {
        lemma_sums_nonneg(levels.skip(1));
        assert(levels[0].price * levels[0].quantity >= 0) by (nonlinear_arith);
    }
}

/// Extending a prefix by one level adds exactly that level's term.
pub proof fn lemma_sums_snoc(levels: Seq<DepthLevel>, n: int)
    requires
        0 <= n < levels.len(),
    ensures
        sum_qp(levels.take(n + 1)) == sum_qp(levels.take(n)) + levels[n].price
            * levels[n].quantity,
        sum_q(levels.take(n + 1)) == sum_q(levels.take(n)) + levels[n].quantity,
    decreases n,
{
    if n == 0 {
        assert(levels.take(1).skip(1) =~= Seq::<DepthLevel>::empty());
        assert(levels.take(0) =~= Seq::<DepthLevel>::empty());
    } else {
        lemma_sums_snoc(levels.skip(1), n - 1);
        assert(levels.take(n + 1).skip(1) =~= levels.skip(1).take(n));
        assert(levels.take(n).skip(1) =~= levels.skip(1).take(n - 1));
    }
}

/// A prefix never sums to more than the whole side.
pub proof fn lemma_sums_prefix_le(levels: Seq<DepthLevel>, n: int)
    requires
        0 <= n <= levels.len(),
    ensures
        sum_qp(levels.take(n)) <= sum_qp(levels),
        sum_q(levels.take(n)) <= sum_q(levels),
        sum_qp(levels.take(n)) >= 0,
        sum_q(levels.take(n)) >= 0,
    decreases levels.len() - n,
{
    lemma_sums_nonneg(levels.take(n));
    if n == levels.len() {
        assert(levels.take(n) =~= levels);
    } else {
        lemma_sums_snoc(levels, n);
        assert(levels[n].price * levels[n].quantity >= 0) by (nonlinear_arith);
        lemma_sums_prefix_le(levels, n + 1);
    }
}

/// With every price at least one, quantities weigh no more than values.
pub proof fn lemma_sum_q_le_qp(levels: Seq<DepthLevel>)
    requires
        forall|i: int| 0 <= i < levels.len() ==> (#[trigger] levels[i]).price >= 1,
    ensures
        sum_q(levels) <= sum_qp(levels),
    decreases levels.len(),
{
    if levels.len() > 0 {
        assert forall|j: int|
            0 <= j < levels.skip(1).len() implies (#[trigger] levels.skip(1)[j]).price >= 1 by {
            assert(levels.skip(1)[j] == levels[j + 1]);
        }
        lemma_sum_q_le_qp(levels.skip(1));
        assert(levels[0].quantity <= levels[0].price * levels[0].quantity) by (nonlinear_arith)
            requires
                levels[0].price >= 1,
        ;
    }
}

/// One level's term never exceeds the whole side's sum.
pub proof fn lemma_sum_qp_term_le(levels: Seq<DepthLevel>, i: int)
    requires
        0 <= i < levels.len(),
    ensures
        levels[i].price * levels[i].quantity <= sum_qp(levels),
        levels[i].quantity <= sum_q(levels),
{
    lemma_sums_snoc(levels, i);
    lemma_sums_prefix_le(levels, i);
    lemma_sums_prefix_le(levels, i + 1);
}

/// Whether a level's price lies beyond the walk's limit: above it on the
/// ask side, below it on the bid side.
pub open spec fn crossed(price: int, limit: int, side: BookSide) -> bool {
    match side {
        BookSide::Asks => price > limit,
        BookSide::Bids => price < limit,
    }
}

/// The walk itself: consume levels from the best outward while they lie
/// within the limit, summing quantity (or its quote value when
/// `value_in_quote`), and report the total with the number of levels
/// consumed; `None` when the side is exhausted before any level crosses.
pub open spec fn accum_spec(
    levels: Seq<DepthLevel>,
    limit: int,
    value_in_quote: bool,
    base_one: int,
    side: BookSide,
) -> Option<(int, int)>
    decreases levels.len(),
{
    if levels.len() == 0 {
        None
    } else if crossed(levels[0].price as int, limit, side) {
        Some((0int, 0int))
    } else {
        let c = if value_in_quote {
            levels[0].quantity * levels[0].price / base_one
        } else {
            levels[0].quantity as int
        };
        match accum_spec(levels.skip(1), limit, value_in_quote, base_one, side) {
            None => None,
            Some((t, k)) => Some((c + t, k + 1)),
        }
    }
}

impl DepthBook {
    /// Builds a snapshot after checking what the walks rely on: each
    /// side best-first, all prices positive, and the side totals under
    /// the cap. A snapshot that fails any check is rejected whole.
    pub fn new(bids: Vec<DepthLevel>, asks: Vec<DepthLevel>) -> (r: Result<DepthBook, ArbError>)
        ensures
            match r {
                Ok(b) => b.bids@ == bids@ && b.asks@ == asks@ && book_wf(b),
                Err(e) => e == ArbError::InvalidSnapshot && !(side_wf(bids@, BookSide::Bids)
                    && side_wf(asks@, BookSide::Asks)),
            },
    {
        if !side_check(&bids, false) {
            return Err(ArbError::InvalidSnapshot);
        }
        if !side_check(&asks, true) {
            return Err(ArbError::InvalidSnapshot);
        }
        Ok(DepthBook { bids, asks })
    }
}

/// Checks one side against `side_wf`: order, positive prices, capped
/// total.
#[verifier::rlimit(60)]
fn side_check(levels: &Vec<DepthLevel>, ascending: bool) -> (r: bool)
    ensures
        r <==> side_wf(
            levels@,
            if ascending {
                BookSide::Asks
            } else {
                BookSide::Bids
            },
        ),
{
    let ghost side = if ascending {
        BookSide::Asks
    } else {
        BookSide::Bids
    };
    let mut i: usize = 0;
    let mut total: u128 = 0;
    let cap: u128 = 0x40000000000000000000000000000000;
    while i < levels.len()
        invariant
            0 <= i <= levels.len(),
            total == sum_qp(levels@.take(i as int)),
            total <= qp_cap(),
            forall|j: int| 0 <= j < i ==> (#[trigger] levels@[j]).price >= 1,
            ascending ==> sorted_asc(levels@.take(i as int)),
            !ascending ==> sorted_desc(levels@.take(i as int)),
            cap == qp_cap(),
        decreases levels.len() - i,
    {
        let level = levels[i];
        if level.price == 0 {
            return false;
        }
        if i > 0 {
            let prev = levels[i - 1];
            if ascending {
                if prev.price > level.price {
                    proof {
                        assert(!sorted_asc(levels@)) by {
                            if sorted_asc(levels@) {
                                assert((levels@[i as int - 1]).price <= levels@[i as int].price);
                            }
                        }
                    }
                    return false;
                }
            } else {
                if prev.price < level.price {
                    proof {
                        assert(!sorted_desc(levels@)) by {
                            if sorted_desc(levels@) {
                                assert((levels@[i as int - 1]).price >= levels@[i as int].price);
                            }
                        }
                    }
                    return false;
                }
            }
        }
        let ghost pr: int = level.price as int;
        let ghost qt: int = level.quantity as int;
        let ghost room: int = qp_cap() - total;
        if level.quantity > (cap - total) / level.price {
            proof {
                lemma_sums_snoc(levels@, i as int);
                vstd::arithmetic::div_mod::lemma_fundamental_div_mod(room, pr);
                vstd::arithmetic::div_mod::lemma_mod_division_less_than_divisor(room, pr);
                assert(pr * qt > room) by (nonlinear_arith)
                    requires
                        qt > room / pr,
                        room == pr * (room / pr) + room % pr,
                        room % pr < pr,
                        pr >= 1,
                ;
                lemma_sums_prefix_le_from(levels@, i as int + 1);
            }
            return false;
        }
        proof {
            lemma_sums_snoc(levels@, i as int);
            vstd::arithmetic::div_mod::lemma_fundamental_div_mod(room, pr);
            vstd::arithmetic::div_mod::lemma_mod_division_less_than_divisor(room, pr);
            assert(0 <= pr * qt <= room) by (nonlinear_arith)
                requires
                    0 <= qt <= room / pr,
                    room == pr * (room / pr) + room % pr,
                    0 <= room % pr < pr,
                    pr >= 1,
            ;
        }
        total = total + level.price * level.quantity;
        proof {
            let ii = i as int;
            if ascending {
                assert forall|j: int|
                    0 <= j && j + 1 < ii + 1 implies (#[trigger] levels@.take(ii + 1)[j]).price
                    <= levels@.take(ii + 1)[j + 1].price by {
                    assert(levels@.take(ii + 1)[j] == levels@[j]);
                    assert(levels@.take(ii + 1)[j + 1] == levels@[j + 1]);
                    if j + 1 < ii {
                        assert(levels@.take(ii)[j] == levels@[j]);
                        assert(levels@.take(ii)[j + 1] == levels@[j + 1]);
                        assert((levels@.take(ii)[j]).price <= levels@.take(ii)[j + 1].price);
                    }
                };
                assert(sorted_asc(levels@.take(ii + 1)));
            } else {
                assert forall|j: int|
                    0 <= j && j + 1 < ii + 1 implies (#[trigger] levels@.take(ii + 1)[j]).price
                    >= levels@.take(ii + 1)[j + 1].price by {
                    assert(levels@.take(ii + 1)[j] == levels@[j]);
                    assert(levels@.take(ii + 1)[j + 1] == levels@[j + 1]);
                    if j + 1 < ii {
                        assert(levels@.take(ii)[j] == levels@[j]);
                        assert(levels@.take(ii)[j + 1] == levels@[j + 1]);
                        assert((levels@.take(ii)[j]).price >= levels@.take(ii)[j + 1].price);
                    }
                };
                assert(sorted_desc(levels@.take(ii + 1)));
            }
        }
        i = i + 1;
    }
    proof {
        assert(levels@.take(i as int) =~= levels@);
    }
    true
}

/// If a prefix already exceeds the cap, the whole side does: the terms
/// beyond it are non-negative.
proof fn lemma_sums_prefix_le_from(levels: Seq<DepthLevel>, n: int)
    requires
        0 <= n <= levels.len(),
    ensures
        sum_qp(levels.take(n)) <= sum_qp(levels),
{
    lemma_sums_prefix_le(levels, n);
}

/// The levels of one side, best first.
pub open spec fn side_levels(book: DepthBook, side: BookSide) -> Seq<DepthLevel> {
    match side {
        BookSide::Bids => book.bids@,
        BookSide::Asks => book.asks@,
    }
}

impl DepthBook {
    /// Walks one side from the best price outward, summing quantity — or
    /// `quantity*price/base_one`, its value in quote atoms, when
    /// `value_in_quote` — until a level crosses `price_limit`, and
    /// returns the total with the count of levels consumed. Fails with
    /// `InsufficientDepth` exactly when the side is exhausted before any
    /// level crosses the limit.
    pub fn accumulate_until(
        &self,
        side: BookSide,
        price_limit: u128,
        value_in_quote: bool,
        base_one: u128,
    ) -> (r: Result<(u128, usize), ArbError>)
        requires
            book_wf(*self),
            1 <= base_one,
        ensures
            ({
                let levels = side_levels(*self, side);
                let walk = accum_spec(
                    levels,
                    price_limit as int,
                    value_in_quote,
                    base_one as int,
                    side,
                );
                match r {
                    Ok(tk) => walk == Some((tk.0 as int, tk.1 as int)),
                    Err(e) => e == ArbError::InsufficientDepth && walk is None,
                }
            }),
    {
        let levels: &Vec<DepthLevel> = match side {
            BookSide::Bids => &self.bids,
            BookSide::Asks => &self.asks,
        };
        let ghost lv = levels@;
        let ghost limit: int = price_limit as int;
        let ghost b1: int = base_one as int;
        let mut i: usize = 0;
        let mut total: u128 = 0;
        proof {
            assert(lv.skip(0) =~= lv);
            assert(lv.take(0) =~= Seq::<DepthLevel>::empty());
        }
        while i < levels.len()
            invariant
                0 <= i <= lv.len(),
                levels@ == lv,
                lv == side_levels(*self, side),
                side_wf(lv, side),
                1 <= base_one,
                limit == price_limit as int,
                b1 == base_one as int,
                total <= sum_qp(lv.take(i as int)),
                ({
                    let whole = accum_spec(lv, limit, value_in_quote, b1, side);
                    match accum_spec(lv.skip(i as int), limit, value_in_quote, b1, side) {
                        None => whole is None,
                        Some(tk) => whole == Some((total + tk.0, i + tk.1)),
                    }
                }),
            decreases lv.len() - i,
        {
            let level = levels[i];
            let ghost rest = lv.skip(i as int);
            proof {
                assert(rest[0] == lv[i as int]);
                assert(rest.skip(1) =~= lv.skip(i as int + 1));
                lemma_sums_prefix_le(lv, i as int);
                lemma_sums_prefix_le(lv, i as int + 1);
                lemma_sums_snoc(lv, i as int);
                lemma_sum_qp_term_le(lv, i as int);
            }
            let is_crossed = match side {
                BookSide::Asks => level.price > price_limit,
                BookSide::Bids => level.price < price_limit,
            };
            if is_crossed {
                return Ok((total, i));
            }
            proof {
                assert(level.quantity * level.price == level.price * level.quantity)
                    by (nonlinear_arith);
            }
            let c = if value_in_quote {
                proof {
                    vstd::arithmetic::div_mod::lemma_div_nonincreasing(
                        level.quantity * level.price,
                        b1,
                    );
                    vstd::arithmetic::div_mod::lemma_div_pos_is_pos(
                        level.quantity * level.price,
                        b1,
                    );
                }
                level.quantity * level.price / base_one
            } else {
                proof {
                    assert(level.quantity <= level.quantity * level.price) by (nonlinear_arith)
                        requires
                            level.price >= 1,
                    ;
                }
                level.quantity
            };
            proof {
                assert(total + c <= sum_qp(lv.take(i as int + 1)));
                assert(sum_qp(lv.take(i as int + 1)) <= sum_qp(lv));
            }
            total = total + c;
            i = i + 1;
        }
        proof {
            assert(lv.skip(i as int) =~= Seq::<DepthLevel>::empty());
        }
        Err(ArbError::InsufficientDepth)
    }
}

/// On a side walked in base units, no walk total can exceed the sum of
/// the side's level quantities.
pub proof fn lemma_accumulate_bounded(
    levels: Seq<DepthLevel>,
    limit: int,
    base_one: int,
    side: BookSide,
)
    ensures
        match accum_spec(levels, limit, false, base_one, side) {
            Some(tk) => 0 <= tk.0 <= sum_q(levels),
            None => true,
        },
    decreases levels.len(),
{
    lemma_sums_nonneg(levels);
    if levels.len() > 0 && !crossed(levels[0].price as int, limit, side) {
        lemma_accumulate_bounded(levels.skip(1), limit, base_one, side);
        lemma_sums_nonneg(levels.skip(1));
    }
}

/// On a side walked in quote value, no walk total can exceed the sum of
/// the side's level values.
pub proof fn lemma_accumulate_bounded_value(
    levels: Seq<DepthLevel>,
    limit: int,
    base_one: int,
    side: BookSide,
)
    requires
        base_one >= 1,
    ensures
        match accum_spec(levels, limit, true, base_one, side) {
            Some(tk) => 0 <= tk.0 <= sum_qp(levels),
            None => true,
        },
    decreases levels.len(),
{
    lemma_sums_nonneg(levels);
    if levels.len() > 0 && !crossed(levels[0].price as int, limit, side) {
        lemma_accumulate_bounded_value(levels.skip(1), limit, base_one, side);
        lemma_sums_nonneg(levels.skip(1));
        vstd::arithmetic::div_mod::lemma_div_nonincreasing(
            levels[0].quantity * levels[0].price,
            base_one,
        );
        vstd::arithmetic::div_mod::lemma_div_pos_is_pos(
            levels[0].quantity * levels[0].price,
            base_one,
        );
        assert(levels[0].quantity * levels[0].price == levels[0].price * levels[0].quantity)
            by (nonlinear_arith);
    }
}

/// Dropping the best level keeps a side ordered.
proof fn lemma_sorted_skip(levels: Seq<DepthLevel>, side: BookSide)
    requires
        side_sorted(levels, side),
        levels.len() >= 1,
    ensures
        side_sorted(levels.skip(1), side),
{
    match side {
        BookSide::Asks => {
            assert forall|i: int|
                0 <= i && i + 1 < levels.skip(1).len() implies (#[trigger] levels.skip(
                1,
            )[i]).price <= levels.skip(1)[i + 1].price by {
                assert(levels.skip(1)[i] == levels[i + 1]);
                assert(levels.skip(1)[i + 1] == levels[i + 2]);
                assert((levels[i + 1]).price <= levels[i + 2].price);
            }
        },
        BookSide::Bids => {
            assert forall|i: int|
                0 <= i && i + 1 < levels.skip(1).len() implies (#[trigger] levels.skip(
                1,
            )[i]).price >= levels.skip(1)[i + 1].price by {
                assert(levels.skip(1)[i] == levels[i + 1]);
                assert(levels.skip(1)[i + 1] == levels[i + 2]);
                assert((levels[i + 1]).price >= levels[i + 2].price);
            }
        },
    }
}

/// On an ordered side, once the best level crosses the limit the worst
/// one does too.
proof fn lemma_crossed_propagates(levels: Seq<DepthLevel>, limit: int, side: BookSide)
    requires
        side_sorted(levels, side),
        levels.len() >= 1,
        crossed(levels[0].price as int, limit, side),
    ensures
        crossed(levels[levels.len() - 1].price as int, limit, side),
    decreases levels.len(),
{
    if levels.len() > 1 {
        lemma_sorted_skip(levels, side);
        lemma_crossed_propagates(levels.skip(1), limit, side);
    }
}

/// The walk fails exactly when the limit lies beyond the last level's
/// price — including the degenerate empty side.
pub proof fn lemma_accumulate_insufficient(
    levels: Seq<DepthLevel>,
    limit: int,
    value_in_quote: bool,
    base_one: int,
    side: BookSide,
)
    requires
        side_sorted(levels, side),
    ensures
        accum_spec(levels, limit, value_in_quote, base_one, side) is None <==> (levels.len() == 0
            || !crossed(levels[levels.len() - 1].price as int, limit, side)),
    decreases levels.len(),
{
    if levels.len() == 0 {
    } else if crossed(levels[0].price as int, limit, side) {
        lemma_crossed_propagates(levels, limit, side);
    } else {
        lemma_sorted_skip(levels, side);
        lemma_accumulate_insufficient(levels.skip(1), limit, value_in_quote, base_one, side);
        if levels.len() > 1 {
            assert(levels.skip(1)[levels.skip(1).len() - 1] == levels[levels.len() - 1]);
        }
    }
}

} // verus!
