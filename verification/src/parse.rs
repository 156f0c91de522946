//! Exact decimal parsing at the venue boundary: the exchange delivers
//! prices and quantities as decimal strings, and every one becomes a
//! scaled integer — never a binary float — before it can feed a profit
//! comparison.

use vstd::prelude::*;
use vstd::string::{StrSliceExecFns, StringExecFns};

use crate::book::{book_wf, side_wf, BookSide, DepthBook, DepthLevel};
use crate::errors::ArbError;
use crate::types::{config_wf, BinanceOrdersResponse, Config};

verus! {

/// The running state of a decimal scan: the digits read so far as one
/// integer, how many of them follow the dot, whether the dot was seen,
/// and whether any digit was.
pub struct DecState {
    pub num: u128,
    pub frac: u32,
    pub dotted: bool,
    pub saw_digit: bool,
}

/// Digits beyond this many integer places, or more than this many
/// fractional places, are rejected rather than silently rounded.
pub open spec fn dec_num_cap() -> int {
    0x80000000000000000
}

pub open spec fn dec_frac_cap() -> int {
    38
}

pub open spec fn is_digit_char(c: char) -> bool {
    48 <= c as u32 <= 57
}

pub open spec fn digit_of(c: char) -> int {
    c as u32 - 48
}

/// One character of the scan: a digit extends the number, the first dot
/// starts the fraction, anything else — or a second dot, or an overlong
/// number — poisons the scan.
pub open spec fn dec_step(st: Option<DecState>, c: char) -> Option<DecState> {
    match st {
        None => None,
        Some(s) => {
            if c as u32 == 46 {
                if s.dotted {
                    None
                } else {
                    Some(DecState { dotted: true, ..s })
                }
            } else if is_digit_char(c) {
                if s.num * 10 + digit_of(c) >= dec_num_cap() {
                    None
                } else if s.dotted && s.frac >= dec_frac_cap() {
                    None
                } else {
                    Some(
                        DecState {
                            num: (s.num * 10 + digit_of(c)) as u128,
                            frac: if s.dotted {
                                (s.frac + 1) as u32
                            } else {
                                s.frac
                            },
                            dotted: s.dotted,
                            saw_digit: true,
                        },
                    )
                }
            } else {
                None
            }
        },
    }
}

/// The scan folded over a whole character sequence.
pub open spec fn dec_fold(s: Seq<char>, st: Option<DecState>) -> Option<DecState>
    decreases s.len(),
{
    if s.len() == 0 {
        st
    } else {
        dec_fold(s.skip(1), dec_step(st, s[0]))
    }
}

pub open spec fn dec_init() -> DecState {
    DecState { num: 0, frac: 0, dotted: false, saw_digit: false }
}

/// Once the scan is poisoned it stays poisoned.
pub proof fn lemma_dec_fold_none(s: Seq<char>)
    ensures
        dec_fold(s, None) is None,
    decreases s.len(),
{
    if s.len() > 0 {
        lemma_dec_fold_none(s.skip(1));
    }
}

pub open spec fn pow10(k: int) -> int
    decreases k,
{
    if k <= 0 {
        1
    } else {
        10 * pow10(k - 1)
    }
}

/// What a decimal string denotes at a given scale: its digits over
/// `10^frac`, times the scale, floored. `None` for anything that is not
/// a plain decimal number with at least one digit.
pub open spec fn parse_decimal_spec(s: Seq<char>, scale: int) -> Option<int> {
    match dec_fold(s, Some(dec_init())) {
        None => None,
        Some(st) => {
            if s.len() == 0 || !st.saw_digit {
                None
            } else {
                Some(st.num * scale / pow10(st.frac as int))
            }
        },
    }
}

/// Parses one decimal string into a scaled integer, exactly as
/// `parse_decimal_spec` reads it.
pub fn parse_decimal(s: &str, scale: u128) -> (r: Option<u128>)
    requires
        1 <= scale <= 1000000000000000000,
    ensures
        match r {
            Some(v) => parse_decimal_spec(s@, scale as int) == Some(v as int),
            None => parse_decimal_spec(s@, scale as int) is None,
        },
{
    let ghost sv = s@;
    let len = s.unicode_len();
    if len == 0 {
        return None;
    }
    let mut i: usize = 0;
    let mut num: u128 = 0;
    let mut frac: u32 = 0;
    let mut dotted = false;
    let mut saw_digit = false;
    let cap: u128 = 0x80000000000000000;
    proof {
        assert(sv.skip(0) =~= sv);
    }
    while i < len
        invariant
            0 <= i <= len,
            len == sv.len(),
            sv == s@,
            num < cap,
            cap == dec_num_cap(),
            frac <= dec_frac_cap(),
            dec_fold(sv, Some(dec_init())) == dec_fold(
                sv.skip(i as int),
                Some(DecState { num: num, frac: frac, dotted: dotted, saw_digit: saw_digit }),
            ),
        decreases len - i,
    {
        let c = s.get_char(i);
        let ghost rest = sv.skip(i as int);
        proof {
            assert(rest[0] == sv[i as int]);
            assert(rest.skip(1) =~= sv.skip(i as int + 1));
        }
        let u = c as u32;
        if u == 46 {
            if dotted {
                proof {
                    lemma_dec_fold_none(rest.skip(1));
                }
                return None;
            }
            dotted = true;
        } else if 48 <= u && u <= 57 {
            let d = (u - 48) as u128;
            if num > (cap - 1 - d) / 10 {
                proof {
                    vstd::arithmetic::div_mod::lemma_fundamental_div_mod(
                        dec_num_cap() - 1 - d,
                        10,
                    );
                    vstd::arithmetic::div_mod::lemma_mod_division_less_than_divisor(
                        dec_num_cap() - 1 - d,
                        10,
                    );
                    lemma_dec_fold_none(rest.skip(1));
                }
                return None;
            }
            proof {
                vstd::arithmetic::div_mod::lemma_fundamental_div_mod(dec_num_cap() - 1 - d, 10);
                vstd::arithmetic::div_mod::lemma_mod_division_less_than_divisor(
                    dec_num_cap() - 1 - d,
                    10,
                );
            }
            if dotted {
                if frac >= 38 {
                    proof {
                        lemma_dec_fold_none(rest.skip(1));
                    }
                    return None;
                }
                frac = frac + 1;
            }
            num = num * 10 + d;
            saw_digit = true;
        } else {
            proof {
                lemma_dec_fold_none(rest.skip(1));
            }
            return None;
        }
        i = i + 1;
    }
    if !saw_digit {
        return None;
    }
    let mut divisor: u128 = 1;
    let mut k: u32 = 0;
    while k < frac
        invariant
            0 <= k <= frac,
            frac <= dec_frac_cap(),
            divisor == pow10(k as int),
        decreases frac - k,
    {
        proof {
            lemma_pow10_mono(k as int + 1, dec_frac_cap());
            lemma_pow10_value();
        }
        divisor = divisor * 10;
        k = k + 1;
    }
    proof {
        lemma_pow10_mono(frac as int, dec_frac_cap());
        lemma_pow10_value();
        assert(num * scale < dec_num_cap() * 1000000000000000000) by (nonlinear_arith)
            requires
                0 <= num < dec_num_cap(),
                1 <= scale <= 1000000000000000000,
        ;
        vstd::arithmetic::div_mod::lemma_div_is_ordered(0, num * scale, pow10(frac as int));
        vstd::arithmetic::div_mod::lemma_div_nonincreasing(num * scale, pow10(frac as int));
    }
    Some(num * scale / divisor)
}

/// One side of the wire snapshot parsed into levels: prices scaled by
/// `quote_one`, quantities by `base_one`; nothing as soon as one string
/// fails to parse.
pub open spec fn levels_spec(
    entries: Seq<(String, String)>,
    quote_one: int,
    base_one: int,
) -> Option<Seq<DepthLevel>>
    decreases entries.len(),
{
    if entries.len() == 0 {
        Some(Seq::<DepthLevel>::empty())
    } else {
        match parse_decimal_spec(entries[0].0@, quote_one) {
            None => None,
            Some(p) => match parse_decimal_spec(entries[0].1@, base_one) {
                None => None,
                Some(q) => match levels_spec(entries.skip(1), quote_one, base_one) {
                    None => None,
                    Some(rest) => Some(
                        seq![DepthLevel { price: p as u128, quantity: q as u128 }] + rest,
                    ),
                },
            },
        }
    }
}

/// Parses one wire side into levels, exactly as `levels_spec` reads it.
fn parse_side(entries: &Vec<(String, String)>, quote_one: u128, base_one: u128) -> (r: Option<
    Vec<DepthLevel>,
>)
    requires
        1 <= quote_one <= 1000000000000000000,
        1 <= base_one <= 1000000000000000000,
    ensures
        match r {
            Some(v) => levels_spec(entries@, quote_one as int, base_one as int) == Some(v@),
            None => levels_spec(entries@, quote_one as int, base_one as int) is None,
        },
{
    let ghost ev = entries@;
    let mut out: Vec<DepthLevel> = Vec::new();
    let mut i: usize = 0;
    proof {
        assert(ev.skip(0) =~= ev);
    }
    while i < entries.len()
        invariant
            0 <= i <= ev.len(),
            entries@ == ev,
            1 <= quote_one <= 1000000000000000000,
            1 <= base_one <= 1000000000000000000,
            ({
                let whole = levels_spec(ev, quote_one as int, base_one as int);
                match levels_spec(ev.skip(i as int), quote_one as int, base_one as int) {
                    None => whole is None,
                    Some(rest) => whole == Some(out@ + rest),
                }
            }),
        decreases ev.len() - i,
    {
        let ghost rest = ev.skip(i as int);
        proof {
            assert(rest[0] == ev[i as int]);
            assert(rest.skip(1) =~= ev.skip(i as int + 1));
        }
        let price = match parse_decimal(entries[i].0.as_str(), quote_one) {
            None => {
                return None;
            },
            Some(p) => p,
        };
        let quantity = match parse_decimal(entries[i].1.as_str(), base_one) {
            None => {
                return None;
            },
            Some(q) => q,
        };
        let ghost old_out = out@;
        out.push(DepthLevel { price, quantity });
        proof {
            assert forall|sfx: Seq<DepthLevel>|
                true implies old_out + (seq![
                    DepthLevel { price: price, quantity: quantity },
                ] + sfx) == out@ + sfx by {
                assert(old_out + (seq![DepthLevel { price: price, quantity: quantity }] + sfx)
                    =~= out@ + sfx);
            }
        }
        i = i + 1;
    }
    proof {
        assert(ev.skip(i as int) =~= Seq::<(String, String)>::empty());
        assert(out@ + Seq::<DepthLevel>::empty() =~= out@);
    }
    Some(out)
}

/// Turns the exchange's raw snapshot into a checked `DepthBook`: every
/// string parsed exactly, then the book invariants checked whole.
/// Fails with `InvalidSnapshot` when any string is not a decimal number
/// or a parsed side breaks the book's well-formedness.
pub fn book_from_response(resp: &BinanceOrdersResponse, cfg: &Config) -> (r: Result<
    DepthBook,
    ArbError,
>)
    requires
        config_wf(*cfg),
    ensures
        ({
            let lb = levels_spec(resp.bids@, cfg.quote_one as int, cfg.base_one as int);
            let la = levels_spec(resp.asks@, cfg.quote_one as int, cfg.base_one as int);
            match r {
                Ok(b) => lb == Some(b.bids@) && la == Some(b.asks@) && book_wf(b),
                Err(e) => e == ArbError::InvalidSnapshot && !(lb matches Some(pb)
                    && la matches Some(pa) && side_wf(pb, BookSide::Bids) && side_wf(
                    pa,
                    BookSide::Asks,
                )),
            }
        }),
{
    let bids = match parse_side(&resp.bids, cfg.quote_one, cfg.base_one) {
        None => {
            return Err(ArbError::InvalidSnapshot);
        },
        Some(v) => v,
    };
    let asks = match parse_side(&resp.asks, cfg.quote_one, cfg.base_one) {
        None => {
            return Err(ArbError::InvalidSnapshot);
        },
        Some(v) => v,
    };
    DepthBook::new(bids, asks)
}

proof fn lemma_pow10_pos(k: int)
    ensures
        pow10(k) >= 1,
    decreases
            (if k > 0 {
                k
            } else {
                0
            }),
{
    if k > 0 {
        lemma_pow10_pos(k - 1);
        assert(10 * pow10(k - 1) >= pow10(k - 1)) by (nonlinear_arith)
            requires
                pow10(k - 1) >= 1,
        ;
    }
}

/// `10^k` never shrinks as the exponent grows.
proof fn lemma_pow10_mono(k1: int, k2: int)
    requires
        0 <= k1 <= k2,
    ensures
        1 <= pow10(k1) <= pow10(k2),
    decreases k2 - k1,
{
    lemma_pow10_pos(k1);
    if k1 < k2 {
        lemma_pow10_mono(k1 + 1, k2);
        assert(pow10(k1 + 1) == 10 * pow10(k1));
        assert(pow10(k1) <= 10 * pow10(k1)) by (nonlinear_arith)
            requires
                pow10(k1) >= 1,
        ;
    }
}

/// The capped power, evaluated: `10^38` sits below `2^128`.
proof fn lemma_pow10_value()
    ensures
        pow10(dec_frac_cap()) == 100000000000000000000000000000000000000,
{
    reveal_with_fuel(pow10, 40);
}

} // verus!
