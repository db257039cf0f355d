//! The allocation calculator: from holdings, cash and a target
//! allocation to buy/sell orders.
//!
//! For each target fund the calculator takes the fund's share of the
//! total portfolio value (`total * pct / 100`), subtracts the fund's
//! current market value (first holding with a matching symbol, zero if
//! none), and emits an order when the difference is material: strictly
//! more than one whole currency unit in magnitude.  Positive deltas buy,
//! negative deltas sell, and the amount is always the absolute value.

use vstd::prelude::*;
use vstd::seq_lib::lemma_fold_left_permutation;
use vstd::seq_lib::commutative_foldl;

use crate::dec::Dec;
use crate::dec::CALC_MAX_UNITS;
use crate::dec::PCT_MAX_UNITS;
use crate::dec::UNITS_PER_ONE;
use crate::dec::abs_int;
use crate::dec::pct_apply;

use crate::extract::Holding;
use crate::extract::holdings_view;

verus! {

/// Why no orders could be computed.
#[derive(Clone, Copy, Debug, PartialEq, Eq, Structural)]
pub enum CalcError {
    /// Some target percentage lies outside the 0–100 scale.
    PercentOutOfRange,
    /// Some amount involved exceeds what the calculator can represent.
    Overflow,
}

/// The target allocation: fund symbol to target percentage (0–100).
pub struct Config {
    pub funds: Vec<(String, Dec)>,
}

/// One buy or sell order.
#[derive(Debug)]
pub struct Order {
    pub fund: String,
    pub action: String,
    pub amount: Dec,
}

impl View for Order {
    type V = (Seq<char>, Seq<char>, int);

    /// An order is modelled as its fund, its action text and its amount
    /// in units.
    open spec fn view(&self) -> (Seq<char>, Seq<char>, int) {
        (self.fund@, self.action@, self.amount.units as int)
    }
}

/// The model of an order list.
pub open spec fn orders_view(os: Seq<Order>) -> Seq<(Seq<char>, Seq<char>, int)> {
    os.map_values(|o: Order| o@)
}

/// The model of a target list: symbol and percentage units per entry.
pub open spec fn funds_view(fs: Seq<(String, Dec)>) -> Seq<(Seq<char>, int)> {
    fs.map_values(|p: (String, Dec)| (p.0@, p.1.units as int))
}

/// The sum of a sequence of unit counts.
pub open spec fn sum_units(vals: Seq<int>) -> int {
    vals.fold_left(0int, |a: int, x: int| a + x)
}

/// The unit counts of a holdings list.
pub open spec fn values_of(hs: Seq<(Seq<char>, int)>) -> Seq<int> {
    hs.map_values(|p: (Seq<char>, int)| p.1)
}

/// Total portfolio value: the exact sum of all holding values plus
/// cash.
pub open spec fn total_value_spec(cash: int, hs: Seq<(Seq<char>, int)>) -> int {
    sum_units(values_of(hs)) + cash
}

/// The market value of `fund`: the value of the first holding whose
/// symbol equals it, or zero when none matches.
pub open spec fn current_value_spec(hs: Seq<(Seq<char>, int)>, fund: Seq<char>) -> int
    decreases hs.len(),
{
    if hs.len() == 0 {
        0
    } else if hs.first().0 == fund {
        hs.first().1
    } else {
        current_value_spec(hs.drop_first(), fund)
    }
}

/// The order one target fund gives rise to, if any: the delta between
/// the fund's target share of `total` and its current value must exceed
/// one whole currency unit in magnitude; then a positive delta buys and
/// a negative one sells, the absolute delta either way.
pub open spec fn order_for(total: int, hs: Seq<(Seq<char>, int)>, fund: (Seq<char>, int)) -> Option<
    (Seq<char>, Seq<char>, int),
> {
    let target = pct_apply(total, fund.1);
    let delta = target - current_value_spec(hs, fund.0);
    if abs_int(delta) > UNITS_PER_ONE {
        Some(
            (
                fund.0,
                if delta > 0 {
                    "BUY"@
                } else {
                    "SELL"@
                },
                abs_int(delta),
            ),
        )
    } else {
        None
    }
}

/// All orders: one per target fund whose delta is material, in target
/// order.
pub open spec fn orders_spec(
    funds: Seq<(Seq<char>, int)>,
    cash: int,
    hs: Seq<(Seq<char>, int)>,
) -> Seq<(Seq<char>, Seq<char>, int)> {
    funds.filter_map(
        |f: (Seq<char>, int)| order_for(total_value_spec(cash, hs), hs, f),
    )
}

/// Every target percentage lies on the 0–100 scale.
pub open spec fn pcts_ok(funds: Seq<(Seq<char>, int)>) -> bool {
    forall|i: int| 0 <= i < funds.len() ==> 0 <= (#[trigger] funds[i]).1 <= PCT_MAX_UNITS
}

/// Every amount the calculator computes stays within
/// [`CALC_MAX_UNITS`]: the cash balance, each holding value, each
/// partial sum of holding values, and the total.
pub open spec fn sums_ok(cash: int, hs: Seq<(Seq<char>, int)>) -> bool {
    &&& abs_int(cash) <= CALC_MAX_UNITS
    &&& forall|i: int| 0 <= i < hs.len() ==> abs_int((#[trigger] hs[i]).1) <= CALC_MAX_UNITS
    &&& forall|k: int|
        0 <= k <= hs.len() ==> abs_int(sum_units(values_of(#[trigger] hs.take(k))))
            <= CALC_MAX_UNITS
    &&& abs_int(total_value_spec(cash, hs)) <= CALC_MAX_UNITS
}

/// Law: the total portfolio value is the exact sum of the holding
/// values plus cash, and it does not depend on the order in which the
/// holdings are summed: any rearrangement of the same values gives the
/// same total.
pub proof fn lemma_total_value_permutation(
    cash: int,
    hs1: Seq<(Seq<char>, int)>,
    hs2: Seq<(Seq<char>, int)>,
)
    requires
        values_of(hs1).to_multiset() == values_of(hs2).to_multiset(),
    ensures
        total_value_spec(cash, hs1) == total_value_spec(cash, hs2),
{
    let f = |a: int, x: int| a + x;
    assert(commutative_foldl(f)) by {
        assert(forall|x: int, y: int, v: int| #[trigger] f(f(v, x), y) == f(f(v, y), x));
    }
    lemma_fold_left_permutation(values_of(hs1), values_of(hs2), f, 0int);
}

/// Law: a delta of exactly one currency unit (or less) produces no
/// order; an order appears exactly when the delta strictly exceeds one
/// unit in magnitude.
pub proof fn lemma_order_threshold(total: int, hs: Seq<(Seq<char>, int)>, fund: (Seq<char>, int))
    ensures
        (order_for(total, hs, fund) is None) <==> abs_int(
            pct_apply(total, fund.1) - current_value_spec(hs, fund.0),
        ) <= UNITS_PER_ONE,
{
}

/// Law: a positive delta buys, a negative delta sells, and the amount
/// is always the absolute value of the delta.
pub proof fn lemma_order_directionality(
    total: int,
    hs: Seq<(Seq<char>, int)>,
    fund: (Seq<char>, int),
)
    ensures
        order_for(total, hs, fund) matches Some(o) ==> {
            &&& (o.1 == "BUY"@ <==> pct_apply(total, fund.1) - current_value_spec(hs, fund.0) > 0)
            &&& (o.1 == "SELL"@ <==> pct_apply(total, fund.1) - current_value_spec(hs, fund.0) < 0)
            &&& o.2 == abs_int(pct_apply(total, fund.1) - current_value_spec(hs, fund.0))
            &&& o.2 > UNITS_PER_ONE
        },
{
    reveal_strlit("BUY");
    reveal_strlit("SELL");
    assert("BUY"@.len() == 3);
    assert("SELL"@.len() == 4);
}

/// The first-match lookup never exceeds the per-holding bound.
proof fn lemma_current_value_bound(hs: Seq<(Seq<char>, int)>, fund: Seq<char>, b: int)
    requires
        forall|i: int| 0 <= i < hs.len() ==> abs_int((#[trigger] hs[i]).1) <= b,
        b >= 0,
    ensures
        abs_int(current_value_spec(hs, fund)) <= b,
    decreases hs.len(),
{
    if hs.len() > 0 && hs.first().0 != fund {
        assert(forall|i: int|
            0 <= i < hs.drop_first().len() ==> hs.drop_first()[i] == hs[i + 1]);
        lemma_current_value_bound(hs.drop_first(), fund, b);
    }
}

/// Taking a percentage on the 0–100 scale never grows the magnitude.
pub proof fn lemma_pct_apply_bound(total: int, pct: int)
    requires
        abs_int(pct) <= PCT_MAX_UNITS,
    ensures
        abs_int(pct_apply(total, pct)) <= abs_int(total),
{
    let n = total * pct;
    let d = 10_000_000_000int;
    let t = abs_int(total);
    assert(abs_int(n) <= t * d) by (nonlinear_arith)
        requires
            n == total * pct,
            t == abs_int(total),
            abs_int(pct) <= d,
    ;
    let m = abs_int(n);
    let q = (m + d / 2) / d;
    vstd::arithmetic::div_mod::lemma_fundamental_div_mod(m + d / 2, d);
    assert(q <= t) by (nonlinear_arith)
        requires
            m + d / 2 == d * q + ((m + d / 2) % d),
            0 <= (m + d / 2) % d < d,
            0 <= m <= t * d,
            d == 10_000_000_000,
    ;
    assert(q >= 0) by (nonlinear_arith)
        requires
            m + d / 2 == d * q + ((m + d / 2) % d),
            0 <= (m + d / 2) % d < d,
            m >= 0,
            d == 10_000_000_000,
    ;
    if n >= 0 {
        assert(pct_apply(total, pct) == q);
    } else {
        assert(pct_apply(total, pct) == -q);
    }
}

/// Summing one more value extends the fold.
proof fn lemma_sum_take_succ(vals: Seq<int>, k: int)
    requires
        0 <= k < vals.len(),
    ensures
        sum_units(vals.take(k + 1)) == sum_units(vals.take(k)) + vals[k],
{
    assert(vals.take(k + 1).drop_last() =~= vals.take(k));
    assert(vals.take(k + 1).last() == vals[k]);
}

/// The market value of `fund`: the first matching holding, or zero.
pub fn current_value(holdings: &Vec<Holding>, fund: &str) -> (r: Dec)
    ensures
        r.units as int == current_value_spec(holdings_view(holdings@), fund@),
{
    let ghost hsv = holdings_view(holdings@);
    let mut i: usize = 0;
    proof {
        assert(hsv.skip(0) =~= hsv);
    }
    while i < holdings.len()
        invariant
            i <= holdings.len(),
            hsv == holdings_view(holdings@),
            hsv.len() == holdings@.len(),
            forall|j: int| 0 <= j < i as int ==> (#[trigger] hsv[j]).0 != fund@,
            current_value_spec(hsv, fund@) == current_value_spec(hsv.skip(i as int), fund@),
        decreases holdings.len() - i,
    {
        proof {
            assert(hsv.skip(i as int).first() == hsv[i as int]);
            assert(hsv.skip(i as int).drop_first() =~= hsv.skip(i as int + 1));
        }
        if crate::extract::str_eq(holdings[i].symbol.as_str(), fund) {
            return holdings[i].market_value;
        }
        i = i + 1;
    }
    proof {
        assert(hsv.skip(holdings@.len() as int) =~= Seq::<(Seq<char>, int)>::empty());
    }
    Dec { units: 0 }
}

/// Computes the buy/sell orders for one rebalancing run.
///
/// Returns `Ok` exactly when every target percentage is on the 0–100
/// scale and every amount involved stays within [`CALC_MAX_UNITS`];
/// the orders are then exactly [`orders_spec`] of the inputs.  The
/// first failed check names the error: percentages are validated
/// before amounts.
#[verifier::loop_isolation(false)]
pub fn calculate_orders(config: &Config, cash: Dec, holdings: &Vec<Holding>) -> (r: Result<
    Vec<Order>,
    CalcError,
>)
    ensures
        match r {
            Ok(os) => pcts_ok(funds_view(config.funds@)) && sums_ok(
                cash.units as int,
                holdings_view(holdings@),
            ) && orders_view(os@) == orders_spec(
                funds_view(config.funds@),
                cash.units as int,
                holdings_view(holdings@),
            ),
            Err(e) => match e {
                CalcError::PercentOutOfRange => !pcts_ok(funds_view(config.funds@)),
                CalcError::Overflow => pcts_ok(funds_view(config.funds@)) && !sums_ok(
                    cash.units as int,
                    holdings_view(holdings@),
                ),
            },
        },
{
    let ghost fv = funds_view(config.funds@);
    let ghost hsv = holdings_view(holdings@);
    // Validate the target percentages.
    let mut i: usize = 0;
    while i < config.funds.len()
        invariant
            i <= config.funds.len(),
            forall|j: int| 0 <= j < i as int ==> 0 <= (#[trigger] fv[j]).1 <= PCT_MAX_UNITS,
        decreases config.funds.len() - i,
    {
        let p = config.funds[i].1.units;
        proof {
            assert(fv[i as int].1 == config.funds@[i as int].1.units as int);
        }
        if p < 0 || p > PCT_MAX_UNITS {
            return Err(CalcError::PercentOutOfRange);
        }
        i = i + 1;
    }
    // Sum the holdings, watching the bounds.
    if cash.units > CALC_MAX_UNITS || cash.units < -CALC_MAX_UNITS {
        return Err(CalcError::Overflow);
    }
    let mut sum: i128 = 0;
    let mut k: usize = 0;
    proof {
        assert(values_of(hsv.take(0)) =~= Seq::<int>::empty());
    }
    while k < holdings.len()
        invariant
            k <= holdings.len(),
            sum as int == sum_units(values_of(hsv.take(k as int))),
            abs_int(sum as int) <= CALC_MAX_UNITS,
            forall|j: int| 0 <= j < k as int ==> abs_int((#[trigger] hsv[j]).1) <= CALC_MAX_UNITS,
            forall|j: int|
                0 <= j <= k as int ==> abs_int(
                    sum_units(values_of(#[trigger] hsv.take(j))),
                ) <= CALC_MAX_UNITS,
        decreases holdings.len() - k,
    {
        let v = holdings[k].market_value.units;
        proof {
            assert(hsv[k as int].1 == holdings@[k as int].market_value.units as int);
        }
        if v > CALC_MAX_UNITS || v < -CALC_MAX_UNITS {
            return Err(CalcError::Overflow);
        }
        let sum2 = sum + v;
        proof {
            assert(values_of(hsv.take(k as int + 1)) =~= values_of(hsv.take(k as int)).push(
                hsv[k as int].1,
            ));
            lemma_sum_take_succ(values_of(hsv), k as int);
            assert(values_of(hsv).take(k as int + 1) =~= values_of(hsv.take(k as int + 1)));
            assert(values_of(hsv).take(k as int) =~= values_of(hsv.take(k as int)));
        }
        if sum2 > CALC_MAX_UNITS || sum2 < -CALC_MAX_UNITS {
            return Err(CalcError::Overflow);
        }
        sum = sum2;
        k = k + 1;
    }
    proof {
        assert(hsv.take(holdings@.len() as int) =~= hsv);
    }
    let total = sum + cash.units;
    if total > CALC_MAX_UNITS || total < -CALC_MAX_UNITS {
        return Err(CalcError::Overflow);
    }
    // Walk the targets and emit material orders.
    let total_dec = Dec { units: total };
    let mut out: Vec<Order> = Vec::new();
    let ghost of = |f: (Seq<char>, int)| order_for(total_value_spec(cash.units as int, hsv), hsv, f);
    let mut t: usize = 0;
    proof {
        assert(fv.take(0).filter_map(of) =~= Seq::<(Seq<char>, Seq<char>, int)>::empty());
        assert(orders_view(out@) =~= Seq::<(Seq<char>, Seq<char>, int)>::empty());
    }
    while t < config.funds.len()
        invariant
            t <= config.funds.len(),
            orders_view(out@) == fv.take(t as int).filter_map(of),
        decreases config.funds.len() - t,
    {
        let name = &config.funds[t].0;
        let pct = config.funds[t].1;
        proof {
            assert(fv[t as int] == (config.funds@[t as int].0@, config.funds@[t as int].1.units as int));
        }
        let target = total_dec.pct_of(pct);
        let cur = current_value(holdings, name.as_str());
        proof {
            lemma_pct_apply_bound(total as int, pct.units as int);
            lemma_current_value_bound(hsv, name@, CALC_MAX_UNITS as int);
        }
        let delta = target.units - cur.units;
        if delta > UNITS_PER_ONE || delta < -UNITS_PER_ONE {
            let amount = if delta < 0 {
                -delta
            } else {
                delta
            };
            let action = if delta > 0 {
                "BUY".to_owned()
            } else {
                "SELL".to_owned()
            };
            let ghost pre = out@;
            out.push(Order { fund: name.clone(), action, amount: Dec { units: amount } });
            proof {
                assert(orders_view(out@) =~= orders_view(pre).push(out@.last()@));
                fv.lemma_filter_map_take_succ(of, t as int);
            }
        } else {
            proof {
                assert(of(fv[t as int]) is None);
                fv.lemma_filter_map_take_succ(of, t as int);
                assert(fv.take(t as int + 1).filter_map(of) =~= fv.take(t as int).filter_map(of));
            }
        }
        t = t + 1;
    }
    proof {
        assert(fv.take(config.funds@.len() as int) =~= fv);
    }
    Ok(out)
}

} // verus!
