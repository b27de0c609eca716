//! What leaves the pool at a price point, and what that pays.

use vstd::prelude::*;

use crate::arithmetic;
use crate::binary64::Binary64;
use crate::inputs::{Inputs, Point, MULTIPLIER, SELL_FEE};
use crate::ledger::{live, Fill, Ledger};
use crate::names;
use crate::trading;
use crate::worth;
use crate::worth::{added, terms_below};

verus! {

/// Whether what the pool holds of a name leaves, by what the numbers are.
proof fn lemma_leaves(l: Ledger, inp: Inputs, at: Point, i: int)
    ensures
        ({
            let price = inp.quote(at.phase as int, at.bar as int, i);
            l.leaves(inp, at, i) == ((l.liq[i].is_nan() || 0 < l.liq[i].value())
                && !price.is_nan() && 0 < price.value() && inp.can_sell(
                at.phase as int,
                at.bar as int,
                i,
            ))
        }),
{
    arithmetic::lemma_sign(l.liq[i]);
    arithmetic::lemma_sign(inp.quote(at.phase as int, at.bar as int, i));
}

proof fn lemma_pool_sold(l: Ledger, inp: Inputs, at: Point, list: Seq<usize>, i: int)
    requires
        l.wf(),
        0 <= i < l.assets,
        names::ascending(list),
        names::bounded(list, l.assets),
    ensures
        ({
            let m = l.pool_sold(inp, at, list);
            &&& m.wf()
            &&& m == (Ledger {
                liq: m.liq,
                cash: m.cash,
                fees: m.fees,
                sold: m.sold,
                fills: m.fills,
                ..l
            })
            &&& m.liq[i] == if list.contains(i as usize) && l.leaves(inp, at, i) {
                Binary64::zero()
            } else {
                l.liq[i]
            }
        }),
    decreases list.len(),
{
    l.lemma_pool_sold(inp, at, list);
    if list.len() > 0 {
        let front: Seq<usize> = list.drop_last();
        let j: int = list.last() as int;
        trading::lemma_ends(list, l.assets, i);
        lemma_pool_sold(l, inp, at, front, i);
        lemma_pool_sold(l, inp, at, front, j);
    }
}

proof fn lemma_pool_money(l: Ledger, inp: Inputs, at: Point, list: Seq<usize>)
    requires
        l.wf(),
        names::ascending(list),
        names::bounded(list, l.assets),
    ensures
        ({
            let m = l.pool_sold(inp, at, list);
            let sells = |i: int| list.contains(i as usize) && l.leaves(inp, at, i);
            let turnover = |i: int|
                l.liq[i].times(inp.quote(at.phase as int, at.bar as int, i)).times(
                    inp.rate_of(MULTIPLIER, at.epoch as int, i),
                );
            let fee = |i: int|
                inp.charge(
                    turnover(i),
                    inp.rate_of(SELL_FEE, at.epoch as int, i),
                    at.epoch as int,
                    inp.category(i),
                );
            let fill = |i: int|
                Fill {
                    bar: at.bar as u32,
                    point: at.phase as u32,
                    tranche: -1i32,
                    asset: i as u32,
                    units: l.liq[i].negated(),
                    price: inp.quote(at.phase as int, at.bar as int, i),
                    fee: fee(i),
                };
            &&& m.cash == added(
                l.cash,
                terms_below(l.assets, sells, |i: int| turnover(i).minus(fee(i))),
            )
            &&& m.fees == added(l.fees, terms_below(l.assets, sells, fee))
            &&& m.sold == added(l.sold, terms_below(l.assets, sells, turnover))
            &&& m.fills == if l.record_fills {
                l.fills + terms_below(l.assets, sells, fill)
            } else {
                l.fills
            }
        }),
    decreases list.len(),
{
    let leaves = |i: int| l.leaves(inp, at, i);
    let sells = |i: int| list.contains(i as usize) && l.leaves(inp, at, i);
    let both = |i: int| list.contains(i as usize) && leaves(i);
    let turnover = |i: int|
        l.liq[i].times(inp.quote(at.phase as int, at.bar as int, i)).times(
            inp.rate_of(MULTIPLIER, at.epoch as int, i),
        );
    let fee = |i: int|
        inp.charge(
            turnover(i),
            inp.rate_of(SELL_FEE, at.epoch as int, i),
            at.epoch as int,
            inp.category(i),
        );
    let net = |i: int| turnover(i).minus(fee(i));
    let fill = |i: int|
        Fill {
            bar: at.bar as u32,
            point: at.phase as u32,
            tranche: -1i32,
            asset: i as u32,
            units: l.liq[i].negated(),
            price: inp.quote(at.phase as int, at.bar as int, i),
            fee: fee(i),
        };
    worth::lemma_terms_alike(l.assets, sells, net, both, net);
    worth::lemma_terms_alike(l.assets, sells, fee, both, fee);
    worth::lemma_terms_alike(l.assets, sells, turnover, both, turnover);
    worth::lemma_terms_alike(l.assets, sells, fill, both, fill);
    if list.len() > 0 {
        let front: Seq<usize> = list.drop_last();
        let j: int = list.last() as int;
        trading::lemma_ends(list, l.assets, j);
        lemma_pool_money(l, inp, at, front);
        lemma_pool_sold(l, inp, at, front, j);
        let f = |i: int| front.contains(i as usize) && l.leaves(inp, at, i);
        let g = |i: int| front.contains(i as usize) && leaves(i);
        worth::lemma_terms_alike(l.assets, f, net, g, net);
        worth::lemma_terms_alike(l.assets, f, fee, g, fee);
        worth::lemma_terms_alike(l.assets, f, turnover, g, turnover);
        worth::lemma_terms_alike(l.assets, f, fill, g, fill);
        worth::lemma_listed_terms(list, l.assets, leaves, net);
        worth::lemma_listed_terms(list, l.assets, leaves, fee);
        worth::lemma_listed_terms(list, l.assets, leaves, turnover);
        worth::lemma_listed_terms(list, l.assets, leaves, fill);
        let nets: Seq<Binary64> = terms_below(l.assets, g, net);
        let fees: Seq<Binary64> = terms_below(l.assets, g, fee);
        let sold: Seq<Binary64> = terms_below(l.assets, g, turnover);
        let made: Seq<Fill> = terms_below(l.assets, g, fill);
        assert(nets.push(net(j)).drop_last() =~= nets);
        assert(fees.push(fee(j)).drop_last() =~= fees);
        assert(sold.push(turnover(j)).drop_last() =~= sold);
        assert((l.fills + made).push(fill(j)) =~= l.fills + made.push(fill(j)));
    } else {
        worth::lemma_terms_end(0, l.assets, both, net);
        worth::lemma_terms_end(0, l.assets, both, fee);
        worth::lemma_terms_end(0, l.assets, both, turnover);
        worth::lemma_terms_end(0, l.assets, both, fill);
        assert(l.fills + Seq::<Fill>::empty() =~= l.fills);
    }
}

/// What is left of a name in the pool: nothing of what can leave, and all of
/// what cannot. The pool lists a name no more if it left; once any did, it
/// lists only names it holds units of. Nothing else of the account moves but
/// money and the record.
pub proof fn law_what_is_left_in_the_pool(l: Ledger, inp: Inputs, at: Point, i: int)
    requires
        l.wf(),
        0 <= i < l.assets,
    ensures
        ({
            let m = l.drained(inp, at);
            let can_leave = |i: int|
                {
                    let price = inp.quote(at.phase as int, at.bar as int, i);
                    &&& l.liq[i].is_nan() || 0 < l.liq[i].value()
                    &&& !price.is_nan()
                    &&& 0 < price.value()
                    &&& inp.can_sell(at.phase as int, at.bar as int, i)
                };
            let left = l.pool.contains(i as usize) && can_leave(i);
            let any = exists|x: usize| #[trigger]
                l.pool.contains(x) && can_leave(x as int);
            &&& m == (Ledger {
                liq: m.liq,
                pool: m.pool,
                cash: m.cash,
                fees: m.fees,
                sold: m.sold,
                fills: m.fills,
                ..l
            })
            &&& m.liq[i] == if left {
                Binary64 { bits: 0 }
            } else {
                l.liq[i]
            }
            &&& names::ascending(m.pool)
            &&& m.pool.contains(i as usize) <==> l.pool.contains(i as usize) && !left && (!any
                || !l.liq[i].is_nan() && 0 < l.liq[i].value())
        }),
{
    let can_leave = |i: int|
        {
            let price = inp.quote(at.phase as int, at.bar as int, i);
            &&& l.liq[i].is_nan() || 0 < l.liq[i].value()
            &&& !price.is_nan()
            &&& 0 < price.value()
            &&& inp.can_sell(at.phase as int, at.bar as int, i)
        };
    let after: Ledger = l.pool_sold(inp, at, l.pool);
    let any: bool = exists|x: usize| #[trigger]
        l.pool.contains(x) && can_leave(x as int);
    let some: bool = exists|k: int|
        0 <= k < l.pool.len() && l.leaves(inp, at, #[trigger] l.pool[k] as int);
    lemma_pool_sold(l, inp, at, l.pool, i);
    lemma_leaves(l, inp, at, i);
    assert(any == some) by {
        if any {
            let x: usize = choose|x: usize| #[trigger]
                l.pool.contains(x) && can_leave(x as int);
            let k: int = choose|k: int| 0 <= k < l.pool.len() && l.pool[k] == x;
            lemma_leaves(l, inp, at, x as int);
            assert(l.leaves(inp, at, l.pool[k] as int));
        }
        if some {
            let k: int = choose|k: int|
                0 <= k < l.pool.len() && l.leaves(inp, at, #[trigger] l.pool[k] as int);
            lemma_leaves(l, inp, at, l.pool[k] as int);
            assert(l.pool.contains(l.pool[k]));
        }
    }
    let keep = |j: int| live(after.liq[j]);
    names::lemma_kept(l.pool, keep);
    arithmetic::lemma_sign(after.liq[i]);
    arithmetic::lemma_sign(l.liq[i]);
}

/// What the pool's sales pay: of each name that leaves, ascending, its
/// turnover less its fee goes into cash, its fee among the bar's fees, its
/// turnover among the bar's sales, and itself, as the pool's, on record where
/// fills are asked for.
pub proof fn law_what_the_pools_sales_pay(l: Ledger, inp: Inputs, at: Point)
    requires
        l.wf(),
    ensures
        ({
            let m = l.drained(inp, at);
            let can_leave = |i: int|
                {
                    let price = inp.quote(at.phase as int, at.bar as int, i);
                    &&& l.liq[i].is_nan() || 0 < l.liq[i].value()
                    &&& !price.is_nan()
                    &&& 0 < price.value()
                    &&& inp.can_sell(at.phase as int, at.bar as int, i)
                };
            let sells = |i: int| l.pool.contains(i as usize) && can_leave(i);
            let turnover = |i: int|
                l.liq[i].times(inp.quote(at.phase as int, at.bar as int, i)).times(
                    inp.rate_of(MULTIPLIER, at.epoch as int, i),
                );
            let fee = |i: int|
                inp.charge(
                    turnover(i),
                    inp.rate_of(SELL_FEE, at.epoch as int, i),
                    at.epoch as int,
                    inp.category(i),
                );
            let fill = |i: int|
                Fill {
                    bar: at.bar as u32,
                    point: at.phase as u32,
                    tranche: -1i32,
                    asset: i as u32,
                    units: l.liq[i].negated(),
                    price: inp.quote(at.phase as int, at.bar as int, i),
                    fee: fee(i),
                };
            &&& m.cash == added(
                l.cash,
                terms_below(l.assets, sells, |i: int| turnover(i).minus(fee(i))),
            )
            &&& m.fees == added(l.fees, terms_below(l.assets, sells, fee))
            &&& m.sold == added(l.sold, terms_below(l.assets, sells, turnover))
            &&& m.bought == l.bought
            &&& m.fills == if l.record_fills {
                l.fills + terms_below(l.assets, sells, fill)
            } else {
                l.fills
            }
        }),
{
    let can_leave = |i: int|
        {
            let price = inp.quote(at.phase as int, at.bar as int, i);
            &&& l.liq[i].is_nan() || 0 < l.liq[i].value()
            &&& !price.is_nan()
            &&& 0 < price.value()
            &&& inp.can_sell(at.phase as int, at.bar as int, i)
        };
    let sells = |i: int| l.pool.contains(i as usize) && can_leave(i);
    let both = |i: int| l.pool.contains(i as usize) && l.leaves(inp, at, i);
    let turnover = |i: int|
        l.liq[i].times(inp.quote(at.phase as int, at.bar as int, i)).times(
            inp.rate_of(MULTIPLIER, at.epoch as int, i),
        );
    let fee = |i: int|
        inp.charge(
            turnover(i),
            inp.rate_of(SELL_FEE, at.epoch as int, i),
            at.epoch as int,
            inp.category(i),
        );
    let net = |i: int| turnover(i).minus(fee(i));
    let fill = |i: int|
        Fill {
            bar: at.bar as u32,
            point: at.phase as u32,
            tranche: -1i32,
            asset: i as u32,
            units: l.liq[i].negated(),
            price: inp.quote(at.phase as int, at.bar as int, i),
            fee: fee(i),
        };
    assert forall|i: int| 0 <= i < l.assets implies #[trigger] sells(i) == both(i) by {
        lemma_leaves(l, inp, at, i);
    }
    worth::lemma_terms_alike(l.assets, sells, net, both, net);
    worth::lemma_terms_alike(l.assets, sells, fee, both, fee);
    worth::lemma_terms_alike(l.assets, sells, turnover, both, turnover);
    worth::lemma_terms_alike(l.assets, sells, fill, both, fill);
    lemma_pool_money(l, inp, at, l.pool);
    l.lemma_pool_sold(inp, at, l.pool);
}

}
