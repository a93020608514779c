//! Pool-backed boxes for orders and price levels.
//!
//! Everything in this file is believed, not proved: it states what the
//! `refpool` crate does with the values handed to it.

use vstd::prelude::*;
use std::ops::Deref;
use std::ops::DerefMut;
use crate::matching_engine::order::{Order, OrderAtPrice};

verus! {

/// `refpool::Pool`: a handle to a stock of spare allocations for values of
/// one type. Opaque here.
#[verifier::external_type_specification]
#[verifier::external_body]
#[verifier::reject_recursive_types(A)]
pub struct ExPool<A>(refpool::Pool<A>);

/// `refpool::PoolBox`: a uniquely owned value stored in a pool allocation.
/// Opaque here; `order_in` and `level_in` name what a box holds.
#[verifier::external_type_specification]
#[verifier::external_body]
#[verifier::reject_recursive_types(A)]
pub struct ExPoolBox<A>(refpool::PoolBox<A>);

/// The order that a box holds.
pub uninterp spec fn order_in(b: refpool::PoolBox<Order>) -> Order;

/// The price level that a box holds.
pub uninterp spec fn level_in(b: refpool::PoolBox<OrderAtPrice>) -> OrderAtPrice;

/// `refpool::Pool::new`: a pool that keeps up to `max_size` spare
/// allocations. It reserves one pointer for each of them at once, so the
/// size is held to what a vector can always reserve. A pool only recycles
/// allocations: nothing about it shows in the values stored through it.
pub assume_specification<A>[ refpool::Pool::<A>::new ](max_size: usize) -> (pool: refpool::Pool<A>)
    requires
        max_size <= 0x0100_0000,
;

/// `refpool::PoolBox::new`: moves `value` into an allocation taken from
/// `pool` (or a fresh one when the pool has none to spare); the box holds
/// exactly that value.
#[verifier::external_body]
pub(crate) fn box_order(pool: &refpool::Pool<Order>, value: Order) -> (b: refpool::PoolBox<Order>)
    ensures
        order_in(b) == value,
{
    refpool::PoolBox::new(pool, value)
}

/// `refpool::PoolBox::new` for a price level; the box holds exactly `value`.
#[verifier::external_body]
pub(crate) fn box_level(pool: &refpool::Pool<OrderAtPrice>, value: OrderAtPrice) -> (b: refpool::PoolBox<OrderAtPrice>)
    ensures
        level_in(b) == value,
{
    refpool::PoolBox::new(pool, value)
}

/// `Deref::deref` of `refpool::PoolBox`: a reference to the held order.
#[verifier::external_body]
pub(crate) fn order_of(b: &refpool::PoolBox<Order>) -> (o: &Order)
    ensures
        *o == order_in(*b),
{
    b.deref()
}

/// `Deref::deref` of `refpool::PoolBox`: a reference to the held level.
#[verifier::external_body]
pub(crate) fn level_of(b: &refpool::PoolBox<OrderAtPrice>) -> (l: &OrderAtPrice)
    ensures
        *l == level_in(*b),
{
    b.deref()
}

/// `DerefMut::deref_mut` of `refpool::PoolBox`, used to overwrite the held
/// order in place: afterwards the box holds `value`.
#[verifier::external_body]
pub(crate) fn store_order(b: &mut refpool::PoolBox<Order>, value: Order)
    ensures
        order_in(*final(b)) == value,
{
    *b.deref_mut() = value;
}

/// `DerefMut::deref_mut` of `refpool::PoolBox`, used to overwrite the held
/// level in place: afterwards the box holds `value`.
#[verifier::external_body]
pub(crate) fn store_level(b: &mut refpool::PoolBox<OrderAtPrice>, value: OrderAtPrice)
    ensures
        level_in(*final(b)) == value,
{
    *b.deref_mut() = value;
}

} // verus!
