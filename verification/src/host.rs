//! The Soroban host's vectors of prices.
//!
//! A `soroban_sdk::Vec` is a handle to a vector held by the host of its `Env`.
//! Host vectors are immutable: every change makes a new one and moves the handle
//! to it, so what a handle holds is a function of the handle.
//!
//! Every call below is a call into the host, which charges it to the running
//! contract's budget and aborts the contract when the budget is spent; when that
//! happens depends on the host's configuration, and nothing here states it.
use vstd::prelude::*;

use soroban_sdk::{Env, Vec as HostVec};

verus! {

#[verifier::external_type_specification]
#[verifier::external_body]
pub struct ExEnv(Env);

#[verifier::external_type_specification]
#[verifier::external_body]
#[verifier::reject_recursive_types(T)]
pub struct ExHostVec<T>(HostVec<T>);

/// The prices that a host vector holds, in order.
pub uninterp spec fn host_prices(v: HostVec<i128>) -> Seq<i128>;

/// Every value that the host vector holds is an `i128`. A `soroban_sdk::Vec<i128>`
/// can be made from host values of any type, and reading one that is not an
/// `i128` panics; vectors made empty and grown with `i128`s hold only `i128`s.
pub uninterp spec fn holds_only_i128(v: HostVec<i128>) -> bool;

/// `soroban_sdk::Vec::new`: a new, empty host vector.
#[verifier::external_body]
pub(crate) fn new_prices(env: &Env) -> (v: HostVec<i128>)
    ensures
        host_prices(v) == Seq::<i128>::empty(),
        holds_only_i128(v),
{
    HostVec::new(env)
}

/// `soroban_sdk::Vec::len`: how many prices the vector holds.
#[verifier::external_body]
pub(crate) fn prices_len(v: &HostVec<i128>) -> (n: u32)
    ensures
        n == host_prices(*v).len(),
{
    v.len()
}

/// `soroban_sdk::Vec::get`: the price at `i`, or `None` past the end. It
/// panics when the host value there is not an `i128`, so the vector must hold
/// only `i128`s.
#[verifier::external_body]
pub(crate) fn price_at(v: &HostVec<i128>, i: u32) -> (x: Option<i128>)
    requires
        holds_only_i128(*v),
    ensures
        i < host_prices(*v).len() ==> x == Some(host_prices(*v)[i as int]),
        i >= host_prices(*v).len() ==> x is None,
{
    v.get(i)
}

/// `soroban_sdk::Vec::push_back`: appends `x`. The host refuses a vector of
/// `u32::MAX` items, so the vector must be shorter.
#[verifier::external_body]
pub(crate) fn push_price(v: &mut HostVec<i128>, x: i128)
    requires
        host_prices(*old(v)).len() < u32::MAX,
    ensures
        host_prices(*final(v)) == host_prices(*old(v)).push(x),
        holds_only_i128(*old(v)) ==> holds_only_i128(*final(v)),
{
    v.push_back(x)
}

/// `soroban_sdk::Vec::insert`: puts `x` at `i`, moving the later prices up.
/// The host refuses an index past the end and a vector of `u32::MAX` items.
#[verifier::external_body]
pub(crate) fn insert_price(v: &mut HostVec<i128>, i: u32, x: i128)
    requires
        i <= host_prices(*old(v)).len(),
        host_prices(*old(v)).len() < u32::MAX,
    ensures
        host_prices(*final(v)) == host_prices(*old(v)).insert(i as int, x),
        holds_only_i128(*old(v)) ==> holds_only_i128(*final(v)),
{
    v.insert(i, x)
}

} // verus!
