//! Drawing indices without replacement.
//!
//! The indices below a bound are drawn one after the other, each at most
//! once, without a table of all of them: a sparse table keeps, for each place
//! that was drawn, the index that took this place. At each draw the last
//! index that is left takes the place that was drawn.

use crate::numbers::integer::integer_clone;
use crate::numbers::integer::integer_from_usize;
use crate::numbers::integer::integer_sub_assign;
use crate::numbers::integer::integer_value;
use rug::Integer;
use rustc_hash::FxHashMap;
use vstd::prelude::*;

verus! {

/// A table from integers to integers, kept in an `FxHashMap` of
/// `rustc_hash` keyed by `rug::Integer`. The library does not read the
/// table: what it knows of it is the mapping that it stands for.
#[verifier::external_body]
pub struct Swaps {
    map: FxHashMap<Integer, Integer>,
}

/// The mapping that a table stands for.
pub uninterp spec fn swaps_of(swaps: Swaps) -> Map<int, int>;

/// The mapping without entry.
pub open spec fn no_swap() -> Map<int, int> {
    Map::empty()
}

/// `FxHashMap::default`: a table without entry.
#[verifier::external_body]
fn swaps_empty() -> (r: Swaps)
    ensures
        swaps_of(r) == no_swap(),
{
    Swaps { map: FxHashMap::default() }
}

/// `HashMap::get`, then `Integer::clone`: the value that the table holds
/// for the key, if any.
#[verifier::external_body]
fn swaps_get(swaps: &Swaps, key: &Integer) -> (r: Option<Integer>)
    ensures
        r is Some <==> swaps_of(*swaps).contains_key(integer_value(*key)),
        r matches Some(value) ==> integer_value(value) == swaps_of(*swaps)[integer_value(*key)],
{
    swaps.map.get(key).cloned()
}

/// `HashMap::insert`: the table holds the value for the key, and the value
/// that it held for the key before, if any, is returned.
#[verifier::external_body]
fn swaps_insert(swaps: &mut Swaps, key: Integer, value: Integer) -> (r: Option<Integer>)
    ensures
        swaps_of(*final(swaps)) == swaps_of(*old(swaps)).insert(
            integer_value(key),
            integer_value(value),
        ),
        r is Some <==> swaps_of(*old(swaps)).contains_key(integer_value(key)),
        r matches Some(before) ==> integer_value(before) == swaps_of(*old(swaps))[integer_value(
            key,
        )],
{
    swaps.map.insert(key, value)
}

/// The index that stands at a place: the one that the table holds for the
/// place, or the place itself.
pub open spec fn place(swaps: Map<int, int>, i: int) -> int {
    if swaps.contains_key(i) {
        swaps[i]
    } else {
        i
    }
}

impl View for Swaps {
    type V = Map<int, int>;

    open spec fn view(&self) -> Map<int, int> {
        swaps_of(*self)
    }
}

impl Swaps {
    /// A table in which each index stands at its own place.
    pub fn new() -> (r: Self)
        ensures
            r@ == no_swap(),
    {
        swaps_empty()
    }
}

/// Returns the index that stands at the place `drawn`, one of the `left`
/// places that are left, and takes it out: the index that stands at the last
/// of these places takes its place.
pub fn next_sample(swapped: &mut Swaps, left: &Integer, drawn: &Integer) -> (index: Integer)
    requires
        0 <= integer_value(*drawn) < integer_value(*left),
    ensures
        integer_value(index) == place(old(swapped)@, integer_value(*drawn)),
        final(swapped)@ == old(swapped)@.insert(
            integer_value(*drawn),
            place(old(swapped)@, integer_value(*left) - 1),
        ),
{
    let mut last = integer_clone(left);
    let one = integer_from_usize(1);
    integer_sub_assign(&mut last, &one);
    let last_value = match swaps_get(swapped, &last) {
        Some(value) => value,
        None => last,
    };
    match swaps_insert(swapped, integer_clone(drawn), last_value) {
        Some(value) => value,
        None => integer_clone(drawn),
    }
}

} // verus!
