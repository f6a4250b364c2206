//! The order of two values given as bytes.

use std::cmp::Ordering;
use vstd::prelude::*;
use crate::error::Error;
use crate::bytes::{Order, lex_order, compare_bytes};
use crate::order::{value_order, compare_values};
use crate::functions::{binary_of, to_binary};

verus! {

/// The order that a standard ordering stands for.
pub open spec fn to_order(o: Ordering) -> Order {
    match o {
        Ordering::Less => Order::Less,
        Ordering::Equal => Order::Equal,
        Ordering::Greater => Order::Greater,
    }
}

/// The order of two values given as bytes.
///
/// Bytes that are neither a value in its binary form nor JSON text are less
/// than a value, and among themselves in the order of their bytes.
pub open spec fn compare_spec(l: Seq<u8>, r: Seq<u8>) -> Result<Order, Error> {
    match binary_of(l) {
        Ok(lb) => match binary_of(r) {
            Ok(rb) => value_order(lb, rb),
            Err(_) => Ok(Order::Greater),
        },
        Err(_) => match binary_of(r) {
            Ok(_) => Ok(Order::Less),
            Err(_) => Ok(lex_order(l, r)),
        },
    }
}

/// The standard ordering that an order stands for.
fn from_order(o: Order) -> (r: Ordering)
    ensures
        to_order(r) == o,
{
    match o {
        Order::Less => Ordering::Less,
        Order::Equal => Ordering::Equal,
        Order::Greater => Ordering::Greater,
    }
}

/// Compares two values given as bytes. A scalar null is greater than every
/// other value, an array greater than an object, and both greater than a
/// string, a number, true and false, in this order.
pub fn compare(left: &[u8], right: &[u8]) -> (r: Result<Ordering, Error>)
    ensures
        match compare_spec(left@, right@) {
            Ok(o) => r is Ok && to_order(r->Ok_0) == o,
            Err(e) => r == Err::<Ordering, Error>(e),
        },
{
    match to_binary(left) {
        Ok(l) => match to_binary(right) {
            Ok(r) => {
                let o = compare_values(l.as_slice(), r.as_slice())?;
                Ok(from_order(o))
            },
            Err(_) => Ok(Ordering::Greater),
        },
        Err(_) => match to_binary(right) {
            Ok(_) => Ok(Ordering::Less),
            Err(_) => Ok(from_order(compare_bytes(left, right))),
        },
    }
}

} // verus!
