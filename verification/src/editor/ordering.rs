//! How the order number of a row that is placed among others is made.

use vstd::prelude::*;

verus! {

/// How a new order number comes from those of the rows around it. The numbers are
/// given by their ranks.
#[derive(Debug, Clone, Copy, PartialEq, Eq, Structural)]
pub enum OrderRule {
    /// Halfway between the two.
    Between(i32, i32),
    /// One more than the number.
    OneAfter(i32),
    /// One less than the number.
    OneBefore(i32),
    /// Halfway between the number and one less than it.
    HalfBefore(i32),
    /// Halfway between the number and one more than it.
    HalfAfter(i32),
    /// The number of a row without siblings.
    First,
    /// One more than the number of the first row.
    AfterFirst,
}

/// Whether a rank stands where a rule puts the number it makes: between two numbers,
/// above one or below one. A number that rounding has moved onto one of those that it
/// was made from does not.
pub open spec fn lies_by(rule: OrderRule, order: int) -> bool {
    match rule {
        OrderRule::Between(a, b) => a < order < b,
        OrderRule::OneAfter(a) => a < order,
        OrderRule::OneBefore(a) => order < a,
        OrderRule::HalfBefore(a) => order < a,
        OrderRule::HalfAfter(a) => a < order,
        OrderRule::First => true,
        OrderRule::AfterFirst => true,
    }
}

/// Whether higher ranks stand for higher numbers.
pub open spec fn rises(number: spec_fn(int) -> int) -> bool {
    forall|a: int, b: int| a < b ==> #[trigger] number(a) < #[trigger] number(b)
}

/// Whether a rank stands for the very number that a rule makes, where `number` gives the
/// number that a rank stands for, in a unit of which `one` make up the number one.
pub open spec fn makes(
    rule: OrderRule,
    number: spec_fn(int) -> int,
    one: int,
    order: int,
) -> bool {
    let twice = 2 * number(order);
    match rule {
        OrderRule::Between(a, b) => twice == number(a as int) + number(b as int),
        OrderRule::OneAfter(a) => twice == 2 * (number(a as int) + one),
        OrderRule::OneBefore(a) => twice == 2 * (number(a as int) - one),
        OrderRule::HalfBefore(a) => twice == number(a as int) + (number(a as int) - one),
        OrderRule::HalfAfter(a) => twice == number(a as int) + (number(a as int) + one),
        OrderRule::First => twice == 0,
        OrderRule::AfterFirst => twice == 2 * one,
    }
}

/// A number that is made without rounding stands where its rule puts it, unless it was
/// to go between two equal ones.
pub proof fn law_made_number_lies_by_its_rule(
    rule: OrderRule,
    number: spec_fn(int) -> int,
    one: int,
    order: int,
)
    requires
        rises(number),
        one > 0,
        makes(rule, number, one, order),
        rule matches OrderRule::Between(a, b) ==> a < b,
    ensures
        lies_by(rule, order),
{
    match rule {
        OrderRule::Between(a, b) => {
            assert(number(a as int) < number(b as int));
            if order <= a {
                assert(order == a || number(order) < number(a as int));
            }
            if order >= b {
                assert(order == b || number(b as int) < number(order));
            }
        },
        OrderRule::OneAfter(a) | OrderRule::HalfAfter(a) => {
            if order <= a {
                assert(order == a || number(order) < number(a as int));
            }
        },
        OrderRule::OneBefore(a) | OrderRule::HalfBefore(a) => {
            if order >= a {
                assert(order == a || number(a as int) < number(order));
            }
        },
        _ => {},
    }
}

/// A row behind another goes halfway to the next one, or one further where it is
/// the last.
pub fn midpoint_or_append(current_order: i32, next_order: Option<i32>) -> (r: OrderRule)
    ensures
        r == (match next_order {
            Some(no) => OrderRule::Between(current_order, no),
            None => OrderRule::OneAfter(current_order),
        }),
{
    match next_order {
        Some(no) => OrderRule::Between(current_order, no),
        None => OrderRule::OneAfter(current_order),
    }
}

} // verus!
