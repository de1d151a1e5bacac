//! Random whole numbers within bounds, and random picks from a vector.

use vstd::prelude::*;

verus! {

/// A random number from `rand::random`, over the whole range of `u64`.
/// Nothing is claimed of the number: every value may come back, and two calls
/// may differ. The generator behind `rand::random` stops the program where
/// the operating system has no seed for it.
#[verifier::external_body]
fn random_u64() -> u64 {
    rand::random::<u64>()
}

/// The number that `draw` stands for between `min` and `max`, both included:
/// `draw` is counted off from `min`, starting over at `min` after `max`.
pub open spec fn in_range(draw: u64, min: int, max: int) -> int {
    min + draw as int % (max - min + 1)
}

/// The number that `draw` stands for between `min` and `max`, both included.
pub fn isize_in_range(draw: u64, min: isize, max: isize) -> (number: isize)
    requires
        max >= min,
    ensures
        number == in_range(draw, min as int, max as int),
        min <= number <= max,
{
    let span: u128 = (max as i128 - min as i128) as u128 + 1;
    let offset: u128 = draw as u128 % span;
    (min as i128 + offset as i128) as isize
}

/// A random number between `min` and `max`, both included.
pub fn rand_isize_in_range(min: isize, max: isize) -> (number: isize)
    requires
        max >= min,
    ensures
        min <= number <= max,
{
    isize_in_range(random_u64(), min, max)
}

/// The number of steps of `distance` that fit between `min` and `max`.
pub open spec fn steps_between(min: u64, max: u64, distance: u64) -> int {
    (max - min) / distance as int
}

/// The number that `draw` stands for among `min`, `min + distance`,
/// `min + 2 * distance` and so on up to `max`. Steps of no length lead
/// nowhere but to `min`.
pub open spec fn in_range_with_distance(draw: u64, min: u64, max: u64, distance: u64) -> int {
    if distance == 0 {
        min as int
    } else {
        min + in_range(draw, 0, steps_between(min, max, distance)) * distance
    }
}

/// The number that `draw` stands for among those between `min` and `max`
/// that lie a whole number of steps of `distance` above `min`.
pub fn u64_in_range_with_distance(draw: u64, min: u64, max: u64, distance: u64) -> (number: u64)
    requires
        max >= min,
        distance <= max - min,
    ensures
        number == in_range_with_distance(draw, min, max, distance),
        min <= number <= max,
        distance > 0 ==> (number - min) % distance as int == 0,
{
    if distance == 0 {
        return min;
    }
    let possible_values_count: u64 = (max - min) / distance;
    let step: u64 = (draw as u128 % (possible_values_count as u128 + 1)) as u64;
    proof {
        lemma_steps_fit(step as int, possible_values_count as int, distance as int, max - min);
    }
    min + step * distance
}

/// A random number between `min` and `max` that lies a whole number of steps
/// of `distance` above `min`.
pub fn rand_u64_in_range_with_distance(min: u64, max: u64, distance: u64) -> (number: u64)
    requires
        max >= min,
        distance <= max - min,
    ensures
        min <= number <= max,
        distance > 0 ==> (number - min) % distance as int == 0,
        distance == 0 ==> number == min,
{
    u64_in_range_with_distance(random_u64(), min, max, distance)
}

/// Whole steps from `min` stay below `max` as long as their number fits between the two.
proof fn lemma_steps_fit(step: int, count: int, distance: int, width: int)
    requires
        0 <= step <= count,
        distance > 0,
        width >= 0,
        count == width / distance,
    ensures
        0 <= step * distance <= width,
        (step * distance) % distance == 0,
{
    assert(step * distance <= count * distance) by (nonlinear_arith)
        requires
            0 <= step <= count,
            distance > 0,
    ;
    assert(0 <= step * distance) by (nonlinear_arith)
        requires
            0 <= step,
            distance > 0,
    ;
    assert(count * distance <= width) by (nonlinear_arith)
        requires
            count == width / distance,
            distance > 0,
            width >= 0,
    ;
    assert((step * distance) % distance == 0) by (nonlinear_arith)
        requires
            distance > 0,
    ;
}

/// The number that was asked for, or `default` where none or zero was asked for.
pub fn count_or_default(asked: Option<usize>, default: usize) -> (count: usize)
    ensures
        count == match asked {
            Some(number) => if number == 0 {
                default
            } else {
                number
            },
            None => default,
        },
{
    match asked {
        Some(number) => if number == 0 {
            default
        } else {
            number
        },
        None => default,
    }
}

/// Random picks from a collection.
pub trait RandGet {
    type Element;

    /// Some element where there is one, whichever it is.
    fn rand_get<'a>(&'a self) -> (picked: Option<&'a Self::Element>);

    /// Some element where there is one, whichever it is, to be changed in place.
    fn rand_get_mut<'a>(&'a mut self) -> (picked: Option<&'a mut Self::Element>);

    /// Some position where there is one, whichever it is.
    fn rand_index<'a>(&'a self) -> (picked: Option<usize>);
}

impl<T> RandGet for Vec<T> {
    type Element = T;

    fn rand_get<'a>(&'a self) -> (picked: Option<&'a T>)
        ensures
            picked is Some <==> self@.len() > 0,
            picked matches Some(element) ==> self@.contains(*element),
    {
        match self.rand_index() {
            Some(index) => Some(&self[index]),
            None => None,
        }
    }

    fn rand_get_mut<'a>(&'a mut self) -> (picked: Option<&'a mut T>)
        ensures
            picked is Some <==> old(self)@.len() > 0,
            picked is None ==> final(self)@ == old(self)@,
            picked matches Some(element) ==> exists|index: int|
                0 <= index < old(self)@.len() && *element == old(self)@[index] && final(self)@
                    == old(self)@.update(index, *final(element)),
    {
        if self.is_empty() {
            return None;
        }
        let index = index_in(random_u64(), self.len());
        Some(&mut self[index])
    }

    fn rand_index<'a>(&'a self) -> (picked: Option<usize>)
        ensures
            picked is Some <==> self@.len() > 0,
            picked matches Some(index) ==> index < self@.len(),
    {
        if self.is_empty() {
            return None;
        }
        Some(index_in(random_u64(), self.len()))
    }
}

/// The position that `draw` stands for in a collection of `len` elements.
pub fn index_in(draw: u64, len: usize) -> (index: usize)
    requires
        len > 0,
    ensures
        index == draw as int % len as int,
        index < len,
{
    (draw as u128 % len as u128) as usize
}

} // verus!
