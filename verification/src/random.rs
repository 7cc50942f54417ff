//! The grid's random numbers.

use rand::Rng;
use vstd::prelude::*;

verus! {

/// One draw of `rand::thread_rng().gen_range(0..max_number)`. rand's `Rng::gen_range`
/// documents that it samples from the half-open range it is given and panics when
/// that range is empty; the contract says that the draw lies in the range and
/// leaves the empty range out. Which value is drawn is random and left unsaid.
#[verifier::external_body]
fn random_below(max_number: u8) -> (number: u8)
    requires
        max_number > 0,
    ensures
        number < max_number,
{
    rand::thread_rng().gen_range(0..max_number)
}

/// A grid of `rows` rows of `cols` random numbers each, every one below
/// `max_number`, drawn row by row. Drawing below 0 is refused; with no cell
/// nothing is drawn.
pub fn random_numbers(rows: u8, cols: u8, max_number: u8) -> (numbers: Vec<Vec<u8>>)
    requires
        rows > 0 && cols > 0 ==> max_number > 0,
    ensures
        numbers@.len() == rows,
        forall|i: int| 0 <= i < rows ==> (#[trigger] numbers@[i])@.len() == cols,
        forall|i: int, j: int|
            0 <= i < rows && 0 <= j < cols ==> #[trigger] numbers@[i]@[j] < max_number,
{
    let mut numbers: Vec<Vec<u8>> = Vec::new();
    let mut i: u8 = 0;
    while i < rows
        invariant
            i <= rows,
            rows > 0 && cols > 0 ==> max_number > 0,
            numbers@.len() == i,
            forall|k: int| 0 <= k < i ==> (#[trigger] numbers@[k])@.len() == cols,
            forall|k: int, j: int|
                0 <= k < i && 0 <= j < cols ==> #[trigger] numbers@[k]@[j] < max_number,
        decreases rows - i,
    {
        let mut row: Vec<u8> = Vec::new();
        let mut j: u8 = 0;
        while j < cols
            invariant
                j <= cols,
                i < rows,
                rows > 0 && cols > 0 ==> max_number > 0,
                row@.len() == j,
                forall|k: int| 0 <= k < j ==> #[trigger] row@[k] < max_number,
            decreases cols - j,
        {
            row.push(random_below(max_number));
            j = j + 1;
        }
        numbers.push(row);
        i = i + 1;
    }
    numbers
}

} // verus!
