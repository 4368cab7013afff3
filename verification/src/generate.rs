//! Maps of random weights, of a size given as `WxH`.

use crate::grid::Grid;
use crate::text::{digits_number, find_byte, parse_digits};
use rand::rngs::ThreadRng;
use rand::Rng;
use vstd::prelude::*;
use vstd::slice::slice_subrange;

verus! {

/// The smallest weight of a generated tile.
pub const MIN_WEIGHT: u32 = 1;

/// The largest weight of a generated tile.
pub const MAX_WEIGHT: u32 = 9;

/// `rand::rngs::ThreadRng`, the handle of a thread's random number
/// generator.
#[verifier::external_type_specification]
#[verifier::external_body]
pub struct ExThreadRng(ThreadRng);

/// Why a text is not a size.
#[derive(Clone, Copy, Debug, PartialEq, Eq, Structural)]
pub enum SizeError {
    /// The text does not hold exactly one `x`.
    Format,
    /// What stands before the `x` is not a number in decimal digits that
    /// fits the machine.
    Width,
    /// What stands after the `x` is not such a number.
    Height,
}

/// The size that a text denotes: decimal digits, an `x`, decimal digits.
pub open spec fn size_of(text: Seq<u8>) -> Result<(usize, usize), SizeError> {
    let at = find_byte(text, 0x78, 0);
    if at >= text.len() || find_byte(text, 0x78, at + 1) < text.len() {
        Err(SizeError::Format)
    } else {
        match digits_number(text.subrange(0, at), usize::MAX as u64) {
            None => Err(SizeError::Width),
            Some(width) => match digits_number(
                text.subrange(at + 1, text.len() as int),
                usize::MAX as u64,
            ) {
                None => Err(SizeError::Height),
                Some(height) => Ok((width as usize, height as usize)),
            },
        }
    }
}

impl Grid {
    /// Every weight of the grid lies between `low` and `high`.
    pub open spec fn weights_within(&self, low: u32, high: u32) -> bool {
        forall|row: int, col: int|
            0 <= row < self@.len() && 0 <= col < self@[row].len() ==> low
                <= #[trigger] self@[row][col] <= high
    }
}

/// `rand::thread_rng`: the handle of the calling thread's random number
/// generator. Nothing is claimed of it. The crate lets it fail only where the
/// system has no source of randomness to seed it from.
#[verifier::external_body]
fn thread_generator() -> ThreadRng {
    rand::thread_rng()
}

/// `rand::Rng::gen_range` with an inclusive range. It panics on an empty
/// range, which `low <= high` rules out, and returns a value of the range;
/// which one is left open.
#[verifier::external_body]
fn sample_between(generator: &mut ThreadRng, low: u32, high: u32) -> (value: u32)
    requires
        low <= high,
    ensures
        low <= value <= high,
{
    generator.gen_range(low..=high)
}

/// The first place at or after `from` where `text` holds `b`, or its length.
fn find(text: &[u8], b: u8, from: usize) -> (at: usize)
    requires
        from <= text@.len(),
    ensures
        at == find_byte(text@, b, from as int),
        from <= at <= text@.len(),
{
    let mut at: usize = from;
    while at < text.len() && text[at] != b
        invariant
            from <= at <= text@.len(),
            find_byte(text@, b, from as int) == find_byte(text@, b, at as int),
        decreases text@.len() - at,
    {
        at = at + 1;
    }
    at
}

/// Reads a size written as `WxH`.
pub fn parse_size(text: &[u8]) -> (parsed: Result<(usize, usize), SizeError>)
    ensures
        parsed == size_of(text@),
{
    let at = find(text, 0x78, 0);
    if at >= text.len() {
        return Err(SizeError::Format);
    }
    if find(text, 0x78, at + 1) < text.len() {
        return Err(SizeError::Format);
    }
    let width: u64 = match parse_digits(slice_subrange(text, 0, at), usize::MAX as u64) {
        Some(n) => n,
        None => {
            return Err(SizeError::Width);
        },
    };
    let height: u64 = match parse_digits(
        slice_subrange(text, at + 1, text.len()),
        usize::MAX as u64,
    ) {
        Some(n) => n,
        None => {
            return Err(SizeError::Height);
        },
    };
    Ok((width as usize, height as usize))
}

/// Builds a grid of the given size whose weights are drawn at random from
/// `MIN_WEIGHT..=MAX_WEIGHT`.
pub fn generate_grid(width: usize, height: usize) -> (grid: Grid)
    ensures
        grid.width == width,
        grid.height == height,
        grid.rectangular(),
        grid.weights_within(MIN_WEIGHT, MAX_WEIGHT),
        width >= 1 && height >= 1 ==> grid.wf(),
{
    let mut generator = thread_generator();
    let mut tiles: Vec<Vec<u32>> = Vec::new();
    let mut r: usize = 0;
    while r < height
        invariant
            r <= height,
            tiles@.len() == r,
            forall|i: int| 0 <= i < r ==> (#[trigger] tiles@[i])@.len() == width,
            forall|i: int, j: int|
                0 <= i < r && 0 <= j < width ==> MIN_WEIGHT <= #[trigger] tiles@[i]@[j]
                    <= MAX_WEIGHT,
        decreases height - r,
    {
        let mut row: Vec<u32> = Vec::new();
        let mut c: usize = 0;
        while c < width
            invariant
                c <= width,
                row@.len() == c,
                forall|j: int| 0 <= j < c ==> MIN_WEIGHT <= #[trigger] row@[j] <= MAX_WEIGHT,
            decreases width - c,
        {
            let weight = sample_between(&mut generator, MIN_WEIGHT, MAX_WEIGHT);
            row.push(weight);
            c = c + 1;
        }
        tiles.push(row);
        r = r + 1;
    }
    Grid { width, height, tiles }
}

/// Builds a random grid of the size that `size` denotes.
pub fn generate_map(size: &[u8]) -> (made: Result<Grid, SizeError>)
    ensures
        match made {
            Ok(grid) => {
                &&& size_of(size@) == Ok::<(usize, usize), SizeError>((grid.width, grid.height))
                &&& grid.rectangular()
                &&& grid.weights_within(MIN_WEIGHT, MAX_WEIGHT)
            },
            Err(e) => size_of(size@) == Err::<(usize, usize), SizeError>(e),
        },
{
    match parse_size(size) {
        Ok((width, height)) => Ok(generate_grid(width, height)),
        Err(e) => Err(e),
    }
}

} // verus!
