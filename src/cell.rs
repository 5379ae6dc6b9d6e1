//! The digit that a cell can hold.
use vstd::prelude::*;

verus! {

/// A digit from 1 to 9; an empty cell is `None` of `Option<CellValue>`.
#[derive(Clone, Copy, Debug, PartialEq, Eq, Structural)]
pub enum CellValue {
    One,
    Two,
    Three,
    Four,
    Five,
    Six,
    Seven,
    Eight,
    Nine,
}

impl CellValue {
    /// The digit, 1..=9.
    pub open spec fn digit(self) -> int {
        match self {
            CellValue::One => 1,
            CellValue::Two => 2,
            CellValue::Three => 3,
            CellValue::Four => 4,
            CellValue::Five => 5,
            CellValue::Six => 6,
            CellValue::Seven => 7,
            CellValue::Eight => 8,
            CellValue::Nine => 9,
        }
    }

    /// The digit `n`, or `None` when `n` is 0 or above 9.
    pub fn new(n: u8) -> (r: Option<CellValue>)
        ensures
            r is Some <==> 1 <= n <= 9,
            r matches Some(v) ==> v.digit() == n,
    {
        match n {
            1 => Some(CellValue::One),
            2 => Some(CellValue::Two),
            3 => Some(CellValue::Three),
            4 => Some(CellValue::Four),
            5 => Some(CellValue::Five),
            6 => Some(CellValue::Six),
            7 => Some(CellValue::Seven),
            8 => Some(CellValue::Eight),
            9 => Some(CellValue::Nine),
            _ => None,
        }
    }

    /// The digit as a number.
    pub fn get(self) -> (r: u8)
        ensures
            r == self.digit(),
            1 <= r <= 9,
    {
        match self {
            CellValue::One => 1,
            CellValue::Two => 2,
            CellValue::Three => 3,
            CellValue::Four => 4,
            CellValue::Five => 5,
            CellValue::Six => 6,
            CellValue::Seven => 7,
            CellValue::Eight => 8,
            CellValue::Nine => 9,
        }
    }

    /// Position of the digit in a per-digit table: `digit - 1`.
    pub fn index(self) -> (r: usize)
        ensures
            r == self.digit() - 1,
            r < 9,
    {
        (self.get() - 1) as usize
    }

    /// The digit at position `i` of a per-digit table.
    pub fn from_index(i: usize) -> (r: CellValue)
        requires
            i < 9,
        ensures
            r.digit() == i + 1,
    {
        match CellValue::new((i + 1) as u8) {
            Some(v) => v,
            None => CellValue::One,
        }
    }

    /// The character that shows the digit.
    pub fn to_char(self) -> (r: char)
        ensures
            r == digit_char(self.digit()),
    {
        match self {
            CellValue::One => '1',
            CellValue::Two => '2',
            CellValue::Three => '3',
            CellValue::Four => '4',
            CellValue::Five => '5',
            CellValue::Six => '6',
            CellValue::Seven => '7',
            CellValue::Eight => '8',
            CellValue::Nine => '9',
        }
    }
}

/// The character shown for a cell: its digit, or a blank when empty (0).
pub open spec fn digit_char(d: int) -> char {
    if d == 1 {
        '1'
    } else if d == 2 {
        '2'
    } else if d == 3 {
        '3'
    } else if d == 4 {
        '4'
    } else if d == 5 {
        '5'
    } else if d == 6 {
        '6'
    } else if d == 7 {
        '7'
    } else if d == 8 {
        '8'
    } else if d == 9 {
        '9'
    } else {
        ' '
    }
}

} // verus!
