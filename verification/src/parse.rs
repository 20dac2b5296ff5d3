//! Reading a value: an optional minus sign, one or two digits, a point, one
//! digit and a line feed.

use crate::chunk::LINE_FEED;
use vstd::prelude::*;

verus! {

/// The byte of the minus sign.
pub const MINUS: u8 = 45;

/// The byte of the decimal point.
pub const POINT: u8 = 46;

/// The byte of the digit zero.
pub const ZERO: u8 = 48;

/// Whether `b` is the byte of a decimal digit.
pub open spec fn is_digit(b: u8) -> bool {
    ZERO <= b <= ZERO + 9
}

/// The number that the digit `b` stands for.
pub open spec fn digit(b: u8) -> int {
    b - ZERO
}

/// The value without its sign that `image` begins with, in tenths, and the
/// number of bytes it takes, line feed included; `None` where `image` does
/// not begin with one or two digits, a point, a digit and a line feed.
pub open spec fn magnitude(image: Seq<u8>) -> Option<(int, int)> {
    if image.len() >= 4 && is_digit(image[0]) && image[1] == POINT && is_digit(image[2])
        && image[3] == LINE_FEED {
        Some((10 * digit(image[0]) + digit(image[2]), 4))
    } else if image.len() >= 5 && is_digit(image[0]) && is_digit(image[1]) && image[2] == POINT
        && is_digit(image[3]) && image[4] == LINE_FEED {
        Some((100 * digit(image[0]) + 10 * digit(image[1]) + digit(image[3]), 5))
    } else {
        None
    }
}

/// The value that `image` begins with, in tenths, and the number of bytes
/// it takes, line feed included; `None` where `image` does not begin with a
/// value.
pub open spec fn reading(image: Seq<u8>) -> Option<(int, int)> {
    if image.len() > 0 && image[0] == MINUS {
        match magnitude(image.skip(1)) {
            Some((tenths, taken)) => Some((-tenths, taken + 1)),
            None => None,
        }
    } else {
        magnitude(image)
    }
}

/// A value is between -99.9 and 99.9 and takes four to six bytes, of which
/// the last is a line feed and no other is.
pub proof fn lemma_reading_bounds(image: Seq<u8>)
    requires
        reading(image) is Some,
    ensures
        -999 <= reading(image).unwrap().0 <= 999,
        4 <= reading(image).unwrap().1 <= 6,
        reading(image).unwrap().1 <= image.len(),
        image[reading(image).unwrap().1 - 1] == LINE_FEED,
        forall|i: int| 0 <= i < reading(image).unwrap().1 - 1 ==> image[i] != LINE_FEED,
{
    if image[0] == MINUS {
        let body = image.skip(1);
        assert forall|i: int| 1 <= i < reading(image).unwrap().1 - 1 implies image[i]
            != LINE_FEED by {
            assert(image[i] == body[i - 1]);
        }
    }
}

fn is_digit_byte(b: u8) -> (r: bool)
    ensures
        r == is_digit(b),
{
    ZERO <= b && b <= ZERO + 9
}

/// Reads the value at the start of `image`. Returns it in tenths, with what
/// follows its line feed, or `None` where `image` does not begin with a
/// value.
pub fn parse_temperature<'a>(image: &'a [u8]) -> (r: Option<(i32, &'a [u8])>)
    ensures
        match r {
            Some((tenths, remains)) => {
                &&& reading(image@) is Some
                &&& tenths == reading(image@).unwrap().0
                &&& remains@ == image@.skip(reading(image@).unwrap().1)
            },
            None => reading(image@) is None,
        },
{
    let len = image.len();
    let neg = len > 0 && image[0] == MINUS;
    let index: usize = if neg {
        1
    } else {
        0
    };
    let ghost body = image@.skip(index as int);
    if len < index + 4 || !is_digit_byte(image[index]) {
        return None;
    }
    assert(body[0] == image@[index as int]);
    assert(body[1] == image@[index + 1]);
    assert(body[2] == image@[index + 2]);
    assert(body[3] == image@[index + 3]);
    let first = (image[index] - ZERO) as i32;
    let (tenths, taken): (i32, usize) = if image[index + 1] == POINT {
        if !is_digit_byte(image[index + 2]) || image[index + 3] != LINE_FEED {
            return None;
        }
        (10 * first + (image[index + 2] - ZERO) as i32, index + 4)
    } else {
        if len < index + 5 {
            return None;
        }
        assert(body[4] == image@[index + 4]);
        if !is_digit_byte(image[index + 1]) || image[index + 2] != POINT || !is_digit_byte(
            image[index + 3],
        ) || image[index + 4] != LINE_FEED {
            return None;
        }
        (
            100 * first + 10 * (image[index + 1] - ZERO) as i32 + (image[index + 3] - ZERO) as i32,
            index + 5,
        )
    };
    let remains = &image[taken..len];
    if neg {
        Some((-tenths, remains))
    } else {
        Some((tenths, remains))
    }
}

} // verus!
