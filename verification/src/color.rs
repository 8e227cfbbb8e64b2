//! RGB colors and the integer distance metric used by the palette index.

use vstd::prelude::*;

use crate::errors::Error;

verus! {

use vstd::string::StringSliceAdditionalSpecFns;

/// A color with three 8-bit channels: red, green, blue.
#[derive(Debug, Clone, Copy, PartialEq, Eq)]
pub struct RGB {
    pub vals: [u8; 3],
}

/// The value of channel `dimension` of `c`, as a mathematical integer.
pub open spec fn channel_val(c: RGB, dimension: int) -> int {
    c.vals[dimension] as int
}

/// Squared Euclidean distance between two colors in RGB space.
pub open spec fn spec_dist2(a: RGB, b: RGB) -> int {
    (channel_val(a, 0) - channel_val(b, 0)) * (channel_val(a, 0) - channel_val(b, 0))
        + (channel_val(a, 1) - channel_val(b, 1)) * (channel_val(a, 1) - channel_val(b, 1))
        + (channel_val(a, 2) - channel_val(b, 2)) * (channel_val(a, 2) - channel_val(b, 2))
}

impl RGB {
    pub fn r(&self) -> (v: u8)
        ensures
            v as int == channel_val(*self, 0),
    {
        self.vals[0]
    }

    pub fn g(&self) -> (v: u8)
        ensures
            v as int == channel_val(*self, 1),
    {
        self.vals[1]
    }

    pub fn b(&self) -> (v: u8)
        ensures
            v as int == channel_val(*self, 2),
    {
        self.vals[2]
    }

    /// Channel lookup by dimension index, used when cycling through the
    /// split dimensions of the palette index.
    pub fn get_val(&self, dimension: u8) -> (v: u8)
        requires
            dimension < 3,
        ensures
            v as int == channel_val(*self, dimension as int),
    {
        self.vals[dimension as usize]
    }

    /// Squared distance to `other`; at most `3 * 255 * 255`.
    pub fn dist2(&self, other: &RGB) -> (d: u64)
        ensures
            d as int == spec_dist2(*self, *other),
            d <= 195075,
    {
        let dr = self.vals[0] as i64 - other.vals[0] as i64;
        let dg = self.vals[1] as i64 - other.vals[1] as i64;
        let db = self.vals[2] as i64 - other.vals[2] as i64;
        assert(0 <= dr * dr <= 65025 && 0 <= dg * dg <= 65025 && 0 <= db * db <= 65025)
            by (nonlinear_arith)
            requires
                -255 <= dr <= 255,
                -255 <= dg <= 255,
                -255 <= db <= 255,
        ;
        (dr * dr + dg * dg + db * db) as u64
    }
}

/// Whether the byte is an ASCII hex digit.
pub open spec fn spec_is_hex_digit(b: u8) -> bool {
    (48 <= b <= 57) || (97 <= b <= 102) || (65 <= b <= 70)
}

/// The value of an ASCII hex digit.
pub open spec fn spec_hex_val(b: u8) -> int {
    if 48 <= b <= 57 {
        b - 48
    } else if 97 <= b <= 102 {
        b - 87
    } else {
        b - 55
    }
}

/// The bytes of a color string with every leading hash mark removed.
pub open spec fn skip_hashes(s: Seq<u8>) -> Seq<u8>
    decreases s.len(),
{
    if s.len() > 0 && s[0] == 35 {
        skip_hashes(s.drop_first())
    } else {
        s
    }
}

/// Whether the bytes spell a color: exactly six hex digits.
pub open spec fn spec_hex_color(t: Seq<u8>) -> bool {
    &&& t.len() == 6
    &&& forall|m: int| 0 <= m < 6 ==> spec_is_hex_digit(#[trigger] t[m])
}

/// The value of a hex digit, or `None` for any other byte.
fn hex_digit_val(b: u8) -> (r: Option<u8>)
    ensures
        match r {
            Some(v) => spec_is_hex_digit(b) && v == spec_hex_val(b) && v < 16,
            None => !spec_is_hex_digit(b),
        },
{
    if 48 <= b && b <= 57 {
        Some(b - 48)
    } else if 97 <= b && b <= 102 {
        Some(b - 87)
    } else if 65 <= b && b <= 70 {
        Some(b - 55)
    } else {
        None
    }
}

impl RGB {
    /// Parses a color written as six hex digits, two per channel, after
    /// any number of leading hash marks.
    pub fn from_hex_str(s: &str) -> (r: Result<RGB, Error>)
        ensures
            match r {
                Ok(c) => {
                    let t = skip_hashes(s.spec_bytes());
                    &&& spec_hex_color(t)
                    &&& channel_val(c, 0) == 16 * spec_hex_val(t[0]) + spec_hex_val(t[1])
                    &&& channel_val(c, 1) == 16 * spec_hex_val(t[2]) + spec_hex_val(t[3])
                    &&& channel_val(c, 2) == 16 * spec_hex_val(t[4]) + spec_hex_val(t[5])
                },
                Err(e) => !spec_hex_color(skip_hashes(s.spec_bytes()))
                    && e == Error::InvalidColor,
            },
    {
        let bytes = s.as_bytes();
        let ghost sbytes = s.spec_bytes();
        proof {
            assert(sbytes.subrange(0, sbytes.len() as int) =~= sbytes);
        }
        let mut start: usize = 0;
        while start < bytes.len() && bytes[start] == 35
            invariant
                start <= bytes@.len(),
                bytes@ == sbytes,
                skip_hashes(sbytes) == skip_hashes(
                    sbytes.subrange(start as int, sbytes.len() as int),
                ),
            decreases bytes@.len() - start,
        {
            proof {
                let sub0 = sbytes.subrange(start as int, sbytes.len() as int);
                let sub1 = sbytes.subrange(start + 1, sbytes.len() as int);
                assert(sub0.drop_first() =~= sub1);
            }
            start = start + 1;
        }
        let ghost t = skip_hashes(sbytes);
        proof {
            assert(t =~= sbytes.subrange(start as int, sbytes.len() as int));
        }
        if bytes.len() - start != 6 {
            return Err(Error::InvalidColor);
        }
        let h0 = hex_digit_val(bytes[start]);
        let h1 = hex_digit_val(bytes[start + 1]);
        let h2 = hex_digit_val(bytes[start + 2]);
        let h3 = hex_digit_val(bytes[start + 3]);
        let h4 = hex_digit_val(bytes[start + 4]);
        let h5 = hex_digit_val(bytes[start + 5]);
        proof {
            assert(t.len() == 6);
            assert(t[0] == sbytes[start as int]);
            assert(t[1] == sbytes[start + 1]);
            assert(t[2] == sbytes[start + 2]);
            assert(t[3] == sbytes[start + 3]);
            assert(t[4] == sbytes[start + 4]);
            assert(t[5] == sbytes[start + 5]);
        }
        match (h0, h1, h2, h3, h4, h5) {
            (Some(a0), Some(a1), Some(a2), Some(a3), Some(a4), Some(a5)) => {
                proof {
                    assert forall|m: int| 0 <= m < 6 implies spec_is_hex_digit(
                        #[trigger] t[m],
                    ) by {
                        assert(t[m] == sbytes[start + m]);
                    }
                }
                Ok(RGB { vals: [16 * a0 + a1, 16 * a2 + a3, 16 * a4 + a5] })
            },
            _ => Err(Error::InvalidColor),
        }
    }
}

impl core::str::FromStr for RGB {
    type Err = Error;

    fn from_str(s: &str) -> Result<RGB, Error> {
        RGB::from_hex_str(s)
    }
}

/// The squared distance between two colors is never below the squared
/// difference in any single channel.
pub proof fn lemma_dist2_dominates_channel(a: RGB, b: RGB, dimension: int)
    requires
        0 <= dimension < 3,
    ensures
        spec_dist2(a, b) >= (channel_val(a, dimension) - channel_val(b, dimension))
            * (channel_val(a, dimension) - channel_val(b, dimension)),
{
    let d0 = channel_val(a, 0) - channel_val(b, 0);
    let d1 = channel_val(a, 1) - channel_val(b, 1);
    let d2 = channel_val(a, 2) - channel_val(b, 2);
    assert(d0 * d0 >= 0 && d1 * d1 >= 0 && d2 * d2 >= 0) by (nonlinear_arith);
}

} // verus!
