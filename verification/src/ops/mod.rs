//! Operations on RGBA images held as flat byte buffers, four bytes per
//! pixel, rows stored one after another.
use vstd::prelude::*;

pub mod brit;
pub mod conv;
pub mod crop;
pub mod doub;

verus! {

/// Bytes per pixel: red, green, blue, alpha.
pub const CH_LEN: usize = 4;

/// A convolution kernel with its divisor.
///
/// `K3` and `K5` hold one weight per cell of a 3x3 or 5x5 window and apply it
/// to every channel; `Kc3` and `Kc5` hold one weight per cell and channel
/// (cell-major, four channels per cell).
pub enum Kernel {
    K3([i32; 9], i32),
    K5([i32; 25], i32),
    Kc3([i32; 36], i32),
    Kc5([i32; 100], i32),
}

impl Kernel {
    /// The weights in the order they are stored.
    pub open spec fn weights(&self) -> Seq<i32> {
        match self {
            Kernel::K3(k, _) => k@,
            Kernel::K5(k, _) => k@,
            Kernel::Kc3(k, _) => k@,
            Kernel::Kc5(k, _) => k@,
        }
    }

    /// The number the weighted sum is divided by.
    pub open spec fn divisor(&self) -> i32 {
        match self {
            Kernel::K3(_, d) => *d,
            Kernel::K5(_, d) => *d,
            Kernel::Kc3(_, d) => *d,
            Kernel::Kc5(_, d) => *d,
        }
    }

    /// Whether the kernel holds a weight per channel.
    pub open spec fn per_channel(&self) -> bool {
        match self {
            Kernel::Kc3(..) | Kernel::Kc5(..) => true,
            _ => false,
        }
    }

    /// The side of the square window.
    pub open spec fn side(&self) -> int {
        match self {
            Kernel::K3(..) | Kernel::Kc3(..) => 3,
            _ => 5,
        }
    }

    /// The number of cells in the window.
    pub open spec fn taps(&self) -> int {
        self.side() * self.side()
    }

    /// The weight that cell `j` of the window gives to channel `c`.
    pub open spec fn weight_for(&self, j: int, c: int) -> int {
        if self.per_channel() {
            self.weights()[4 * j + c] as int
        } else {
            self.weights()[j] as int
        }
    }

    /// The side of the square window.
    pub fn side_len(&self) -> (r: usize)
        ensures
            r == self.side(),
    {
        match self {
            Kernel::K3(..) | Kernel::Kc3(..) => 3,
            _ => 5,
        }
    }

    /// The divisor.
    pub fn div(&self) -> (r: i32)
        ensures
            r == self.divisor(),
    {
        match self {
            Kernel::K3(_, d) => *d,
            Kernel::K5(_, d) => *d,
            Kernel::Kc3(_, d) => *d,
            Kernel::Kc5(_, d) => *d,
        }
    }

    /// The weight that cell `j` gives to channel `c`.
    pub fn weight(&self, j: usize, c: usize) -> (r: i32)
        requires
            j < self.taps(),
            c < 4,
        ensures
            r == self.weight_for(j as int, c as int),
    {
        match self {
            Kernel::K3(k, _) => k[j],
            Kernel::K5(k, _) => k[j],
            Kernel::Kc3(k, _) => k[4 * j + c],
            Kernel::Kc5(k, _) => k[4 * j + c],
        }
    }
}

} // verus!
