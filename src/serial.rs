//! Register arithmetic of a 16550-compatible UART.
use vstd::prelude::*;
use vstd::arithmetic::power2::pow2;
use vstd::bits::lemma_u64_shl_is_mul;

verus! {

/// Register offsets, in register units.
pub const UART_RBR: u64 = 0x0;

pub const UART_THR: u64 = 0x0;

pub const UART_IER: u64 = 0x1;

pub const UART_FCR: u64 = 0x2;

pub const UART_LCR: u64 = 0x3;

pub const UART_MCR: u64 = 0x4;

pub const UART_LSR: u64 = 0x5;

pub const UART_DLL: u64 = 0x0;

pub const UART_DLH: u64 = 0x1;

/// Line status: the transmit holding register is empty.
pub const LSR_THRE: u8 = 0x20;

/// Line status: a received byte is ready.
pub const LSR_DR: u8 = 0x1;

/// A UART at `base` whose registers are `1 << shift` bytes apart, clocked at
/// `clk` Hz and run at `baud` bits per second.
#[derive(Clone, Copy, PartialEq, Eq, Structural, Debug)]
pub struct UART16550 {
    pub base: u64,
    pub shift: u64,
    pub clk: u64,
    pub baud: u64,
}

impl UART16550 {
    pub fn new(base: u64, shift: u64, clk: u64, baud: u64) -> (r: UART16550)
        ensures
            r == (UART16550 { base, shift, clk, baud }),
    {
        UART16550 { base, shift, clk, baud }
    }

    /// The address of register `off`: `base + (off << shift)`, when it fits.
    pub fn reg_addr(&self, off: u64) -> (r: Option<u64>)
        requires
            off < 8,
        ensures
            r == if self.shift < 32 && self.base + off * pow2(self.shift as nat) <= u64::MAX {
                Some((self.base + off * pow2(self.shift as nat)) as u64)
            } else {
                None
            },
    {
        if self.shift >= 32 {
            return None;
        }
        proof {
            let p = pow2(self.shift as nat);
            vstd::arithmetic::power2::lemma_pow2_strictly_increases(self.shift as nat, 32);
            vstd::arithmetic::power2::lemma2_to64();
            assert(off * p <= 8 * 0x1_0000_0000) by (nonlinear_arith)
                requires
                    off < 8,
                    p < 0x1_0000_0000,
            ;
            lemma_u64_shl_is_mul(off, self.shift);
        }
        let o = off << self.shift;
        if self.base <= u64::MAX - o {
            Some(self.base + o)
        } else {
            None
        }
    }

    /// The baud-rate divisor `clk / (16 * baud)`; `None` when `baud` is zero
    /// or `16 * baud` overflows.
    pub fn divisor_latch(&self) -> (r: Option<u64>)
        ensures
            r == if self.baud > 0 && 16 * self.baud <= u64::MAX {
                Some((self.clk as int / (16 * self.baud)) as u64)
            } else {
                None
            },
    {
        if self.baud == 0 || self.baud > u64::MAX / 16 {
            return None;
        }
        Some(self.clk / (16 * self.baud))
    }
}

} // verus!
