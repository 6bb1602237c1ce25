//! Register space locator and volatile register accessor.
//!
//! The machine is modelled explicitly by [`Bus`]: the resolved peripheral
//! base address plus the state of the devices that sit behind the register
//! bank. [`write`] and [`read`] are the only operations the rest of the
//! driver uses to touch the machine; their contracts say, offset by offset,
//! what a single-word store or load does to the modelled devices, and that
//! neither touches anything while the base address is still unresolved.

use vstd::prelude::*;

verus! {

/// Offset of the GPIO register bank within the peripheral register space.
pub const GPIO_BASE: usize = 0x200000;

/// Pull-up/down control for all GPIO pins.
pub const GPPUD: usize = GPIO_BASE + 0x94;

/// Pull-up/down clock for individual GPIO pins.
pub const GPPUDCLK0: usize = GPIO_BASE + 0x98;

/// Base offset of the UART register bank.
pub const UART0_BASE: usize = GPIO_BASE + 0x1000;

/// UART data register: writes feed the transmit FIFO, reads drain the
/// receive FIFO.
pub const UART0_DR: usize = UART0_BASE + 0x00;

/// UART flag register, holding the FIFO status bits.
pub const UART0_FR: usize = UART0_BASE + 0x18;

/// UART integer baud rate divisor.
pub const UART0_IBRD: usize = UART0_BASE + 0x24;

/// UART fractional baud rate divisor.
pub const UART0_FBRD: usize = UART0_BASE + 0x28;

/// UART line control register.
pub const UART0_LCRH: usize = UART0_BASE + 0x2C;

/// UART control register.
pub const UART0_CR: usize = UART0_BASE + 0x30;

/// UART interrupt mask register.
pub const UART0_IMSC: usize = UART0_BASE + 0x38;

/// UART interrupt clear register.
pub const UART0_ICR: usize = UART0_BASE + 0x44;

/// Base offset of the co-processor mailbox register bank.
pub const MBOX_BASE: usize = 0xB880;

/// Mailbox read register: reads return the reply word.
pub const MBOX_READ: usize = MBOX_BASE + 0x00;

/// Mailbox status register, holding the full/empty flags.
pub const MBOX_STATUS: usize = MBOX_BASE + 0x18;

/// Mailbox write register: writes post a request word.
pub const MBOX_WRITE: usize = MBOX_BASE + 0x20;

/// Flag register bit: transmit FIFO full.
pub const FR_TXFF: u32 = 0x20;

/// Flag register bit: receive FIFO empty.
pub const FR_RXFE: u32 = 0x10;

/// Mailbox status bit: mailbox full, no request can be posted.
pub const MBOX_FULL: u32 = 0x80000000;

/// Mailbox status bit: mailbox empty, no reply is waiting.
pub const MBOX_EMPTY: u32 = 0x40000000;

/// The machine as the driver sees it: the resolved register base address and
/// a model of the devices behind the register bank.
///
/// The model stands in for real hardware so that the register protocol can be
/// verified and exercised: bytes queued in `rx` are what the receive FIFO will
/// deliver, `tx` accumulates everything pushed into the transmit FIFO, the
/// configuration registers latch the last word stored to them, and the
/// mailbox echoes the last posted request word back as its reply, which is
/// exactly the successful handshake of the clock negotiation protocol.
pub struct Bus {
    /// Resolved peripheral base address; zero until the locator has run.
    pub base: usize,
    /// Bytes the receive FIFO has yet to deliver, front first.
    pub rx: Vec<u8>,
    /// Bytes pushed into the transmit FIFO so far, in order.
    pub tx: Vec<u8>,
    /// UART control register.
    pub cr: u32,
    /// UART integer baud rate divisor.
    pub ibrd: u32,
    /// UART fractional baud rate divisor.
    pub fbrd: u32,
    /// UART line control register.
    pub lcrh: u32,
    /// UART interrupt mask register.
    pub imsc: u32,
    /// UART interrupt clear register.
    pub icr: u32,
    /// GPIO pull-up/down control register.
    pub gppud: u32,
    /// GPIO pull-up/down clock register.
    pub gppudclk0: u32,
    /// Last request word posted to the mailbox write register.
    pub mbox_last: u32,
    /// Ordered trace of every register store performed, as (offset, value).
    pub writes: Ghost<Seq<(usize, u32)>>,
    /// Elapsed busy-wait time, in delay-loop iterations.
    pub ticks: Ghost<nat>,
}

/// The configuration registers and the mailbox hold the same values in `a`
/// and `b`.
pub open spec fn cfg_eq(a: Bus, b: Bus) -> bool {
    &&& a.cr == b.cr
    &&& a.ibrd == b.ibrd
    &&& a.fbrd == b.fbrd
    &&& a.lcrh == b.lcrh
    &&& a.imsc == b.imsc
    &&& a.icr == b.icr
    &&& a.gppud == b.gppud
    &&& a.gppudclk0 == b.gppudclk0
    &&& a.mbox_last == b.mbox_last
}

/// `a` and `b` agree on every modelled component of the machine.
pub open spec fn bus_eq(a: Bus, b: Bus) -> bool {
    &&& cfg_eq(a, b)
    &&& a.base == b.base
    &&& a.rx@ == b.rx@
    &&& a.tx@ == b.tx@
    &&& a.writes@ == b.writes@
    &&& a.ticks@ == b.ticks@
}

impl Bus {
    /// A power-on machine: no base address resolved, devices quiet, and
    /// `input` queued as the bytes the receive FIFO will deliver.
    pub fn new(input: Vec<u8>) -> (b: Bus)
        ensures
            b.base == 0,
            b.rx@ == input@,
            b.tx@ == Seq::<u8>::empty(),
            b.cr == 0,
            b.ibrd == 0,
            b.fbrd == 0,
            b.lcrh == 0,
            b.imsc == 0,
            b.icr == 0,
            b.gppud == 0,
            b.gppudclk0 == 0,
            b.mbox_last == 0,
            b.writes@ == Seq::<(usize, u32)>::empty(),
            b.ticks@ == 0,
    {
        Bus {
            base: 0,
            rx: input,
            tx: Vec::new(),
            cr: 0,
            ibrd: 0,
            fbrd: 0,
            lcrh: 0,
            imsc: 0,
            icr: 0,
            gppud: 0,
            gppudclk0: 0,
            mbox_last: 0,
            writes: Ghost(Seq::empty()),
            ticks: Ghost(0),
        }
    }
}

/// A platform identifier the locator recognizes.
pub open spec fn recognized(raspi: u32) -> bool {
    raspi == 2 || raspi == 3 || raspi == 4
}

/// The base address the locator resolves for a platform identifier; every
/// unrecognized identifier falls back to the oldest-generation base.
pub open spec fn base_of(raspi: u32) -> usize {
    if raspi == 2 || raspi == 3 {
        0x3F000000
    } else if raspi == 4 {
        0xFE000000
    } else {
        0x20000000
    }
}

/// Fallback determinism of the register space locator: all platform
/// identifiers outside the recognized set resolve to one and the same
/// oldest-generation base address.
pub proof fn lemma_locator_fallback(a: u32, b: u32)
    requires
        !recognized(a),
        !recognized(b),
    ensures
        base_of(a) == base_of(b),
        base_of(a) == 0x20000000,
{
}

/// Resolve the peripheral register base address from the platform
/// identifier and store it. Calling it again overwrites the stored address;
/// nothing else on the machine is touched.
pub fn init(bus: &mut Bus, raspi: u32)
    ensures
        final(bus).base == base_of(raspi),
        cfg_eq(*old(bus), *final(bus)),
        final(bus).rx@ == old(bus).rx@,
        final(bus).tx@ == old(bus).tx@,
        final(bus).writes@ == old(bus).writes@,
        final(bus).ticks@ == old(bus).ticks@,
{
    match raspi {
        2 | 3 => {
            bus.base = 0x3F000000;
        }
        4 => {
            bus.base = 0xFE000000;
        }
        _ => {
            bus.base = 0x20000000;
        }
    }
}

/// One single-word store at offset `reg` relative to the stored base.
///
/// While the base address is still zero the store is a silent no-op: the
/// machine is left untouched and nothing is recorded in the write trace.
/// Otherwise the store is recorded and the addressed device reacts: a store
/// to the UART data register pushes the low byte into the transmit stream, a
/// store to a configuration register latches the value, and a store to the
/// mailbox write register posts the request word.
pub fn write(bus: &mut Bus, reg: usize, data: u32)
    ensures
        final(bus).base == old(bus).base,
        final(bus).rx@ == old(bus).rx@,
        final(bus).ticks@ == old(bus).ticks@,
        old(bus).base == 0 ==> bus_eq(*old(bus), *final(bus)),
        old(bus).base != 0 ==> final(bus).writes@ == old(bus).writes@.push((reg, data)),
        old(bus).base != 0 ==> final(bus).tx@ == (if reg == UART0_DR {
            old(bus).tx@.push(data as u8)
        } else {
            old(bus).tx@
        }),
        old(bus).base != 0 ==> final(bus).cr == (if reg == UART0_CR {
            data
        } else {
            old(bus).cr
        }),
        old(bus).base != 0 ==> final(bus).ibrd == (if reg == UART0_IBRD {
            data
        } else {
            old(bus).ibrd
        }),
        old(bus).base != 0 ==> final(bus).fbrd == (if reg == UART0_FBRD {
            data
        } else {
            old(bus).fbrd
        }),
        old(bus).base != 0 ==> final(bus).lcrh == (if reg == UART0_LCRH {
            data
        } else {
            old(bus).lcrh
        }),
        old(bus).base != 0 ==> final(bus).imsc == (if reg == UART0_IMSC {
            data
        } else {
            old(bus).imsc
        }),
        old(bus).base != 0 ==> final(bus).icr == (if reg == UART0_ICR {
            data
        } else {
            old(bus).icr
        }),
        old(bus).base != 0 ==> final(bus).gppud == (if reg == GPPUD {
            data
        } else {
            old(bus).gppud
        }),
        old(bus).base != 0 ==> final(bus).gppudclk0 == (if reg == GPPUDCLK0 {
            data
        } else {
            old(bus).gppudclk0
        }),
        old(bus).base != 0 ==> final(bus).mbox_last == (if reg == MBOX_WRITE {
            data
        } else {
            old(bus).mbox_last
        }),
{
    if bus.base == 0 {
        return;
    }
    let ghost w = bus.writes@.push((reg, data));
    bus.writes = Ghost(w);
    if reg == UART0_DR {
        bus.tx.push(#[verifier::truncate] (data as u8));
    } else if reg == UART0_CR {
        bus.cr = data;
    } else if reg == UART0_IBRD {
        bus.ibrd = data;
    } else if reg == UART0_FBRD {
        bus.fbrd = data;
    } else if reg == UART0_LCRH {
        bus.lcrh = data;
    } else if reg == UART0_IMSC {
        bus.imsc = data;
    } else if reg == UART0_ICR {
        bus.icr = data;
    } else if reg == GPPUD {
        bus.gppud = data;
    } else if reg == GPPUDCLK0 {
        bus.gppudclk0 = data;
    } else if reg == MBOX_WRITE {
        bus.mbox_last = data;
    }
}

/// One single-word load at offset `reg` relative to the stored base.
///
/// While the base address is still zero the load touches nothing and returns
/// zero. Otherwise the addressed device answers: the UART data register
/// delivers (and consumes) the next receive byte, the flag register reports
/// the FIFO status, the mailbox status register reports neither full nor
/// empty, and the mailbox read register echoes the last posted request word.
/// Loads at unmodelled offsets return zero.
pub fn read(bus: &mut Bus, reg: usize) -> (r: u32)
    ensures
        final(bus).base == old(bus).base,
        final(bus).tx@ == old(bus).tx@,
        final(bus).writes@ == old(bus).writes@,
        final(bus).ticks@ == old(bus).ticks@,
        cfg_eq(*old(bus), *final(bus)),
        old(bus).base == 0 ==> r == 0 && final(bus).rx@ == old(bus).rx@,
        old(bus).base != 0 && reg == UART0_DR && old(bus).rx@.len() > 0 ==> r == old(
            bus,
        ).rx@[0] as u32 && final(bus).rx@ == old(bus).rx@.drop_first(),
        old(bus).base != 0 && !(reg == UART0_DR && old(bus).rx@.len() > 0) ==> final(bus).rx@ == old(
            bus,
        ).rx@,
        old(bus).base != 0 && reg == UART0_DR && old(bus).rx@.len() == 0 ==> r == 0,
        old(bus).base != 0 && reg == UART0_FR ==> r == (if old(bus).rx@.len() == 0 {
            FR_RXFE
        } else {
            0u32
        }),
        old(bus).base != 0 && reg == MBOX_STATUS ==> r == 0,
        old(bus).base != 0 && reg == MBOX_READ ==> r == old(bus).mbox_last,
        old(bus).base != 0 && reg != UART0_DR && reg != UART0_FR && reg != MBOX_STATUS && reg
            != MBOX_READ ==> r == 0,
{
    if bus.base == 0 {
        return 0;
    }
    if reg == UART0_DR {
        if bus.rx.len() > 0 {
            let b = bus.rx.remove(0);
            proof {
                assert(old(bus).rx@.remove(0) =~= old(bus).rx@.drop_first());
            }
            b as u32
        } else {
            0
        }
    } else if reg == UART0_FR {
        if bus.rx.len() == 0 {
            FR_RXFE
        } else {
            0
        }
    } else if reg == MBOX_STATUS {
        0
    } else if reg == MBOX_READ {
        bus.mbox_last
    } else {
        0
    }
}

} // verus!
