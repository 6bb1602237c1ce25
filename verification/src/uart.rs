//! UART driver: register sequencing for bring-up, the co-processor mailbox
//! handshake that fixes the peripheral clock, and byte- and line-level I/O
//! over the initialized serial link.
//!
//! Every hardware access goes through [`crate::mmio`], so each function's
//! contract states exactly which registers it touches, in what order, and
//! what crosses the serial line.

use vstd::prelude::*;

use crate::mmio;
use crate::mmio::Bus;
use crate::mmio::bus_eq;
use crate::mmio::cfg_eq;
use crate::mmio::base_of;
use crate::mmio::GPPUD;
use crate::mmio::GPPUDCLK0;
use crate::mmio::MBOX_EMPTY;
use crate::mmio::MBOX_FULL;
use crate::mmio::MBOX_READ;
use crate::mmio::MBOX_STATUS;
use crate::mmio::MBOX_WRITE;
use crate::mmio::FR_RXFE;
use crate::mmio::FR_TXFF;
use crate::mmio::UART0_CR;
use crate::mmio::UART0_DR;
use crate::mmio::UART0_FBRD;
use crate::mmio::UART0_FR;
use crate::mmio::UART0_IBRD;
use crate::mmio::UART0_ICR;
use crate::mmio::UART0_IMSC;
use crate::mmio::UART0_LCRH;

verus! {

/// GPPUDCLK0 bits asserting the pull clock on the two UART pins, 14 and 15.
pub const PINS_14_15: u32 = 0xC000;

/// Every UART interrupt-clear bit.
pub const ICR_ALL: u32 = 0x7FF;

/// Line control: enable the FIFOs and 8-bit words (bits 4, 5 and 6); no
/// parity, one stop bit.
pub const LCRH_FIFO_8BIT: u32 = 0x70;

/// Interrupt mask covering every UART interrupt source (bits 1 and 4 to 10):
/// the driver is strictly polled.
pub const IMSC_ALL: u32 = 0x7F2;

/// Control register: UART enable plus transmit and receive path enable
/// (bits 0, 8 and 9).
pub const CR_ENABLE: u32 = 0x301;

/// Integer baud rate divisor for 115200 baud at the fixed 3 MHz clock.
pub const IBRD_115200: u32 = 1;

/// Fractional baud rate divisor for 115200 baud at the fixed 3 MHz clock.
pub const FBRD_115200: u32 = 40;

/// The mailbox channel for property requests to the co-processor.
pub const MBOX_CHANNEL: u32 = 8;

/// Model address of the statically allocated mailbox message buffer. The
/// buffer is 16-byte aligned, so the low four bits are zero.
pub const MBOX_MSG_ADDR: u32 = 0x80000;

/// The fixed clock-rate request exchanged with the co-processor: a 36-byte
/// message asking it to set the UART reference clock (clock id 2) to 3 MHz.
pub open spec fn mbox_message_spec() -> Seq<u32> {
    seq![36u32, 0u32, 0x38002u32, 12u32, 8u32, 2u32, 3000000u32, 0u32, 0u32]
}

/// The mailbox message as a buffer, for an embedding that places it in real
/// memory. Request and expected echo are identical; it is never mutated.
pub fn mbox_message() -> (m: [u32; 9])
    ensures
        m@ == mbox_message_spec(),
{
    let m: [u32; 9] = [36, 0, 0x38002, 12, 8, 2, 3000000, 0, 0];
    proof {
        assert(m@ =~= mbox_message_spec());
    }
    m
}

/// The request word posted to the mailbox: the message buffer's address with
/// its low four bits cleared, then OR'd with the channel number.
pub open spec fn request_word(addr: u32) -> u32 {
    (addr & !0xFu32) | MBOX_CHANNEL
}

/// Alignment precondition of the mailbox protocol: once the low four bits of
/// the buffer address are cleared they are zero, whatever the address was, so
/// the low four bits of the request word are exactly the channel tag that is
/// OR'd in.
pub proof fn lemma_mbox_request_alignment(addr: u32)
    ensures
        (addr & !0xFu32) & 0xF == 0,
        ((addr & !0xFu32) | 8u32) & 0xF == 8,
{
    assert((addr & !0xFu32) & 0xF == 0) by (bit_vector);
    assert(((addr & !0xFu32) | 8u32) & 0xF == 8) by (bit_vector);
}

/// Compute the request word for the mailbox exchange.
pub fn mbox_request_word(addr: u32) -> (r: u32)
    ensures
        r == request_word(addr),
        r & 0xF == MBOX_CHANNEL,
{
    proof {
        lemma_mbox_request_alignment(addr);
    }
    (addr & !0xF) | MBOX_CHANNEL
}

/// Busy-wait for about `count` iterations of processor time, with no effect
/// besides elapsed time: the model advances the tick counter and touches
/// nothing else. A hardware embedding spins `count` times behind an
/// optimizer barrier so the loop cannot be compiled away.
pub fn delay(bus: &mut Bus, count: usize)
    ensures
        final(bus).ticks@ == old(bus).ticks@ + count as nat,
        final(bus).base == old(bus).base,
        final(bus).rx@ == old(bus).rx@,
        final(bus).tx@ == old(bus).tx@,
        final(bus).writes@ == old(bus).writes@,
        cfg_eq(*old(bus), *final(bus)),
{
    let ghost t = bus.ticks@ + count as nat;
    bus.ticks = Ghost(t);
}

/// The exact ordered sequence of register stores that one call of [`init`]
/// performs: disable the UART, latch the no-pull configuration onto the GPIO
/// pins, clear pending interrupts, negotiate the clock over the mailbox on
/// platform generation 3 and later, program the baud divisors, set the line
/// format, mask all interrupts, and finally enable the UART.
pub open spec fn init_writes(raspi: u32) -> Seq<(usize, u32)> {
    seq![
        (UART0_CR, 0u32),
        (GPPUD, 0u32),
        (GPPUDCLK0, PINS_14_15),
        (GPPUDCLK0, 0u32),
        (UART0_ICR, ICR_ALL),
    ] + (if raspi >= 3 {
        seq![(MBOX_WRITE, request_word(MBOX_MSG_ADDR))]
    } else {
        Seq::empty()
    }) + seq![
        (UART0_IBRD, IBRD_115200),
        (UART0_FBRD, FBRD_115200),
        (UART0_LCRH, LCRH_FIFO_8BIT),
        (UART0_IMSC, IMSC_ALL),
        (UART0_CR, CR_ENABLE),
    ]
}

/// Bring the serial line up: resolve the register base for the platform and
/// run the full initialization sequence, leaving the UART in its ready state.
///
/// The contract pins down the whole transition: the stores of
/// [`init_writes`] are performed in exactly that order, the two settle
/// delays elapse, the configuration registers end at their programmed
/// values, and nothing crosses the serial line.
pub fn init(bus: &mut Bus, raspi: u32)
    ensures
        final(bus).base == base_of(raspi),
        final(bus).cr == CR_ENABLE,
        final(bus).gppud == 0,
        final(bus).gppudclk0 == 0,
        final(bus).icr == ICR_ALL,
        final(bus).ibrd == IBRD_115200,
        final(bus).fbrd == FBRD_115200,
        final(bus).lcrh == LCRH_FIFO_8BIT,
        final(bus).imsc == IMSC_ALL,
        final(bus).mbox_last == (if raspi >= 3 {
            request_word(MBOX_MSG_ADDR)
        } else {
            old(bus).mbox_last
        }),
        final(bus).tx@ == old(bus).tx@,
        final(bus).rx@ == old(bus).rx@,
        final(bus).ticks@ == old(bus).ticks@ + 300,
        final(bus).writes@ == old(bus).writes@ + init_writes(raspi),
{
    mmio::init(bus, raspi);
    // Disable the UART while the line is reconfigured.
    mmio::write(bus, UART0_CR, 0);
    // Disable pull up/down for all GPIO pins and wait for the pads to settle.
    mmio::write(bus, GPPUD, 0);
    delay(bus, 150);
    // Assert the pull clock on the two UART pins and wait again.
    mmio::write(bus, GPPUDCLK0, PINS_14_15);
    delay(bus, 150);
    // De-assert the pull clock: the no-pull configuration is now latched.
    mmio::write(bus, GPPUDCLK0, 0);
    // Clear all pending interrupts.
    mmio::write(bus, UART0_ICR, ICR_ALL);
    // On platform generation 3 and later the UART clock source is variable:
    // fix it at 3 MHz over the mailbox so the divisors below are valid.
    if raspi >= 3 {
        let r = mbox_request_word(MBOX_MSG_ADDR);
        let ghost b2 = *bus;
        // Wait until the mailbox can take a request.
        loop
            invariant
                bus_eq(*bus, b2),
                bus.base != 0,
            ensures
                bus_eq(*bus, b2),
            decreases 0int,
        {
            let s = mmio::read(bus, MBOX_STATUS);
            proof {
                assert(0u32 & 0x80000000u32 == 0u32) by (bit_vector);
            }
            if s & MBOX_FULL == 0 {
                break;
            }
            proof {
                // The modelled mailbox is never full, so this spin exits at
                // once; on hardware it would poll until the flag clears.
                assert(false);
            }
        }
        // Post the request, then wait for the identical word to come back on
        // our channel; replies for other requesters are spun past.
        mmio::write(bus, MBOX_WRITE, r);
        let ghost b3 = *bus;
        loop
            invariant
                bus_eq(*bus, b3),
                bus.base != 0,
                bus.mbox_last == r,
            ensures
                bus_eq(*bus, b3),
            decreases 0int,
        {
            let s = mmio::read(bus, MBOX_STATUS);
            proof {
                assert(0u32 & 0x40000000u32 == 0u32) by (bit_vector);
            }
            if s & MBOX_EMPTY == 0 {
                let rr = mmio::read(bus, MBOX_READ);
                if rr == r {
                    break;
                }
            }
            proof {
                // The modelled mailbox echoes the request at once; hardware
                // would spin past replies meant for other requesters.
                assert(false);
            }
        }
    }
    // Program the divisors for 115200 baud at the fixed 3 MHz clock:
    // divider = 3000000 / (16 * 115200) = 1.627, so integer part 1 and
    // fractional register (0.627 * 64) + 0.5 = 40.6, so 40.
    mmio::write(bus, UART0_IBRD, IBRD_115200);
    mmio::write(bus, UART0_FBRD, FBRD_115200);
    // FIFOs on, 8-bit words, no parity, one stop bit.
    mmio::write(bus, UART0_LCRH, LCRH_FIFO_8BIT);
    // Mask every interrupt source: this driver only ever polls.
    mmio::write(bus, UART0_IMSC, IMSC_ALL);
    // Enable the UART and both its receive and transmit paths.
    mmio::write(bus, UART0_CR, CR_ENABLE);
    proof {
        assert(bus.writes@ =~= old(bus).writes@ + init_writes(raspi));
    }
}

/// Send one byte: spin until the transmit FIFO has room, then store the byte
/// into the data register.
pub fn putb(bus: &mut Bus, byte: u8)
    requires
        old(bus).base != 0,
    ensures
        final(bus).tx@ == old(bus).tx@.push(byte),
        final(bus).writes@ == old(bus).writes@.push((UART0_DR, byte as u32)),
        final(bus).rx@ == old(bus).rx@,
        final(bus).base == old(bus).base,
        final(bus).ticks@ == old(bus).ticks@,
        cfg_eq(*old(bus), *final(bus)),
{
    let ghost b0 = *bus;
    loop
        invariant
            bus_eq(*bus, b0),
            bus.base != 0,
        ensures
            bus_eq(*bus, b0),
        decreases 0int,
    {
        let fr = mmio::read(bus, UART0_FR);
        proof {
            assert(0u32 & 0x20u32 == 0u32) by (bit_vector);
            assert(0x10u32 & 0x20u32 == 0u32) by (bit_vector);
        }
        if fr & FR_TXFF == 0 {
            break;
        }
        proof {
            // The modelled transmit FIFO never fills, so this spin exits at
            // once; on hardware it would poll until there is room.
            assert(false);
        }
    }
    mmio::write(bus, UART0_DR, byte as u32);
}

/// Receive one byte: spin until the receive FIFO holds one, then load it
/// from the data register. The model requires a byte to be pending, since
/// real hardware would otherwise block here forever.
pub fn getb(bus: &mut Bus) -> (b: u8)
    requires
        old(bus).base != 0,
        old(bus).rx@.len() > 0,
    ensures
        b == old(bus).rx@[0],
        final(bus).rx@ == old(bus).rx@.drop_first(),
        final(bus).tx@ == old(bus).tx@,
        final(bus).writes@ == old(bus).writes@,
        final(bus).base == old(bus).base,
        final(bus).ticks@ == old(bus).ticks@,
        cfg_eq(*old(bus), *final(bus)),
{
    let ghost b0 = *bus;
    loop
        invariant
            bus_eq(*bus, b0),
            bus.base != 0,
            bus.rx@.len() > 0,
        ensures
            bus_eq(*bus, b0),
        decreases 0int,
    {
        let fr = mmio::read(bus, UART0_FR);
        proof {
            assert(0u32 & 0x10u32 == 0u32) by (bit_vector);
        }
        if fr & FR_RXFE == 0 {
            break;
        }
        proof {
            // A byte is pending, so the receive FIFO is not empty and this
            // spin exits at once; on hardware it would poll for input.
            assert(false);
        }
    }
    let d = mmio::read(bus, UART0_DR);
    #[verifier::truncate] (d as u8)
}

/// The write trace that sending the bytes of `s` leaves behind: one data
/// register store per byte, in order.
pub open spec fn dr_writes(s: Seq<u8>) -> Seq<(usize, u32)> {
    s.map(|i: int, b: u8| (UART0_DR, b as u32))
}

/// Sending a concatenation traces the two parts one after the other.
pub proof fn lemma_dr_writes_concat(a: Seq<u8>, b: Seq<u8>)
    ensures
        dr_writes(a + b) == dr_writes(a) + dr_writes(b),
{
    assert(dr_writes(a + b) =~= dr_writes(a) + dr_writes(b));
}

/// Send every byte of `s` in order; no terminator is added.
pub fn puts(bus: &mut Bus, s: &[u8])
    requires
        old(bus).base != 0,
    ensures
        final(bus).tx@ == old(bus).tx@ + s@,
        final(bus).writes@ == old(bus).writes@ + dr_writes(s@),
        final(bus).rx@ == old(bus).rx@,
        final(bus).base == old(bus).base,
        final(bus).ticks@ == old(bus).ticks@,
        cfg_eq(*old(bus), *final(bus)),
{
    let ghost b0 = *bus;
    let mut i: usize = 0;
    while i < s.len()
        invariant
            i <= s@.len(),
            bus.base == b0.base,
            bus.base != 0,
            bus.rx@ == b0.rx@,
            bus.ticks@ == b0.ticks@,
            cfg_eq(*bus, b0),
            bus.tx@ == b0.tx@ + s@.take(i as int),
            bus.writes@ == b0.writes@ + dr_writes(s@.take(i as int)),
        decreases s@.len() - i,
    {
        let byte = s[i];
        putb(bus, byte);
        proof {
            assert(s@.take(i as int).push(byte) =~= s@.take(i + 1));
            assert((b0.tx@ + s@.take(i as int)).push(byte) =~= b0.tx@ + s@.take(i + 1));
            assert((b0.writes@ + dr_writes(s@.take(i as int))).push((UART0_DR, byte as u32))
                =~= b0.writes@ + dr_writes(s@.take(i + 1)));
        }
        i = i + 1;
    }
    proof {
        assert(s@.take(s@.len() as int) =~= s@);
    }
}

/// What one call of [`gets`] does, given the pending input bytes: how much
/// input it consumes, the line it leaves in the buffer, and what it echoes.
pub struct LineOutcome {
    /// Input bytes consumed, the terminator included.
    pub used: int,
    /// The line accumulated in the buffer, terminator excluded.
    pub line: Seq<u8>,
    /// The bytes echoed back over the transmit path.
    pub echo: Seq<u8>,
}

/// The line discipline, byte by byte: `acc` is the line accumulated so far
/// and `cap` the buffer capacity. A full buffer returns at once; a carriage
/// return or line feed ends the line and echoes a canonical CRLF; a
/// backspace echoes the backspace/space/backspace erase sequence and discards
/// the most recent byte, if any; every other byte is echoed verbatim and
/// appended. `None` means the input runs out first, where real hardware
/// would block forever awaiting more.
pub open spec fn line_outcome(input: Seq<u8>, acc: Seq<u8>, cap: nat) -> Option<LineOutcome>
    decreases input.len(),
{
    if acc.len() >= cap {
        Some(LineOutcome { used: 0, line: acc, echo: Seq::empty() })
    } else if input.len() == 0 {
        None
    } else {
        let b = input[0];
        if b == 10 || b == 13 {
            Some(LineOutcome { used: 1, line: acc, echo: seq![13u8, 10u8] })
        } else if b == 8 {
            let erased = if acc.len() > 0 {
                acc.drop_last()
            } else {
                acc
            };
            match line_outcome(input.drop_first(), erased, cap) {
                None => None,
                Some(o) => Some(
                    LineOutcome { used: o.used + 1, line: o.line, echo: seq![8u8, 32u8, 8u8] + o.echo },
                ),
            }
        } else {
            match line_outcome(input.drop_first(), acc.push(b), cap) {
                None => None,
                Some(o) => Some(
                    LineOutcome { used: o.used + 1, line: o.line, echo: seq![b] + o.echo },
                ),
            }
        }
    }
}

/// Read one line into `buf`, whose length is the capacity. Bytes arrive via
/// [`getb`]; a CR or LF ends the line (echoed as CRLF) and the accumulated
/// length is returned; a backspace erases the most recent byte with a
/// visible erase sequence and never underflows; anything else is echoed and
/// buffered. If the buffer fills without a terminator its full capacity is
/// returned. The model requires enough pending input for the call to come
/// back at all, since real hardware would otherwise block forever.
pub fn gets(bus: &mut Bus, buf: &mut Vec<u8>) -> (len: usize)
    requires
        old(bus).base != 0,
        line_outcome(old(bus).rx@, Seq::empty(), old(buf).len() as nat) is Some,
    ensures
        ({
            let o = line_outcome(old(bus).rx@, Seq::empty(), old(buf).len() as nat).unwrap();
            &&& len <= old(buf).len()
            &&& len == o.line.len()
            &&& final(buf).len() == old(buf).len()
            &&& final(buf)@.take(len as int) == o.line
            &&& final(bus).rx@ == old(bus).rx@.skip(o.used)
            &&& final(bus).tx@ == old(bus).tx@ + o.echo
            &&& final(bus).writes@ == old(bus).writes@ + dr_writes(o.echo)
            &&& final(bus).base == old(bus).base
            &&& final(bus).ticks@ == old(bus).ticks@
            &&& cfg_eq(*old(bus), *final(bus))
        }),
{
    let ghost b0 = *bus;
    let ghost input0 = bus.rx@;
    let cap = buf.len();
    let ghost o = line_outcome(input0, Seq::empty(), cap as nat).unwrap();
    let mut len: usize = 0;
    let ghost mut used: int = 0;
    let ghost mut echoed: Seq<u8> = Seq::empty();
    proof {
        assert(buf@.take(0int) =~= Seq::<u8>::empty());
        assert(Seq::<u8>::empty() + o.echo =~= o.echo);
        assert(input0.skip(0) =~= input0);
        assert(b0.tx@ + Seq::<u8>::empty() =~= b0.tx@);
        assert(dr_writes(Seq::<u8>::empty()) =~= Seq::<(usize, u32)>::empty());
        assert(b0.writes@ + dr_writes(Seq::<u8>::empty()) =~= b0.writes@);
    }
    loop
        invariant_except_break
            line_outcome(bus.rx@, buf@.take(len as int), cap as nat) matches Some(r) && o.used
                == used + r.used && o.line == r.line && o.echo == echoed + r.echo,
        invariant
            bus.base == b0.base,
            bus.base != 0,
            bus.ticks@ == b0.ticks@,
            cfg_eq(*bus, b0),
            buf.len() == cap,
            len <= cap,
            0 <= used <= input0.len(),
            bus.rx@ == input0.skip(used),
            bus.tx@ == b0.tx@ + echoed,
            bus.writes@ == b0.writes@ + dr_writes(echoed),
        ensures
            len <= cap,
            buf.len() == cap,
            bus.base == b0.base,
            bus.ticks@ == b0.ticks@,
            cfg_eq(*bus, b0),
            o.line == buf@.take(len as int),
            len == o.line.len(),
            bus.rx@ == input0.skip(o.used),
            bus.tx@ == b0.tx@ + o.echo,
            bus.writes@ == b0.writes@ + dr_writes(o.echo),
        decreases bus.rx@.len(),
    {
        let ghost r = line_outcome(bus.rx@, buf@.take(len as int), cap as nat).unwrap();
        if len >= cap {
            proof {
                assert(r.used == 0 && r.line == buf@.take(len as int) && r.echo
                    == Seq::<u8>::empty());
                assert(echoed + r.echo =~= echoed);
                assert(o.line.len() == len);
            }
            break;
        }
        proof {
            if bus.rx@.len() == 0 {
                assert(line_outcome(bus.rx@, buf@.take(len as int), cap as nat) is None);
            }
        }
        let b = getb(bus);
        proof {
            assert(input0.skip(used).drop_first() =~= input0.skip(used + 1));
            used = used + 1;
        }
        if b == 10 || b == 13 {
            putb(bus, 13);
            putb(bus, 10);
            proof {
                assert(r.used == 1 && r.line == buf@.take(len as int) && r.echo == seq![
                    13u8,
                    10u8,
                ]);
                let echoed_pre = echoed;
                echoed = echoed_pre + seq![13u8, 10u8];
                assert(bus.tx@ =~= b0.tx@ + echoed);
                assert(bus.writes@ =~= b0.writes@ + dr_writes(echoed)) by {
                    lemma_dr_writes_concat(echoed_pre, seq![13u8, 10u8]);
                    assert(dr_writes(seq![13u8, 10u8]) =~= seq![
                        (UART0_DR, 13u32),
                        (UART0_DR, 10u32),
                    ]);
                }
                assert(o.echo =~= echoed);
                assert(o.line.len() == len);
            }
            break;
        } else if b == 8 {
            putb(bus, 8);
            putb(bus, 32);
            putb(bus, 8);
            let ghost acc = buf@.take(len as int);
            if len > 0 {
                len = len - 1;
            }
            proof {
                let echoed_pre = echoed;
                echoed = echoed_pre + seq![8u8, 32u8, 8u8];
                assert(bus.tx@ =~= b0.tx@ + echoed);
                assert(bus.writes@ =~= b0.writes@ + dr_writes(echoed)) by {
                    lemma_dr_writes_concat(echoed_pre, seq![8u8, 32u8, 8u8]);
                    assert(dr_writes(seq![8u8, 32u8, 8u8]) =~= seq![
                        (UART0_DR, 8u32),
                        (UART0_DR, 32u32),
                        (UART0_DR, 8u32),
                    ]);
                }
                if acc.len() > 0 {
                    assert(buf@.take(len as int) =~= acc.drop_last());
                } else {
                    assert(buf@.take(len as int) =~= acc);
                }
                assert(line_outcome(bus.rx@, buf@.take(len as int), cap as nat) matches Some(r2)
                    && r.used == r2.used + 1 && r.line == r2.line && r.echo == seq![8u8, 32u8, 8u8]
                    + r2.echo);
                let r2 = line_outcome(bus.rx@, buf@.take(len as int), cap as nat).unwrap();
                assert(o.echo =~= echoed_pre + (seq![8u8, 32u8, 8u8] + r2.echo));
                assert(o.echo =~= echoed + r2.echo);
            }
        } else {
            putb(bus, b);
            let ghost acc = buf@.take(len as int);
            buf.set(len, b);
            len = len + 1;
            proof {
                let echoed_pre = echoed;
                echoed = echoed_pre + seq![b];
                assert(bus.tx@ =~= b0.tx@ + echoed);
                assert(bus.writes@ =~= b0.writes@ + dr_writes(echoed)) by {
                    lemma_dr_writes_concat(echoed_pre, seq![b]);
                    assert(dr_writes(seq![b]) =~= seq![(UART0_DR, b as u32)]);
                }
                assert(buf@.take(len as int) =~= acc.push(b));
                assert(line_outcome(bus.rx@, buf@.take(len as int), cap as nat) matches Some(r2)
                    && r.used == r2.used + 1 && r.line == r2.line && r.echo == seq![b] + r2.echo);
                let r2 = line_outcome(bus.rx@, buf@.take(len as int), cap as nat).unwrap();
                assert(o.echo =~= echoed_pre + (seq![b] + r2.echo));
                assert(o.echo =~= echoed + r2.echo);
            }
        }
    }
    len
}

/// A line of at least `cap` plain bytes — no terminator, no backspace —
/// fills the buffer: exactly `cap` bytes are consumed, kept, and echoed
/// verbatim, and the call comes back without blocking for more input.
pub proof fn lemma_gets_full_buffer(input: Seq<u8>, cap: nat)
    requires
        input.len() >= cap,
        forall|i: int|
            0 <= i < input.len() ==> input[i] != 10 && input[i] != 13 && input[i] != 8,
    ensures
        line_outcome(input, Seq::empty(), cap) == Some(
            LineOutcome { used: cap as int, line: input.take(cap as int), echo: input.take(cap as int) },
        ),
{
    lemma_gets_full_buffer_general(input, Seq::empty(), cap);
    assert(Seq::<u8>::empty() + input.take(cap as int) =~= input.take(cap as int));
}

/// The generalization behind [`lemma_gets_full_buffer`], for any partially
/// accumulated line.
proof fn lemma_gets_full_buffer_general(input: Seq<u8>, acc: Seq<u8>, cap: nat)
    requires
        acc.len() <= cap,
        input.len() >= cap - acc.len(),
        forall|i: int|
            0 <= i < input.len() ==> input[i] != 10 && input[i] != 13 && input[i] != 8,
    ensures
        line_outcome(input, acc, cap) == Some(
            LineOutcome {
                used: cap - acc.len(),
                line: acc + input.take(cap - acc.len()),
                echo: input.take(cap - acc.len()),
            },
        ),
    decreases input.len(),
{
    if acc.len() >= cap {
        assert(acc + input.take(0) =~= acc);
        assert(input.take(0) =~= Seq::<u8>::empty());
    } else {
        let b = input[0];
        let k = cap - acc.len();
        assert(forall|i: int|
            0 <= i < input.drop_first().len() ==> input.drop_first()[i] != 10
                && input.drop_first()[i] != 13 && input.drop_first()[i] != 8);
        lemma_gets_full_buffer_general(input.drop_first(), acc.push(b), cap);
        assert(acc.push(b) + input.drop_first().take(k - 1) =~= acc + input.take(k));
        assert(seq![b] + input.drop_first().take(k - 1) =~= input.take(k));
    }
}

/// The ASCII digit for one hexadecimal nibble, upper case.
pub open spec fn hex_digit(n: u8) -> u8
    recommends
        n < 16,
{
    if n < 10 {
        (48 + n) as u8
    } else {
        (55 + n) as u8
    }
}

/// One hexadecimal digit as a byte.
fn hexb(n: u8) -> (r: u8)
    requires
        n < 16,
    ensures
        r == hex_digit(n),
{
    if n < 10 {
        48 + n
    } else {
        55 + n
    }
}

/// Send the two upper-case hexadecimal digits of `num`, high nibble first.
pub fn put_u8(bus: &mut Bus, num: u8)
    requires
        old(bus).base != 0,
    ensures
        final(bus).tx@ == old(bus).tx@.push(hex_digit(num / 16)).push(hex_digit(num % 16)),
        final(bus).writes@ == old(bus).writes@.push((UART0_DR, hex_digit(num / 16) as u32)).push(
            (UART0_DR, hex_digit(num % 16) as u32),
        ),
        final(bus).rx@ == old(bus).rx@,
        final(bus).base == old(bus).base,
        final(bus).ticks@ == old(bus).ticks@,
        cfg_eq(*old(bus), *final(bus)),
{
    let lower = num & 0x0F;
    let upper = (num & 0xF0) >> 4;
    proof {
        assert(num & 0x0F == num % 16) by (bit_vector);
        assert((num & 0xF0) >> 4 == num / 16) by (bit_vector);
        assert(num & 0x0F < 16) by (bit_vector);
        assert((num & 0xF0) >> 4 < 16) by (bit_vector);
    }
    let hi = hexb(upper);
    let lo = hexb(lower);
    putb(bus, hi);
    putb(bus, lo);
}

} // verus!
