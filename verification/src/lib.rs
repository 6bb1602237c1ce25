//! A bare-metal UART bring-up layer and line-oriented command shell, verified
//! against an explicit model of the machine.
//!
//! The hardware itself — a memory-mapped peripheral register bank — is
//! represented by [`mmio::Bus`]: the resolved register base address together
//! with a model of the devices behind the bank (receive and transmit FIFOs,
//! configuration registers, and the co-processor mailbox). Every register
//! access goes through [`mmio::write`] and [`mmio::read`], whose contracts
//! state exactly what each access does to the machine, so the driver and the
//! shell above them are verified end to end. An embedding that talks to real
//! hardware implements the same two operations with volatile loads and stores
//! at the resolved physical addresses.

pub mod mmio;
pub mod shell;
pub mod uart;
