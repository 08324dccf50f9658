//! The peripheral's register map, the port through which registers are reached, and the
//! record of every access the driver makes.
use vstd::prelude::*;

verus! {

/// Byte offset of the control register.
pub const REG_C: u32 = 0x00;
/// Byte offset of the status register.
pub const REG_S: u32 = 0x04;
/// Byte offset of the data length register.
pub const REG_DLEN: u32 = 0x08;
/// Byte offset of the slave address register.
pub const REG_A: u32 = 0x0C;
/// Byte offset of the FIFO data register.
pub const REG_FIFO: u32 = 0x10;
/// Byte offset of the clock divisor register.
pub const REG_DIV: u32 = 0x14;
/// Byte offset of the data delay register.
pub const REG_DEL: u32 = 0x18;
/// Byte offset of the clock stretch timeout register.
pub const REG_CLKT: u32 = 0x1C;

/// Control: bus enabled.
pub const C_ENABLE: u32 = 0x8000;
/// Control: receive interrupt.
pub const C_IRQ_RX: u32 = 0x0400;
/// Control: transmit interrupt.
pub const C_IRQ_TX: u32 = 0x0200;
/// Control: done interrupt.
pub const C_IRQ_DONE: u32 = 0x0100;
/// Control: start a transfer.
pub const C_START: u32 = 0x0080;
/// Control: clear the FIFO.
pub const C_FIFO_CLEAR: u32 = 0x0010;
/// Control: direction, set for a read and clear for a write.
pub const C_READ: u32 = 0x0001;

/// Status: the slave held the clock line longer than allowed.
pub const S_CLK_TIMEOUT: u32 = 0x0200;
/// Status: the slave did not acknowledge.
pub const S_ACK_ERROR: u32 = 0x0100;
/// Status: the FIFO is full.
pub const S_RX_FULL: u32 = 0x0080;
/// Status: the FIFO is empty.
pub const S_TX_EMPTY: u32 = 0x0040;
/// Status: the FIFO holds at least one received byte.
pub const S_RX_HAS_DATA: u32 = 0x0020;
/// Status: the FIFO can accept a byte.
pub const S_TX_CAN_ACCEPT: u32 = 0x0010;
/// Status: the FIFO is full and needs reading.
pub const S_RX_NEEDS_READ: u32 = 0x0008;
/// Status: the FIFO is less than full and needs writing.
pub const S_TX_NEEDS_WRITE: u32 = 0x0004;
/// Status: the transfer is complete.
pub const S_TRANS_DONE: u32 = 0x0002;
/// Status: a transfer is active.
pub const S_TRANS_ACTIVE: u32 = 0x0001;

/// Depth of the hardware FIFO in bytes.
pub const FIFO_DEPTH: usize = 16;

/// One observable step the driver takes on the peripheral.
pub enum BusEvent {
    /// A register at `offset` was read and gave `value`.
    Read { offset: u32, value: u32 },
    /// `value` was written to the register at `offset`.
    Write { offset: u32, value: u32 },
    /// The two bus pins were requested; `granted` tells whether they were obtained.
    PinsReserved { granted: bool },
    /// The driver paused for about `cycles` processor cycles.
    Pause { cycles: u32 },
}

/// Access to the peripheral: its 32-bit registers, a short busy pause, and the bus pins.
/// What a read returns is up to the hardware: the driver assumes nothing of it.
pub trait I2cPort {
    /// Read the register at byte offset `offset`.
    fn read_register(&mut self, offset: u32) -> u32;

    /// Write `value` to the register at byte offset `offset`.
    fn write_register(&mut self, offset: u32, value: u32);

    /// Pause for about `cycles` processor cycles.
    fn sleep_cycles(&mut self, cycles: u32);

    /// Reserve the two bus pins for the peripheral's alternate function; false when
    /// either is already owned by someone else.
    fn reserve_pins(&mut self) -> bool;
}

/// The register set of the peripheral, reached through a port, with the record of every
/// access made through it.
pub struct Registers<P> {
    port: P,
    trace: Ghost<Seq<BusEvent>>,
}

impl<P: I2cPort> Registers<P> {
    /// Every access made through these registers, oldest first.
    pub closed spec fn events(&self) -> Seq<BusEvent> {
        self.trace@
    }

    pub fn new(port: P) -> (r: Self)
        ensures
            r.events() == Seq::<BusEvent>::empty(),
    {
        Registers { port, trace: Ghost(Seq::empty()) }
    }

    /// The port behind the registers.
    pub fn port(&self) -> &P {
        &self.port
    }

    pub fn read(&mut self, offset: u32) -> (value: u32)
        ensures
            final(self).events() == old(self).events().push(BusEvent::Read { offset, value }),
    {
        let value = self.port.read_register(offset);
        self.trace = Ghost(self.trace@.push(BusEvent::Read { offset, value }));
        value
    }

    pub fn write(&mut self, offset: u32, value: u32)
        ensures
            final(self).events() == old(self).events().push(BusEvent::Write { offset, value }),
    {
        self.port.write_register(offset, value);
        self.trace = Ghost(self.trace@.push(BusEvent::Write { offset, value }));
    }

    pub fn sleep(&mut self, cycles: u32)
        ensures
            final(self).events() == old(self).events().push(BusEvent::Pause { cycles }),
    {
        self.port.sleep_cycles(cycles);
        self.trace = Ghost(self.trace@.push(BusEvent::Pause { cycles }));
    }

    pub fn reserve_pins(&mut self) -> (granted: bool)
        ensures
            final(self).events() == old(self).events().push(BusEvent::PinsReserved { granted }),
    {
        let granted = self.port.reserve_pins();
        self.trace = Ghost(self.trace@.push(BusEvent::PinsReserved { granted }));
        granted
    }
}

/// The events recorded after `earlier`, when `t` extends it.
pub open spec fn since(t: Seq<BusEvent>, earlier: Seq<BusEvent>) -> Seq<BusEvent> {
    t.skip(earlier.len() as int)
}

/// `t` is `earlier` followed by further events.
pub open spec fn extends(t: Seq<BusEvent>, earlier: Seq<BusEvent>) -> bool {
    earlier.is_prefix_of(t)
}

/// A write event.
pub open spec fn write_ev(offset: u32, value: u32) -> BusEvent {
    BusEvent::Write { offset, value }
}

/// A pause event.
pub open spec fn pause_ev(cycles: u32) -> BusEvent {
    BusEvent::Pause { cycles }
}

/// The event is a pause.
pub open spec fn is_pause(e: BusEvent) -> bool {
    match e {
        BusEvent::Pause { cycles } => true,
        _ => false,
    }
}

/// The event is a read of the status register.
pub open spec fn is_status_read(e: BusEvent) -> bool {
    match e {
        BusEvent::Read { offset, value } => offset == REG_S,
        _ => false,
    }
}

/// The value a read event gave (zero for other events).
pub open spec fn value_of(e: BusEvent) -> u32 {
    match e {
        BusEvent::Read { offset, value } => value,
        BusEvent::Write { offset, value } => value,
        _ => 0,
    }
}

/// The event is a status read showing bit `bit` set.
pub open spec fn shows(e: BusEvent, bit: u32) -> bool {
    is_status_read(e) && value_of(e) & bit != 0
}

/// Records chain: what came after `a` up to `c` is what came up to `b`, then up to `c`.
pub proof fn lemma_since_chain(a: Seq<BusEvent>, b: Seq<BusEvent>, c: Seq<BusEvent>)
    requires
        extends(b, a),
        extends(c, b),
    ensures
        extends(c, a),
        since(c, a) == since(b, a) + since(c, b),
{
    assert(since(c, a) =~= since(b, a) + since(c, b));
    assert(a =~= c.subrange(0, a.len() as int));
}

/// One more event after a record that extends `a`.
pub proof fn lemma_since_step(a: Seq<BusEvent>, t: Seq<BusEvent>, e: BusEvent)
    requires
        extends(t, a),
    ensures
        extends(t.push(e), a),
        since(t.push(e), a) == since(t, a).push(e),
{
    assert(a =~= t.push(e).subrange(0, a.len() as int));
    assert(since(t.push(e), a) =~= since(t, a).push(e));
}

/// Events appended to a record.
pub proof fn lemma_since_concat(a: Seq<BusEvent>, x: Seq<BusEvent>)
    ensures
        extends(a + x, a),
        since(a + x, a) == x,
{
    assert(a =~= (a + x).subrange(0, a.len() as int));
    assert(since(a + x, a) =~= x);
}

/// A record extends itself, with nothing since.
pub proof fn lemma_since_self(a: Seq<BusEvent>)
    ensures
        extends(a, a),
        since(a, a) == Seq::<BusEvent>::empty(),
{
    assert(a =~= a.subrange(0, a.len() as int));
    assert(since(a, a) =~= Seq::<BusEvent>::empty());
}

/// One event pushed onto a record.
pub proof fn lemma_since_push(a: Seq<BusEvent>, e: BusEvent)
    ensures
        extends(a.push(e), a),
        since(a.push(e), a) == seq![e],
{
    assert(a =~= a.push(e).subrange(0, a.len() as int));
    assert(since(a.push(e), a) =~= seq![e]);
}

} // verus!
