use std::collections::VecDeque;

use ruspiro_i2c::fifo::{chunk_len, read_fifo, write_fifo};
use ruspiro_i2c::regs::{
    Registers, C_FIFO_CLEAR, C_READ, C_START, REG_A, REG_C, REG_DIV, REG_DLEN, REG_FIFO, REG_S,
    S_ACK_ERROR, S_CLK_TIMEOUT, S_RX_HAS_DATA, S_TRANS_DONE, S_TX_CAN_ACCEPT,
};
use ruspiro_i2c::{I2cError, I2cImpl, I2cPort, RegisterField, RegisterFieldValue};

/// A software model of the peripheral with one slave that keeps 256 registers and
/// increments its register pointer on every data byte.
struct SimBus {
    slave_addr: Option<u8>,
    slave_regs: [u8; 256],
    pointer: u8,
    never_done: bool,
    pins_free: bool,
    control: u32,
    dlen: u32,
    addr: u32,
    divisor: u32,
    done: bool,
    ack_error: bool,
    clk_timeout: bool,
    writing: bool,
    tx: VecDeque<u8>,
    rx: VecDeque<u8>,
    wire: Vec<u8>,
    transactions: Vec<Vec<u8>>,
    observed: Vec<u8>,
    reads: usize,
    writes: usize,
    status_reads: usize,
    pauses: Vec<u32>,
}

impl SimBus {
    fn new(slave_addr: Option<u8>) -> SimBus {
        SimBus {
            slave_addr,
            slave_regs: [0; 256],
            pointer: 0,
            never_done: false,
            pins_free: true,
            control: 0,
            dlen: 0,
            addr: 0,
            divisor: 0,
            done: false,
            ack_error: false,
            clk_timeout: false,
            writing: false,
            tx: VecDeque::new(),
            rx: VecDeque::new(),
            wire: Vec::new(),
            transactions: Vec::new(),
            observed: Vec::new(),
            reads: 0,
            writes: 0,
            status_reads: 0,
            pauses: Vec::new(),
        }
    }

    fn present(&self) -> bool {
        self.slave_addr.map(|a| a as u32) == Some(self.addr)
    }

    fn finish(&mut self) {
        if !self.never_done {
            self.done = true;
            if !self.present() {
                self.ack_error = true;
            }
        }
    }

    fn pump_write(&mut self) {
        while let Some(b) = self.tx.pop_front() {
            self.wire.push(b);
        }
        if self.wire.len() as u32 >= self.dlen {
            self.writing = false;
            let bytes = std::mem::take(&mut self.wire);
            if self.present() && !self.never_done {
                let mut it = bytes.iter();
                if let Some(&p) = it.next() {
                    self.pointer = p;
                }
                for &b in it {
                    self.slave_regs[self.pointer as usize] = b;
                    self.observed.push(b);
                    self.pointer = self.pointer.wrapping_add(1);
                }
            }
            self.transactions.push(bytes);
            self.finish();
        }
    }
}

impl I2cPort for SimBus {
    fn read_register(&mut self, offset: u32) -> u32 {
        self.reads += 1;
        match offset {
            REG_S => {
                self.status_reads += 1;
                let mut s = S_TX_CAN_ACCEPT;
                if self.done {
                    s |= S_TRANS_DONE;
                }
                if self.ack_error {
                    s |= S_ACK_ERROR;
                }
                if self.clk_timeout {
                    s |= S_CLK_TIMEOUT;
                }
                if !self.rx.is_empty() {
                    s |= S_RX_HAS_DATA;
                }
                s
            }
            REG_FIFO => self.rx.pop_front().unwrap_or(0) as u32,
            REG_C => self.control,
            REG_DLEN => self.dlen,
            REG_A => self.addr,
            REG_DIV => self.divisor,
            _ => 0,
        }
    }

    fn write_register(&mut self, offset: u32, value: u32) {
        self.writes += 1;
        match offset {
            REG_S => {
                if value & S_TRANS_DONE != 0 {
                    self.done = false;
                }
                if value & S_ACK_ERROR != 0 {
                    self.ack_error = false;
                }
                if value & S_CLK_TIMEOUT != 0 {
                    self.clk_timeout = false;
                }
            }
            REG_C => {
                self.control = value & !C_START;
                if value & C_FIFO_CLEAR != 0 {
                    self.tx.clear();
                    self.rx.clear();
                }
                if value & C_START != 0 {
                    if value & C_READ != 0 {
                        if self.present() && !self.never_done {
                            for _ in 0..self.dlen {
                                self.rx.push_back(self.slave_regs[self.pointer as usize]);
                                self.pointer = self.pointer.wrapping_add(1);
                            }
                        }
                        self.finish();
                    } else {
                        self.writing = true;
                        self.wire.clear();
                        self.pump_write();
                    }
                }
            }
            REG_DLEN => self.dlen = value & 0xFFFF,
            REG_A => self.addr = value,
            REG_DIV => self.divisor = value,
            REG_FIFO => {
                self.tx.push_back(value as u8);
                if self.writing {
                    self.pump_write();
                }
            }
            _ => {}
        }
    }

    fn sleep_cycles(&mut self, cycles: u32) {
        self.pauses.push(cycles);
    }

    fn reserve_pins(&mut self) -> bool {
        let free = self.pins_free;
        self.pins_free = false;
        free
    }
}

fn ready_bus(slave: Option<u8>) -> I2cImpl<SimBus> {
    let mut i2c = I2cImpl::new(SimBus::new(slave));
    assert_eq!(i2c.initialize(250_000_000, true), Ok(()));
    i2c
}

#[test]
fn scan_finds_only_the_answering_slave() {
    let mut i2c = ready_bus(Some(0x68));
    assert_eq!(i2c.scan(), Ok(vec![0x68]));
}

#[test]
fn scan_of_empty_bus_finds_nothing() {
    let mut i2c = ready_bus(None);
    assert_eq!(i2c.scan(), Ok(vec![]));
}

#[test]
fn check_device_present_and_absent() {
    let mut i2c = ready_bus(Some(0x68));
    assert_eq!(i2c.check_device(0x68), Ok(()));
    assert_eq!(i2c.check_device(0x20), Err(I2cError::NotAcknowledged));
}

#[test]
fn write_then_read_register_round_trip() {
    let mut i2c = ready_bus(Some(0x68));
    for v in 0..=255u8 {
        assert_eq!(i2c.write_register_u8(0x68, 0x20, v), Ok(()));
        assert_eq!(i2c.read_register_u8(0x68, 0x20), Ok(v));
    }
}

#[test]
fn write_buffer_of_twenty_bytes_streams_all_in_order() {
    let mut i2c = ready_bus(Some(0x68));
    let data: Vec<u8> = (1..=20).collect();
    assert_eq!(i2c.write_register_buff(0x68, 0x10, &data), Ok(()));
    assert_eq!(i2c.port().observed, data);
    assert_eq!(i2c.port().transactions.last().unwrap().len(), 21);
    assert_eq!(&i2c.port().slave_regs[0x10..0x24], &data[..]);
}

#[test]
fn twenty_bytes_take_two_fill_cycles() {
    assert_eq!(chunk_len(20), 16);
    assert_eq!(chunk_len(4), 4);
    assert_eq!(chunk_len(0), 0);
    let mut regs = Registers::new(SimBus::new(Some(0x68)));
    let data: Vec<u8> = (1..=20).collect();
    assert_eq!(write_fifo(&mut regs, &data, 0), Ok(16));
    assert_eq!(write_fifo(&mut regs, &data, 16), Ok(4));
    assert_eq!(regs.port().tx.iter().copied().collect::<Vec<u8>>(), data);
}

#[test]
fn read_fifo_times_out_without_data() {
    let mut regs = Registers::new(SimBus::new(Some(0x68)));
    let mut buffer = [0u8; 4];
    assert_eq!(read_fifo(&mut regs, &mut buffer, 0), Err(I2cError::TimedOut));
    assert_eq!(regs.port().status_reads, 2000);
}

#[test]
fn read_buffer_of_twenty_bytes() {
    let mut i2c = ready_bus(Some(0x68));
    for i in 0..20 {
        i2c.write_register_u8(0x68, 0x40 + i, 100 + i).unwrap();
    }
    let mut buffer = [0u8; 20];
    assert_eq!(i2c.read_register_buff(0x68, 0x40, &mut buffer), Ok(20));
    let expected: Vec<u8> = (100..120).collect();
    assert_eq!(&buffer[..], &expected[..]);
}

#[test]
fn empty_write_buffer_sends_only_the_register() {
    let mut i2c = ready_bus(Some(0x68));
    assert_eq!(i2c.write_register_buff(0x68, 0x33, &[]), Ok(()));
    assert_eq!(i2c.port().transactions.last().unwrap(), &vec![0x33]);
    assert!(i2c.port().observed.is_empty());
}

#[test]
fn word_read_is_big_endian() {
    let mut i2c = ready_bus(Some(0x68));
    i2c.write_register_u8(0x68, 0x20, 0x12).unwrap();
    i2c.write_register_u8(0x68, 0x21, 0xab).unwrap();
    assert_eq!(i2c.read_register_u16(0x68, 0x20), Ok(0x12ab));
}

#[test]
fn word_write_sends_high_byte_first() {
    let mut i2c = ready_bus(Some(0x68));
    assert_eq!(i2c.write_register_u16(0x68, 0x20, 0x12ab), Ok(()));
    assert_eq!(i2c.port().transactions.last().unwrap(), &vec![0x20, 0x12, 0xab]);
    assert_eq!(i2c.port().slave_regs[0x20], 0x12);
    assert_eq!(i2c.port().slave_regs[0x21], 0xab);
}

#[test]
fn raw_write_sends_one_byte() {
    let mut i2c = ready_bus(Some(0x68));
    assert_eq!(i2c.write_u8(0x68, 12), Ok(()));
    assert_eq!(i2c.port().transactions.last().unwrap(), &vec![12]);
    assert_eq!(i2c.write_u8(0x21, 12), Err(I2cError::NotAcknowledged));
}

#[test]
fn field_write_keeps_other_bits() {
    let mut i2c = ready_bus(Some(0x68));
    i2c.write_register_u8(0x68, 0x20, 0b1011_0100).unwrap();
    let field = RegisterField::new(2, 2);
    let value = RegisterFieldValue::new(field, 0b01);
    assert_eq!(i2c.write_register_field(0x68, 0x20, value), Ok(()));
    let expected = (0b1011_0100u8 & !0b0000_1100) | (0b01 << 2);
    assert_eq!(i2c.read_register_u8(0x68, 0x20), Ok(expected));
    assert_eq!(expected, 0b1011_0100);

    let value = RegisterFieldValue::new(field, 0b10);
    assert_eq!(i2c.write_register_field(0x68, 0x20, value), Ok(()));
    assert_eq!(i2c.read_register_u8(0x68, 0x20), Ok(0b1011_1000));
}

#[test]
fn field_read_extracts_bits() {
    let mut i2c = ready_bus(Some(0x68));
    i2c.write_register_u8(0x68, 0x20, 0b1011_0100).unwrap();
    let field = RegisterField::new(3, 4);
    let r = i2c.read_register_field(0x68, 0x20, field).unwrap();
    assert_eq!(r.value(), 0b011);
    assert_eq!(r.raw_value(), 0b0011_0000);
    assert_eq!(r.mask(), 0b0111_0000);
}

#[test]
fn field_values_are_masked() {
    let field = RegisterField::new(2, 3);
    assert_eq!(field.mask(), 0b0001_1000);
    assert_eq!(field.shift(), 3);
    let value = RegisterFieldValue::new(field, 0b111);
    assert_eq!(value.value(), 0b11);
    assert_eq!(value.raw_value(), 0b0001_1000);
    let whole = RegisterField::new(8, 0);
    assert_eq!(whole.mask(), 0xff);
}

#[test]
fn check_device_times_out_after_the_probe_budget() {
    let mut sim = SimBus::new(Some(0x68));
    sim.never_done = true;
    let mut i2c = I2cImpl::new(sim);
    i2c.initialize(250_000_000, false).unwrap();
    assert_eq!(i2c.check_device(0x68), Err(I2cError::TimedOut));
    assert_eq!(i2c.port().status_reads, 100);
    assert_eq!(i2c.port().pauses, vec![1000u32; 100]);
}

#[test]
fn answered_poll_does_not_pause() {
    let mut i2c = ready_bus(Some(0x68));
    assert_eq!(i2c.check_device(0x68), Ok(()));
    assert_eq!(i2c.port().status_reads, 1);
    assert!(i2c.port().pauses.is_empty());
}

#[test]
fn failed_address_phase_leaves_buffer_alone() {
    let mut i2c = ready_bus(Some(0x68));
    let mut buffer = [7u8, 8, 9];
    assert_eq!(i2c.read_register_buff(0x50, 0x20, &mut buffer), Err(I2cError::NotAcknowledged));
    assert_eq!(buffer, [7, 8, 9]);
}

#[test]
fn data_write_times_out_after_the_default_budget() {
    let mut sim = SimBus::new(Some(0x68));
    sim.never_done = true;
    let mut i2c = I2cImpl::new(sim);
    i2c.initialize(250_000_000, false).unwrap();
    assert_eq!(i2c.write_register_u8(0x68, 1, 2), Err(I2cError::TimedOut));
    assert_eq!(i2c.port().status_reads, 2000);
    assert_eq!(i2c.port().pauses.len(), 2000);
}

#[test]
fn ack_error_is_not_acknowledged() {
    let mut i2c = ready_bus(Some(0x68));
    assert_eq!(i2c.read_register_u8(0x50, 0x20), Err(I2cError::NotAcknowledged));
    assert_eq!(i2c.write_register_buff(0x50, 0x20, &[1, 2, 3]), Err(I2cError::NotAcknowledged));
    let mut buffer = [0u8; 3];
    assert_eq!(i2c.read_register_buff(0x50, 0x20, &mut buffer), Err(I2cError::NotAcknowledged));
}

#[test]
fn operations_before_initialize_touch_no_register() {
    let mut i2c = I2cImpl::new(SimBus::new(Some(0x68)));
    let field = RegisterField::new(1, 0);
    let mut buffer = [0u8; 2];
    assert_eq!(i2c.scan(), Err(I2cError::NotInitialized));
    assert_eq!(i2c.check_device(0x68), Err(I2cError::NotInitialized));
    assert_eq!(i2c.read_register_u8(0x68, 0), Err(I2cError::NotInitialized));
    assert_eq!(i2c.read_register_u16(0x68, 0), Err(I2cError::NotInitialized));
    assert_eq!(i2c.read_register_buff(0x68, 0, &mut buffer), Err(I2cError::NotInitialized));
    assert_eq!(i2c.read_register_field(0x68, 0, field).err(), Some(I2cError::NotInitialized));
    assert_eq!(i2c.write_u8(0x68, 1), Err(I2cError::NotInitialized));
    assert_eq!(i2c.write_register_u8(0x68, 0, 1), Err(I2cError::NotInitialized));
    assert_eq!(i2c.write_register_u16(0x68, 0, 1), Err(I2cError::NotInitialized));
    assert_eq!(i2c.write_register_buff(0x68, 0, &[1]), Err(I2cError::NotInitialized));
    assert_eq!(
        i2c.write_register_field(0x68, 0, RegisterFieldValue::new(field, 1)),
        Err(I2cError::NotInitialized)
    );
    assert_eq!(i2c.port().writes, 0);
    assert_eq!(i2c.port().reads, 0);
    assert!(!i2c.is_initialized());
}

#[test]
fn initialize_twice_keeps_the_first_divisor() {
    let mut i2c = I2cImpl::new(SimBus::new(None));
    assert_eq!(i2c.initialize(250_000_000, true), Ok(()));
    assert_eq!(i2c.port().divisor, 625);
    let writes = i2c.port().writes;
    assert_eq!(i2c.initialize(100_000_000, false), Ok(()));
    assert_eq!(i2c.port().divisor, 625);
    assert_eq!(i2c.port().writes, writes);
    assert!(i2c.is_initialized());
}

#[test]
fn standard_mode_divisor() {
    let mut i2c = I2cImpl::new(SimBus::new(None));
    assert_eq!(i2c.initialize(250_000_000, false), Ok(()));
    assert_eq!(i2c.port().divisor, 2500);
}

#[test]
fn initialize_fails_when_pins_are_taken() {
    let mut sim = SimBus::new(None);
    sim.pins_free = false;
    let mut i2c = I2cImpl::new(sim);
    assert_eq!(i2c.initialize(250_000_000, true), Err(I2cError::PinUnavailable));
    assert!(!i2c.is_initialized());
    assert_eq!(i2c.port().writes, 0);
    assert_eq!(i2c.scan(), Err(I2cError::NotInitialized));
}

#[test]
fn error_messages() {
    assert_eq!(I2cError::NotInitialized.message(), "I2C Bus not initialized");
    assert_eq!(I2cError::NotAcknowledged.message(), "I2C transmit not acknowledged");
    assert_eq!(I2cError::TimedOut.message(), "time out waiting for I2C transmit");
    assert_eq!(I2cError::PinUnavailable.message(), "I2C bus pins already in use");
}
