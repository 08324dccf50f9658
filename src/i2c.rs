//! The bus controller: owns the peripheral and its initialization state, and refuses every
//! operation before initialization.
use vstd::prelude::*;
use crate::error::{I2cError, I2cResult};
use crate::field::{field_of, merge, merge_field, RegisterField, RegisterFieldValue};
use crate::interface;
use crate::interface::{
    buffer_read_failed, clock_divisor, probe, read_failed, read_transaction, scan, word_bytes, write_transaction,
};
use crate::regs::{extends, since, write_ev, BusEvent, I2cPort, Registers, REG_DIV};

verus! {

/// `s` is a field write of `v` to register `reg` of `addr` that read the register as `byte`
/// (the read `a`) and then wrote the merged byte (the write `w`), ending in `r`.
pub open spec fn field_write_shape(
    s: Seq<BusEvent>,
    addr: u8,
    reg: u8,
    v: RegisterFieldValue,
    r: I2cResult<()>,
    a: Seq<BusEvent>,
    byte: u8,
    w: Seq<BusEvent>,
) -> bool {
    &&& read_transaction(a, addr, reg, 1, seq![byte], Ok(()))
    &&& s == a + w
    &&& write_transaction(w, addr, seq![reg, merge_field(byte, v)], Seq::empty(), r)
}

/// `s` is a field write of `v` to register `reg` of `addr` ending in `r`: either the read of
/// the register failed, or it succeeded and the merged byte was written back.
pub open spec fn field_write(s: Seq<BusEvent>, addr: u8, reg: u8, v: RegisterFieldValue, r: I2cResult<()>) -> bool {
    ||| exists|a: Seq<BusEvent>, byte: u8, w: Seq<BusEvent>|
        #[trigger] field_write_shape(s, addr, reg, v, r, a, byte, w)
    ||| r.is_err() && read_failed(s, addr, reg, 1, r->Err_0)
}

/// One initialization of a bus that was `was_init` with record `before`, leaving it `now_init`
/// with record `after`: on an initialized bus nothing happens and it succeeds; otherwise the
/// pins are requested and, once granted, the clock divisor for `core_speed` and `fast_mode`
/// is programmed and the bus is initialized, or else it fails with `PinUnavailable`.
pub open spec fn init_step(
    was_init: bool,
    before: Seq<BusEvent>,
    now_init: bool,
    after: Seq<BusEvent>,
    core_speed: u32,
    fast_mode: bool,
    r: I2cResult<()>,
) -> bool {
    &&& extends(after, before)
    &&& was_init ==> r == Ok::<(), I2cError>(()) && now_init && after == before
    &&& !was_init ==> (r.is_ok() <==> now_init)
    &&& !was_init && r.is_ok() ==> since(after, before) == seq![
        BusEvent::PinsReserved { granted: true },
        write_ev(REG_DIV, clock_divisor(core_speed, fast_mode)),
    ]
    &&& !was_init && r.is_err() ==> r == Err::<(), I2cError>(I2cError::PinUnavailable) && since(
        after,
        before,
    ) == seq![BusEvent::PinsReserved { granted: false }]
}

/// The I²C peripheral, reached through the port `P`.
pub struct I2cImpl<P> {
    regs: Registers<P>,
    initialized: bool,
}

impl<P: I2cPort> I2cImpl<P> {
    /// Every access made to the peripheral, oldest first.
    pub closed spec fn events(&self) -> Seq<BusEvent> {
        self.regs.events()
    }

    /// The bus has been initialized.
    pub closed spec fn initialized(&self) -> bool {
        self.initialized
    }

    /// A bus on the peripheral behind `port`, not yet initialized.
    pub fn new(port: P) -> (r: Self)
        ensures
            !r.initialized(),
            r.events() == Seq::<BusEvent>::empty(),
    {
        I2cImpl { regs: Registers::new(port), initialized: false }
    }

    /// The port behind the bus.
    pub fn port(&self) -> &P {
        self.regs.port()
    }

    /// Whether the bus has been initialized.
    pub fn is_initialized(&self) -> (r: bool)
        ensures
            r == self.initialized(),
    {
        self.initialized
    }

    /// Initialize the bus: reserve its two pins and program the clock divisor for a core
    /// clock of `core_speed` Hz and a 400 kHz (`fast_mode`) or 100 kHz bus. Once the bus is
    /// initialized, a further call does nothing and succeeds.
    pub fn initialize(&mut self, core_speed: u32, fast_mode: bool) -> (r: I2cResult<()>)
        ensures
            init_step(
                old(self).initialized(),
                old(self).events(),
                final(self).initialized(),
                final(self).events(),
                core_speed,
                fast_mode,
                r,
            ),
    {
        if !self.initialized {
            let r = interface::initialize(&mut self.regs, core_speed, fast_mode);
            if r.is_ok() {
                self.initialized = true;
            }
            r
        } else {
            proof {
                crate::regs::lemma_since_self(self.regs.events());
            }
            Ok(())
        }
    }

    /// Scan the bus for slaves: check every address from zero up to `0x7F` and list,
    /// ascending, those that answered.
    pub fn scan(&mut self) -> (r: I2cResult<Vec<u8>>)
        ensures
            extends(final(self).events(), old(self).events()),
            final(self).initialized() == old(self).initialized(),
            !old(self).initialized() ==> r == Err::<Vec<u8>, I2cError>(I2cError::NotInitialized)
                && final(self).events() == old(self).events(),
            old(self).initialized() ==> r.is_ok() && scan(since(final(self).events(), old(self).events()), r->Ok_0@),
    {
        if let Err(e) = self.is_initializied() {
            proof {
                crate::regs::lemma_since_self(self.regs.events());
            }
            return Err(e);
        }
        Ok(interface::scan_devices(&mut self.regs))
    }

    /// Check whether a slave answers at `addr`.
    pub fn check_device(&mut self, addr: u8) -> (r: I2cResult<()>)
        ensures
            extends(final(self).events(), old(self).events()),
            final(self).initialized() == old(self).initialized(),
            !old(self).initialized() ==> r == Err::<(), I2cError>(I2cError::NotInitialized)
                && final(self).events() == old(self).events(),
            old(self).initialized() ==> probe(since(final(self).events(), old(self).events()), addr, r),
    {
        if let Err(e) = self.is_initializied() {
            proof {
                crate::regs::lemma_since_self(self.regs.events());
            }
            return Err(e);
        }
        interface::check_device(&mut self.regs, addr)
    }

    /// Read one byte from register `reg` of the slave at `device_addr`.
    pub fn read_register_u8(&mut self, device_addr: u8, reg: u8) -> (r: I2cResult<u8>)
        ensures
            extends(final(self).events(), old(self).events()),
            final(self).initialized() == old(self).initialized(),
            !old(self).initialized() ==> r == Err::<u8, I2cError>(I2cError::NotInitialized)
                && final(self).events() == old(self).events(),
            old(self).initialized() && r.is_ok() ==> read_transaction(
                since(final(self).events(), old(self).events()),
                device_addr,
                reg,
                1,
                seq![r->Ok_0],
                Ok(()),
            ),
            old(self).initialized() && r.is_err() ==> read_failed(
                since(final(self).events(), old(self).events()),
                device_addr,
                reg,
                1,
                r->Err_0,
            ),
    {
        if let Err(e) = self.is_initializied() {
            proof {
                crate::regs::lemma_since_self(self.regs.events());
            }
            return Err(e);
        }
        interface::read_reg_u8(&mut self.regs, device_addr, reg)
    }

    /// Read a 16-bit value from register `reg` of the slave at `device_addr` and the register
    /// after it, high byte first; this needs a slave that increments its register address.
    pub fn read_register_u16(&mut self, device_addr: u8, reg: u8) -> (r: I2cResult<u16>)
        ensures
            extends(final(self).events(), old(self).events()),
            final(self).initialized() == old(self).initialized(),
            !old(self).initialized() ==> r == Err::<u16, I2cError>(I2cError::NotInitialized)
                && final(self).events() == old(self).events(),
            old(self).initialized() && r.is_ok() ==> read_transaction(
                since(final(self).events(), old(self).events()),
                device_addr,
                reg,
                2,
                word_bytes(r->Ok_0),
                Ok(()),
            ),
            old(self).initialized() && r.is_err() ==> read_failed(
                since(final(self).events(), old(self).events()),
                device_addr,
                reg,
                2,
                r->Err_0,
            ),
    {
        if let Err(e) = self.is_initializied() {
            proof {
                crate::regs::lemma_since_self(self.regs.events());
            }
            return Err(e);
        }
        interface::read_reg_u16(&mut self.regs, device_addr, reg)
    }

    /// Read `buffer.len()` bytes from register `reg` of the slave at `device_addr` and the
    /// registers after it; this needs a slave that increments its register address. Returns
    /// the number of bytes read.
    pub fn read_register_buff(&mut self, device_addr: u8, reg: u8, buffer: &mut [u8]) -> (r: I2cResult<usize>)
        requires
            old(self).initialized() ==> old(buffer)@.len() <= 0xFFFF,
        ensures
            extends(final(self).events(), old(self).events()),
            final(self).initialized() == old(self).initialized(),
            final(buffer)@.len() == old(buffer)@.len(),
            !old(self).initialized() ==> r == Err::<usize, I2cError>(I2cError::NotInitialized)
                && final(self).events() == old(self).events() && final(buffer)@ == old(buffer)@,
            old(self).initialized() && r.is_ok() ==> r == Ok::<usize, I2cError>(old(buffer)@.len() as usize)
                && read_transaction(
                since(final(self).events(), old(self).events()),
                device_addr,
                reg,
                old(buffer)@.len(),
                final(buffer)@,
                Ok(()),
            ),
            old(self).initialized() && r.is_err() ==> buffer_read_failed(
                since(final(self).events(), old(self).events()),
                device_addr,
                reg,
                old(buffer)@.len(),
                r->Err_0,
                old(buffer)@,
                final(buffer)@,
            ),
    {
        if let Err(e) = self.is_initializied() {
            proof {
                crate::regs::lemma_since_self(self.regs.events());
            }
            return Err(e);
        }
        interface::read_reg_data(&mut self.regs, device_addr, reg, buffer)
    }

    /// Read the bit field `field` of register `reg` of the slave at `device_addr`.
    pub fn read_register_field(&mut self, device_addr: u8, reg: u8, field: RegisterField) -> (r: I2cResult<
        RegisterFieldValue,
    >)
        requires
            field.wf(),
        ensures
            extends(final(self).events(), old(self).events()),
            final(self).initialized() == old(self).initialized(),
            !old(self).initialized() ==> r == Err::<RegisterFieldValue, I2cError>(I2cError::NotInitialized)
                && final(self).events() == old(self).events(),
            old(self).initialized() && r.is_ok() ==> exists|byte: u8|
                #[trigger] read_transaction(
                    since(final(self).events(), old(self).events()),
                    device_addr,
                    reg,
                    1,
                    seq![byte],
                    Ok(()),
                ) && r->Ok_0.field == field && r->Ok_0.value == field_of(byte, field),
            old(self).initialized() && r.is_err() ==> read_failed(
                since(final(self).events(), old(self).events()),
                device_addr,
                reg,
                1,
                r->Err_0,
            ),
    {
        if let Err(e) = self.is_initializied() {
            proof {
                crate::regs::lemma_since_self(self.regs.events());
            }
            return Err(e);
        }
        let value = match interface::read_reg_u8(&mut self.regs, device_addr, reg) {
            Ok(v) => v,
            Err(e) => return Err(e),
        };
        let bits = if field.shift() >= 8 {
            0
        } else {
            value >> field.shift()
        };
        let r = RegisterFieldValue::new(field, bits);
        proof {
            if field.offset >= 8 {
                let m = crate::field::low_mask(field.width);
                assert(0u8 & m == 0) by (bit_vector);
            }
            assert(r.value == field_of(value, field));
            assert(read_transaction(
                since(self.events(), old(self).events()),
                device_addr,
                reg,
                1,
                seq![value],
                Ok(()),
            ));
        }
        Ok(r)
    }

    /// Write one byte to the slave at `device_addr` without a register address, for slaves
    /// that have no or a single register.
    pub fn write_u8(&mut self, device_addr: u8, data: u8) -> (r: I2cResult<()>)
        ensures
            extends(final(self).events(), old(self).events()),
            final(self).initialized() == old(self).initialized(),
            !old(self).initialized() ==> r == Err::<(), I2cError>(I2cError::NotInitialized)
                && final(self).events() == old(self).events(),
            old(self).initialized() ==> write_transaction(
                since(final(self).events(), old(self).events()),
                device_addr,
                seq![data],
                Seq::empty(),
                r,
            ),
    {
        if let Err(e) = self.is_initializied() {
            proof {
                crate::regs::lemma_since_self(self.regs.events());
            }
            return Err(e);
        }
        interface::write_raw_u8(&mut self.regs, device_addr, data)
    }

    /// Write one byte to register `reg` of the slave at `device_addr`.
    pub fn write_register_u8(&mut self, device_addr: u8, reg: u8, data: u8) -> (r: I2cResult<()>)
        ensures
            extends(final(self).events(), old(self).events()),
            final(self).initialized() == old(self).initialized(),
            !old(self).initialized() ==> r == Err::<(), I2cError>(I2cError::NotInitialized)
                && final(self).events() == old(self).events(),
            old(self).initialized() ==> write_transaction(
                since(final(self).events(), old(self).events()),
                device_addr,
                seq![reg, data],
                Seq::empty(),
                r,
            ),
    {
        if let Err(e) = self.is_initializied() {
            proof {
                crate::regs::lemma_since_self(self.regs.events());
            }
            return Err(e);
        }
        interface::write_reg_u8(&mut self.regs, device_addr, reg, data)
    }

    /// Write the 16-bit `data`, high byte first, to register `reg` of the slave at
    /// `device_addr` and the register after it; this needs a slave that increments its
    /// register address.
    pub fn write_register_u16(&mut self, device_addr: u8, reg: u8, data: u16) -> (r: I2cResult<()>)
        ensures
            extends(final(self).events(), old(self).events()),
            final(self).initialized() == old(self).initialized(),
            !old(self).initialized() ==> r == Err::<(), I2cError>(I2cError::NotInitialized)
                && final(self).events() == old(self).events(),
            old(self).initialized() ==> write_transaction(
                since(final(self).events(), old(self).events()),
                device_addr,
                seq![reg],
                word_bytes(data),
                r,
            ),
    {
        if let Err(e) = self.is_initializied() {
            proof {
                crate::regs::lemma_since_self(self.regs.events());
            }
            return Err(e);
        }
        interface::write_reg_u16(&mut self.regs, device_addr, reg, data)
    }

    /// Write `data` to register `reg` of the slave at `device_addr` and the registers after
    /// it; this needs a slave that increments its register address.
    pub fn write_register_buff(&mut self, device_addr: u8, reg: u8, data: &[u8]) -> (r: I2cResult<()>)
        requires
            old(self).initialized() ==> data@.len() < 0xFFFF,
        ensures
            extends(final(self).events(), old(self).events()),
            final(self).initialized() == old(self).initialized(),
            !old(self).initialized() ==> r == Err::<(), I2cError>(I2cError::NotInitialized)
                && final(self).events() == old(self).events(),
            old(self).initialized() ==> write_transaction(
                since(final(self).events(), old(self).events()),
                device_addr,
                seq![reg],
                data@,
                r,
            ),
    {
        if let Err(e) = self.is_initializied() {
            proof {
                crate::regs::lemma_since_self(self.regs.events());
            }
            return Err(e);
        }
        interface::write_reg_data(&mut self.regs, device_addr, reg, data)
    }

    /// Write the bit field value `value` to register `reg` of the slave at `device_addr`:
    /// read the register, replace the field's bits, write it back. The other bits keep what
    /// was read. The read and the write are two transfers, not one atomic update.
    pub fn write_register_field(&mut self, device_addr: u8, reg: u8, value: RegisterFieldValue) -> (r: I2cResult<()>)
        requires
            value.wf(),
        ensures
            extends(final(self).events(), old(self).events()),
            final(self).initialized() == old(self).initialized(),
            !old(self).initialized() ==> r == Err::<(), I2cError>(I2cError::NotInitialized)
                && final(self).events() == old(self).events(),
            old(self).initialized() ==> field_write(
                since(final(self).events(), old(self).events()),
                device_addr,
                reg,
                value,
                r,
            ),
    {
        if let Err(e) = self.is_initializied() {
            proof {
                crate::regs::lemma_since_self(self.regs.events());
            }
            return Err(e);
        }
        let ghost t0 = self.regs.events();
        let old_value = match self.read_register_u8(device_addr, reg) {
            Ok(v) => v,
            Err(e) => return Err(e),
        };
        let ghost t1 = self.regs.events();
        let new_value = merge(old_value, &value);
        let r = interface::write_reg_u8(&mut self.regs, device_addr, reg, new_value);
        proof {
            crate::regs::lemma_since_chain(t0, t1, self.regs.events());
            assert(field_write_shape(
                since(self.regs.events(), t0),
                device_addr,
                reg,
                value,
                r,
                since(t1, t0),
                old_value,
                since(self.regs.events(), t1),
            ));
        }
        r
    }

    /// Fails with `NotInitialized` until the bus has been initialized.
    fn is_initializied(&self) -> (r: I2cResult<()>)
        ensures
            r.is_ok() == self.initialized(),
            r.is_err() ==> r == Err::<(), I2cError>(I2cError::NotInitialized),
    {
        if !self.initialized {
            Err(I2cError::NotInitialized)
        } else {
            Ok(())
        }
    }
}

} // verus!
