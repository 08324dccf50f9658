//! The transaction driver: the register sequence of each bus operation, from clearing the
//! status to the completion poll, stated over the record of register accesses.
use vstd::prelude::*;
use crate::error::{I2cError, I2cResult};
use crate::fifo::{
    chunk_len_spec, drain, fill, lemma_drain_append, lemma_drain_empty, lemma_drain_widen,
    lemma_fill_append, lemma_fill_empty, lemma_fill_widen, read_fifo, write_fifo,
};
use crate::poll::{
    poll_events, poll_outcome, wait_i2c_done, I2C_DEFAULT_WAIT, I2C_PROBE_WAIT,
};
use crate::regs::{
    extends, lemma_since_chain, lemma_since_concat, lemma_since_push, lemma_since_self,
    lemma_since_step, since, write_ev, BusEvent, I2cPort, Registers, C_ENABLE, C_FIFO_CLEAR,
    C_READ, C_START, REG_A, REG_C, REG_DIV, REG_DLEN, REG_FIFO, REG_S, S_ACK_ERROR,
    S_CLK_TIMEOUT, S_TRANS_DONE,
};

verus! {

/// The value that clears the sticky status bits (they are cleared by writing one).
pub open spec fn status_clear() -> u32 {
    S_CLK_TIMEOUT | S_ACK_ERROR | S_TRANS_DONE
}

/// The control value that starts a write.
pub open spec fn start_write() -> u32 {
    C_ENABLE | C_START
}

/// The control value that starts a read.
pub open spec fn start_read() -> u32 {
    C_ENABLE | C_START | C_FIFO_CLEAR | C_READ
}

/// The first steps of every transfer: clear the sticky status bits, pulse the FIFO clear bit
/// by a read-modify-write of the control register (which read `ctrl`), then program the slave
/// address and the data length.
pub open spec fn begin_events(addr: u8, len: u32, ctrl: u32) -> Seq<BusEvent> {
    seq![
        write_ev(REG_S, status_clear()),
        BusEvent::Read { offset: REG_C, value: ctrl },
        write_ev(REG_C, ctrl | C_FIFO_CLEAR),
        write_ev(REG_A, addr as u32),
        write_ev(REG_DLEN, len),
    ]
}

/// `bytes` written straight into the FIFO, in order.
pub open spec fn prime_events(bytes: Seq<u8>) -> Seq<BusEvent> {
    bytes.map_values(|b: u8| write_ev(REG_FIFO, b as u32))
}

/// A write transfer up to its start: the first steps, the FIFO primed with `head`, and one
/// control write that enables, starts, and selects the write direction together.
pub open spec fn start_write_events(addr: u8, head: Seq<u8>, len: u32, ctrl: u32) -> Seq<BusEvent> {
    begin_events(addr, len, ctrl) + prime_events(head) + seq![write_ev(REG_C, start_write())]
}

/// A read transfer up to its start: the first steps, then one control write that enables,
/// starts, clears the FIFO and selects the read direction together.
pub open spec fn start_read_events(addr: u8, len: u32, ctrl: u32) -> Seq<BusEvent> {
    begin_events(addr, len, ctrl) + seq![write_ev(REG_C, start_read())]
}

/// The data length of a write of `head` then `payload`.
pub open spec fn write_len(head: Seq<u8>, payload: Seq<u8>) -> u32 {
    (head.len() + payload.len()) as u32
}

/// `s` is a write transfer to `addr` of `head` (primed before the start) and `payload`
/// (streamed after it), with `f` the streaming and `q` the completion poll, ending in `r`.
pub open spec fn write_shape(
    s: Seq<BusEvent>,
    addr: u8,
    head: Seq<u8>,
    payload: Seq<u8>,
    r: I2cResult<()>,
    ctrl: u32,
    f: Seq<BusEvent>,
    q: Seq<BusEvent>,
    complete: bool,
) -> bool {
    &&& s == start_write_events(addr, head, write_len(head, payload), ctrl) + f + q
    &&& fill(f, payload, complete)
    &&& complete ==> poll_events(q, I2C_DEFAULT_WAIT as nat) && r == poll_outcome(q)
    &&& !complete ==> q.len() == 0 && r == Err::<(), I2cError>(I2cError::TimedOut)
}

/// `s` is a write transfer to `addr` of `head` then `payload`, ending in `r`.
pub open spec fn write_transaction(
    s: Seq<BusEvent>,
    addr: u8,
    head: Seq<u8>,
    payload: Seq<u8>,
    r: I2cResult<()>,
) -> bool {
    exists|ctrl: u32, f: Seq<BusEvent>, q: Seq<BusEvent>, complete: bool|
        #[trigger] write_shape(s, addr, head, payload, r, ctrl, f, q, complete)
}

/// Clear the sticky status bits, pulse the FIFO clear bit, and program slave address and data
/// length. Returns the control value read for the pulse.
fn begin<P: I2cPort>(regs: &mut Registers<P>, addr: u8, len: u32) -> (ctrl: u32)
    ensures
        extends(final(regs).events(), old(regs).events()),
        since(final(regs).events(), old(regs).events()) == begin_events(addr, len, ctrl),
{
    let ghost t0 = regs.events();
    regs.write(REG_S, S_CLK_TIMEOUT | S_ACK_ERROR | S_TRANS_DONE);
    let ctrl = regs.read(REG_C);
    regs.write(REG_C, ctrl | C_FIFO_CLEAR);
    regs.write(REG_A, addr as u32);
    regs.write(REG_DLEN, len);
    proof {
        assert(regs.events() =~= t0 + begin_events(addr, len, ctrl));
        lemma_since_concat(t0, begin_events(addr, len, ctrl));
    }
    ctrl
}

/// Write `bytes` straight into the FIFO.
fn prime<P: I2cPort>(regs: &mut Registers<P>, bytes: &[u8])
    ensures
        extends(final(regs).events(), old(regs).events()),
        since(final(regs).events(), old(regs).events()) == prime_events(bytes@),
{
    let ghost t0 = regs.events();
    let len = bytes.len();
    let mut i: usize = 0;
    proof {
        assert(prime_events(bytes@.take(0)) =~= Seq::<BusEvent>::empty());
        assert(t0 =~= t0 + Seq::<BusEvent>::empty());
    }
    while i < len
        invariant
            i <= len,
            len == bytes@.len(),
            regs.events() == t0 + prime_events(bytes@.take(i as int)),
        decreases len - i,
    {
        regs.write(REG_FIFO, bytes[i] as u32);
        proof {
            assert(prime_events(bytes@.take(i + 1)) =~= prime_events(bytes@.take(i as int)).push(
                write_ev(REG_FIFO, bytes@[i as int] as u32),
            ));
            assert(regs.events() =~= t0 + prime_events(bytes@.take(i + 1)));
        }
        i += 1;
    }
    proof {
        assert(bytes@.take(len as int) =~= bytes@);
        lemma_since_concat(t0, prime_events(bytes@));
    }
}

/// A whole write transfer: the first steps, `head` primed into the FIFO, the start, then
/// `payload` streamed in fill cycles of at most a FIFO's depth, and the completion poll.
pub fn write_transfer<P: I2cPort>(regs: &mut Registers<P>, addr: u8, head: &[u8], payload: &[u8]) -> (r: I2cResult<()>)
    requires
        head@.len() + payload@.len() <= 0xFFFF,
    ensures
        extends(final(regs).events(), old(regs).events()),
        write_transaction(since(final(regs).events(), old(regs).events()), addr, head@, payload@, r),
{
    let ghost t0 = regs.events();
    let len = head.len() + payload.len();
    let ctrl = begin(regs, addr, len as u32);
    let ghost ta = regs.events();
    prime(regs, head);
    let ghost tb = regs.events();
    regs.write(REG_C, C_ENABLE | C_START);
    let ghost t1 = regs.events();
    proof {
        lemma_since_chain(t0, ta, tb);
        lemma_since_step(t0, tb, write_ev(REG_C, start_write()));
        assert(since(t1, t0) =~= start_write_events(addr, head@, write_len(head@, payload@), ctrl));
        lemma_since_self(t1);
        lemma_fill_empty();
        assert(payload@.take(0) =~= Seq::<u8>::empty());
    }
    let plen = payload.len();
    let mut sent: usize = 0;
    while sent < plen
        invariant
            sent <= plen,
            plen == payload@.len(),
            t0 == old(regs).events(),
            extends(t1, t0),
            extends(regs.events(), t1),
            since(t1, t0) == start_write_events(addr, head@, write_len(head@, payload@), ctrl),
            fill(since(regs.events(), t1), payload@.take(sent as int), true),
        decreases plen - sent,
    {
        let ghost tc = regs.events();
        let chunk = write_fifo(regs, payload, sent);
        let ghost bytes = payload@.subrange(sent as int, sent + chunk_len_spec(plen - sent));
        proof {
            lemma_since_chain(t1, tc, regs.events());
        }
        match chunk {
            Ok(n) => {
                proof {
                    lemma_fill_append(since(tc, t1), payload@.take(sent as int), since(regs.events(), tc), bytes, true);
                    assert(payload@.take(sent as int) + bytes =~= payload@.take(sent + n));
                }
                sent = sent + n;
            },
            Err(e) => {
                proof {
                    lemma_fill_append(since(tc, t1), payload@.take(sent as int), since(regs.events(), tc), bytes, false);
                    assert(payload@.take(sent as int) + bytes =~= payload@.take(sent + chunk_len_spec(plen - sent)));
                    lemma_fill_widen(since(regs.events(), t1), payload@, sent + chunk_len_spec(plen - sent));
                    lemma_since_chain(t0, t1, regs.events());
                    assert(since(regs.events(), t0) =~= start_write_events(addr, head@, write_len(head@, payload@), ctrl) + since(regs.events(), t1) + Seq::<BusEvent>::empty());
                    assert(write_shape(since(regs.events(), t0), addr, head@, payload@, Err(e), ctrl, since(regs.events(), t1), Seq::empty(), false));
                }
                return Err(e);
            },
        }
    }
    let ghost t2 = regs.events();
    let r = wait_i2c_done(regs, I2C_DEFAULT_WAIT);
    proof {
        assert(payload@.take(plen as int) =~= payload@);
        lemma_since_chain(t0, t1, t2);
        lemma_since_chain(t0, t2, regs.events());
        assert(since(regs.events(), t0) =~= start_write_events(addr, head@, write_len(head@, payload@), ctrl) + since(t2, t1) + since(regs.events(), t2));
        assert(write_shape(since(regs.events(), t0), addr, head@, payload@, r, ctrl, since(t2, t1), since(regs.events(), t2), true));
    }
    r
}

/// `s` is a register read from `addr`: an address phase `a` writing `reg` (ending in `r1`),
/// then, if that succeeded, a read transfer of `n` bytes whose drain `d` obtained `got`, and
/// the completion poll `q`; ending in `r`.
pub open spec fn read_shape(
    s: Seq<BusEvent>,
    addr: u8,
    reg: u8,
    n: nat,
    got: Seq<u8>,
    r: I2cResult<()>,
    a: Seq<BusEvent>,
    r1: I2cResult<()>,
    ctrl: u32,
    d: Seq<BusEvent>,
    q: Seq<BusEvent>,
) -> bool {
    &&& write_transaction(a, addr, seq![reg], Seq::empty(), r1)
    &&& r1.is_err() ==> s == a && r == r1
    &&& r1.is_ok() ==> {
        &&& s == a + start_read_events(addr, n as u32, ctrl) + d + q
        &&& drain(d, n, got)
        &&& got.len() == n ==> poll_events(q, I2C_DEFAULT_WAIT as nat) && r == poll_outcome(q)
        &&& got.len() < n ==> q.len() == 0 && r == Err::<(), I2cError>(I2cError::TimedOut)
    }
}

/// `s` is a read of `n` bytes from register `reg` of `addr` that obtained `got`, ending in `r`.
pub open spec fn read_transaction(
    s: Seq<BusEvent>,
    addr: u8,
    reg: u8,
    n: nat,
    got: Seq<u8>,
    r: I2cResult<()>,
) -> bool {
    exists|a: Seq<BusEvent>, r1: I2cResult<()>, ctrl: u32, d: Seq<BusEvent>, q: Seq<BusEvent>|
        #[trigger] read_shape(s, addr, reg, n, got, r, a, r1, ctrl, d, q)
}

/// `s` is a read of `n` bytes from register `reg` of `addr` that failed with `e`.
pub open spec fn read_failed(s: Seq<BusEvent>, addr: u8, reg: u8, n: nat, e: I2cError) -> bool {
    exists|got: Seq<u8>| #[trigger] read_transaction(s, addr, reg, n, got, Err(e))
}

/// `s` is a read of `n` bytes from register `reg` of `addr` into a buffer that held `before`
/// and then `after`, which failed with `e`; where the address phase failed, the buffer was
/// left as it was.
pub open spec fn buffer_read_failed(
    s: Seq<BusEvent>,
    addr: u8,
    reg: u8,
    n: nat,
    e: I2cError,
    before: Seq<u8>,
    after: Seq<u8>,
) -> bool {
    exists|
        got: Seq<u8>,
        a: Seq<BusEvent>,
        r1: I2cResult<()>,
        ctrl: u32,
        d: Seq<BusEvent>,
        q: Seq<BusEvent>,
    |
        #[trigger] read_shape(s, addr, reg, n, got, Err(e), a, r1, ctrl, d, q) && (r1.is_err()
            ==> after == before)
}

/// A failed read into a buffer is a failed read.
pub proof fn lemma_buffer_read_failed(
    s: Seq<BusEvent>,
    addr: u8,
    reg: u8,
    n: nat,
    e: I2cError,
    before: Seq<u8>,
    after: Seq<u8>,
)
    requires
        buffer_read_failed(s, addr, reg, n, e, before, after),
    ensures
        read_failed(s, addr, reg, n, e),
{
    let (got, a, r1, ctrl, d, q) = choose|
        got: Seq<u8>,
        a: Seq<BusEvent>,
        r1: I2cResult<()>,
        ctrl: u32,
        d: Seq<BusEvent>,
        q: Seq<BusEvent>,
    |
        #[trigger] read_shape(s, addr, reg, n, got, Err(e), a, r1, ctrl, d, q) && (r1.is_err()
            ==> after == before);
    assert(read_transaction(s, addr, reg, n, got, Err(e)));
}

/// Address phase of a register read: write the register address to the slave and wait for
/// the transfer to complete.
pub fn write_register<P: I2cPort>(regs: &mut Registers<P>, addr: u8, reg: u8) -> (r: I2cResult<()>)
    ensures
        extends(final(regs).events(), old(regs).events()),
        write_transaction(since(final(regs).events(), old(regs).events()), addr, seq![reg], Seq::empty(), r),
{
    let head: [u8; 1] = [reg];
    let none: [u8; 0] = [];
    let r = write_transfer(regs, addr, &head, &none);
    proof {
        assert(head@ =~= seq![reg]);
        assert(none@ =~= Seq::<u8>::empty());
    }
    r
}

/// Read `buffer.len()` bytes from register `reg` of the slave at `addr` into `buffer`: the
/// address phase, then a read transfer drained in cycles of at most a FIFO's depth, then the
/// completion poll. Returns the number of bytes read.
pub fn read_reg_data<P: I2cPort>(regs: &mut Registers<P>, addr: u8, reg: u8, buffer: &mut [u8]) -> (r: I2cResult<usize>)
    requires
        old(buffer)@.len() <= 0xFFFF,
    ensures
        extends(final(regs).events(), old(regs).events()),
        final(buffer)@.len() == old(buffer)@.len(),
        r.is_ok() ==> r == Ok::<usize, I2cError>(old(buffer)@.len() as usize) && read_transaction(
            since(final(regs).events(), old(regs).events()),
            addr,
            reg,
            old(buffer)@.len(),
            final(buffer)@,
            Ok(()),
        ),
        r.is_err() ==> buffer_read_failed(
            since(final(regs).events(), old(regs).events()),
            addr,
            reg,
            old(buffer)@.len(),
            r->Err_0,
            old(buffer)@,
            final(buffer)@,
        ),
{
    let ghost t0 = regs.events();
    let ghost b0 = buffer@;
    let len = buffer.len();
    let r1 = write_register(regs, addr, reg);
    let ghost ta = regs.events();
    if let Err(e) = r1 {
        proof {
            let a = since(ta, t0);
            assert(read_shape(a, addr, reg, len as nat, Seq::empty(), Err(e), a, r1, 0, Seq::empty(), Seq::empty()));
            assert(read_transaction(a, addr, reg, len as nat, Seq::empty(), Err(e)));
            assert(buffer_read_failed(a, addr, reg, len as nat, e, b0, buffer@));
        }
        return Err(e);
    }
    let ctrl = begin(regs, addr, len as u32);
    let ghost tb = regs.events();
    regs.write(REG_C, C_ENABLE | C_START | C_FIFO_CLEAR | C_READ);
    let ghost t1 = regs.events();
    proof {
        lemma_since_chain(t0, ta, tb);
        lemma_since_step(t0, tb, write_ev(REG_C, start_read()));
        lemma_since_chain(ta, tb, t1);
        lemma_since_step(ta, tb, write_ev(REG_C, start_read()));
        assert(since(t1, ta) =~= start_read_events(addr, len as u32, ctrl));
        lemma_since_self(t1);
        lemma_drain_empty();
        assert(buffer@.take(0) =~= Seq::<u8>::empty());
    }
    let mut done: usize = 0;
    while done < len
        invariant
            done <= len,
            len == buffer@.len(),
            len == old(buffer)@.len(),
            len <= 0xFFFF,
            t0 == old(regs).events(),
            extends(ta, t0),
            extends(t1, ta),
            extends(regs.events(), t1),
            write_transaction(since(ta, t0), addr, seq![reg], Seq::empty(), r1),
            r1.is_ok(),
            since(t1, ta) == start_read_events(addr, len as u32, ctrl),
            drain(since(regs.events(), t1), done as nat, buffer@.take(done as int)),
        decreases len - done,
    {
        let ghost tc = regs.events();
        let ghost bc = buffer@;
        let chunk = read_fifo(regs, buffer, done);
        let ghost m = chunk_len_spec(len - done);
        proof {
            lemma_since_chain(t1, tc, regs.events());
            assert(buffer@.take(done as int) =~= bc.take(done as int));
        }
        match chunk {
            Ok(n) => {
                proof {
                    lemma_drain_append(
                        since(tc, t1),
                        done as nat,
                        bc.take(done as int),
                        since(regs.events(), tc),
                        m as nat,
                        buffer@.subrange(done as int, done + m),
                    );
                    assert(bc.take(done as int) + buffer@.subrange(done as int, done + m) =~= buffer@.take(done + n));
                }
                done = done + n;
            },
            Err(e) => {
                proof {
                    let got = choose|got: Seq<u8>|
                        got.len() < m && #[trigger] drain(since(regs.events(), tc), m as nat, got);
                    lemma_drain_append(since(tc, t1), done as nat, bc.take(done as int), since(regs.events(), tc), m as nat, got);
                    let all = bc.take(done as int) + got;
                    lemma_drain_widen(since(regs.events(), t1), (done + m) as nat, all, len as nat);
                    lemma_since_chain(ta, t1, regs.events());
                    lemma_since_chain(t0, ta, regs.events());
                    let s = since(regs.events(), t0);
                    let a = since(ta, t0);
                    assert(s =~= a + start_read_events(addr, len as u32, ctrl) + since(regs.events(), t1) + Seq::<BusEvent>::empty());
                    assert(read_shape(s, addr, reg, len as nat, all, Err(e), a, r1, ctrl, since(regs.events(), t1), Seq::empty()));
                    assert(read_transaction(s, addr, reg, len as nat, all, Err(e)));
                    assert(buffer_read_failed(s, addr, reg, len as nat, e, b0, buffer@));
                }
                return Err(e);
            },
        }
    }
    let ghost t2 = regs.events();
    let r = wait_i2c_done(regs, I2C_DEFAULT_WAIT);
    proof {
        assert(buffer@.take(len as int) =~= buffer@);
        lemma_since_chain(t1, t2, regs.events());
        lemma_since_chain(ta, t1, regs.events());
        lemma_since_chain(t0, ta, regs.events());
        let s = since(regs.events(), t0);
        let a = since(ta, t0);
        assert(s =~= a + start_read_events(addr, len as u32, ctrl) + since(t2, t1) + since(regs.events(), t2));
        assert(read_shape(s, addr, reg, len as nat, buffer@, r, a, r1, ctrl, since(t2, t1), since(regs.events(), t2)));
        assert(read_transaction(s, addr, reg, len as nat, buffer@, r));
    }
    match r {
        Ok(()) => Ok(len),
        Err(e) => {
            proof {
                assert(read_transaction(since(regs.events(), t0), addr, reg, len as nat, buffer@, Err(e)));
                assert(buffer_read_failed(since(regs.events(), t0), addr, reg, len as nat, e, b0, buffer@));
            }
            Err(e)
        },
    }
}

/// The clock divisor for a core clock of `core_speed` Hz: a 400 kHz bus in fast mode, else
/// 100 kHz.
pub open spec fn clock_divisor(core_speed: u32, fast_mode: bool) -> u32 {
    if fast_mode {
        core_speed / 400_000
    } else {
        core_speed / 100_000
    }
}

/// Reserve the bus pins and, once they are held, program the clock divisor.
pub fn initialize<P: I2cPort>(regs: &mut Registers<P>, core_speed: u32, fast_mode: bool) -> (r: I2cResult<()>)
    ensures
        extends(final(regs).events(), old(regs).events()),
        r.is_ok() ==> since(final(regs).events(), old(regs).events()) == seq![
            BusEvent::PinsReserved { granted: true },
            write_ev(REG_DIV, clock_divisor(core_speed, fast_mode)),
        ],
        r.is_err() ==> r == Err::<(), I2cError>(I2cError::PinUnavailable) && since(
            final(regs).events(),
            old(regs).events(),
        ) == seq![BusEvent::PinsReserved { granted: false }],
{
    let ghost t0 = regs.events();
    let granted = regs.reserve_pins();
    if !granted {
        proof {
            lemma_since_push(t0, BusEvent::PinsReserved { granted: false });
        }
        return Err(I2cError::PinUnavailable);
    }
    let clock_divisor = if fast_mode {
        core_speed / 400_000
    } else {
        core_speed / 100_000
    };
    regs.write(REG_DIV, clock_divisor);
    proof {
        let x = seq![BusEvent::PinsReserved { granted: true }, write_ev(REG_DIV, clock_divisor)];
        assert(regs.events() =~= t0 + x);
        lemma_since_concat(t0, x);
    }
    Ok(())
}

/// `s` is a presence check of `addr`: a one-byte read transfer started without a register
/// address, and a completion poll `q` of at most the probe budget, ending in `r`.
pub open spec fn probe_shape(s: Seq<BusEvent>, addr: u8, r: I2cResult<()>, ctrl: u32, q: Seq<BusEvent>) -> bool {
    &&& s == start_read_events(addr, 1, ctrl) + q
    &&& poll_events(q, I2C_PROBE_WAIT as nat)
    &&& r == poll_outcome(q)
}

/// `s` is a presence check of `addr` ending in `r`.
pub open spec fn probe(s: Seq<BusEvent>, addr: u8, r: I2cResult<()>) -> bool {
    exists|ctrl: u32, q: Seq<BusEvent>| #[trigger] probe_shape(s, addr, r, ctrl, q)
}

/// Check whether a slave answers at `addr`: start a one-byte read and wait, with the small
/// probe budget, for it to complete.
pub fn check_device<P: I2cPort>(regs: &mut Registers<P>, addr: u8) -> (r: I2cResult<()>)
    ensures
        extends(final(regs).events(), old(regs).events()),
        probe(since(final(regs).events(), old(regs).events()), addr, r),
{
    let ghost t0 = regs.events();
    let ctrl = begin(regs, addr, 1);
    let ghost ta = regs.events();
    regs.write(REG_C, C_ENABLE | C_START | C_FIFO_CLEAR | C_READ);
    let ghost t1 = regs.events();
    let r = wait_i2c_done(regs, I2C_PROBE_WAIT);
    proof {
        lemma_since_step(t0, ta, write_ev(REG_C, start_read()));
        lemma_since_chain(t0, t1, regs.events());
        assert(since(t1, t0) =~= start_read_events(addr, 1, ctrl));
        assert(probe_shape(since(regs.events(), t0), addr, r, ctrl, since(regs.events(), t1)));
    }
    r
}

/// The events of the runs in `ps`, one after the other.
pub open spec fn concat_events(ps: Seq<Seq<BusEvent>>) -> Seq<BusEvent>
    decreases ps.len(),
{
    if ps.len() == 0 {
        Seq::empty()
    } else {
        concat_events(ps.drop_last()) + ps.last()
    }
}

/// The addresses, ascending, whose presence check (the one at index `a` for address `a`)
/// succeeded.
pub open spec fn acked(outs: Seq<I2cResult<()>>) -> Seq<u8>
    decreases outs.len(),
{
    if outs.len() == 0 {
        Seq::empty()
    } else if outs.last().is_ok() {
        acked(outs.drop_last()).push((outs.len() - 1) as u8)
    } else {
        acked(outs.drop_last())
    }
}

/// Number of slave addresses a scan checks, from zero up.
pub const SCAN_ADDRESSES: u8 = 0x80;

/// `s` is a presence check of every address from zero up to `0x7F` in order, `ps` the
/// checks and `outs` their outcomes, and `found` lists the addresses that answered.
pub open spec fn scan_shape(
    s: Seq<BusEvent>,
    found: Seq<u8>,
    ps: Seq<Seq<BusEvent>>,
    outs: Seq<I2cResult<()>>,
) -> bool {
    &&& ps.len() == SCAN_ADDRESSES
    &&& outs.len() == SCAN_ADDRESSES
    &&& s == concat_events(ps)
    &&& forall|a: int| 0 <= a < SCAN_ADDRESSES ==> probe(#[trigger] ps[a], a as u8, outs[a])
    &&& found == acked(outs)
}

/// `s` is a scan of the bus that found the slaves at `found`.
pub open spec fn scan(s: Seq<BusEvent>, found: Seq<u8>) -> bool {
    exists|ps: Seq<Seq<BusEvent>>, outs: Seq<I2cResult<()>>| #[trigger] scan_shape(s, found, ps, outs)
}

/// Check every slave address from zero up to `0x7F` and list, ascending, those that answered.
/// A slave that does not answer, or answers too late, is taken as absent.
pub fn scan_devices<P: I2cPort>(regs: &mut Registers<P>) -> (r: Vec<u8>)
    ensures
        extends(final(regs).events(), old(regs).events()),
        scan(since(final(regs).events(), old(regs).events()), r@),
{
    let ghost t0 = regs.events();
    let ghost mut ps: Seq<Seq<BusEvent>> = Seq::empty();
    let ghost mut outs: Seq<I2cResult<()>> = Seq::empty();
    let mut found: Vec<u8> = Vec::new();
    proof {
        lemma_since_self(t0);
    }
    let mut addr: u8 = 0;
    while addr < SCAN_ADDRESSES
        invariant
            addr <= SCAN_ADDRESSES,
            t0 == old(regs).events(),
            extends(regs.events(), t0),
            ps.len() == addr,
            outs.len() == addr,
            since(regs.events(), t0) == concat_events(ps),
            forall|a: int| 0 <= a < addr ==> probe(#[trigger] ps[a], a as u8, outs[a]),
            found@ == acked(outs),
        decreases SCAN_ADDRESSES - addr,
    {
        let ghost t1 = regs.events();
        let r = check_device(regs, addr);
        proof {
            lemma_since_chain(t0, t1, regs.events());
            let p = since(regs.events(), t1);
            assert(ps.push(p).drop_last() =~= ps);
            assert(outs.push(r).drop_last() =~= outs);
            ps = ps.push(p);
            outs = outs.push(r);
            assert forall|a: int| 0 <= a < addr + 1 implies probe(#[trigger] ps[a], a as u8, outs[a]) by {
                if a < addr {
                    assert(ps[a] == ps.drop_last()[a]);
                    assert(outs[a] == outs.drop_last()[a]);
                }
            }
        }
        if r.is_ok() {
            found.push(addr);
        }
        addr += 1;
    }
    proof {
        assert(scan_shape(since(regs.events(), t0), found@, ps, outs));
    }
    found
}

/// Write one byte to the slave at `addr` without a register address.
pub fn write_raw_u8<P: I2cPort>(regs: &mut Registers<P>, addr: u8, data: u8) -> (r: I2cResult<()>)
    ensures
        extends(final(regs).events(), old(regs).events()),
        write_transaction(since(final(regs).events(), old(regs).events()), addr, seq![data], Seq::empty(), r),
{
    let head: [u8; 1] = [data];
    let none: [u8; 0] = [];
    let r = write_transfer(regs, addr, &head, &none);
    proof {
        assert(head@ =~= seq![data]);
        assert(none@ =~= Seq::<u8>::empty());
    }
    r
}

/// Write one byte to register `reg` of the slave at `addr`: both bytes primed into the FIFO
/// before a single start.
pub fn write_reg_u8<P: I2cPort>(regs: &mut Registers<P>, addr: u8, reg: u8, data: u8) -> (r: I2cResult<()>)
    ensures
        extends(final(regs).events(), old(regs).events()),
        write_transaction(since(final(regs).events(), old(regs).events()), addr, seq![reg, data], Seq::empty(), r),
{
    let head: [u8; 2] = [reg, data];
    let none: [u8; 0] = [];
    let r = write_transfer(regs, addr, &head, &none);
    proof {
        assert(head@ =~= seq![reg, data]);
        assert(none@ =~= Seq::<u8>::empty());
    }
    r
}

/// Write `data` to register `reg` of the slave at `addr` (and the registers after it, where
/// the slave increments its register address): the register address is primed, the data
/// streamed in fill cycles.
pub fn write_reg_data<P: I2cPort>(regs: &mut Registers<P>, addr: u8, reg: u8, data: &[u8]) -> (r: I2cResult<()>)
    requires
        data@.len() < 0xFFFF,
    ensures
        extends(final(regs).events(), old(regs).events()),
        write_transaction(since(final(regs).events(), old(regs).events()), addr, seq![reg], data@, r),
{
    let head: [u8; 1] = [reg];
    let r = write_transfer(regs, addr, &head, data);
    proof {
        assert(head@ =~= seq![reg]);
    }
    r
}

/// The two bytes of `v`, high byte first.
pub open spec fn word_bytes(v: u16) -> Seq<u8> {
    seq![(v / 256) as u8, (v % 256) as u8]
}

/// Write the 16-bit `data`, high byte first, to register `reg` of the slave at `addr`.
pub fn write_reg_u16<P: I2cPort>(regs: &mut Registers<P>, addr: u8, reg: u8, data: u16) -> (r: I2cResult<()>)
    ensures
        extends(final(regs).events(), old(regs).events()),
        write_transaction(since(final(regs).events(), old(regs).events()), addr, seq![reg], word_bytes(data), r),
{
    let buffer: [u8; 2] = [(data / 256) as u8, (data % 256) as u8];
    proof {
        assert(buffer@ =~= word_bytes(data));
    }
    write_reg_data(regs, addr, reg, &buffer)
}

/// Read one byte from register `reg` of the slave at `addr`.
pub fn read_reg_u8<P: I2cPort>(regs: &mut Registers<P>, addr: u8, reg: u8) -> (r: I2cResult<u8>)
    ensures
        extends(final(regs).events(), old(regs).events()),
        r.is_ok() ==> read_transaction(
            since(final(regs).events(), old(regs).events()),
            addr,
            reg,
            1,
            seq![r->Ok_0],
            Ok(()),
        ),
        r.is_err() ==> read_failed(since(final(regs).events(), old(regs).events()), addr, reg, 1, r->Err_0),
{
    let mut buff: [u8; 1] = [0; 1];
    let ghost t0 = regs.events();
    let ghost b0 = buff@;
    match read_reg_data(regs, addr, reg, &mut buff) {
        Ok(_) => {
            proof {
                assert(buff@ =~= seq![buff@[0]]);
            }
            Ok(buff[0])
        },
        Err(e) => {
            proof {
                lemma_buffer_read_failed(since(regs.events(), t0), addr, reg, buff@.len() as nat, e, b0, buff@);
            }
            Err(e)
        },
    }
}

/// Read a 16-bit value from register `reg` of the slave at `addr` (and the register after it,
/// where the slave increments its register address); the first byte read is the high byte.
pub fn read_reg_u16<P: I2cPort>(regs: &mut Registers<P>, addr: u8, reg: u8) -> (r: I2cResult<u16>)
    ensures
        extends(final(regs).events(), old(regs).events()),
        r.is_ok() ==> read_transaction(
            since(final(regs).events(), old(regs).events()),
            addr,
            reg,
            2,
            word_bytes(r->Ok_0),
            Ok(()),
        ),
        r.is_err() ==> read_failed(since(final(regs).events(), old(regs).events()), addr, reg, 2, r->Err_0),
{
    let mut buff: [u8; 2] = [0; 2];
    let ghost t0 = regs.events();
    let ghost b0 = buff@;
    match read_reg_data(regs, addr, reg, &mut buff) {
        Ok(_) => {
            let v = (buff[0] as u16) * 256 + (buff[1] as u16);
            proof {
                assert(buff@ =~= word_bytes(v));
            }
            Ok(v)
        },
        Err(e) => {
            proof {
                lemma_buffer_read_failed(since(regs.events(), t0), addr, reg, buff@.len() as nat, e, b0, buff@);
            }
            Err(e)
        },
    }
}

} // verus!
