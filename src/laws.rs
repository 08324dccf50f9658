//! Properties of the bus operations that hold whatever the hardware answers.
use vstd::prelude::*;
use crate::error::{I2cError, I2cResult};
use crate::i2c::init_step;
use crate::fifo::{
    drain_events, drain_shape, fill_events, fill_shape, low_byte, pull_byte, push_byte,
    waits_ok,
};
use crate::interface::{
    acked, clock_divisor, begin_events, prime_events, probe, probe_shape, read_shape, read_transaction,
    scan_shape, start_read, start_read_events, start_write, start_write_events, write_len,
    write_shape, write_transaction, SCAN_ADDRESSES,
};
use crate::poll::{
    poll_events, poll_outcome, wait_reads, wait_succeeded, I2C_DEFAULT_WAIT, I2C_FIFO_WAIT,
    I2C_POLL_PAUSE, I2C_PROBE_WAIT,
};
use crate::regs::{
    extends, is_pause, is_status_read, pause_ev, since, shows, write_ev, BusEvent, REG_C, REG_DIV, REG_FIFO, S_ACK_ERROR,
    S_RX_HAS_DATA, S_TRANS_DONE, S_TX_CAN_ACCEPT,
};

verus! {

proof fn lemma_acked(outs: Seq<I2cResult<()>>)
    requires
        outs.len() <= 256,
    ensures
        forall|a: int| 0 <= a < outs.len() ==> (acked(outs).contains(a as u8) <==> outs[a].is_ok()),
        forall|i: int| 0 <= i < acked(outs).len() ==> (#[trigger] acked(outs)[i] as int) < outs.len(),
        forall|i: int, j: int| 0 <= i < j < acked(outs).len() ==> acked(outs)[i] < acked(outs)[j],
    decreases outs.len(),
{
    if outs.len() > 0 {
        let prev = outs.drop_last();
        let last = (outs.len() - 1) as int;
        lemma_acked(prev);
        let f = acked(outs);
        let g = acked(prev);
        assert forall|a: int| 0 <= a < outs.len() implies (f.contains(a as u8) <==> outs[a].is_ok()) by {
            if a < last {
                assert(outs[a] == prev[a]);
                if outs.last().is_ok() {
                    assert(f == g.push(last as u8));
                    if f.contains(a as u8) {
                        let k = choose|k: int| 0 <= k < f.len() && f[k] == a as u8;
                        if k < g.len() {
                            assert(g[k] == f[k]);
                        }
                    }
                    if g.contains(a as u8) {
                        let k = choose|k: int| 0 <= k < g.len() && g[k] == a as u8;
                        assert(f[k] == g[k]);
                    }
                }
            } else {
                if outs.last().is_ok() {
                    assert(f[f.len() - 1] == last as u8);
                } else {
                    if g.contains(a as u8) {
                        let k = choose|k: int| 0 <= k < g.len() && g[k] == a as u8;
                        assert((g[k] as int) < prev.len());
                    }
                }
            }
        }
        assert forall|i: int| 0 <= i < f.len() implies (#[trigger] f[i] as int) < outs.len() by {
            if i < g.len() {
                assert(f[i] == g[i]);
            }
        }
        assert forall|i: int, j: int| 0 <= i < j < f.len() implies f[i] < f[j] by {
            if j < g.len() {
                assert(f[i] == g[i]);
                assert(f[j] == g[j]);
            } else {
                assert(f[i] == g[i]);
                assert((g[i] as int) < prev.len());
            }
        }
    }
}

/// A scan lists exactly the addresses whose presence check succeeded, each once and in
/// ascending order; so when a single slave answers, the scan finds it and nothing else.
pub proof fn lemma_scan_lists_acknowledged(
    s: Seq<BusEvent>,
    found: Seq<u8>,
    ps: Seq<Seq<BusEvent>>,
    outs: Seq<I2cResult<()>>,
)
    requires
        scan_shape(s, found, ps, outs),
    ensures
        forall|a: int| 0 <= a < SCAN_ADDRESSES ==> probe(#[trigger] ps[a], a as u8, outs[a]),
        forall|a: int| 0 <= a < SCAN_ADDRESSES ==> (found.contains(a as u8) <==> outs[a].is_ok()),
        forall|i: int| 0 <= i < found.len() ==> (#[trigger] found[i] as int) < SCAN_ADDRESSES,
        forall|i: int, j: int| 0 <= i < j < found.len() ==> found[i] < found[j],
{
    lemma_acked(outs);
}

/// When exactly one address answers its presence check, the scan finds only that address.
pub proof fn lemma_scan_single_slave(
    s: Seq<BusEvent>,
    found: Seq<u8>,
    ps: Seq<Seq<BusEvent>>,
    outs: Seq<I2cResult<()>>,
    addr: u8,
)
    requires
        scan_shape(s, found, ps, outs),
        addr < SCAN_ADDRESSES,
        forall|a: int| 0 <= a < SCAN_ADDRESSES ==> (outs[a].is_ok() <==> a == addr),
    ensures
        found == seq![addr],
{
    lemma_scan_lists_acknowledged(s, found, ps, outs);
    assert(outs[addr as int].is_ok());
    assert(found.contains((addr as int) as u8));
    let k = choose|k: int| 0 <= k < found.len() && found[k] == addr;
    assert forall|i: int| 0 <= i < found.len() implies found[i] == addr by {
        let b = found[i];
        assert(found.contains(b));
        assert((b as int) < SCAN_ADDRESSES);
        assert(outs[b as int].is_ok());
    }
    if found.len() > 1 {
        assert(found[0] < found[1]);
    }
    assert(found =~= seq![addr]);
}

/// A completion poll whose first status read shows the transfer done with an acknowledge
/// error stops there and reports `NotAcknowledged`.
proof fn lemma_poll_first_ack_error(q: Seq<BusEvent>, tries: nat)
    requires
        poll_events(q, tries),
        tries > 0,
        q.len() > 0 ==> shows(q[0], S_TRANS_DONE) && shows(q[0], S_ACK_ERROR),
    ensures
        q.len() == 1,
        poll_outcome(q) == Err::<(), I2cError>(I2cError::NotAcknowledged),
{
    assert(q.len() > 0);
    if q.len() > 1 {
        assert(q[1] == pause_ev(I2C_POLL_PAUSE) && !shows(q[0], S_TRANS_DONE));
    }
}

/// Every event of a completion poll is a status read or a pause.
proof fn lemma_poll_quiet(q: Seq<BusEvent>, tries: nat)
    requires
        poll_events(q, tries),
    ensures
        forall|i: int| 0 <= i < q.len() ==> is_status_read(#[trigger] q[i]) || is_pause(q[i]),
{
    assert forall|i: int| 0 <= i < q.len() implies is_status_read(#[trigger] q[i]) || is_pause(q[i]) by {
        if i % 2 == 1 {
            assert(q[i] == pause_ev(I2C_POLL_PAUSE));
        }
    }
}

/// A presence check whose slave never reports the transfer done times out, and only after
/// the whole probe budget: the status register read that many times, each read followed by
/// a pause.
pub proof fn lemma_probe_times_out(s: Seq<BusEvent>, addr: u8, r: I2cResult<()>)
    requires
        probe(s, addr, r),
        forall|i: int| 0 <= i < s.len() ==> !shows(#[trigger] s[i], S_TRANS_DONE),
    ensures
        r == Err::<(), I2cError>(I2cError::TimedOut),
        s.len() == 6 + 2 * I2C_PROBE_WAIT,
        forall|i: int| 6 <= i < s.len() && i % 2 == 0 ==> is_status_read(#[trigger] s[i]),
        forall|i: int| 6 <= i < s.len() && i % 2 == 1 ==> #[trigger] s[i] == pause_ev(I2C_POLL_PAUSE),
{
    let (ctrl, q) = choose|ctrl: u32, q: Seq<BusEvent>| #[trigger] probe_shape(s, addr, r, ctrl, q);
    let head = start_read_events(addr, 1, ctrl);
    assert(head.len() == 6);
    assert(forall|j: int| 0 <= j < q.len() ==> #[trigger] q[j] == s[j + 6]);
    lemma_poll_never_done(q, I2C_PROBE_WAIT as nat);
    assert forall|i: int| 6 <= i < s.len() && i % 2 == 0 implies is_status_read(#[trigger] s[i]) by {
        assert(q[i - 6] == s[i]);
    }
    assert forall|i: int| 6 <= i < s.len() && i % 2 == 1 implies #[trigger] s[i] == pause_ev(I2C_POLL_PAUSE) by {
        assert(q[i - 6] == s[i]);
    }
}

/// A completion poll that never sees the transfer done uses its whole budget and times out.
proof fn lemma_poll_never_done(q: Seq<BusEvent>, tries: nat)
    requires
        poll_events(q, tries),
        forall|i: int| 0 <= i < q.len() ==> !shows(#[trigger] q[i], S_TRANS_DONE),
    ensures
        q.len() == 2 * tries,
        poll_outcome(q) == Err::<(), I2cError>(I2cError::TimedOut),
{
    if q.len() > 0 {
        assert(!shows(q[q.len() - 1], S_TRANS_DONE));
    }
}

/// A presence check whose slave reports every transfer done with an acknowledge error
/// fails as not acknowledged, never as a success.
pub proof fn lemma_probe_ack_error(s: Seq<BusEvent>, addr: u8, r: I2cResult<()>)
    requires
        probe(s, addr, r),
        forall|i: int|
            0 <= i < s.len() && is_status_read(#[trigger] s[i]) ==> shows(s[i], S_TRANS_DONE) && shows(
                s[i],
                S_ACK_ERROR,
            ),
    ensures
        r == Err::<(), I2cError>(I2cError::NotAcknowledged),
{
    let (ctrl, q) = choose|ctrl: u32, q: Seq<BusEvent>| #[trigger] probe_shape(s, addr, r, ctrl, q);
    if q.len() > 0 {
        assert(s[6] == q[0]);
        assert(is_status_read(q[0]));
    }
    lemma_poll_first_ack_error(q, I2C_PROBE_WAIT as nat);
}

/// A write transfer whose slave always has room in the FIFO and reports every transfer done
/// with an acknowledge error fails as not acknowledged, never as a success.
#[verifier::rlimit(30)]
pub proof fn lemma_write_ack_error(
    s: Seq<BusEvent>,
    addr: u8,
    head: Seq<u8>,
    payload: Seq<u8>,
    r: I2cResult<()>,
)
    requires
        write_transaction(s, addr, head, payload, r),
        forall|i: int|
            0 <= i < s.len() && is_status_read(#[trigger] s[i]) ==> shows(s[i], S_TRANS_DONE) && shows(
                s[i],
                S_ACK_ERROR,
            ) && shows(s[i], S_TX_CAN_ACCEPT),
    ensures
        r == Err::<(), I2cError>(I2cError::NotAcknowledged),
{
    let (ctrl, f, q, complete) = choose|ctrl: u32, f: Seq<BusEvent>, q: Seq<BusEvent>, complete: bool|
        #[trigger] write_shape(s, addr, head, payload, r, ctrl, f, q, complete);
    let pre = start_write_events(addr, head, write_len(head, payload), ctrl);
    let (ws, tail) = choose|ws: Seq<Seq<BusEvent>>, tail: Seq<BusEvent>|
        #[trigger] fill_shape(f, payload, ws, tail) && complete == (ws.len() == payload.len());
    if !complete {
        // the last wait for room ran out, yet every status read shows room
        assert(tail.len() > 0) by {
            if tail.len() == 0 {
                assert(tail.len() < I2C_FIFO_WAIT);
            }
        }
        let k = pre.len() + f.len() - 1;
        assert(f[f.len() - 1] == tail.last());
        assert(s[k] == f[f.len() - 1]);
        assert(false);
    }
    if q.len() > 0 {
        assert(s[(pre.len() + f.len()) as int] == q[0]);
        assert(is_status_read(q[0]));
    }
    lemma_poll_first_ack_error(q, I2C_DEFAULT_WAIT as nat);
}

/// The bytes handed to the FIFO in `s`, in order.
pub open spec fn fifo_sent(s: Seq<BusEvent>) -> Seq<u8>
    decreases s.len(),
{
    if s.len() == 0 {
        Seq::empty()
    } else {
        let earlier = fifo_sent(s.drop_last());
        match s.last() {
            BusEvent::Write { offset, value } => if offset == REG_FIFO {
                earlier.push(low_byte(value))
            } else {
                earlier
            },
            _ => earlier,
        }
    }
}

/// The bytes taken from the FIFO in `s`, in order.
pub open spec fn fifo_received(s: Seq<BusEvent>) -> Seq<u8>
    decreases s.len(),
{
    if s.len() == 0 {
        Seq::empty()
    } else {
        let earlier = fifo_received(s.drop_last());
        match s.last() {
            BusEvent::Read { offset, value } => if offset == REG_FIFO {
                earlier.push(low_byte(value))
            } else {
                earlier
            },
            _ => earlier,
        }
    }
}

proof fn lemma_fifo_push(s: Seq<BusEvent>, e: BusEvent)
    ensures
        fifo_sent(s.push(e)) == fifo_sent(s) + fifo_sent(seq![e]),
        fifo_received(s.push(e)) == fifo_received(s) + fifo_received(seq![e]),
{
    assert(s.push(e).drop_last() =~= s);
    assert(s.push(e).last() == e);
    lemma_fifo_one(e);
    match e {
        BusEvent::Write { offset, value } => {
            assert(fifo_sent(s) + seq![low_byte(value)] =~= fifo_sent(s).push(low_byte(value)));
            assert(fifo_sent(s) + Seq::<u8>::empty() =~= fifo_sent(s));
            assert(fifo_received(s) + Seq::<u8>::empty() =~= fifo_received(s));
        },
        BusEvent::Read { offset, value } => {
            assert(fifo_received(s) + seq![low_byte(value)] =~= fifo_received(s).push(low_byte(value)));
            assert(fifo_sent(s) + Seq::<u8>::empty() =~= fifo_sent(s));
            assert(fifo_received(s) + Seq::<u8>::empty() =~= fifo_received(s));
        },
        _ => {
            assert(fifo_sent(s) + Seq::<u8>::empty() =~= fifo_sent(s));
            assert(fifo_received(s) + Seq::<u8>::empty() =~= fifo_received(s));
        },
    }
}

proof fn lemma_fifo_concat(a: Seq<BusEvent>, b: Seq<BusEvent>)
    ensures
        fifo_sent(a + b) == fifo_sent(a) + fifo_sent(b),
        fifo_received(a + b) == fifo_received(a) + fifo_received(b),
    decreases b.len(),
{
    if b.len() == 0 {
        assert(a + b =~= a);
        assert(fifo_sent(a) + fifo_sent(b) =~= fifo_sent(a));
        assert(fifo_received(a) + fifo_received(b) =~= fifo_received(a));
    } else {
        let c = b.drop_last();
        lemma_fifo_concat(a, c);
        assert(a + b =~= (a + c).push(b.last()));
        assert(b =~= c.push(b.last()));
        lemma_fifo_push(a + c, b.last());
        lemma_fifo_push(c, b.last());
        assert(fifo_sent(a + b) =~= fifo_sent(a) + fifo_sent(b));
        assert(fifo_received(a + b) =~= fifo_received(a) + fifo_received(b));
    }
}

proof fn lemma_fifo_one(e: BusEvent)
    ensures
        fifo_sent(seq![e]) == (match e {
            BusEvent::Write { offset, value } => if offset == REG_FIFO {
                seq![low_byte(value)]
            } else {
                Seq::<u8>::empty()
            },
            _ => Seq::<u8>::empty(),
        }),
        fifo_received(seq![e]) == (match e {
            BusEvent::Read { offset, value } => if offset == REG_FIFO {
                seq![low_byte(value)]
            } else {
                Seq::<u8>::empty()
            },
            _ => Seq::<u8>::empty(),
        }),
{
    let s = seq![e];
    assert(s.drop_last() =~= Seq::<BusEvent>::empty());
    assert(s.last() == e);
    assert(fifo_sent(Seq::<BusEvent>::empty()) == Seq::<u8>::empty());
    assert(fifo_received(Seq::<BusEvent>::empty()) == Seq::<u8>::empty());
    match e {
        BusEvent::Write { offset, value } => {
            assert(Seq::<u8>::empty().push(low_byte(value)) =~= seq![low_byte(value)]);
        },
        BusEvent::Read { offset, value } => {
            assert(Seq::<u8>::empty().push(low_byte(value)) =~= seq![low_byte(value)]);
        },
        _ => {},
    }
}

/// Status reads and pauses move nothing through the FIFO.
proof fn lemma_fifo_status_only(s: Seq<BusEvent>)
    requires
        forall|i: int| 0 <= i < s.len() ==> is_status_read(#[trigger] s[i]) || is_pause(s[i]),
    ensures
        fifo_sent(s) == Seq::<u8>::empty(),
        fifo_received(s) == Seq::<u8>::empty(),
    decreases s.len(),
{
    if s.len() > 0 {
        let c = s.drop_last();
        assert forall|i: int| 0 <= i < c.len() implies is_status_read(#[trigger] c[i]) || is_pause(c[i]) by {
            assert(c[i] == s[i]);
        }
        lemma_fifo_status_only(c);
        assert(is_status_read(s[s.len() - 1]) || is_pause(s[s.len() - 1]));
    }
}

proof fn lemma_low_byte(b: u8)
    ensures
        low_byte(b as u32) == b,
{
    assert(((b as u32) & 0xff) as u8 == b) by (bit_vector);
}

proof fn lemma_fifo_begin(addr: u8, len: u32, ctrl: u32)
    ensures
        fifo_sent(begin_events(addr, len, ctrl)) == Seq::<u8>::empty(),
        fifo_received(begin_events(addr, len, ctrl)) == Seq::<u8>::empty(),
{
    let e = begin_events(addr, len, ctrl);
    lemma_fifo_one(e[0]);
    lemma_fifo_one(e[1]);
    lemma_fifo_one(e[2]);
    lemma_fifo_one(e[3]);
    lemma_fifo_one(e[4]);
    assert(e =~= seq![e[0]] + seq![e[1]] + seq![e[2]] + seq![e[3]] + seq![e[4]]);
    lemma_fifo_concat(seq![e[0]], seq![e[1]]);
    lemma_fifo_concat(seq![e[0]] + seq![e[1]], seq![e[2]]);
    lemma_fifo_concat(seq![e[0]] + seq![e[1]] + seq![e[2]], seq![e[3]]);
    lemma_fifo_concat(seq![e[0]] + seq![e[1]] + seq![e[2]] + seq![e[3]], seq![e[4]]);
    assert(Seq::<u8>::empty() + Seq::<u8>::empty() =~= Seq::<u8>::empty());
}

proof fn lemma_fifo_prime(head: Seq<u8>)
    ensures
        fifo_sent(prime_events(head)) == head,
        fifo_received(prime_events(head)) == Seq::<u8>::empty(),
    decreases head.len(),
{
    if head.len() == 0 {
        assert(prime_events(head) =~= Seq::<BusEvent>::empty());
    } else {
        let c = head.drop_last();
        lemma_fifo_prime(c);
        let e = write_ev(REG_FIFO, head.last() as u32);
        assert(prime_events(head) =~= prime_events(c).push(e));
        lemma_fifo_push(prime_events(c), e);
        lemma_fifo_one(e);
        lemma_low_byte(head.last());
        assert(head =~= c.push(head.last()));
        assert(fifo_sent(prime_events(head)) =~= head);
        assert(fifo_received(prime_events(head)) =~= Seq::<u8>::empty());
    }
}

proof fn lemma_fifo_start_write(addr: u8, head: Seq<u8>, len: u32, ctrl: u32)
    ensures
        fifo_sent(start_write_events(addr, head, len, ctrl)) == head,
        fifo_received(start_write_events(addr, head, len, ctrl)) == Seq::<u8>::empty(),
{
    let e = write_ev(REG_C, start_write());
    lemma_fifo_begin(addr, len, ctrl);
    lemma_fifo_prime(head);
    lemma_fifo_one(e);
    lemma_fifo_concat(begin_events(addr, len, ctrl), prime_events(head));
    lemma_fifo_concat(begin_events(addr, len, ctrl) + prime_events(head), seq![e]);
    assert(Seq::<u8>::empty() + head + Seq::<u8>::empty() =~= head);
    assert(Seq::<u8>::empty() + Seq::<u8>::empty() + Seq::<u8>::empty() =~= Seq::<u8>::empty());
}

proof fn lemma_fifo_start_read(addr: u8, len: u32, ctrl: u32)
    ensures
        fifo_sent(start_read_events(addr, len, ctrl)) == Seq::<u8>::empty(),
        fifo_received(start_read_events(addr, len, ctrl)) == Seq::<u8>::empty(),
{
    let e = write_ev(REG_C, start_read());
    lemma_fifo_begin(addr, len, ctrl);
    lemma_fifo_one(e);
    lemma_fifo_concat(begin_events(addr, len, ctrl), seq![e]);
    assert(Seq::<u8>::empty() + Seq::<u8>::empty() =~= Seq::<u8>::empty());
}

proof fn lemma_fifo_fill(ws: Seq<Seq<BusEvent>>, bytes: Seq<u8>)
    requires
        ws.len() == bytes.len(),
        waits_ok(ws, S_TX_CAN_ACCEPT),
    ensures
        fifo_sent(fill_events(ws, bytes)) == bytes,
        fifo_received(fill_events(ws, bytes)) == Seq::<u8>::empty(),
    decreases ws.len(),
{
    if ws.len() > 0 {
        let wc = ws.drop_last();
        let bc = bytes.drop_last();
        assert(waits_ok(wc, S_TX_CAN_ACCEPT)) by {
            assert forall|k: int| 0 <= k < wc.len() implies wait_reads(#[trigger] wc[k], S_TX_CAN_ACCEPT, I2C_FIFO_WAIT as nat)
                && wait_succeeded(wc[k], S_TX_CAN_ACCEPT) by {
                assert(wc[k] == ws[k]);
            }
        }
        lemma_fifo_fill(wc, bc);
        let w = ws.last();
        assert(wait_reads(ws[ws.len() - 1], S_TX_CAN_ACCEPT, I2C_FIFO_WAIT as nat));
        lemma_fifo_status_only(w);
        let e = write_ev(REG_FIFO, bytes.last() as u32);
        lemma_fifo_push(w, e);
        lemma_fifo_one(e);
        lemma_low_byte(bytes.last());
        lemma_fifo_concat(fill_events(wc, bc), push_byte(w, bytes.last()));
        assert(bytes =~= bc.push(bytes.last()));
        assert(fifo_sent(fill_events(ws, bytes)) =~= bytes);
        assert(fifo_received(fill_events(ws, bytes)) =~= Seq::<u8>::empty());
    } else {
        assert(bytes =~= Seq::<u8>::empty());
    }
}

proof fn lemma_fifo_drain(ws: Seq<Seq<BusEvent>>, vals: Seq<u32>)
    requires
        ws.len() == vals.len(),
        waits_ok(ws, S_RX_HAS_DATA),
    ensures
        fifo_sent(drain_events(ws, vals)) == Seq::<u8>::empty(),
        fifo_received(drain_events(ws, vals)) == vals.map_values(|v: u32| low_byte(v)),
    decreases ws.len(),
{
    if ws.len() > 0 {
        let wc = ws.drop_last();
        let vc = vals.drop_last();
        assert(waits_ok(wc, S_RX_HAS_DATA)) by {
            assert forall|k: int| 0 <= k < wc.len() implies wait_reads(#[trigger] wc[k], S_RX_HAS_DATA, I2C_FIFO_WAIT as nat)
                && wait_succeeded(wc[k], S_RX_HAS_DATA) by {
                assert(wc[k] == ws[k]);
            }
        }
        lemma_fifo_drain(wc, vc);
        let w = ws.last();
        assert(wait_reads(ws[ws.len() - 1], S_RX_HAS_DATA, I2C_FIFO_WAIT as nat));
        lemma_fifo_status_only(w);
        let e = BusEvent::Read { offset: REG_FIFO, value: vals.last() };
        lemma_fifo_push(w, e);
        lemma_fifo_one(e);
        lemma_fifo_concat(drain_events(wc, vc), pull_byte(w, vals.last()));
        assert(vals =~= vc.push(vals.last()));
        assert(fifo_sent(drain_events(ws, vals)) =~= Seq::<u8>::empty());
        assert(fifo_received(drain_events(ws, vals)) =~= vals.map_values(|v: u32| low_byte(v)));
    } else {
        assert(vals.map_values(|v: u32| low_byte(v)) =~= Seq::<u8>::empty());
    }
}

/// A write transfer that succeeded handed the FIFO exactly its bytes, in order, and took
/// nothing from it.
pub proof fn lemma_write_sends(s: Seq<BusEvent>, addr: u8, head: Seq<u8>, payload: Seq<u8>)
    requires
        write_transaction(s, addr, head, payload, Ok(())),
    ensures
        fifo_sent(s) == head + payload,
        fifo_received(s) == Seq::<u8>::empty(),
{
    let (ctrl, f, q, complete) = choose|ctrl: u32, f: Seq<BusEvent>, q: Seq<BusEvent>, complete: bool|
        #[trigger] write_shape(s, addr, head, payload, Ok(()), ctrl, f, q, complete);
    let (ws, tail) = choose|ws: Seq<Seq<BusEvent>>, tail: Seq<BusEvent>|
        #[trigger] fill_shape(f, payload, ws, tail) && complete == (ws.len() == payload.len());
    let pre = start_write_events(addr, head, write_len(head, payload), ctrl);
    assert(payload.take(ws.len() as int) =~= payload);
    assert(tail =~= Seq::<BusEvent>::empty());
    assert(f =~= fill_events(ws, payload));
    lemma_fifo_start_write(addr, head, write_len(head, payload), ctrl);
    lemma_fifo_fill(ws, payload);
    lemma_poll_quiet(q, I2C_DEFAULT_WAIT as nat);
    lemma_fifo_status_only(q);
    lemma_fifo_concat(pre, f);
    lemma_fifo_concat(pre + f, q);
    assert(fifo_sent(s) =~= head + payload);
    assert(fifo_received(s) =~= Seq::<u8>::empty());
}

/// A register read that succeeded handed the FIFO only the register address and took from
/// it exactly the bytes it returns.
pub proof fn lemma_read_receives(s: Seq<BusEvent>, addr: u8, reg: u8, n: nat, got: Seq<u8>)
    requires
        read_transaction(s, addr, reg, n, got, Ok(())),
    ensures
        fifo_sent(s) == seq![reg],
        fifo_received(s) == got,
        got.len() == n,
{
    let (a, r1, ctrl, d, q) = choose|a: Seq<BusEvent>, r1: I2cResult<()>, ctrl: u32, d: Seq<BusEvent>, q: Seq<BusEvent>|
        #[trigger] read_shape(s, addr, reg, n, got, Ok(()), a, r1, ctrl, d, q);
    lemma_write_sends(a, addr, seq![reg], Seq::empty());
    let (ws, vals, tail) = choose|ws: Seq<Seq<BusEvent>>, vals: Seq<u32>, tail: Seq<BusEvent>|
        #[trigger] drain_shape(d, n, ws, vals, tail) && got == vals.map_values(|v: u32| low_byte(v));
    assert(got.len() == n) by {
        if got.len() < n {
            assert(Ok::<(), I2cError>(()) == Err::<(), I2cError>(I2cError::TimedOut));
        }
    }
    assert(tail =~= Seq::<BusEvent>::empty());
    assert(d =~= drain_events(ws, vals));
    let st = start_read_events(addr, n as u32, ctrl);
    lemma_fifo_start_read(addr, n as u32, ctrl);
    lemma_fifo_drain(ws, vals);
    lemma_poll_quiet(q, I2C_DEFAULT_WAIT as nat);
    lemma_fifo_status_only(q);
    lemma_fifo_concat(a, st);
    lemma_fifo_concat(a + st, d);
    lemma_fifo_concat(a + st + d, q);
    assert(seq![reg] + Seq::<u8>::empty() =~= seq![reg]);
    assert(fifo_sent(s) =~= seq![reg]);
    assert(fifo_received(s) =~= got);
}

/// Writing byte `v` to register `reg` and reading that register back gives `v` whenever the
/// slave hands back the data byte it was given: the write puts exactly the register address
/// and `v` on the bus, and the read sends only the register address and returns exactly the
/// byte the bus delivered.
pub proof fn lemma_register_round_trip(
    s1: Seq<BusEvent>,
    s2: Seq<BusEvent>,
    addr: u8,
    reg: u8,
    v: u8,
    b: u8,
)
    requires
        write_transaction(s1, addr, seq![reg, v], Seq::empty(), Ok(())),
        read_transaction(s2, addr, reg, 1, seq![b], Ok(())),
        fifo_received(s2) == fifo_sent(s1).drop_first(),
    ensures
        fifo_sent(s1) == seq![reg, v],
        fifo_sent(s2) == seq![reg],
        fifo_received(s2) == seq![b],
        b == v,
{
    lemma_write_sends(s1, addr, seq![reg, v], Seq::empty());
    lemma_read_receives(s2, addr, reg, 1, seq![b]);
    assert(seq![reg, v] + Seq::<u8>::empty() =~= seq![reg, v]);
    assert(seq![reg, v].drop_first() =~= seq![v]);
    assert(seq![b][0] == seq![v][0]);
}

/// Initializing twice programs only the first call's clock divisor: the second call, whatever
/// its parameters, succeeds without touching the peripheral.
pub proof fn lemma_initialize_idempotent(
    t0: Seq<BusEvent>,
    init1: bool,
    t1: Seq<BusEvent>,
    speed1: u32,
    fast1: bool,
    r1: I2cResult<()>,
    init2: bool,
    t2: Seq<BusEvent>,
    speed2: u32,
    fast2: bool,
    r2: I2cResult<()>,
)
    requires
        init_step(false, t0, init1, t1, speed1, fast1, r1),
        r1.is_ok(),
        init_step(init1, t1, init2, t2, speed2, fast2, r2),
    ensures
        r2 == Ok::<(), I2cError>(()),
        init2,
        t2 == t1,
        extends(t2, t0),
        since(t2, t0) == seq![
            BusEvent::PinsReserved { granted: true },
            write_ev(REG_DIV, clock_divisor(speed1, fast1)),
        ],
{
}

} // verus!
