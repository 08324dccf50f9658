//! The FIFO streamer: fill and drain cycles of at most the FIFO's depth, one byte at a time
//! as the hardware has room or data.
use vstd::prelude::*;
use crate::error::{I2cError, I2cResult};
use crate::poll::{wait_reads, wait_status, wait_succeeded, I2C_FIFO_WAIT};
use crate::regs::{
    extends, lemma_since_chain, lemma_since_self, lemma_since_step, since, write_ev, BusEvent,
    I2cPort, Registers, FIFO_DEPTH, REG_FIFO, S_RX_HAS_DATA, S_TX_CAN_ACCEPT,
};

verus! {

/// Length of the FIFO cycle that moves the next bytes when `remaining` are left.
pub open spec fn chunk_len_spec(remaining: int) -> int {
    if remaining > FIFO_DEPTH {
        FIFO_DEPTH as int
    } else {
        remaining
    }
}

/// Every wait in `ws` was a spin on `bit` that saw it.
pub open spec fn waits_ok(ws: Seq<Seq<BusEvent>>, bit: u32) -> bool {
    forall|k: int|
        0 <= k < ws.len() ==> wait_reads(#[trigger] ws[k], bit, I2C_FIFO_WAIT as nat)
            && wait_succeeded(ws[k], bit)
}

/// A spin on `bit` that ran out.
pub open spec fn wait_failed(s: Seq<BusEvent>, bit: u32) -> bool {
    wait_reads(s, bit, I2C_FIFO_WAIT as nat) && !wait_succeeded(s, bit)
}

/// The byte `b` handed to the FIFO after the wait `w` for room.
pub open spec fn push_byte(w: Seq<BusEvent>, b: u8) -> Seq<BusEvent> {
    w.push(write_ev(REG_FIFO, b as u32))
}

/// The bytes handed to the FIFO one after the other, each after its wait in `ws`.
pub open spec fn fill_events(ws: Seq<Seq<BusEvent>>, bytes: Seq<u8>) -> Seq<BusEvent>
    decreases ws.len(),
{
    if ws.len() == 0 || bytes.len() == 0 {
        Seq::empty()
    } else {
        fill_events(ws.drop_last(), bytes.drop_last()) + push_byte(ws.last(), bytes.last())
    }
}

/// `s` hands `bytes` to the FIFO in order, each once a wait saw room for it, and stops early
/// only where a wait ran out (`tail`).
pub open spec fn fill_shape(
    s: Seq<BusEvent>,
    bytes: Seq<u8>,
    ws: Seq<Seq<BusEvent>>,
    tail: Seq<BusEvent>,
) -> bool {
    &&& ws.len() <= bytes.len()
    &&& s == fill_events(ws, bytes.take(ws.len() as int)) + tail
    &&& waits_ok(ws, S_TX_CAN_ACCEPT)
    &&& ws.len() < bytes.len() ==> wait_failed(tail, S_TX_CAN_ACCEPT)
    &&& ws.len() == bytes.len() ==> tail.len() == 0
}

/// `s` is a fill of `bytes` into the FIFO, which handed all of them over exactly when
/// `complete`.
pub open spec fn fill(s: Seq<BusEvent>, bytes: Seq<u8>, complete: bool) -> bool {
    exists|ws: Seq<Seq<BusEvent>>, tail: Seq<BusEvent>|
        #[trigger] fill_shape(s, bytes, ws, tail) && complete == (ws.len() == bytes.len())
}

/// The low byte of a FIFO register value.
pub open spec fn low_byte(v: u32) -> u8 {
    (v & 0xff) as u8
}

/// The FIFO read giving `v` after the wait `w` for data.
pub open spec fn pull_byte(w: Seq<BusEvent>, v: u32) -> Seq<BusEvent> {
    w.push(BusEvent::Read { offset: REG_FIFO, value: v })
}

/// The FIFO reads giving `vals`, each after its wait in `ws`.
pub open spec fn drain_events(ws: Seq<Seq<BusEvent>>, vals: Seq<u32>) -> Seq<BusEvent>
    decreases ws.len(),
{
    if ws.len() == 0 || vals.len() == 0 {
        Seq::empty()
    } else {
        drain_events(ws.drop_last(), vals.drop_last()) + pull_byte(ws.last(), vals.last())
    }
}

/// `s` reads the values `vals` out of the FIFO, of `n` asked for, each once a wait saw data,
/// and stops early only where a wait ran out (`tail`).
pub open spec fn drain_shape(
    s: Seq<BusEvent>,
    n: nat,
    ws: Seq<Seq<BusEvent>>,
    vals: Seq<u32>,
    tail: Seq<BusEvent>,
) -> bool {
    &&& ws.len() == vals.len()
    &&& vals.len() <= n
    &&& s == drain_events(ws, vals) + tail
    &&& waits_ok(ws, S_RX_HAS_DATA)
    &&& vals.len() < n ==> wait_failed(tail, S_RX_HAS_DATA)
    &&& vals.len() == n ==> tail.len() == 0
}

/// `s` is a drain of `n` bytes from the FIFO that obtained `got`, the low bytes of what it read.
pub open spec fn drain(s: Seq<BusEvent>, n: nat, got: Seq<u8>) -> bool {
    exists|ws: Seq<Seq<BusEvent>>, vals: Seq<u32>, tail: Seq<BusEvent>|
        #[trigger] drain_shape(s, n, ws, vals, tail) && got == vals.map_values(
            |v: u32| low_byte(v),
        )
}

proof fn lemma_fill_push(ws: Seq<Seq<BusEvent>>, w: Seq<BusEvent>, bytes: Seq<u8>, b: u8)
    ensures
        fill_events(ws.push(w), bytes.push(b)) == fill_events(ws, bytes) + push_byte(w, b),
{
    assert(ws.push(w).drop_last() =~= ws);
    assert(bytes.push(b).drop_last() =~= bytes);
}

proof fn lemma_fill_concat(
    ws1: Seq<Seq<BusEvent>>,
    b1: Seq<u8>,
    ws2: Seq<Seq<BusEvent>>,
    b2: Seq<u8>,
)
    requires
        ws1.len() == b1.len(),
        ws2.len() == b2.len(),
    ensures
        fill_events(ws1 + ws2, b1 + b2) == fill_events(ws1, b1) + fill_events(ws2, b2),
    decreases ws2.len(),
{
    if ws2.len() == 0 {
        assert(ws1 + ws2 =~= ws1);
        assert(b1 + b2 =~= b1);
        assert(fill_events(ws1, b1) + fill_events(ws2, b2) =~= fill_events(ws1, b1));
    } else {
        let ws = ws2.drop_last();
        let bs = b2.drop_last();
        lemma_fill_concat(ws1, b1, ws, bs);
        assert(ws1 + ws2 =~= (ws1 + ws).push(ws2.last()));
        assert(b1 + b2 =~= (b1 + bs).push(b2.last()));
        lemma_fill_push(ws1 + ws, ws2.last(), b1 + bs, b2.last());
        lemma_fill_push(ws, ws2.last(), bs, b2.last());
        assert(ws2 =~= ws.push(ws2.last()));
        assert(b2 =~= bs.push(b2.last()));
        assert(fill_events(ws1 + ws2, b1 + b2) =~= fill_events(ws1, b1) + fill_events(ws2, b2));
    }
}

/// A complete fill followed by another fill is one fill of both byte runs.
pub proof fn lemma_fill_append(
    s1: Seq<BusEvent>,
    b1: Seq<u8>,
    s2: Seq<BusEvent>,
    b2: Seq<u8>,
    complete: bool,
)
    requires
        fill(s1, b1, true),
        fill(s2, b2, complete),
    ensures
        fill(s1 + s2, b1 + b2, complete),
{
    let (ws1, tail1) = choose|ws: Seq<Seq<BusEvent>>, tail: Seq<BusEvent>|
        #[trigger] fill_shape(s1, b1, ws, tail) && true == (ws.len() == b1.len());
    let (ws2, tail2) = choose|ws: Seq<Seq<BusEvent>>, tail: Seq<BusEvent>|
        #[trigger] fill_shape(s2, b2, ws, tail) && complete == (ws.len() == b2.len());
    let b = b1 + b2;
    let ws = ws1 + ws2;
    let k = ws2.len() as int;
    assert(b1.take(b1.len() as int) =~= b1);
    assert(b.take(ws.len() as int) =~= b1 + b2.take(k));
    lemma_fill_concat(ws1, b1, ws2, b2.take(k));
    assert(s1 + s2 =~= fill_events(ws, b.take(ws.len() as int)) + tail2);
    assert forall|j: int| 0 <= j < ws.len() implies wait_reads(#[trigger] ws[j], S_TX_CAN_ACCEPT, I2C_FIFO_WAIT as nat)
        && wait_succeeded(ws[j], S_TX_CAN_ACCEPT) by {
        if j < ws1.len() {
            assert(ws[j] == ws1[j]);
        } else {
            assert(ws[j] == ws2[j - ws1.len()]);
        }
    }
    assert(fill_shape(s1 + s2, b, ws, tail2));
}

/// Bytes one FIFO fill or drain moves when `remaining` are left: at most the FIFO's depth.
pub fn chunk_len(remaining: usize) -> (r: usize)
    ensures
        r == chunk_len_spec(remaining as int),
{
    if remaining > FIFO_DEPTH {
        FIFO_DEPTH
    } else {
        remaining
    }
}

/// One fill cycle: hand the next bytes of `data`, from index `start`, to the FIFO, at most a
/// FIFO's depth of them, each once the FIFO shows room. Returns how many were handed over.
pub fn write_fifo<P: I2cPort>(regs: &mut Registers<P>, data: &[u8], start: usize) -> (r: I2cResult<usize>)
    requires
        start <= data@.len(),
    ensures
        extends(final(regs).events(), old(regs).events()),
        fill(
            since(final(regs).events(), old(regs).events()),
            data@.subrange(start as int, start + chunk_len_spec(data@.len() - start)),
            r.is_ok(),
        ),
        r.is_ok() ==> r == Ok::<usize, I2cError>(chunk_len_spec(data@.len() - start) as usize),
        r.is_err() ==> r == Err::<usize, I2cError>(I2cError::TimedOut),
{
    let len = data.len();
    let n = chunk_len(len - start);
    let ghost bytes = data@.subrange(start as int, start + n);
    let ghost t0 = regs.events();
    let ghost mut ws: Seq<Seq<BusEvent>> = Seq::empty();
    proof {
        lemma_since_self(t0);
        assert(bytes.take(0) =~= Seq::<u8>::empty());
    }
    let mut i: usize = 0;
    while i < n
        invariant
            i <= n,
            n == chunk_len_spec(data@.len() - start),
            start + n <= data@.len(),
            len == data@.len(),
            bytes == data@.subrange(start as int, start + n),
            t0 == old(regs).events(),
            extends(regs.events(), t0),
            ws.len() == i,
            waits_ok(ws, S_TX_CAN_ACCEPT),
            since(regs.events(), t0) == fill_events(ws, bytes.take(i as int)),
        decreases n - i,
    {
        let ghost t1 = regs.events();
        let room = wait_status(regs, S_TX_CAN_ACCEPT, I2C_FIFO_WAIT);
        let ghost w = since(regs.events(), t1);
        proof {
            lemma_since_chain(t0, t1, regs.events());
        }
        if !room {
            proof {
                assert(fill_shape(since(regs.events(), t0), bytes, ws, w));
            }
            return Err(I2cError::TimedOut);
        }
        let ghost t2 = regs.events();
        regs.write(REG_FIFO, data[start + i] as u32);
        proof {
            lemma_since_step(t0, t2, write_ev(REG_FIFO, data[start + i as int] as u32));
            lemma_fill_push(ws, w, bytes.take(i as int), bytes[i as int]);
            assert(bytes.take(i + 1) =~= bytes.take(i as int).push(bytes[i as int]));
            ws = ws.push(w);
            assert(waits_ok(ws, S_TX_CAN_ACCEPT)) by {
                assert forall|k: int| 0 <= k < ws.len() implies wait_reads(#[trigger] ws[k], S_TX_CAN_ACCEPT, I2C_FIFO_WAIT as nat)
                    && wait_succeeded(ws[k], S_TX_CAN_ACCEPT) by {
                    if k < i {
                        assert(ws[k] == ws.drop_last()[k]);
                    }
                }
            }
        }
        i += 1;
    }
    proof {
        assert(fill_shape(since(regs.events(), t0), bytes, ws, Seq::empty())) by {
            assert(since(regs.events(), t0) =~= fill_events(ws, bytes.take(ws.len() as int)) + Seq::<BusEvent>::empty());
        }
    }
    Ok(n)
}

proof fn lemma_drain_push(ws: Seq<Seq<BusEvent>>, w: Seq<BusEvent>, vals: Seq<u32>, v: u32)
    ensures
        drain_events(ws.push(w), vals.push(v)) == drain_events(ws, vals) + pull_byte(w, v),
{
    assert(ws.push(w).drop_last() =~= ws);
    assert(vals.push(v).drop_last() =~= vals);
}

proof fn lemma_drain_concat(
    ws1: Seq<Seq<BusEvent>>,
    v1: Seq<u32>,
    ws2: Seq<Seq<BusEvent>>,
    v2: Seq<u32>,
)
    requires
        ws1.len() == v1.len(),
        ws2.len() == v2.len(),
    ensures
        drain_events(ws1 + ws2, v1 + v2) == drain_events(ws1, v1) + drain_events(ws2, v2),
    decreases ws2.len(),
{
    if ws2.len() == 0 {
        assert(ws1 + ws2 =~= ws1);
        assert(v1 + v2 =~= v1);
        assert(drain_events(ws1, v1) + drain_events(ws2, v2) =~= drain_events(ws1, v1));
    } else {
        let ws = ws2.drop_last();
        let vs = v2.drop_last();
        lemma_drain_concat(ws1, v1, ws, vs);
        assert(ws1 + ws2 =~= (ws1 + ws).push(ws2.last()));
        assert(v1 + v2 =~= (v1 + vs).push(v2.last()));
        lemma_drain_push(ws1 + ws, ws2.last(), v1 + vs, v2.last());
        lemma_drain_push(ws, ws2.last(), vs, v2.last());
        assert(ws2 =~= ws.push(ws2.last()));
        assert(v2 =~= vs.push(v2.last()));
        assert(drain_events(ws1 + ws2, v1 + v2) =~= drain_events(ws1, v1) + drain_events(ws2, v2));
    }
}

/// A complete drain followed by another drain is one drain of both.
pub proof fn lemma_drain_append(
    s1: Seq<BusEvent>,
    n1: nat,
    g1: Seq<u8>,
    s2: Seq<BusEvent>,
    n2: nat,
    g2: Seq<u8>,
)
    requires
        drain(s1, n1, g1),
        g1.len() == n1,
        drain(s2, n2, g2),
    ensures
        drain(s1 + s2, n1 + n2, g1 + g2),
{
    let (ws1, v1, tail1) = choose|ws: Seq<Seq<BusEvent>>, vals: Seq<u32>, tail: Seq<BusEvent>|
        #[trigger] drain_shape(s1, n1, ws, vals, tail) && g1 == vals.map_values(|v: u32| low_byte(v));
    let (ws2, v2, tail2) = choose|ws: Seq<Seq<BusEvent>>, vals: Seq<u32>, tail: Seq<BusEvent>|
        #[trigger] drain_shape(s2, n2, ws, vals, tail) && g2 == vals.map_values(|v: u32| low_byte(v));
    let ws = ws1 + ws2;
    let vals = v1 + v2;
    lemma_drain_concat(ws1, v1, ws2, v2);
    assert(s1 + s2 =~= drain_events(ws, vals) + tail2);
    assert forall|j: int| 0 <= j < ws.len() implies wait_reads(#[trigger] ws[j], S_RX_HAS_DATA, I2C_FIFO_WAIT as nat)
        && wait_succeeded(ws[j], S_RX_HAS_DATA) by {
        if j < ws1.len() {
            assert(ws[j] == ws1[j]);
        } else {
            assert(ws[j] == ws2[j - ws1.len()]);
        }
    }
    assert(g1 + g2 =~= vals.map_values(|v: u32| low_byte(v)));
    assert(drain_shape(s1 + s2, n1 + n2, ws, vals, tail2));
}

/// One drain cycle: read the next bytes into `buffer`, from index `start`, at most a FIFO's
/// depth of them, each once the FIFO shows data. Returns how many were read.
pub fn read_fifo<P: I2cPort>(regs: &mut Registers<P>, buffer: &mut [u8], start: usize) -> (r: I2cResult<usize>)
    requires
        start <= old(buffer)@.len(),
    ensures
        extends(final(regs).events(), old(regs).events()),
        final(buffer)@.len() == old(buffer)@.len(),
        forall|j: int|
            0 <= j < old(buffer)@.len() && !(start <= j < start + chunk_len_spec(old(buffer)@.len() - start))
                ==> final(buffer)@[j] == old(buffer)@[j],
        r.is_ok() ==> r == Ok::<usize, I2cError>(chunk_len_spec(old(buffer)@.len() - start) as usize)
            && drain(
            since(final(regs).events(), old(regs).events()),
            chunk_len_spec(old(buffer)@.len() - start) as nat,
            final(buffer)@.subrange(start as int, start + chunk_len_spec(old(buffer)@.len() - start)),
        ),
        r.is_err() ==> r == Err::<usize, I2cError>(I2cError::TimedOut) && exists|got: Seq<u8>|
            got.len() < chunk_len_spec(old(buffer)@.len() - start) && #[trigger] drain(
                since(final(regs).events(), old(regs).events()),
                chunk_len_spec(old(buffer)@.len() - start) as nat,
                got,
            ),
{
    let len = buffer.len();
    let n = chunk_len(len - start);
    let ghost t0 = regs.events();
    let ghost b0 = buffer@;
    let ghost mut ws: Seq<Seq<BusEvent>> = Seq::empty();
    let ghost mut vals: Seq<u32> = Seq::empty();
    proof {
        lemma_since_self(t0);
    }
    let mut i: usize = 0;
    while i < n
        invariant
            i <= n,
            n == chunk_len_spec(len - start),
            start + n <= len,
            len == b0.len(),
            b0 == old(buffer)@,
            buffer@.len() == len,
            forall|j: int| 0 <= j < len && !(start <= j < start + i) ==> buffer@[j] == b0[j],
            buffer@.subrange(start as int, start + i) == vals.map_values(|v: u32| low_byte(v)),
            t0 == old(regs).events(),
            extends(regs.events(), t0),
            ws.len() == i,
            vals.len() == i,
            waits_ok(ws, S_RX_HAS_DATA),
            since(regs.events(), t0) == drain_events(ws, vals),
        decreases n - i,
    {
        let ghost t1 = regs.events();
        let ready = wait_status(regs, S_RX_HAS_DATA, I2C_FIFO_WAIT);
        let ghost w = since(regs.events(), t1);
        proof {
            lemma_since_chain(t0, t1, regs.events());
        }
        if !ready {
            proof {
                assert(drain_shape(since(regs.events(), t0), n as nat, ws, vals, w));
                assert(drain(since(regs.events(), t0), n as nat, vals.map_values(|v: u32| low_byte(v))));
                let got = vals.map_values(|v: u32| low_byte(v));
                assert(got.len() < chunk_len_spec(old(buffer)@.len() - start));
                assert(drain(since(regs.events(), old(regs).events()), chunk_len_spec(old(buffer)@.len() - start) as nat, got));
            }
            return Err(I2cError::TimedOut);
        }
        let ghost t2 = regs.events();
        let v = regs.read(REG_FIFO);
        let ghost prev = buffer@;
        buffer[start + i] = (v & 0xff) as u8;
        proof {
            let ghost old_vals = vals;
            lemma_since_step(t0, t2, BusEvent::Read { offset: REG_FIFO, value: v });
            lemma_drain_push(ws, w, vals, v);
            ws = ws.push(w);
            vals = vals.push(v);
            assert forall|j: int| 0 <= j < i + 1 implies #[trigger] buffer@.subrange(start as int, start + i + 1)[j]
                == vals.map_values(|v: u32| low_byte(v))[j] by {
                if j < i {
                    assert(prev.subrange(start as int, start + i)[j] == old_vals.map_values(|v: u32| low_byte(v))[j]);
                    assert(buffer@[start + j] == prev[start + j]);
                } else {
                    assert(buffer@[start + i as int] == low_byte(v));
                }
            }
            assert(buffer@.subrange(start as int, start + i + 1) =~= vals.map_values(|v: u32| low_byte(v)));
            assert(waits_ok(ws, S_RX_HAS_DATA)) by {
                assert forall|k: int| 0 <= k < ws.len() implies wait_reads(#[trigger] ws[k], S_RX_HAS_DATA, I2C_FIFO_WAIT as nat)
                    && wait_succeeded(ws[k], S_RX_HAS_DATA) by {
                    if k < i {
                        assert(ws[k] == ws.drop_last()[k]);
                    }
                }
            }
        }
        i += 1;
    }
    proof {
        assert(drain_shape(since(regs.events(), t0), n as nat, ws, vals, Seq::empty())) by {
            assert(since(regs.events(), t0) =~= drain_events(ws, vals) + Seq::<BusEvent>::empty());
        }
    }
    Ok(n)
}

/// Nothing moved is a complete fill of nothing.
pub proof fn lemma_fill_empty()
    ensures
        fill(Seq::empty(), Seq::empty(), true),
{
    let ws = Seq::<Seq<BusEvent>>::empty();
    assert(Seq::<u8>::empty().take(0) =~= Seq::<u8>::empty());
    assert(Seq::<BusEvent>::empty() =~= fill_events(ws, Seq::<u8>::empty()) + Seq::<BusEvent>::empty());
    assert(fill_shape(Seq::empty(), Seq::empty(), ws, Seq::empty()));
}

/// A fill that stopped early within a prefix of `bytes` stopped early within `bytes`.
pub proof fn lemma_fill_widen(s: Seq<BusEvent>, bytes: Seq<u8>, k: int)
    requires
        0 <= k <= bytes.len(),
        fill(s, bytes.take(k), false),
    ensures
        fill(s, bytes, false),
{
    let (ws, tail) = choose|ws: Seq<Seq<BusEvent>>, tail: Seq<BusEvent>|
        #[trigger] fill_shape(s, bytes.take(k), ws, tail) && false == (ws.len() == bytes.take(k).len());
    assert(bytes.take(k).take(ws.len() as int) =~= bytes.take(ws.len() as int));
    assert(fill_shape(s, bytes, ws, tail));
}

/// Nothing moved is a complete drain of nothing.
pub proof fn lemma_drain_empty()
    ensures
        drain(Seq::empty(), 0, Seq::empty()),
{
    let ws = Seq::<Seq<BusEvent>>::empty();
    let vals = Seq::<u32>::empty();
    assert(Seq::<BusEvent>::empty() =~= drain_events(ws, vals) + Seq::<BusEvent>::empty());
    assert(Seq::<u8>::empty() =~= vals.map_values(|v: u32| low_byte(v)));
    assert(drain_shape(Seq::empty(), 0, ws, vals, Seq::empty()));
}

/// A drain that stopped early stopped early whatever more had been asked for.
pub proof fn lemma_drain_widen(s: Seq<BusEvent>, m: nat, got: Seq<u8>, n: nat)
    requires
        m <= n,
        got.len() < m,
        drain(s, m, got),
    ensures
        drain(s, n, got),
{
    let (ws, vals, tail) = choose|ws: Seq<Seq<BusEvent>>, vals: Seq<u32>, tail: Seq<BusEvent>|
        #[trigger] drain_shape(s, m, ws, vals, tail) && got == vals.map_values(|v: u32| low_byte(v));
    assert(drain_shape(s, n, ws, vals, tail));
}

} // verus!
