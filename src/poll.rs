//! The completion poller: bounded busy-waits on bits of the status register.
use vstd::prelude::*;
use crate::error::{I2cError, I2cResult};
use crate::regs::{
    extends, is_status_read, lemma_since_self, lemma_since_step, pause_ev, shows, since,
    BusEvent, I2cPort, Registers, REG_S, S_ACK_ERROR, S_TRANS_DONE,
};

verus! {


/// Status reads a data operation waits at most for completion.
pub const I2C_DEFAULT_WAIT: u32 = 2000;
/// Status reads a presence check waits at most for completion.
pub const I2C_PROBE_WAIT: u32 = 100;
/// Status reads the FIFO streamer spins at most for room or data, per byte.
pub const I2C_FIFO_WAIT: u32 = 2000;
/// Cycles to pause between two completion polls.
pub const I2C_POLL_PAUSE: u32 = 1000;

/// `s` are the status reads of a wait for `bit`: at most `limit` of them, none but the last
/// showing the bit, and fewer than `limit` only when the last one shows it.
pub open spec fn wait_reads(s: Seq<BusEvent>, bit: u32, limit: nat) -> bool {
    &&& s.len() <= limit
    &&& forall|i: int| 0 <= i < s.len() ==> is_status_read(#[trigger] s[i])
    &&& forall|i: int| 0 <= i < s.len() - 1 ==> !shows(#[trigger] s[i], bit)
    &&& s.len() < limit ==> s.len() > 0 && shows(s.last(), bit)
}

/// The wait `s` saw the bit it waited for.
pub open spec fn wait_succeeded(s: Seq<BusEvent>, bit: u32) -> bool {
    s.len() > 0 && shows(s.last(), bit)
}

/// `q` is a completion poll with a budget of `tries` status reads: the reads stand at the
/// even places, each read that does not show the transfer done is followed by a pause of
/// `I2C_POLL_PAUSE` cycles, and the poll ends at the first read that shows it done, or else
/// after `tries` reads and `tries` pauses.
pub open spec fn poll_events(q: Seq<BusEvent>, tries: nat) -> bool {
    &&& forall|i: int| 0 <= i < q.len() && i % 2 == 0 ==> is_status_read(#[trigger] q[i])
    &&& forall|i: int|
        0 <= i < q.len() && i % 2 == 1 ==> #[trigger] q[i] == pause_ev(I2C_POLL_PAUSE) && !shows(
            q[i - 1],
            S_TRANS_DONE,
        )
    &&& q.len() == 2 * tries || (q.len() % 2 == 1 && q.len() < 2 * tries && shows(
        q.last(),
        S_TRANS_DONE,
    ))
}

/// What a completion poll that made the events `q` reports.
pub open spec fn poll_outcome(q: Seq<BusEvent>) -> I2cResult<()> {
    if !wait_succeeded(q, S_TRANS_DONE) {
        Err(I2cError::TimedOut)
    } else if shows(q.last(), S_ACK_ERROR) {
        Err(I2cError::NotAcknowledged)
    } else {
        Ok(())
    }
}

/// Wait until the current transfer has finished: poll the status register up to `tries`
/// times, pausing between polls. Done without an acknowledge error is success, done with
/// one is `NotAcknowledged`, and never done is `TimedOut`.
pub fn wait_i2c_done<P: I2cPort>(regs: &mut Registers<P>, tries: u32) -> (r: I2cResult<()>)
    ensures
        extends(final(regs).events(), old(regs).events()),
        poll_events(since(final(regs).events(), old(regs).events()), tries as nat),
        r == poll_outcome(since(final(regs).events(), old(regs).events())),
{
    let ghost t0 = regs.events();
    proof {
        lemma_since_self(t0);
    }
    let mut n: u32 = 0;
    while n < tries
        invariant
            n <= tries,
            t0 == old(regs).events(),
            extends(regs.events(), t0),
            since(regs.events(), t0).len() == 2 * n,
            forall|i: int|
                0 <= i < 2 * n && i % 2 == 0 ==> is_status_read(#[trigger] since(regs.events(), t0)[i]),
            forall|i: int|
                0 <= i < 2 * n && i % 2 == 1 ==> #[trigger] since(regs.events(), t0)[i] == pause_ev(
                    I2C_POLL_PAUSE,
                ) && !shows(since(regs.events(), t0)[i - 1], S_TRANS_DONE),
        decreases tries - n,
    {
        let ghost t1 = regs.events();
        let ghost q1 = since(t1, t0);
        let status = regs.read(REG_S);
        let ghost e = BusEvent::Read { offset: REG_S, value: status };
        proof {
            lemma_since_step(t0, t1, e);
            assert(since(regs.events(), t0) == q1.push(e));
            assert forall|i: int| 0 <= i < 2 * n && i % 2 == 0 implies is_status_read(#[trigger] q1.push(e)[i]) by {
                assert(q1.push(e)[i] == q1[i]);
            }
            assert forall|i: int| 0 <= i < 2 * n && i % 2 == 1 implies #[trigger] q1.push(e)[i] == pause_ev(
                I2C_POLL_PAUSE,
            ) && !shows(q1.push(e)[i - 1], S_TRANS_DONE) by {
                assert(q1.push(e)[i] == q1[i]);
                assert(q1.push(e)[i - 1] == q1[i - 1]);
            }
        }
        if status & S_TRANS_DONE != 0 {
            proof {
                assert(q1.push(e).last() == e);
            }
            if status & S_ACK_ERROR == 0 {
                return Ok(());
            } else {
                return Err(I2cError::NotAcknowledged);
            }
        }
        let ghost t2 = regs.events();
        let ghost q2 = since(t2, t0);
        regs.sleep(I2C_POLL_PAUSE);
        proof {
            let p = pause_ev(I2C_POLL_PAUSE);
            lemma_since_step(t0, t2, p);
            assert(since(regs.events(), t0) == q2.push(p));
            assert forall|i: int| 0 <= i < 2 * n + 2 && i % 2 == 0 implies is_status_read(#[trigger] q2.push(p)[i]) by {
                assert(q2.push(p)[i] == q2[i]);
            }
            assert forall|i: int| 0 <= i < 2 * n + 2 && i % 2 == 1 implies #[trigger] q2.push(p)[i] == pause_ev(
                I2C_POLL_PAUSE,
            ) && !shows(q2.push(p)[i - 1], S_TRANS_DONE) by {
                if i < 2 * n {
                    assert(q2.push(p)[i] == q2[i]);
                    assert(q2.push(p)[i - 1] == q2[i - 1]);
                } else {
                    assert(q2.push(p)[i - 1] == e);
                }
            }
        }
        n += 1;
    }
    Err(I2cError::TimedOut)
}

/// Spin on the status register until `bit` shows, reading it at most `limit` times.
pub fn wait_status<P: I2cPort>(regs: &mut Registers<P>, bit: u32, limit: u32) -> (ok: bool)
    ensures
        extends(final(regs).events(), old(regs).events()),
        wait_reads(since(final(regs).events(), old(regs).events()), bit, limit as nat),
        ok == wait_succeeded(since(final(regs).events(), old(regs).events()), bit),
{
    let ghost t0 = regs.events();
    proof {
        lemma_since_self(t0);
    }
    let mut n: u32 = 0;
    while n < limit
        invariant
            n <= limit,
            t0 == old(regs).events(),
            extends(regs.events(), t0),
            since(regs.events(), t0).len() == n,
            forall|i: int|
                0 <= i < n ==> is_status_read(#[trigger] since(regs.events(), t0)[i]) && !shows(
                    since(regs.events(), t0)[i],
                    bit,
                ),
        decreases limit - n,
    {
        let ghost t1 = regs.events();
        let status = regs.read(REG_S);
        proof {
            lemma_since_step(t0, t1, BusEvent::Read { offset: REG_S, value: status });
        }
        if status & bit != 0 {
            return true;
        }
        n += 1;
    }
    false
}

} // verus!
