use vstd::prelude::*;

verus! {

/// Commands to the packet receiver.
#[derive(Debug, Clone, Copy, PartialEq, Eq, Structural)]
pub enum RecvCmd {
    Destroy,
}

/// Commands to the down-converter stage: tune the local oscillator to a
/// channel, or stop.
#[derive(Debug, Clone, Copy, PartialEq, Eq, Structural)]
pub enum DdcCmd {
    LoCh(isize),
    Destroy,
}

/// The local-oscillator channel used until told otherwise: a quarter of the
/// channels of a frame (`N_PT_PER_FRAME / 4`).
pub const DEFAULT_LO_CH: isize = 1024;

// ---------------------------------------------------------------------------
// Packet sequencing
// ---------------------------------------------------------------------------

/// What the receiver sends downstream next.
#[derive(Debug, Clone, Copy, PartialEq, Eq, Structural)]
pub enum SeqAction {
    /// The packet that was received.
    Forward,
    /// A stand-in for a lost packet: zero samples, with this counter.
    Fill(u64),
}

/// The state that keeps the packet stream sent downstream free of gaps:
/// the counter expected next (none before the first packet) and the number
/// of packets found missing since the stream (re)started.
#[derive(Debug, Clone, Copy, PartialEq, Eq, Structural)]
pub struct PktSequencer {
    pub next_cnt: Option<u64>,
    pub ndropped: u64,
}

/// The state after a packet with counter `p` has arrived: the first packet
/// fixes the expected counter, and a counter of 0 (a restart of the
/// digitizer) or the first packet resets the loss count.
pub open spec fn accepted(s: PktSequencer, p: u64) -> PktSequencer {
    PktSequencer {
        next_cnt: if s.next_cnt is None {
            Some(p)
        } else {
            s.next_cnt
        },
        ndropped: if s.next_cnt is None || p == 0 {
            0
        } else {
            s.ndropped
        },
    }
}

/// One decision while packet `p` waits to be sent. When the expected
/// counter `c` has caught up with `p` (or passed it), `p` is sent and `p + 1`
/// is expected next; otherwise packet `c` was lost, it is counted, and a
/// stand-in for it is sent.
pub open spec fn step(s: PktSequencer, p: u64) -> (PktSequencer, Option<SeqAction>) {
    match s.next_cnt {
        None => (s, None),
        Some(c) => if c >= p {
            (PktSequencer { next_cnt: Some((p + 1) as u64), ndropped: s.ndropped }, Some(SeqAction::Forward))
        } else {
            (PktSequencer { next_cnt: s.next_cnt, ndropped: (s.ndropped + 1) as u64 }, Some(SeqAction::Fill(c)))
        },
    }
}

/// The inputs on which `step` stays within the counters' range.
pub open spec fn step_ok(s: PktSequencer, p: u64) -> bool {
    match s.next_cnt {
        None => true,
        Some(c) => if c >= p {
            p < u64::MAX
        } else {
            s.ndropped < u64::MAX
        },
    }
}

/// The state after a stand-in has gone out: the next counter is expected.
pub open spec fn filled(s: PktSequencer) -> PktSequencer {
    PktSequencer {
        next_cnt: match s.next_cnt {
            Some(c) => Some((c + 1) as u64),
            None => None,
        },
        ndropped: s.ndropped,
    }
}

/// How far the expected counter is behind `p`.
pub open spec fn lag(s: PktSequencer, p: u64) -> nat {
    match s.next_cnt {
        Some(c) => if c < p {
            (p - c) as nat
        } else {
            0
        },
        None => 0,
    }
}

/// The actions taken for packet `p` when every send goes through at once,
/// and the state after them.
pub open spec fn drain(s: PktSequencer, p: u64) -> (Seq<SeqAction>, PktSequencer)
    decreases lag(s, p),
{
    match step(s, p).1 {
        None => (Seq::empty(), s),
        Some(SeqAction::Forward) => (seq![SeqAction::Forward], step(s, p).0),
        Some(SeqAction::Fill(c)) => {
            let r = drain(filled(step(s, p).0), p);
            (seq![SeqAction::Fill(c)] + r.0, r.1)
        },
    }
}

/// The packets sent for the actions `acts` taken for packet `p`: each as
/// its counter and whether it is a stand-in.
pub open spec fn sent_items(acts: Seq<SeqAction>, p: u64) -> Seq<(u64, bool)> {
    acts.map_values(
        |a: SeqAction|
            match a {
                SeqAction::Forward => (p, false),
                SeqAction::Fill(c) => (c, true),
            },
    )
}

/// The counters of the packets sent for the actions `acts` taken for
/// packet `p`.
pub open spec fn sent_counts(acts: Seq<SeqAction>, p: u64) -> Seq<u64> {
    sent_items(acts, p).map_values(|x: (u64, bool)| x.0)
}

/// The packets sent downstream (counter, and whether a stand-in), and the
/// final state, when the packets with counters `ps` arrive in this order
/// and every send goes through.
pub open spec fn run_sent(s: PktSequencer, ps: Seq<u64>) -> (Seq<(u64, bool)>, PktSequencer)
    decreases ps.len(),
{
    if ps.len() == 0 {
        (Seq::empty(), s)
    } else {
        let r = run_sent(s, ps.drop_last());
        let p = ps.last();
        let d = drain(accepted(r.1, p), p);
        (r.0 + sent_items(d.0, p), d.1)
    }
}

/// The counters sent downstream, and the final state, when the packets
/// with counters `ps` arrive in this order and every send goes through.
pub open spec fn run(s: PktSequencer, ps: Seq<u64>) -> (Seq<u64>, PktSequencer) {
    (run_sent(s, ps).0.map_values(|x: (u64, bool)| x.0), run_sent(s, ps).1)
}

/// Every decision that `drain` takes meets the preconditions of
/// `PktSequencer::next_action` and `PktSequencer::fill_sent`.
pub open spec fn drain_ok(s: PktSequencer, p: u64) -> bool
    decreases lag(s, p),
{
    &&& step_ok(s, p)
    &&& match step(s, p).1 {
        Some(SeqAction::Fill(c)) => c < u64::MAX && drain_ok(filled(step(s, p).0), p),
        _ => true,
    }
}

/// The actions taken for packet `p` once a counter `c` is expected:
/// stand-ins for `c, ..., p - 1`, then `p` itself, after which `p + 1` is
/// expected. When the loss count has room for the `p - c` stand-ins, no
/// decision on the way overflows a counter and the loss count grows by
/// exactly their number.
pub proof fn lemma_drain_actions(s: PktSequencer, p: u64)
    requires
        s.next_cnt is Some,
        p < u64::MAX,
    ensures
        drain(s, p).0 == Seq::new(
            lag(s, p),
            |i: int| SeqAction::Fill((s.next_cnt.unwrap() + i) as u64),
        ).push(SeqAction::Forward),
        drain(s, p).1.next_cnt == Some((p + 1) as u64),
        s.ndropped + lag(s, p) <= u64::MAX ==> drain_ok(s, p) && drain(s, p).1.ndropped
            == s.ndropped + lag(s, p),
    decreases lag(s, p),
{
    let c = s.next_cnt.unwrap();
    if c >= p {
        assert(drain(s, p).0 =~= Seq::<SeqAction>::empty().push(SeqAction::Forward));
    } else {
        let s1 = filled(step(s, p).0);
        assert(s1.next_cnt == Some((c + 1) as u64));
        assert(lag(s1, p) == lag(s, p) - 1);
        lemma_drain_actions(s1, p);
        let n = lag(s, p);
        let fills = Seq::new(n, |i: int| SeqAction::Fill((c + i) as u64));
        let fills1 = Seq::new((n - 1) as nat, |i: int| SeqAction::Fill((c + 1 + i) as u64));
        assert(seq![SeqAction::Fill(c)] + fills1.push(SeqAction::Forward) =~= fills.push(
            SeqAction::Forward,
        ));
    }
}

/// Gap filling: while packet `p` waits and the expected counter is `c`,
/// the receiver sends stand-ins for `c, c + 1, ..., p - 1`, then `p`
/// itself, counts the `p - c` stand-ins as dropped, and expects `p + 1`.
/// A packet older than expected (`c > p`) is sent as it is, and `p + 1` is
/// expected next. No decision on the way overflows a counter.
pub proof fn lemma_gap_fill(s: PktSequencer, p: u64)
    requires
        s.next_cnt is Some,
        p < u64::MAX,
        s.ndropped + lag(s, p) <= u64::MAX,
    ensures
        drain_ok(s, p),
        drain(s, p).0 == Seq::new(
            lag(s, p),
            |i: int| SeqAction::Fill((s.next_cnt.unwrap() + i) as u64),
        ).push(SeqAction::Forward),
        sent_counts(drain(s, p).0, p) == Seq::new(
            lag(s, p) + 1,
            |i: int| (p - lag(s, p) + i) as u64,
        ),
        drain(s, p).1 == (PktSequencer {
            next_cnt: Some((p + 1) as u64),
            ndropped: (s.ndropped + lag(s, p)) as u64,
        }),
{
    lemma_drain_actions(s, p);
    let c = s.next_cnt.unwrap();
    let n = lag(s, p);
    let d = drain(s, p).0;
    let cnts = sent_counts(d, p);
    assert(c >= p ==> n == 0);
    assert(c < p ==> c == p - n);
    assert forall|i: int| 0 <= i < n + 1 implies #[trigger] cnts[i] == (p - n + i) as u64 by {
        if i < n {
            assert(d[i] == SeqAction::Fill((c + i) as u64));
        } else {
            assert(d[i] == SeqAction::Forward);
        }
    }
    assert(cnts =~= Seq::new(n + 1, |i: int| (p - n + i) as u64));
}

/// A gap-free stream: when packets arrive with strictly increasing counters
/// `ps` at a freshly started receiver, the counters sent downstream are
/// exactly `ps[0], ps[0] + 1, ..., ps.last()` in order, the receiver
/// expects `ps.last() + 1` next, and its loss count is the number of
/// counters in that range that never arrived.
pub proof fn lemma_gap_free_stream(ps: Seq<u64>)
    requires
        ps.len() > 0,
        forall|i: int, j: int| 0 <= i < j < ps.len() ==> ps[i] < ps[j],
        ps.last() < u64::MAX,
    ensures
        ({
            let r = run(PktSequencer { next_cnt: None, ndropped: 0 }, ps);
            &&& r.0 == Seq::new(
                (ps.last() - ps[0] + 1) as nat,
                |i: int| (ps[0] + i) as u64,
            )
            &&& r.1.next_cnt == Some((ps.last() + 1) as u64)
            &&& r.1.ndropped == ps.last() - ps[0] + 1 - ps.len()
        }),
    decreases ps.len(),
{
    let s0 = PktSequencer { next_cnt: None, ndropped: 0 };
    let p = ps.last();
    let pre = ps.drop_last();
    let rs = run_sent(s0, pre);
    let a = accepted(rs.1, p);
    let d = drain(a, p);
    assert(run(s0, ps).0 =~= run(s0, pre).0 + sent_counts(d.0, p));
    if ps.len() == 1 {
        assert(a == PktSequencer { next_cnt: Some(p), ndropped: 0 });
        lemma_gap_fill(a, p);
        assert(run(s0, pre).0 =~= Seq::<u64>::empty());
        assert(run(s0, ps).0 =~= Seq::new(1, |i: int| (ps[0] + i) as u64));
    } else {
        assert forall|i: int, j: int| 0 <= i < j < pre.len() implies pre[i] < pre[j] by {
            assert(pre[i] == ps[i] && pre[j] == ps[j]);
        }
        let q = pre.last();
        assert(q == ps[ps.len() - 2]);
        assert(q < p);
        assert(pre[0] == ps[0]);
        lemma_gap_free_stream(pre);
        assert(a == rs.1);
        assert(lag(a, p) == p - q - 1);
        lemma_gap_fill(a, p);
        let first = ps[0];
        assert(run(s0, pre).0 + Seq::new(lag(a, p) + 1, |i: int| (p - lag(a, p) + i) as u64)
            =~= Seq::new((p - first + 1) as nat, |i: int| (first + i) as u64));
    }
}

/// The sent counters never skip, whatever the order in which packets
/// arrive (late, repeated or restarted counters included): from a freshly
/// started receiver, each packet sent has a counter at most one above the
/// packet sent before it, and a stand-in has exactly the counter after the
/// one before it; so a counter that does not rise belongs to a received
/// packet. The first packet sent is the first one received, the last one
/// sent is the last one received, and the one after it is expected next.
pub proof fn lemma_sent_never_skips(ps: Seq<u64>)
    requires
        forall|i: int| 0 <= i < ps.len() ==> ps[i] < u64::MAX,
    ensures
        ({
            let r = run_sent(PktSequencer { next_cnt: None, ndropped: 0 }, ps);
            let out = r.0;
            &&& forall|k: int| #![trigger out[k]] 0 <= k < out.len() - 1 ==> out[k + 1].0 <= out[k].0 + 1
            &&& forall|k: int|
                #![trigger out[k]]
                0 <= k < out.len() - 1 && out[k + 1].1 ==> out[k + 1].0 == out[k].0 + 1
            &&& ps.len() > 0 ==> {
                &&& out.len() > 0
                &&& out[0] == (ps[0], false)
                &&& out.last() == (ps.last(), false)
                &&& r.1.next_cnt == Some((ps.last() + 1) as u64)
            }
            &&& ps.len() == 0 ==> out.len() == 0
        }),
    decreases ps.len(),
{
    let s0 = PktSequencer { next_cnt: None, ndropped: 0 };
    if ps.len() == 0 {
        return;
    }
    let p = ps.last();
    let pre = ps.drop_last();
    assert forall|i: int| 0 <= i < pre.len() implies pre[i] < u64::MAX by {
        assert(pre[i] == ps[i]);
    }
    lemma_sent_never_skips(pre);
    let r = run_sent(s0, pre);
    let a = accepted(r.1, p);
    assert(a.next_cnt is Some);
    lemma_drain_actions(a, p);
    let c = a.next_cnt.unwrap();
    let n = lag(a, p);
    let acts = drain(a, p).0;
    let items = sent_items(acts, p);
    assert(items =~= Seq::new(
        n + 1,
        |i: int|
            if i < n {
                ((c + i) as u64, true)
            } else {
                (p, false)
            },
    ));
    let out = r.0 + items;
    assert(run_sent(s0, ps).0 == out);
    if pre.len() == 0 {
        assert(c == p);
        assert(out =~= seq![(p, false)]);
    } else {
        let q = pre.last();
        assert(c == q + 1);
        assert(r.0.last() == (q, false));
        assert forall|k: int| #![trigger out[k]] 0 <= k < out.len() - 1 implies out[k + 1].0 <= out[k].0 + 1 && (
        out[k + 1].1 ==> out[k + 1].0 == out[k].0 + 1) by {
            let m = r.0.len() as int;
            if k < m - 1 {
                assert(out[k] == r.0[k] && out[k + 1] == r.0[k + 1]);
            } else if k == m - 1 {
                assert(out[k] == (q, false));
                assert(out[k + 1] == items[0]);
            } else {
                assert(out[k] == items[k - m] && out[k + 1] == items[k + 1 - m]);
            }
        }
        assert(out[0] == r.0[0]);
        assert(ps[0] == pre[0]);
    }
}

/// Taking note of a packet touches the state only at the start of a
/// stream: the first packet fixes the expected counter with no losses, a
/// counter of 0 (a restarted digitizer) clears the loss count, and any
/// other packet, late, repeated or early, leaves the expected counter and
/// the loss count as they were.
pub proof fn lemma_accept_resets_only_on_restart(s: PktSequencer, p: u64)
    ensures
        s.next_cnt is None ==> accepted(s, p) == (PktSequencer { next_cnt: Some(p), ndropped: 0 }),
        s.next_cnt is Some ==> accepted(s, p).next_cnt == s.next_cnt,
        p == 0 ==> accepted(s, p).ndropped == 0,
        s.next_cnt is Some && p != 0 ==> accepted(s, p) == s,
{
}

/// The number of stand-ins among the packets `out`.
pub open spec fn stand_ins(out: Seq<(u64, bool)>) -> nat
    decreases out.len(),
{
    if out.len() == 0 {
        0
    } else {
        stand_ins(out.drop_last()) + if out.last().1 {
            1nat
        } else {
            0nat
        }
    }
}

/// The number of stand-ins among the packets `out` after the last received
/// packet with counter 0.
pub open spec fn stand_ins_since_restart(out: Seq<(u64, bool)>) -> nat
    decreases out.len(),
{
    if out.len() == 0 {
        0
    } else if out.last().1 {
        stand_ins_since_restart(out.drop_last()) + 1
    } else if out.last().0 == 0 {
        0
    } else {
        stand_ins_since_restart(out.drop_last())
    }
}

proof fn lemma_stand_ins_append(x: Seq<(u64, bool)>, y: Seq<(u64, bool)>)
    ensures
        stand_ins(x + y) == stand_ins(x) + stand_ins(y),
        (forall|i: int| 0 <= i < y.len() ==> y[i] != (0u64, false)) ==> stand_ins_since_restart(x + y)
            == stand_ins_since_restart(x) + stand_ins(y),
    decreases y.len(),
{
    if y.len() == 0 {
        assert(x + y =~= x);
    } else {
        assert((x + y).drop_last() =~= x + y.drop_last());
        assert((x + y).last() == y.last());
        lemma_stand_ins_append(x, y.drop_last());
        if forall|i: int| 0 <= i < y.len() ==> y[i] != (0u64, false) {
            assert forall|i: int| 0 <= i < y.drop_last().len() implies y.drop_last()[i] != (
            0u64, false) by {
                assert(y.drop_last()[i] == y[i]);
            }
            assert(y.last() == y[y.len() - 1]);
        }
    }
}

proof fn lemma_stand_ins_bound(x: Seq<(u64, bool)>)
    ensures
        stand_ins_since_restart(x) <= stand_ins(x),
    decreases x.len(),
{
    if x.len() > 0 {
        lemma_stand_ins_bound(x.drop_last());
    }
}

proof fn lemma_stand_ins_all(z: Seq<(u64, bool)>)
    requires
        forall|i: int| 0 <= i < z.len() ==> z[i].1,
    ensures
        stand_ins(z) == z.len(),
    decreases z.len(),
{
    if z.len() > 0 {
        assert forall|i: int| 0 <= i < z.drop_last().len() implies z.drop_last()[i].1 by {
            assert(z.drop_last()[i] == z[i]);
        }
        lemma_stand_ins_all(z.drop_last());
    }
}

/// The loss count counts the stand-ins sent since the digitizer last
/// (re)started: whatever the order in which packets arrive at a freshly
/// started receiver, the loss count is the number of stand-ins sent after
/// the last packet with counter 0 was sent (all of them if there was
/// none). A late or repeated packet does not clear it.
pub proof fn lemma_loss_count(ps: Seq<u64>)
    requires
        forall|i: int| 0 <= i < ps.len() ==> ps[i] < u64::MAX,
        stand_ins(run_sent(PktSequencer { next_cnt: None, ndropped: 0 }, ps).0) <= u64::MAX,
    ensures
        run_sent(PktSequencer { next_cnt: None, ndropped: 0 }, ps).1.ndropped
            == stand_ins_since_restart(run_sent(PktSequencer { next_cnt: None, ndropped: 0 }, ps).0),
    decreases ps.len(),
{
    let s0 = PktSequencer { next_cnt: None, ndropped: 0 };
    if ps.len() == 0 {
        return;
    }
    let p = ps.last();
    let pre = ps.drop_last();
    assert forall|i: int| 0 <= i < pre.len() implies pre[i] < u64::MAX by {
        assert(pre[i] == ps[i]);
    }
    let r = run_sent(s0, pre);
    let a = accepted(r.1, p);
    lemma_drain_actions(a, p);
    let c = a.next_cnt.unwrap();
    let n = lag(a, p);
    let items = sent_items(drain(a, p).0, p);
    assert(items =~= Seq::new(
        n + 1,
        |i: int|
            if i < n {
                ((c + i) as u64, true)
            } else {
                (p, false)
            },
    ));
    let out = r.0 + items;
    assert(run_sent(s0, ps).0 == out);
    lemma_stand_ins_append(r.0, items);
    lemma_stand_ins_all(items.drop_last());
    assert(items.drop_last() + seq![(p, false)] =~= items);
    lemma_stand_ins_append(items.drop_last(), seq![(p, false)]);
    assert(stand_ins(seq![(p, false)]) == 0) by {
        assert(seq![(p, false)].drop_last() =~= Seq::<(u64, bool)>::empty());
    }
    assert(stand_ins(items) == n);
    lemma_loss_count(pre);
    lemma_sent_never_skips(pre);
    lemma_stand_ins_bound(out);
    if p == 0 {
        assert(n == 0);
        assert(out.last() == (0u64, false));
    } else {
        assert forall|i: int| 0 <= i < items.len() implies items[i] != (0u64, false) by {}
        if pre.len() == 0 {
            assert(r.0 =~= Seq::<(u64, bool)>::empty());
            assert(a == PktSequencer { next_cnt: Some(p), ndropped: 0 });
        } else {
            assert(a == r.1);
        }
        assert(a.ndropped == stand_ins_since_restart(r.0));
        assert(stand_ins_since_restart(out) == a.ndropped + n);
        assert(a.ndropped + n <= u64::MAX);
        assert(drain(a, p).1.ndropped == a.ndropped + n);
    }
}

impl PktSequencer {
    /// The state before any packet has arrived.
    pub fn new() -> (s: PktSequencer)
        ensures
            s.next_cnt is None,
            s.ndropped == 0,
    {
        PktSequencer { next_cnt: None, ndropped: 0 }
    }

    /// Takes note of a packet with counter `pkt_cnt`; returns whether it
    /// starts a new stream (its counter is 0).
    pub fn accept(&mut self, pkt_cnt: u64) -> (start: bool)
        ensures
            *final(self) == accepted(*old(self), pkt_cnt),
            start == (pkt_cnt == 0),
    {
        if self.next_cnt.is_none() {
            self.next_cnt = Some(pkt_cnt);
            self.ndropped = 0;
        }
        if pkt_cnt == 0 {
            self.ndropped = 0;
        }
        pkt_cnt == 0
    }

    /// Decides what to send next while packet `pkt_cnt` waits; `None` when
    /// no packet has been accepted yet.
    pub fn next_action(&mut self, pkt_cnt: u64) -> (a: Option<SeqAction>)
        requires
            step_ok(*old(self), pkt_cnt),
        ensures
            (*final(self), a) == step(*old(self), pkt_cnt),
    {
        match self.next_cnt {
            None => None,
            Some(c) => {
                if c >= pkt_cnt {
                    self.next_cnt = Some(pkt_cnt + 1);
                    Some(SeqAction::Forward)
                } else {
                    self.ndropped = self.ndropped + 1;
                    Some(SeqAction::Fill(c))
                }
            },
        }
    }

    /// Takes note that the stand-in for the expected packet has gone out.
    pub fn fill_sent(&mut self)
        requires
            old(self).next_cnt matches Some(c) && c < u64::MAX,
        ensures
            *final(self) == filled(*old(self)),
    {
        if let Some(c) = self.next_cnt {
            self.next_cnt = Some(c + 1);
        }
    }
}

// ---------------------------------------------------------------------------
// Down-converter control
// ---------------------------------------------------------------------------

/// The local-oscillator channel the down-converter starts with, given the
/// first command it receives: the channel of a tuning command, and
/// `DEFAULT_LO_CH` otherwise.
pub open spec fn initial_lo_ch(first: DdcCmd) -> isize {
    match first {
        DdcCmd::LoCh(c) => c,
        DdcCmd::Destroy => DEFAULT_LO_CH,
    }
}

/// The first command decides the starting channel and nothing else: a
/// first tuning command to any channel `c` starts on `c`, and only a first
/// stop starts on `DEFAULT_LO_CH`.
pub proof fn lemma_first_cmd_channel(c: isize)
    ensures
        initial_lo_ch(DdcCmd::LoCh(c)) == c,
        initial_lo_ch(DdcCmd::Destroy) == DEFAULT_LO_CH,
{
}

/// The control state of the down-converter stage: the channel its local
/// oscillator is tuned to.
#[derive(Debug, Clone, Copy, PartialEq, Eq, Structural)]
pub struct DdcControl {
    pub lo_ch: isize,
}

/// The channel after handling `cmd` with the oscillator on `lo_ch`, and
/// whether the stage keeps running: a tuning command retunes, a stop keeps
/// the channel and ends the stage.
pub open spec fn handled(lo_ch: isize, cmd: DdcCmd) -> (isize, bool) {
    match cmd {
        DdcCmd::LoCh(c) => (c, true),
        DdcCmd::Destroy => (lo_ch, false),
    }
}

/// A tuning command to any channel `c` retunes to exactly `c` and keeps
/// the stage running, whatever the channel before; a stop keeps the
/// channel and ends the stage.
pub proof fn lemma_handled_channel(lo_ch: isize, c: isize)
    ensures
        handled(lo_ch, DdcCmd::LoCh(c)) == (c, true),
        handled(lo_ch, DdcCmd::Destroy) == (lo_ch, false),
{
}

/// The channel after the commands `cmds` have been handled in order,
/// starting from `lo_ch`, and whether the stage is still running; commands
/// after a stop are not handled.
pub open spec fn apply_cmds(lo_ch: isize, cmds: Seq<DdcCmd>) -> (isize, bool)
    decreases cmds.len(),
{
    if cmds.len() == 0 {
        (lo_ch, true)
    } else {
        let h = handled(lo_ch, cmds[0]);
        if h.1 {
            apply_cmds(h.0, cmds.drop_first())
        } else {
            h
        }
    }
}

impl DdcControl {
    /// The control state set up from the first command received.
    pub fn from_first_cmd(first: DdcCmd) -> (ctl: DdcControl)
        ensures
            ctl.lo_ch == initial_lo_ch(first),
    {
        let lo_ch = if let DdcCmd::LoCh(c) = first {
            c
        } else {
            DEFAULT_LO_CH
        };
        DdcControl { lo_ch }
    }

    /// Handles one command; returns whether the stage keeps running. A
    /// tuning command retunes the oscillator; a stop leaves it as it is.
    pub fn handle(&mut self, cmd: DdcCmd) -> (running: bool)
        ensures
            (final(self).lo_ch, running) == handled(old(self).lo_ch, cmd),
    {
        match cmd {
            DdcCmd::LoCh(c) => {
                self.lo_ch = c;
                true
            },
            DdcCmd::Destroy => false,
        }
    }
}

/// The last tuning command before a stop wins: after commands without a
/// stop the oscillator is on the channel of the last tuning command, if
/// any; a stop ends the handling and keeps the channel it found.
pub proof fn lemma_last_tuning_wins(lo_ch: isize, cmds: Seq<DdcCmd>)
    ensures
        (forall|i: int| 0 <= i < cmds.len() ==> cmds[i] is LoCh) ==> apply_cmds(lo_ch, cmds) == (
            if cmds.len() == 0 {
                lo_ch
            } else {
                cmds.last()->LoCh_0
            },
            true,
        ),
        cmds.len() > 0 && cmds[0] is Destroy ==> apply_cmds(lo_ch, cmds) == (lo_ch, false),
    decreases cmds.len(),
{
    if cmds.len() > 0 {
        lemma_last_tuning_wins(
            match cmds[0] {
                DdcCmd::LoCh(c) => c,
                DdcCmd::Destroy => lo_ch,
            },
            cmds.drop_first(),
        );
        if forall|i: int| 0 <= i < cmds.len() ==> cmds[i] is LoCh {
            assert forall|i: int| 0 <= i < cmds.drop_first().len() implies cmds.drop_first()[i] is LoCh by {
                assert(cmds.drop_first()[i] == cmds[i + 1]);
            }
            if cmds.len() > 1 {
                assert(cmds.drop_first().last() == cmds.last());
            }
        }
    }
}

/// Handling commands one at a time agrees with handling them as a
/// sequence: one more command continues `apply_cmds` while running.
pub proof fn lemma_apply_cmds_push(lo_ch: isize, cmds: Seq<DdcCmd>, cmd: DdcCmd)
    requires
        apply_cmds(lo_ch, cmds).1,
    ensures
        apply_cmds(lo_ch, cmds.push(cmd)) == handled(apply_cmds(lo_ch, cmds).0, cmd),
    decreases cmds.len(),
{
    if cmds.len() > 0 {
        assert(handled(lo_ch, cmds[0]).1);
        let c = handled(lo_ch, cmds[0]).0;
        assert(cmds.push(cmd)[0] == cmds[0]);
        assert(cmds.push(cmd).drop_first() =~= cmds.drop_first().push(cmd));
        lemma_apply_cmds_push(c, cmds.drop_first(), cmd);
    } else {
        assert(cmds.push(cmd) =~= seq![cmd]);
        assert(seq![cmd].drop_first() =~= Seq::<DdcCmd>::empty());
        assert(apply_cmds(handled(lo_ch, cmd).0, Seq::<DdcCmd>::empty()) == (handled(lo_ch, cmd).0, true));
        assert(apply_cmds(lo_ch, seq![cmd]) == handled(lo_ch, cmd));
    }
}

// ---------------------------------------------------------------------------
// Sample budget of a capture
// ---------------------------------------------------------------------------

/// The sample budget of a capture limited to `millions` million samples;
/// `None` for an unlimited capture.
pub fn sample_budget(millions: Option<usize>) -> (budget: Option<usize>)
    requires
        millions matches Some(m) ==> m * 1_000_000 <= usize::MAX,
    ensures
        budget == match millions {
            Some(m) => Some((m * 1_000_000) as usize),
            None => None,
        },
{
    match millions {
        Some(m) => Some(m * 1_000_000),
        None => None,
    }
}

/// How many samples of a block of `block_len` samples to write, and the
/// budget left after writing them: the whole block without a budget, else
/// no more than the budget. A capture ends when this is 0.
pub fn take_samples(budget: Option<usize>, block_len: usize) -> (r: (usize, Option<usize>))
    ensures
        match budget {
            Some(b) => {
                &&& r.0 == if b < block_len {
                    b
                } else {
                    block_len
                }
                &&& r.1 == Some((b - r.0) as usize)
            },
            None => r.0 == block_len && r.1 is None,
        },
{
    match budget {
        Some(b) => {
            let n = if b < block_len {
                b
            } else {
                block_len
            };
            (n, Some(b - n))
        },
        None => (block_len, None),
    }
}

/// The samples written over blocks `blocks`, starting with `budget`, and
/// the budget left; writing stops at the first block of which nothing is
/// taken.
pub open spec fn capture(budget: Option<usize>, blocks: Seq<usize>) -> (int, Option<usize>)
    decreases blocks.len(),
{
    if blocks.len() == 0 {
        (0, budget)
    } else {
        let n = match budget {
            Some(b) => if b < blocks[0] {
                b
            } else {
                blocks[0]
            },
            None => blocks[0],
        };
        if n == 0 {
            (0, budget)
        } else {
            let rest = match budget {
                Some(b) => Some((b - n) as usize),
                None => None,
            };
            let r = capture(rest, blocks.drop_first());
            (n + r.0, r.1)
        }
    }
}

/// A budgeted capture writes exactly what the budget allowed minus what is
/// left of it, and so never more than the budget.
pub proof fn lemma_capture_within_budget(b: usize, blocks: Seq<usize>)
    ensures
        capture(Some(b), blocks).1 matches Some(left) && left <= b && capture(Some(b), blocks).0 == b
            - left,
    decreases blocks.len(),
{
    if blocks.len() > 0 {
        let n = if b < blocks[0] {
            b
        } else {
            blocks[0]
        };
        if n != 0 {
            lemma_capture_within_budget((b - n) as usize, blocks.drop_first());
        }
    }
}

} // verus!
