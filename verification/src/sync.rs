//! Preamble search and frame extraction on a stream of sliced samples.
//!
//! Each demodulated sample arrives as one binary decision. While searching,
//! the last `samples_per_symbol * preamble.len()` decisions are compared with
//! the preamble, each preamble bit repeated once per sample of its symbol.
//! A window whose mismatch count stays at or below four per symbol, and ends
//! strictly below four per symbol, is a candidate. Candidates come in runs, one
//! per sample of alignment slack; when a run ends the synchroniser locks on the
//! first candidate with the fewest mismatches and drops every sample up to the
//! end of that candidate's preamble. Once locked, each `samples_per_symbol`
//! decisions are voted into one bit, bits are packed into bytes, the first
//! byte gives the frame length, and a complete frame is checked with
//! CRC-16/EN-13757.

use vstd::prelude::*;
use std::collections::VecDeque;
use crate::bits::{all_binary, bits_value, msb_bits, pack_bits, spec_msb_bits};
use crate::crc::{check_crc, frame_crc_ok};

verus! {

/// Mismatches allowed per preamble symbol.
pub const HAMMING_THRESHOLD: u64 = 4;

/// Smallest length field accepted for a frame.
pub const MIN_FRAME_LENGTH: u8 = 12;

/// Largest length field accepted for a frame.
pub const MAX_FRAME_LENGTH: u8 = 127;

/// A preamble candidate: its position in the current run of candidates and
/// its number of mismatching samples.
#[derive(Clone, Copy, Debug, PartialEq, Eq, Structural)]
pub struct SyncLock {
    pub index: usize,
    pub distance: u32,
}

/// Inputs on which the step cannot continue.
#[derive(Clone, Copy, Debug, PartialEq, Eq, Structural)]
pub enum SyncFault {
    /// The chosen candidate lies further back than the samples kept.
    WindowOverrun,
    /// More than 255 ones in a symbol's samples.
    VoteOverflow,
}

/// A frame read while locked: the bytes from the length field to the CRC.
#[derive(Debug)]
pub struct DecodedFrame {
    pub data: Vec<u8>,
    pub crc_valid: bool,
    pub lock: SyncLock,
}

/// What one step of the synchroniser did.
#[derive(Debug)]
pub enum SyncEvent {
    /// Searching; fewer samples than a preamble window are held.
    Filling,
    /// Searching; the window is not a candidate and no run of candidates ended.
    NoMatch,
    /// Searching; the window is a new candidate.
    Candidate(SyncLock),
    /// A run of candidates ended: locked on `lock`, kept the last `keep`
    /// samples, then dropped the oldest one.
    Locked { lock: SyncLock, keep: usize },
    /// Locked; fewer samples than one symbol are held.
    Waiting,
    /// Locked; one bit was read.
    Decoded(u8),
    /// Locked; the length field was out of range and the search restarts.
    Reset(u8),
    /// Locked; a whole frame was read and the search restarts.
    Frame(DecodedFrame),
    /// The step could not continue.
    Fault(SyncFault),
}

/// The mathematical content of a `SyncEvent`.
pub enum EventView {
    Filling,
    NoMatch,
    Candidate(SyncLock),
    Locked { lock: SyncLock, keep: usize },
    Waiting,
    Decoded(u8),
    Reset(u8),
    Frame { data: Seq<u8>, crc_valid: bool, lock: SyncLock },
    Fault(SyncFault),
}

impl View for SyncEvent {
    type V = EventView;

    open spec fn view(&self) -> EventView {
        match self {
            SyncEvent::Filling => EventView::Filling,
            SyncEvent::NoMatch => EventView::NoMatch,
            SyncEvent::Candidate(l) => EventView::Candidate(*l),
            SyncEvent::Locked { lock, keep } => EventView::Locked { lock: *lock, keep: *keep },
            SyncEvent::Waiting => EventView::Waiting,
            SyncEvent::Decoded(b) => EventView::Decoded(*b),
            SyncEvent::Reset(l) => EventView::Reset(*l),
            SyncEvent::Frame(f) => EventView::Frame {
                data: f.data@,
                crc_valid: f.crc_valid,
                lock: f.lock,
            },
            SyncEvent::Fault(e) => EventView::Fault(*e),
        }
    }
}

/// The state of the synchroniser.
pub struct SyncView {
    /// Preamble bits, most significant first.
    pub preamble: Seq<u8>,
    /// Samples per symbol.
    pub sps: nat,
    /// Sliced samples not yet consumed, oldest first.
    pub window: Seq<u8>,
    /// Mismatch counts of the current run of candidates.
    pub matches: Seq<u32>,
    /// The candidate locked on, while reading a frame.
    pub lock: Option<SyncLock>,
    /// Bits of the byte being read.
    pub bits: Seq<u8>,
    /// Bytes of the frame being read.
    pub bytes: Seq<u8>,
}

/// Number of samples in a preamble window.
pub open spec fn window_size(v: SyncView) -> nat {
    v.sps * v.preamble.len()
}

/// Number of positions `start + j`, `j < k`, where `win` differs from `bit`.
pub open spec fn mismatches(bit: u8, win: Seq<u8>, start: int, k: nat) -> nat
    decreases k,
{
    if k == 0 {
        0
    } else {
        mismatches(bit, win, start, (k - 1) as nat) + if win[start + k - 1] != bit {
            1nat
        } else {
            0nat
        }
    }
}

/// Mismatches of preamble symbol `x` against its `sps` samples.
pub open spec fn symbol_distance(pre: Seq<u8>, win: Seq<u8>, sps: nat, x: nat) -> nat {
    mismatches(pre[x as int], win, (x * sps) as int, sps)
}

/// Mismatches of the first `k` preamble symbols.
pub open spec fn prefix_distance(pre: Seq<u8>, win: Seq<u8>, sps: nat, k: nat) -> nat
    decreases k,
{
    if k == 0 {
        0
    } else {
        prefix_distance(pre, win, sps, (k - 1) as nat) + symbol_distance(
            pre,
            win,
            sps,
            (k - 1) as nat,
        )
    }
}

/// The window starting at `win[0]` is a preamble candidate: no prefix of
/// symbols averages more than the threshold, and the whole preamble averages
/// strictly less. Counts are compared with the threshold times the number of
/// symbols, which for preambles of at most 64 symbols decides exactly as
/// comparing the single-precision average with the threshold.
pub open spec fn preamble_match(pre: Seq<u8>, win: Seq<u8>, sps: nat) -> bool {
    &&& forall|k: nat|
        1 <= k <= pre.len() ==> #[trigger] prefix_distance(pre, win, sps, k)
            <= HAMMING_THRESHOLD * k
    &&& (pre.len() == 0 || prefix_distance(pre, win, sps, pre.len()) < HAMMING_THRESHOLD
        * pre.len())
}

/// `j` is the first position of the least element of `ms`.
pub open spec fn is_first_min(ms: Seq<u32>, j: int) -> bool {
    &&& 0 <= j < ms.len()
    &&& forall|i: int| 0 <= i < ms.len() ==> ms[j] <= #[trigger] ms[i]
    &&& forall|i: int| 0 <= i < j ==> #[trigger] ms[i] > ms[j]
}

/// The first position of the least element of `ms`.
pub open spec fn best_match(ms: Seq<u32>) -> int {
    choose|j: int| is_first_min(ms, j)
}

/// Sum of the elements of `s`.
pub open spec fn seq_sum(s: Seq<u8>) -> nat
    decreases s.len(),
{
    if s.len() == 0 {
        0
    } else {
        seq_sum(s.drop_last()) + s.last() as nat
    }
}

/// The bit voted from the first `sps` samples of `w`: one when their sum
/// exceeds half of `sps`, truncated to a byte.
pub open spec fn vote(w: Seq<u8>, sps: nat) -> u8 {
    if seq_sum(w.take(sps as int)) > ((sps / 2) as u8) as nat {
        1
    } else {
        0
    }
}

/// The state after a search step whose new sample is already in `v.window`.
pub open spec fn search_outcome(v: SyncView) -> (SyncView, EventView) {
    let w = v.window;
    if w.len() < window_size(v) {
        (v, EventView::Filling)
    } else if preamble_match(v.preamble, w, v.sps) {
        let d = prefix_distance(v.preamble, w, v.sps, v.preamble.len());
        let lock = SyncLock { index: v.matches.len() as usize, distance: d as u32 };
        (
            SyncView { window: w.drop_first(), matches: v.matches.push(d as u32), ..v },
            EventView::Candidate(lock),
        )
    } else if v.matches.len() > 0 {
        let j = best_match(v.matches);
        let overrun = v.matches.len() - j;
        if overrun >= w.len() {
            (v, EventView::Fault(SyncFault::WindowOverrun))
        } else {
            let keep = overrun + 1;
            let lock = SyncLock { index: j as usize, distance: v.matches[j] };
            (
                SyncView {
                    window: w.subrange(w.len() - keep + 1, w.len() as int),
                    matches: Seq::empty(),
                    lock: Some(lock),
                    ..v
                },
                EventView::Locked { lock, keep: keep as usize },
            )
        }
    } else {
        (SyncView { window: w.drop_first(), ..v }, EventView::NoMatch)
    }
}

/// The state after a locked step whose new sample is already in `v.window`.
pub open spec fn decode_outcome(v: SyncView, lock: SyncLock) -> (SyncView, EventView) {
    let w = v.window;
    if w.len() < v.sps {
        (v, EventView::Waiting)
    } else if seq_sum(w.take(v.sps as int)) > 255 {
        (v, EventView::Fault(SyncFault::VoteOverflow))
    } else {
        let bit = vote(w, v.sps);
        let rest = w.subrange(v.sps as int, w.len() as int);
        let bits2 = v.bits.push(bit);
        let full = bits2.len() == 8;
        let bits3 = if full {
            Seq::<u8>::empty()
        } else {
            bits2
        };
        let bytes2 = if full {
            v.bytes.push(bits_value(bits2) as u8)
        } else {
            v.bytes
        };
        if bytes2.len() == 1 && (bytes2[0] < MIN_FRAME_LENGTH || bytes2[0] > MAX_FRAME_LENGTH) {
            (
                SyncView {
                    window: rest,
                    lock: None,
                    bits: Seq::empty(),
                    bytes: Seq::empty(),
                    ..v
                },
                EventView::Reset(bytes2[0]),
            )
        } else if bytes2.len() > 1 && bytes2.len() == bytes2[0] + 1 {
            (
                SyncView {
                    window: rest,
                    lock: None,
                    bits: Seq::empty(),
                    bytes: Seq::empty(),
                    ..v
                },
                EventView::Frame { data: bytes2, crc_valid: frame_crc_ok(bytes2), lock },
            )
        } else {
            (SyncView { window: rest, bits: bits3, bytes: bytes2, ..v }, EventView::Decoded(bit))
        }
    }
}

/// One step: append the sliced sample, then search or read on. A step that
/// cannot continue leaves the state as it was.
pub open spec fn spec_step(v: SyncView, bit: bool) -> (SyncView, EventView) {
    let v1 = SyncView {
        window: v.window.push(
            if bit {
                1u8
            } else {
                0u8
            },
        ),
        ..v
    };
    let out = match v.lock {
        None => search_outcome(v1),
        Some(l) => decode_outcome(v1, l),
    };
    if out.1 is Fault {
        (v, out.1)
    } else {
        out
    }
}

/// The synchroniser before any sample.
pub open spec fn initial_view(preamble: u64, valid_bits: nat, sps: nat) -> SyncView {
    SyncView {
        preamble: spec_msb_bits(preamble, valid_bits),
        sps,
        window: Seq::empty(),
        matches: Seq::empty(),
        lock: None,
        bits: Seq::empty(),
        bytes: Seq::empty(),
    }
}

impl SyncView {
    /// The invariant of the synchroniser.
    pub open spec fn wf(self) -> bool {
        &&& self.wf_core()
        &&& window_size(self) == 0 ==> self.lock is None && self.window.len() == 0
        &&& window_size(self) > 0 ==> self.window.len() < window_size(self)
    }

    /// The invariant without the bound on held samples, which a step
    /// exceeds by one between appending a sample and consuming samples.
    pub open spec fn wf_core(self) -> bool {
        &&& all_binary(self.preamble)
        &&& self.preamble.len() <= 64
        &&& all_binary(self.window)
        &&& all_binary(self.bits)
        &&& self.bits.len() < 8
        &&& self.lock is None ==> self.bits.len() == 0 && self.bytes.len() == 0
        &&& self.lock is Some ==> self.matches.len() == 0
        &&& self.bytes.len() > 0 ==> {
            &&& MIN_FRAME_LENGTH <= self.bytes[0] <= MAX_FRAME_LENGTH
            &&& self.bytes.len() <= self.bytes[0]
        }
    }
}

/// Law: every step keeps the invariant. In particular a frame being read
/// always has a length field within bounds and never more bytes than it.
pub proof fn lemma_step_preserves_wf(v: SyncView, bit: bool)
    requires
        v.wf(),
    ensures
        spec_step(v, bit).0.wf(),
{
    let b: u8 = if bit {
        1u8
    } else {
        0u8
    };
    let v1 = SyncView { window: v.window.push(b), ..v };
    let n = window_size(v);
    assert(all_binary(v1.window));
    if n > 0 {
        assert(v.sps >= 1 && v.preamble.len() >= 1 && v.sps <= n) by (nonlinear_arith)
            requires
                n == v.sps * v.preamble.len(),
                n > 0,
        ;
    }
    match v.lock {
        None => {
            let w = v1.window;
            assert(all_binary(w.drop_first()));
            if v1.matches.len() > 0 && w.len() >= window_size(v1) && !preamble_match(
                v1.preamble,
                w,
                v1.sps,
            ) {
                lemma_first_min_exists(v1.matches);
                let j = best_match(v1.matches);
                let keep = v1.matches.len() - j + 1;
                if v1.matches.len() - j < w.len() {
                    assert(all_binary(w.subrange(w.len() - keep + 1, w.len() as int)));
                }
            }
        },
        Some(l) => {
            let w = v1.window;
            if w.len() >= v1.sps {
                assert(all_binary(w.subrange(v1.sps as int, w.len() as int)));
                let bit2 = vote(w, v1.sps);
                let bits2 = v1.bits.push(bit2);
                assert(all_binary(bits2));
            }
        },
    }
}

/// The preamble synchroniser and frame reader.
pub struct FrameSync {
    preamble: Vec<u8>,
    samples_per_symbol: usize,
    window: VecDeque<u8>,
    matches: Vec<u32>,
    lock: Option<SyncLock>,
    bits: Vec<u8>,
    bytes: Vec<u8>,
}

impl View for FrameSync {
    type V = SyncView;

    closed spec fn view(&self) -> SyncView {
        SyncView {
            preamble: self.preamble@,
            sps: self.samples_per_symbol as nat,
            window: self.window@,
            matches: self.matches@,
            lock: self.lock,
            bits: self.bits@,
            bytes: self.bytes@,
        }
    }
}

proof fn lemma_mismatches_bound(bit: u8, win: Seq<u8>, start: int, k: nat)
    ensures
        mismatches(bit, win, start, k) <= k,
    decreases k,
{
    if k > 0 {
        lemma_mismatches_bound(bit, win, start, (k - 1) as nat);
    }
}

proof fn lemma_prefix_distance_bound(pre: Seq<u8>, win: Seq<u8>, sps: nat, k: nat)
    ensures
        prefix_distance(pre, win, sps, k) <= k * sps,
    decreases k,
{
    if k > 0 {
        lemma_prefix_distance_bound(pre, win, sps, (k - 1) as nat);
        lemma_mismatches_bound(pre[k - 1], win, ((k - 1) * sps) as int, sps);
        assert((k - 1) * sps + sps == k * sps) by (nonlinear_arith);
    }
}

pub proof fn lemma_first_min_exists(ms: Seq<u32>)
    requires
        ms.len() > 0,
    ensures
        is_first_min(ms, best_match(ms)),
    decreases ms.len(),
{
    if ms.len() == 1 {
        assert(is_first_min(ms, 0));
    } else {
        let p = ms.drop_last();
        lemma_first_min_exists(p);
        let j = best_match(p);
        assert(forall|i: int| 0 <= i < p.len() ==> p[i] == ms[i]);
        if ms.last() < ms[j] {
            assert(is_first_min(ms, ms.len() - 1));
        } else {
            assert(is_first_min(ms, j));
        }
    }
}

proof fn lemma_first_min_unique(ms: Seq<u32>, a: int, b: int)
    requires
        is_first_min(ms, a),
        is_first_min(ms, b),
    ensures
        a == b,
{
    if a < b {
        assert(ms[a] > ms[b]);
        assert(ms[b] <= ms[a]);
    } else if b < a {
        assert(ms[b] > ms[a]);
    }
}

fn first_min_index(ms: &Vec<u32>) -> (j: usize)
    requires
        ms@.len() > 0,
    ensures
        is_first_min(ms@, j as int),
        best_match(ms@) == j as int,
{
    let mut j: usize = 0;
    let mut i: usize = 1;
    while i < ms.len()
        invariant
            1 <= i <= ms@.len(),
            j < i,
            forall|k: int| 0 <= k < i ==> ms@[j as int] <= #[trigger] ms@[k],
            forall|k: int| 0 <= k < j ==> #[trigger] ms@[k] > ms@[j as int],
        decreases ms@.len() - i,
    {
        if ms[i] < ms[j] {
            j = i;
        }
        i = i + 1;
    }
    proof {
        assert(is_first_min(ms@, j as int));
        let c = choose|c: int| is_first_min(ms@, c);
        lemma_first_min_unique(ms@, c, j as int);
    }
    j
}

impl FrameSync {
    /// The invariant, on the state.
    pub open spec fn wf(&self) -> bool {
        self@.wf()
    }

    /// Creates a synchroniser for the lowest `valid_bits` bits of `preamble`,
    /// most significant first, each spanning `samples_per_symbol` samples.
    pub fn new(preamble: u64, valid_bits: usize, samples_per_symbol: usize) -> (s: FrameSync)
        requires
            valid_bits <= 64,
        ensures
            s.wf(),
            s@ == initial_view(preamble, valid_bits as nat, samples_per_symbol as nat),
    {
        let preamble_vec = msb_bits(preamble, valid_bits);
        let s = FrameSync {
            preamble: preamble_vec,
            samples_per_symbol,
            window: VecDeque::new(),
            matches: Vec::new(),
            lock: None,
            bits: Vec::new(),
            bytes: Vec::new(),
        };
        proof {
            assert(s@.window =~= Seq::<u8>::empty());
            assert(window_size(s@) == samples_per_symbol * valid_bits) by (nonlinear_arith)
                requires
                    s@.sps == samples_per_symbol,
                    s@.preamble.len() == valid_bits,
                    window_size(s@) == s@.sps * s@.preamble.len(),
            ;
        }
        s
    }

    /// Counts the preamble mismatches of the window at the front of the
    /// buffer; returns whether it is a candidate, and its count if so.
    fn preamble_distance(&self) -> (res: (bool, u32))
        requires
            self@.wf_core(),
            self@.window.len() >= window_size(self@),
        ensures
            res.0 == preamble_match(self@.preamble, self@.window, self@.sps),
            res.0 ==> res.1 as nat == prefix_distance(
                self@.preamble,
                self@.window,
                self@.sps,
                self@.preamble.len(),
            ),
    {
        let n = self.preamble.len();
        let sps = self.samples_per_symbol;
        let ghost pre = self@.preamble;
        let ghost win = self@.window;
        let held = self.window.len();
        proof {
            assert(n * sps <= held && n * sps == sps * n) by (nonlinear_arith)
                requires
                    window_size(self@) == sps * n,
                    held >= window_size(self@),
            ;
        }
        let mut total: usize = 0;
        let mut x: usize = 0;
        while x < n
            invariant
                pre == self@.preamble,
                win == self@.window,
                n == pre.len(),
                sps == self@.sps,
                self@.wf_core(),
                win.len() >= n * sps,
                n * sps <= held,
                x <= n,
                total as nat == prefix_distance(pre, win, sps as nat, x as nat),
                forall|k: nat|
                    1 <= k <= x ==> #[trigger] prefix_distance(pre, win, sps as nat, k)
                        <= HAMMING_THRESHOLD * k,
            decreases n - x,
        {
            let bit = self.preamble[x];
            proof {
                assert(x * sps + sps <= n * sps) by (nonlinear_arith)
                    requires
                        x < n,
                ;
            }
            let mut distance: usize = 0;
            let mut y: usize = 0;
            while y < sps
                invariant
                    pre == self@.preamble,
                    win == self@.window,
                    self@.wf_core(),
                    x < n,
                    n == pre.len(),
                    bit == pre[x as int],
                    win.len() >= n * sps,
                    x * sps + sps <= n * sps,
                    n * sps <= held,
                    y <= sps,
                    distance as nat == mismatches(bit, win, (x * sps) as int, y as nat),
                decreases sps - y,
            {
                let i = x * sps + y;
                let sample = self.window[i];
                assert(sample == win[i as int]);
                assert(bit <= 1 && sample <= 1);
                assert((bit ^ sample) as usize == if sample != bit {
                    1usize
                } else {
                    0usize
                }) by (bit_vector)
                    requires
                        bit <= 1,
                        sample <= 1,
                ;
                proof {
                    lemma_mismatches_bound(bit, win, (x * sps) as int, y as nat);
                }
                distance = distance + (bit ^ sample) as usize;
                y = y + 1;
            }
            proof {
                lemma_prefix_distance_bound(pre, win, sps as nat, x as nat);
                lemma_mismatches_bound(bit, win, (x * sps) as int, sps as nat);
            }
            total = total + distance;
            assert(total as nat == prefix_distance(pre, win, sps as nat, (x + 1) as nat));
            if total as u64 > HAMMING_THRESHOLD * (x as u64 + 1) {
                return (false, 0);
            }
            x = x + 1;
        }
        if n == 0 || (total as u64) < HAMMING_THRESHOLD * (n as u64) {
            // below four mismatches per symbol of at most 64 symbols
            (true, total as u32)
        } else {
            (false, 0)
        }
    }

    /// A search step; the new sample is already at the back of the buffer.
    fn search(&mut self) -> (ev: SyncEvent)
        requires
            old(self)@.wf_core(),
            old(self)@.window.len() > 0,
            old(self)@.lock is None,
        ensures
            (final(self)@, ev@) == search_outcome(old(self)@),
    {
        let ghost v = self@;
        let full = match self.samples_per_symbol.checked_mul(self.preamble.len()) {
            Some(n) => self.window.len() >= n,
            None => {
                let held = self.window.len();
                assert(held < window_size(self@)) by (nonlinear_arith)
                    requires
                        self.samples_per_symbol * self.preamble.len() > usize::MAX,
                        window_size(self@) == self@.sps * self@.preamble.len(),
                        self@.sps == self.samples_per_symbol,
                        self@.preamble.len() == self.preamble.len(),
                        held <= usize::MAX,
                        held == self@.window.len(),
                ;
                false
            },
        };
        if !full {
            return SyncEvent::Filling;
        }
        let (matched, total) = self.preamble_distance();
        let ev: SyncEvent;
        if matched {
            let lock = SyncLock { index: self.matches.len(), distance: total };
            self.matches.push(total);
            ev = SyncEvent::Candidate(lock);
            self.window.pop_front();
            proof {
                assert(self@.window =~= v.window.drop_first());
            }
            return ev;
        } else if self.matches.len() > 0 {
            let j = first_min_index(&self.matches);
            let overrun = self.matches.len() - j;
            if overrun >= self.window.len() {
                return SyncEvent::Fault(SyncFault::WindowOverrun);
            }
            let keep = overrun + 1;
            while self.window.len() > keep
                invariant
                    keep <= v.window.len(),
                    keep <= self.window@.len() <= v.window.len(),
                    self.window@ == v.window.subrange(
                        v.window.len() - self.window@.len(),
                        v.window.len() as int,
                    ),
                    self.preamble@ == v.preamble,
                    self.samples_per_symbol == v.sps,
                    self.matches@ == v.matches,
                    self.lock == v.lock,
                    self.bits@ == v.bits,
                    self.bytes@ == v.bytes,
                decreases self.window@.len(),
            {
                self.window.pop_front();
            }
            let lock = SyncLock { index: j, distance: self.matches[j] };
            self.lock = Some(lock);
            self.matches.clear();
            ev = SyncEvent::Locked { lock, keep };
            self.window.pop_front();
            proof {
                assert(self@.window =~= v.window.subrange(
                    v.window.len() - keep + 1,
                    v.window.len() as int,
                ));
                assert(self@.matches =~= Seq::<u32>::empty());
            }
            return ev;
        }
        self.window.pop_front();
        proof {
            assert(self@.window =~= v.window.drop_first());
        }
        SyncEvent::NoMatch
    }

    /// A locked step; the new sample is already at the back of the buffer.
    fn decode(&mut self, lock: SyncLock) -> (ev: SyncEvent)
        requires
            old(self)@.wf_core(),
            old(self)@.window.len() > 0,
            old(self)@.lock == Some(lock),
        ensures
            (final(self)@, ev@) == decode_outcome(old(self)@, lock),
    {
        let ghost v = self@;
        let sps = self.samples_per_symbol;
        if self.window.len() < sps {
            return SyncEvent::Waiting;
        }
        let mut ones: usize = 0;
        let mut i: usize = 0;
        while i < sps
            invariant
                self@ == v,
                sps == v.sps,
                v.wf_core(),
                sps <= v.window.len(),
                i <= sps,
                ones as nat == seq_sum(v.window.take(i as int)),
                ones <= i,
            decreases sps - i,
        {
            let b = self.window[i];
            assert(v.window.take(i + 1).drop_last() =~= v.window.take(i as int));
            ones = ones + b as usize;
            i = i + 1;
        }
        if ones > 255 {
            return SyncEvent::Fault(SyncFault::VoteOverflow);
        }
        let bit: u8 = if (ones as u8) > ((sps / 2) as u8) {
            1
        } else {
            0
        };
        let mut k: usize = 0;
        while k < sps
            invariant
                k <= sps <= v.window.len(),
                self.window@ == v.window.subrange(k as int, v.window.len() as int),
                self.preamble@ == v.preamble,
                self.samples_per_symbol == v.sps,
                self.matches@ == v.matches,
                self.lock == v.lock,
                self.bits@ == v.bits,
                self.bytes@ == v.bytes,
            decreases sps - k,
        {
            self.window.pop_front();
            k = k + 1;
        }
        self.bits.push(bit);
        if self.bits.len() == 8 {
            let byte = pack_bits(self.bits.as_slice());
            self.bytes.push(byte);
            self.bits.clear();
        }
        if self.bytes.len() == 1 {
            let len = self.bytes[0];
            if len < MIN_FRAME_LENGTH || len > MAX_FRAME_LENGTH {
                self.lock = None;
                self.bytes.clear();
                self.bits.clear();
                return SyncEvent::Reset(len);
            }
        }
        if self.bytes.len() > 1 && self.bytes.len() == self.bytes[0] as usize + 1 {
            let crc_valid = check_crc(self.bytes.as_slice());
            let data = self.bytes.clone();
            proof {
                assert(data@ =~= self.bytes@);
            }
            self.lock = None;
            self.bytes.clear();
            self.bits.clear();
            return SyncEvent::Frame(DecodedFrame { data, crc_valid, lock });
        }
        SyncEvent::Decoded(bit)
    }

    /// Feeds one sliced sample (`true` for a positive demodulated value).
    pub fn step(&mut self, bit: bool) -> (ev: SyncEvent)
        requires
            old(self).wf(),
        ensures
            final(self).wf(),
            (final(self)@, ev@) == spec_step(old(self)@, bit),
    {
        let value: u8 = if bit {
            1
        } else {
            0
        };
        proof {
            lemma_step_preserves_wf(self@, bit);
        }
        self.window.push_back(value);
        assert(all_binary(self@.window)) by {
            assert(self@.window =~= old(self)@.window.push(value));
        }
        let ev = match self.lock {
            None => self.search(),
            Some(lock) => self.decode(lock),
        };
        if let SyncEvent::Fault(_) = ev {
            self.window.pop_back();
            proof {
                assert(self@.window =~= old(self)@.window);
            }
        }
        ev
    }

    /// Whether a frame is being read.
    pub fn is_locked(&self) -> (r: bool)
        ensures
            r == self@.lock is Some,
    {
        self.lock.is_some()
    }

    /// Samples per preamble symbol.
    pub fn samples_per_symbol(&self) -> (n: usize)
        ensures
            n == self@.sps,
    {
        self.samples_per_symbol
    }

    /// Number of preamble bits.
    pub fn preamble_len(&self) -> (n: usize)
        ensures
            n == self@.preamble.len(),
    {
        self.preamble.len()
    }

    /// Number of sliced samples held.
    pub fn window_len(&self) -> (n: usize)
        ensures
            n == self@.window.len(),
    {
        self.window.len()
    }

    /// Number of candidates in the current run.
    pub fn matches_len(&self) -> (n: usize)
        ensures
            n == self@.matches.len(),
    {
        self.matches.len()
    }

    /// Number of bytes of the frame being read.
    pub fn bytes_len(&self) -> (n: usize)
        ensures
            n == self@.bytes.len(),
    {
        self.bytes.len()
    }

    /// The sliced samples held, oldest first.
    pub fn window_samples(&self) -> (w: Vec<u8>)
        ensures
            w@ == self@.window,
    {
        let mut w: Vec<u8> = Vec::with_capacity(self.window.len());
        let mut i: usize = 0;
        while i < self.window.len()
            invariant
                i <= self@.window.len(),
                w@ == self@.window.take(i as int),
            decreases self@.window.len() - i,
        {
            w.push(self.window[i]);
            i = i + 1;
            assert(w@ =~= self@.window.take(i as int));
        }
        assert(self@.window.take(i as int) =~= self@.window);
        w
    }
}

} // verus!
