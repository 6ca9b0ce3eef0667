//! Properties of the synchroniser that span steps or whole streams.

use vstd::prelude::*;
use crate::bits::{all_binary, bits_value, spec_msb_bits, lemma_byte_bits_roundtrip};
use crate::crc::frame_crc_ok;
use crate::sync::{
    best_match, decode_outcome, is_first_min, mismatches, prefix_distance, preamble_match,
    search_outcome, seq_sum, spec_step, vote, window_size, EventView, SyncView,
};

verus! {

/// Each bit of `bits` repeated `sps` times: the sliced samples of an ideal
/// signal carrying `bits`.
pub open spec fn modulate(bits: Seq<u8>, sps: nat) -> Seq<u8>
    decreases bits.len(),
{
    if bits.len() == 0 {
        Seq::empty()
    } else {
        modulate(bits.drop_last(), sps) + Seq::new(sps, |i: int| bits.last())
    }
}

/// The bits of a frame, byte after byte, each byte most significant bit
/// first.
pub open spec fn frame_bits(data: Seq<u8>) -> Seq<u8>
    decreases data.len(),
{
    if data.len() == 0 {
        Seq::empty()
    } else {
        frame_bits(data.drop_last()) + spec_msb_bits(data.last() as u64, 8)
    }
}

/// The decisions `true`/`false` of sliced samples 1/0.
pub open spec fn as_decisions(samples: Seq<u8>) -> Seq<bool> {
    samples.map_values(|b: u8| b == 1)
}

/// Feeds `input` one sample at a time; the final state and every event.
pub open spec fn spec_run(v: SyncView, input: Seq<bool>) -> (SyncView, Seq<EventView>)
    decreases input.len(),
{
    if input.len() == 0 {
        (v, Seq::empty())
    } else {
        let r = spec_run(v, input.drop_last());
        let s = spec_step(r.0, input.last());
        (s.0, r.1.push(s.1))
    }
}

/// A length field that the reader accepts, and a frame that ends where its
/// length field says.
pub open spec fn well_framed(frame: Seq<u8>) -> bool {
    &&& frame.len() >= 1
    &&& 12 <= frame[0] <= 127
    &&& frame.len() == frame[0] + 1
}

/// Law: a frame is only ever reported with an accepted length field and
/// exactly as many bytes as that field announces, its CRC verdict is the
/// check of those bytes, and the synchroniser goes back to searching with
/// nothing half-read.
pub proof fn lemma_frame_shape(v: SyncView, bit: bool)
    requires
        v.wf(),
    ensures
        spec_step(v, bit).1 matches EventView::Frame { data, crc_valid, lock } ==> {
            &&& well_framed(data)
            &&& crc_valid == frame_crc_ok(data)
            &&& v.lock == Some(lock)
            &&& spec_step(v, bit).0.lock is None
            &&& spec_step(v, bit).0.bits.len() == 0
            &&& spec_step(v, bit).0.bytes.len() == 0
        },
{
    if let EventView::Frame { data, crc_valid, lock } = spec_step(v, bit).1 {
        assert(v.lock is Some);
        assert(data.len() > 1);
        if v.bytes.len() > 0 {
            assert(data[0] == v.bytes[0]);
        }
    }
}

/// Law: a length field out of range abandons the frame after its first byte
/// and the synchroniser goes back to searching.
pub proof fn lemma_reset_shape(v: SyncView, bit: bool)
    requires
        v.wf(),
    ensures
        spec_step(v, bit).1 matches EventView::Reset(len) ==> {
            &&& len < 12 || len > 127
            &&& v.lock is Some
            &&& v.bytes.len() == 0
            &&& spec_step(v, bit).0.lock is None
            &&& spec_step(v, bit).0.bytes.len() == 0
        },
{
}

/// Law: when a run of candidates ends, the synchroniser locks on the first
/// candidate with the fewest mismatches, and keeps exactly the samples that
/// follow that candidate's preamble.
pub proof fn lemma_lock_on_best(v: SyncView, bit: bool)
    requires
        v.wf(),
        v.window.len() < usize::MAX,
        v.matches.len() <= usize::MAX,
    ensures
        spec_step(v, bit).1 matches EventView::Locked { lock, keep } ==> {
            let w = v.window.push(
                if bit {
                    1u8
                } else {
                    0u8
                },
            );
            &&& v.lock is None
            &&& is_first_min(v.matches, lock.index as int)
            &&& 0 <= lock.index < v.matches.len()
            &&& forall|i: int| 0 <= i < v.matches.len() ==> lock.distance <= #[trigger] v.matches[i]
            &&& forall|i: int| 0 <= i < lock.index ==> #[trigger] v.matches[i] > lock.distance
            &&& lock.distance == v.matches[lock.index as int]
            &&& keep == v.matches.len() - lock.index + 1
            &&& spec_step(v, bit).0.window == w.subrange(w.len() - keep + 1, w.len() as int)
            &&& spec_step(v, bit).0.lock == Some(lock)
            &&& spec_step(v, bit).0.matches.len() == 0
        },
{
    if let EventView::Locked { lock, keep } = spec_step(v, bit).1 {
        assert(v.matches.len() > 0);
        crate::sync::lemma_first_min_exists(v.matches);
    }
}

/// Law: a window of identical samples votes for that sample's bit, when a
/// symbol has between 1 and 255 samples.
pub proof fn lemma_vote_uniform(w: Seq<u8>, sps: nat, b: u8)
    requires
        1 <= sps <= 255,
        b <= 1,
        w.len() >= sps,
        forall|i: int| 0 <= i < sps ==> #[trigger] w[i] == b,
    ensures
        seq_sum(w.take(sps as int)) == b * sps,
        seq_sum(w.take(sps as int)) <= 255,
        vote(w, sps) == b,
{
    lemma_sum_uniform(w.take(sps as int), b);
    assert(b * sps <= 255 && (b == 0 ==> b * sps == 0) && (b == 1 ==> b * sps == sps))
        by (nonlinear_arith)
        requires
            b <= 1,
            sps <= 255,
    ;
    assert((sps / 2) as u8 as nat == sps / 2);
}

proof fn lemma_sum_uniform(s: Seq<u8>, b: u8)
    requires
        forall|i: int| 0 <= i < s.len() ==> #[trigger] s[i] == b,
    ensures
        seq_sum(s) == b * s.len(),
    decreases s.len(),
{
    if s.len() > 0 {
        lemma_sum_uniform(s.drop_last(), b);
        assert(s.last() == s[s.len() - 1]);
        assert(b * (s.len() - 1) + b == b * s.len()) by (nonlinear_arith);
    }
}

/// The length and samples of a modulated bit sequence.
pub proof fn lemma_modulate_index(bits: Seq<u8>, sps: nat)
    ensures
        modulate(bits, sps).len() == bits.len() * sps,
        forall|x: int, y: int|
            0 <= x < bits.len() && 0 <= y < sps ==> #[trigger] modulate(bits, sps)[x * sps + y]
                == bits[x],
    decreases bits.len(),
{
    if bits.len() > 0 {
        let p = bits.drop_last();
        lemma_modulate_index(p, sps);
        let m = modulate(bits, sps);
        assert(p.len() * sps + sps == bits.len() * sps) by (nonlinear_arith)
            requires
                p.len() + 1 == bits.len(),
        ;
        assert forall|x: int, y: int| 0 <= x < bits.len() && 0 <= y < sps implies #[trigger] m[x
            * sps + y] == bits[x] by {
            if x < p.len() {
                assert(x * sps + y < p.len() * sps) by (nonlinear_arith)
                    requires
                        x < p.len(),
                        y < sps,
                ;
                assert(m[x * sps + y] == modulate(p, sps)[x * sps + y]);
            } else {
                assert(x * sps == p.len() * sps);
                assert(m[x * sps + y] == Seq::new(sps, |i: int| bits.last())[y]);
            }
        }
    }
}

proof fn lemma_mismatches_zero(bit: u8, win: Seq<u8>, start: int, k: nat)
    requires
        forall|j: int| 0 <= j < k ==> #[trigger] win[start + j] == bit,
    ensures
        mismatches(bit, win, start, k) == 0,
    decreases k,
{
    if k > 0 {
        lemma_mismatches_zero(bit, win, start, (k - 1) as nat);
        assert(win[start + (k - 1)] == bit);
    }
}

/// Law: a window that starts with an ideal preamble is a candidate with no
/// mismatches.
pub proof fn lemma_clean_preamble(pre: Seq<u8>, w: Seq<u8>, sps: nat)
    requires
        w.len() >= pre.len() * sps,
        w.subrange(0, (pre.len() * sps) as int) == modulate(pre, sps),
    ensures
        preamble_match(pre, w, sps),
        prefix_distance(pre, w, sps, pre.len()) == 0,
{
    lemma_modulate_index(pre, sps);
    let m = modulate(pre, sps);
    assert forall|k: nat| k <= pre.len() implies #[trigger] prefix_distance(pre, w, sps, k)
        == 0 by {
        lemma_prefix_zero(pre, w, sps, k);
    }
    assert forall|k: nat| 1 <= k <= pre.len() implies #[trigger] prefix_distance(pre, w, sps, k)
        <= crate::sync::HAMMING_THRESHOLD * k by {
        lemma_prefix_zero(pre, w, sps, k);
    }
    lemma_prefix_zero(pre, w, sps, pre.len());
}

proof fn lemma_prefix_zero(pre: Seq<u8>, w: Seq<u8>, sps: nat, k: nat)
    requires
        k <= pre.len(),
        w.len() >= pre.len() * sps,
        w.subrange(0, (pre.len() * sps) as int) == modulate(pre, sps),
    ensures
        prefix_distance(pre, w, sps, k) == 0,
    decreases k,
{
    if k > 0 {
        lemma_prefix_zero(pre, w, sps, (k - 1) as nat);
        lemma_modulate_index(pre, sps);
        let x = k - 1;
        assert forall|j: int| 0 <= j < sps implies #[trigger] w[x * sps + j] == pre[x] by {
            assert(x * sps + j < pre.len() * sps) by (nonlinear_arith)
                requires
                    x < pre.len(),
                    j < sps,
            ;
            assert(w[x * sps + j] == w.subrange(0, (pre.len() * sps) as int)[x * sps + j]);
            assert(modulate(pre, sps)[x * sps + j] == pre[x]);
        }
        lemma_mismatches_zero(pre[x], w, x * sps, sps);
    }
}

proof fn lemma_bit_at_binary(value: u64, k: nat)
    ensures
        crate::bits::bit_at(value, k) <= 1,
{
    assert(forall|x: u64| #[trigger] (x & 1) <= 1) by (bit_vector);
    assert(((value >> k) & 1) <= 1);
}

/// The length and bits of a frame's bit sequence.
pub proof fn lemma_frame_bits_index(data: Seq<u8>)
    ensures
        frame_bits(data).len() == 8 * data.len(),
        all_binary(frame_bits(data)),
        forall|j: int|
            0 <= j < data.len() ==> #[trigger] frame_bits(data).subrange(8 * j, 8 * j + 8)
                == spec_msb_bits(data[j] as u64, 8),
    decreases data.len(),
{
    if data.len() > 0 {
        let p = data.drop_last();
        lemma_frame_bits_index(p);
        let fb = frame_bits(data);
        let last = spec_msb_bits(data.last() as u64, 8);
        assert forall|i: int| 0 <= i < 8 implies #[trigger] last[i] <= 1 by {
            lemma_bit_at_binary(data.last() as u64, (8 - 1 - i) as nat);
        }
        assert(all_binary(fb));
        assert forall|j: int| 0 <= j < data.len() implies #[trigger] fb.subrange(8 * j, 8 * j + 8)
            == spec_msb_bits(data[j] as u64, 8) by {
            if j < p.len() {
                assert(fb.subrange(8 * j, 8 * j + 8) =~= frame_bits(p).subrange(8 * j, 8 * j + 8));
                assert(p[j] == data[j]);
            } else {
                assert(fb.subrange(8 * j, 8 * j + 8) =~= last);
            }
        }
    }
}

/// The locked reader's state after reading the first `k` bits of a frame
/// and `q - k * sps` samples of the next bit.
pub open spec fn reading_state(v: SyncView, frame: Seq<u8>, k: nat, q: nat) -> SyncView {
    let b = frame_bits(frame);
    let t = modulate(b, v.sps);
    SyncView {
        window: t.subrange((k * v.sps) as int, q as int),
        bits: b.subrange(8 * (k / 8) as int, k as int),
        bytes: frame.take((k / 8) as int),
        ..v
    }
}

/// The conditions of the frame round trip.
pub open spec fn ready_to_read(v: SyncView, rest: Seq<u8>, frame: Seq<u8>) -> bool {
    &&& v.wf()
    &&& v.lock is Some
    &&& v.bits.len() == 0
    &&& v.bytes.len() == 0
    &&& 1 <= v.sps <= 255
    &&& v.window.len() < v.sps
    &&& well_framed(frame)
    &&& v.window + rest == modulate(frame_bits(frame), v.sps)
}

proof fn lemma_ideal_binary(frame: Seq<u8>, sps: nat)
    requires
        sps >= 1,
    ensures
        all_binary(modulate(frame_bits(frame), sps)),
        modulate(frame_bits(frame), sps).len() == 8 * frame.len() * sps,
{
    let b = frame_bits(frame);
    let tt = modulate(b, sps);
    lemma_modulate_index(b, sps);
    lemma_frame_bits_index(frame);
    assert forall|i: int| 0 <= i < tt.len() implies #[trigger] tt[i] <= 1 by {
        let xi = i / sps as int;
        let yi = i % sps as int;
        assert(i == xi * sps + yi && 0 <= yi < sps && 0 <= xi < b.len()) by (nonlinear_arith)
            requires
                0 <= i < b.len() * sps,
                sps >= 1,
                xi == i / sps as int,
                yi == i % sps as int,
        ;
        assert(tt[xi * sps + yi] == b[xi]);
    }
}

/// One step of the locked reader on the ideal signal, from the state after
/// `q0` samples of which the first `k0` symbols were read.
proof fn lemma_reading_step(v: SyncView, rest: Seq<u8>, frame: Seq<u8>, k0: nat, q0: nat, d: bool)
    requires
        ready_to_read(v, rest, frame),
        k0 * v.sps <= q0 < (k0 + 1) * v.sps,
        q0 < 8 * frame.len() * v.sps,
        (if d {
            1u8
        } else {
            0u8
        }) == modulate(frame_bits(frame), v.sps)[q0 as int],
    ensures
        ({
            let out = spec_step(reading_state(v, frame, k0, q0), d);
            if q0 + 1 < (k0 + 1) * v.sps {
                &&& out.1 is Waiting
                &&& out.0 == reading_state(v, frame, k0, q0 + 1)
            } else if k0 + 1 < 8 * frame.len() {
                &&& out.1 is Decoded
                &&& out.0 == reading_state(v, frame, k0 + 1, q0 + 1)
            } else {
                &&& out.1 == EventView::Frame {
                    data: frame,
                    crc_valid: frame_crc_ok(frame),
                    lock: v.lock.unwrap(),
                }
                &&& out.0.lock is None
                &&& out.0.window.len() == 0
                &&& out.0.bits.len() == 0
                &&& out.0.bytes.len() == 0
            }
        }),
{
    let sps = v.sps;
    let b = frame_bits(frame);
    let tt = modulate(b, sps);
    lemma_modulate_index(b, sps);
    lemma_frame_bits_index(frame);
    let st0 = reading_state(v, frame, k0, q0);
    let pushed: u8 = if d {
        1u8
    } else {
        0u8
    };
    let q = q0 + 1;
    let w1 = st0.window.push(pushed);
    assert(w1 =~= tt.subrange((k0 * sps) as int, q as int));
    let lock = v.lock.unwrap();
    let v1 = SyncView { window: w1, ..st0 };
    let out = decode_outcome(v1, lock);
    assert((k0 + 1) * sps == k0 * sps + sps) by (nonlinear_arith);
    lemma_reading_step_outcome(v, rest, frame, k0, q0, d);
    assert(!(out.1 is Fault));
    assert(spec_step(st0, d) == out);
}

proof fn lemma_reading_step_outcome(v: SyncView, rest: Seq<u8>, frame: Seq<u8>, k0: nat, q0: nat, d: bool)
    requires
        ready_to_read(v, rest, frame),
        k0 * v.sps <= q0 < (k0 + 1) * v.sps,
        q0 < 8 * frame.len() * v.sps,
        (if d {
            1u8
        } else {
            0u8
        }) == modulate(frame_bits(frame), v.sps)[q0 as int],
    ensures
        ({
            let st0 = reading_state(v, frame, k0, q0);
            let w1 = st0.window.push(if d { 1u8 } else { 0u8 });
            let out = decode_outcome(SyncView { window: w1, ..st0 }, v.lock.unwrap());
            if q0 + 1 < (k0 + 1) * v.sps {
                &&& out.1 is Waiting
                &&& out.0 == reading_state(v, frame, k0, q0 + 1)
            } else if k0 + 1 < 8 * frame.len() {
                &&& out.1 is Decoded
                &&& out.0 == reading_state(v, frame, k0 + 1, q0 + 1)
            } else {
                &&& out.1 == EventView::Frame {
                    data: frame,
                    crc_valid: frame_crc_ok(frame),
                    lock: v.lock.unwrap(),
                }
                &&& out.0.lock is None
                &&& out.0.window.len() == 0
                &&& out.0.bits.len() == 0
                &&& out.0.bytes.len() == 0
            }
        }),
{
    let sps = v.sps;
    let b = frame_bits(frame);
    let tt = modulate(b, sps);
    lemma_modulate_index(b, sps);
    lemma_frame_bits_index(frame);
    let st0 = reading_state(v, frame, k0, q0);
    let pushed: u8 = if d {
        1u8
    } else {
        0u8
    };
    let q = q0 + 1;
    let w1 = st0.window.push(pushed);
    assert(w1 =~= tt.subrange((k0 * sps) as int, q as int));
    let lock = v.lock.unwrap();
    let v1 = SyncView { window: w1, ..st0 };
    let out = decode_outcome(v1, lock);
    assert((k0 + 1) * sps == k0 * sps + sps) by (nonlinear_arith);
    if q < (k0 + 1) * sps {
        assert(w1.len() == q - k0 * sps);
        assert(out.1 is Waiting);
        assert(out.0 == reading_state(v, frame, k0, q));
    } else {
        let k = k0 + 1;
        assert(k0 * sps + sps == q) by (nonlinear_arith)
            requires
                k0 * sps <= q0,
                q0 < (k0 + 1) * sps,
                q == q0 + 1,
                q >= (k0 + 1) * sps,
        ;
        assert(k0 < b.len()) by (nonlinear_arith)
            requires
                k0 * sps + sps == q,
                q <= b.len() * sps,
                sps >= 1,
        ;
        assert(w1.len() == sps);
        assert forall|i: int| 0 <= i < sps implies #[trigger] w1[i] == b[k0 as int] by {
            assert(w1[i] == tt[k0 * sps + i]);
        }
        lemma_vote_uniform(w1, sps, b[k0 as int]);
        assert(w1.take(sps as int) =~= w1);
        let bit = b[k0 as int];
        assert(vote(w1, sps) == bit);
        let j = (k0 / 8) as int;
        let bits2 = st0.bits.push(bit);
        assert(bits2 =~= b.subrange(8 * j, k as int));
        if k % 8 == 0 {
            lemma_byte_completes(v, frame, k0, bits2);
            let bytes2 = st0.bytes.push(frame[j]);
            assert(bytes2 =~= frame.take(j + 1));
            if bytes2.len() == 1 {
                assert(bytes2[0] == frame[0]);
            }
            if k < 8 * frame.len() {
                assert(bytes2.len() < frame.len());
                assert(out.1 is Decoded);
                assert(out.0.window =~= tt.subrange((k * sps) as int, q as int));
                assert(out.0.bits =~= b.subrange(8 * (k / 8) as int, k as int));
                assert(out.0 == reading_state(v, frame, k, q));
            } else {
                assert(bytes2 =~= frame);
                assert(out.1 == EventView::Frame {
                    data: frame,
                    crc_valid: frame_crc_ok(frame),
                    lock,
                });
            }
        } else {
            assert(k / 8 == j);
            assert(bits2.len() < 8);
            assert(k < 8 * frame.len());
            assert(out.1 is Decoded);
            assert(out.0.window =~= tt.subrange((k * sps) as int, q as int));
            assert(out.0 == reading_state(v, frame, k, q));
        }
    }
}

proof fn lemma_byte_completes(v: SyncView, frame: Seq<u8>, k0: nat, bits2: Seq<u8>)
    requires
        (k0 + 1) % 8 == 0,
        k0 < 8 * frame.len(),
        bits2 == frame_bits(frame).subrange(8 * (k0 / 8) as int, (k0 + 1) as int),
    ensures
        bits2.len() == 8,
        bits_value(bits2) == frame[(k0 / 8) as int],
{
    let j = (k0 / 8) as int;
    lemma_frame_bits_index(frame);
    assert(k0 + 1 == 8 * j + 8);
    assert(bits2 == frame_bits(frame).subrange(8 * j, 8 * j + 8));
    lemma_byte_bits_roundtrip(frame[j]);
}

proof fn lemma_decode_prefix(v: SyncView, rest: Seq<u8>, frame: Seq<u8>, t: nat, k: nat)
    requires
        ready_to_read(v, rest, frame),
        t < rest.len(),
        k * v.sps <= v.window.len() + t < (k + 1) * v.sps,
    ensures
        spec_run(v, as_decisions(rest).take(t as int)).0 == reading_state(
            v,
            frame,
            k,
            v.window.len() + t,
        ),
        spec_run(v, as_decisions(rest).take(t as int)).1.len() == t,
        forall|i: int|
            0 <= i < t ==> #[trigger] spec_run(v, as_decisions(rest).take(t as int)).1[i] is Waiting
                || spec_run(v, as_decisions(rest).take(t as int)).1[i] is Decoded,
    decreases t,
{
    let sps = v.sps;
    let r = v.window.len();
    let input = as_decisions(rest);
    if t == 0 {
        assert(k == 0) by (nonlinear_arith)
            requires
                k * sps <= r,
                r < sps,
        ;
        assert(input.take(0) =~= Seq::<bool>::empty());
        let st = reading_state(v, frame, k, r);
        lemma_ideal_binary(frame, sps);
        assert(st.window =~= v.window) by {
            assert forall|i: int| 0 <= i < r implies st.window[i] == v.window[i] by {
                assert((v.window + rest)[i] == v.window[i]);
            }
        }
        assert(st.bits =~= v.bits);
        assert(st.bytes =~= v.bytes);
    } else {
        let q = r + t;
        let t0 = (t - 1) as nat;
        let k0: nat = if q - 1 >= k * sps {
            k
        } else {
            (k - 1) as nat
        };
        if q - 1 < k * sps {
            assert(k >= 1) by (nonlinear_arith)
                requires
                    q - 1 < k * sps,
                    q >= 1,
            ;
            assert((k - 1) * sps + sps == k * sps) by (nonlinear_arith)
                requires
                    k >= 1,
            ;
            assert((k - 1) * sps <= q - 1);
        }
        assert(k0 * sps <= r + t0 < (k0 + 1) * sps) by (nonlinear_arith)
            requires
                k0 == k || (k0 + 1 == k && q - 1 < k * sps),
                k0 == k ==> q - 1 >= k * sps,
                k0 + 1 == k ==> (k - 1) * sps <= q - 1,
                k * sps <= q < (k + 1) * sps,
                q == r + t0 + 1,
        ;
        lemma_decode_prefix(v, rest, frame, t0, k0);
        assert(input.take(t as int).drop_last() =~= input.take(t0 as int));
        assert(input.take(t as int).last() == input[t0 as int]);
        lemma_ideal_binary(frame, sps);
        let tt = modulate(frame_bits(frame), sps);
        assert(rest[t0 as int] == tt[q - 1]) by {
            assert((v.window + rest)[q - 1] == rest[t0 as int]);
        }
        assert(rest[t0 as int] <= 1);
        assert(q - 1 < 8 * frame.len() * sps);
        lemma_reading_step(v, rest, frame, k0, (q - 1) as nat, input[t0 as int]);
        if k0 != k {
            assert(k0 + 1 < 8 * frame.len()) by (nonlinear_arith)
                requires
                    k0 + 1 == k,
                    k * sps <= q,
                    q < 8 * frame.len() * sps,
                    sps >= 1,
            ;
        }
    }
}

/// Law (frame round trip): once locked, a well-framed frame whose bits reach
/// the reader as an ideal signal, each bit as `samples_per_symbol` identical
/// samples, is read back exactly, with the CRC verdict of its bytes; every
/// earlier sample only waits or reads a bit, and the synchroniser ends up
/// searching again with nothing left over. `rest` is the signal still to come
/// after the samples already held at lock time.
pub proof fn lemma_frame_roundtrip(v: SyncView, rest: Seq<u8>, frame: Seq<u8>)
    requires
        ready_to_read(v, rest, frame),
    ensures
        ({
            let (st, evs) = spec_run(v, as_decisions(rest));
            &&& evs.len() == rest.len()
            &&& evs.last() == EventView::Frame {
                data: frame,
                crc_valid: frame_crc_ok(frame),
                lock: v.lock.unwrap(),
            }
            &&& forall|i: int| 0 <= i < evs.len() - 1 ==> #[trigger] evs[i] is Waiting || evs[i] is Decoded
            &&& st.lock is None
            &&& st.window.len() == 0
            &&& st.bits.len() == 0
            &&& st.bytes.len() == 0
        }),
{
    let sps = v.sps;
    let r = v.window.len();
    lemma_ideal_binary(frame, sps);
    let tt = modulate(frame_bits(frame), sps);
    let n = rest.len();
    let f = frame.len();
    assert(r + n == 8 * f * sps);
    assert(8 * f * sps >= 8 * sps) by (nonlinear_arith)
        requires
            f >= 1,
    ;
    let t0 = (n - 1) as nat;
    let k0 = (8 * f - 1) as nat;
    assert(k0 * sps <= r + t0 < (k0 + 1) * sps) by (nonlinear_arith)
        requires
            r + t0 + 1 == 8 * f * sps,
            k0 + 1 == 8 * f,
            r < sps,
            sps >= 1,
    ;
    lemma_decode_prefix(v, rest, frame, t0, k0);
    let input = as_decisions(rest);
    assert(input.drop_last() =~= input.take(t0 as int));
    let q = r + n;
    assert(rest[t0 as int] == tt[q - 1]) by {
        assert((v.window + rest)[q - 1] == rest[t0 as int]);
    }
    assert(rest[t0 as int] <= 1);
    lemma_reading_step(v, rest, frame, k0, (q - 1) as nat, input[t0 as int]);
}

/// The sliced samples that a sequence of decisions pushes.
pub open spec fn as_samples(input: Seq<bool>) -> Seq<u8> {
    input.map_values(|d: bool| if d {
        1u8
    } else {
        0u8
    })
}

/// The events of a prefix of a run are the first events of the run.
pub proof fn lemma_run_prefix(v: SyncView, input: Seq<bool>, t: int)
    requires
        0 <= t <= input.len(),
    ensures
        spec_run(v, input).1.len() == input.len(),
        spec_run(v, input.take(t)).1 == spec_run(v, input).1.take(t),
    decreases input.len(),
{
    if input.len() > 0 {
        lemma_run_prefix(v, input.drop_last(), if t < input.len() {
            t
        } else {
            input.len() - 1
        });
        if t < input.len() {
            assert(input.drop_last().take(t) =~= input.take(t));
            assert(spec_run(v, input).1.take(t) =~= spec_run(v, input.drop_last()).1.take(t));
        } else {
            assert(input.take(t) =~= input);
            assert(spec_run(v, input).1.take(t) =~= spec_run(v, input).1);
        }
    } else {
        assert(input.take(t) =~= input);
    }
}

/// The search state after `t` steps of a run of candidates that started
/// with a full window but one sample.
proof fn lemma_candidate_run(v: SyncView, input: Seq<bool>, t: nat)
    requires
        v.wf(),
        v.lock is None,
        v.matches.len() == 0,
        window_size(v) > 0,
        v.window.len() == window_size(v) - 1,
        t <= input.len(),
        forall|i: int| 0 <= i < t ==> #[trigger] spec_run(v, input).1[i] is Candidate,
    ensures
        ({
            let st = spec_run(v, input.take(t as int)).0;
            let s = v.window + as_samples(input);
            &&& st.window == s.subrange(t as int, t + window_size(v) - 1)
            &&& st.lock is None
            &&& st.matches.len() == t
            &&& st.preamble == v.preamble
            &&& st.sps == v.sps
            &&& st.bits == v.bits
            &&& st.bytes == v.bytes
            &&& forall|i: int|
                0 <= i < t ==> spec_run(v, input).1[i] == EventView::Candidate(
                    crate::sync::SyncLock { index: i as usize, distance: #[trigger] st.matches[i] },
                )
        }),
    decreases t,
{
    let n = window_size(v);
    let s = v.window + as_samples(input);
    lemma_run_prefix(v, input, t as int);
    if t == 0 {
        assert(input.take(0) =~= Seq::<bool>::empty());
        assert(v.window =~= s.subrange(0, n - 1));
    } else {
        let t0 = (t - 1) as nat;
        lemma_candidate_run(v, input, t0);
        lemma_run_prefix(v, input, t0 as int);
        let prev = spec_run(v, input.take(t0 as int));
        assert(input.take(t as int).drop_last() =~= input.take(t0 as int));
        assert(input.take(t as int).last() == input[t0 as int]);
        let d = input[t0 as int];
        let out = spec_step(prev.0, d);
        assert(spec_run(v, input.take(t as int)).0 == out.0);
        assert(spec_run(v, input.take(t as int)).1 == prev.1.push(out.1));
        assert(spec_run(v, input).1[t0 as int] == spec_run(v, input.take(t as int)).1[t0 as int]);
        assert(out.1 is Candidate);
        let w = prev.0.window.push(if d {
            1u8
        } else {
            0u8
        });
        assert(w =~= s.subrange(t0 as int, (t0 + n) as int)) by {
            assert(s[t0 + n - 1] == as_samples(input)[t0 as int]);
        }
        assert(out.0.window =~= s.subrange(t as int, t + n - 1));
        assert forall|i: int| 0 <= i < t implies spec_run(v, input).1[i] == EventView::Candidate(
            crate::sync::SyncLock { index: i as usize, distance: #[trigger] out.0.matches[i] },
        ) by {
            if i < t0 {
                assert(out.0.matches[i] == prev.0.matches[i]);
            }
        }
    }
}

/// Law (where reading starts): after a run of candidates that began with an
/// empty run and one sample short of a full window, the step that ends the
/// run locks on the first candidate with the fewest mismatches and keeps
/// exactly the samples that follow that candidate's preamble window in the
/// sample stream; every candidate of the run reports its mismatch count.
pub proof fn lemma_lock_position(v: SyncView, input: Seq<bool>)
    requires
        v.wf(),
        v.lock is None,
        v.matches.len() == 0,
        window_size(v) > 0,
        v.window.len() == window_size(v) - 1,
        1 <= input.len() < usize::MAX,
        forall|i: int| 0 <= i < input.len() - 1 ==> #[trigger] spec_run(v, input).1[i] is Candidate,
        spec_run(v, input).1.last() is Locked,
    ensures
        ({
            let (st, evs) = spec_run(v, input);
            let s = v.window + as_samples(input);
            let n = window_size(v);
            let m = input.len() - 1;
            let lock = evs.last()->Locked_lock;
            let ds = Seq::new(m as nat, |i: int| evs[i]->Candidate_0.distance);
            &&& is_first_min(ds, lock.index as int)
            &&& lock.distance == ds[lock.index as int]
            &&& st.lock == Some(lock)
            &&& st.window == s.subrange(lock.index + n, m + n)
            &&& forall|i: int|
                0 <= i < m ==> (#[trigger] evs[i])->Candidate_0.index == i
        }),
{
    let n = window_size(v);
    let s = v.window + as_samples(input);
    let m = (input.len() - 1) as nat;
    lemma_run_prefix(v, input, m as int);
    lemma_candidate_run(v, input, m);
    let prev = spec_run(v, input.take(m as int));
    assert(input.drop_last() =~= input.take(m as int));
    let d = input.last();
    let out = spec_step(prev.0, d);
    assert(out.1 is Locked);
    crate::sync::lemma_first_min_exists(prev.0.matches);
    let evs = spec_run(v, input).1;
    let ds = Seq::new(m as nat, |i: int| evs[i]->Candidate_0.distance);
    assert(ds =~= prev.0.matches);
    let w = prev.0.window.push(if d {
        1u8
    } else {
        0u8
    });
    assert(w =~= s.subrange(m as int, (m + n) as int)) by {
        assert(s[m + n - 1] == as_samples(input)[m as int]);
    }
    assert(spec_run(v, input).0 == out.0);
    assert(evs == prev.1.push(out.1));
    assert(evs.last() == out.1);
    let v1 = SyncView { window: w, ..prev.0 };
    let so = search_outcome(v1);
    assert(out == so || so.1 is Fault);
    assert(so.1 is Locked);
    assert(w.len() == n);
    assert(!preamble_match(v1.preamble, w, v1.sps));
    assert(m > 0);
    let j = best_match(v1.matches);
    assert(is_first_min(ds, j));
    assert(m - j < n);
    assert(out.0.window =~= s.subrange(j + n, (m + n) as int));
    assert forall|i: int| 0 <= i < m implies (#[trigger] evs[i])->Candidate_0.index == i by {
        assert(evs[i] == EventView::Candidate(
            crate::sync::SyncLock { index: i as usize, distance: prev.0.matches[i] },
        ));
    }
    let lock = evs.last()->Locked_lock;
    assert(lock.index as int == j);
}

/// Running two inputs one after the other is running their concatenation.
pub proof fn lemma_run_append(v: SyncView, a: Seq<bool>, b: Seq<bool>)
    ensures
        spec_run(v, a + b).0 == spec_run(spec_run(v, a).0, b).0,
        spec_run(v, a + b).1 == spec_run(v, a).1 + spec_run(spec_run(v, a).0, b).1,
    decreases b.len(),
{
    if b.len() == 0 {
        assert(a + b =~= a);
        assert(spec_run(v, a).1 + Seq::<EventView>::empty() =~= spec_run(v, a).1);
    } else {
        lemma_run_append(v, a, b.drop_last());
        assert((a + b).drop_last() =~= a + b.drop_last());
        assert((a + b).last() == b.last());
        let ra = spec_run(v, a);
        assert(spec_run(v, a + b).1 =~= ra.1 + spec_run(ra.0, b).1);
    }
}

/// Law: the invariant holds after any run.
pub proof fn lemma_run_wf(v: SyncView, input: Seq<bool>)
    requires
        v.wf(),
    ensures
        spec_run(v, input).0.wf(),
    decreases input.len(),
{
    if input.len() > 0 {
        lemma_run_wf(v, input.drop_last());
        crate::sync::lemma_step_preserves_wf(spec_run(v, input.drop_last()).0, input.last());
    }
}

/// A search that starts with no candidates and one sample short of a full
/// window, reads only candidates from `input` except its last sample, and
/// locks on that last sample.
pub open spec fn locks_after_run(v: SyncView, input: Seq<bool>) -> bool {
    &&& v.wf()
    &&& v.lock is None
    &&& v.matches.len() == 0
    &&& window_size(v) > 0
    &&& v.window.len() == window_size(v) - 1
    &&& 1 <= input.len() < usize::MAX
    &&& forall|i: int| 0 <= i < input.len() - 1 ==> #[trigger] spec_run(v, input).1[i] is Candidate
    &&& spec_run(v, input).1.last() is Locked
}

/// After the lock that ends `input`, fewer than one symbol of samples is held
/// and the stream from the end of the chosen candidate's preamble window on,
/// followed by `rest`, is the ideal signal of a well-framed `frame`.
pub open spec fn ready_after_lock(v: SyncView, input: Seq<bool>, rest: Seq<u8>, frame: Seq<u8>) -> bool {
    let lock = spec_run(v, input).1.last()->Locked_lock;
    let s = v.window + as_samples(input);
    let m = input.len() - 1;
    &&& 1 <= v.sps <= 255
    &&& well_framed(frame)
    &&& m - lock.index < v.sps
    &&& s.subrange(lock.index + window_size(v), m + window_size(v)) + rest == modulate(
        frame_bits(frame),
        v.sps,
    )
}

/// Law (synchronise, then read): when a run of candidates ends in a lock and
/// the sample stream continues, right after the chosen candidate's preamble
/// window, with a well-framed frame as an ideal signal, that frame is read
/// back exactly, with the CRC verdict of its bytes and the lock that found it.
/// The samples held at lock time must be fewer than one symbol.
pub proof fn lemma_sync_then_read(v: SyncView, input: Seq<bool>, rest: Seq<u8>, frame: Seq<u8>)
    requires
        locks_after_run(v, input),
        ready_after_lock(v, input, rest, frame),
    ensures
        spec_run(v, input + as_decisions(rest)).1.last() == (EventView::Frame {
            data: frame,
            crc_valid: frame_crc_ok(frame),
            lock: spec_run(v, input).1.last()->Locked_lock,
        }),
{
    lemma_lock_position(v, input);
    lemma_run_wf(v, input);
    let m = (input.len() - 1) as nat;
    lemma_candidate_run(v, input, m);
    let st = spec_run(v, input).0;
    let lock = spec_run(v, input).1.last()->Locked_lock;
    assert(input.drop_last() =~= input.take(m as int));
    assert(st.bits == v.bits);
    assert(st.bytes == v.bytes);
    assert(ready_to_read(st, rest, frame));
    lemma_frame_roundtrip(st, rest, frame);
    lemma_run_append(v, input, as_decisions(rest));
    let evs_b = spec_run(st, as_decisions(rest)).1;
    assert(evs_b.len() == rest.len());
    assert(rest.len() >= 1) by {
        lemma_ideal_binary(frame, v.sps);
        assert(8 * frame.len() * v.sps >= 8 * v.sps) by (nonlinear_arith)
            requires
                frame.len() >= 1,
        ;
    }
}

/// How many steps a state needs behind it: every held sample was pushed by a
/// step; a run of candidates needs a full window and one step per further
/// candidate; and a frame being read needs the preamble window before it and
/// one symbol of samples per bit read.
pub open spec fn frame_budget(v: SyncView, t: nat) -> bool {
    &&& v.window.len() <= t
    &&& v.lock is None && v.matches.len() > 0 ==> t + 1 >= window_size(v) + v.matches.len()
    &&& v.lock is Some ==> t >= v.window.len() + window_size(v) + v.sps * (8 * v.bytes.len()
        + v.bits.len())
}

proof fn lemma_budget_step(v: SyncView, t: nat, bit: bool)
    requires
        v.wf(),
        frame_budget(v, t),
    ensures
        frame_budget(spec_step(v, bit).0, t + 1),
        spec_step(v, bit).0.preamble == v.preamble,
        spec_step(v, bit).0.sps == v.sps,
        spec_step(v, bit).1 is Frame ==> t + 1 >= window_size(v) + 104 * v.sps,
{
    let b: u8 = if bit {
        1u8
    } else {
        0u8
    };
    let v1 = SyncView { window: v.window.push(b), ..v };
    let out = spec_step(v, bit);
    let n = window_size(v);
    let sps = v.sps;
    if out.1 is Fault {
        assert(out.0 == v);
    } else {
        match v.lock {
            None => {
                let so = search_outcome(v1);
                assert(out == so);
                assert(v.bytes.len() == 0 && v.bits.len() == 0);
                assert(sps * (8 * v.bytes.len() + v.bits.len()) == 0) by (nonlinear_arith)
                    requires
                        v.bytes.len() == 0 && v.bits.len() == 0,
                ;
                if so.1 is Locked {
                    crate::sync::lemma_first_min_exists(v1.matches);
                }
            },
            Some(l) => {
                let d = decode_outcome(v1, l);
                assert(out == d);
                let w = v1.window;
                if w.len() >= sps {
                    let c = 8 * v.bytes.len() + v.bits.len();
                    let bit2 = vote(w, sps);
                    let bits2 = v.bits.push(bit2);
                    let full = bits2.len() == 8;
                    let bits3 = if full {
                        Seq::<u8>::empty()
                    } else {
                        bits2
                    };
                    let bytes2 = if full {
                        v.bytes.push(bits_value(bits2) as u8)
                    } else {
                        v.bytes
                    };
                    assert(8 * bytes2.len() + bits3.len() == c + 1);
                    assert(sps * (c + 1) == sps * c + sps) by (nonlinear_arith);
                    if d.1 is Decoded {
                        assert(d.0.window.len() == w.len() - sps);
                        assert(d.0.bytes == bytes2 && d.0.bits == bits3);
                    }
                    if d.1 is Frame {
                        assert(bytes2.len() > 1);
                        assert(v.bytes.len() > 0);
                        assert(bytes2[0] == v.bytes[0]);
                        assert(v.bytes.len() >= 12);
                        assert(c + 1 >= 104);
                        assert(sps * (c + 1) >= sps * 104) by (nonlinear_arith)
                            requires
                                c + 1 >= 104,
                        ;
                    }
                }
            },
        }
    }
}

proof fn lemma_budget_run(v: SyncView, input: Seq<bool>)
    requires
        v.wf(),
        frame_budget(v, 0),
    ensures
        spec_run(v, input).0.wf(),
        frame_budget(spec_run(v, input).0, input.len()),
        spec_run(v, input).0.preamble == v.preamble,
        spec_run(v, input).0.sps == v.sps,
        spec_run(v, input).1.len() == input.len(),
        forall|i: int|
            0 <= i < input.len() && (#[trigger] spec_run(v, input).1[i]) is Frame ==> i + 1
                >= window_size(v) + 104 * v.sps,
    decreases input.len(),
{
    if input.len() > 0 {
        let p = input.drop_last();
        lemma_budget_run(v, p);
        let prev = spec_run(v, p);
        lemma_budget_step(prev.0, p.len(), input.last());
        crate::sync::lemma_step_preserves_wf(prev.0, input.last());
        let evs = spec_run(v, input).1;
        assert(evs == prev.1.push(spec_step(prev.0, input.last()).1));
        assert forall|i: int|
            0 <= i < input.len() && (#[trigger] evs[i]) is Frame implies i + 1 >= window_size(v) + 104
            * v.sps by {
            if i < p.len() {
                assert(evs[i] == prev.1[i]);
            }
        }
    }
}

/// Law (no early frame): from a freshly created synchroniser, no frame is
/// reported before a whole preamble window and then thirteen bytes (the
/// shortest accepted frame) of symbols have arrived: the step that reports a
/// frame is at least the `preamble_len * sps + 104 * sps`-th.
pub proof fn lemma_no_early_frame(preamble: u64, n: nat, sps: nat, input: Seq<bool>)
    requires
        n <= 64,
    ensures
        forall|i: int|
            0 <= i < input.len() && (#[trigger] spec_run(
                crate::sync::initial_view(preamble, n, sps),
                input,
            ).1[i]) is Frame ==> i + 1 >= n * sps + 104 * sps,
{
    let v = crate::sync::initial_view(preamble, n, sps);
    assert forall|i: int| 0 <= i < v.preamble.len() implies #[trigger] v.preamble[i] <= 1 by {
        lemma_bit_at_binary(preamble, (n - 1 - i) as nat);
    }
    assert(window_size(v) == n * sps) by (nonlinear_arith)
        requires
            window_size(v) == v.sps * v.preamble.len(),
            v.sps == sps,
            v.preamble.len() == n,
    ;
    assert(v.wf());
    lemma_budget_run(v, input);
}

/// The samples held after a step appends the decision `bit`.
pub open spec fn pushed_window(v: SyncView, bit: bool) -> Seq<u8> {
    v.window.push(
        if bit {
            1u8
        } else {
            0u8
        },
    )
}

/// Law (candidate rule): when a search step completes a full window, the
/// window is a candidate exactly when no leading group of `k` preamble
/// symbols has more than `4 * k` mismatching samples and the whole preamble
/// has fewer than four mismatching samples per symbol; a candidate reports
/// its total number of mismatching samples, and its position in the run.
pub proof fn lemma_candidate_rule(v: SyncView, bit: bool)
    requires
        v.wf(),
        v.lock is None,
        v.preamble.len() >= 1,
        v.window.len() + 1 == window_size(v),
        v.matches.len() < usize::MAX,
    ensures
        ({
            let w = pushed_window(v, bit);
            let n = v.preamble.len();
            let total = prefix_distance(v.preamble, w, v.sps, n);
            let ok = (forall|k: nat|
                1 <= k <= n ==> #[trigger] prefix_distance(v.preamble, w, v.sps, k) <= 4 * k)
                && total < 4 * n;
            &&& ok ==> spec_step(v, bit).1 == EventView::Candidate(
                crate::sync::SyncLock { index: v.matches.len() as usize, distance: total as u32 },
            )
            &&& !ok ==> !(spec_step(v, bit).1 is Candidate)
        }),
{
    let w = pushed_window(v, bit);
    let n = v.preamble.len();
    let total = prefix_distance(v.preamble, w, v.sps, n);
    if total < 4 * n {
        assert(total < 256);
    }
}

proof fn lemma_prefix_sparse(pre: Seq<u8>, w: Seq<u8>, sps: nat, k: nat)
    requires
        k <= pre.len(),
        forall|x: int| 0 <= x < pre.len() ==> #[trigger] mismatches(pre[x], w, x * sps, sps) < 4,
    ensures
        prefix_distance(pre, w, sps, k) <= 3 * k,
    decreases k,
{
    if k > 0 {
        lemma_prefix_sparse(pre, w, sps, (k - 1) as nat);
        let x = (k - 1) as int;
        assert(mismatches(pre[x], w, x * sps, sps) < 4);
    }
}

/// Law (sparse noise is tolerated): when a search step completes a full
/// window in which every preamble symbol has at most three mismatching
/// samples, the window is a candidate, whatever the number of symbols, and
/// it reports the total number of mismatching samples of its symbols.
pub proof fn lemma_sparse_noise_candidate(v: SyncView, bit: bool)
    requires
        v.wf(),
        v.lock is None,
        v.preamble.len() >= 1,
        v.window.len() + 1 == window_size(v),
        v.matches.len() < usize::MAX,
        forall|x: int|
            0 <= x < v.preamble.len() ==> #[trigger] mismatches(
                v.preamble[x],
                pushed_window(v, bit),
                x * v.sps,
                v.sps,
            ) < 4,
    ensures
        spec_step(v, bit).1 is Candidate,
        spec_step(v, bit).1->Candidate_0.distance <= 3 * v.preamble.len(),
        spec_step(v, bit).1->Candidate_0.index == v.matches.len(),
{
    let w = pushed_window(v, bit);
    let n = v.preamble.len();
    assert forall|k: nat| 1 <= k <= n implies #[trigger] prefix_distance(v.preamble, w, v.sps, k)
        <= 4 * k by {
        lemma_prefix_sparse(v.preamble, w, v.sps, k);
    }
    lemma_prefix_sparse(v.preamble, w, v.sps, n);
    lemma_candidate_rule(v, bit);
}

/// Law (majority vote): while reading a frame, a step that completes a
/// symbol reads bit 1 exactly when more than half of that symbol's samples
/// are 1 (twice their sum exceeds the samples per symbol), for symbols of up
/// to 511 samples whose sum fits a byte; within a byte the bit is reported
/// as read.
pub proof fn lemma_majority_vote(v: SyncView, bit: bool)
    requires
        v.wf(),
        v.lock is Some,
        v.bits.len() < 7,
        v.sps <= 511,
        v.window.len() + 1 >= v.sps,
        seq_sum(pushed_window(v, bit).take(v.sps as int)) <= 255,
    ensures
        ({
            let w = pushed_window(v, bit);
            let ones = seq_sum(w.take(v.sps as int));
            &&& spec_step(v, bit).1 == EventView::Decoded(
                if 2 * ones > v.sps {
                    1u8
                } else {
                    0u8
                },
            )
            &&& spec_step(v, bit).0.bits == v.bits.push(
                if 2 * ones > v.sps {
                    1u8
                } else {
                    0u8
                },
            )
            &&& spec_step(v, bit).0.bytes == v.bytes
        }),
{
    let w = pushed_window(v, bit);
    let ones = seq_sum(w.take(v.sps as int));
    assert(((v.sps / 2) as u8) as nat == v.sps / 2);
    assert((ones > v.sps / 2) == (2 * ones > v.sps));
    if v.bytes.len() > 0 {
        assert(v.bytes.len() <= v.bytes[0]);
    }
}

/// The change in mismatch count when sample `i` is replaced by `b`: one more
/// if the old sample matched the expected bit and the new one does not, one
/// fewer in the opposite case.
pub open spec fn flip_delta(expected: u8, old: u8, b: u8) -> int {
    (if b != expected {
        1int
    } else {
        0int
    }) - (if old != expected {
        1int
    } else {
        0int
    })
}

proof fn lemma_mismatches_update(bit: u8, w: Seq<u8>, start: int, k: nat, i: int, b: u8)
    requires
        0 <= i < w.len(),
        0 <= start,
        start + k <= w.len(),
    ensures
        mismatches(bit, w.update(i, b), start, k) == mismatches(bit, w, start, k) + if start <= i
            < start + k {
            flip_delta(bit, w[i], b)
        } else {
            0
        },
    decreases k,
{
    if k > 0 {
        lemma_mismatches_update(bit, w, start, (k - 1) as nat, i, b);
        let j = start + k - 1;
        if j != i {
            assert(w.update(i, b)[j] == w[j]);
        }
    }
}

proof fn lemma_prefix_update(pre: Seq<u8>, w: Seq<u8>, sps: nat, k: nat, i: int, b: u8)
    requires
        0 <= i < w.len(),
        k <= pre.len(),
        sps >= 1,
        w.len() >= pre.len() * sps,
    ensures
        prefix_distance(pre, w.update(i, b), sps, k) == prefix_distance(pre, w, sps, k) + if i
            < k * sps {
            flip_delta(pre[i / sps as int], w[i], b)
        } else {
            0
        },
    decreases k,
{
    if k > 0 {
        let x = (k - 1) as nat;
        lemma_prefix_update(pre, w, sps, x, i, b);
        assert(k * sps == x * sps + sps && k * sps <= pre.len() * sps) by (nonlinear_arith)
            requires
                x + 1 == k,
                k <= pre.len(),
        ;
        lemma_mismatches_update(pre[x as int], w, (x * sps) as int, sps, i, b);
        let w2 = w.update(i, b);
        assert(prefix_distance(pre, w2, sps, k) == prefix_distance(pre, w2, sps, x)
            + mismatches(pre[x as int], w2, (x * sps) as int, sps));
        assert(prefix_distance(pre, w, sps, k) == prefix_distance(pre, w, sps, x)
            + mismatches(pre[x as int], w, (x * sps) as int, sps));
        if x * sps <= i < x * sps + sps {
            assert(i / sps as int == x) by (nonlinear_arith)
                requires
                    x * sps <= i < x * sps + sps,
                    sps >= 1,
            ;
            assert(!(i < x * sps));
            assert(i < k * sps);
        } else if i < x * sps {
            assert(i < k * sps);
        } else {
            assert(!(i < k * sps));
            assert(!(i < x * sps));
        }
    } else {
        assert(k * sps == 0) by (nonlinear_arith)
            requires
                k == 0,
        ;
    }
}

/// Law (every sample counts once): replacing one sample of a full preamble
/// window changes its mismatch count by exactly the change in whether that
/// sample agrees with its symbol's preamble bit.
pub proof fn lemma_window_sample_counts(pre: Seq<u8>, w: Seq<u8>, sps: nat, i: int, b: u8)
    requires
        sps >= 1,
        0 <= i < pre.len() * sps,
        w.len() >= pre.len() * sps,
    ensures
        prefix_distance(pre, w.update(i, b), sps, pre.len()) == prefix_distance(pre, w, sps, pre.len())
            + flip_delta(pre[i / sps as int], w[i], b),
{
    lemma_prefix_update(pre, w, sps, pre.len(), i, b);
}

} // verus!
