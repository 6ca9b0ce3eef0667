use wize_demod::crc::check_crc;
use wize_demod::sync::{FrameSync, SyncEvent, SyncFault};

const PREAMBLE: u64 = 0x5555F672;
const PREAMBLE_LEN: usize = 32;
const SPS: usize = 20;

fn push_bits(stream: &mut Vec<bool>, value: u64, count: usize, sps: usize) {
    for k in (0..count).rev() {
        let bit = (value >> k) & 1 == 1;
        for _ in 0..sps {
            stream.push(bit);
        }
    }
}

fn with_crc(mut body: Vec<u8>) -> Vec<u8> {
    let crc = crc16::State::<crc16::EN_13757>::calculate(&body);
    body.push((crc >> 8) as u8);
    body.push(crc as u8);
    body
}

fn signal(frame: &[u8], lead: usize, trail: usize) -> Vec<bool> {
    let mut s = vec![false; lead];
    push_bits(&mut s, PREAMBLE, PREAMBLE_LEN, SPS);
    for &b in frame {
        push_bits(&mut s, b as u64, 8, SPS);
    }
    s.extend(std::iter::repeat(false).take(trail));
    s
}

fn run(sync: &mut FrameSync, input: &[bool]) -> Vec<SyncEvent> {
    input.iter().map(|&b| sync.step(b)).collect()
}

fn sample_frame() -> Vec<u8> {
    // length field 14: 12 bytes of body after it, then two CRC bytes
    let mut body = vec![14u8];
    body.extend_from_slice(&[0x44, 0x93, 0x15, 0x68, 0x61, 0x05, 0x28, 0x74, 0x37, 0x01, 0x8e, 0x0f]);
    let frame = with_crc(body);
    assert_eq!(frame.len(), 15);
    frame
}

#[test]
fn clean_frame_is_read_back() {
    let frame = sample_frame();
    let mut sync = FrameSync::new(PREAMBLE, PREAMBLE_LEN, SPS);
    let events = run(&mut sync, &signal(&frame, 400, 400));
    let frames: Vec<&SyncEvent> = events.iter().filter(|e| matches!(e, SyncEvent::Frame(_))).collect();
    assert_eq!(frames.len(), 1);
    match frames[0] {
        SyncEvent::Frame(f) => {
            assert_eq!(f.data, frame);
            assert_eq!(f.data.len(), f.data[0] as usize + 1);
            assert!(f.crc_valid);
            assert_eq!(f.lock.distance, 0);
        }
        _ => unreachable!(),
    }
    assert!(!sync.is_locked());
    assert_eq!(sync.bytes_len(), 0);
}

#[test]
fn lock_is_on_the_exact_alignment() {
    let frame = sample_frame();
    let mut sync = FrameSync::new(PREAMBLE, PREAMBLE_LEN, SPS);
    let events = run(&mut sync, &signal(&frame, 400, 0));
    let mut candidates = Vec::new();
    let mut locked = None;
    for (step, e) in events.iter().enumerate() {
        match e {
            SyncEvent::Candidate(l) => candidates.push(*l),
            SyncEvent::Locked { lock, keep } => {
                locked = Some((*lock, *keep, step));
                break;
            }
            _ => {}
        }
    }
    let (lock, keep, step) = locked.expect("the preamble locks");
    assert!(!candidates.is_empty());
    for (i, c) in candidates.iter().enumerate() {
        assert_eq!(c.index, i);
    }
    let best = candidates.iter().map(|c| c.distance).min().unwrap();
    assert_eq!(best, 0);
    let first_best = candidates.iter().position(|c| c.distance == best).unwrap();
    assert_eq!(lock.index, first_best);
    assert_eq!(lock.distance, 0);
    assert_eq!(keep, candidates.len() - lock.index + 1);

    // reading starts right after the exactly aligned preamble
    let mut again = FrameSync::new(PREAMBLE, PREAMBLE_LEN, SPS);
    let input = signal(&frame, 400, 0);
    run(&mut again, &input[..=step]);
    assert!(again.is_locked());
    let first_data = 400 + PREAMBLE_LEN * SPS;
    assert_eq!(step + 1 - first_data, keep - 1);
    let expected: Vec<u8> = input[first_data..=step].iter().map(|&b| b as u8).collect();
    assert_eq!(again.window_samples(), expected);
}

#[test]
fn corrupted_frame_fails_crc() {
    let mut frame = sample_frame();
    frame[5] ^= 0x01;
    let mut sync = FrameSync::new(PREAMBLE, PREAMBLE_LEN, SPS);
    let events = run(&mut sync, &signal(&frame, 100, 100));
    let f = events
        .iter()
        .find_map(|e| if let SyncEvent::Frame(f) = e { Some(f) } else { None })
        .expect("frame read");
    assert_eq!(f.data, frame);
    assert!(!f.crc_valid);
    assert_eq!(f.crc_valid, check_crc(&f.data));
}

#[test]
fn short_length_field_resets() {
    let frame = vec![5u8, 1, 2, 3, 4, 5];
    let mut sync = FrameSync::new(PREAMBLE, PREAMBLE_LEN, SPS);
    let events = run(&mut sync, &signal(&frame, 100, 100));
    assert!(events.iter().any(|e| matches!(e, SyncEvent::Reset(5))));
    assert!(!events.iter().any(|e| matches!(e, SyncEvent::Frame(_))));
}

#[test]
fn long_length_field_resets() {
    let frame = vec![200u8, 1, 2, 3];
    let mut sync = FrameSync::new(PREAMBLE, PREAMBLE_LEN, SPS);
    let events = run(&mut sync, &signal(&frame, 100, 100));
    assert!(events.iter().any(|e| matches!(e, SyncEvent::Reset(200))));
}

#[test]
fn noise_free_silence_never_matches() {
    let mut sync = FrameSync::new(PREAMBLE, PREAMBLE_LEN, SPS);
    let events = run(&mut sync, &vec![false; 2000]);
    let window = PREAMBLE_LEN * SPS;
    for (i, e) in events.iter().enumerate() {
        if i + 1 < window {
            assert!(matches!(e, SyncEvent::Filling));
        } else {
            assert!(matches!(e, SyncEvent::NoMatch));
        }
    }
    assert_eq!(sync.window_len(), window - 1);
}

#[test]
fn preamble_bits_are_msb_first() {
    let sync = FrameSync::new(0b1011, 4, 3);
    assert_eq!(sync.preamble_len(), 4);
    assert_eq!(sync.samples_per_symbol(), 3);
    let mut s = FrameSync::new(0b1011, 4, 3);
    let mut input = Vec::new();
    push_bits(&mut input, 0b1011, 4, 3);
    let events = run(&mut s, &input);
    match &events[11] {
        SyncEvent::Candidate(l) => assert_eq!(l.distance, 0),
        other => panic!("unexpected {:?}", other),
    }
}

#[test]
fn vote_overflow_is_reported() {
    // one-bit preamble "1" spread over 300 samples
    let mut sync = FrameSync::new(1, 1, 300);
    let mut input = vec![true; 300];
    input.extend(vec![false; 4]);
    let events = run(&mut sync, &input);
    assert!(matches!(events[299], SyncEvent::Candidate(_)));
    match &events[303] {
        SyncEvent::Locked { lock, keep } => {
            assert_eq!(lock.index, 0);
            assert_eq!(lock.distance, 0);
            assert_eq!(*keep, 5);
        }
        other => panic!("unexpected {:?}", other),
    }
    assert_eq!(sync.window_len(), 4);
    let events = run(&mut sync, &vec![true; 295]);
    assert!(events.iter().all(|e| matches!(e, SyncEvent::Waiting)));
    assert_eq!(sync.window_len(), 299);
    assert!(matches!(sync.step(true), SyncEvent::Fault(SyncFault::VoteOverflow)));
    // the faulting step leaves the state as it was
    assert_eq!(sync.window_len(), 299);
    assert!(sync.is_locked());
}

#[test]
fn overrun_is_reported() {
    // a one-bit "0" preamble over five samples matches every quiet window
    let mut sync = FrameSync::new(0, 1, 5);
    let mut input = vec![false; 20];
    input.extend(vec![true; 4]);
    let events = run(&mut sync, &input[..23]);
    assert!(events[..4].iter().all(|e| matches!(e, SyncEvent::Filling)));
    assert!(events[4..].iter().all(|e| matches!(e, SyncEvent::Candidate(_))));
    let before = sync.window_samples();
    let matches_before = sync.matches_len();
    assert!(matches!(sync.step(input[23]), SyncEvent::Fault(SyncFault::WindowOverrun)));
    assert_eq!(sync.window_samples(), before);
    assert_eq!(sync.matches_len(), matches_before);
}

#[test]
fn window_samples_are_the_sliced_decisions() {
    let mut sync = FrameSync::new(PREAMBLE, PREAMBLE_LEN, SPS);
    run(&mut sync, &[true, false, false, true]);
    assert_eq!(sync.window_samples(), vec![1, 0, 0, 1]);
    assert_eq!(sync.window_len(), 4);
    assert_eq!(sync.matches_len(), 0);
}

#[test]
fn majority_vote_reads_noisy_symbols() {
    let frame = sample_frame();
    let mut s = signal(&frame, 100, 100);
    // flip a few samples inside every data symbol; the vote still reads each bit
    let data_start = 100 + PREAMBLE_LEN * SPS;
    for sym in 0..frame.len() * 8 {
        let base = data_start + sym * SPS;
        s[base + 7] = !s[base + 7];
        s[base + 13] = !s[base + 13];
    }
    let mut sync = FrameSync::new(PREAMBLE, PREAMBLE_LEN, SPS);
    let events = run(&mut sync, &s);
    let f = events
        .iter()
        .find_map(|e| if let SyncEvent::Frame(f) = e { Some(f) } else { None })
        .expect("frame read");
    assert_eq!(f.data, frame);
    assert!(f.crc_valid);
}

#[test]
fn no_frame_before_preamble_and_thirteen_bytes() {
    let frame = with_crc(vec![12u8, 1, 2, 3, 4, 5, 6, 7, 8, 9, 10]);
    assert_eq!(frame.len(), 13);
    let mut sync = FrameSync::new(PREAMBLE, PREAMBLE_LEN, SPS);
    let events = run(&mut sync, &signal(&frame, 0, 100));
    let at = events.iter().position(|e| matches!(e, SyncEvent::Frame(_))).expect("frame read");
    assert!(at + 1 >= PREAMBLE_LEN * SPS + 104 * SPS);
    assert_eq!(at + 1, PREAMBLE_LEN * SPS + 104 * SPS);
}

#[test]
fn very_long_preamble_windows_are_accepted() {
    // a window of 64 * 100_000_000 samples exceeds 32 bits; the synchroniser
    // just keeps filling
    let mut sync = FrameSync::new(u64::MAX, 64, 100_000_000);
    for _ in 0..1000 {
        assert!(matches!(sync.step(true), SyncEvent::Filling));
    }
    assert_eq!(sync.window_len(), 1000);
}
