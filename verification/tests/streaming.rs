use wavestream::pcm::decode_sample;
use wavestream::sine::SendSinewave;
use wavestream::stream::{run_sine, run_triangle, StreamState};
use wavestream::transport::{write_all, ChunkTransport, TransportError};
use wavestream::triangle::SendTriangleWave;

#[test]
fn write_all_keeps_every_byte_in_order() {
    let bytes: Vec<u8> = (0..=255).collect();
    let mut t = ChunkTransport::new(7, 0);
    let r = write_all(&mut t, &bytes);
    assert_eq!(r, Ok(256));
    assert_eq!(t.taken, bytes);
}

#[test]
fn partial_writes_take_ceiling_of_m_over_k_calls() {
    // one descriptor burst is 240 frames = 960 bytes; 100 bytes per call
    // must take exactly ceil(960 / 100) = 10 calls and lose nothing.
    let mut wave = SendSinewave::new(440, 16000).unwrap();
    let mut chunked = ChunkTransport::new(100, 0);
    assert_eq!(wave.send(&mut chunked, 1), Ok(960));
    assert_eq!(chunked.calls, 10);
    assert_eq!(chunked.taken.len(), 960);

    let mut reference = SendSinewave::new(440, 16000).unwrap();
    let mut whole = ChunkTransport::new(usize::MAX, 0);
    assert_eq!(reference.send(&mut whole, 1), Ok(960));
    assert_eq!(whole.calls, 1);
    assert_eq!(chunked.taken, whole.taken);
}

#[test]
fn one_timeout_is_retried_without_regenerating() {
    let mut wave = SendSinewave::new(440, 16000).unwrap();
    let mut t = ChunkTransport::new(960, 1);
    assert_eq!(wave.send(&mut t, 1), Ok(960));
    assert_eq!(t.calls, 2);
    assert_eq!(t.taken.len(), 960);
    // the generator advanced exactly once for 240 frames:
    // (240 * 440) mod 16000 = 9600
    assert_eq!(wave.wave.pos, 9600);

    let mut reference = SendSinewave::new(440, 16000).unwrap();
    let mut smooth = ChunkTransport::new(960, 0);
    assert_eq!(reference.send(&mut smooth, 1), Ok(960));
    assert_eq!(t.taken, smooth.taken);
    assert_eq!(reference.wave.pos, 9600);
}

#[test]
fn timeouts_between_partial_writes_lose_nothing() {
    let mut wave = SendSinewave::new(440, 16000).unwrap();
    let mut t = ChunkTransport::new(50, 3);
    assert_eq!(wave.send(&mut t, 1), Ok(960));
    assert_eq!(t.calls, 3 + 20);
    assert_eq!(t.taken.len(), 960);
}

#[test]
fn a_dead_sink_faults_after_one_generation() {
    let mut wave = SendSinewave::new(440, 16000).unwrap();
    let mut t = ChunkTransport::new(0, 0);
    assert_eq!(wave.send(&mut t, 1), Err(TransportError::Fault(0)));
    assert_eq!(t.taken.len(), 0);
    // the frames for this cycle were generated exactly once even so
    assert_eq!(wave.wave.pos, 9600);
}

#[test]
fn sine_burst_carries_the_generated_frames() {
    let mut wave = SendSinewave::new(440, 16000).unwrap();
    let mut t = ChunkTransport::new(usize::MAX, 0);
    assert_eq!(wave.send(&mut t, 2), Ok(1920));
    assert_eq!(decode_sample(t.taken[0], t.taken[1]), 0);
    assert_eq!(decode_sample(t.taken[4], t.taken[5]), 2843);
    assert_eq!(decode_sample(t.taken[6], t.taken[7]), 2843);
}

#[test]
fn consecutive_bursts_continue_the_phase() {
    let mut twice = SendSinewave::new(440, 16000).unwrap();
    let mut t2 = ChunkTransport::new(33, 0);
    assert_eq!(twice.send(&mut t2, 1), Ok(960));
    assert_eq!(twice.send(&mut t2, 1), Ok(960));

    let mut once = SendSinewave::new(440, 16000).unwrap();
    let mut t1 = ChunkTransport::new(usize::MAX, 0);
    assert_eq!(once.send(&mut t1, 2), Ok(1920));
    assert_eq!(t2.taken, t1.taken);
    assert_eq!(twice.wave.pos, once.wave.pos);
}

#[test]
fn triangle_send_writes_one_period() {
    let mut wave = SendTriangleWave::new(440, 16000).unwrap();
    let mut t = ChunkTransport::new(usize::MAX, 0);
    assert_eq!(wave.send(&mut t), Ok(144));
    assert_eq!(t.taken.len(), 144);
    assert_eq!(wave.wave.cursor, 0);
    assert_eq!(decode_sample(t.taken[0], t.taken[1]), 0);
    assert_eq!(decode_sample(t.taken[36], t.taken[37]), 32767);
    assert_eq!(decode_sample(t.taken[108], t.taken[109]), -32767);
}

#[test]
fn triangle_send_repeats_the_same_period() {
    let mut wave = SendTriangleWave::new(440, 16000).unwrap();
    let mut t = ChunkTransport::new(11, 0);
    assert_eq!(wave.send(&mut t), Ok(144));
    assert_eq!(wave.send(&mut t), Ok(144));
    assert_eq!(t.taken.len(), 288);
    assert_eq!(t.taken[..144], t.taken[144..]);
}

#[test]
fn bounded_run_stops_after_its_cycles() {
    let mut wave = SendSinewave::new(440, 16000).unwrap();
    let mut t = ChunkTransport::new(123, 0);
    assert_eq!(run_sine(&mut wave, &mut t, 1, 5), StreamState::Stopped);
    assert_eq!(t.taken.len(), 5 * 960);

    // five cycles of one descriptor carry the same continuous waveform
    // as one burst of five descriptors
    let mut reference = SendSinewave::new(440, 16000).unwrap();
    let mut whole = ChunkTransport::new(usize::MAX, 0);
    assert_eq!(reference.send(&mut whole, 5), Ok(4800));
    assert_eq!(t.taken, whole.taken);
    assert_eq!(wave.wave.pos, reference.wave.pos);
}

#[test]
fn run_faults_when_the_sink_is_dead() {
    let mut wave = SendSinewave::new(440, 16000).unwrap();
    let mut t = ChunkTransport::new(0, 0);
    assert_eq!(run_sine(&mut wave, &mut t, 1, 3), StreamState::Faulted(0));
    assert_eq!(t.taken.len(), 0);
}

#[test]
fn run_triangle_streams_seamless_periods() {
    let mut wave = SendTriangleWave::new(440, 16000).unwrap();
    let mut t = ChunkTransport::new(13, 4);
    assert_eq!(run_triangle(&mut wave, &mut t, 3), StreamState::Stopped);
    assert_eq!(t.taken.len(), 3 * 144);
    assert_eq!(wave.wave.cursor, 0);
    assert_eq!(t.taken[..144], t.taken[144..288]);
    assert_eq!(t.taken[144..288], t.taken[288..]);
}

#[test]
fn triangle_send_retries_timeouts() {
    let mut wave = SendTriangleWave::new(440, 16000).unwrap();
    let mut t = ChunkTransport::new(144, 2);
    assert_eq!(wave.send(&mut t), Ok(144));
    assert_eq!(t.calls, 3);
    assert_eq!(t.taken.len(), 144);
}
