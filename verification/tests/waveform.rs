use wavestream::config::ConfigError;
use wavestream::pcm::{decode_sample, encode_sample, FRAME_BYTES};
use wavestream::sine::{sine_sample, SendSinewave, SineWave, SINE_PEAK};
use wavestream::triangle::{SendTriangleWave, TriangleWave, TRI_PEAK};

fn frame_level(buf: &[u8], frame: usize) -> i16 {
    decode_sample(buf[FRAME_BYTES * frame], buf[FRAME_BYTES * frame + 1])
}

fn frame_level_right(buf: &[u8], frame: usize) -> i16 {
    decode_sample(buf[FRAME_BYTES * frame + 2], buf[FRAME_BYTES * frame + 3])
}

#[test]
fn sample_round_trip_is_exact() {
    for s in [0i16, 1, -1, 2843, -2843, 16383, -16383, 32767, -32768] {
        let (lo, hi) = encode_sample(s);
        assert_eq!(decode_sample(lo, hi), s);
    }
}

#[test]
fn pcm_bytes_are_little_endian() {
    // 2843 = 0x0b1b
    assert_eq!(encode_sample(2843), (0x1b, 0x0b));
    // -2 = 0xfffe in two's complement
    assert_eq!(encode_sample(-2), (0xfe, 0xff));
    assert_eq!(encode_sample(0), (0, 0));
}

#[test]
fn sine_first_frame_is_silence() {
    let mut wave = SineWave::new(440, 16000).unwrap();
    let mut buf = vec![0xaa; 37 * 4];
    wave.fill(&mut buf, 37);
    assert_eq!(&buf[0..4], &[0, 0, 0, 0]);
}

#[test]
fn sine_phase_advances_one_period_in_37_samples() {
    // 16000 / 440 is about 36.36, so the wrap happens on sample 37 and
    // the position lands within one increment of the start.
    let mut wave = SineWave::new(440, 16000).unwrap();
    let mut buf = vec![0u8; 37 * 4];
    wave.fill(&mut buf, 36);
    assert_eq!(wave.pos, 15840);
    wave.fill(&mut buf, 1);
    assert_eq!(wave.pos, 280);
    assert!(wave.pos < 440);
}

#[test]
fn sine_phase_stays_inside_one_period() {
    let mut wave = SineWave::new(440, 16000).unwrap();
    let mut buf = vec![0u8; 64 * 4];
    for _ in 0..200 {
        wave.fill(&mut buf, 64);
        assert!(wave.pos < 16000);
    }
}

#[test]
fn sine_known_levels() {
    let mut wave = SineWave::new(440, 16000).unwrap();
    let mut buf = vec![0u8; 10 * 4];
    wave.fill(&mut buf, 10);
    assert_eq!(frame_level(&buf, 0), 0);
    assert_eq!(frame_level(&buf, 1), 2843);
    assert_eq!(frame_level(&buf, 2), 5568);
    assert_eq!(frame_level(&buf, 9), 16380);
    // both channels carry the same tone
    for k in 0..10 {
        assert_eq!(frame_level(&buf, k), frame_level_right(&buf, k));
    }
}

#[test]
fn sine_quarter_period_hits_the_peak() {
    assert_eq!(sine_sample(4000, 16000), SINE_PEAK);
    assert_eq!(sine_sample(0, 16000), 0);
    assert_eq!(sine_sample(8000, 16000), 0);
    assert_eq!(sine_sample(12000, 16000), -SINE_PEAK);
}

#[test]
fn sine_levels_never_leave_half_scale() {
    for pos in 0..16000 {
        let s = sine_sample(pos, 16000);
        assert!(-16383 <= s && s <= 16383);
    }
}

#[test]
fn sine_fills_concatenate_without_seam() {
    let mut whole = SineWave::new(440, 16000).unwrap();
    let mut split = SineWave::new(440, 16000).unwrap();
    let mut big = vec![0u8; 80 * 4];
    whole.fill(&mut big, 80);
    let mut first = vec![0u8; 40 * 4];
    let mut second = vec![0u8; 40 * 4];
    split.fill(&mut first, 40);
    split.fill(&mut second, 40);
    assert_eq!(&big[..160], &first[..]);
    assert_eq!(&big[160..], &second[..]);
    assert_eq!(whole.pos, split.pos);
}

#[test]
fn sine_rejects_bad_configurations() {
    assert_eq!(SineWave::new(0, 16000).unwrap_err(), ConfigError::FrequencyZero);
    assert_eq!(
        SineWave::new(8000, 16000).unwrap_err(),
        ConfigError::FrequencyAboveNyquist
    );
    assert_eq!(
        SineWave::new(20000, 16000).unwrap_err(),
        ConfigError::FrequencyAboveNyquist
    );
    assert!(SineWave::new(7999, 16000).is_ok());
    assert_eq!(SendSinewave::new(0, 16000).unwrap_err(), ConfigError::FrequencyZero);
}

#[test]
fn triangle_table_for_440_at_16000() {
    let wave = TriangleWave::new(440, 16000).unwrap();
    assert_eq!(wave.table_len(), 36);
    assert_eq!(wave.sample_at(0), 0);
    assert_eq!(wave.sample_at(1), 3640);
    assert_eq!(wave.sample_at(9), TRI_PEAK);
    assert_eq!(wave.sample_at(18), 0);
    assert_eq!(wave.sample_at(27), -TRI_PEAK);
}

#[test]
fn triangle_table_is_symmetric() {
    let wave = TriangleWave::new(440, 16000).unwrap();
    let l = wave.table_len();
    for i in 1..l {
        assert_eq!(wave.sample_at(l - i), -wave.sample_at(i));
    }
}

#[test]
fn triangle_table_is_symmetric_for_many_lengths() {
    for freq in [50u32, 173, 440, 999, 4001] {
        let wave = TriangleWave::new(freq, 16000).unwrap();
        let l = wave.table_len();
        for i in 1..l {
            assert_eq!(wave.sample_at(l - i), -wave.sample_at(i));
        }
    }
}

#[test]
fn triangle_playback_is_circular() {
    let mut wave = TriangleWave::new(440, 16000).unwrap();
    let mut buf = vec![0u8; 72 * 4];
    wave.fill(&mut buf, 72);
    assert_eq!(wave.cursor, 0);
    for k in 0..36 {
        assert_eq!(frame_level(&buf, k), frame_level(&buf, k + 36));
    }
    let fresh = TriangleWave::new(440, 16000).unwrap();
    for k in 0..36 {
        assert_eq!(frame_level(&buf, k), fresh.sample_at(k));
    }
}

#[test]
fn triangle_rejects_bad_configurations() {
    assert_eq!(TriangleWave::new(0, 16000).unwrap_err(), ConfigError::FrequencyZero);
    assert_eq!(
        TriangleWave::new(8000, 16000).unwrap_err(),
        ConfigError::FrequencyAboveNyquist
    );
    assert_eq!(
        SendTriangleWave::new(9000, 16000).unwrap_err(),
        ConfigError::FrequencyAboveNyquist
    );
    assert!(TriangleWave::new(7999, 16000).is_ok());
}
