//! Framing of audio.

use raflow::audio::{drain_chunks, input_samples_per_frame, FRAME_SAMPLES, TARGET_SAMPLE_RATE};

#[test]
fn input_samples_per_frame_covers_common_rates() {
    let cases = [(16_000_u32, 320_usize), (44_100, 882), (48_000, 960)];
    for (rate, expected) in cases {
        assert_eq!(input_samples_per_frame(rate), expected, "rate={rate}");
    }
}

#[test]
fn whole_frames_are_taken_and_the_rest_is_kept() {
    assert_eq!(FRAME_SAMPLES, input_samples_per_frame(TARGET_SAMPLE_RATE));
    let mut buffer: Vec<f32> = vec![0.5; 500];
    assert!(drain_chunks(&mut buffer, 960).is_empty());
    buffer.extend(vec![0.25; 460]);
    let chunks = drain_chunks(&mut buffer, 960);
    assert_eq!(chunks.len(), 1);
    assert_eq!(chunks[0].len(), 960);
    assert_eq!((chunks[0][0], chunks[0][959]), (0.5, 0.25));
    assert!(buffer.is_empty());
    let mut numbers = vec![1, 2, 3, 4, 5];
    assert_eq!(drain_chunks(&mut numbers, 2), vec![vec![1, 2], vec![3, 4]]);
    assert_eq!(numbers, vec![5]);
}
