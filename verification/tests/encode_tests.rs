use std::io::Cursor;

use wavetable::pcm::quantize_burst;
use wavetable::sequencer::concat_bursts;

fn pcm16_mono_spec() -> hound::WavSpec {
    hound::WavSpec {
        channels: 1,
        sample_rate: 44100,
        bits_per_sample: 16,
        sample_format: hound::SampleFormat::Int,
    }
}

fn write_wav(samples: &[i16]) -> Vec<u8> {
    let mut buf: Vec<u8> = Vec::new();
    {
        let cursor = Cursor::new(&mut buf);
        let mut writer = hound::WavWriter::new(cursor, pcm16_mono_spec()).unwrap();
        for &s in samples {
            writer.write_sample(s).unwrap();
        }
        writer.finalize().unwrap();
    }
    buf
}

fn read_wav(bytes: Vec<u8>) -> (hound::WavSpec, Vec<i16>) {
    let mut reader = hound::WavReader::new(Cursor::new(bytes)).unwrap();
    let spec = reader.spec();
    let samples: Vec<i16> = reader.samples::<i16>().map(|s| s.unwrap()).collect();
    (spec, samples)
}

#[test]
fn end_to_end_single_note() {
    // Note 440.00 Hz, encode rate 44100, burst length 4000: the encoded body
    // is exactly round_toward_zero(sin(2*pi*t*440) * 32767) for t = n/44100,
    // n = 0..3999, reproduced bit-exactly from the closed form.
    let f = 44000u32 as f32 / 100.0;
    let mut bits: Vec<u32> = Vec::new();
    let mut expected: Vec<i16> = Vec::new();
    for n in 0..4000u32 {
        let t = n as f32 / 44100.0;
        let sample = (2.0 * std::f32::consts::PI * t * f).sin();
        let scaled = sample * 32767.0f32;
        expected.push(scaled as i16);
        bits.push(scaled.to_bits());
    }
    let burst = quantize_burst(&bits);
    assert_eq!(burst, expected);

    let body = concat_bursts(&vec![burst]);
    assert_eq!(body.len(), 4000);
    let (spec, samples) = read_wav(write_wav(&body));
    assert_eq!(spec, pcm16_mono_spec());
    assert_eq!(samples, expected);
}

#[test]
fn empty_note_sequence_yields_header_only_file() {
    // No notes: the container is still valid, with zero body samples.
    let body = concat_bursts(&Vec::new());
    assert!(body.is_empty());
    let bytes = write_wav(&body);
    assert_eq!(bytes.len(), 44);
    let (spec, samples) = read_wav(bytes);
    assert_eq!(spec, pcm16_mono_spec());
    assert_eq!(samples.len(), 0);
}

#[test]
fn bursts_concatenate_in_note_order() {
    let bursts = vec![vec![1i16, 2, 3], vec![], vec![-4i16, 5]];
    let body = concat_bursts(&bursts);
    assert_eq!(body, vec![1i16, 2, 3, -4, 5]);
}

#[test]
fn container_round_trip_preserves_samples() {
    let body = vec![1i16, -2, 300, -32767, 32767, 0];
    let (spec, samples) = read_wav(write_wav(&body));
    assert_eq!(spec.channels, 1);
    assert_eq!(spec.bits_per_sample, 16);
    assert_eq!(samples, body);
}
