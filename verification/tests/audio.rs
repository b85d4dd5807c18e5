use streamer::audio::build_comment_header;
use streamer::audio::build_id_header;
use streamer::audio::evaluate_setup;
use streamer::audio::is_supported_sample_rate;
use streamer::audio::OggMuxer;
use streamer::audio::AUDIO_STREAM_SERIAL;
use streamer::audio::FRAME_QUEUE_CAPACITY;

fn expected_id_header() -> Vec<u8> {
    let mut v = Vec::new();
    v.extend_from_slice(b"OpusHead");
    v.push(1); // version
    v.push(2); // channels
    v.extend_from_slice(&0u16.to_le_bytes()); // pre-skip
    v.extend_from_slice(&48000u32.to_le_bytes()); // sample rate
    v.extend_from_slice(&0u16.to_le_bytes()); // gain
    v.push(0); // mapping family
    v
}

fn expected_comment_header() -> Vec<u8> {
    let mut v = Vec::new();
    v.extend_from_slice(b"OpusTags");
    let vendor = "Moonlight";
    v.extend_from_slice(&(vendor.len() as u32).to_le_bytes());
    v.extend_from_slice(vendor.as_bytes());
    v.extend_from_slice(&0u32.to_le_bytes()); // user comment list length
    v
}

#[test]
fn test_id_header_layout() {
    let id = build_id_header();
    assert_eq!(id, expected_id_header());
    assert_eq!(id.len(), 19);
}

#[test]
fn test_comment_header_layout() {
    let comment = build_comment_header();
    assert_eq!(comment, expected_comment_header());
    assert_eq!(comment.len(), 25);
}

#[test]
fn test_muxer_emits_header_pages_first() {
    let (_muxer, first, second) = OggMuxer::new(AUDIO_STREAM_SERIAL, 960);

    // One complete Ogg page each: 27 header bytes, one lacing byte, payload.
    assert_eq!(first.len(), 27 + 1 + 19);
    assert_eq!(&first[0..4], b"OggS");
    assert_eq!(first[5], 0x02); // beginning-of-stream flag on the first page
    assert_eq!(&first[6..14], &0u64.to_le_bytes()); // granule position zero
    assert_eq!(&first[14..18], &AUDIO_STREAM_SERIAL.to_le_bytes());
    assert_eq!(first[26], 1); // one segment
    assert_eq!(first[27], 19); // its length
    assert_eq!(&first[28..], &expected_id_header()[..]);

    assert_eq!(second.len(), 27 + 1 + 25);
    assert_eq!(&second[0..4], b"OggS");
    assert_eq!(second[5], 0x00);
    assert_eq!(&second[6..14], &0u64.to_le_bytes());
    assert_eq!(&second[14..18], &AUDIO_STREAM_SERIAL.to_le_bytes());
    assert_eq!(second[26], 1);
    assert_eq!(second[27], 25);
    assert_eq!(&second[28..], &expected_comment_header()[..]);
}

#[test]
fn test_muxer_position_counts_frames() {
    let (mut muxer, _first, _second) = OggMuxer::new(AUDIO_STREAM_SERIAL, 960);
    assert_eq!(muxer.current_position(), 0);

    let frame: Vec<u8> = vec![0x10, 0x20, 0x30];
    for k in 1..=5u64 {
        assert!(muxer.can_advance());
        let _chunk = muxer.write_frame(&frame);
        assert_eq!(muxer.current_position(), k * 960);
    }
}

#[test]
fn test_muxer_frame_page_carries_frame_and_position() {
    let (mut muxer, _first, _second) = OggMuxer::new(AUDIO_STREAM_SERIAL, 960);

    let frame: Vec<u8> = vec![0xAB, 0xCD, 0xEF];
    let chunk = muxer.write_frame(&frame);

    assert_eq!(chunk.len(), 27 + 1 + 3);
    assert_eq!(&chunk[0..4], b"OggS");
    // position was advanced before the packet was written
    assert_eq!(&chunk[6..14], &960u64.to_le_bytes());
    assert_eq!(&chunk[14..18], &AUDIO_STREAM_SERIAL.to_le_bytes());
    assert_eq!(chunk[26], 1);
    assert_eq!(chunk[27], 3);
    assert_eq!(&chunk[28..], &[0xAB, 0xCD, 0xEF]);

    let second_frame: Vec<u8> = vec![0x01];
    let chunk2 = muxer.write_frame(&second_frame);
    assert_eq!(&chunk2[6..14], &1920u64.to_le_bytes());
    assert_eq!(&chunk2[28..], &[0x01]);
}

#[test]
fn test_evaluate_setup_outcomes() {
    let ok = evaluate_setup(48000, true);
    assert_eq!(ok.status, 0);
    assert!(!ok.warn_sample_rate);
    assert!(!ok.warn_config);

    let odd_rate = evaluate_setup(44100, true);
    assert_eq!(odd_rate.status, 0);
    assert!(odd_rate.warn_sample_rate);
    assert!(!odd_rate.warn_config);

    let odd_config = evaluate_setup(16000, false);
    assert_eq!(odd_config.status, 0);
    assert!(!odd_config.warn_sample_rate);
    assert!(odd_config.warn_config);
}

#[test]
fn test_supported_sample_rates() {
    for rate in [80000u32, 12000, 16000, 24000, 48000] {
        assert!(is_supported_sample_rate(rate));
    }
    for rate in [8000u32, 44100, 96000, 0] {
        assert!(!is_supported_sample_rate(rate));
    }
}

#[test]
fn test_queue_capacity_is_small_and_fixed() {
    assert_eq!(FRAME_QUEUE_CAPACITY, 50);
}
