use qobuz_player::frames::{
    after_chunk, check_frames_fit, report_pass_error, truncated_message, FrameEntry, SegmentCrypto, SegmentDecoder,
    StreamAction,
};
use qobuz_player::params::{FlacSourceParams, FlacStreamError, PassthroughStorageProvider};
use qobuz_player::reader::SeekableStreamReader;
use qobuz_player::segments::{seek_target, seek_target_defined, SegmentByteInfo};
use qobuz_player::store::{send_slice, SegmentSource, SegmentStore};
use std::path::PathBuf;

fn map() -> Vec<SegmentByteInfo> {
    vec![
        SegmentByteInfo { byte_offset: 0, byte_len: 100 },
        SegmentByteInfo { byte_offset: 100, byte_len: 50 },
        SegmentByteInfo { byte_offset: 150, byte_len: 200 },
    ]
}

#[test]
fn seek_inside_first_segment() {
    let t = seek_target(42, &map(), 42 + 10);
    assert_eq!(t.segment, 1);
    assert_eq!(t.skip_bytes, 10);
}

#[test]
fn seek_inside_later_segment() {
    let t = seek_target(42, &map(), 42 + 120);
    assert_eq!(t.segment, 2);
    assert_eq!(t.skip_bytes, 20);
    let t = seek_target(42, &map(), 42 + 150);
    assert_eq!(t.segment, 3);
    assert_eq!(t.skip_bytes, 0);
}

#[test]
fn seek_into_header_starts_first_segment() {
    let t = seek_target(42, &map(), 5);
    assert_eq!(t.segment, 1);
    assert_eq!(t.skip_bytes, 0);
}

#[test]
fn seek_past_end_uses_last_segment() {
    let t = seek_target(42, &map(), 42 + 1000);
    assert_eq!(t.segment, 3);
    assert_eq!(t.skip_bytes, 1000 - 150);
}

#[test]
fn end_seek_is_clamped_at_zero() {
    let r = SeekableStreamReader::new((), 1000);
    assert_eq!(r.content_length(), 1000);
    assert_eq!(r.end_target(-10), 990);
    assert_eq!(r.end_target(0), 1000);
    assert_eq!(r.end_target(-5000), 0);
    assert_eq!(r.end_target(7), 1007);
}

#[test]
fn reader_gives_back_its_inner_reader() {
    let mut r = SeekableStreamReader::new(vec![1u8, 2, 3], 3);
    r.inner_mut().push(4);
    assert_eq!(r.into_inner(), vec![1u8, 2, 3, 4]);
}

#[test]
fn send_slice_skips_only_inside_the_buffer() {
    let frames = [1u8, 2, 3, 4, 5];
    assert_eq!(send_slice(&frames, 0), &frames[..]);
    assert_eq!(send_slice(&frames, 2), &[3u8, 4, 5][..]);
    assert_eq!(send_slice(&frames, 5), &frames[..]);
    assert_eq!(send_slice(&frames, 9), &frames[..]);
}

#[test]
fn new_store_is_empty() {
    let s = SegmentStore::for_segments(4);
    assert_eq!(s.segment_count(), 3);
    assert_eq!(s.missing_segments(), vec![1u8, 2, 3]);
    assert!(s.complete_segment(0).is_none());
    assert!(s.complete_segment(7).is_none());
    assert!(s.cache_image(b"hdr").is_none());
    assert!(!s.is_complete(1));
}

#[test]
fn storing_segments_fills_the_cache_image() {
    let mut s = SegmentStore::for_segments(3);
    s.store_complete(1, vec![7, 8]);
    assert_eq!(s.missing_segments(), vec![1u8]);
    assert!(s.cache_image(b"H").is_none());
    assert!(s.forward_complete(2, 3));
    assert!(!s.forward_complete(1, 3));
    s.store_complete(0, vec![5]);
    assert!(s.missing_segments().is_empty());
    assert!(s.forward_complete(1, 3));
    assert_eq!(s.cache_image(b"H"), Some(vec![b'H', 5, 7, 8]));
}

#[test]
fn partial_data_only_grows() {
    let mut s = SegmentStore::for_segments(2);
    assert!(s.persist_partial(0, vec![1, 2, 3]));
    assert!(!s.persist_partial(0, vec![9, 9]));
    assert_eq!(s.partial_segment(0), Some(&vec![1u8, 2, 3]));
    assert!(s.persist_partial(0, vec![1, 2, 3, 4]));
    assert_eq!(s.partial_segment(0), Some(&vec![1u8, 2, 3, 4]));
    s.store_complete(0, vec![1, 2, 3, 4, 5]);
    assert!(s.partial_segment(0).is_none());
    assert_eq!(s.complete_segment(0), Some(&vec![1u8, 2, 3, 4, 5]));
}

#[test]
fn plan_prefers_memory_then_partial_then_network() {
    let mut s = SegmentStore::for_segments(4);
    let p = s.plan_segment(1, 1, 4, 5);
    assert_eq!(p.skip, 5);
    assert!(p.prefetch_next);
    assert!(matches!(p.source, SegmentSource::Network));

    s.persist_partial(0, vec![0; 8]);
    let p = s.plan_segment(1, 1, 4, 5);
    assert!(matches!(p.source, SegmentSource::Resume { already_sent: 3 }));
    let p = s.plan_segment(1, 1, 4, 8);
    assert!(matches!(p.source, SegmentSource::Network));

    s.store_complete(1, vec![1]);
    let p = s.plan_segment(1, 1, 4, 0);
    assert!(!p.prefetch_next);
    let p = s.plan_segment(2, 1, 4, 9);
    assert_eq!(p.skip, 0);
    assert!(matches!(p.source, SegmentSource::Memory));
    let p = s.plan_segment(3, 1, 4, 0);
    assert!(!p.prefetch_next);
}

fn crypto() -> SegmentCrypto {
    SegmentCrypto {
        data_offset: 2,
        entries: vec![
            FrameEntry { size: 3, flags: 1, iv: vec![0; 8] },
            FrameEntry { size: 4, flags: 0, iv: vec![0; 8] },
        ],
        mdat_end: 11,
    }
}

#[test]
fn decoder_walks_the_frames_and_skips_the_prefix() {
    let c = crypto();
    let buf: Vec<u8> = (0u8..12).collect();
    let mut d = SegmentDecoder::new(&c, 2, 2);
    assert_eq!(d.next_frame(&c, 4), None);
    assert_eq!(d.next_frame(&c, 5), Some((2, 5)));
    let first = d.accept_frame(&c, &[20, 30, 40]);
    assert!(first.is_empty());
    assert_eq!(d.next_frame(&c, 8), None);
    assert_eq!(d.next_frame(&c, 9), Some((5, 9)));
    let second = d.accept_frame(&c, &buf[5..9]);
    assert_eq!(second, vec![6u8, 7, 8]);
    assert!(d.is_finished(&c));
    assert_eq!(d.next_frame(&c, 12), None);
    let trailing = d.accept_trailing(&c, &buf);
    assert_eq!(trailing, vec![9u8, 10]);
    assert_eq!(d.decrypted_len(), 9);
    assert!(!d.should_persist(0));
    assert_eq!(d.decrypted_copy(), vec![20u8, 30, 40, 5, 6, 7, 8, 9, 10]);
    assert_eq!(d.into_decrypted(), vec![20u8, 30, 40, 5, 6, 7, 8, 9, 10]);
}

#[test]
fn decoder_trailing_stops_at_buffer_end() {
    let c = crypto();
    let buf: Vec<u8> = (0u8..10).collect();
    let mut d = SegmentDecoder::new(&c, 0, 0);
    let a = d.accept_frame(&c, &buf[2..5]);
    assert_eq!(a, vec![2u8, 3, 4]);
    let b = d.accept_frame(&c, &buf[5..9]);
    assert_eq!(b, vec![5u8, 6, 7, 8]);
    assert_eq!(d.accept_trailing(&c, &buf), vec![9u8]);
}

#[test]
fn decoder_persists_after_half_a_megabyte() {
    let c = SegmentCrypto {
        data_offset: 0,
        entries: vec![FrameEntry { size: 600_000, flags: 0, iv: Vec::new() }],
        mdat_end: 600_000,
    };
    let mut d = SegmentDecoder::new(&c, 0, 0);
    let frame = vec![1u8; 600_000];
    let piece = d.accept_frame(&c, &frame);
    assert_eq!(piece.len(), 600_000);
    assert!(d.should_persist(0));
    assert!(!d.should_persist(100_000));
}

#[test]
fn params_key_and_store() {
    let p = FlacSourceParams {
        url_template: "https://x/$SEGMENT$".to_string(),
        n_segments: 3,
        content_key: None,
        flac_header: vec![1, 2, 3, 4],
        cache_path: PathBuf::from("/tmp/a.flac"),
        segment_map: map(),
    };
    assert_eq!(p.decryption_key(), [0u8; 16]);
    assert_eq!(p.flac_header_len(), 4);
    assert_eq!(p.new_store().missing_segments(), vec![1u8, 2]);
    let p2 = FlacSourceParams { content_key: Some([7u8; 16]), ..p };
    assert_eq!(p2.decryption_key(), [7u8; 16]);
}

#[test]
fn flac_stream_error_keeps_its_message() {
    let e = FlacStreamError("bad".to_string());
    assert_eq!(e.message(), "bad");
    let s = PassthroughStorageProvider { partial_path: PathBuf::from("/tmp/p") };
    assert_eq!(s.partial_path, PathBuf::from("/tmp/p"));
}

#[test]
fn resuming_from_partial_data_is_seamless() {
    let crypto = SegmentCrypto {
        data_offset: 0,
        entries: vec![
            FrameEntry { size: 4, flags: 0, iv: Vec::new() },
            FrameEntry { size: 3, flags: 0, iv: Vec::new() },
            FrameEntry { size: 3, flags: 0, iv: Vec::new() },
        ],
        mdat_end: 10,
    };
    let full: Vec<u8> = (10u8..20).collect();
    let mut store = SegmentStore::for_segments(2);
    store.persist_partial(0, full[..6].to_vec());
    let plan = store.plan_segment(1, 1, 2, 2);
    let already_sent = match plan.source {
        SegmentSource::Resume { already_sent } => already_sent,
        _ => panic!("expected a resume"),
    };
    assert_eq!(already_sent, 4);
    let mut sent = send_slice(store.partial_segment(0).unwrap(), plan.skip).to_vec();
    let mut d = SegmentDecoder::new(&crypto, plan.skip, already_sent);
    while let Some((s, e)) = d.next_frame(&crypto, full.len()) {
        sent.extend(d.accept_frame(&crypto, &full[s..e]));
    }
    sent.extend(d.accept_trailing(&crypto, &full));
    assert_eq!(sent, full[2..].to_vec());
    store.store_complete(0, d.into_decrypted());
    assert_eq!(store.complete_segment(0), Some(&full));
}

#[test]
fn seek_defined_only_without_overflow() {
    assert!(seek_target_defined(42, &map(), 100));
    assert!(!seek_target_defined(42, &Vec::new(), 100));
    let huge = vec![SegmentByteInfo { byte_offset: u64::MAX, byte_len: 1 }];
    assert!(!seek_target_defined(0, &huge, 0));
    let far = vec![SegmentByteInfo { byte_offset: u64::MAX - 1, byte_len: 1 }];
    assert!(!seek_target_defined(5, &far, 0));
    assert!(seek_target_defined(1, &far, 0));
}

#[test]
fn frames_fit_check() {
    assert!(check_frames_fit(&crypto()));
    let c = SegmentCrypto {
        data_offset: usize::MAX - 2,
        entries: vec![FrameEntry { size: 3, flags: 0, iv: Vec::new() }],
        mdat_end: 0,
    };
    assert!(!check_frames_fit(&c));
}

#[test]
fn stream_steps() {
    let c = crypto();
    let mut d = SegmentDecoder::new(&c, 0, 0);
    assert_eq!(d.after_batch(&c, true), StreamAction::KeepPartialAndStop);
    assert_eq!(d.after_batch(&c, false), StreamAction::ReadChunk);
    d.accept_frame(&c, &[1, 2, 3]);
    d.accept_frame(&c, &[4, 5, 6, 7]);
    assert_eq!(d.after_batch(&c, false), StreamAction::FinishSegment);
    assert_eq!(after_chunk(false, false), StreamAction::Fail);
    assert_eq!(after_chunk(false, true), StreamAction::Fail);
    assert_eq!(after_chunk(true, true), StreamAction::KeepPartialAndStop);
    assert_eq!(after_chunk(true, false), StreamAction::Decode);
    assert_eq!(truncated_message(7, true), "Segment 7: truncated before header");
    assert_eq!(truncated_message(12, false), "Segment 12: truncated at frame");
    assert!(report_pass_error(false));
    assert!(!report_pass_error(true));
}
