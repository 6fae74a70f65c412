use streaming::config::SegmentConfig;
use streaming::disk::Disk;
use streaming::error::Error;
use streaming::message::Message;
use streaming::partition::Partition;
use streaming::segment::Segment;
use streaming::codec::{decode_messages, decode_time_indexes, encode_message};
use streaming::stream::{Stream, StreamDetails, Topic};

fn config(size_bytes: u32, messages_buffer: u32) -> SegmentConfig {
    SegmentConfig { size_bytes, messages_buffer }
}

fn msg(timestamp: u64, payload: Vec<u8>) -> Message {
    Message::new(timestamp, payload)
}

fn batch(n: usize, first_ts: u64) -> Vec<Message> {
    let mut v = Vec::new();
    let mut i = 0;
    while i < n {
        v.push(msg(first_ts + i as u64, vec![(i % 256) as u8]));
        i += 1;
    }
    v
}

#[test]
fn get_messages_on_empty_partition_returns_empty() {
    let p = Partition {
        id: 1,
        path: String::from("data/p1"),
        segments: Vec::new(),
        config: config(1000, 8),
    };
    let disk = Disk::new();
    let r = p.get_messages(&disk, 0, 10);
    assert!(r.is_ok());
    assert_eq!(r.unwrap().len(), 0);
    // with no segments even a zero count is answered, never an error
    let r0 = p.get_messages(&disk, 5, 0);
    assert!(r0.is_ok());
    assert_eq!(r0.unwrap().len(), 0);
}

#[test]
fn append_on_partition_without_segments_fails_and_touches_nothing() {
    let mut disk = Disk::new();
    let mut p = Partition {
        id: 1,
        path: String::from("data/p1"),
        segments: Vec::new(),
        config: config(1000, 8),
    };
    let r = p.append_messages(&mut disk, batch(3, 7));
    assert!(matches!(r, Err(Error::SegmentNotFound)));
    assert_eq!(disk.files.len(), 0);
    assert_eq!(p.segments.len(), 0);
}

#[test]
fn segment_create_derives_zero_padded_paths() {
    let s = Segment::create(1, 5, "data/p1", config(1000, 8));
    assert_eq!(s.log_path, "data/p1/00000000000000000005.log");
    assert_eq!(s.index_path, "data/p1/00000000000000000005.index");
    assert_eq!(s.time_index_path, "data/p1/00000000000000000005.timeindex");
    assert_eq!(s.start_offset, 5);
    assert_eq!(s.current_offset, 5);
    assert_eq!(s.end_offset, 0);
    assert_eq!(s.current_size_bytes, 0);
    assert!(!s.should_increment_offset);
}

#[test]
fn persist_creates_three_files_with_index_sentinel() {
    let mut disk = Disk::new();
    let s = Segment::create(1, 0, "data/p1", config(1000, 8));
    s.persist(&mut disk).unwrap();
    assert_eq!(disk.read(&s.log_path).unwrap().as_slice(), &[] as &[u8]);
    assert_eq!(disk.read(&s.time_index_path).unwrap().as_slice(), &[] as &[u8]);
    assert_eq!(disk.read(&s.index_path).unwrap().as_slice(), &[0u8; 8]);
}

#[test]
fn append_assigns_consecutive_offsets_from_start() {
    let mut disk = Disk::new();
    let mut s = Segment::create(1, 0, "data/p1", config(100000, 8));
    s.persist(&mut disk).unwrap();
    s.append_messages(batch(3, 40)).unwrap();
    assert_eq!(s.current_offset, 2);
    assert_eq!(s.end_offset, 2);
    assert!(s.should_increment_offset);
    // 20 header bytes plus a 1-byte payload per message
    assert_eq!(s.current_size_bytes, 63);
    assert_eq!(s.unsaved_messages_count, 3);
    let got = s.get_messages(&disk, 0, 10).unwrap();
    assert_eq!(got.len(), 3);
    assert_eq!(got[0].offset, 0);
    assert_eq!(got[1].offset, 1);
    assert_eq!(got[2].offset, 2);
    assert_eq!(got[0].timestamp, 40);
    assert_eq!(got[2].timestamp, 42);
}

#[test]
fn evicted_messages_are_resolved_from_the_log_file() {
    // capacity two: the first flushed pair is evicted by the second pair,
    // yet a read of the whole range resolves it from the log file
    let mut disk = Disk::new();
    let mut s = Segment::create(1, 0, "data/p1", config(100000, 2));
    s.persist(&mut disk).unwrap();
    s.append_messages(batch(2, 0)).unwrap();
    s.flush(&mut disk).unwrap();
    s.append_messages(batch(2, 50)).unwrap();
    let recent = s.get_messages(&disk, 2, 2).unwrap();
    assert_eq!(recent.len(), 2);
    assert_eq!(recent[0].offset, 2);
    assert_eq!(recent[1].offset, 3);
    let got = s.get_messages(&disk, 0, 10).unwrap();
    assert_eq!(got.len(), 4);
    let mut i = 0;
    while i < 4 {
        assert_eq!(got[i].offset, i as u64);
        i += 1;
    }
    assert_eq!(got[1].timestamp, 1);
    assert_eq!(got[2].timestamp, 50);
}

#[test]
fn append_records_one_time_index_entry_per_call() {
    let mut s = Segment::create(1, 0, "data/p1", config(100000, 8));
    s.append_messages(batch(2, 100)).unwrap();
    s.append_messages(batch(1, 200)).unwrap();
    assert_eq!(s.time_indexes.len(), 2);
    assert_eq!(s.time_indexes[0].timestamp, 101);
    assert_eq!(s.time_indexes[0].offset, 1);
    assert_eq!(s.time_indexes[1].timestamp, 200);
    assert_eq!(s.time_indexes[1].offset, 2);
}

#[test]
fn read_is_clamped_to_last_written_offset() {
    let mut disk = Disk::new();
    let mut p = Partition::create(1, String::from("data/p1"), config(100000, 8), &mut disk);
    p.append_messages(&mut disk, batch(5, 0)).unwrap();
    let got = p.get_messages(&disk, 2, 100).unwrap();
    assert_eq!(got.len(), 3);
    assert_eq!(got[0].offset, 2);
    assert_eq!(got[2].offset, 4);
}

#[test]
fn read_past_written_data_returns_empty() {
    let mut disk = Disk::new();
    let mut p = Partition::create(1, String::from("data/p1"), config(100000, 8), &mut disk);
    p.append_messages(&mut disk, batch(3, 0)).unwrap();
    let got = p.get_messages(&disk, 10, 5).unwrap();
    assert_eq!(got.len(), 0);
}

#[test]
fn full_segment_rolls_over_into_persisted_segment() {
    // each message occupies 21 bytes, so 4 messages reach the 84-byte cap
    let mut disk = Disk::new();
    let mut p = Partition::create(1, String::from("data/p1"), config(84, 8), &mut disk);
    p.append_messages(&mut disk, batch(4, 0)).unwrap();
    assert_eq!(p.segments.len(), 1);
    assert!(p.segments[0].is_full());
    p.append_messages(&mut disk, batch(2, 9)).unwrap();
    assert_eq!(p.segments.len(), 2);
    assert_eq!(p.segments[1].start_offset, 4);
    assert_eq!(p.segments[1].current_offset, 5);
    assert!(disk.contains(&p.segments[1].log_path));
    assert!(disk.contains(&p.segments[1].index_path));
    assert!(disk.contains(&p.segments[1].time_index_path));
    assert_eq!(disk.read(&p.segments[1].index_path).unwrap().as_slice(), &[0u8; 8]);
}

#[test]
fn read_spanning_two_segments_returns_whole_ascending_range() {
    // segments cover [0, 99] and [100, 199]; the range [50, 149] spans both
    let mut disk = Disk::new();
    let mut p = Partition::create(1, String::from("data/p1"), config(2100, 128), &mut disk);
    p.append_messages(&mut disk, batch(100, 0)).unwrap();
    assert!(p.segments[0].is_full());
    p.append_messages(&mut disk, batch(100, 1000)).unwrap();
    assert_eq!(p.segments.len(), 2);
    assert_eq!(p.segments[0].start_offset, 0);
    assert_eq!(p.segments[0].current_offset, 99);
    assert_eq!(p.segments[1].start_offset, 100);
    assert_eq!(p.segments[1].current_offset, 199);
    let got = p.get_messages(&disk, 50, 100).unwrap();
    assert_eq!(got.len(), 100);
    let mut i = 0;
    while i < 100 {
        assert_eq!(got[i].offset, 50 + i as u64);
        if i > 0 {
            assert!(got[i - 1].offset < got[i].offset);
        }
        i += 1;
    }
}

#[test]
fn split_and_unsplit_partitions_read_identically() {
    // the same 200 messages, once in a single segment and once split in two
    let mut disk_a = Disk::new();
    let mut single = Partition::create(1, String::from("data/a"), config(100000, 256), &mut disk_a);
    single.append_messages(&mut disk_a, batch(100, 0)).unwrap();
    single.append_messages(&mut disk_a, batch(100, 1000)).unwrap();
    assert_eq!(single.segments.len(), 1);

    let mut disk_b = Disk::new();
    let mut split = Partition::create(1, String::from("data/b"), config(2100, 256), &mut disk_b);
    split.append_messages(&mut disk_b, batch(100, 0)).unwrap();
    split.append_messages(&mut disk_b, batch(100, 1000)).unwrap();
    assert_eq!(split.segments.len(), 2);

    let from_single = single.get_messages(&disk_a, 50, 100).unwrap();
    let from_split = split.get_messages(&disk_b, 50, 100).unwrap();
    assert_eq!(from_single.len(), from_split.len());
    let mut i = 0;
    while i < from_single.len() {
        assert_eq!(from_single[i].offset, from_split[i].offset);
        assert_eq!(from_single[i].timestamp, from_split[i].timestamp);
        assert_eq!(from_single[i].payload, from_split[i].payload);
        i += 1;
    }
}

#[test]
fn persist_append_flush_reload_round_trip() {
    let cfg = config(100000, 16);
    let mut disk = Disk::new();
    let mut s = Segment::create(1, 0, "data/p1", cfg);
    s.persist(&mut disk).unwrap();
    s.append_messages(batch(5, 900)).unwrap();
    s.flush(&mut disk).unwrap();

    let mut reloaded = Segment::create(1, 0, "data/p1", cfg);
    reloaded.end_offset = s.end_offset;
    reloaded.load(&disk).unwrap();

    assert_eq!(reloaded.current_offset, s.current_offset);
    assert_eq!(reloaded.current_size_bytes, s.current_size_bytes);
    assert_eq!(reloaded.saved_bytes, s.current_size_bytes);
    assert!(reloaded.should_increment_offset);
    let before = s.get_messages(&disk, 0, 100).unwrap();
    let after = reloaded.get_messages(&disk, 0, 100).unwrap();
    assert_eq!(before.len(), after.len());
    let mut i = 0;
    while i < before.len() {
        assert_eq!(before[i].offset, after[i].offset);
        assert_eq!(before[i].timestamp, after[i].timestamp);
        assert_eq!(before[i].payload, after[i].payload);
        i += 1;
    }
}

#[test]
fn load_of_never_written_segment_stays_empty() {
    let cfg = config(100000, 16);
    let mut disk = Disk::new();
    let s = Segment::create(1, 0, "data/p1", cfg);
    s.persist(&mut disk).unwrap();
    let mut fresh = Segment::create(1, 0, "data/p1", cfg);
    fresh.load(&disk).unwrap();
    assert_eq!(fresh.current_offset, 0);
    assert_eq!(fresh.current_size_bytes, 0);
    assert!(!fresh.should_increment_offset);
    assert_eq!(fresh.get_messages(&disk, 0, 10).unwrap().len(), 0);
}

#[test]
fn load_rejects_corrupt_log_file() {
    let cfg = config(100000, 16);
    let mut disk = Disk::new();
    let mut s = Segment::create(1, 0, "data/p1", cfg);
    s.persist(&mut disk).unwrap();
    disk.append(&s.log_path, &[1, 2, 3]);
    s.end_offset = 0;
    let r = s.load(&disk);
    assert!(matches!(r, Err(Error::CannotReadMessage)));
}

#[test]
fn load_rejects_corrupt_time_index_file() {
    let cfg = config(100000, 16);
    let mut disk = Disk::new();
    let mut s = Segment::create(1, 0, "data/p1", cfg);
    s.persist(&mut disk).unwrap();
    disk.append(&s.time_index_path, &[1, 2, 3, 4, 5]);
    let r = s.load(&disk);
    assert!(matches!(r, Err(Error::CannotReadTimeIndex)));
}

#[test]
fn persist_result_names_the_artifact_that_failed() {
    let s = Segment::create(1, 0, "data/p1", config(1000, 8));
    let log = s.log_path.clone();
    assert!(matches!(
        s.persist_result(false, true, true, true),
        Err(Error::CannotCreatePartitionSegmentLogFile(p)) if p == log
    ));
    assert!(matches!(
        s.persist_result(true, false, true, true),
        Err(Error::CannotCreatePartitionSegmentTimeIndexFile(p)) if p == log
    ));
    assert!(matches!(
        s.persist_result(true, true, false, true),
        Err(Error::CannotCreatePartitionSegmentIndexFile(p)) if p == log
    ));
    assert!(matches!(
        s.persist_result(true, true, true, false),
        Err(Error::CannotSaveIndexToSegment)
    ));
    assert!(s.persist_result(true, true, true, true).is_ok());
}

#[test]
fn encoded_message_layout_is_little_endian() {
    let m = Message { offset: 258, timestamp: 1, payload: vec![0xAA, 0xBB] };
    let bytes = encode_message(&m);
    let mut expected = vec![2, 1, 0, 0, 0, 0, 0, 0]; // offset 258
    expected.extend_from_slice(&[1, 0, 0, 0, 0, 0, 0, 0]); // timestamp 1
    expected.extend_from_slice(&[2, 0, 0, 0]); // payload length 2
    expected.extend_from_slice(&[0xAA, 0xBB]);
    assert_eq!(bytes, expected);
    let decoded = decode_messages(&bytes).unwrap();
    assert_eq!(decoded.len(), 1);
    assert_eq!(decoded[0].offset, 258);
    assert_eq!(decoded[0].timestamp, 1);
    assert_eq!(decoded[0].payload, vec![0xAA, 0xBB]);
}

#[test]
fn flush_writes_records_and_time_index_entries() {
    let cfg = config(100000, 16);
    let mut disk = Disk::new();
    let mut s = Segment::create(1, 0, "data/p1", cfg);
    s.persist(&mut disk).unwrap();
    s.append_messages(batch(2, 5)).unwrap();
    s.flush(&mut disk).unwrap();
    assert_eq!(s.unsaved_messages_count, 0);
    assert_eq!(s.next_saved_message_index, 2);
    assert_eq!(s.saved_bytes, s.current_size_bytes);
    let log = disk.read(&s.log_path).unwrap();
    assert_eq!(log.len(), 42);
    let ti = decode_time_indexes(disk.read(&s.time_index_path).unwrap()).unwrap();
    assert_eq!(ti.len(), 1);
    assert_eq!(ti[0].offset, 1);
    assert_eq!(ti[0].timestamp, 6);
}

#[test]
fn partition_read_spans_evicted_and_live_messages() {
    // a small cache: the first batch is flushed, then evicted by the second;
    // a full-range read joins the log file with the live cache
    let mut disk = Disk::new();
    let mut p = Partition::create(1, String::from("data/p1"), config(100000, 4), &mut disk);
    p.append_messages(&mut disk, batch(4, 0)).unwrap();
    p.segments[0].flush(&mut disk).unwrap();
    p.append_messages(&mut disk, batch(4, 70)).unwrap();
    let got = p.get_messages(&disk, 0, 100).unwrap();
    assert_eq!(got.len(), 8);
    let mut i = 0;
    while i < 8 {
        assert_eq!(got[i].offset, i as u64);
        i += 1;
    }
    assert_eq!(got[3].timestamp, 3);
    assert_eq!(got[4].timestamp, 70);
}

#[test]
fn stream_details_carry_their_topics() {
    let s = Stream { id: 3, name: String::from("events"), topics_count: 1 };
    let d = StreamDetails {
        id: s.id,
        name: s.name.clone(),
        topics_count: s.topics_count,
        topics: vec![Topic { id: 9, name: String::from("orders"), partitions_count: 2 }],
    };
    assert_eq!(d.topics.len(), 1);
    assert_eq!(d.topics[0].id, 9);
    assert_eq!(d.name, "events");
}
