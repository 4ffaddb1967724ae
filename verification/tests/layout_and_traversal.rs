use lib::checksum::{Adler32, RollingChecksum};
use lib::layout::{pattern_block, Layout, PatternRun, Segment, Status};
use lib::traverse::{Action, EofDetector, ReadOutcome, Traversal, MAX_SATURATION};

fn seg(offset: u64, length: u64, essence: u32, status: Status) -> Segment {
    Segment { offset, length, essence, status }
}

#[test]
fn status_hash_per_status() {
    let c = Adler32 { a: 5, b: 7 };
    let buf = [0xEBu8, 0xBE, 0xAF, 0xDE, 0, 0];
    assert_eq!(Status::Good.hash(&buf, &c), (7 << 16) | 5);
    assert_eq!(Status::Bad.hash(&buf, &c), 0xDEADCEEB);
    assert_eq!(Status::Ugly.hash(&buf, &c), 0xDEAFBEEB);
}

#[test]
fn status_ignores_trailing_partial_word() {
    let buf = [1u8, 2, 3, 4, 1, 2, 3, 4, 9, 9];
    assert_eq!(Status::from(&buf[..]), Status::Ugly);
    let buf = [1u8, 2, 3, 4, 1, 2, 3, 5];
    assert_eq!(Status::from(&buf[..]), Status::Good);
}

#[test]
fn pattern_block_is_uniform_with_its_word() {
    let b = pattern_block(0x11223344);
    assert_eq!(b.len(), 4096);
    assert_eq!(&b[..8], &[0x44, 0x33, 0x22, 0x11, 0x44, 0x33, 0x22, 0x11]);
    assert_eq!(Status::from(&b[..]), Status::Ugly);
    assert_eq!(Status::Ugly.hash(&b, &Adler32::new()), 0x11223344);
}

#[test]
fn push_merges_by_status() {
    let mut l = Layout::new(4);
    l.push(0, 4, Status::Good, 10);
    l.push(4, 4, Status::Good, 11);
    assert_eq!(l.segments.len(), 1);
    assert_eq!(l.segments[0].length, 8);
    assert_eq!(l.segments[0].essence, 11);
    l.push(8, 4, Status::Ugly, 0);
    l.push(12, 4, Status::Ugly, 0);
    l.push(16, 4, Status::Ugly, 0xFFFF_FFFF);
    l.push(20, 4, Status::Bad, 0xDEADCEEB);
    l.push(24, 4, Status::Bad, 0xDEADCEEB);
    assert_eq!(l.segments.len(), 4);
    assert_eq!(l.segments[1].offset, 8);
    assert_eq!(l.segments[1].length, 8);
    assert_eq!(l.segments[2].offset, 16);
    assert_eq!(l.segments[2].essence, 0xFFFF_FFFF);
    assert_eq!(l.segments[3].length, 8);
    let broken = l.broken_segments();
    assert_eq!(broken.len(), 1);
    assert_eq!(broken[0].offset, 20);
}

#[test]
fn truncation_point_keeps_one_hint_stride() {
    let mut l = Layout::new(16);
    assert_eq!(l.truncation_point(), 0);
    l.segments = vec![
        seg(0, 32, 1, Status::Good),
        seg(32, 64, 0, Status::Ugly),
        seg(96, 32, 0xFF, Status::Ugly),
    ];
    assert_eq!(l.truncation_point(), 48);
    assert_eq!(l.total(), 128);
    l.segments = vec![seg(0, 32, 0, Status::Ugly), seg(32, 16, 2, Status::Bad)];
    assert_eq!(l.truncation_point(), 48);
    l.segments = vec![seg(0, 32, 0, Status::Ugly)];
    assert_eq!(l.truncation_point(), 0);
}

#[test]
fn pattern_run_flush_lengths() {
    let run = PatternRun { pattern: 7, start: 8, length: 40 };
    let mut l = Layout::new(16);
    l.push(0, 8, Status::Good, 1);
    assert_eq!(run.flush(&mut l, 16, true, true), 16);
    assert_eq!(l.segments[1].length, 16);
    let mut l = Layout::new(16);
    assert_eq!(run.flush(&mut l, 16, true, false), 40);
    assert_eq!(run.flush(&mut l, 16, false, true), 40);
    assert_eq!(l.segments.len(), 1);
    assert_eq!(l.segments[0].length, 80);
}

#[test]
fn eof_detector_saturates_after_eight_repeats() {
    let mut d = EofDetector::new();
    for k in 1..MAX_SATURATION {
        assert!(d.reading_error(Some(23), 1000 * k as u64));
        assert_eq!(d.saturation_count(), k);
    }
    assert!(!d.reading_error(Some(23), 9999));
    assert_eq!(d.saturation_count(), 8);
}

#[test]
fn eof_detector_restarts_on_new_error_and_clears_on_success() {
    let mut d = EofDetector::new();
    assert!(d.reading_error(Some(23), 100));
    assert!(d.reading_error(Some(23), 200));
    assert!(d.reading_error(Some(27), 300));
    assert_eq!(d.saturation_count(), 1);
    assert!(d.reading_error(Some(5), 300)); // same offset: stuck drive
    assert_eq!(d.saturation_count(), 2);
    d.reading_success();
    assert_eq!(d.saturation_count(), 0);
    assert_eq!(d.last_code, None);
    assert_eq!(d.last_offset, 300);
}

/// A source held in memory, where some strides fail to read.
struct Source {
    data: Vec<u8>,
    failing: Vec<u64>,
    pos: u64,
}

/// Run a traversal the way the program does, writing into `image`.
fn run(src: &mut Source, stride: u64, copying: bool, truncate: bool, image: &mut Vec<u8>) -> Traversal {
    let mut t = Traversal::new(stride, copying, None, truncate);
    let mut buf = vec![0u8; stride as usize];
    loop {
        let step = match t.next_step() {
            Some(s) => s as usize,
            None => break,
        };
        let slice = &mut buf[..step];
        let start = src.pos as usize;
        let outcome = if src.failing.contains(&src.pos) || start >= src.data.len() && src.failing.iter().any(|&f| f >= src.pos) {
            ReadOutcome::Failed(Some(23))
        } else if start + step <= src.data.len() {
            slice.copy_from_slice(&src.data[start..start + step]);
            src.pos += step as u64;
            ReadOutcome::Filled
        } else {
            let tail = src.data.len().saturating_sub(start);
            slice[..tail].copy_from_slice(&src.data[start..start + tail]);
            src.pos += tail as u64;
            ReadOutcome::Tail(tail)
        };
        let Some((status, length, essence)) = t.read(slice, outcome) else {
            break;
        };
        if status == Status::Bad {
            src.pos += step as u64;
        }
        for a in t.absorb(slice, status, length, essence) {
            apply(a, slice, image);
        }
    }
    for a in t.finish() {
        apply(a, &buf, image);
    }
    t
}

fn apply(a: Action, buf: &[u8], image: &mut Vec<u8>) {
    match a {
        Action::Data { length } => image.extend_from_slice(&buf[..length as usize]),
        Action::Run { pattern, length } => {
            let block = pattern_block(pattern);
            image.extend(block.iter().cycle().take(length as usize));
        }
        Action::Fill { length } => {
            let block = pattern_block(0xDEAFBEEB);
            image.extend(block.iter().cycle().take(length as usize));
        }
    }
}

fn sample_source() -> Vec<u8> {
    let mut data = Vec::new();
    data.extend((0..16u8).map(|x| x * 3 + 1)); // good
    data.extend([0u8; 32]); // zeros
    data.extend((0..16u8).map(|x| x ^ 0x5A)); // good
    data.extend([0xFFu8; 48]); // erased flash
    data
}

#[test]
fn inspection_maps_the_whole_source() {
    let data = sample_source();
    let mut src = Source { data: data.clone(), failing: vec![], pos: 0 };
    let mut image = Vec::new();
    let t = run(&mut src, 16, false, false, &mut image);
    assert!(image.is_empty());
    let s = &t.layout.segments;
    assert_eq!(s.len(), 4);
    assert_eq!((s[0].offset, s[0].length, s[0].status), (0, 16, Status::Good));
    assert_eq!((s[1].offset, s[1].length, s[1].status, s[1].essence), (16, 32, Status::Ugly, 0));
    assert_eq!((s[2].offset, s[2].length, s[2].status), (48, 16, Status::Good));
    assert_eq!((s[3].offset, s[3].length, s[3].status, s[3].essence), (64, 48, Status::Ugly, 0xFFFF_FFFF));
    let mut whole = Adler32::new();
    whole.update(&data);
    assert_eq!(t.layout.essence, whole.value());
    let mut first = Adler32::new();
    first.update(&data[..16]);
    assert_eq!(s[0].essence, first.value());
    assert_eq!(t.layout.truncation_point(), 80);
}

#[test]
fn copy_writes_a_faithful_image() {
    let data = sample_source();
    let mut src = Source { data: data.clone(), failing: vec![], pos: 0 };
    let mut image = Vec::new();
    let t = run(&mut src, 16, true, false, &mut image);
    assert_eq!(image, data);
    assert_eq!(t.layout.segments.len(), 4);
    assert_eq!(t.layout.segments[3].length, 48);
}

#[test]
fn copy_with_truncation_keeps_one_hint_stride() {
    let data = sample_source();
    let mut src = Source { data: data.clone(), failing: vec![], pos: 0 };
    let mut image = Vec::new();
    let t = run(&mut src, 16, true, true, &mut image);
    assert_eq!(image, data[..80].to_vec());
    assert_eq!(t.layout.segments[3].length, 16);
    assert_eq!(t.layout.total(), 80);
    assert_eq!(t.layout.truncation_point(), 80);
}

#[test]
fn unreadable_strides_are_filled_with_placeholder() {
    let data = sample_source();
    let mut src = Source { data: data.clone(), failing: vec![16], pos: 0 };
    let mut image = Vec::new();
    let t = run(&mut src, 16, true, false, &mut image);
    assert_eq!(image.len(), data.len());
    assert_eq!(&image[16..20], &[0xEB, 0xBE, 0xAF, 0xDE]);
    let s = &t.layout.segments;
    assert_eq!((s[1].offset, s[1].length, s[1].status, s[1].essence), (16, 16, Status::Bad, 0xDEADCEEB));
    assert_eq!((s[2].offset, s[2].length, s[2].status), (32, 16, Status::Ugly));
}

#[test]
fn heuristic_end_of_media_drops_noise() {
    // a source whose reads fail for good after 32 bytes
    let data: Vec<u8> = (0..32u8).collect();
    let failing: Vec<u64> = (0..20).map(|k| 32 + 16 * k).collect();
    let mut src = Source { data, failing, pos: 0 };
    let mut image = Vec::new();
    let t = run(&mut src, 16, false, false, &mut image);
    assert_eq!(t.layout.segments.len(), 1);
    assert_eq!(t.layout.segments[0].status, Status::Good);
    assert_eq!(t.offset, 32 + 16 * 7);
}

#[test]
fn limit_shortens_the_last_step() {
    let mut t = Traversal::new(16, false, Some(20), false);
    assert_eq!(t.next_step(), Some(16));
    let buf = [1u8; 16];
    let (s, n, e) = t.read(&buf, ReadOutcome::Filled).unwrap();
    t.absorb(&buf, s, n, e);
    assert_eq!(t.next_step(), Some(4));
    let (s, n, e) = t.read(&buf[..4], ReadOutcome::Filled).unwrap();
    t.absorb(&buf[..4], s, n, e);
    assert_eq!(t.next_step(), None);
    t.finish();
    assert_eq!(t.layout.segments.len(), 1);
    assert_eq!(t.layout.segments[0].length, 20);
}

#[test]
fn good_segment_essence_covers_all_its_bytes() {
    let data: Vec<u8> = (0..64u32).map(|x| (x * 7 + 3) as u8).collect();
    let mut src = Source { data: data.clone(), failing: vec![], pos: 0 };
    let mut image = Vec::new();
    let t = run(&mut src, 16, false, false, &mut image);
    assert_eq!(t.layout.segments.len(), 1);
    let mut whole = Adler32::new();
    whole.update(&data);
    assert_eq!(t.layout.segments[0].essence, whole.value());
    assert_eq!(t.layout.essence, whole.value());
}

#[test]
fn good_segment_essence_restarts_after_a_boundary() {
    let mut data: Vec<u8> = (0..32u8).map(|x| x.wrapping_mul(13) ^ 0x21).collect();
    data.extend([0u8; 16]);
    let tail: Vec<u8> = (0..32u8).map(|x| x.wrapping_mul(29) ^ 0x42).collect();
    data.extend(tail.iter());
    for copying in [false, true] {
        let mut src = Source { data: data.clone(), failing: vec![], pos: 0 };
        let mut image = Vec::new();
        let t = run(&mut src, 16, copying, false, &mut image);
        let s = &t.layout.segments;
        assert_eq!(s.len(), 3);
        let mut first = Adler32::new();
        first.update(&data[..32]);
        assert_eq!(s[0].essence, first.value());
        let mut last = Adler32::new();
        last.update(&tail);
        assert_eq!(s[2].essence, last.value());
    }
}

#[test]
fn push_keeps_segments_touching_and_adds_lengths() {
    // a layout that does not start at offset 0
    let mut l = Layout::new(8);
    l.push(100, 8, Status::Good, 1);
    let pushes = [
        (8u64, Status::Good, 2u32),
        (8, Status::Ugly, 0),
        (4, Status::Ugly, 0),
        (8, Status::Ugly, 7),
        (8, Status::Bad, 0xDEADCEEB),
        (8, Status::Good, 3),
    ];
    let mut offset = 108;
    let mut total = 8;
    for (length, status, essence) in pushes {
        l.push(offset, length, status, essence);
        offset += length;
        total += length;
    }
    let s = &l.segments;
    assert_eq!(s.len(), 5);
    for k in 0..s.len() - 1 {
        assert_eq!(s[k].offset + s[k].length, s[k + 1].offset);
    }
    assert_eq!(s.iter().map(|x| x.length).sum::<u64>(), total);
    assert_eq!((s[1].offset, s[1].length, s[1].essence), (116, 12, 0));
}

#[test]
fn copy_pads_a_partial_word_of_a_uniform_tail() {
    // the last stride is uniform on its whole words; its two trailing bytes
    // are not part of any word and the run writes the pattern over them
    let mut data: Vec<u8> = (0..16u8).map(|x| x * 5 + 2).collect();
    data.extend([0u8, 0, 0, 0, 0, 0, 0, 0, 1, 2]);
    let mut src = Source { data: data.clone(), failing: vec![], pos: 0 };
    let mut image = Vec::new();
    let t = run(&mut src, 16, true, false, &mut image);
    assert_eq!(image.len(), data.len());
    assert_eq!(&image[..24], &data[..24]);
    assert_eq!(&image[24..], &[0, 0]);
    assert_eq!(t.layout.segments[1].status, Status::Ugly);
    assert_eq!(t.layout.segments[1].length, 10);
}

#[test]
fn truncation_hint_never_passes_a_short_ugly_tail() {
    let mut l = Layout::new(4096);
    l.segments = vec![seg(0, 4096, 1, Status::Good), seg(4096, 100, 0, Status::Ugly)];
    assert_eq!(l.truncation_point(), 4196);
    assert_eq!(l.total(), 4196);
    l.segments = vec![
        seg(0, 4096, 1, Status::Good),
        seg(4096, 100, 0, Status::Ugly),
        seg(4196, 8192, 0xFF, Status::Ugly),
    ];
    assert_eq!(l.truncation_point(), 4196);
}

#[test]
fn copy_with_truncation_of_a_short_uniform_tail() {
    let mut data: Vec<u8> = (0..16u8).map(|x| x * 9 + 1).collect();
    data.extend([0u8; 8]);
    let mut src = Source { data: data.clone(), failing: vec![], pos: 0 };
    let mut image = Vec::new();
    let t = run(&mut src, 16, true, true, &mut image);
    assert_eq!(image, data);
    assert_eq!(t.layout.total(), 24);
    assert_eq!(t.layout.truncation_point(), 24);
}
