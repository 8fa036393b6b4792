use cdn_client::ranges::{assemble, backoff_delay_ms, plan_ranges, write_at};

fn patterned(len: usize) -> Vec<u8> {
    let mut v = Vec::with_capacity(len);
    for i in 0..len {
        v.push((i % 249) as u8);
    }
    v
}

#[test]
fn plan_exact_small() {
    let r = plan_ranges(10, 4);
    assert_eq!(r.len(), 4);
    assert_eq!((r[0].start, r[0].end), (0, 2));
    assert_eq!((r[1].start, r[1].end), (2, 4));
    assert_eq!((r[2].start, r[2].end), (4, 6));
    assert_eq!((r[3].start, r[3].end), (6, 10));
}

#[test]
fn plan_exact_even_split() {
    let r = plan_ranges(6_000_000, 4);
    assert_eq!(r.len(), 4);
    assert_eq!((r[0].start, r[0].end), (0, 1_500_000));
    assert_eq!((r[1].start, r[1].end), (1_500_000, 3_000_000));
    assert_eq!((r[2].start, r[2].end), (3_000_000, 4_500_000));
    assert_eq!((r[3].start, r[3].end), (4_500_000, 6_000_000));
}

#[test]
fn plan_single_part() {
    let r = plan_ranges(123, 1);
    assert_eq!(r.len(), 1);
    assert_eq!((r[0].start, r[0].end), (0, 123));
}

#[test]
fn plan_more_parts_than_bytes() {
    let r = plan_ranges(2, 4);
    assert_eq!(r.len(), 4);
    assert_eq!((r[0].start, r[0].end), (0, 0));
    assert_eq!((r[3].start, r[3].end), (0, 2));
    let covered: u64 = r.iter().map(|x| x.end - x.start).sum();
    assert_eq!(covered, 2);
}

#[test]
fn reassembly_matches_unranged_download() {
    // one six-megabyte resource, fetched in four ranged parts
    let source = patterned(6_000_000);
    let plan = plan_ranges(source.len() as u64, 4);
    let mut pieces: Vec<Vec<u8>> = Vec::new();
    // pieces are cut in plan order, but each lands at its own offset, so the
    // result is insensitive to arrival order
    for r in &plan {
        pieces.push(source[r.start as usize..r.end as usize].to_vec());
    }
    let joined = assemble(&pieces);
    // a single non-ranged fetch of the same resource returns `source` itself
    assert_eq!(joined, source);
}

#[test]
fn reassembly_uneven_remainder() {
    let source = patterned(10_003);
    let plan = plan_ranges(source.len() as u64, 4);
    let pieces: Vec<Vec<u8>> = plan
        .iter()
        .map(|r| source[r.start as usize..r.end as usize].to_vec())
        .collect();
    assert_eq!(assemble(&pieces), source);
}

#[test]
fn writes_by_offset_ignore_arrival_order() {
    let source = patterned(10_003);
    let plan = plan_ranges(source.len() as u64, 4);
    let mut buf = vec![0u8; source.len()];
    // pieces land in reverse completion order; offsets alone place them
    for r in plan.iter().rev() {
        let piece = &source[r.start as usize..r.end as usize];
        write_at(&mut buf, r.start as usize, piece);
    }
    assert_eq!(buf, source);
}

#[test]
fn assemble_empty() {
    let joined = assemble(&Vec::new());
    assert_eq!(joined.len(), 0);
}

#[test]
fn backoff_doubles_and_saturates() {
    assert_eq!(backoff_delay_ms(100, 0), 100);
    assert_eq!(backoff_delay_ms(100, 1), 200);
    assert_eq!(backoff_delay_ms(100, 2), 400);
    assert_eq!(backoff_delay_ms(100, 3), 800);
    assert_eq!(backoff_delay_ms(u64::MAX / 2 + 1, 1), u64::MAX);
    assert_eq!(backoff_delay_ms(u64::MAX, 5), u64::MAX);
}
