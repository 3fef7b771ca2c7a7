use onebrc::agg_map::{merge_all, merge_chunks, process_chunk, AggMap, MAX_INPUT};
use onebrc::aggregate::Aggregate;
use onebrc::chunk::{process_spliced, Chunk, Splitter};
use onebrc::pool::BufferPool;
use onebrc::record::FormatError;
use onebrc::report::{format_report, sorted_entries};
use onebrc::worker::{Action, Event, Worker, WorkerState};

fn agg(count: u64, sum: i64, min: i64, max: i64) -> Aggregate {
    Aggregate { count, sum, min, max }
}

fn folded(input: &[u8]) -> AggMap {
    let mut out = AggMap::new();
    assert_eq!(process_chunk(input, &mut out), Ok(()));
    out
}

fn chunk(leftover: Option<&[u8]>, buffer: &[u8], valid_length: usize) -> Chunk {
    Chunk { buffer: buffer.to_vec(), valid_length, leftover: leftover.map(|l| l.to_vec()) }
}

/// Feeds `stream` through a splitter in reads of `size` bytes and folds the
/// chunks into one map.
fn piped(stream: &[u8], size: usize) -> Result<AggMap, FormatError> {
    let mut splitter = Splitter::new();
    let mut totals = AggMap::new();
    for piece in stream.chunks(size) {
        let mut buffer = vec![0u8; size];
        buffer[..piece.len()].copy_from_slice(piece);
        let c = splitter.split(buffer, piece.len())?;
        let (back, r) = process_spliced(c, &mut totals);
        assert_eq!(back.len(), size);
        r?;
    }
    splitter.finish()?;
    Ok(totals)
}

#[test]
fn split_cuts_after_the_last_newline() {
    let mut s = Splitter::new();
    let c = s.split(b"A;1.0\nB;2.0\nC;3".to_vec(), 15).unwrap();
    assert_eq!(c.buffer, b"A;1.0\nB;2.0\nC;3".to_vec());
    assert_eq!(c.valid_length, 12);
    assert_eq!(c.leftover, None);
    let c = s.split(b".0\nD;4.0\n".to_vec(), 9).unwrap();
    assert_eq!(c.valid_length, 9);
    assert_eq!(c.leftover, Some(b"C;3".to_vec()));
    assert_eq!(s.finish(), Ok(()));
}

#[test]
fn split_looks_only_at_the_bytes_read() {
    let mut s = Splitter::new();
    let c = s.split(b"A;1.0\nB;2.0\nxxxx\n".to_vec(), 9).unwrap();
    assert_eq!(c.valid_length, 6);
    let c = s.split(b"0\n".to_vec(), 2).unwrap();
    assert_eq!(c.leftover, Some(b"B;2".to_vec()));
    assert_eq!(c.valid_length, 2);
}

#[test]
fn split_refuses_a_buffer_without_newline() {
    let mut s = Splitter::new();
    let c = s.split(b"A;1.0\nB;".to_vec(), 8).unwrap();
    assert_eq!(c.valid_length, 6);
    assert_eq!(s.split(b"2.0".to_vec(), 3), Err(FormatError::RecordTooLong));
    // The state is as it was: the carried bytes are still there.
    let c = s.split(b"2.0\n".to_vec(), 4).unwrap();
    assert_eq!(c.leftover, Some(b"B;".to_vec()));
    let mut s = Splitter::new();
    assert_eq!(s.split(b"A;1.0\n".to_vec(), 0), Err(FormatError::RecordTooLong));
}

#[test]
fn finish_refuses_a_record_without_newline() {
    let mut s = Splitter::new();
    s.split(b"A;1.0\nB;2.0".to_vec(), 11).unwrap();
    assert_eq!(s.finish(), Err(FormatError::UnterminatedRecord));
    assert_eq!(Splitter::new().finish(), Ok(()));
}

#[test]
fn a_chunk_without_leftover_is_folded_as_it_is() {
    let mut totals = AggMap::new();
    let (back, r) = process_spliced(chunk(None, b"A;1.0\nB;2.0\nC;3", 12), &mut totals);
    assert_eq!(r, Ok(()));
    assert_eq!(back, b"A;1.0\nB;2.0\nC;3".to_vec());
    assert_eq!(sorted_entries(&totals), sorted_entries(&folded(b"A;1.0\nB;2.0\n")));
    assert_eq!(totals.consumed(), 12);
}

#[test]
fn the_leftover_is_spliced_onto_the_first_line() {
    let mut totals = AggMap::new();
    let (back, r) = process_spliced(chunk(Some(b"C;3"), b".0\nD;4.0\n", 9), &mut totals);
    assert_eq!(r, Ok(()));
    assert_eq!(back, b".0\nD;4.0\n".to_vec());
    assert_eq!(totals.get(b"C"), Some(agg(1, 30, 30, 30)));
    assert_eq!(totals.get(b"D"), Some(agg(1, 40, 40, 40)));
    assert_eq!(totals.len(), 2);
    assert_eq!(totals.consumed(), 12);
}

#[test]
fn a_leftover_may_end_exactly_at_the_newline() {
    let mut totals = AggMap::new();
    let (_, r) = process_spliced(chunk(Some(b"C;3.0"), b"\nD;4.0\n", 7), &mut totals);
    assert_eq!(r, Ok(()));
    assert_eq!(totals.get(b"C"), Some(agg(1, 30, 30, 30)));
    assert_eq!(totals.get(b"D"), Some(agg(1, 40, 40, 40)));
    let mut totals = AggMap::new();
    let (_, r) = process_spliced(chunk(Some(b"C;3.0"), b"\n", 1), &mut totals);
    assert_eq!(r, Ok(()));
    assert_eq!(totals.entries(), vec![(b"C".to_vec(), agg(1, 30, 30, 30))]);
}

#[test]
fn a_fault_in_a_spliced_chunk_is_reported() {
    let mut totals = AggMap::new();
    let (_, r) = process_spliced(chunk(Some(b"C;3"), b".0\nD;4.0\nE", 10), &mut totals);
    assert_eq!(r, Err(FormatError::UnterminatedRecord));
    assert_eq!(totals.len(), 0);
    assert_eq!(totals.consumed(), 13);
    let mut totals = AggMap::new();
    let (_, r) = process_spliced(chunk(Some(b"C;3"), b"x\nD;4.0\n", 8), &mut totals);
    assert_eq!(r, Err(FormatError::UnparseableValue));
    assert_eq!(totals.entries(), vec![(b"D".to_vec(), agg(1, 40, 40, 40))]);
    let mut totals = AggMap::new();
    let (_, r) = process_spliced(chunk(Some(b"C;3"), b".0", 2), &mut totals);
    assert_eq!(r, Err(FormatError::UnterminatedRecord));
}

#[test]
fn a_cut_inside_a_record_loses_nothing() {
    let stream = "Gobernador Virasora;4.4\nBālgudar;-57.8\nFormigine;5.2\nTaraz;-43.3\nBālgudar;1.0\n"
        .as_bytes();
    let whole = folded(stream);
    for at in 24..=stream.len() {
        let mut splitter = Splitter::new();
        let mut totals = AggMap::new();
        let first = splitter.split(stream[..at].to_vec(), at).unwrap();
        assert_eq!(process_spliced(first, &mut totals).1, Ok(()));
        if at < stream.len() {
            let second = splitter.split(stream[at..].to_vec(), stream.len() - at).unwrap();
            assert_eq!(process_spliced(second, &mut totals).1, Ok(()));
        }
        assert_eq!(splitter.finish(), Ok(()));
        assert_eq!(sorted_entries(&totals), sorted_entries(&whole));
        assert_eq!(totals.consumed(), stream.len() as u64);
    }
    assert_eq!(whole.get("Bālgudar".as_bytes()), Some(agg(2, -568, -578, 10)));
}

#[test]
fn every_buffer_size_gives_the_same_map() {
    let stream = b"A;1.0\nBB;-2.5\nA;3.0\nCCC;99.9\nBB;0.0\nA;-99.9\nD;5.5\n";
    let whole = folded(stream);
    for size in 10..=stream.len() + 1 {
        let totals = piped(stream, size).unwrap();
        assert_eq!(sorted_entries(&totals), sorted_entries(&whole));
        assert_eq!(format_report(&totals), format_report(&whole));
    }
    assert_eq!(
        String::from_utf8(format_report(&whole)).unwrap(),
        "A=-32.0/-99.9/3.0\nBB=-1.3/-2.5/0.0\nCCC=99.9/99.9/99.9\nD=5.5/5.5/5.5\n"
    );
}

#[test]
fn a_buffer_smaller_than_a_record_is_refused() {
    let stream = b"A;1.0\nBB;-2.5\nA;3.0\nCCC;99.9\n";
    assert_eq!(piped(stream, 5).err(), Some(FormatError::RecordTooLong));
}

#[test]
fn an_empty_file_gives_an_empty_report() {
    let totals = piped(b"", 16).unwrap();
    assert_eq!(totals.len(), 0);
    assert_eq!(format_report(&totals), Vec::<u8>::new());
    let parts = vec![AggMap::new(), AggMap::new()];
    assert_eq!(format_report(&merge_all(&parts).unwrap()), Vec::<u8>::new());
}

#[test]
fn merge_all_joins_the_workers_maps() {
    let parts = vec![
        folded(b"A;1.0\nB;2.0\n"),
        AggMap::new(),
        folded(b"B;-3.0\nC;4.0\n"),
        folded(b"A;-9.9\nC;0.1\nD;5.0\n"),
    ];
    let all = merge_all(&parts).unwrap();
    let whole = folded(b"A;1.0\nB;2.0\nB;-3.0\nC;4.0\nA;-9.9\nC;0.1\nD;5.0\n");
    assert_eq!(sorted_entries(&all), sorted_entries(&whole));
    assert_eq!(all.consumed(), whole.consumed());
    assert_eq!(merge_all(&Vec::new()).unwrap().len(), 0);
}

#[test]
fn the_number_of_workers_does_not_matter() {
    let stream: &[&[u8]] =
        &[b"A;1.0\nB;2.0\n", b"B;-3.0\nC;4.0\n", b"A;-9.9\n", b"C;0.1\nD;5.0\n", b"A;7.7\n"];
    let whole = folded(&stream.concat());
    for workers in 1..=5 {
        let mut parts: Vec<AggMap> = (0..workers).map(|_| AggMap::new()).collect();
        for (i, piece) in stream.iter().enumerate() {
            assert_eq!(process_chunk(piece, &mut parts[i % workers]), Ok(()));
        }
        assert_eq!(sorted_entries(&merge_all(&parts).unwrap()), sorted_entries(&whole));
    }
}

#[test]
fn max_input_leaves_room_for_every_sum() {
    assert_eq!(MAX_INPUT, 9_000_000_000_000_000);
    assert!((MAX_INPUT as i128) * 999 + 999 <= i64::MAX as i128);
}

#[test]
fn a_pool_hands_out_buffers_of_its_size() {
    let mut pool = BufferPool::new(2, 8);
    assert_eq!(pool.capacity(), 2);
    assert_eq!(pool.buffer_size(), 8);
    assert_eq!(pool.available(), 0);
    let a = pool.acquire();
    assert_eq!(a, vec![0u8; 8]);
    assert_eq!(pool.available(), 0);
}

#[test]
fn a_pool_keeps_what_fits_and_drops_the_rest() {
    let mut pool = BufferPool::new(2, 4);
    assert!(pool.release(vec![1, 2, 3, 4]));
    assert!(!pool.release(vec![1, 2, 3]));
    assert!(!pool.release(Vec::new()));
    assert!(pool.release(vec![5, 6, 7, 8]));
    assert_eq!(pool.available(), 2);
    assert!(!pool.release(vec![9, 9, 9, 9]));
    assert_eq!(pool.available(), 2);
    assert_eq!(pool.acquire(), vec![5, 6, 7, 8]);
    assert_eq!(pool.acquire(), vec![1, 2, 3, 4]);
    assert_eq!(pool.available(), 0);
    assert_eq!(pool.acquire(), vec![0, 0, 0, 0]);
    let mut none = BufferPool::new(0, 4);
    assert!(!none.release(vec![0; 4]));
    assert_eq!(none.acquire().len(), 4);
}

#[test]
fn a_worker_goes_from_idle_to_drained() {
    let mut w = Worker::new();
    assert_eq!(w.state(), WorkerState::Idle);
    w.start();
    assert_eq!(w.state(), WorkerState::Receiving);
    w.start();
    assert_eq!(w.state(), WorkerState::Receiving);
    let c = chunk(None, b"A;1.0\nB;2.0\nC;3", 12);
    assert_eq!(w.step(Event::Chunk(c)), Action::Recycle(b"A;1.0\nB;2.0\nC;3".to_vec()));
    assert_eq!(w.state(), WorkerState::Receiving);
    assert_eq!(w.consumed(), 12);
    let c = chunk(Some(b"C;3"), b".0\nA;4.0\n", 9);
    assert_eq!(w.step(Event::Chunk(c)), Action::Recycle(b".0\nA;4.0\n".to_vec()));
    assert_eq!(w.step(Event::Closed), Action::Finish);
    assert_eq!(w.state(), WorkerState::Drained);
    let totals = w.into_totals();
    assert_eq!(
        sorted_entries(&totals),
        vec![
            (b"A".to_vec(), agg(2, 50, 10, 40)),
            (b"B".to_vec(), agg(1, 20, 20, 20)),
            (b"C".to_vec(), agg(1, 30, 30, 30)),
        ]
    );
}

#[test]
fn a_worker_fails_on_a_faulty_chunk() {
    let mut w = Worker::new();
    w.start();
    let c = chunk(None, b"A;1.0\nB2.0\n", 11);
    assert_eq!(w.step(Event::Chunk(c)), Action::Abort(FormatError::MissingSeparator));
    assert_eq!(w.state(), WorkerState::Failed);
    w.start();
    assert_eq!(w.state(), WorkerState::Failed);
}

#[test]
fn a_worker_without_chunks_returns_an_empty_map() {
    let mut w = Worker::new();
    w.start();
    assert_eq!(w.step(Event::Closed), Action::Finish);
    assert_eq!(w.into_totals().len(), 0);
}

/// A map of one key that has consumed as much as doubling allows.
fn nearly_full() -> AggMap {
    let mut m = folded(b"A;1.0\n");
    while let Ok(d) = merge_chunks(m.clone(), m.clone()) {
        m = d;
    }
    m
}

#[test]
fn merge_all_refuses_more_than_one_map_can_take() {
    let m = nearly_full();
    assert!(m.consumed() > MAX_INPUT / 2);
    let parts = vec![m.clone(), AggMap::new(), m];
    assert_eq!(merge_all(&parts).err(), Some(FormatError::InputTooLarge));
    assert!(merge_all(&parts[..2].to_vec()).is_ok());
}

#[test]
fn a_spliced_chunk_that_does_not_fit_is_not_read() {
    let mut parts = vec![nearly_full()];
    while parts.last().unwrap().consumed() > 6 {
        let mut p = folded(b"A;1.0\n");
        while p.consumed() * 2 < parts.last().unwrap().consumed() {
            p = merge_chunks(p.clone(), p.clone()).unwrap();
        }
        parts.push(p);
    }
    let mut totals = AggMap::new();
    for p in &parts {
        let _ = totals.merge(p);
    }
    assert!(MAX_INPUT - totals.consumed() < 12);
    let before = totals.get(b"A");
    let room = (MAX_INPUT - totals.consumed()) as usize;
    let (back, r) = process_spliced(chunk(Some(b"C;3"), b".0\nD;4.0\n", 9), &mut totals);
    assert_eq!(r, Err(FormatError::InputTooLarge));
    assert_eq!(back, b".0\nD;4.0\n".to_vec());
    assert_eq!(totals.get(b"A"), before);
    assert_eq!(totals.get(b"C"), None);
    assert_eq!(totals.get(b"D"), None);
    assert_eq!(MAX_INPUT - totals.consumed(), room as u64);
}

/// A stream of `n` records over a few hundred keys, from a fixed seed.
fn stream_of(n: usize) -> Vec<u8> {
    let mut out = Vec::new();
    let mut x: u64 = 0x2545_f491_4f6c_dd1d;
    for _ in 0..n {
        x ^= x << 13;
        x ^= x >> 7;
        x ^= x << 17;
        let key = format!("station-{}", (x >> 8) % 300);
        let tenths = ((x >> 24) % 1999) as i64 - 999;
        let sign = if tenths < 0 { "-" } else { "" };
        let line = format!("{};{}{}.{}\n", key, sign, tenths.abs() / 10, tenths.abs() % 10);
        out.extend_from_slice(line.as_bytes());
    }
    out
}

/// The aggregates of `stream`, computed line by line without the library's
/// parser.
fn reference(stream: &[u8]) -> Vec<(Vec<u8>, Aggregate)> {
    let mut map = std::collections::BTreeMap::<Vec<u8>, Aggregate>::new();
    for line in stream.split(|b| *b == b'\n').filter(|l| !l.is_empty()) {
        let sep = line.iter().rposition(|b| *b == b';').unwrap();
        let text = std::str::from_utf8(&line[sep + 1..]).unwrap();
        let digits: String = text.chars().filter(|c| *c != '.').collect();
        let v: i64 = digits.parse().unwrap();
        let e = map.entry(line[..sep].to_vec()).or_insert(agg(0, 0, i64::MAX, i64::MIN));
        e.count += 1;
        e.sum += v;
        e.min = e.min.min(v);
        e.max = e.max.max(v);
    }
    map.into_iter().collect()
}

#[test]
fn a_large_stream_matches_a_reference_count() {
    let stream = stream_of(5000);
    let expected = reference(&stream);
    assert_eq!(expected.len(), 300);
    let whole = folded(&stream);
    assert_eq!(sorted_entries(&whole), expected);
    assert_eq!(whole.len(), 300);
    assert_eq!(whole.consumed(), stream.len() as u64);
    for size in [64, 100, 1000, 4096, stream.len()] {
        let totals = piped(&stream, size).unwrap();
        assert_eq!(sorted_entries(&totals), expected);
    }
}

#[test]
fn a_large_stream_spread_over_workers_matches_a_reference_count() {
    let stream = stream_of(3000);
    let expected = reference(&stream);
    for workers in [1, 2, 3, 8] {
        let mut splitter = Splitter::new();
        let mut pool = BufferPool::new(4, 512);
        let mut ws: Vec<Worker> = (0..workers).map(|_| Worker::new()).collect();
        for w in ws.iter_mut() {
            w.start();
        }
        for (i, piece) in stream.chunks(512).enumerate() {
            let mut buffer = pool.acquire();
            buffer[..piece.len()].copy_from_slice(piece);
            let c = splitter.split(buffer, piece.len()).unwrap();
            match ws[i % workers].step(Event::Chunk(c)) {
                Action::Recycle(b) => assert!(pool.release(b)),
                other => panic!("unexpected {:?}", other),
            }
        }
        assert_eq!(splitter.finish(), Ok(()));
        let mut parts = Vec::new();
        for mut w in ws {
            assert_eq!(w.step(Event::Closed), Action::Finish);
            parts.push(w.into_totals());
        }
        let all = merge_all(&parts).unwrap();
        assert_eq!(sorted_entries(&all), expected);
        assert_eq!(all.consumed(), stream.len() as u64);
    }
}
