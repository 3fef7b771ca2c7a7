use onebrc::agg_map::{merge_chunks, process_chunk, AggMap, MAX_INPUT};
use onebrc::aggregate::Aggregate;
use onebrc::record::FormatError;
use onebrc::report::sorted_entries;

fn agg(count: u64, sum: i64, min: i64, max: i64) -> Aggregate {
    Aggregate { count, sum, min, max }
}

fn folded(input: &[u8]) -> AggMap {
    let mut out = AggMap::default();
    assert_eq!(process_chunk(input, &mut out), Ok(()));
    out
}

fn check_process_chunk_1() {
    let input = r#"Gobernador Virasora;4.4
Bālgudar;-57.8
Formigine;5.2
Taraz;-43.3
"#;
    let mut out = AggMap::default();
    process_chunk(input.as_bytes(), &mut out).unwrap();
    println!("out: {:?}", sorted_entries(&out));

    assert_eq!(
        {
            let mut v = out.entries().into_iter().map(|e| e.0).collect::<Vec<_>>();
            v.sort();
            v
        },
        vec![
            "Bālgudar".as_bytes().to_vec(),
            "Formigine".as_bytes().to_vec(),
            "Gobernador Virasora".as_bytes().to_vec(),
            "Taraz".as_bytes().to_vec(),
        ]
    );
    assert_eq!(
        {
            let mut v = out.entries();
            v.sort_by(|a, b| a.0.cmp(&b.0));
            v
        },
        vec![
            ("Bālgudar".as_bytes().to_vec(), agg(1, -578, -578, -578)),
            ("Formigine".as_bytes().to_vec(), agg(1, 52, 52, 52)),
            ("Gobernador Virasora".as_bytes().to_vec(), agg(1, 44, 44, 44)),
            ("Taraz".as_bytes().to_vec(), agg(1, -433, -433, -433)),
        ]
    );
}

fn check_process_chunk_2() {
    let input = "Craig;-3.5\n";
    let mut out = AggMap::default();
    process_chunk(input.as_bytes(), &mut out).unwrap();
    let mut out = out.entries().into_iter();
    assert_eq!(out.next(), Some(("Craig".as_bytes().to_vec(), agg(1, -35, -35, -35))));
}

#[test]
fn compute_test_process_chunk_1() {
    check_process_chunk_1();
}

#[test]
fn compute_test_process_chunk_2() {
    check_process_chunk_2();
}

#[test]
fn main_test_process_chunk_1() {
    check_process_chunk_1();
}

#[test]
fn main_test_process_chunk_2() {
    check_process_chunk_2();
}

#[test]
fn a_single_record_yields_one_entry() {
    let out = folded(b"Craig;-3.5\n");
    assert_eq!(out.len(), 1);
    assert_eq!(out.get(b"Craig"), Some(agg(1, -35, -35, -35)));
    assert_eq!(out.get(b"craig"), None);
    assert_eq!(out.consumed(), 11);
}

#[test]
fn records_of_one_key_are_folded_together() {
    let out = folded(b"A;4.4\nA;-57.8\n");
    assert_eq!(out.len(), 1);
    assert_eq!(out.get(b"A"), Some(agg(2, -534, -578, 44)));
}

#[test]
fn an_empty_chunk_changes_nothing() {
    let mut out = AggMap::new();
    assert_eq!(process_chunk(b"", &mut out), Ok(()));
    assert_eq!(out.len(), 0);
    assert_eq!(out.consumed(), 0);
    let mut out = folded(b"A;1.0\n");
    assert_eq!(process_chunk(b"", &mut out), Ok(()));
    assert_eq!(out.entries(), vec![(b"A".to_vec(), agg(1, 10, 10, 10))]);
}

#[test]
fn chunks_accumulate_in_one_map() {
    let mut out = folded(b"A;1.0\nB;2.0\n");
    assert_eq!(process_chunk(b"B;-3.0\nC;4.0\n", &mut out), Ok(()));
    assert_eq!(out.len(), 3);
    assert_eq!(out.get(b"A"), Some(agg(1, 10, 10, 10)));
    assert_eq!(out.get(b"B"), Some(agg(2, -10, -30, 20)));
    assert_eq!(out.get(b"C"), Some(agg(1, 40, 40, 40)));
    assert_eq!(out.consumed(), 25);
}

#[test]
fn the_order_of_records_does_not_matter() {
    let a = folded(b"A;1.0\nB;2.0\nA;3.0\nC;-4.0\nB;5.5\n");
    let b = folded(b"B;5.5\nC;-4.0\nA;3.0\nB;2.0\nA;1.0\n");
    assert_eq!(sorted_entries(&a), sorted_entries(&b));
    assert_eq!(a.get(b"A"), Some(agg(2, 40, 10, 30)));
    assert_eq!(a.get(b"B"), Some(agg(2, 75, 20, 55)));
    assert_eq!(a.get(b"C"), Some(agg(1, -40, -40, -40)));
}

#[test]
fn a_chunk_without_final_newline_is_refused() {
    let mut out = AggMap::new();
    assert_eq!(process_chunk(b"A;1.0", &mut out), Err(FormatError::UnterminatedRecord));
    assert_eq!(out.len(), 0);
    assert_eq!(process_chunk(b"A;1.0\nB;2.0", &mut out), Err(FormatError::UnterminatedRecord));
    assert_eq!(out.len(), 0);
}

#[test]
fn a_fault_keeps_the_records_after_it() {
    let mut out = AggMap::new();
    assert_eq!(
        process_chunk(b"A;1.0\nbroken\nB;2.0\nC;3.0\n", &mut out),
        Err(FormatError::MissingSeparator)
    );
    assert_eq!(out.len(), 2);
    assert_eq!(out.get(b"A"), None);
    assert_eq!(out.get(b"B"), Some(agg(1, 20, 20, 20)));
    assert_eq!(out.get(b"C"), Some(agg(1, 30, 30, 30)));
}

#[test]
fn the_last_fault_is_the_one_reported() {
    let mut out = AggMap::new();
    assert_eq!(process_chunk(b"broken\nA;x\n", &mut out), Err(FormatError::UnparseableValue));
    let mut out = AggMap::new();
    assert_eq!(process_chunk(b"A;x\n;1.0\n", &mut out), Err(FormatError::EmptyKey));
}

#[test]
fn an_empty_line_is_a_fault() {
    let mut out = AggMap::new();
    assert_eq!(process_chunk(b"\n", &mut out), Err(FormatError::MissingSeparator));
    let mut out = AggMap::new();
    assert_eq!(process_chunk(b"A;1.0\n\nB;2.0\n", &mut out), Err(FormatError::MissingSeparator));
    assert_eq!(out.get(b"B"), Some(agg(1, 20, 20, 20)));
    assert_eq!(out.get(b"A"), None);
}

#[test]
fn a_key_of_37_bytes_is_refused() {
    let mut input = vec![b'k'; 37];
    input.extend_from_slice(b";1.2\n");
    let mut out = AggMap::new();
    assert_eq!(process_chunk(&input, &mut out), Err(FormatError::KeyTooLong));
    let mut input = vec![b'k'; 36];
    input.extend_from_slice(b";1.2\n");
    let mut out = AggMap::new();
    assert_eq!(process_chunk(&input, &mut out), Ok(()));
    assert_eq!(out.get(&[b'k'; 36]), Some(agg(1, 12, 12, 12)));
}

#[test]
fn keys_need_not_be_text() {
    let out = folded(&[0xff, 0x00, 0xfe, b';', b'1', b'.', b'2', b'\n']);
    assert_eq!(out.get(&[0xff, 0x00, 0xfe]), Some(agg(1, 12, 12, 12)));
}

#[test]
fn merge_takes_the_union_of_two_maps() {
    let mut a = folded(b"A;1.0\nB;2.0\n");
    let b = folded(b"B;-3.0\nC;4.0\nB;9.9\n");
    assert_eq!(a.merge(&b), Ok(()));
    assert_eq!(a.len(), 3);
    assert_eq!(a.get(b"A"), Some(agg(1, 10, 10, 10)));
    assert_eq!(a.get(b"B"), Some(agg(3, 89, -30, 99)));
    assert_eq!(a.get(b"C"), Some(agg(1, 40, 40, 40)));
    assert_eq!(a.consumed(), 12 + 19);
    assert_eq!(b.len(), 2);
}

#[test]
fn merge_with_an_empty_map_changes_nothing() {
    let mut a = folded(b"A;1.0\nB;2.0\n");
    assert_eq!(a.merge(&AggMap::new()), Ok(()));
    assert_eq!(sorted_entries(&a), sorted_entries(&folded(b"A;1.0\nB;2.0\n")));
    let mut e = AggMap::new();
    assert_eq!(e.merge(&a), Ok(()));
    assert_eq!(sorted_entries(&e), sorted_entries(&a));
}

#[test]
fn merge_chunks_is_independent_of_order_and_grouping() {
    let parts: [&[u8]; 3] = [b"A;1.0\nB;2.0\n", b"B;-3.0\nC;4.0\n", b"A;-9.9\nC;0.1\nD;5.0\n"];
    let whole = folded(b"A;1.0\nB;2.0\nB;-3.0\nC;4.0\nA;-9.9\nC;0.1\nD;5.0\n");
    let join = |a: AggMap, b: AggMap| merge_chunks(a, b).unwrap();
    let left = join(join(folded(parts[0]), folded(parts[1])), folded(parts[2]));
    let right = join(folded(parts[0]), join(folded(parts[1]), folded(parts[2])));
    let back = join(folded(parts[2]), join(folded(parts[1]), folded(parts[0])));
    assert_eq!(sorted_entries(&left), sorted_entries(&whole));
    assert_eq!(sorted_entries(&right), sorted_entries(&whole));
    assert_eq!(sorted_entries(&back), sorted_entries(&whole));
    assert_eq!(whole.get(b"A"), Some(agg(2, -89, -99, 10)));
}

/// A map that has consumed exactly `MAX_INPUT` bytes, built by doubling a
/// map of one record of six bytes.
fn full() -> AggMap {
    let mut powers = vec![folded(b"A;1.0\n")];
    loop {
        let last = powers.last().unwrap();
        match merge_chunks(last.clone(), last.clone()) {
            Ok(m) => powers.push(m),
            Err(e) => {
                assert_eq!(e, FormatError::InputTooLarge);
                break;
            }
        }
    }
    let mut acc = AggMap::new();
    for p in powers.iter().rev() {
        if acc.consumed() + p.consumed() <= MAX_INPUT {
            assert_eq!(acc.merge(p), Ok(()));
        } else {
            assert_eq!(acc.merge(p), Err(FormatError::InputTooLarge));
        }
    }
    acc
}

#[test]
fn a_clone_holds_the_same_entries() {
    let a = folded(b"A;1.0\nB;2.0\nA;3.0\n");
    let mut b = a.clone();
    assert_eq!(sorted_entries(&a), sorted_entries(&b));
    assert_eq!(a.consumed(), b.consumed());
    assert_eq!(process_chunk(b"C;1.0\n", &mut b), Ok(()));
    assert_eq!(a.len(), 2);
    assert_eq!(b.len(), 3);
}

#[test]
fn a_full_map_takes_no_more_input() {
    let mut m = full();
    assert_eq!(m.consumed(), MAX_INPUT);
    let n = MAX_INPUT / 6;
    assert_eq!(m.get(b"A"), Some(agg(n, 10 * n as i64, 10, 10)));
    assert_eq!(process_chunk(b"A;1.0\n", &mut m), Err(FormatError::InputTooLarge));
    assert_eq!(process_chunk(b"x", &mut m), Err(FormatError::InputTooLarge));
    assert_eq!(m.consumed(), MAX_INPUT);
    assert_eq!(m.get(b"A"), Some(agg(n, 10 * n as i64, 10, 10)));
    assert_eq!(process_chunk(b"", &mut m), Ok(()));
    assert_eq!(m.consumed(), MAX_INPUT);
}

#[test]
fn merging_beyond_the_limit_changes_nothing() {
    let m = full();
    let mut one = folded(b"B;-2.0\n");
    assert_eq!(one.merge(&m), Err(FormatError::InputTooLarge));
    assert_eq!(one.entries(), vec![(b"B".to_vec(), agg(1, -20, -20, -20))]);
    assert_eq!(one.consumed(), 7);
    assert_eq!(merge_chunks(m, one).err(), Some(FormatError::InputTooLarge));
}

#[test]
fn sums_at_the_limit_stay_exact() {
    let mut powers = vec![folded(b"A;-99.9\n")];
    while let Ok(m) = merge_chunks(powers.last().unwrap().clone(), powers.last().unwrap().clone()) {
        powers.push(m);
    }
    let top = powers.last().unwrap();
    let n = top.get(b"A").unwrap().count;
    assert_eq!(n, 1 << (powers.len() - 1));
    assert_eq!(top.get(b"A"), Some(agg(n, -999 * n as i64, -999, -999)));
    assert_eq!(top.consumed(), 8 * n);
}
