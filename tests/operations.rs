use mol2grep::codec::{compress, decompress};
use mol2grep::decimal::{parse_count, Energy};
use mol2grep::mol2::{Mol2, Mol2Reader};
use mol2grep::mol2utils::{
    grep_file, matches_map, matches_set, table_header, table_rows, BlockSink, GrepTotals,
    Partitioner, Tabulator,
};
use mol2grep::query::{NameSet, QueryFormat, QueryReader, ScoreTable};

fn record_text(id: &str, energy: &str) -> String {
    format!(
        "##########                 Name:                {id}\n\
         ##########         Total Energy:                {energy}\n\
         @<TRIPOS>MOLECULE\n{id}\n   2 1 1 0 0\nSMALL\nUSER_CHARGES\n\n\
         @<TRIPOS>ATOM\n  1 C1 0.0 0.0 0.0 C.3 1 LIG 0.0\n  2 C2 1.5 0.0 0.0 C.3 1 LIG 0.0\n\
         @<TRIPOS>BOND\n  1 1 2 1\n\
         @<TRIPOS>SUBSTRUCTURE\n  1 LIG 1\n"
    )
}

fn file_text(f: usize, n: usize) -> String {
    let mut s = String::new();
    for i in 0..n {
        s.push_str(&record_text(&format!("ZINC{:04}{:06}", f, i), &format!("-{}.25", i % 50)));
    }
    s
}

fn one_record(id: &str, energy: &str) -> Mol2 {
    let mut r = Mol2Reader::from_text(record_text(id, energy).as_bytes());
    r.next_record().unwrap().unwrap()
}

fn tol() -> Energy {
    Energy::parse(b"1e-6").unwrap()
}

fn run_filter(files: &[String], query: &QueryFormat) -> (u64, u64, Vec<Vec<u8>>) {
    let mut totals = GrepTotals::new();
    let mut out = Vec::new();
    for f in files {
        let packed = compress(f.as_bytes()).unwrap();
        let mut reader = Mol2Reader::new(&packed).unwrap();
        let tally = grep_file(&mut reader, query, tol()).unwrap();
        totals.add(tally.processed as u64, tally.accepted.len() as u64);
        for r in &tally.accepted {
            out.push(r.get_lines().to_vec());
        }
    }
    (totals.processed, totals.accepted, out)
}

fn six_files() -> Vec<String> {
    (0..6).map(|f| file_text(f, 1162)).collect()
}

#[test]
fn filter_with_id_list_end_to_end() {
    let files = six_files();
    let mut q = String::new();
    for (f, i) in [(0, 1), (0, 77), (1, 5), (1, 1161), (2, 0), (3, 300), (3, 301), (4, 999), (5, 42), (5, 600)] {
        q.push_str(&format!("ZINC{:04}{:06}\n", f, i));
    }
    q.push_str("ZINC_NOT_PRESENT\n");
    let query = QueryReader::new(q.as_bytes()).load_queries().unwrap();
    let (processed, accepted, _) = run_filter(&files, &query);
    assert_eq!(processed, 6972);
    assert_eq!(accepted, 10);
}

#[test]
fn filter_with_scores_end_to_end() {
    let files = six_files();
    // Energies in the files are -(i % 50).25; eight of these targets hold
    // within the tolerance, two lie more than it below the record's energy.
    let mut q = String::new();
    for (f, i) in [(0, 1), (0, 77), (1, 5), (1, 1161), (2, 0), (3, 300), (3, 301), (4, 999)] {
        q.push_str(&format!("ZINC{:04}{:06}\t-{}.25\n", f, i, i % 50));
    }
    q.push_str(&format!("ZINC{:04}{:06}\t-{}.25\n", 5, 42, 42 + 1));
    q.push_str(&format!("ZINC{:04}{:06}\t-{}.2500011\n", 5, 600, 600 % 50));
    let query = QueryReader::new(q.as_bytes()).load_queries().unwrap();
    let (processed, accepted, _) = run_filter(&files, &query);
    assert_eq!(processed, 6972);
    assert_eq!(accepted, 8);
}

#[test]
fn filter_twice_gives_same_counts() {
    let files: Vec<String> = (0..3).map(|f| file_text(f, 100)).collect();
    let query = QueryReader::new(b"ZINC0000000001\nZINC0002000099\n").load_queries().unwrap();
    let first = run_filter(&files, &query);
    let mut reversed = files.clone();
    reversed.reverse();
    let second = run_filter(&reversed, &query);
    assert_eq!((first.0, first.1), (second.0, second.1));
    assert_eq!((first.0, first.1), (300, 2));
}

#[test]
fn accepted_payloads_match_source_bytes() {
    let text = file_text(7, 20);
    let query = QueryReader::new(b"ZINC0007000003\nZINC0007000011\n").load_queries().unwrap();
    let (_, _, out) = run_filter(&[text.clone()], &query);
    assert_eq!(out.len(), 2);
    assert_eq!(out[0], record_text("ZINC0007000003", "-3.25").into_bytes());
    assert_eq!(out[1], record_text("ZINC0007000011", "-11.25").into_bytes());
    for p in &out {
        let s = std::str::from_utf8(p).unwrap();
        assert!(text.contains(s));
    }
}

#[test]
fn score_match_is_one_sided() {
    let mut table = ScoreTable::new();
    table.insert(b"A".to_vec(), Energy::parse(b"-10.0").unwrap());
    let t = tol();
    assert!(matches_map(&one_record("A", "-9.999999"), &table, t));
    assert!(!matches_map(&one_record("A", "-9.999998"), &table, t));
    for eps in ["0.000000000001", "0.000001", "0.0001", "1"] {
        let e = Energy { units: -10_000_000_000_000 + 1_000_000 + Energy::parse(eps.as_bytes()).unwrap().units };
        let text = String::from_utf8(e.to_text()).unwrap();
        assert!(!matches_map(&one_record("A", &text), &table, t), "{}", text);
    }
    assert!(matches_map(&one_record("A", "-10"), &table, t));
    assert!(matches_map(&one_record("A", "-1000000"), &table, t));
    assert!(!matches_map(&one_record("B", "-10"), &table, t));
}

#[test]
fn set_match_is_by_id() {
    let mut s = NameSet::new();
    s.insert(b"A".to_vec());
    assert!(matches_set(&one_record("A", "5"), &s));
    assert!(!matches_set(&one_record("B", "5"), &s));
}

#[test]
fn partition_counts_for_6972_records_into_10() {
    let mut p = Partitioner::new(10);
    for k in 0..6972 {
        assert_eq!(p.route(), k % 10);
    }
    let counts = p.counts();
    assert_eq!(counts, vec![698, 698, 697, 697, 697, 697, 697, 697, 697, 697]);
    assert_eq!(counts.iter().sum::<usize>(), 6972);
}

#[test]
fn partition_into_one_shard() {
    let mut p = Partitioner::new(1);
    for _ in 0..5 {
        assert_eq!(p.route(), 0);
    }
    assert_eq!(p.counts(), vec![5]);
}

#[test]
fn table_rows_are_numbered_from_zero() {
    let text = file_text(0, 451);
    let mut reader = Mol2Reader::from_text(text.as_bytes());
    let recs = reader.read_all().unwrap();
    let rows = table_rows(&recs);
    assert_eq!(rows.len(), 451);
    for (i, row) in rows.iter().enumerate() {
        let s = String::from_utf8(row.clone()).unwrap();
        let first = s.split('\t').next().unwrap();
        assert_eq!(first, i.to_string());
    }
    assert_eq!(rows[3], b"3\tZINC0000000003\t-3.25\n".to_vec());
}

#[test]
fn tabulator_rows_and_header() {
    assert_eq!(table_header(), b"ligand_id\tname\tenergy\n".to_vec());
    let mut t = Tabulator::new();
    assert_eq!(t.row(&one_record("A", "-35.120000")), b"0\tA\t-35.12\n".to_vec());
    assert_eq!(t.row(&one_record("B", "100.0")), b"1\tB\t100\n".to_vec());
    assert_eq!(t.row(&one_record("C", "1e-6")), b"2\tC\t0.000001\n".to_vec());
    assert_eq!(t.row(&Mol2::new()), b"3\t\t100\n".to_vec());
}

#[test]
fn decimal_parsing() {
    assert_eq!(Energy::parse(b"1e-6"), Some(Energy { units: 1_000_000 }));
    assert_eq!(Energy::parse(b"-35.12"), Some(Energy { units: -35_120_000_000_000 }));
    assert_eq!(Energy::parse(b"+.5"), Some(Energy { units: 500_000_000_000 }));
    assert_eq!(Energy::parse(b"5."), Some(Energy { units: 5_000_000_000_000 }));
    assert_eq!(Energy::parse(b"2.5E+2"), Some(Energy { units: 250_000_000_000_000 }));
    assert_eq!(Energy::parse(b"0e99999"), None);
    assert_eq!(Energy::parse(b"0e9999"), Some(Energy { units: 0 }));
    assert_eq!(Energy::parse(b"1e-13"), Some(Energy { units: 0 }));
    assert_eq!(Energy::parse(b"5e-13"), Some(Energy { units: 1 }));
    assert_eq!(Energy::parse(b"-1.5e-12"), Some(Energy { units: -2 }));
    assert_eq!(Energy::parse(b"1.0000000000004"), Some(Energy { units: 1_000_000_000_000 }));
    assert_eq!(Energy::parse(b"1e-9999"), Some(Energy { units: 0 }));
    assert_eq!(Energy::parse(b"1e18"), None);
    assert_eq!(Energy::parse(b"."), None);
    assert_eq!(Energy::parse(b""), None);
    assert_eq!(Energy::parse(b"inf"), None);
    assert_eq!(Energy::parse(b"1.5x"), None);
    assert_eq!(Energy::parse(b"-0.000"), Some(Energy { units: 0 }));
    assert_eq!(Energy { units: -1_500_000_000_000 }.to_text(), b"-1.5".to_vec());
    assert!(Energy { units: 5 }.is_bounded());
    assert!(!Energy { units: i128::MAX }.is_bounded());
    assert_eq!(
        Energy { units: i128::MIN }.to_text(),
        b"-170141183460469231731687303.715884105728".to_vec()
    );
}

#[test]
fn count_parsing() {
    assert_eq!(parse_count(b"7"), Some(7));
    assert_eq!(parse_count(b"+5"), Some(5));
    assert_eq!(parse_count(b"007"), Some(7));
    assert_eq!(parse_count(b"255"), Some(255));
    assert_eq!(parse_count(b"256"), None);
    assert_eq!(parse_count(b"-1"), None);
    assert_eq!(parse_count(b"+"), None);
    assert_eq!(parse_count(b""), None);
    assert_eq!(parse_count(b"1a"), None);
}

#[test]
fn block_sink_members_decode_to_stream() {
    let mut sink = BlockSink::new(64);
    let mut packed = Vec::new();
    let mut plain = Vec::new();
    for i in 0..40 {
        let chunk = format!("line {} of the output\n", i).into_bytes();
        plain.extend_from_slice(&chunk);
        if let Some(block) = sink.push(&chunk).unwrap() {
            packed.extend(block);
        }
    }
    packed.extend(sink.finish().unwrap());
    assert_ne!(packed, plain);
    assert_eq!(decompress(&packed).unwrap(), plain);
}

#[test]
fn empty_sink_still_writes_a_member() {
    let sink = BlockSink::new(10);
    let packed = sink.finish().unwrap();
    assert!(!packed.is_empty());
    assert_eq!(decompress(&packed).unwrap(), Vec::<u8>::new());
}
