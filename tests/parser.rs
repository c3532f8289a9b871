use mol2grep::codec::{compress, decompress};
use mol2grep::decimal::Energy;
use mol2grep::mol2::{Mol2, Mol2Error, Mol2Reader};

fn record_text(id: &str, energy: Option<&str>, atoms: usize, bonds: usize) -> String {
    let mut s = String::new();
    s.push_str(&format!("##########                 Name:                {}\n", id));
    if let Some(e) = energy {
        s.push_str(&format!("##########         Total Energy:                {}\n", e));
    }
    s.push_str("@<TRIPOS>MOLECULE\n");
    s.push_str(&format!("{}\n", id));
    s.push_str(&format!("   {} {} 1 0 0\n", atoms, bonds));
    s.push_str("SMALL\nUSER_CHARGES\n\n");
    s.push_str("@<TRIPOS>ATOM\n");
    for i in 0..atoms {
        s.push_str(&format!("  {} C{} 0.0 0.0 0.0 C.3 1 LIG 0.0\n", i + 1, i + 1));
    }
    s.push_str("@<TRIPOS>BOND\n");
    for i in 0..bonds {
        s.push_str(&format!("  {} 1 2 1\n", i + 1));
    }
    s.push_str("@<TRIPOS>SUBSTRUCTURE\n");
    s.push_str("  1 LIG 1\n");
    s
}

fn read_all_text(text: &str) -> Result<Vec<Mol2>, Mol2Error> {
    let mut r = Mol2Reader::from_text(text.as_bytes());
    r.read_all()
}

#[test]
fn parses_records_in_file_order() {
    let a = record_text("ZINC000000000001", Some("-35.123456"), 3, 2);
    let b = record_text("ZINC000000000002", Some("12.5"), 2, 1);
    let text = format!("{}{}", a, b);
    let recs = read_all_text(&text).unwrap();
    assert_eq!(recs.len(), 2);
    assert_eq!(recs[0].get_name(), b"ZINC000000000001");
    assert_eq!(recs[1].get_name(), b"ZINC000000000002");
    assert_eq!(recs[0].get_energy().units, -35_123_456_000_000);
    assert_eq!(recs[1].get_energy().units, 12_500_000_000_000);
}

#[test]
fn payload_is_exact_source_text() {
    let a = record_text("A1", Some("-1.0"), 4, 3);
    let b = record_text("B2", None, 1, 1);
    let text = format!("{}{}", a, b);
    let recs = read_all_text(&text).unwrap();
    assert_eq!(recs[0].get_lines(), a.as_bytes());
    assert_eq!(recs[1].get_lines(), b.as_bytes());
    let mut joined = Vec::new();
    for r in &recs {
        joined.extend_from_slice(r.get_lines());
    }
    assert_eq!(joined, text.as_bytes());
}

#[test]
fn record_count_equals_name_header_count() {
    let mut text = String::new();
    for i in 0..451 {
        text.push_str(&record_text(&format!("ZINC{:012}", i), Some("-20.0"), 1 + i % 5, 1 + i % 4));
    }
    let name_lines = text.lines().filter(|l| l.contains("Name:")).count();
    let recs = read_all_text(&text).unwrap();
    assert_eq!(name_lines, 451);
    assert_eq!(recs.len(), 451);
}

#[test]
fn six_streams_hold_all_records() {
    let sizes = [1162, 1162, 1162, 1162, 1162, 1162];
    let mut total = 0;
    for (f, n) in sizes.iter().enumerate() {
        let mut text = String::new();
        for i in 0..*n {
            text.push_str(&record_text(&format!("F{}R{}", f, i), Some("-1.5"), 2, 1));
        }
        let packed = compress(text.as_bytes()).unwrap();
        let mut r = Mol2Reader::new(&packed).unwrap();
        total += r.read_all().unwrap().len();
    }
    assert_eq!(total, 6972);
}

#[test]
fn missing_energy_gives_default() {
    let recs = read_all_text(&record_text("X", None, 1, 1)).unwrap();
    assert_eq!(recs[0].get_energy(), Energy { units: 100_000_000_000_000 });
    assert_eq!(recs[0].get_energy().to_text(), b"100".to_vec());
}

#[test]
fn missing_name_gives_empty_id() {
    let text = record_text("X", Some("1"), 1, 1);
    let text = text.replacen("##########                 Name:                X\n", "", 1);
    let recs = read_all_text(&text).unwrap();
    assert_eq!(recs.len(), 1);
    assert_eq!(recs[0].get_name(), b"");
}

#[test]
fn truncated_last_record_is_dropped() {
    let a = record_text("A", Some("1"), 3, 2);
    let b = record_text("B", Some("2"), 3, 2);
    let cut = &b[..b.len() - 12];
    let text = format!("{}{}", a, cut);
    let mut r = Mol2Reader::from_text(text.as_bytes());
    let first = r.next_record().unwrap().unwrap();
    assert_eq!(first.get_name(), b"A");
    assert!(r.next_record().unwrap().is_none());
    assert!(r.next_record().unwrap().is_none());
}

#[test]
fn truncated_molecule_header_is_dropped() {
    let text = "##########                 Name:                A\n@<TRIPOS>MOLECULE\nA\n";
    let mut r = Mol2Reader::from_text(text.as_bytes());
    assert!(r.next_record().unwrap().is_none());
}

#[test]
fn exhausted_reader_stays_exhausted() {
    let mut r = Mol2Reader::from_text(b"");
    assert!(r.next_record().unwrap().is_none());
    assert!(r.next_record().unwrap().is_none());
}

#[test]
fn malformed_energy_is_an_error() {
    let text = record_text("A", Some("not-a-number"), 1, 0);
    assert_eq!(read_all_text(&text).unwrap_err(), Mol2Error::MalformedEnergy);
}

#[test]
fn malformed_count_is_an_error() {
    let text = record_text("A", Some("1"), 1, 0).replace("   1 0 1 0 0\n", "   1 x 1 0 0\n");
    assert_eq!(read_all_text(&text).unwrap_err(), Mol2Error::MalformedCount);
    let text = record_text("A", Some("1"), 1, 0).replace("   1 0 1 0 0\n", "   1 256 1 0 0\n");
    assert_eq!(read_all_text(&text).unwrap_err(), Mol2Error::MalformedCount);
}

#[test]
fn undeclared_section_count_ends_record() {
    let a = record_text("A", Some("1"), 2, 1)
        .replace("   2 1 1 0 0\n", "   2 1\n")
        .replace("@<TRIPOS>SUBSTRUCTURE\n  1 LIG 1\n", "");
    let recs = read_all_text(&a).unwrap();
    assert_eq!(recs.len(), 1);
    assert!(recs[0].get_lines().ends_with(b"@<TRIPOS>BOND\n  1 1 2 1\n"));
    let recs = read_all_text(&format!("{}{}", a, a)).unwrap();
    assert_eq!(recs.len(), 2);
}

#[test]
fn zero_count_after_first_section_ends_record() {
    let text = record_text("A", Some("1"), 2, 0);
    let recs = read_all_text(&text).unwrap();
    assert_eq!(recs.len(), 3);
    assert_eq!(recs[1].get_lines(), b"@<TRIPOS>BOND\n");
    assert_eq!(recs[2].get_lines(), b"@<TRIPOS>SUBSTRUCTURE\n");
    assert!(recs[0].get_lines().ends_with(b"@<TRIPOS>ATOM\n  1 C1 0.0 0.0 0.0 C.3 1 LIG 0.0\n  2 C2 0.0 0.0 0.0 C.3 1 LIG 0.0\n"));
}

#[test]
fn name_header_value_is_trimmed() {
    let text = record_text("A", Some("1"), 1, 0).replace(
        "Name:                A\n",
        "Name: \t ZINC42 \r\n",
    );
    let recs = read_all_text(&text).unwrap();
    assert_eq!(recs[0].get_name(), b"ZINC42");
}

#[test]
fn records_equal_by_id_only() {
    let a = read_all_text(&record_text("SAME", Some("1"), 1, 1)).unwrap();
    let b = read_all_text(&record_text("SAME", Some("2"), 3, 2)).unwrap();
    let c = read_all_text(&record_text("OTHER", Some("1"), 1, 1)).unwrap();
    assert!(a[0] == b[0]);
    assert!(a[0] != c[0]);
}

#[test]
fn gzip_members_are_all_read() {
    let a = record_text("A", Some("1"), 1, 1);
    let b = record_text("B", Some("2"), 1, 1);
    let mut packed = compress(a.as_bytes()).unwrap();
    packed.extend(compress(b.as_bytes()).unwrap());
    assert_ne!(packed, format!("{}{}", a, b).into_bytes());
    let mut r = Mol2Reader::new(&packed).unwrap();
    let recs = r.read_all().unwrap();
    assert_eq!(recs.len(), 2);
    assert_eq!(decompress(&packed).unwrap(), format!("{}{}", a, b).into_bytes());
}

#[test]
fn undecodable_input_is_an_error() {
    assert_eq!(Mol2Reader::new(b"plain text, not gzip").err(), Some(Mol2Error::Decode));
}

#[test]
fn record_builder_methods() {
    let mut m = Mol2::new();
    assert_eq!(m.get_name(), b"");
    assert_eq!(m.get_energy().units, 100_000_000_000_000);
    m.add_name(b"ZINC1".to_vec());
    m.add_energy(Energy { units: -5 });
    m.add_line(b"one\n");
    m.add_line(b"two\n");
    assert_eq!(m.get_name(), b"ZINC1");
    assert_eq!(m.get_energy().units, -5);
    assert_eq!(m.get_lines(), b"one\ntwo\n");
}
