use mol2grep::decimal::Energy;
use mol2grep::mol2::Mol2Error;
use mol2grep::query::{NameSet, QueryFormat, QueryReader, ScoreTable};

fn load(text: &str) -> Result<QueryFormat, Mol2Error> {
    QueryReader::new(text.as_bytes()).load_queries()
}

#[test]
fn one_column_gives_a_set() {
    match load("ZINC1\nZINC2\n  ZINC3  \nZINC1\n").unwrap() {
        QueryFormat::WithoutScore(s) => {
            assert!(s.contains(b"ZINC1"));
            assert!(s.contains(b"ZINC2"));
            assert!(s.contains(b"ZINC3"));
            assert!(!s.contains(b"ZINC4"));
        }
        QueryFormat::WithScore(_) => panic!("expected a set"),
    }
}

#[test]
fn leading_blank_lines_are_skipped() {
    match load("\n   \nZINC1\nZINC2\n").unwrap() {
        QueryFormat::WithoutScore(s) => {
            assert!(s.contains(b"ZINC1"));
            assert!(s.contains(b"ZINC2"));
        }
        QueryFormat::WithScore(_) => panic!("expected a set"),
    }
}

#[test]
fn two_columns_give_a_map_last_write_wins() {
    match load("\nZINC1\t-10.5\nZINC2 3\nZINC1\t-11\n").unwrap() {
        QueryFormat::WithScore(t) => {
            assert_eq!(t.get(b"ZINC1"), Some(Energy { units: -11_000_000_000_000 }));
            assert_eq!(t.get(b"ZINC2"), Some(Energy { units: 3_000_000_000_000 }));
            assert_eq!(t.get(b"ZINC3"), None);
        }
        QueryFormat::WithoutScore(_) => panic!("expected a map"),
    }
}

#[test]
fn three_columns_is_an_error() {
    assert_eq!(load("a b c\n").err(), Some(Mol2Error::MalformedQuery));
}

#[test]
fn empty_table_is_an_error() {
    assert_eq!(load("").err(), Some(Mol2Error::MalformedQuery));
    assert_eq!(load("\n \n").err(), Some(Mol2Error::MalformedQuery));
}

#[test]
fn bad_energy_column_is_an_error() {
    assert_eq!(load("ZINC1 1.0\nZINC2 abc\n").err(), Some(Mol2Error::MalformedQueryEnergy));
}

#[test]
fn short_line_in_map_is_an_error() {
    assert_eq!(load("ZINC1 1.0\nZINC2\n").err(), Some(Mol2Error::MalformedQuery));
}

#[test]
fn set_and_table_by_hand() {
    let mut s = NameSet::new();
    assert!(!s.contains(b"A"));
    s.insert(b"A".to_vec());
    s.insert(b"A".to_vec());
    assert!(s.contains(b"A"));
    let mut t = ScoreTable::new();
    t.insert(b"A".to_vec(), Energy { units: 1 });
    t.insert(b"A".to_vec(), Energy { units: 2 });
    assert_eq!(t.get(b"A"), Some(Energy { units: 2 }));
}
