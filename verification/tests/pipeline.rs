use bumps::colleges::Clubs;
use bumps::competition::Competition;
use bumps::decode::{decode, encode};
use bumps::entries::entries;
use bumps::query::{query, YearLine};
use bumps::raw::Raw;
use bumps::results::{load_years, year_span};
use bumps::rw2::Row;
use bumps::year::Year;
use std::collections::HashMap;

fn words(list: &[[u32; 6]]) -> Vec<u8> {
    list.iter().flatten().flat_map(|w| w.to_le_bytes()).collect()
}

#[test]
fn from_obfuscated_files_to_entries() {
    let college = encode(b"! clubs\r\n[Test]\r\n1\t2\t3\r\nTest 1\ttest1\r\n\r\n", 0x5A);
    let year_file = encode(b"DAYS: 4\r\nDIVS: 17,17\r\n", 0xE0);
    let rw2 = words(&[[0, 0, 1990, 1991, 0, 20], [0, 0, 0, 0, 0, 0]]);
    let mut raw = vec![0u8; 21];
    raw[..5].copy_from_slice(&[1, 2, 3, 4, 0]);

    let clubs = Clubs::from_file(&decode(&college).unwrap()).unwrap();
    let rows = Row::from_file(&rw2).unwrap();
    assert_eq!(rows.len(), clubs.crews().len());

    let mut years = HashMap::new();
    let (lo, hi) = year_span(&rows).unwrap();
    assert_eq!((lo, hi), (1990, 1991));
    for year in lo..=hi {
        years.insert(year, Year::from_file(&decode(&year_file).unwrap()).unwrap());
    }
    assert_eq!(years[&1990].crews_per_division, vec![17, 17]);

    let table = load_years(&clubs, &rows, &years, &Raw::load(raw)).unwrap();
    let record = table.get("test1").unwrap();
    assert_eq!(record.year(1990), Some(&vec![1, 2, 3, 4, 0]));
    assert_eq!(record.year(1991), None);

    let flat = entries(&clubs, &table, Competition::MenMays);
    assert_eq!(flat.len(), 5);
    assert_eq!(flat[3].position, 4);
    assert_eq!(flat[3].day, 3);

    assert_eq!(
        query(&table, "test1", 1990, 1991),
        Ok(vec![
            YearLine { year: 1990, positions: Some(vec![1, 2, 3, 4, 0]) },
            YearLine { year: 1991, positions: None },
        ])
    );
}
