use lindera_dict::character::{CategoryData, CharacterDefinition, CodeRange};
use lindera_dict::connection::ConnectionCostMatrix;
use lindera_dict::error::DictionaryError;
use lindera_dict::prefix_dictionary::{packed_value_count, packed_value_offset, PrefixDictionary};
use lindera_dict::tokenizer::code_point_at;
use lindera_dict::trie::{contains_nul, first_nul};
use lindera_dict::word_entry::{WordEntry, WordId, SERIALIZED_LEN};

fn entry(id: u32, cost: i16, left: u16, right: u16) -> WordEntry {
    WordEntry {
        word_id: WordId { id, is_system: true },
        word_cost: cost,
        left_id: left,
        right_id: right,
    }
}

/// Builds a system dictionary: each key maps to a run of records.
fn dictionary(words: &[(&str, Vec<WordEntry>)]) -> PrefixDictionary {
    let mut sorted: Vec<(&str, Vec<WordEntry>)> = words.to_vec();
    sorted.sort_by(|a, b| a.0.as_bytes().cmp(b.0.as_bytes()));
    let mut vals = Vec::new();
    let mut keyset = Vec::new();
    let mut offset = 0u32;
    for (key, entries) in &sorted {
        for e in entries {
            vals.extend(e.serialize());
        }
        keyset.push((key.as_bytes(), (offset << 5) | entries.len() as u32));
        offset += entries.len() as u32;
    }
    let da = yada::builder::DoubleArrayBuilder::build(&keyset).unwrap();
    PrefixDictionary::load(da, vals, Vec::new(), Vec::new()).unwrap()
}

#[test]
fn word_entry_round_trip() {
    let e = WordEntry {
        word_id: WordId { id: 0x1234_5678, is_system: false },
        word_cost: -1234,
        left_id: 65535,
        right_id: 7,
    };
    let bytes = e.serialize();
    assert_eq!(bytes.len(), SERIALIZED_LEN);
    assert_eq!(WordEntry::deserialize(&bytes, false), e);
}

#[test]
fn word_entry_layout_is_little_endian() {
    let e = entry(0x0403_0201, -2, 0x0605, 0x0807);
    assert_eq!(e.serialize(), vec![1, 2, 3, 4, 0xfe, 0xff, 5, 6, 7, 8]);
    let read = WordEntry::deserialize(&[1, 2, 3, 4, 0xfe, 0xff, 5, 6, 7, 8, 99], true);
    assert_eq!(read, e);
}

#[test]
fn packed_value_fields() {
    let v = (1234u32 << 5) | 31;
    assert_eq!(packed_value_count(v), 31);
    assert_eq!(packed_value_offset(v), 1234);
    assert_eq!(packed_value_count(64), 0);
    assert_eq!(packed_value_offset(64), 2);
}

#[test]
fn find_surface_exact_only() {
    let d = dictionary(&[
        ("東京", vec![entry(1, 10, 1, 1), entry(2, 20, 2, 2)]),
        ("東", vec![entry(3, 30, 3, 3)]),
    ]);
    assert_eq!(d.find_surface("東京").unwrap(), vec![entry(1, 10, 1, 1), entry(2, 20, 2, 2)]);
    assert_eq!(d.find_surface("東").unwrap(), vec![entry(3, 30, 3, 3)]);
    assert_eq!(d.find_surface("東京都").unwrap(), vec![]);
    assert_eq!(d.find_surface("京").unwrap(), vec![]);
    assert_eq!(d.find_surface("東\0").unwrap(), vec![]);
}

#[test]
fn prefix_shortest_first() {
    let d = dictionary(&[
        ("東京", vec![entry(1, 10, 1, 1), entry(2, 20, 2, 2)]),
        ("東", vec![entry(3, 30, 3, 3)]),
        ("京都", vec![entry(4, 40, 4, 4)]),
    ]);
    let found = d.prefix("東京都").unwrap();
    assert_eq!(
        found,
        vec![(3, entry(3, 30, 3, 3)), (6, entry(1, 10, 1, 1)), (6, entry(2, 20, 2, 2))]
    );
    assert_eq!(d.prefix("都").unwrap(), vec![]);
}

#[test]
fn prefix_agrees_with_find_surface() {
    let d = dictionary(&[
        ("ab", vec![entry(1, 1, 1, 1)]),
        ("a", vec![entry(2, 2, 2, 2)]),
        ("abc", vec![entry(3, 3, 3, 3), entry(4, 4, 4, 4)]),
    ]);
    for s in ["a", "ab", "abc", "abcd", "b"] {
        let full: Vec<WordEntry> = d
            .prefix(s)
            .unwrap()
            .into_iter()
            .filter(|(n, _)| *n == s.len())
            .map(|(_, e)| e)
            .collect();
        assert_eq!(d.find_surface(s).unwrap(), full);
    }
}

#[test]
fn run_outside_values_is_an_error() {
    let keyset = vec![("a".as_bytes(), (5u32 << 5) | 1)];
    let da = yada::builder::DoubleArrayBuilder::build(&keyset).unwrap();
    let d = PrefixDictionary::load(da, entry(1, 1, 1, 1).serialize(), Vec::new(), Vec::new()).unwrap();
    assert_eq!(d.find_surface("a"), Err(DictionaryError::LookupBounds));
    assert_eq!(d.prefix("ab"), Err(DictionaryError::LookupBounds));
    assert_eq!(d.prefix("b"), Ok(vec![]));
}

#[test]
fn nul_bytes_are_detected() {
    assert!(contains_nul(b"ab\0"));
    assert!(!contains_nul(b"abc"));
    assert!(!contains_nul(b""));
}

#[test]
fn connection_matrix_cells() {
    // 2 rows, 3 columns, cells 0..5 with cell (1, 2) negative.
    let mut data = vec![2, 0, 3, 0];
    for c in [0i16, 1, 2, 3, 4, -5] {
        data.extend(c.to_le_bytes());
    }
    let m = ConnectionCostMatrix::load(data).unwrap();
    assert_eq!(m.cost(0, 0), 0);
    assert_eq!(m.cost(0, 2), 2);
    assert_eq!(m.cost(1, 0), 3);
    assert_eq!(m.cost(1, 2), -5);
}

#[test]
fn connection_matrix_truncated() {
    assert_eq!(ConnectionCostMatrix::load(vec![1, 0]).err(), Some(DictionaryError::Format));
    assert_eq!(
        ConnectionCostMatrix::load(vec![2, 0, 2, 0, 0, 0, 0, 0]).err(),
        Some(DictionaryError::Format)
    );
}

#[test]
fn character_categories() {
    let cats = vec![
        CategoryData { invoke: false, group: true },
        CategoryData { invoke: true, group: true },
        CategoryData { invoke: false, group: false },
    ];
    let ranges = vec![
        CodeRange { low: 0x30, high: 0x39, categories: vec![1] },
        CodeRange { low: 0x30, high: 0x7a, categories: vec![2, 0] },
    ];
    let d = CharacterDefinition::new(cats, ranges, vec![0]).unwrap();
    assert_eq!(d.lookup_categories('5' as u32), &vec![1]);
    assert_eq!(d.lookup_categories('a' as u32), &vec![2, 0]);
    assert_eq!(d.lookup_categories('あ' as u32), &vec![0]);
    assert!(d.invokes(1));
    assert!(!d.groups(2));
}

#[test]
fn character_definition_rejects_bad_ids() {
    let cats = vec![CategoryData { invoke: false, group: true }];
    let bad_range = vec![CodeRange { low: 0, high: 9, categories: vec![1] }];
    assert!(CharacterDefinition::new(cats.clone(), bad_range, vec![0]).is_err());
    assert!(CharacterDefinition::new(cats.clone(), Vec::new(), Vec::new()).is_err());
    let empty_range = vec![CodeRange { low: 0, high: 9, categories: vec![] }];
    assert!(CharacterDefinition::new(cats, empty_range, vec![0]).is_err());
}

#[test]
fn code_points_from_utf8() {
    let s = "aé検😀";
    let b = s.as_bytes();
    assert_eq!(code_point_at(b, 0), 'a' as u32);
    assert_eq!(code_point_at(b, 1), 'é' as u32);
    assert_eq!(code_point_at(b, 3), '検' as u32);
    assert_eq!(code_point_at(b, 6), '😀' as u32);
    assert_eq!(code_point_at(&[0xe6, 0x41], 0), 0xe6);
}

#[test]
fn prefix_stops_at_nul() {
    let d = dictionary(&[("東", vec![entry(3, 30, 3, 3)]), ("東京", vec![entry(1, 10, 1, 1)])]);
    assert_eq!(d.prefix("東\0京").unwrap(), vec![(3, entry(3, 30, 3, 3))]);
    assert_eq!(d.prefix("\0東").unwrap(), vec![]);
}

#[test]
fn first_nul_offsets() {
    assert_eq!(first_nul(b"ab\0c\0"), 2);
    assert_eq!(first_nul(b"abc"), 3);
    assert_eq!(first_nul(b""), 0);
}

#[test]
fn malformed_tries_are_rejected() {
    let load = |da: Vec<u8>| PrefixDictionary::load(da, Vec::new(), Vec::new(), Vec::new()).err();
    assert_eq!(load(vec![]), Some(DictionaryError::Format));
    assert_eq!(load(vec![0, 0, 0]), Some(DictionaryError::Format));
    // a root unit that is a leaf
    assert_eq!(load(vec![0, 0, 0, 0x80]), Some(DictionaryError::Format));
    // a root whose children would lie past the single unit
    assert_eq!(load(vec![0, 0, 0, 0]), Some(DictionaryError::Format));
}

#[test]
fn empty_surface_names_no_word() {
    let keyset = vec![("".as_bytes(), 1u32), ("a".as_bytes(), (1u32 << 5) | 1)];
    let da = yada::builder::DoubleArrayBuilder::build(&keyset).unwrap();
    let mut vals = entry(1, 1, 1, 1).serialize();
    vals.extend(entry(2, 2, 2, 2).serialize());
    let d = PrefixDictionary::load(da, vals, Vec::new(), Vec::new()).unwrap();
    assert_eq!(d.find_surface("").unwrap(), vec![]);
    assert_eq!(d.find_surface("a").unwrap(), vec![entry(2, 2, 2, 2)]);
    assert_eq!(d.prefix("").unwrap(), vec![]);
}
