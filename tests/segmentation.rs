use lindera_dict::character::{CategoryData, CharacterDefinition, CodeRange, UnknownDictionary};
use lindera_dict::connection::ConnectionCostMatrix;
use lindera_dict::error::DictionaryError;
use lindera_dict::prefix_dictionary::PrefixDictionary;
use lindera_dict::tokenizer::{assemble, load, Dictionary, Mode, Tokenizer};
use lindera_dict::viterbi::{best_path, total_cost, Edge, Token};
use lindera_dict::word_entry::{WordEntry, WordId};

fn entry(id: u32, is_system: bool, cost: i16, left: u16, right: u16) -> WordEntry {
    WordEntry {
        word_id: WordId { id, is_system },
        word_cost: cost,
        left_id: left,
        right_id: right,
    }
}

fn prefix_dictionary(words: &[(&str, Vec<WordEntry>)], is_system: bool) -> PrefixDictionary {
    let mut sorted: Vec<(&str, Vec<WordEntry>)> = words.to_vec();
    sorted.sort_by(|a, b| a.0.as_bytes().cmp(b.0.as_bytes()));
    let mut vals = Vec::new();
    let mut keyset = Vec::new();
    let mut offset = 0u32;
    for (key, entries) in &sorted {
        for e in entries {
            vals.extend(e.serialize());
        }
        keyset.push((key.as_bytes(), (offset << 5) | entries.len() as u32));
        offset += entries.len() as u32;
    }
    let da = yada::builder::DoubleArrayBuilder::build(&keyset).unwrap();
    let mut d = PrefixDictionary::load(da, vals, Vec::new(), Vec::new()).unwrap();
    d.is_system = is_system;
    d
}

/// A 4 x 4 matrix, zero but for the given cells.
fn matrix(cells: &[(usize, usize, i16)]) -> ConnectionCostMatrix {
    let mut costs = [0i16; 16];
    for &(f, b, c) in cells {
        costs[f * 4 + b] = c;
    }
    let mut data = vec![4, 0, 4, 0];
    for c in costs {
        data.extend(c.to_le_bytes());
    }
    ConnectionCostMatrix::load(data).unwrap()
}

/// Category 0 (default): one character at a time, cost 1000.
/// Category 1 (ASCII digits): grouped and invoked, cost 500.
fn characters() -> (CharacterDefinition, UnknownDictionary) {
    let cats = vec![
        CategoryData { invoke: false, group: false },
        CategoryData { invoke: true, group: true },
    ];
    let ranges = vec![CodeRange { low: '0' as u32, high: '9' as u32, categories: vec![1] }];
    let cd = CharacterDefinition::new(cats, ranges, vec![0]).unwrap();
    let ud = UnknownDictionary {
        entries: vec![vec![entry(900, true, 1000, 0, 0)], vec![entry(901, true, 500, 0, 0)]],
    };
    (cd, ud)
}

fn search_engine_dictionary() -> Dictionary {
    let system = prefix_dictionary(
        &[
            ("検索", vec![entry(1, true, 100, 1, 2)]),
            ("エンジン", vec![entry(2, true, 150, 2, 3)]),
        ],
        true,
    );
    let (cd, ud) = characters();
    load(system, matrix(&[(0, 1, 0), (2, 2, 10), (3, 0, 0)]), cd, ud).unwrap()
}

fn surfaces<'a>(text: &'a str, tokens: &[Token]) -> Vec<&'a str> {
    tokens.iter().map(|t| &text[t.start..t.end]).collect()
}

#[test]
fn empty_text_gives_no_tokens() {
    let t = Tokenizer::new(Mode::Normal, search_engine_dictionary(), None);
    assert_eq!(t.tokenize("").unwrap(), vec![]);
}

#[test]
fn search_engine_splits_in_two() {
    let t = Tokenizer::new(Mode::Normal, search_engine_dictionary(), None);
    let text = "検索エンジン";
    let tokens = t.tokenize(text).unwrap();
    assert_eq!(surfaces(text, &tokens), vec!["検索", "エンジン"]);
    assert_eq!(tokens[0].entry.word_id.id, 1);
    assert_eq!(tokens[1].entry.word_id.id, 2);
    assert_eq!((tokens[0].start, tokens[0].end, tokens[1].end), (0, 6, 18));
}

#[test]
fn user_entry_wins_a_tie() {
    let user = prefix_dictionary(&[("検索", vec![entry(7, false, 100, 1, 2)])], false);
    let t = Tokenizer::new(Mode::Normal, search_engine_dictionary(), Some(user));
    let text = "検索エンジン";
    let tokens = t.tokenize(text).unwrap();
    assert_eq!(surfaces(text, &tokens), vec!["検索", "エンジン"]);
    assert_eq!(tokens[0].entry.word_id, WordId { id: 7, is_system: false });
}

#[test]
fn unknown_text_is_covered() {
    let t = Tokenizer::new(Mode::Normal, search_engine_dictionary(), None);
    let text = "あい2024年";
    let tokens = t.tokenize(text).unwrap();
    assert_eq!(surfaces(text, &tokens), vec!["あ", "い", "2024", "年"]);
    let mut at = 0;
    for tok in &tokens {
        assert_eq!(tok.start, at);
        assert!(tok.end > tok.start);
        at = tok.end;
    }
    assert_eq!(at, text.len());
    assert_eq!(tokens[2].entry.word_id.id, 901);
}

#[test]
fn dictionary_words_beside_unknown_text() {
    let t = Tokenizer::new(Mode::Normal, search_engine_dictionary(), None);
    let text = "x検索";
    let tokens = t.tokenize(text).unwrap();
    assert_eq!(surfaces(text, &tokens), vec!["x", "検索"]);
}

#[test]
fn same_text_same_tokens() {
    let t = Tokenizer::new(Mode::Normal, search_engine_dictionary(), None);
    let text = "検索エンジン12a";
    assert_eq!(t.tokenize(text).unwrap(), t.tokenize(text).unwrap());
}

#[test]
fn record_with_bad_context_is_reported() {
    let system = prefix_dictionary(&[("検", vec![entry(1, true, 1, 9, 0)])], true);
    let (cd, ud) = characters();
    let d = load(system, matrix(&[]), cd, ud).unwrap();
    let t = Tokenizer::new(Mode::Normal, d, None);
    assert_eq!(t.tokenize("検索"), Err(DictionaryError::LookupBounds));
    assert!(t.tokenize("索").is_ok());
}

#[test]
fn category_without_fallback_is_rejected() {
    let (cd, _) = characters();
    let ud = UnknownDictionary { entries: vec![vec![entry(900, true, 1000, 0, 0)], vec![]] };
    let system = prefix_dictionary(&[("検", vec![entry(1, true, 1, 0, 0)])], true);
    let r = load(system, matrix(&[]), cd, ud);
    assert_eq!(r.err(), Some(DictionaryError::Format));
}

#[test]
fn search_engine_path_cost() {
    let d = search_engine_dictionary();
    let t = Tokenizer::new(Mode::Normal, d.clone(), None);
    let text = "検索エンジン";
    let tokens = t.tokenize(text).unwrap();
    let m = &d.connection_cost_matrix;
    assert_eq!(total_cost(m, &tokens), Some(100 + 10 + 150));
    let unknown = entry(900, true, 1000, 0, 0);
    let singles: Vec<Token> = text
        .char_indices()
        .map(|(i, c)| Token { start: i, end: i + c.len_utf8(), entry: unknown })
        .collect();
    assert_eq!(total_cost(m, &singles), Some(6000));
}

#[test]
fn total_cost_rejects_foreign_context() {
    let d = search_engine_dictionary();
    let bad = vec![Token { start: 0, end: 1, entry: entry(1, true, 0, 9, 0) }];
    assert_eq!(total_cost(&d.connection_cost_matrix, &bad), None);
    assert_eq!(total_cost(&d.connection_cost_matrix, &vec![]), Some(0));
}

#[test]
fn best_path_prefers_cheaper_and_earlier() {
    let m = matrix(&[(0, 1, 5)]);
    let a = entry(1, true, 10, 0, 0);
    let b = entry(2, true, 10, 0, 0);
    let c = entry(3, true, 30, 0, 0);
    let dear = entry(4, true, 10, 1, 0);
    // offsets 0..3: two equal one-byte words at 0, a three-byte word at 0
    // that is dearer, and one two-byte word at 1.
    let edges = vec![
        vec![Edge { len: 1, entry: a }, Edge { len: 1, entry: b }, Edge { len: 3, entry: c }],
        vec![Edge { len: 2, entry: a }, Edge { len: 2, entry: dear }],
        vec![],
        vec![],
    ];
    let path = best_path(&edges, 3, &m).unwrap();
    assert_eq!(
        path,
        vec![Token { start: 0, end: 1, entry: a }, Token { start: 1, end: 3, entry: a }]
    );
    assert_eq!(total_cost(&m, &path), Some(20));
}

#[test]
fn best_path_without_route() {
    let m = matrix(&[]);
    let a = entry(1, true, 10, 0, 0);
    let edges = vec![vec![Edge { len: 1, entry: a }], vec![], vec![]];
    assert_eq!(best_path(&edges, 2, &m), None);
    let empty: Vec<Vec<Edge>> = vec![vec![]];
    assert_eq!(best_path(&empty, 0, &m), Some(vec![]));
}

#[test]
fn word_details_from_each_dictionary() {
    let mut system = prefix_dictionary(&[("検索", vec![entry(1, true, 100, 1, 2)])], true);
    let first = bincode::serialize(&vec!["名詞".to_string(), "ケンサク".to_string()]).unwrap();
    let second = bincode::serialize(&vec!["動詞".to_string()]).unwrap();
    let mut words = first.clone();
    words.extend(&second);
    system.words_data = words;
    let mut idx = 0u32.to_le_bytes().to_vec();
    idx.extend((first.len() as u32).to_le_bytes());
    system.words_idx_data = idx;
    let (cd, ud) = characters();
    let d = load(system, matrix(&[]), cd, ud).unwrap();
    assert_eq!(d.prefix_dictionary.word_details(0).unwrap(), vec!["名詞", "ケンサク"]);
    assert_eq!(d.prefix_dictionary.word_details(1).unwrap(), vec!["動詞"]);
    assert_eq!(d.prefix_dictionary.word_details(2), Err(DictionaryError::LookupBounds));

    let mut user = prefix_dictionary(&[("検索", vec![entry(0, false, 100, 1, 2)])], false);
    user.words_data = bincode::serialize(&vec!["固有名詞".to_string()]).unwrap();
    user.words_idx_data = 0u32.to_le_bytes().to_vec();
    let t = Tokenizer::new(Mode::Normal, d.clone(), Some(user));
    let tokens = t.tokenize("検索").unwrap();
    assert_eq!(t.word_details(&tokens[0]).unwrap(), vec!["固有名詞"]);
    let system_token = Token { start: 0, end: 6, entry: entry(1, true, 100, 1, 2) };
    assert_eq!(t.word_details(&system_token).unwrap(), vec!["動詞"]);
    let alone = Tokenizer::new(Mode::Normal, d, None);
    assert_eq!(alone.word_details(&tokens[0]), Err(DictionaryError::LookupBounds));
}

#[test]
fn word_details_reject_garbage() {
    let mut system = prefix_dictionary(&[("a", vec![entry(0, true, 1, 0, 0)])], true);
    system.words_idx_data = 0u32.to_le_bytes().to_vec();
    system.words_data = vec![200, 0, 0, 0, 0, 0, 0, 0];
    assert_eq!(system.word_details(0), Err(DictionaryError::Format));
    system.words_idx_data = 9u32.to_le_bytes().to_vec();
    assert_eq!(system.word_details(0), Err(DictionaryError::LookupBounds));
}

#[test]
fn assemble_from_buffers() {
    let system = prefix_dictionary(&[("検索", vec![entry(1, true, 100, 1, 2)])], true);
    let mut conn = vec![4, 0, 4, 0];
    conn.extend(vec![0u8; 32]);
    let (cd, ud) = characters();
    let d = assemble(system.da.clone(), system.vals_data.clone(), vec![], vec![], conn.clone(), cd, ud).unwrap();
    let t = Tokenizer::new(Mode::Normal, d, None);
    assert_eq!(t.tokenize("検索").unwrap().len(), 1);

    let (cd, ud) = characters();
    let short = conn[..20].to_vec();
    let r = assemble(system.da.clone(), system.vals_data.clone(), vec![], vec![], short, cd, ud);
    assert_eq!(r.err(), Some(DictionaryError::Format));
    let (cd, ud) = characters();
    let r = assemble(vec![0, 0, 0, 0x80], vec![], vec![], vec![], conn, cd, ud);
    assert_eq!(r.err(), Some(DictionaryError::Format));
}

#[test]
fn cheaper_system_word_beats_user_word() {
    let user = prefix_dictionary(&[("検索", vec![entry(7, false, 120, 1, 2)])], false);
    let t = Tokenizer::new(Mode::Normal, search_engine_dictionary(), Some(user));
    let tokens = t.tokenize("検索エンジン").unwrap();
    assert_eq!(tokens[0].entry.word_id, WordId { id: 1, is_system: true });
}
