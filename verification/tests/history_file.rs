use chewing::bare::BareError;
use chewing::user::history_file::{
    encode_history, parse_history_file, HistoryBigram, HistoryError, HistoryFile, HistoryUnigram,
};
use chewing::zhuyin::Syllable;

fn sample() -> HistoryFile {
    let ce = Syllable::from_parts(20, 0, 3, 4).to_u16();
    let sh = Syllable::from_parts(17, 0, 0, 4).to_u16();
    HistoryFile {
        half_life: 50_000,
        generation: 7,
        unigram_total_bits: 3.5f64.to_bits(),
        unigram_total_last_gen: 6,
        words: vec!["測".to_string(), "測試".to_string()],
        unigrams: vec![
            HistoryUnigram {
                syllables: vec![ce],
                word: 0,
                count_bits: 1.0f32.to_bits(),
                last_gen: 5,
            },
            HistoryUnigram {
                syllables: vec![ce, sh],
                word: 1,
                count_bits: 2.5f32.to_bits(),
                last_gen: 7,
            },
        ],
        bigrams: vec![HistoryBigram {
            prev: 0,
            word: 1,
            count_bits: 1.0f32.to_bits(),
            last_gen: 7,
        }],
    }
}

#[test]
fn history_file_reads_back_as_written() {
    let file = sample();
    let bytes = encode_history(&file);
    assert_eq!(b"CHHD", &bytes[0..4]);
    assert_eq!(Ok(file), parse_history_file(&bytes));
}

#[test]
fn empty_history_file_layout() {
    let file = HistoryFile {
        half_life: 1,
        generation: 2,
        unigram_total_bits: 0,
        unigram_total_last_gen: 3,
        words: vec![],
        unigrams: vec![],
        bigrams: vec![],
    };
    let bytes = encode_history(&file);
    let mut expected = vec![0x43, 0x48, 0x48, 0x44, 0, 0, 0, 0, 0, 1, 0, 0, 0];
    expected.extend_from_slice(&2u64.to_le_bytes());
    expected.extend_from_slice(&0u64.to_le_bytes());
    expected.extend_from_slice(&3u64.to_le_bytes());
    expected.extend_from_slice(&[0, 0, 0]);
    assert_eq!(expected, bytes);
    assert_eq!(Ok(file), parse_history_file(&bytes));
}

#[test]
fn history_file_errors() {
    let bytes = encode_history(&sample());
    assert_eq!(Err(HistoryError::Bare(BareError::UnexpectedEof)), parse_history_file(b"CHH"));
    assert_eq!(Err(HistoryError::InvalidHeader), parse_history_file(b"CHHX\0\0\0\0\0"));
    let mut v = bytes.clone();
    v[4] = 1;
    assert_eq!(Err(HistoryError::UnknownVersion), parse_history_file(&v));
    let mut v = bytes.clone();
    v[5] = 1;
    assert_eq!(Err(HistoryError::UnknownFlags), parse_history_file(&v));
    assert_eq!(
        Err(HistoryError::Bare(BareError::UnexpectedEof)),
        parse_history_file(&bytes[..bytes.len() - 1])
    );

    let mut too_long = sample();
    too_long.unigrams[0].syllables = vec![too_long.unigrams[0].syllables[0]; 12];
    assert_eq!(
        Err(HistoryError::SyllablesTooLong),
        parse_history_file(&encode_history(&too_long))
    );
    let mut bad_syllable = sample();
    bad_syllable.unigrams[0].syllables = vec![0xFFFF];
    assert_eq!(
        Err(HistoryError::InvalidSyllable),
        parse_history_file(&encode_history(&bad_syllable))
    );
    // The first word's data: length 3, then the bytes of "測"; make them invalid UTF-8.
    let mut v = bytes.clone();
    let at = 4 + 1 + 4 + 4 + 8 + 8 + 8 + 1 + 1;
    v[at] = 0xFF;
    assert_eq!(Err(HistoryError::InvalidWord), parse_history_file(&v));
}
