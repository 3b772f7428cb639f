use chewing::dictionary::LookupStrategy;
use chewing::lm::static_dict::{StaticDict, StaticDictBuilder, StaticDictError};
use chewing::model::WordId;
use chewing::zhuyin::Syllable;

// Bopomofo components, by their index in the packed syllable.
const SH: u8 = 17;
const C: u8 = 20;
const I: u8 = 1;
const E: u8 = 3;
const AN: u8 = 9;
const TONE4: u8 = 4;

fn syl(initial: u8, medial: u8, rime: u8, tone: u8) -> Syllable {
    Syllable::from_parts(initial, medial, rime, tone)
}

#[test]
fn build() {
    let mut builder = StaticDictBuilder::new();

    builder.insert(&[syl(C, 0, E, TONE4)], WordId(1));
    builder.insert(&[syl(SH, 0, 0, TONE4)], WordId(2));
    builder.insert(&[syl(C, 0, E, TONE4), syl(SH, 0, 0, TONE4)], WordId(3));
    builder.insert(&[syl(C, 0, E, TONE4), syl(0, I, AN, TONE4)], WordId(4));

    let buf = builder.to_bytes();

    assert_eq!(
        &[
            67, 72, 83, 68, 0, 0, 0, 0, 0, 72, 1, 0, 0, 0, 2, 0, 0, 0, 3, 0, 0, 0, 1, 0, 4, 34, 4,
            0, 0, 0, 3, 0, 28, 40, 0, 0, 0, 0, 3, 0, 0, 0, 3, 0, 0, 0, 3, 0, 0, 0, 7, 0, 0, 0, 1,
            0, 204, 0, 8, 0, 0, 0, 1, 0, 4, 34, 6, 0, 0, 0, 3, 0, 0, 0, 9, 0, 0, 0, 3, 0, 0, 0, 12,
            2, 0, 0, 1, 0, 0, 4, 0, 0, 3, 0, 0
        ],
        buf.as_slice()
    );
}

#[test]
fn read() {
    let mut builder = StaticDictBuilder::new();

    let entries = [
        (vec![syl(C, 0, E, TONE4)], WordId(1)),
        (vec![syl(SH, 0, 0, TONE4)], WordId(2)),
        (vec![syl(C, 0, E, TONE4), syl(SH, 0, 0, TONE4)], WordId(3)),
        (vec![syl(C, 0, E, TONE4), syl(0, I, AN, TONE4)], WordId(4)),
        (vec![syl(C, 0, E, TONE4), syl(0, I, AN, TONE4)], WordId(5)),
    ];

    for (syllables, wid) in &entries {
        builder.insert(syllables, *wid);
    }

    let buf = builder.to_bytes();

    let dict = StaticDict::from_bytes(buf.as_slice()).unwrap();

    assert_eq!(
        dict.lookup(&[syl(C, 0, E, TONE4)], LookupStrategy::Standard),
        vec![WordId(1)],
    );
    assert_eq!(
        dict.lookup(&[syl(SH, 0, 0, TONE4)], LookupStrategy::Standard),
        vec![WordId(2)],
    );
    assert_eq!(
        dict.lookup(
            &[syl(C, 0, E, TONE4), syl(SH, 0, 0, TONE4)],
            LookupStrategy::Standard
        ),
        vec![WordId(3)],
    );
    assert_eq!(
        dict.lookup(
            &[syl(C, 0, E, TONE4), syl(0, I, AN, TONE4)],
            LookupStrategy::Standard
        ),
        vec![WordId(4), WordId(5)],
    );
}

#[test]
fn build_then_lookup() {
    let mut builder = StaticDictBuilder::new();
    builder.insert(&[syl(C, 0, E, TONE4)], WordId(7));
    builder.insert(&[syl(C, 0, E, TONE4)], WordId(7));
    builder.insert(&[syl(C, 0, E, TONE4)], WordId(8));
    builder.insert(&[], WordId(9));
    let dict = builder.build();
    assert_eq!(
        vec![WordId(7), WordId(8)],
        dict.lookup(&[syl(C, 0, E, TONE4)], LookupStrategy::Standard)
    );
    assert_eq!(vec![WordId(9)], dict.lookup(&[], LookupStrategy::Standard));
    assert_eq!(
        Vec::<WordId>::new(),
        dict.lookup(&[syl(SH, 0, 0, TONE4)], LookupStrategy::Standard)
    );
    assert_eq!(
        Vec::<WordId>::new(),
        dict.lookup(
            &[syl(C, 0, E, TONE4), syl(SH, 0, 0, TONE4)],
            LookupStrategy::Standard
        )
    );
}

#[test]
fn fuzzy_lookup_matches_partial_syllables() {
    let mut builder = StaticDictBuilder::new();
    builder.insert(&[syl(C, 0, E, TONE4)], WordId(1));
    builder.insert(&[syl(C, 0, 0, TONE4)], WordId(2));
    builder.insert(&[syl(SH, 0, 0, TONE4)], WordId(3));
    let dict = builder.build();
    let partial = syl(C, 0, 0, 0);
    assert_eq!(
        vec![WordId(2), WordId(1)],
        dict.lookup(&[partial], LookupStrategy::FuzzyPartialPrefix)
    );
    assert_eq!(
        Vec::<WordId>::new(),
        dict.lookup(&[partial], LookupStrategy::Standard)
    );
}

#[test]
fn empty_dictionary() {
    let dict = StaticDict::new();
    assert_eq!(
        Vec::<WordId>::new(),
        dict.lookup(&[syl(C, 0, E, TONE4)], LookupStrategy::Standard)
    );
    let dict = StaticDictBuilder::new().build();
    assert_eq!(
        Vec::<WordId>::new(),
        dict.lookup(&[syl(C, 0, E, TONE4)], LookupStrategy::Standard)
    );
}

#[test]
fn dict_file_errors() {
    assert_eq!(
        StaticDictError::InvalidHeader,
        StaticDict::from_bytes(b"CHSW\x00\x00\x00\x00\x00\x00\x00").unwrap_err()
    );
    assert_eq!(
        StaticDictError::UnknownVersion,
        StaticDict::from_bytes(b"CHSD\x01").unwrap_err()
    );
    assert_eq!(
        StaticDictError::UnknownFlags,
        StaticDict::from_bytes(b"CHSD\x00\x02\x00\x00\x00").unwrap_err()
    );
    assert!(StaticDict::from_bytes(b"CHSD\x00\x00\x00\x00\x00\x05").is_err());
}

#[test]
fn corrupt_index_gives_nothing() {
    // A root whose children lie past the end of the index.
    let bytes = b"CHSD\x00\x00\x00\x00\x00\x08\x05\x00\x00\x00\x01\x00\x00\x00\x00";
    let dict = StaticDict::from_bytes(bytes).unwrap();
    assert_eq!(
        Vec::<WordId>::new(),
        dict.lookup(&[syl(C, 0, E, TONE4)], LookupStrategy::Standard)
    );
}

#[test]
fn system_dictionary_big_endian() {
    // Root with one child (syllable 0x281c), whose leaf holds word 0x01020304.
    let index: Vec<u8> = vec![
        0, 0, 0, 1, 0, 1, 0, 0, // root: child at 1, one child
        0, 0, 0, 2, 0, 1, 0x28, 0x1c, // ㄘㄜˋ: child at 2, one child
        0, 0, 0, 0, 0, 4, 0, 0, // leaf: words 0..4
    ];
    let words: Vec<u8> = vec![4, 3, 2, 1];
    let mut file = b"CHSD\x00\x00\x00\x00\x00".to_vec();
    file.push(index.len() as u8);
    file.extend_from_slice(&index);
    file.push(words.len() as u8);
    file.extend_from_slice(&words);
    let dict = chewing::sys::static_dict::StaticDict::from_bytes(&file).unwrap();
    assert_eq!(
        vec![WordId(0x01020304)],
        dict.lookup(&[syl(C, 0, E, TONE4)], LookupStrategy::Standard)
    );
    assert_eq!(
        Vec::<WordId>::new(),
        dict.lookup(&[syl(SH, 0, 0, TONE4)], LookupStrategy::Standard)
    );
}

#[test]
fn fitting_builder_looks_up_exactly_what_was_inserted() {
    let mut b = StaticDictBuilder::new();
    assert!(b.fits());
    b.insert(&[syl(C, 0, E, TONE4)], WordId(1));
    b.insert(&[syl(SH, 0, 0, TONE4)], WordId(2));
    b.insert(&[syl(C, 0, E, TONE4), syl(SH, 0, 0, TONE4)], WordId(3));
    b.insert(&[syl(C, 0, E, TONE4), syl(0, I, AN, TONE4)], WordId(4));
    b.insert(&[syl(C, 0, E, TONE4), syl(0, I, AN, TONE4)], WordId(5));
    b.insert(&[syl(C, 0, E, TONE4), syl(0, I, AN, TONE4)], WordId(4));
    assert!(b.fits());
    let d = b.build();
    assert_eq!(vec![WordId(1)], d.lookup(&[syl(C, 0, E, TONE4)], LookupStrategy::Standard));
    assert_eq!(vec![WordId(2)], d.lookup(&[syl(SH, 0, 0, TONE4)], LookupStrategy::Standard));
    assert_eq!(
        vec![WordId(4), WordId(5)],
        d.lookup(&[syl(C, 0, E, TONE4), syl(0, I, AN, TONE4)], LookupStrategy::Standard)
    );
    assert!(d.lookup(&[syl(0, I, AN, TONE4)], LookupStrategy::Standard).is_empty());
}

#[test]
fn builder_with_a_wide_word_id_does_not_fit() {
    let mut b = StaticDictBuilder::new();
    b.insert(&[syl(C, 0, E, TONE4)], WordId(0x0100_0000));
    assert!(!b.fits());
}
