use chewing::dictionary::string_table::StringTable;
use chewing::dictionary::LookupStrategy;
use chewing::user::dict::UserDict;
use chewing::zhuyin::Syllable;

// Bopomofo components, by their index in the packed syllable.
const SH: u8 = 17;
const C: u8 = 20;
const E: u8 = 3;
const TONE4: u8 = 4;

fn syl(initial: u8, medial: u8, rime: u8, tone: u8) -> Syllable {
    Syllable::from_parts(initial, medial, rime, tone)
}

#[test]
fn insert_then_lookup() {
    let mut dict = UserDict::new(StringTable::new());
    let ce = [syl(C, 0, E, TONE4)];
    dict.insert(&ce, "測");
    dict.insert(&ce, "策");
    dict.insert(&ce, "測");
    let found = dict.lookup(&ce, LookupStrategy::Standard);
    assert_eq!(2, found.len());
    assert_eq!("測", dict.get_text(found[0].0).unwrap());
    assert_eq!(10, found[0].1);
    assert_eq!("策", dict.get_text(found[1].0).unwrap());
    assert!(dict
        .lookup(&[syl(SH, 0, 0, TONE4)], LookupStrategy::Standard)
        .is_empty());
}

#[test]
fn boost_and_deboost_stay_in_range() {
    let mut dict = UserDict::new(StringTable::new());
    let ce = [syl(C, 0, E, TONE4)];
    dict.boost(&ce, "測");
    assert_eq!(10, dict.lookup(&ce, LookupStrategy::Standard)[0].1);
    dict.boost(&ce, "測");
    assert_eq!(UserDict::MAX, dict.lookup(&ce, LookupStrategy::Standard)[0].1);
    dict.boost(&ce, "測");
    assert_eq!(UserDict::MAX, dict.lookup(&ce, LookupStrategy::Standard)[0].1);
    dict.deboost(&ce, "測");
    assert_eq!(90, dict.lookup(&ce, LookupStrategy::Standard)[0].1);
    dict.deboost(&ce, "策");
    assert_eq!(-10, dict.lookup(&ce, LookupStrategy::Standard)[1].1);
    for _ in 0..20 {
        dict.deboost(&ce, "策");
    }
    assert_eq!(UserDict::MIN, dict.lookup(&ce, LookupStrategy::Standard)[1].1);
}

#[test]
fn remove_word() {
    let mut dict = UserDict::new(StringTable::new());
    let ce = [syl(C, 0, E, TONE4)];
    dict.insert(&ce, "測");
    dict.insert(&ce, "策");
    dict.remove(&ce, "測");
    let found = dict.lookup(&ce, LookupStrategy::Standard);
    assert_eq!(1, found.len());
    assert_eq!("策", dict.get_text(found[0].0).unwrap());
    dict.remove(&[syl(SH, 0, 0, TONE4)], "是");
    assert_eq!(1, dict.entries().len());
}

#[test]
fn fuzzy_lookup_gives_longer_phrases_in_order() {
    let mut dict = UserDict::new(StringTable::new());
    let ce = syl(C, 0, E, TONE4);
    let sh = syl(SH, 0, 0, TONE4);
    dict.insert(&[ce, sh], "測試");
    dict.insert(&[sh], "是");
    dict.insert(&[ce], "測");
    dict.insert(&[ce, ce], "測測");
    let found = dict.lookup(&[ce], LookupStrategy::FuzzyPartialPrefix);
    let texts: Vec<String> = found
        .iter()
        .map(|(w, _)| dict.get_text(*w).unwrap())
        .collect();
    assert_eq!(vec!["測", "測試", "測測"], texts);
}

#[test]
fn entries_in_phrase_order() {
    let mut dict = UserDict::new(StringTable::new());
    let ce = syl(C, 0, E, TONE4);
    let sh = syl(SH, 0, 0, TONE4);
    dict.insert(&[ce], "測");
    dict.insert(&[sh], "是");
    dict.insert(&[sh], "事");
    let entries = dict.entries();
    assert_eq!(
        vec![
            (vec![sh], "是".to_string()),
            (vec![sh], "事".to_string()),
            (vec![ce], "測".to_string()),
        ],
        entries
    );
}
