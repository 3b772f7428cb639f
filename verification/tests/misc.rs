use chewing::dictionary::chd::{fnv1a_64, Chd};
use chewing::dictionary::loader::AssetLoader;
use chewing::dictionary::phrase::Phrase;
use chewing::dictionary::LookupStrategy;
use chewing::model::{WordId, WordOrig};
use chewing::path::SearchPath;
use chewing::user::history_freq::{true_count, HistoryFreq};
use chewing::user::migrate::should_migrate_v3;
use chewing::zhuyin::Syllable;

#[test]
fn word_id_origin() {
    assert_eq!(WordOrig::Static, WordId(5).orig());
    assert_eq!(WordOrig::User, WordId(0x0100_0005).orig());
    assert_eq!(WordOrig::Unknown, WordId(0x0200_0000).orig());
    assert_eq!(5, WordId(0x0100_0005).as_offset());
    assert_eq!(WordId(3), WordId::from(3));
}

#[test]
fn syllable_packing() {
    let s = Syllable::from_parts(20, 0, 3, 4);
    assert_eq!(0x281c, s.to_u16());
    assert_eq!(Some(s), Syllable::try_from_u16(0x281c));
    assert_eq!(None, Syllable::try_from_u16(22 * 512));
    assert!(Syllable::new().is_empty());
    assert!(s.starts_with(Syllable::from_parts(20, 0, 0, 0)));
    assert!(!s.starts_with(Syllable::from_parts(17, 0, 0, 0)));
    assert!(s.starts_with(Syllable::new()));
}

#[test]
fn phrase_accessors() {
    let p = Phrase::new("新", 1);
    assert_eq!("新", p.as_str());
    assert_eq!(1, p.freq());
    assert_eq!(None, p.last_used());
    assert_eq!("新", p.to_string());
}

#[test]
fn search_path_from_parts() {
    let sp = SearchPath::from_system_path_and_user_path("/usr/share/chewing:/opt/dict", "/home/u/.chewing", ':');
    assert_eq!(Some("/home/u/.chewing"), sp.user_datadir());
    assert_eq!(
        &vec![
            "/home/u/.chewing".to_string(),
            "/usr/share/chewing".to_string(),
            "/opt/dict".to_string()
        ],
        sp.paths()
    );
    let sp = SearchPath::from_system_path_and_env("a::b", None, ':');
    assert_eq!(None, sp.user_datadir());
    assert_eq!(
        &vec!["a".to_string(), "".to_string(), "b".to_string()],
        sp.paths()
    );
    let sp = SearchPath::from_system_path_and_env("", Some("u".to_string()), ':');
    assert_eq!(&vec!["u".to_string(), "".to_string()], sp.paths());
}

#[test]
fn asset_loader_search_path() {
    let l = AssetLoader::new();
    assert_eq!("env", l.effective_search_path("env".to_string()));
    let l = AssetLoader::new().search_path("/data".to_string());
    assert_eq!("/data", l.effective_search_path("env".to_string()));
}

#[test]
fn migration_needed_only_from_v3() {
    assert!(should_migrate_v3(true, false));
    assert!(!should_migrate_v3(true, true));
    assert!(!should_migrate_v3(false, false));
}

#[test]
fn history_count_decays() {
    assert_eq!(100, true_count(50_000, 10, 100, 10));
    assert_eq!(50, true_count(50_000, 50_010, 100, 10));
    assert_eq!(75, true_count(50_000, 25_010, 100, 10));
    assert_eq!(25, true_count(50_000, 100_010, 100, 10));
    let _ = HistoryFreq::new();
}

#[test]
fn perfect_hash_over_words() {
    let keys: Vec<String> = ["甲", "乙", "丙", "丁", "戊"].iter().map(|s| s.to_string()).collect();
    let chd = Chd::build(&keys, 4).unwrap();
    let mut slots: Vec<usize> = keys.iter().map(|k| chd.lookup(k)).collect();
    slots.sort();
    assert_eq!(vec![0, 1, 2, 3, 4], slots);
    let (a, b) = fnv1a_64(b"abc", 0);
    let (c, d) = fnv1a_64(b"abc", 0);
    assert_eq!((a, b), (c, d));
    assert!(Chd::new().is_empty());
}

#[test]
fn lookup_strategy_default() {
    assert_eq!(LookupStrategy::Standard, LookupStrategy::default());
}
