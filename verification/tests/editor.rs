use chewing::conversion::{Composition, Interval, Symbol};
use chewing::dictionary::LookupStrategy;
use chewing::editor::{
    auto_commit, collect_new_phrases, converted_text_range, learn_phrase, learn_phrase_in_range,
    snapshot_picks, CharacterForm, EditorError, EditorErrorKind, EditorOptions, LanguageMode,
    LearnError, Learned, PhraseSelector,
};
use chewing::dictionary::string_table::StringTable;
use chewing::user::dict::UserDict;
use chewing::zhuyin::Syllable;

// Bopomofo components, by their index in the packed syllable.
const H: u8 = 11;
const J: u8 = 12;
const Q: u8 = 13;
const ZH: u8 = 15;
const SH: u8 = 17;
const C: u8 = 20;
const T: u8 = 6;
const I: u8 = 1;
const E: u8 = 3;
const EH: u8 = 4;
const AU: u8 = 7;
const AN: u8 = 9;
const EN: u8 = 10;
const TONE3: u8 = 3;
const TONE4: u8 = 4;

fn syl(initial: u8, medial: u8, rime: u8, tone: u8) -> Syllable {
    Syllable::from_parts(initial, medial, rime, tone)
}

#[test]
fn collect_new_phrases_with_no_break_word() {
    let intervals = [
        Interval {
            start: 0,
            end: 2,
            is_phrase: true,
            text: "今天".into(),
        },
        Interval {
            start: 2,
            end: 4,
            is_phrase: true,
            text: "天氣".into(),
        },
        Interval {
            start: 4,
            end: 6,
            is_phrase: true,
            text: "真好".into(),
        },
    ];
    let symbols = [
        Symbol::Syllable(syl(J, I, EN, 0)),
        Symbol::Syllable(syl(T, I, AN, 0)),
        Symbol::Syllable(syl(T, I, AN, 0)),
        Symbol::Syllable(syl(Q, I, 0, TONE4)),
        Symbol::Syllable(syl(ZH, 0, EN, 0)),
        Symbol::Syllable(syl(H, 0, AU, TONE3)),
    ];
    let phrases = collect_new_phrases(&intervals, &symbols);
    assert_eq!(
        vec![
            (vec![syl(J, I, EN, 0), syl(T, I, AN, 0),], "今天".to_string()),
            (vec![syl(T, I, AN, 0), syl(Q, I, 0, TONE4),], "天氣".to_string()),
            (vec![syl(ZH, 0, EN, 0), syl(H, 0, AU, TONE3),], "真好".to_string()),
        ],
        phrases
    );
}

#[test]
fn collect_new_phrases_with_break_word() {
    let intervals = [
        Interval {
            start: 0,
            end: 2,
            is_phrase: true,
            text: "今天".into(),
        },
        Interval {
            start: 2,
            end: 3,
            is_phrase: true,
            text: "也".into(),
        },
        Interval {
            start: 3,
            end: 4,
            is_phrase: true,
            text: "是".into(),
        },
        Interval {
            start: 4,
            end: 7,
            is_phrase: true,
            text: "好天氣".into(),
        },
    ];
    let symbols = [
        Symbol::Syllable(syl(J, I, EN, 0)),
        Symbol::Syllable(syl(T, I, AN, 0)),
        Symbol::Syllable(syl(0, I, EH, TONE3)),
        Symbol::Syllable(syl(SH, 0, 0, TONE4)),
        Symbol::Syllable(syl(H, 0, AU, TONE3)),
        Symbol::Syllable(syl(T, I, AN, 0)),
        Symbol::Syllable(syl(Q, I, 0, TONE4)),
    ];
    let phrases = collect_new_phrases(&intervals, &symbols);
    assert_eq!(
        vec![
            (vec![syl(J, I, EN, 0), syl(T, I, AN, 0),], "今天".to_string()),
            (
                vec![syl(H, 0, AU, TONE3), syl(T, I, AN, 0), syl(Q, I, 0, TONE4),],
                "好天氣".to_string()
            ),
            (vec![syl(0, I, EH, TONE3), syl(SH, 0, 0, TONE4)], "也是".to_string()),
        ],
        phrases
    );
}

#[test]
fn should_stop_at_left_boundary() {
    let mut com = Composition::new();
    for sym in [
        Symbol::from(syl(C, 0, E, TONE4)),
        Symbol::from(syl(C, 0, E, TONE4)),
    ] {
        com.push(sym);
    }
    let sel = PhraseSelector::new(false, LookupStrategy::Standard, com);

    assert_eq!(0, sel.after_previous_break_point(0));
    assert_eq!(0, sel.after_previous_break_point(1));
    assert_eq!(0, sel.after_previous_break_point(2));
}

#[test]
fn should_stop_after_first_non_syllable() {
    let mut com = Composition::new();
    for sym in [Symbol::from(','), Symbol::from(syl(C, 0, E, TONE4))] {
        com.push(sym);
    }
    let sel = PhraseSelector::new(false, LookupStrategy::Standard, com);

    assert_eq!(0, sel.after_previous_break_point(0));
    assert_eq!(1, sel.after_previous_break_point(1));
    assert_eq!(1, sel.after_previous_break_point(2));
}

#[test]
fn next_break_point_stops_at_symbols() {
    let mut com = Composition::new();
    for sym in [
        Symbol::from(syl(C, 0, E, TONE4)),
        Symbol::from(syl(C, 0, E, TONE4)),
        Symbol::from(','),
    ] {
        com.push(sym);
    }
    let sel = PhraseSelector::new(true, LookupStrategy::Standard, com);
    assert_eq!(0, sel.begin());
    assert_eq!(3, sel.end());
    assert_eq!(2, sel.next_break_point(0));
    assert_eq!(2, sel.next_break_point(2));
}

#[test]
fn single_word_and_interval() {
    let mut com = Composition::new();
    com.push(Symbol::from(syl(C, 0, E, TONE4)));
    com.push(Symbol::from(syl(SH, 0, 0, TONE4)));
    let mut sel = PhraseSelector::new(false, LookupStrategy::Standard, com);
    sel.init_single_word(2);
    assert_eq!(1, sel.begin());
    assert_eq!(2, sel.end());
    let iv = sel.interval("試".to_string());
    assert_eq!(1, iv.start);
    assert_eq!(2, iv.end);
    assert!(iv.is_phrase);
    assert_eq!("試", iv.text);
}

#[test]
fn editor_error_kind() {
    let e = EditorError::new(EditorErrorKind::Impossible);
    assert_eq!(EditorErrorKind::Impossible, e.kind());
}

/// Which spans of the buffer the user dictionary has phrases for.
fn spans_of(com: &Composition, dict: &UserDict) -> Vec<Vec<bool>> {
    let symbols = com.symbols();
    let n = symbols.len();
    let mut spans = vec![vec![false; n + 1]; n + 1];
    for b in 0..n {
        for e in b + 1..=n {
            let syllables: Vec<Syllable> = symbols[b..e]
                .iter()
                .map(|s| s.to_syllable().unwrap_or(Syllable::new()))
                .collect();
            spans[b][e] = !dict.lookup(&syllables, LookupStrategy::Standard).is_empty();
        }
    }
    spans
}

#[test]
fn init_when_cursor_end_of_buffer_syllable() {
    let mut com = Composition::new();
    com.push(Symbol::from(syl(C, 0, E, TONE4)));
    let mut user_dict = UserDict::new(StringTable::new());
    user_dict.insert(&[syl(C, 0, E, TONE4)], "測");
    let spans = spans_of(&com, &user_dict);
    let mut sel = PhraseSelector::new(false, LookupStrategy::Standard, com);
    sel.init(1, &spans);
    assert_eq!(0, sel.begin());
    assert_eq!(1, sel.end());
}

#[test]
fn init_forward_select_when_cursor_end_of_buffer_syllable() {
    let mut com = Composition::new();
    com.push(Symbol::from(syl(C, 0, E, TONE4)));
    let mut user_dict = UserDict::new(StringTable::new());
    user_dict.insert(&[syl(C, 0, E, TONE4)], "測");
    let spans = spans_of(&com, &user_dict);
    let mut sel = PhraseSelector::new(true, LookupStrategy::Standard, com);
    sel.init(1, &spans);
    assert_eq!(0, sel.begin());
    assert_eq!(1, sel.end());
}

#[test]
fn selection_points_walk_the_known_phrases() {
    // ㄘㄜˋ ㄕˋ ㄘㄜˋ with phrases for each syllable, for ㄘㄜˋㄕˋ and for
    // the whole buffer.
    let ce = syl(C, 0, E, TONE4);
    let shi = syl(SH, 0, 0, TONE4);
    let mut com = Composition::new();
    for s in [ce, shi, ce] {
        com.push(Symbol::from(s));
    }
    let mut user_dict = UserDict::new(StringTable::new());
    user_dict.insert(&[ce], "測");
    user_dict.insert(&[shi], "試");
    user_dict.insert(&[ce, shi], "測試");
    user_dict.insert(&[ce, shi, ce], "測試冊");
    let spans = spans_of(&com, &user_dict);

    // Forward from the start: the longest phrase first.
    let mut sel = PhraseSelector::new(true, LookupStrategy::Standard, com.clone());
    sel.init(0, &spans);
    assert_eq!((0, 3), (sel.begin(), sel.end()));
    assert_eq!(Some((0, 2)), sel.next_selection_point(&spans));
    assert!(sel.jump_to_next_selection_point(&spans).is_ok());
    assert_eq!((0, 2), (sel.begin(), sel.end()));
    assert_eq!(Some((0, 3)), sel.prev_selection_point(&spans));
    sel.jump_to_last_selection_point(&spans);
    assert_eq!((0, 1), (sel.begin(), sel.end()));
    assert!(sel.jump_to_next_selection_point(&spans).is_err());
    assert_eq!((0, 1), (sel.begin(), sel.end()));
    // Cycling wraps around to the longest again.
    sel.next(&spans);
    assert_eq!((0, 3), (sel.begin(), sel.end()));
    assert!(sel.jump_to_prev_selection_point(&spans).is_err());
    sel.jump_to_first_selection_point(&spans);
    assert_eq!((0, 3), (sel.begin(), sel.end()));

    // Backward at the last symbol: the longest phrase ending there first.
    let mut sel = PhraseSelector::new(false, LookupStrategy::Standard, com);
    sel.init(2, &spans);
    assert_eq!((0, 3), (sel.begin(), sel.end()));
    sel.next(&spans);
    assert_eq!((2, 3), (sel.begin(), sel.end()));
    sel.next(&spans);
    assert_eq!((0, 3), (sel.begin(), sel.end()));
    assert!(sel.jump_to_next_selection_point(&spans).is_ok());
    assert_eq!((2, 3), (sel.begin(), sel.end()));
    assert!(sel.jump_to_prev_selection_point(&spans).is_ok());
    assert_eq!((0, 3), (sel.begin(), sel.end()));
}

fn iv(start: usize, end: usize, is_phrase: bool, text: &str) -> Interval {
    Interval {
        start,
        end,
        is_phrase,
        text: text.to_string(),
    }
}

#[test]
fn auto_commit_takes_whole_intervals_from_the_front() {
    let intervals = vec![
        iv(0, 2, true, "國民"),
        iv(2, 4, true, "大會"),
        iv(4, 6, true, "代表"),
    ];
    assert_eq!(None, auto_commit(6, 6, &intervals));
    assert_eq!(None, auto_commit(6, 20, &intervals));
    assert_eq!(
        Some(("國民".to_string(), 2)),
        auto_commit(6, 5, &intervals)
    );
    assert_eq!(
        Some(("國民大會".to_string(), 4)),
        auto_commit(6, 3, &intervals)
    );
    assert_eq!(
        Some(("國民大會".to_string(), 4)),
        auto_commit(6, 2, &intervals)
    );
    assert_eq!(
        Some(("國民大會代表".to_string(), 6)),
        auto_commit(6, 0, &intervals)
    );
    assert_eq!(None, auto_commit(0, 0, &vec![]));
}

#[test]
fn snapshot_picks_phrases_from_the_back() {
    let intervals = vec![
        iv(0, 2, true, "國民"),
        iv(2, 3, false, "，"),
        iv(3, 5, true, "代表"),
        iv(5, 6, true, "們"),
    ];
    assert_eq!(vec![3, 2, 0], snapshot_picks(&intervals, 0));
    assert_eq!(vec![2, 0], snapshot_picks(&intervals, 2));
    assert_eq!(vec![0], snapshot_picks(&intervals, 4));
    assert!(snapshot_picks(&intervals, 7).is_empty());

    // A short interval is passed over again once the skip is left over.
    let uneven = vec![
        iv(0, 1, true, "我"),
        iv(1, 6, true, "中華民國國"),
        iv(6, 7, true, "人"),
    ];
    assert_eq!(vec![1], snapshot_picks(&uneven, 3));
    assert!(snapshot_picks(&vec![], 0).is_empty());
}

#[test]
fn converted_text_range_is_measured_in_characters() {
    let intervals = vec![
        iv(0, 2, true, "今天"),
        iv(2, 4, true, "天氣"),
        iv(4, 5, false, "!"),
    ];
    assert_eq!("今天", converted_text_range(&intervals, 0, 2));
    assert_eq!("天天氣", converted_text_range(&intervals, 1, 4));
    assert_eq!("氣!", converted_text_range(&intervals, 3, 9));
    assert_eq!("", converted_text_range(&intervals, 7, 9));
    assert_eq!("", converted_text_range(&intervals, 2, 2));
}

#[test]
fn learn_phrase_in_range_adds_the_marked_phrase() {
    let intervals = vec![iv(0, 2, true, "今天"), iv(2, 4, true, "天氣"), iv(4, 5, false, "!")];
    let symbols = vec![
        Symbol::Syllable(syl(J, I, EN, 0)),
        Symbol::Syllable(syl(T, I, AN, 0)),
        Symbol::Syllable(syl(T, I, AN, 0)),
        Symbol::Syllable(syl(Q, I, 0, TONE4)),
        Symbol::Grapheme('!'),
    ];
    let mut dict = UserDict::new(StringTable::new());

    assert_eq!(
        Ok("天天".to_string()),
        learn_phrase_in_range(&mut dict, &symbols, &intervals, 1, 3)
    );
    let found = dict.lookup(&[syl(T, I, AN, 0), syl(T, I, AN, 0)], LookupStrategy::Standard);
    assert_eq!(1, found.len());
    assert_eq!("天天", dict.get_text(found[0].0).unwrap());

    assert_eq!(
        Err(LearnError::Exists("天天".to_string())),
        learn_phrase_in_range(&mut dict, &symbols, &intervals, 1, 3)
    );
    assert_eq!(
        Err(LearnError::Mismatch),
        learn_phrase_in_range(&mut dict, &symbols, &intervals, 3, 5)
    );
    assert_eq!(
        Err(LearnError::Mismatch),
        learn_phrase_in_range(&mut dict, &symbols, &intervals, 2, 6)
    );
    // The conversion is shorter than the buffer: one character for two syllables.
    let short = vec![iv(0, 4, true, "今")];
    assert_eq!(
        Err(LearnError::Mismatch),
        learn_phrase_in_range(&mut dict, &symbols, &short, 0, 2)
    );
    assert_eq!(1, dict.lookup(&[syl(T, I, AN, 0), syl(T, I, AN, 0)], LookupStrategy::Standard).len());
}

#[test]
fn learn_error_messages() {
    assert_eq!("加詞失敗：字數不符或夾雜符號", LearnError::Mismatch.message());
    assert_eq!("已有：天天", LearnError::Exists("天天".to_string()).message());
}

#[test]
fn learn_phrase_adds_once_then_knows_it() {
    let mut dict = UserDict::new(StringTable::new());
    let tian_tian = [syl(T, I, AN, 0), syl(T, I, AN, 0)];
    assert!(matches!(learn_phrase(&mut dict, &tian_tian, "天天"), Ok(Learned::Added)));
    assert!(matches!(learn_phrase(&mut dict, &tian_tian, "天天"), Ok(Learned::Known)));
    assert!(matches!(learn_phrase(&mut dict, &tian_tian, "添添"), Ok(Learned::Added)));
    assert_eq!(2, dict.lookup(&tian_tian, LookupStrategy::Standard).len());
    let err = learn_phrase(&mut dict, &tian_tian, "天").unwrap_err();
    assert_eq!(EditorErrorKind::InvalidState, err.kind());
    assert_eq!(2, dict.lookup(&tian_tian, LookupStrategy::Standard).len());
}

#[test]
fn options_switch_modes_and_count_pages() {
    let mut options = EditorOptions::default();
    options.switch_language_mode();
    assert_eq!(LanguageMode::English, options.language_mode);
    options.switch_language_mode();
    assert_eq!(LanguageMode::Chinese, options.language_mode);
    options.switch_character_form();
    assert_eq!(CharacterForm::Fullwidth, options.character_form);
    assert_eq!(EditorOptions { character_form: CharacterForm::Halfwidth, ..options }, EditorOptions::default());

    assert_eq!(0, options.total_page(0));
    assert_eq!(1, options.total_page(1));
    assert_eq!(1, options.total_page(10));
    assert_eq!(2, options.total_page(11));
    assert_eq!(3, options.total_page(30));
}
