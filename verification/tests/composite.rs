use chewing::dictionary::composite::{composite_lookup, merge_lookups, Found, RARE_BOOST};
use chewing::dictionary::string_table::StringTable;
use chewing::dictionary::LookupStrategy;
use chewing::lm::static_dict::StaticDictBuilder;
use chewing::model::WordId;
use chewing::user::dict::UserDict;
use chewing::zhuyin::Syllable;

fn found(wid: u32, history: Option<usize>, user_pref: Option<i8>) -> Found {
    Found {
        wid: WordId(wid),
        history,
        user_pref,
    }
}

#[test]
fn merge_keeps_first_seen_order_and_last_answers() {
    let words = vec![WordId(1), WordId(2), WordId(3)];
    let rare = vec![WordId(3), WordId(4)];
    let hist = vec![WordId(2), WordId(5), WordId(2)];
    let user = vec![(WordId(4), 7), (WordId(6), 1), (WordId(3), -5)];
    assert_eq!(
        vec![
            found(1, None, None),
            found(2, Some(2), None),
            found(3, None, Some(-5)),
            found(4, None, Some(7)),
            found(5, Some(1), None),
            found(6, None, Some(1)),
        ],
        merge_lookups(&words, &rare, &hist, &user)
    );
}

#[test]
fn rare_words_are_marked_down() {
    let merged = merge_lookups(&vec![WordId(9)], &vec![WordId(9), WordId(8)], &vec![], &vec![]);
    assert_eq!(
        vec![found(9, None, Some(RARE_BOOST)), found(8, None, Some(RARE_BOOST))],
        merged
    );
    assert!(merge_lookups(&vec![], &vec![], &vec![], &vec![]).is_empty());
}

#[test]
fn composite_lookup_asks_every_dictionary() {
    let ce = [Syllable::from_parts(20, 0, 3, 4)];
    let mut builder = StaticDictBuilder::new();
    builder.insert(&ce, WordId(11));
    builder.insert(&ce, WordId(12));
    let static_dict = builder.build();
    let mut rare_builder = StaticDictBuilder::new();
    rare_builder.insert(&ce, WordId(12));
    let rare_dict = rare_builder.build();
    let mut user_dict = UserDict::new(StringTable::new());
    user_dict.insert(&ce, "測");
    let user_words = user_dict.lookup(&ce, LookupStrategy::Standard);
    assert_eq!(1, user_words.len());
    let (user_wid, pref) = user_words[0];

    let merged = composite_lookup(
        &static_dict,
        &rare_dict,
        &user_dict,
        &vec![WordId(11)],
        &ce,
        LookupStrategy::Standard,
    );
    assert_eq!(
        vec![
            found(11, Some(0), None),
            found(12, None, Some(RARE_BOOST)),
            Found {
                wid: user_wid,
                history: None,
                user_pref: Some(pref),
            },
        ],
        merged
    );
}
