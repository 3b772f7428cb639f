use chewing::model::WordId;
use chewing::user::freq::{parse_freq_line, UserFreq, UserFreqError};

fn widmap(word: &str) -> WordId {
    match word {
        "測試" => WordId(0),
        "酷音" => WordId(1),
        "通過" => WordId(2),
        _ => panic!(),
    }
}

fn from_text(text: &str) -> Result<UserFreq, UserFreqError> {
    let mut entries = vec![];
    for line in text.lines() {
        let (word, freq) = parse_freq_line(line)?;
        entries.push((widmap(&word), freq));
    }
    Ok(UserFreq::from_entries(&entries))
}

#[test]
fn load_from_file() {
    let user_freq = from_text("測試,0\n酷音,10000000\n通過,1000").unwrap();
    assert_eq!(Some(1), user_freq.get(WordId(0)));
    assert_eq!(Some(9999999), user_freq.get(WordId(1)));
    assert_eq!(Some(1000), user_freq.get(WordId(2)));
    assert_eq!(None, user_freq.get(WordId(3)));
}

#[test]
fn load_from_file_invalid() {
    let res = from_text("測試 0\n酷音 10000000\n通過 1000");
    assert_eq!(Err(UserFreqError::MissingComma), res.map(|_| ()));
}

#[test]
fn frequency_must_be_decimal() {
    assert_eq!(Err(UserFreqError::InvalidFreq), parse_freq_line("字,abc"));
    assert_eq!(Err(UserFreqError::InvalidFreq), parse_freq_line("字,"));
    assert_eq!(Err(UserFreqError::InvalidFreq), parse_freq_line("字,-5"));
    assert_eq!(Ok(("字".to_string(), 42)), parse_freq_line("字,+42"));
    assert_eq!(Err(UserFreqError::InvalidFreq), parse_freq_line("a,b,7"));
}

#[test]
fn later_entries_win() {
    let f = UserFreq::from_entries(&[(WordId(5), 3), (WordId(5), 8)]);
    assert_eq!(Some(8), f.get(WordId(5)));
    assert_eq!(None, UserFreq::new().get(WordId(5)));
}
