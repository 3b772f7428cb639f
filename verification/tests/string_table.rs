use chewing::dictionary::string_table::{StringTable, StringTableBuilder, StringTableError};
use chewing::model::WordId;

#[test]
fn empty_buffer() {
    let st = StringTable::new();
    assert_eq!(0, st.len());
    assert_eq!(None, st.get_text(0.into()));
    assert_eq!(None, st.get_text(WordId(100)));
}

#[test]
fn oneline() {
    let mut builder = StringTableBuilder::new();
    builder.insert("test");
    let st = builder.build().unwrap();
    assert_eq!(1, st.len());
    assert_eq!("test", st.get_text(0.into()).unwrap());
    assert_eq!(None, st.get_text(WordId(100)));
}

#[test]
fn multi_lines() {
    let mut builder = StringTableBuilder::new();
    builder.insert("test");
    builder.insert("line2");
    builder.insert("line3");
    let st = builder.build().unwrap();
    assert_eq!(3, st.len());
    assert_eq!("test", st.get_text(0.into()).unwrap());
    assert_eq!("line3", st.get_text(st.get_wid("line3").unwrap()).unwrap());
    assert_eq!(None, st.get_text(WordId(100)));
}

#[test]
fn every_word_found_again() {
    let words = ["測試", "酷音", "通過", "新", "字典", "a", "bc"];
    let mut builder = StringTableBuilder::new();
    for w in words {
        builder.insert(w);
    }
    let st = builder.build().unwrap();
    assert_eq!(words.len(), st.len());
    for w in words {
        let wid = st.get_wid(w).unwrap();
        assert_eq!(w, st.get_text(wid).unwrap());
    }
    assert_eq!(None, st.get_wid("missing"));
}

#[test]
fn file_round_trip() {
    let mut builder = StringTableBuilder::new();
    builder.insert("one");
    builder.insert("two");
    let bytes = builder.to_bytes().unwrap();
    assert_eq!(&bytes[..4], b"CHSW");
    let st = StringTable::from_bytes(&bytes).unwrap();
    assert_eq!(2, st.len());
    assert_eq!("two", st.get_text(st.get_wid("two").unwrap()).unwrap());
}

#[test]
fn table_file_errors() {
    assert_eq!(
        Err(StringTableError::InvalidHeader),
        StringTable::from_bytes(b"CHSD\x00").map(|_| ())
    );
    assert!(StringTable::from_bytes(b"CH").is_err());
    assert_eq!(
        Err(StringTableError::UnknownVersion),
        StringTable::from_bytes(b"CHSW\x01").map(|_| ())
    );
    assert_eq!(
        Err(StringTableError::UnknownFlags),
        StringTable::from_bytes(b"CHSW\x00\x01\x00\x00\x00").map(|_| ())
    );
}

#[test]
fn intern_adds_user_words() {
    let mut st = StringTable::new();
    let a = st.intern("甲");
    let b = st.intern("乙");
    assert_eq!(a, st.intern("甲"));
    assert_eq!(WordId(0x0100_0000), a);
    assert_eq!(WordId(0x0100_0001), b);
    assert_eq!("乙", st.get_text(b).unwrap());
    assert_eq!(Some(a), st.get_wid("甲"));
    assert_eq!(None, st.get_text(WordId(0x0100_0005)));
}
