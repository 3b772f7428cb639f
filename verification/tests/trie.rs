use chewing::dictionary::phrase::Phrase;
use chewing::dictionary::trie::{Trie, TrieError, TrieOpenOptions};
use chewing::dictionary::LookupStrategy;
use chewing::zhuyin::Syllable;

fn tlv(tag: u8, content: &[u8]) -> Vec<u8> {
    let mut v = vec![tag];
    let n = content.len();
    if n < 0x80 {
        v.push(n as u8);
    } else if n < 0x100 {
        v.push(0x81);
        v.push(n as u8);
    } else {
        v.push(0x82);
        v.push((n >> 8) as u8);
        v.push(n as u8);
    }
    v.extend_from_slice(content);
    v
}

fn utf8(s: &str) -> Vec<u8> {
    tlv(0x0c, s.as_bytes())
}

fn uint_bytes(x: u64) -> Vec<u8> {
    let mut b: Vec<u8> = x.to_be_bytes().to_vec();
    while b.len() > 1 && b[0] == 0 {
        b.remove(0);
    }
    if b[0] & 0x80 != 0 {
        b.insert(0, 0);
    }
    b
}

fn der_int(x: u64) -> Vec<u8> {
    tlv(0x02, &uint_bytes(x))
}

fn seq(items: &[Vec<u8>]) -> Vec<u8> {
    tlv(0x30, &items.concat())
}

fn phrase(text: &str, freq: u64, last_used: Option<u64>) -> Vec<u8> {
    let mut items = vec![utf8(text), der_int(freq)];
    if let Some(t) = last_used {
        items.push(tlv(0x80, &uint_bytes(t)));
    }
    seq(&items)
}

fn node(a: u32, b: u16, c: u16) -> Vec<u8> {
    let mut v = a.to_be_bytes().to_vec();
    v.extend_from_slice(&b.to_be_bytes());
    v.extend_from_slice(&c.to_be_bytes());
    v
}

fn info() -> Vec<u8> {
    seq(&[utf8("test"), utf8("copyright"), utf8("license"), utf8("1.0"), utf8("tests")])
}

fn trie_file(index: &[u8], phrases: &[u8]) -> Vec<u8> {
    seq(&[utf8("CHEW"), der_int(0), info(), tlv(0x04, index), tlv(0x30, phrases)])
}

// ㄘㄜˋ, ㄕˋ and ㄕㄨ
fn ce4() -> Syllable {
    Syllable::from_parts(20, 0, 3, 4)
}
fn shi4() -> Syllable {
    Syllable::from_parts(17, 0, 0, 4)
}
fn shu1() -> Syllable {
    Syllable::from_parts(17, 2, 0, 1)
}

fn sample() -> Vec<u8> {
    let a = phrase("測", 100, None);
    let b = phrase("冊", 50, Some(7));
    let c = phrase("書", 30, None);
    let d = phrase("測試", 200, None);
    let ab = [a, b].concat();
    let mut data = ab.clone();
    data.extend_from_slice(&c);
    data.extend_from_slice(&d);
    let c_at = ab.len() as u32;
    let d_at = c_at + c.len() as u32;
    let mut index = Vec::new();
    index.extend(node(1, 2, 0));
    index.extend(node(3, 2, ce4().to_u16()));
    index.extend(node(5, 1, shu1().to_u16()));
    index.extend(node(0, ab.len() as u16, 0));
    index.extend(node(6, 1, shi4().to_u16()));
    index.extend(node(c_at, c.len() as u16, 0));
    index.extend(node(d_at, d.len() as u16, 0));
    trie_file(&index, &data)
}

fn texts(ps: &[Phrase]) -> Vec<&str> {
    ps.iter().map(|p| p.as_str()).collect()
}

#[test]
fn trie_lookup_phrases() {
    let trie = Trie::new(&sample()).unwrap();
    let found = trie.lookup(&[ce4()], LookupStrategy::Standard);
    assert_eq!(vec!["測", "冊"], texts(&found));
    assert_eq!(100, found[0].freq());
    assert_eq!(None, found[0].last_used());
    assert_eq!(50, found[1].freq());
    assert_eq!(Some(7), found[1].last_used());
    assert_eq!(vec!["測試"], texts(&trie.lookup(&[ce4(), shi4()], LookupStrategy::Standard)));
    assert_eq!(vec!["書"], texts(&trie.lookup(&[shu1()], LookupStrategy::Standard)));
    assert!(trie.lookup(&[shi4()], LookupStrategy::Standard).is_empty());
    assert!(trie.lookup(&[ce4(), shu1()], LookupStrategy::Standard).is_empty());
}

#[test]
fn trie_fuzzy_lookup() {
    let trie = Trie::new(&sample()).unwrap();
    let c = Syllable::from_parts(20, 0, 0, 0);
    let sh = Syllable::from_parts(17, 0, 0, 0);
    assert_eq!(vec!["測", "冊"], texts(&trie.lookup(&[c], LookupStrategy::FuzzyPartialPrefix)));
    assert_eq!(vec!["書"], texts(&trie.lookup(&[sh], LookupStrategy::FuzzyPartialPrefix)));
    assert_eq!(vec!["測試"], texts(&trie.lookup(&[c, sh], LookupStrategy::FuzzyPartialPrefix)));
}

#[test]
fn trie_entries_walk_depth_first() {
    let trie = Trie::new(&sample()).unwrap();
    assert_eq!(Some(trie.entries()), trie.try_entries());
    let entries = trie.entries();
    let got: Vec<(Vec<u16>, &str)> = entries
        .iter()
        .map(|(s, p)| (s.iter().map(|x| x.to_u16()).collect(), p.as_str()))
        .collect();
    assert_eq!(
        vec![
            (vec![ce4().to_u16(), shi4().to_u16()], "測試"),
            (vec![ce4().to_u16()], "測"),
            (vec![ce4().to_u16()], "冊"),
            (vec![shu1().to_u16()], "書"),
        ],
        got
    );
}

#[test]
fn trie_options_and_path() {
    let bytes = sample();
    let trie = TrieOpenOptions::new().fuzzy_search(true).open("dict.dat".to_string(), &bytes).unwrap();
    assert_eq!(Some("dict.dat"), trie.path());
    let mut trie = Trie::new(&bytes).unwrap();
    assert_eq!(None, trie.path());
    trie.enable_fuzzy_search(true);
    assert_eq!(1, trie.lookup(&[shu1()], LookupStrategy::Standard).len());
}

#[test]
fn trie_file_errors() {
    let index = node(0, 0, 0);
    assert!(Trie::new(&trie_file(&index, &[])).is_ok());
    let wrong_magic = seq(&[utf8("CHEX"), der_int(0), info(), tlv(0x04, &index), tlv(0x30, &[])]);
    assert_eq!(Some(TrieError::InvalidData), Trie::new(&wrong_magic).err());
    let wrong_version = seq(&[utf8("CHEW"), der_int(1), info(), tlv(0x04, &index), tlv(0x30, &[])]);
    assert_eq!(Some(TrieError::InvalidData), Trie::new(&wrong_version).err());
    let mut trailing = trie_file(&index, &[]);
    trailing.push(0);
    assert_eq!(Some(TrieError::InvalidData), Trie::new(&trailing).err());
    let short_info = seq(&[utf8("CHEW"), der_int(0), seq(&[utf8("a")]), tlv(0x04, &index), tlv(0x30, &[])]);
    assert_eq!(Some(TrieError::InvalidData), Trie::new(&short_info).err());
    assert_eq!(Some(TrieError::InvalidData), Trie::new(&[]).err());
}

#[test]
fn trie_empty_and_corrupt_index() {
    let empty = Trie::new(&trie_file(&node(0, 0, 0), &[])).unwrap();
    assert!(empty.lookup(&[ce4()], LookupStrategy::Standard).is_empty());
    assert!(empty.entries().is_empty());
    // The root's children lie outside the index.
    let corrupt = Trie::new(&trie_file(&node(9, 1, 0), &[])).unwrap();
    assert!(corrupt.lookup(&[ce4()], LookupStrategy::Standard).is_empty());
    assert!(corrupt.entries().is_empty());
}

#[test]
fn trie_phrases_stop_at_first_bad_one() {
    let good = phrase("測", 1, None);
    let bad = utf8("not a phrase");
    let data = [good.clone(), bad.clone()].concat();
    let mut index = Vec::new();
    index.extend(node(1, 1, 0));
    index.extend(node(2, 1, ce4().to_u16()));
    index.extend(node(0, data.len() as u16, 0));
    let trie = Trie::new(&trie_file(&index, &data)).unwrap();
    assert_eq!(vec!["測"], texts(&trie.lookup(&[ce4()], LookupStrategy::Standard)));
}

#[test]
fn trie_entries_read_only_the_syllables_they_walk() {
    let data = phrase("測", 1, None);
    let with = |syl: u16| {
        let mut index = node(1, 1, 0);
        index.extend(node(2, 1, syl));
        index.extend(node(0, data.len() as u16, 0));
        // A node that no path reaches, holding no syllable.
        index.extend(node(0, 0, 0xFFFF));
        Trie::new(&trie_file(&index, &data)).unwrap()
    };
    let good = with(ce4().to_u16());
    let entries = good.try_entries().unwrap();
    assert_eq!(1, entries.len());
    assert_eq!(vec![ce4()], entries[0].0);
    assert_eq!("測", entries[0].1.as_str());
    let bad = with(0xFFFF);
    assert_eq!(None, bad.try_entries());
}
