use chewing::conversion::chewing::{choices_to_intervals, layout_intervals, Choice};
use chewing::conversion::decoder::reconstruct;
use chewing::conversion::simple::simple_intervals;
use chewing::conversion::word_lattice::{lattice_spans, span_words, str_spans, SpanWords};
use chewing::conversion::{glue_fn, Composition, Gap, Interval, Selection, Symbol};
use chewing::dictionary::string_table::StringTable;
use chewing::model::WordId;
use chewing::zhuyin::Syllable;

fn syl(initial: u8, medial: u8, rime: u8, tone: u8) -> Syllable {
    Syllable::from_parts(initial, medial, rime, tone)
}

#[test]
fn selection_intersect() {
    let s1 = Selection {
        start: 1,
        end: 3,
        wid: WordId(1),
    };
    let s2 = Selection {
        start: 2,
        end: 4,
        wid: WordId(2),
    };
    let s3 = Selection {
        start: 4,
        end: 6,
        wid: WordId(3),
    };
    assert!(s1.intersect(&s2));
    assert!(!s1.intersect(&s3));
    assert!(!s2.intersect(&s3));
}

#[test]
fn interval_relations() {
    let outer = Interval {
        start: 0,
        end: 4,
        is_phrase: true,
        text: "測試".to_string(),
    };
    let inner = Interval {
        start: 1,
        end: 3,
        is_phrase: false,
        text: "x".to_string(),
    };
    let after = Interval {
        start: 4,
        end: 5,
        is_phrase: false,
        text: "y".to_string(),
    };
    assert!(outer.contains(&inner));
    assert!(!inner.contains(&outer));
    assert!(outer.intersect(&inner));
    assert!(!outer.intersect(&after));
    assert_eq!(4, outer.len());
    assert!(!outer.is_empty());
    assert!(outer.contains_range(0, 4));
    assert!(!outer.contains_range(3, 5));
}

#[test]
fn symbol_kinds() {
    let s = Symbol::from(syl(20, 0, 3, 4));
    assert!(s.is_syllable());
    assert!(!s.is_char());
    assert_eq!(Some(syl(20, 0, 3, 4)), s.to_syllable());
    assert_eq!(None, s.to_char());
    let c = Symbol::from(',');
    assert!(c.is_char());
    assert_eq!(Some(','), c.to_char());
    assert_eq!(None, c.to_syllable());
}

#[test]
fn composition_push_insert_remove() {
    let mut com = Composition::new();
    assert!(com.is_empty());
    com.push(Symbol::from('a'));
    com.push(Symbol::from('c'));
    com.insert(1, Symbol::from('b'));
    assert_eq!(3, com.len());
    assert_eq!(
        &[Symbol::from('a'), Symbol::from('b'), Symbol::from('c')],
        com.symbols()
    );
    assert_eq!(Some(Symbol::from('b')), com.symbol(1));
    assert_eq!(None, com.symbol(3));
    com.remove(1);
    assert_eq!(&[Symbol::from('a'), Symbol::from('c')], com.symbols());
    com.replace(0, Symbol::from('z'));
    assert_eq!(Some(Symbol::from('z')), com.symbol(0));
    com.clear();
    assert_eq!(0, com.len());
}

#[test]
fn composition_gaps() {
    let mut com = Composition::new();
    com.push(Symbol::from('a'));
    com.push(Symbol::from('b'));
    com.push(Symbol::from('c'));
    assert_eq!(Some(Gap::Begin), com.gap(0));
    assert_eq!(Some(Gap::Normal), com.gap(1));
    com.set_gap(1, Gap::Break);
    assert_eq!(Some(Gap::Break), com.gap(1));
    assert_eq!(Some(Gap::Break), com.gap_after(0));
    com.set_gap(2, Gap::Glue);
    assert_eq!(Some(Gap::Glue), com.gap(2));
    com.remove_front(1);
    assert_eq!(2, com.len());
    assert_eq!(&[Symbol::from('b'), Symbol::from('c')], com.symbols());
}

#[test]
fn composition_selections_do_not_overlap() {
    let mut com = Composition::new();
    for c in ['a', 'b', 'c', 'd'] {
        com.push(Symbol::from(c));
    }
    com.push_selection(Selection {
        start: 0,
        end: 2,
        wid: WordId(1),
    });
    com.push_selection(Selection {
        start: 1,
        end: 3,
        wid: WordId(2),
    });
    assert_eq!(
        &[Selection {
            start: 1,
            end: 3,
            wid: WordId(2)
        }],
        com.selections()
    );
    com.push_selection(Selection {
        start: 3,
        end: 4,
        wid: WordId(3),
    });
    assert_eq!(2, com.selections().len());
}

#[test]
fn glue_merges_intervals() {
    let mut com = Composition::new();
    for c in ['a', 'b', 'c'] {
        com.push(Symbol::from(c));
    }
    com.set_gap(1, Gap::Glue);
    let acc = vec![Interval {
        start: 0,
        end: 1,
        is_phrase: true,
        text: "a".to_string(),
    }];
    let merged = glue_fn(
        &com,
        acc,
        Interval {
            start: 1,
            end: 2,
            is_phrase: true,
            text: "b".to_string(),
        },
    );
    assert_eq!(1, merged.len());
    assert_eq!(0, merged[0].start);
    assert_eq!(2, merged[0].end);
    assert_eq!("ab", merged[0].text);
}

#[test]
fn glue_keeps_normal_gaps() {
    let mut com = Composition::new();
    for c in ['a', 'b'] {
        com.push(Symbol::from(c));
    }
    let acc = vec![Interval {
        start: 0,
        end: 1,
        is_phrase: true,
        text: "a".to_string(),
    }];
    let out = glue_fn(
        &com,
        acc,
        Interval {
            start: 1,
            end: 2,
            is_phrase: true,
            text: "b".to_string(),
        },
    );
    assert_eq!(2, out.len());
    assert_eq!("b", out[1].text);
}

fn syllables(n: u8) -> Vec<Syllable> {
    (0..n).map(|i| syl(1 + i % 20, 0, 1, 1)).collect()
}

fn lookup_of(w: &SpanWords) -> Vec<Syllable> {
    match w {
        SpanWords::Lookup(v) => v.clone(),
        other => panic!("expected a lookup, got {other:?}"),
    }
}

#[test]
fn span_words_follow_the_composition() {
    let syls = syllables(3);
    let mut com = Composition::new();
    for s in &syls {
        com.push(Symbol::from(*s));
    }
    com.push(Symbol::from('1'));

    assert!(matches!(span_words(&com, 3, 4), SpanWords::Grapheme('1')));
    assert!(matches!(span_words(&com, 2, 4), SpanWords::Nothing));
    assert_eq!(syls[0..2].to_vec(), lookup_of(&span_words(&com, 0, 2)));
    assert_eq!(syls.clone(), lookup_of(&span_words(&com, 0, 3)));

    com.set_gap(1, Gap::Break);
    assert!(matches!(span_words(&com, 0, 2), SpanWords::Nothing));
    assert!(matches!(span_words(&com, 0, 3), SpanWords::Nothing));
    assert_eq!(syls[1..3].to_vec(), lookup_of(&span_words(&com, 1, 3)));

    com.push_selection(Selection {
        start: 1,
        end: 3,
        wid: WordId(7),
    });
    assert!(matches!(span_words(&com, 1, 3), SpanWords::Selected(WordId(7))));
    assert!(matches!(span_words(&com, 2, 3), SpanWords::Nothing));
    assert!(matches!(span_words(&com, 1, 2), SpanWords::Nothing));
    assert_eq!(syls[0..1].to_vec(), lookup_of(&span_words(&com, 0, 1)));
}

#[test]
fn lattice_spans_stop_at_the_longest_phrase() {
    let mut com = Composition::new();
    for s in syllables(13) {
        com.push(Symbol::from(s));
    }
    let rows = lattice_spans(&com);
    assert_eq!(13, rows.len());
    assert_eq!(11, rows[0].len());
    assert_eq!(11, rows[2].len());
    assert_eq!(8, rows[5].len());
    assert_eq!(1, rows[12].len());
    assert_eq!(syllables(13)[5..9].to_vec(), lookup_of(&rows[5][3]));
    assert!(lattice_spans(&Composition::new()).is_empty());
}

fn interval(start: usize, end: usize, is_phrase: bool, text: &str) -> Interval {
    Interval {
        start,
        end,
        is_phrase,
        text: text.to_string(),
    }
}

#[test]
fn choices_become_intervals_as_long_as_their_spans() {
    let mut table = StringTable::new();
    let guomin = table.intern("國民");
    let dahui = table.intern("大會");
    let accent = table.intern("e\u{301}");
    let mut com = Composition::new();
    for s in syllables(6) {
        com.push(Symbol::from(s));
    }
    let cands = vec![
        (Choice::Word(guomin), 2),
        (Choice::Word(dahui), 2),
        (Choice::Grapheme('!'), 1),
        (Choice::Unknown, 1),
    ];
    assert_eq!(
        vec![
            interval(0, 2, true, "國民"),
            interval(2, 4, true, "大會"),
            interval(4, 5, false, "!"),
            interval(5, 6, false, "<unk>"),
        ],
        choices_to_intervals(&com, &table, &cands)
    );
    let odd = vec![(Choice::Word(accent), 1), (Choice::Word(WordId(0x0100_0063)), 2)];
    assert_eq!(
        vec![interval(0, 1, true, "e\u{301}"), interval(1, 3, true, "<unk>")],
        choices_to_intervals(&com, &table, &odd)
    );

    com.set_gap(2, Gap::Glue);
    assert_eq!(
        vec![
            interval(0, 4, true, "國民大會"),
            interval(4, 5, false, "!"),
        ],
        choices_to_intervals(&com, &table, &cands[0..3].to_vec())
    );
    assert!(choices_to_intervals(&com, &table, &vec![]).is_empty());
}

#[test]
fn reconstruct_follows_the_trail_back_to_the_start() {
    let trails = vec![(0, 'a'), (0, 'b'), (1, 'c'), (2, 'd'), (1, 'e')];
    assert_eq!(vec!['b', 'c', 'd'], reconstruct(&trails, 3));
    assert_eq!(vec!['b', 'e'], reconstruct(&trails, 4));
    assert_eq!(vec!['b'], reconstruct(&trails, 1));
    assert_eq!(vec!['a'], reconstruct(&trails, 0));
    assert!(reconstruct(&trails, 9).is_empty());
}

#[test]
fn layout_uses_the_given_lengths() {
    let mut com = Composition::new();
    for s in syllables(7) {
        com.push(Symbol::from(s));
    }
    let items = vec![
        ("國民".to_string(), true, 2),
        ("x".to_string(), false, 3),
        ("大會".to_string(), true, 1),
    ];
    assert_eq!(
        vec![
            interval(0, 2, true, "國民"),
            interval(2, 5, false, "x"),
            interval(5, 6, true, "大會"),
        ],
        layout_intervals(&com, &items)
    );
    com.set_gap(2, Gap::Glue);
    com.set_gap(5, Gap::Glue);
    assert_eq!(
        vec![
            interval(0, 2, true, "國民"),
            interval(2, 5, false, "x"),
            interval(5, 6, true, "大會"),
        ],
        layout_intervals(&com, &items)
    );
    let phrases = vec![("國民".to_string(), true, 2), ("大會".to_string(), true, 4)];
    assert_eq!(
        vec![interval(0, 6, true, "國民大會")],
        layout_intervals(&com, &phrases)
    );
    assert!(layout_intervals(&com, &vec![]).is_empty());
}

#[test]
fn str_spans_cut_by_characters() {
    let spans = str_spans("今天a");
    assert_eq!(3, spans.len());
    assert_eq!(vec!["今", "今天", "今天a"], spans[0]);
    assert_eq!(vec!["天", "天a"], spans[1]);
    assert_eq!(vec!["a"], spans[2]);
    let long = "一二三四五六七八九十百千萬";
    let spans = str_spans(long);
    assert_eq!(13, spans.len());
    assert_eq!(11, spans[0].len());
    assert_eq!("一二三四五六七八九十百", spans[0][10]);
    assert_eq!(2, spans[11].len());
    assert!(str_spans("").is_empty());
}

#[test]
fn simple_intervals_take_each_symbol_and_the_selections() {
    let mut table = StringTable::new();
    let jia = table.intern("甲");
    let yi_bing = table.intern("乙丙");
    let syls = syllables(3);
    let mut com = Composition::new();
    com.push(Symbol::from(syls[0]));
    com.push(Symbol::from(syls[1]));
    com.push(Symbol::from('!'));
    com.push(Symbol::from(syls[2]));
    let firsts = vec![Some(jia), None, None, Some(WordId(0x0100_0063))];
    let spelled = vec!["a".to_string(), "b".to_string(), String::new(), "c".to_string()];
    assert_eq!(
        vec![
            interval(0, 1, true, "甲"),
            interval(1, 2, true, "b"),
            interval(2, 3, false, "!"),
            interval(3, 4, true, ""),
        ],
        simple_intervals(&com, &table, &firsts, &spelled)
    );
    com.push_selection(Selection {
        start: 0,
        end: 2,
        wid: yi_bing,
    });
    assert_eq!(
        vec![
            interval(0, 2, true, "乙丙"),
            interval(2, 3, false, "!"),
            interval(3, 4, true, ""),
        ],
        simple_intervals(&com, &table, &firsts, &spelled)
    );
}

#[test]
fn no_break_stays_inside_a_selection() {
    let mut com = Composition::new();
    for s in [syl(1, 0, 1, 1), syl(2, 0, 2, 2), syl(3, 0, 3, 3), syl(4, 0, 4, 4)] {
        com.push(Symbol::from(s));
    }
    com.set_gap(2, Gap::Break);
    com.push_selection(Selection {
        start: 1,
        end: 4,
        wid: WordId(9),
    });
    assert_eq!(Some(Gap::Normal), com.gap(2));
    assert_eq!(1, com.selections().len());
    com.set_gap(3, Gap::Break);
    assert!(com.selections().is_empty());
    assert_eq!(Some(Gap::Break), com.gap(3));
    com.push_selection(Selection {
        start: 0,
        end: 2,
        wid: WordId(8),
    });
    com.insert(1, Symbol::from(syl(5, 0, 5, 1)));
    assert!(com.selections().is_empty());
    com.push_selection(Selection {
        start: 2,
        end: 4,
        wid: WordId(7),
    });
    com.remove(0);
    assert_eq!(1, com.selections()[0].start);
    assert_eq!(3, com.selections()[0].end);
    assert_eq!(Some(Gap::Normal), com.gap(2));
}
