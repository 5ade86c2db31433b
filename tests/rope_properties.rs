use rope::Rope;

const CORPUS: &str = "hi there hello world there once was a kitten that had a chocolate ice cream";
const WIDE: &str = "naïve café — 日本語 text 🦀 ok";

fn collect(rope: &Rope) -> String {
    let mut it = rope.iter();
    let mut out = String::new();
    while let Some(c) = it.next() {
        out.push(c);
    }
    out
}

#[test]
fn round_trip_keeps_text() {
    for s in ["", "a", "hello world", CORPUS, WIDE, "ééééé", "\n\n\n"] {
        assert_eq!(Rope::from_str(s).to_string().unwrap(), s);
    }
}

#[test]
fn empty_rope_reads_as_empty_text() {
    let rope = Rope::new();
    assert_eq!(rope.to_string().unwrap(), "");
    assert_eq!(rope.len(), 0);
    assert_eq!(rope.index(0), None);
    assert_eq!(collect(&rope), "");
    assert_eq!(rope.line_count(), 1);
    assert_eq!(Rope::default().to_string().unwrap(), "");
}

#[test]
fn length_matches_text_and_iteration() {
    for s in [CORPUS, WIDE, ""] {
        let mut rope = Rope::from_str(s);
        rope.insert(2, "ü");
        rope.append("∑x");
        let text = rope.to_string().unwrap();
        assert_eq!(rope.len(), text.len());
        let walked = collect(&rope);
        assert_eq!(walked, text);
        let bytes: usize = walked.chars().map(|c| c.len_utf8()).sum();
        assert_eq!(rope.len(), bytes);
    }
    assert_eq!(Rope::from_str(WIDE).len(), WIDE.len());
}

#[test]
fn split_then_concat_gives_back_the_text() {
    for idx in 0..=CORPUS.len() {
        let (left, right) = Rope::from_str(CORPUS).split(idx);
        assert_eq!(left.len(), idx);
        assert_eq!(Rope::concat(left, right).to_string().unwrap(), CORPUS);
    }
    for (idx, _) in WIDE.char_indices() {
        let (left, right) = Rope::from_str(WIDE).split(idx);
        assert_eq!(left.to_string().unwrap(), &WIDE[..idx]);
        assert_eq!(right.to_string().unwrap(), &WIDE[idx..]);
        assert_eq!(Rope::concat(left, right).to_string().unwrap(), WIDE);
    }
}

#[test]
fn insert_matches_byte_slices() {
    for i in 0..=CORPUS.len() {
        let mut rope = Rope::from_str(CORPUS);
        rope.insert(i, "<é>");
        assert_eq!(rope.to_string().unwrap(), format!("{}<é>{}", &CORPUS[..i], &CORPUS[i..]));
    }
    for (i, _) in WIDE.char_indices() {
        let mut rope = Rope::from_str(WIDE);
        rope.insert(i, "xy");
        assert_eq!(rope.to_string().unwrap(), format!("{}xy{}", &WIDE[..i], &WIDE[i..]));
    }
}

#[test]
fn insert_past_the_end_appends() {
    let mut rope = Rope::from_str("hello");
    rope.insert(99, "!");
    assert_eq!(rope.to_string().unwrap(), "hello!");
    let mut empty = Rope::new();
    empty.insert(7, "text");
    assert_eq!(empty.to_string().unwrap(), "text");
}

#[test]
fn delete_matches_byte_slices() {
    let n = CORPUS.len();
    for start in 0..n {
        for end in start..n + 3 {
            let mut rope = Rope::from_str(CORPUS);
            rope.delete(start, end);
            let tail = if end + 1 >= n { "" } else { &CORPUS[end + 1..] };
            assert_eq!(rope.to_string().unwrap(), format!("{}{}", &CORPUS[..start], tail));
        }
    }
}

#[test]
fn delete_with_start_after_end_does_nothing() {
    let mut rope = Rope::from_str("hello world");
    rope.delete(6, 5);
    assert_eq!(rope.to_string().unwrap(), "hello world");
}

#[test]
fn delete_whole_characters_of_wide_text() {
    let mut rope = Rope::from_str("aé日🦀b");
    // 'é' is bytes 1..=2
    rope.delete(1, 2);
    assert_eq!(rope.to_string().unwrap(), "a日🦀b");
    // '🦀' is now bytes 4..=7
    rope.delete(4, 7);
    assert_eq!(rope.to_string().unwrap(), "a日b");
}

#[test]
fn delete_on_empty_rope() {
    let mut rope = Rope::new();
    rope.delete(0, 3);
    assert_eq!(rope.to_string().unwrap(), "");
}

#[test]
fn index_agrees_with_text_on_ascii() {
    let rope = Rope::from_str(CORPUS);
    for (i, c) in CORPUS.chars().enumerate() {
        assert_eq!(rope.index(i), Some(c));
    }
    assert_eq!(rope.index(CORPUS.len()), None);
    assert_eq!(rope.index(CORPUS.len() + 10), None);
}

#[test]
fn index_routes_by_bytes_then_counts_characters_in_the_leaf() {
    // "ééééé" is ten bytes: a leaf of four characters and a leaf of one
    let rope = Rope::from_str("ééééé");
    assert_eq!(rope.index(0), Some('é'));
    assert_eq!(rope.index(3), Some('é'));
    assert_eq!(rope.index(4), None);
    assert_eq!(rope.index(8), Some('é'));
    assert_eq!(rope.index(9), None);
}

#[test]
fn line_extraction() {
    let rope = Rope::from_str("a\nbb\nc");
    assert_eq!(rope.line(1), vec!['a', '\n']);
    assert_eq!(rope.line(2), vec!['b', 'b', '\n']);
    assert_eq!(rope.line(3), vec!['c']);
    assert_eq!(rope.line_count(), 3);
}

#[test]
fn line_out_of_range_is_empty() {
    let rope = Rope::from_str("a\nbb\nc");
    assert_eq!(rope.line(0), Vec::<char>::new());
    assert_eq!(rope.line(4), Vec::<char>::new());
    let ends_with_newline = Rope::from_str("x\n");
    assert_eq!(ends_with_newline.line_count(), 2);
    assert_eq!(ends_with_newline.line(2), Vec::<char>::new());
}

#[test]
fn line_of_wide_text() {
    let rope = Rope::from_str("日本\nüber\n🦀");
    assert_eq!(rope.line(2), vec!['ü', 'b', 'e', 'r', '\n']);
    assert_eq!(rope.line(3), vec!['🦀']);
    assert_eq!(rope.line_count(), 3);
}

#[test]
fn insert_cthulhu_scenario() {
    let mut rope = Rope::from_str("hello world");
    rope.insert(5, " CTHULHU");
    assert_eq!(rope.to_string().unwrap(), "hello CTHULHU world");
}

#[test]
fn split_corpus_at_seventy_four() {
    let (left, right) = Rope::from_str(CORPUS).split(74);
    assert_eq!(left.len(), 74);
    assert_eq!(right.to_string().unwrap(), "m");
}

#[test]
fn append_nothing_keeps_text() {
    for s in ["", "Hello", WIDE] {
        let mut rope = Rope::from_str(s);
        rope.append("");
        assert_eq!(rope.to_string().unwrap(), s);
    }
    let mut empty = Rope::new();
    empty.append("");
    assert_eq!(empty.to_string().unwrap(), "");
}

#[test]
fn concat_with_empty_side() {
    let a = Rope::concat(Rope::new(), Rope::from_str("abc"));
    assert_eq!(a.to_string().unwrap(), "abc");
    let b = Rope::concat(Rope::from_str("abc"), Rope::new());
    assert_eq!(b.to_string().unwrap(), "abc");
    let c = Rope::concat(Rope::new(), Rope::new());
    assert_eq!(c.to_string().unwrap(), "");
}

#[test]
fn construction_cuts_wide_text_between_characters() {
    // four-byte characters: eight bytes make two of them per leaf
    let s = "🦀🦀🦀🦀🦀";
    let rope = Rope::from_str(s);
    assert_eq!(rope.to_string().unwrap(), s);
    assert_eq!(rope.index(0), Some('🦀'));
    assert_eq!(rope.index(8), Some('🦀'));
}

#[test]
fn many_edits_keep_text_consistent() {
    let mut rope = Rope::new();
    let mut model = String::new();
    for i in 0..200usize {
        let piece = if i % 3 == 0 { "ab" } else if i % 3 == 1 { "é" } else { "\n" };
        let mut at = (i * 7) % (model.len() + 1);
        while !model.is_char_boundary(at) {
            at -= 1;
        }
        rope.insert(at, piece);
        model.insert_str(at, piece);
        if i % 5 == 0 && !model.is_empty() {
            let start = model.char_indices().nth(model.chars().count() / 2).unwrap().0;
            let width = model[start..].chars().next().unwrap().len_utf8();
            rope.delete(start, start + width - 1);
            model.replace_range(start..start + width, "");
        }
        assert_eq!(rope.to_string().unwrap(), model);
        assert_eq!(rope.len(), model.len());
    }
    assert_eq!(rope.line_count(), model.matches('\n').count() + 1);
}

#[test]
fn clone_is_an_independent_copy() {
    let original = Rope::from_str(WIDE);
    let mut copy = original.clone();
    copy.append("!");
    assert_eq!(original.to_string().unwrap(), WIDE);
    assert_eq!(copy.to_string().unwrap(), format!("{}!", WIDE));
    assert_eq!(Rope::new().clone().to_string().unwrap(), "");
}

#[test]
fn index_past_the_byte_length_is_absent() {
    for s in ["ééééé", WIDE, CORPUS, ""] {
        let rope = Rope::from_str(s);
        for i in s.len()..s.len() + 5 {
            assert_eq!(rope.index(i), None);
        }
        for i in 0..s.len() {
            if let Some(c) = rope.index(i) {
                assert!(s.contains(c));
            }
        }
    }
}

#[test]
fn concat_with_empty_side_keeps_the_tree() {
    // the tree shows through `index` on multi-byte text
    let s = "ééééé";
    let alone = Rope::from_str(s);
    let joined = Rope::concat(Rope::new(), Rope::from_str(s));
    let joined_right = Rope::concat(Rope::from_str(s), Rope::new());
    for i in 0..s.len() + 2 {
        assert_eq!(joined.index(i), alone.index(i));
        assert_eq!(joined_right.index(i), alone.index(i));
    }
}

#[test]
fn balanced_construction_routes_by_leaf() {
    // "ü" is two bytes: leaves of four characters each, and the last holds the rest
    let s = "üüüüüüüüüü";
    let rope = Rope::from_str(s);
    assert_eq!(rope.index(0), Some('ü'));
    assert_eq!(rope.index(4), None);
    assert_eq!(rope.index(8), Some('ü'));
    assert_eq!(rope.index(16), Some('ü'));
    assert_eq!(rope.index(18), None);
}
