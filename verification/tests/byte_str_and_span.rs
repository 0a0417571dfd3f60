use span_merger::{ByteStr, InputKind, MorphenePairEntry, MorphenePairs, Span, char_frequency};

#[test]
fn byte_str_basics() {
    let bytes = b"hello";
    let s = ByteStr::from_ref(bytes);
    assert_eq!(s.len(), 5);
    assert!(!s.is_empty());
    assert_eq!(s.byte_at(1), b'e');
    assert_eq!(s.slice(1, 3).as_bytes(), b"el");
    assert!(s.eq_bytes(b"hello"));
    assert!(!s.eq_bytes(b"hell"));
    assert!(ByteStr::from_str("hello") == s);
    assert!(ByteStr::from(&bytes[..]) == s);
    assert!(ByteStr::from_ref(b"") .is_empty());
}

#[test]
fn byte_str_from_mut_writes_through() {
    let mut buf = [1u8, 2, 3];
    {
        let m = ByteStr::from_mut(&mut buf);
        m.0[0] = 9;
    }
    assert_eq!(buf, [9, 2, 3]);
}

#[test]
fn byte_str_debug_text_and_bytes() {
    assert_eq!(ByteStr::from_ref("héllo".as_bytes()).debug_string(), "héllo");
    assert_eq!(ByteStr::from_ref(&[255u8, 0]).debug_string(), "[255, 0]");
    assert_eq!(ByteStr::from_ref(b"").debug_string(), "");
}

#[test]
fn span_basics() {
    let s = Span { begin: 2, len: 3 };
    assert_eq!(s.end(), 5);
    assert!(!s.is_empty());
    assert_eq!(s.with_added_len(4), Span { begin: 2, len: 7 });
    let mut t = s;
    t.set_end(10);
    assert_eq!(t, Span { begin: 2, len: 8 });
    let input = ByteStr::from_ref(b"abcdefgh");
    assert_eq!(s.get(input).as_bytes(), b"cde");
    assert_eq!(Span::default(), Span { begin: 0, len: 0 });
    assert!(Span::default().is_empty());
}

#[test]
fn input_kind_tests() {
    assert!(InputKind::Text.is_text());
    assert!(!InputKind::Text.is_byte());
    assert!(InputKind::Byte.is_byte());
    assert!(!InputKind::Byte.is_text());
}

#[test]
fn pair_entry_insert_remove_keeps_order() {
    let mut e = MorphenePairEntry::new();
    assert_eq!(e.nb(), 0);
    assert!(e.insert(5));
    assert!(e.insert(2));
    assert!(e.insert(9));
    assert!(!e.insert(5));
    assert_eq!(e.suffix_spans_id, vec![2, 5, 9]);
    assert_eq!(e.nb(), 3);
    assert!(e.remove(5));
    assert!(!e.remove(5));
    assert_eq!(e.suffix_spans_id, vec![2, 9]);
}

#[test]
fn pair_table_operations() {
    let input = b"abab";
    let mut t = MorphenePairs::new();
    assert_eq!(t.len(), 0);
    t.insert_id(ByteStr::from_ref(&input[0..2]), 0);
    t.insert_id(ByteStr::from_ref(&input[1..3]), 1);
    t.insert_id(ByteStr::from_ref(&input[2..4]), 2);
    assert_eq!(t.len(), 2);
    assert_eq!(t.find(b"ab"), Some(0));
    assert_eq!(t.find(b"ba"), Some(1));
    assert_eq!(t.find(b"zz"), None);
    assert_eq!(t.entries[0].1.suffix_spans_id, vec![0, 2]);
    assert!(t.remove_id(b"ab", 0));
    assert!(!t.remove_id(b"zz", 0));
    assert_eq!(t.entries[0].1.suffix_spans_id, vec![2]);
    let removed = t.remove(b"ba").unwrap();
    assert_eq!(removed.suffix_spans_id, vec![1]);
    assert!(t.remove(b"ba").is_none());
    assert_eq!(t.len(), 1);
    t.clear();
    assert_eq!(t.len(), 0);
}

#[test]
fn byte_str_mut_set_byte() {
    let mut buf = [0u8; 3];
    {
        let mut m = ByteStr::from_mut(&mut buf);
        m.set_byte(2, 7);
    }
    assert_eq!(buf, [0, 0, 7]);
}

#[test]
fn char_frequency_counts_and_orders() {
    let chars: Vec<char> = "abracadabra é".chars().collect();
    let v = char_frequency(&chars);
    assert_eq!(v[0], ('a', 5));
    let mut sorted = v.clone();
    sorted.sort();
    assert_eq!(sorted, vec![(' ', 1), ('a', 5), ('b', 2), ('c', 1), ('d', 1), ('r', 2), ('é', 1)]);
    for w in v.windows(2) {
        assert!(w[0].1 >= w[1].1);
    }
    let total: u64 = v.iter().map(|(_, n)| *n).sum();
    assert_eq!(total, chars.len() as u64);
}

#[test]
fn char_frequency_of_nothing_is_empty() {
    assert_eq!(char_frequency(&[]), vec![]);
}

#[test]
fn byte_str_derefs_and_compares_with_slices() {
    let b = ByteStr::from_ref(b"abc");
    assert_eq!(b[1], b'b');
    assert_eq!(&b[1..], b"bc");
    assert_eq!(b.iter().count(), 3);
    assert!(b == b"abc"[..]);
    assert!(!(b == b"abd"[..]));
}

#[test]
fn report_lists_rounds_morphemes_and_picture() {
    let rounds = vec![(ByteStr::from_ref(b"ab"), 3usize), (ByteStr::from_ref(&[255u8]), 12)];
    let morphemes = vec![(ByteStr::from_ref(b"ab"), 2usize), (ByteStr::from_ref(b"c"), 1)];
    let r = span_merger::report(&rounds, &morphemes, "PIC");
    assert_eq!(
        r,
        "\"ab\" x3\n\"[255]\" x12\n\n\n\n\nMorpheme:\n\n\n\n\"ab\" : x2\r\n\"c\" : x1\r\n\n\n\n\nExemple of tokenization:\n\nPIC"
    );
    assert_eq!(span_merger::report(&vec![], &vec![], ""), "\n\n\n\nMorpheme:\n\n\n\n\n\n\n\nExemple of tokenization:\n\n");
}

#[test]
fn push_decimal_writes_digits() {
    let mut s = String::from("n=");
    span_merger::byte_str::push_decimal(&mut s, 0);
    span_merger::byte_str::push_decimal(&mut s, 1907);
    assert_eq!(s, "n=01907");
}
