use span_merger::{AllSubSlice, ByteStr, InputKind, MorpheneData, Span, SpanMerger, TrainingData};

fn texts(m: &SpanMerger) -> Vec<Vec<u8>> {
    m.spans
        .iter()
        .filter(|s| s.len > 0)
        .map(|s| s.get(m.input).as_bytes().to_vec())
        .collect()
}

fn concat(m: &SpanMerger) -> Vec<u8> {
    m.spans.iter().flat_map(|s| s.get(m.input).as_bytes().to_vec()).collect()
}

fn ids_of(m: &SpanMerger, key: &[u8]) -> Option<Vec<usize>> {
    m.pairs.find(key).map(|i| m.pairs.entries[i].1.suffix_spans_id.clone())
}

#[test]
fn from_bytes_one_span_per_byte() {
    let m = SpanMerger::from_bytes(ByteStr::from_ref(b"abc"));
    assert_eq!(m.input_kind, InputKind::Byte);
    assert_eq!(
        m.spans,
        vec![Span { begin: 0, len: 1 }, Span { begin: 1, len: 1 }, Span { begin: 2, len: 1 }]
    );
    assert_eq!(m.pairs.len(), 2);
    assert_eq!(ids_of(&m, b"ab"), Some(vec![0]));
    assert_eq!(ids_of(&m, b"bc"), Some(vec![1]));
}

#[test]
fn from_text_one_span_per_char() {
    let text = "aé€😀";
    let m = SpanMerger::from_text(ByteStr::from_str(text));
    assert_eq!(m.input_kind, InputKind::Text);
    assert_eq!(
        m.spans,
        vec![
            Span { begin: 0, len: 1 },
            Span { begin: 1, len: 2 },
            Span { begin: 3, len: 3 },
            Span { begin: 6, len: 4 }
        ]
    );
    assert_eq!(concat(&m), text.as_bytes());
}

#[test]
fn reset_span_invalid_text_falls_back_to_bytes() {
    let bytes = [b'a', 0xff, b'b'];
    let mut m = SpanMerger::from_bytes(ByteStr::from_ref(&bytes));
    m.input_kind = InputKind::Text;
    m.reset_span();
    assert_eq!(m.input_kind, InputKind::Byte);
    assert_eq!(m.spans.len(), 3);
}

#[test]
fn merge_unknown_pair_is_err() {
    let mut m = SpanMerger::from_bytes(ByteStr::from_ref(b"abc"));
    let before = m.spans.clone();
    assert_eq!(m.merge_morphene(ByteStr::from_ref(b"zz")), Err(()));
    assert_eq!(m.spans, before);
    assert_eq!(m.pairs.len(), 2);
}

#[test]
fn merge_overlapping_occurrences_left_to_right() {
    // "aaaa": occurrences of "aa" start at 0, 1, 2; the merge at 0 swallows 1, then 2 merges.
    let mut m = SpanMerger::from_bytes(ByteStr::from_ref(b"aaaa"));
    assert_eq!(m.merge_morphene(ByteStr::from_ref(b"aa")), Ok(2));
    assert_eq!(texts(&m), vec![b"aa".to_vec(), b"aa".to_vec()]);
    assert_eq!(m.spans[1].len, 0);
    assert_eq!(m.spans[3].len, 0);
    assert_eq!(concat(&m), b"aaaa");
    // the table now holds the new pair "aaaa" at span 0
    assert_eq!(ids_of(&m, b"aaaa"), Some(vec![0]));
    assert_eq!(ids_of(&m, b"aa"), None);
}

#[test]
fn merge_odd_run() {
    let mut m = SpanMerger::from_bytes(ByteStr::from_ref(b"aaa"));
    assert_eq!(m.merge_morphene(ByteStr::from_ref(b"aa")), Ok(1));
    assert_eq!(texts(&m), vec![b"aa".to_vec(), b"a".to_vec()]);
    assert_eq!(ids_of(&m, b"aaa"), Some(vec![0]));
}

#[test]
fn merge_updates_neighbour_pairs() {
    let mut m = SpanMerger::from_bytes(ByteStr::from_ref(b"xaby"));
    assert_eq!(m.merge_morphene(ByteStr::from_ref(b"ab")), Ok(1));
    assert_eq!(texts(&m), vec![b"x".to_vec(), b"ab".to_vec(), b"y".to_vec()]);
    assert_eq!(ids_of(&m, b"xab"), Some(vec![0]));
    assert_eq!(ids_of(&m, b"aby"), Some(vec![1]));
    assert_eq!(ids_of(&m, b"xa"), Some(vec![]));
    assert_eq!(ids_of(&m, b"by"), Some(vec![]));
}

#[test]
fn single_morphemes_are_not_paired() {
    let mut m = SpanMerger::from_text(ByteStr::from_str("ab ab"));
    m.single_morphene.push(b" ".to_vec());
    m.reset_merge_pair();
    assert_eq!(ids_of(&m, b"ab"), Some(vec![0, 3]));
    assert_eq!(ids_of(&m, b"b "), None);
    assert_eq!(ids_of(&m, b" a"), None);
}

#[test]
fn most_frequent_and_next() {
    let mut m = SpanMerger::from_bytes(ByteStr::from_ref(b"ababx"));
    {
        let (k, e) = m.most_frequent_morphene_pair().unwrap();
        assert_eq!(k.as_bytes(), b"ab");
        assert_eq!(e.nb(), 2);
    }
    let (k, n) = m.next().unwrap();
    assert_eq!(k.as_bytes(), b"ab");
    assert_eq!(n, 2);
    assert_eq!(texts(&m), vec![b"ab".to_vec(), b"ab".to_vec(), b"x".to_vec()]);
    assert_eq!(concat(&m), b"ababx");
}

#[test]
fn most_frequent_ignores_single_pairs_when_others_count() {
    let mut m = SpanMerger::from_bytes(ByteStr::from_ref(b"ababcd"));
    m.single_morphene.push(b"ab".to_vec());
    m.reset_merge_pair();
    let (k, e) = m.most_frequent_morphene_pair().unwrap();
    // "ab" has two spans but stays on its own; the others have one each, the last one wins.
    assert_eq!(k.as_bytes(), b"cd");
    assert_eq!(e.nb(), 1);
}

#[test]
fn next_on_single_byte_is_none() {
    let mut m = SpanMerger::from_bytes(ByteStr::from_ref(b"a"));
    assert_eq!(m.pairs.len(), 0);
    assert!(m.most_frequent_morphene_pair().is_none());
    assert!(m.next().is_none());
}

#[test]
fn merge_frequent_runs_rounds() {
    let mut m = SpanMerger::from_bytes(ByteStr::from_ref(b"abababab"));
    let rounds = m.merge_frequent(1);
    assert_eq!(rounds.len(), 2);
    assert_eq!(rounds[0].0.as_bytes(), b"ab");
    assert_eq!(rounds[0].1, 4);
    assert_eq!(rounds[1].0.as_bytes(), b"abab");
    assert_eq!(rounds[1].1, 2);
    // the round that merged only once still took place before the loop stopped
    assert_eq!(texts(&m), vec![b"abababab".to_vec()]);
    assert_eq!(concat(&m), b"abababab");
}

#[test]
fn morpheme_counts() {
    let mut m = SpanMerger::from_bytes(ByteStr::from_ref(b"ababx"));
    m.merge_morphene(ByteStr::from_ref(b"ab")).unwrap();
    let map = m.morphemes_map();
    assert_eq!(map.len(), 2);
    let ab = map.iter().find(|(k, _)| k.as_bytes() == b"ab").unwrap();
    assert_eq!(ab.1, 2);
    let x = map.iter().find(|(k, _)| k.as_bytes() == b"x").unwrap();
    assert_eq!(x.1, 1);
    let v = m.morphemes_vec();
    assert_eq!(v[0].0.as_bytes(), b"ab");
    assert_eq!(v[0].1, 2);
    assert_eq!(v[1].0.as_bytes(), b"x");
    assert_eq!(v[1].1, 1);
    let owned = m.morphemes_map_to_owned();
    assert_eq!(owned.len(), 2);
    assert!(owned.contains(&(b"ab".to_vec(), 2)));
    assert!(owned.contains(&(b"x".to_vec(), 1)));
    let total: usize = map.iter().map(|(_, c)| *c).sum();
    assert_eq!(total, texts(&m).len());
}

#[test]
fn colored_render_and_limit() {
    let m = SpanMerger::from_bytes(ByteStr::from_ref(b"abc"));
    let c = m.colored();
    assert_eq!(c.span.len(), 3);
    // the last span reaches the end of the input and is not shown
    assert_eq!(c.render(), "\x1b[30m \n\x1b[41ma\x1b[43mb\x1b[37m\x1b[40m \n");
    let l = c.limit(2);
    assert_eq!(l.input.as_bytes(), b"ab");
    assert_eq!(l.span.len(), 2);
    assert_eq!(l.render(), "\x1b[30m \n\x1b[41ma\x1b[37m\x1b[40m \n");
    let l = c.limit(100);
    assert_eq!(l.input.as_bytes(), b"abc");
    assert_eq!(l.span.len(), 3);
}

#[test]
fn colored_render_skips_empty_and_shows_bytes() {
    let bytes = [0xffu8, b'a', b'a', b'z'];
    let mut m = SpanMerger::from_bytes(ByteStr::from_ref(&bytes));
    m.merge_morphene(ByteStr::from_ref(b"aa")).unwrap();
    let c = m.colored();
    assert_eq!(c.render(), "\x1b[30m \n\x1b[41m[255]\x1b[43maa\x1b[37m\x1b[40m \n");
}

#[test]
fn all_sub_slice_of_slice() {
    let v = [1, 2, 3];
    let subs = v[..].all_sub_slice();
    let expected: Vec<&[i32]> = vec![&[1], &[2], &[3], &[1, 2], &[2, 3]];
    assert_eq!(subs, expected);
    let one = [7];
    assert!(one[..].all_sub_slice().is_empty());
}

#[test]
fn all_sub_slice_of_str() {
    let subs = "aé€".all_sub_slice();
    assert_eq!(subs, vec!["a", "é", "€", "aé", "é€"]);
    assert!("".all_sub_slice().is_empty());
    assert!("x".all_sub_slice().is_empty());
}

#[test]
fn language_data_types() {
    let d: MorpheneData = MorpheneData::Letter(b'a');
    assert_eq!(d, MorpheneData::Letter(b'a'));
    let c: MorpheneData = MorpheneData::Combined(vec![1, 2]);
    assert!(c != d);
    let _corpus: Vec<TrainingData> = Vec::new();
}

#[test]
fn law_live_spans_drop_by_merge_count() {
    let mut m = SpanMerger::from_bytes(ByteStr::from_ref(b"abcabcabx"));
    let before = texts(&m).len();
    let n_spans = m.spans.len();
    let (_, n) = m.next().unwrap();
    assert_eq!(texts(&m).len() + n, before);
    assert_eq!(m.spans.len(), n_spans);
    assert_eq!(concat(&m), b"abcabcabx");
}

#[test]
fn law_single_morphemes_never_merged() {
    let mut m = SpanMerger::from_text(ByteStr::from_str("ab ab ab cd"));
    m.single_morphene.push(b" ".to_vec());
    m.reset_merge_pair();
    let _ = m.merge_frequent(0);
    for t in texts(&m) {
        assert!(t == b" " || !t.contains(&b' '));
    }
    assert_eq!(concat(&m), "ab ab ab cd".as_bytes());
}

#[test]
fn law_pairs_listed_after_merge() {
    // after merging "ab", every adjacent pair of morphemes is listed under its bytes
    let mut m = SpanMerger::from_bytes(ByteStr::from_ref(b"abcab"));
    m.merge_morphene(ByteStr::from_ref(b"ab")).unwrap();
    assert_eq!(texts(&m), vec![b"ab".to_vec(), b"c".to_vec(), b"ab".to_vec()]);
    assert_eq!(ids_of(&m, b"abc"), Some(vec![0]));
    assert_eq!(ids_of(&m, b"cab"), Some(vec![2]));
}

#[test]
fn merge_keeps_emptied_keys_and_drops_the_merged_one() {
    let mut m = SpanMerger::from_text(ByteStr::from_str("abab"));
    assert_eq!(m.pairs.len(), 2);
    assert_eq!(m.merge_morphene(ByteStr::from_ref(b"ab")), Ok(2));
    assert_eq!(m.spans, vec![Span { begin: 0, len: 2 }, Span { begin: 1, len: 0 }, Span { begin: 2, len: 2 }, Span { begin: 3, len: 0 }]);
    assert_eq!(m.pairs.len(), 3);
    assert_eq!(ids_of(&m, b"ab"), None);
    assert_eq!(ids_of(&m, b"ba"), Some(vec![]));
    assert_eq!(ids_of(&m, b"aba"), Some(vec![]));
    assert_eq!(ids_of(&m, b"abab"), Some(vec![0]));
}

#[test]
fn merge_odd_run_table_has_one_key() {
    let mut m = SpanMerger::from_text(ByteStr::from_str("aaa"));
    assert_eq!(m.merge_morphene(ByteStr::from_ref(b"aa")), Ok(1));
    assert_eq!(m.spans, vec![Span { begin: 0, len: 2 }, Span { begin: 1, len: 0 }, Span { begin: 2, len: 1 }]);
    assert_eq!(m.pairs.len(), 1);
    assert_eq!(ids_of(&m, b"aaa"), Some(vec![0]));
}

#[test]
fn fresh_tables_have_no_empty_key() {
    let m = SpanMerger::from_bytes(ByteStr::from_ref(b"abab"));
    assert_eq!(m.pairs.len(), 2);
    assert_eq!(ids_of(&m, b"ab"), Some(vec![0, 2]));
    assert_eq!(ids_of(&m, b"ba"), Some(vec![1]));
    let t = SpanMerger::from_text(ByteStr::from_str("aé"));
    assert_eq!(t.spans, vec![Span { begin: 0, len: 1 }, Span { begin: 1, len: 2 }]);
    assert_eq!(t.pairs.len(), 1);
    assert_eq!(ids_of(&t, "aé".as_bytes()), Some(vec![0]));
}

#[test]
fn merge_on_a_table_built_before_a_new_single() {
    // "c" becomes a morpheme on its own after the table was built: the pair "bc" is still
    // listed and merges, and the merged span pairs with its neighbours.
    let mut m = SpanMerger::from_bytes(ByteStr::from_ref(b"abcd"));
    m.single_morphene.push(b"c".to_vec());
    assert_eq!(m.merge_morphene(ByteStr::from_ref(b"bc")), Ok(1));
    assert_eq!(texts(&m), vec![b"a".to_vec(), b"bc".to_vec(), b"d".to_vec()]);
    assert_eq!(ids_of(&m, b"abc"), Some(vec![0]));
    assert_eq!(ids_of(&m, b"bcd"), Some(vec![1]));
    assert_eq!(ids_of(&m, b"ab"), Some(vec![]));
    assert_eq!(ids_of(&m, b"cd"), Some(vec![]));
}

#[test]
fn next_on_a_key_with_no_span_removes_it() {
    let mut m = SpanMerger::from_text(ByteStr::from_str("abab"));
    assert_eq!(m.merge_morphene(ByteStr::from_ref(b"ab")), Ok(2));
    let (k, n) = m.next().unwrap();
    assert_eq!(k.as_bytes(), b"abab");
    assert_eq!(n, 1);
    assert_eq!(m.pairs.len(), 2);
    assert!(m.next().is_none());
    assert_eq!(m.pairs.len(), 1);
    assert!(m.next().is_none());
    assert_eq!(m.pairs.len(), 0);
    assert_eq!(concat(&m), b"abab");
}

#[test]
fn law_merged_text_count_rises_by_merges() {
    let mut m = SpanMerger::from_bytes(ByteStr::from_ref(b"abxab"));
    let count = |m: &SpanMerger, t: &[u8]| texts(m).iter().filter(|s| s.as_slice() == t).count();
    let before = count(&m, b"ab");
    let live_before = texts(&m).len();
    let n = m.merge_morphene(ByteStr::from_ref(b"ab")).unwrap();
    assert_eq!(n, 2);
    assert_eq!(count(&m, b"ab"), before + n);
    assert_eq!(texts(&m).len() + n, live_before);
    for (i, s) in m.spans.iter().enumerate() {
        assert_eq!(s.begin, i);
    }
}

#[test]
fn debug_string_lists_bytes_in_decimal() {
    assert_eq!(ByteStr::from_ref(&[0u8, 200, 255]).debug_string(), "[0, 200, 255]");
    assert_eq!(ByteStr::from_ref(&[128u8]).debug_string(), "[128]");
}

fn table_of(m: &SpanMerger) -> Vec<(Vec<u8>, Vec<usize>)> {
    let mut t: Vec<(Vec<u8>, Vec<usize>)> = m
        .pairs
        .entries
        .iter()
        .map(|(k, e)| (k.as_bytes().to_vec(), e.suffix_spans_id.clone()))
        .collect();
    t.sort();
    t
}

#[test]
fn law_text_and_bytes_agree_on_ascii() {
    let t = SpanMerger::from_text(ByteStr::from_str("hello world"));
    let b = SpanMerger::from_bytes(ByteStr::from_str("hello world"));
    assert_eq!(t.spans, b.spans);
    assert_eq!(table_of(&t), table_of(&b));
}

#[test]
fn law_reset_merge_pair_is_idempotent() {
    let mut m = SpanMerger::from_text(ByteStr::from_str("ab ab cab"));
    m.single_morphene.push(b" ".to_vec());
    m.reset_merge_pair();
    let once = table_of(&m);
    m.reset_merge_pair();
    assert_eq!(table_of(&m), once);
    assert_eq!(ids_of(&m, b"ab"), Some(vec![0, 3, 7]));
}

#[test]
fn law_reset_lists_every_span_but_the_last() {
    let mut m = SpanMerger::from_bytes(ByteStr::from_ref(b"abcab"));
    m.reset_merge_pair();
    let mut listed: Vec<usize> = table_of(&m).into_iter().flat_map(|(_, ids)| ids).collect();
    listed.sort();
    assert_eq!(listed, vec![0, 1, 2, 3]);
}

#[test]
fn merge_frequent_goes_on_after_a_single_pair() {
    // every pair is made of morphemes on their own or is itself one: the rounds still go on
    let mut m = SpanMerger::from_bytes(ByteStr::from_ref(b"abxcd"));
    m.single_morphene.push(b"ab".to_vec());
    m.single_morphene.push(b"cd".to_vec());
    m.single_morphene.push(b"x".to_vec());
    m.reset_merge_pair();
    let rounds = m.merge_frequent(0);
    assert_eq!(rounds.len(), 2);
    assert_eq!(rounds[0].0.as_bytes(), b"cd");
    assert_eq!(rounds[1].0.as_bytes(), b"ab");
    assert_eq!(texts(&m), vec![b"ab".to_vec(), b"x".to_vec(), b"cd".to_vec()]);
}

#[test]
fn merge_on_a_sound_table_missing_a_span() {
    // "ba" at span 1 is not listed, but its key is in the table: the merge goes on
    let mut m = SpanMerger::from_bytes(ByteStr::from_ref(b"ababab"));
    m.pairs.remove_id(b"ab", 2);
    m.pairs.remove_id(b"ab", 4);
    m.pairs.remove_id(b"ba", 1);
    assert_eq!(m.merge_morphene(ByteStr::from_ref(b"ab")), Ok(1));
    assert_eq!(texts(&m), vec![b"ab".to_vec(), b"a".to_vec(), b"b".to_vec(), b"a".to_vec(), b"b".to_vec()]);
    assert_eq!(ids_of(&m, b"aba"), Some(vec![0]));
}
