use vip::dict::{sort_and_dedup, CodeMap, Encoding, load_id, load_map, bytes_eq, is_prefix};
use vip::text::{chars_of, parse_u16};

fn enc() -> Encoding {
    // "ni" spells words 3 and 1, "nihao" word 2, "n" word 4, "hao" word 5 and 6000
    Encoding::load("ni 3 1\nnihao 2\nn 4\nhao 5 6000\n", "你\n好\n尼\n嗯\n号\n").unwrap()
}

#[test]
fn sort_and_dedup_sorts_and_removes_repeats() {
    assert_eq!(sort_and_dedup(vec![5, 3, 5, 1, 3]), vec![1, 3, 5]);
    assert_eq!(sort_and_dedup(vec![]), Vec::<u16>::new());
    assert_eq!(sort_and_dedup(vec![7]), vec![7]);
}

#[test]
fn sort_and_dedup_is_idempotent() {
    let once = sort_and_dedup(vec![9, 2, 2, 65535, 0, 4]);
    assert_eq!(sort_and_dedup(once.clone()), once);
    assert_eq!(once, vec![0, 2, 4, 9, 65535]);
}

#[test]
fn code_map_read_after_write() {
    let mut m = CodeMap::new();
    assert_eq!(m.len(), 0);
    m.insert(b"ab".to_vec(), vec![1, 2]);
    m.insert(b"c".to_vec(), vec![3]);
    assert_eq!(m.get(b"ab"), Some(&vec![1, 2]));
    m.insert(b"ab".to_vec(), vec![9]);
    assert_eq!(m.get(b"ab"), Some(&vec![9]));
    assert_eq!(m.get(b"c"), Some(&vec![3]));
    assert_eq!(m.get(b"a"), None);
    assert_eq!(m.len(), 2);
}

#[test]
fn byte_helpers() {
    assert!(bytes_eq(b"abc", b"abc"));
    assert!(!bytes_eq(b"abc", b"abd"));
    assert!(!bytes_eq(b"ab", b"abc"));
    assert!(is_prefix(b"ab", b"abc"));
    assert!(is_prefix(b"", b"abc"));
    assert!(!is_prefix(b"abcd", b"abc"));
    assert!(!is_prefix(b"b", b"abc"));
}

#[test]
fn load_map_reads_lines_and_keeps_the_last_duplicate() {
    let (max_len, m) = load_map("ni 3 1\nnihao 2\r\nni 7\n").unwrap();
    assert_eq!(max_len, 5);
    assert_eq!(m.get(b"ni"), Some(&vec![7]));
    assert_eq!(m.get(b"nihao"), Some(&vec![2]));
    assert_eq!(m.len(), 2);
}

#[test]
fn load_map_line_without_ids_and_final_line_without_newline() {
    let (max_len, m) = load_map("abc\nx +12 0").unwrap();
    assert_eq!(max_len, 3);
    assert_eq!(m.get(b"abc"), Some(&vec![]));
    assert_eq!(m.get(b"x"), Some(&vec![12, 0]));
}

#[test]
fn load_map_empty_text() {
    let (max_len, m) = load_map("").unwrap();
    assert_eq!(max_len, 0);
    assert_eq!(m.len(), 0);
}

#[test]
fn load_map_rejects_bad_ids() {
    assert!(load_map("ni 65536\n").is_none());
    assert!(load_map("ni 1  2\n").is_none());
    assert!(load_map("ni 1 \n").is_none());
    assert!(load_map("ni -1\n").is_none());
    assert!(load_map("ni +\n").is_none());
    assert!(load_map("ni x\n").is_none());
    assert!(load_map("ok 1\nni 1a\n").is_none());
}

#[test]
fn load_map_truncates_characters_to_bytes() {
    let (_, m) = load_map("\u{141} 1\n").unwrap();
    assert_eq!(m.get(&[0x41]), Some(&vec![1]));
}

#[test]
fn load_id_takes_first_characters() {
    assert_eq!(load_id("你好\n好\r\n"), Some(vec!['你', '好']));
    assert_eq!(load_id(""), Some(vec![]));
    assert_eq!(load_id("a\n\nb\n"), None);
    assert_eq!(load_id("a\n\r\n"), None);
}

#[test]
fn encoding_load_fails_on_either_text() {
    assert!(Encoding::load("a 1\n", "x\n").is_some());
    assert!(Encoding::load("a q\n", "x\n").is_none());
    assert!(Encoding::load("a 1\n", "x\n\n").is_none());
}

#[test]
fn parse_u16_values() {
    let t = chars_of("65535 +7 007 65536 - 12a");
    assert_eq!(parse_u16(&t, 0, 5), Some(65535));
    assert_eq!(parse_u16(&t, 6, 8), Some(7));
    assert_eq!(parse_u16(&t, 9, 12), Some(7));
    assert_eq!(parse_u16(&t, 13, 18), None);
    assert_eq!(parse_u16(&t, 19, 20), None);
    assert_eq!(parse_u16(&t, 21, 24), None);
    assert_eq!(parse_u16(&t, 0, 0), None);
}

#[test]
fn perfect_perfect_exact_lookup() {
    let e = enc();
    assert_eq!(e.max_len, 5);
    assert_eq!(e.perfect_perfect(b"ni"), vec![3, 1]);
    assert_eq!(e.perfect_perfect(b"nih"), Vec::<u16>::new());
}

#[test]
fn prefix_perfect_collects_spellings_that_start_with_input() {
    let e = enc();
    assert_eq!(e.prefix_perfect(b"n"), vec![1, 2, 3, 4]);
    assert_eq!(e.prefix_perfect(b"ni"), vec![1, 2, 3]);
    assert_eq!(e.prefix_perfect(b"nih"), vec![2]);
    assert_eq!(e.prefix_perfect(b"h"), vec![5, 6000]);
    assert_eq!(e.prefix_perfect(b"q"), Vec::<u16>::new());
    assert_eq!(e.prefix_perfect(b""), Vec::<u16>::new());
    assert_eq!(e.prefix_perfect(b"nihaoo"), Vec::<u16>::new());
}

#[test]
fn exact_matches_are_among_prefix_matches() {
    let e = enc();
    for x in [&b"ni"[..], b"n", b"hao", b"nihao"] {
        let exact = e.perfect_perfect(x);
        let prefix = e.prefix_perfect(x);
        for id in exact {
            assert!(prefix.contains(&id));
        }
    }
}

#[test]
fn typing_more_narrows_prefix_matches() {
    let e = enc();
    let wide = e.prefix_perfect(b"n");
    for id in e.prefix_perfect(b"nih") {
        assert!(wide.contains(&id));
    }
}

#[test]
fn perfect_prefix_collects_spellings_that_are_prefixes() {
    let e = enc();
    assert_eq!(e.perfect_prefix(b"nihao"), vec![1, 2, 3, 4]);
    assert_eq!(e.perfect_prefix(b"nixyzw"), vec![1, 3, 4]);
    assert_eq!(e.perfect_prefix(b"haoxx"), vec![5, 6000]);
    for i in 1..=5 {
        for id in e.perfect_perfect(&b"nihao"[..i]) {
            assert!(e.perfect_prefix(b"nihao").contains(&id));
        }
    }
}

#[test]
fn prefix_prefix_pairs_lengths_with_words() {
    let e = enc();
    assert_eq!(e.prefix_prefix(b"nih"), vec![(1, 1), (1, 2), (1, 3), (1, 4), (2, 1), (2, 2), (2, 3), (3, 2)]);
    assert_eq!(e.prefix_prefix(b""), vec![]);
    assert_eq!(e.prefix_prefix(b"q"), vec![]);
}

#[test]
fn code_of_and_words_of() {
    let e = enc();
    assert_eq!(e.code_of('你'), Some(1));
    assert_eq!(e.code_of('号'), Some(5));
    assert_eq!(e.code_of('x'), None);
    assert_eq!(e.words_of(&[1, 2, 5]), Ok(vec!['你', '好', '号']));
    assert_eq!(e.words_of(&[]), Ok(vec![]));
    assert_eq!(e.words_of(&[1, 0, 9]), Err(0));
    assert_eq!(e.words_of(&[1, 6, 0]), Err(6));
}

#[test]
fn load_map_sorts_unsorted_lines_and_later_lines_win() {
    let (max_len, m) = load_map("b 2\nab 4\na 1\nzz 9\nb 3\naa 5\nb 8\n").unwrap();
    assert_eq!(max_len, 2);
    assert_eq!(m.len(), 5);
    assert_eq!(m.get(b"b"), Some(&vec![8]));
    assert_eq!(m.get(b"a"), Some(&vec![1]));
    assert_eq!(m.get(b"aa"), Some(&vec![5]));
    assert_eq!(m.get(b"ab"), Some(&vec![4]));
    assert_eq!(m.get(b"zz"), Some(&vec![9]));
    assert_eq!(m.get(b"c"), None);
}

#[test]
fn sort_and_dedup_long_list() {
    let x: Vec<u16> = (0..200u32).map(|i| ((i * 7919) % 97) as u16).collect();
    let mut want: Vec<u16> = (0..97).collect();
    want.retain(|v| x.contains(v));
    assert_eq!(sort_and_dedup(x), want);
}

#[test]
fn perfect_prefix_of_input_shorter_than_longest_spelling() {
    let e = enc();
    assert_eq!(e.perfect_prefix(b"ni"), vec![1, 3, 4]);
    assert_eq!(e.perfect_prefix(b"n"), vec![4]);
    assert_eq!(e.perfect_prefix(b""), Vec::<u16>::new());
}
