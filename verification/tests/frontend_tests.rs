use vip::frontend::{
    accept_candidate, append_hist, control_code, on_key, page_down, page_range, page_up, parse_dest, selection_number,
    ControlKey, Dest, FrontKey, FrontState, Output,
};
use vip::utils::{Apply, ApplyOwned, Ignore};

#[test]
fn dest_from_argument() {
    assert_eq!(parse_dest(None), Some(Dest::Terminal));
    assert_eq!(parse_dest(Some("-")), Some(Dest::Terminal));
    assert_eq!(parse_dest(Some("")), Some(Dest::Terminal));
    assert_eq!(parse_dest(Some("8080")), Some(Dest::Network(8080)));
    assert_eq!(parse_dest(Some("+1")), Some(Dest::Network(1)));
    assert_eq!(parse_dest(Some("70000")), None);
    assert_eq!(parse_dest(Some("--")), None);
}

#[test]
fn control_codes() {
    assert_eq!(control_code(ControlKey::Up), 1);
    assert_eq!(control_code(ControlKey::Left), 4);
    assert_eq!(control_code(ControlKey::End), 8);
}

#[test]
fn selection_keys() {
    assert_eq!(selection_number(' '), Some(1));
    assert_eq!(selection_number('1'), Some(1));
    assert_eq!(selection_number('9'), Some(9));
    assert_eq!(selection_number('0'), Some(10));
    assert_eq!(selection_number('a'), None);
}

#[test]
fn accepting_drops_taken_tokens_and_leading_separator() {
    let mut b = b"ni'hao".to_vec();
    accept_candidate(&mut b, 2);
    assert_eq!(b, b"hao".to_vec());
    let mut b = b"nihao".to_vec();
    accept_candidate(&mut b, 5);
    assert_eq!(b, Vec::<u8>::new());
    let mut b = b"ab".to_vec();
    accept_candidate(&mut b, 0);
    assert_eq!(b, b"ab".to_vec());
}

#[test]
fn history_stays_zero_terminated() {
    let mut h = vec![0u8];
    append_hist(&mut h, b"ab");
    assert_eq!(h, b"ab\0".to_vec());
    append_hist(&mut h, b"c");
    assert_eq!(h, b"abc\0".to_vec());
    let mut e: Vec<u8> = vec![];
    append_hist(&mut e, b"x");
    assert_eq!(e, b"x\0".to_vec());
}

#[test]
fn paging() {
    assert_eq!(page_up(0), 0);
    assert_eq!(page_up(3), 2);
    assert_eq!(page_down(0, 25), 1);
    assert_eq!(page_down(1, 25), 2);
    assert_eq!(page_down(2, 25), 2);
    assert_eq!(page_down(0, 10), 1);
    assert_eq!(page_down(1, 10), 1);
    assert_eq!(page_range(2, 25), (20, 25));
    assert_eq!(page_range(0, 25), (0, 10));
    assert_eq!(page_range(1, 10), (10, 10));
}

#[test]
fn apply_helpers() {
    let v = vec![1, 2];
    let mut seen = 0;
    let r = v.apply(|x| seen = x.len());
    assert_eq!(seen, 2);
    assert_eq!(r, &vec![1, 2]);
    let mut w = vec![1];
    w.apply_mut(|x| x.push(5));
    assert_eq!(w, vec![1, 5]);
    let o = vec![3].apply_owned(|x| x.push(4));
    assert_eq!(o, vec![3, 4]);
    Err::<u8, u8>(1).ignore();
}

fn front(buf: &[u8], page: usize, dirty: bool, hist: &[u8]) -> FrontState {
    FrontState { buf: buf.to_vec(), page, dirty, hist: hist.to_vec() }
}

fn text_of(o: &Output) -> Option<Vec<u8>> {
    match o {
        Output::Text(t) => Some(t.clone()),
        _ => None,
    }
}

#[test]
fn on_key_typing_a_letter_refreshes() {
    let (s, r) = on_key(front(b"", 2, false, &[0]), FrontKey::Char('a'), &vec![]);
    assert_eq!(s.buf, b"a".to_vec());
    assert_eq!(s.page, 0);
    assert!(!s.dirty);
    assert!(matches!(r.out, Output::Nothing));
    assert!(r.refresh && r.render && !r.set_hist && !r.quit);
}

#[test]
fn on_key_choosing_candidates() {
    let cands = vec![(2, "你".as_bytes().to_vec()), (5, "你好".as_bytes().to_vec())];
    let (s, r) = on_key(front(b"ni'hao", 0, false, &[0]), FrontKey::Char(' '), &cands);
    assert_eq!(text_of(&r.out), Some("你".as_bytes().to_vec()));
    assert_eq!(s.buf, b"hao".to_vec());
    let mut h = "你".as_bytes().to_vec();
    h.push(0);
    assert_eq!(s.hist, h);
    assert!(r.set_hist && r.refresh);
    let cands = vec![(3, b"x".to_vec()), (3, "好".as_bytes().to_vec())];
    let (s, r) = on_key(s, FrontKey::Char('2'), &cands);
    assert_eq!(text_of(&r.out), Some("好".as_bytes().to_vec()));
    assert_eq!(s.buf, Vec::<u8>::new());
    // nothing left typed: the history starts afresh
    assert_eq!(s.hist, vec![0]);
    assert!(r.set_hist && r.refresh);
    // a digit naming no candidate does nothing
    let (s, r) = on_key(front(b"ab", 0, false, &[0]), FrontKey::Char('7'), &cands);
    assert_eq!(s.buf, b"ab".to_vec());
    assert!(matches!(r.out, Output::Nothing));
    assert!(!r.refresh && !r.set_hist && r.render);
}

#[test]
fn on_key_passes_keys_on_when_nothing_is_typed() {
    for c in [' ', '3', '\'', '\n', '!'] {
        let (s, r) = on_key(front(b"", 0, false, &[0]), FrontKey::Char(c), &vec![]);
        assert!(matches!(r.out, Output::Raw(x) if x == c));
        assert!(s.buf.is_empty() && !r.refresh);
    }
    let (_, r) = on_key(front(b"", 0, false, &[0]), FrontKey::Backspace, &vec![]);
    assert!(matches!(r.out, Output::Control(ControlKey::Backspace)));
    let (_, r) = on_key(front(b"ab", 0, false, &[0]), FrontKey::Control(ControlKey::Home), &vec![]);
    assert!(matches!(r.out, Output::Control(ControlKey::Home)));
    let (_, r) = on_key(front(b"ab", 0, false, &[0]), FrontKey::Char('!'), &vec![]);
    assert!(matches!(r.out, Output::Raw('!')));
}

#[test]
fn on_key_editing_keys() {
    let (s, r) = on_key(front(b"ab", 0, false, &[5, 0]), FrontKey::Char('\n'), &vec![]);
    assert_eq!(text_of(&r.out), Some(b"ab".to_vec()));
    assert!(s.buf.is_empty());
    assert_eq!(s.hist, vec![0]);
    assert!(r.set_hist && r.refresh);
    let (s, r) = on_key(front(b"ab", 0, false, &[0]), FrontKey::Backspace, &vec![]);
    assert_eq!(s.buf, b"a".to_vec());
    assert!(r.refresh && !r.set_hist);
    let (s, _) = on_key(front(b"ab", 0, false, &[0]), FrontKey::Char('\''), &vec![]);
    assert_eq!(s.buf, b"ab'".to_vec());
    let (s, r) = on_key(front(b"ab", 1, false, &[0]), FrontKey::Esc, &vec![]);
    assert!(s.buf.is_empty() && s.page == 0 && r.refresh && r.set_hist);
}

#[test]
fn on_key_paging_quit_and_other_keys() {
    let cands: Vec<(usize, Vec<u8>)> = (0..25).map(|_| (1, b"x".to_vec())).collect();
    let (s, r) = on_key(front(b"a", 0, false, &[0]), FrontKey::PageDown, &cands);
    assert_eq!(s.page, 1);
    assert!(!r.refresh && r.render);
    let (s, _) = on_key(s, FrontKey::PageDown, &cands);
    assert_eq!(s.page, 2);
    // no page starts beyond the candidates
    let (s, _) = on_key(s, FrontKey::PageDown, &cands);
    assert_eq!(s.page, 2);
    let (s, _) = on_key(s, FrontKey::PageUp, &cands);
    assert_eq!(s.page, 1);
    let (s, r) = on_key(front(b"a", 0, true, &[0]), FrontKey::Other, &cands);
    assert!(s.dirty && !r.render && !r.refresh && !r.quit);
    let (s, r) = on_key(s, FrontKey::Quit, &cands);
    assert!(r.quit && !r.render && s.dirty);
    // a pending change is fetched with the next key
    let (s, r) = on_key(s, FrontKey::PageUp, &cands);
    assert!(r.refresh && !s.dirty);
}
