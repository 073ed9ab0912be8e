use vstd::prelude::*;
use crate::text::{chars_of, parse_u16, parse_u16_spec};

verus! {

/// Candidates are shown this many to a page.
pub const PAGE_SIZE: usize = 10;

/// Where the chosen text goes: back to the terminal, or to a local UDP port.
#[derive(Debug, Clone, Copy, PartialEq, Eq)]
pub enum Dest {
    Terminal,
    Network(u16),
}

/// The destination that the command-line argument names: the terminal without an
/// argument, for `"-"` and for `""`; a UDP port for a decimal `u16`; `None` otherwise.
pub open spec fn dest_spec(arg: Option<Seq<char>>) -> Option<Dest> {
    match arg {
        None => Some(Dest::Terminal),
        Some(s) => if s.len() == 0 || s == seq!['-'] {
            Some(Dest::Terminal)
        } else {
            match parse_u16_spec(s) {
                Some(p) => Some(Dest::Network(p)),
                None => None,
            }
        },
    }
}

/// Read the destination from the first command-line argument.
pub fn parse_dest(arg: Option<&str>) -> (r: Option<Dest>)
    ensures
        r == dest_spec(
            match arg {
                Some(s) => Some(s@),
                None => None,
            },
        ),
{
    match arg {
        None => Some(Dest::Terminal),
        Some(s) => {
            let t = chars_of(s);
            if t.len() == 0 || (t.len() == 1 && t[0] == '-') {
                proof {
                    if t@.len() == 1 {
                        assert(t@ =~= seq!['-']);
                    }
                }
                return Some(Dest::Terminal);
            }
            assert(t@ != seq!['-']) by {
                if t@.len() == 1 {
                    assert(t@[0] != '-');
                }
            }
            assert(t@.subrange(0, t@.len() as int) =~= t@);
            match parse_u16(t.as_slice(), 0, t.len()) {
                Some(p) => Some(Dest::Network(p)),
                None => None,
            }
        },
    }
}

/// The editing and navigation keys that are passed on to the destination.
#[derive(Debug, Clone, Copy, PartialEq, Eq)]
pub enum ControlKey {
    Up,
    Right,
    Down,
    Left,
    Backspace,
    Delete,
    Home,
    End,
}

/// The code that stands for a control key in the two-byte control message (`'\0'`, code).
pub fn control_code(key: ControlKey) -> (r: u8)
    ensures
        r == match key {
            ControlKey::Up => 1u8,
            ControlKey::Right => 2u8,
            ControlKey::Down => 3u8,
            ControlKey::Left => 4u8,
            ControlKey::Backspace => 5u8,
            ControlKey::Delete => 6u8,
            ControlKey::Home => 7u8,
            ControlKey::End => 8u8,
        },
{
    match key {
        ControlKey::Up => 1,
        ControlKey::Right => 2,
        ControlKey::Down => 3,
        ControlKey::Left => 4,
        ControlKey::Backspace => 5,
        ControlKey::Delete => 6,
        ControlKey::Home => 7,
        ControlKey::End => 8,
    }
}

/// Which candidate of the page a key picks: space the first, `'1'` to `'9'` the first
/// to ninth, `'0'` the tenth; other keys pick none.
pub fn selection_number(c: char) -> (r: Option<usize>)
    ensures
        r == if c == ' ' {
            Some(1usize)
        } else if c == '0' {
            Some(10usize)
        } else if '1' <= c <= '9' {
            Some((c as u32 - '0' as u32) as usize)
        } else {
            None
        },
{
    if c == ' ' {
        Some(1)
    } else if c == '0' {
        Some(10)
    } else if '1' <= c && c <= '9' {
        Some((c as u32 - '0' as u32) as usize)
    } else {
        None
    }
}

/// The tokens left after a candidate that takes the first `len` tokens is chosen: a
/// separator at the front of what is left is dropped too.
pub open spec fn after_accept(buf: Seq<u8>, len: int) -> Seq<u8> {
    let rest = buf.skip(len);
    if rest.len() > 0 && rest[0] == 39u8 {
        rest.drop_first()
    } else {
        rest
    }
}

/// Drop the tokens that the chosen candidate took.
pub fn accept_candidate(buf: &mut Vec<u8>, len: usize)
    requires
        len <= old(buf)@.len(),
    ensures
        final(buf)@ == after_accept(old(buf)@, len as int),
{
    let ghost b = buf@;
    let mut start = len;
    if start < buf.len() && buf[start] == 39u8 {
        start = start + 1;
    }
    let mut rest: Vec<u8> = Vec::new();
    let mut i = start;
    while i < buf.len()
        invariant
            b == buf@,
            start <= i <= b.len(),
            rest@ == b.subrange(start as int, i as int),
        decreases b.len() - i,
    {
        rest.push(buf[i]);
        assert(b.subrange(start as int, i + 1) =~= b.subrange(start as int, i as int).push(b[i as int]));
        i = i + 1;
    }
    assert(rest@ =~= after_accept(b, len as int));
    *buf = rest;
}

/// The history buffer is a zero-terminated text: append `new` before the terminator.
pub open spec fn append_hist_spec(hist: Seq<u8>, new: Seq<u8>) -> Seq<u8> {
    (if hist.len() > 0 { hist.drop_last() } else { hist }) + new + seq![0u8]
}

/// Append the text `new` to the zero-terminated history buffer.
pub fn append_hist(hist: &mut Vec<u8>, new: &[u8])
    ensures
        final(hist)@ == append_hist_spec(old(hist)@, new@),
{
    let ghost h = hist@;
    hist.pop();
    let ghost base = hist@;
    assert(base == (if h.len() > 0 { h.drop_last() } else { h }));
    let mut i: usize = 0;
    while i < new.len()
        invariant
            i <= new@.len(),
            hist@ == base + new@.take(i as int),
        decreases new@.len() - i,
    {
        hist.push(new[i]);
        assert(base + new@.take(i + 1) =~= (base + new@.take(i as int)).push(new@[i as int]));
        i = i + 1;
    }
    hist.push(0);
    assert(new@.take(new@.len() as int) =~= new@);
    assert(hist@ =~= append_hist_spec(h, new@));
}

/// The previous page, if there is one.
pub fn page_up(page: usize) -> (r: usize)
    ensures
        r == if page > 0 { page - 1 } else { 0int },
{
    if page > 0 {
        page - 1
    } else {
        page
    }
}

/// The next page, when the next page holds a full page of the `n` candidates.
pub fn page_down(page: usize, n: usize) -> (r: usize)
    requires
        page * PAGE_SIZE + PAGE_SIZE <= usize::MAX,
    ensures
        r == if page * PAGE_SIZE + PAGE_SIZE <= n { page + 1 } else { page as int },
{
    if PAGE_SIZE * page + PAGE_SIZE <= n {
        page + 1
    } else {
        page
    }
}

/// The range of the `n` candidates that page `page` shows.
pub fn page_range(page: usize, n: usize) -> (r: (usize, usize))
    requires
        page * PAGE_SIZE <= n,
    ensures
        r.0 == page * PAGE_SIZE,
        r.1 == if n < page * PAGE_SIZE + PAGE_SIZE { n as int } else { page * PAGE_SIZE + PAGE_SIZE },
        r.0 <= r.1 <= n,
{
    let start = PAGE_SIZE * page;
    let end = if n - start < PAGE_SIZE { n } else { start + PAGE_SIZE };
    (start, end)
}

/// A key of the terminal front end: a character, the backspace key, a quit key
/// (Ctrl-C, Ctrl-D), paging, escape, a control key passed on, or any other key.
#[derive(Debug, Clone, Copy, PartialEq, Eq)]
pub enum FrontKey {
    Char(char),
    Backspace,
    Quit,
    PageUp,
    PageDown,
    Esc,
    Control(ControlKey),
    Other,
}

/// The state of the front end: the typed tokens, the page of candidates shown, whether
/// the candidates must be updated, and the zero-terminated history text.
pub struct FrontState {
    pub buf: Vec<u8>,
    pub page: usize,
    pub dirty: bool,
    pub hist: Vec<u8>,
}

/// What goes to the destination after a key: nothing, a text, the key's character, or a
/// control message.
pub enum Output {
    Nothing,
    Text(Vec<u8>),
    Raw(char),
    Control(ControlKey),
}

/// What the front end does after a key, in this order: send `out`; give the engine the
/// history (`set_hist`); give it the tokens and fetch the candidates (`refresh`); redraw
/// (`render`); or stop (`quit`).
pub struct Reaction {
    pub out: Output,
    pub set_hist: bool,
    pub refresh: bool,
    pub render: bool,
    pub quit: bool,
}

/// The index among the candidates `cands` of the one that character `c` picks on page
/// `page`, if `c` picks one that exists.
pub open spec fn picked(page: int, c: char, cands: Seq<(usize, Vec<u8>)>) -> Option<int> {
    let i: int = if c == ' ' {
        1
    } else if c == '0' {
        10
    } else if '1' <= c <= '9' {
        c as int - '0' as int
    } else {
        0
    };
    if i > 0 && PAGE_SIZE * page + i - 1 < cands.len() {
        Some(PAGE_SIZE * page + i - 1)
    } else {
        None
    }
}

/// Key `c` stands for the `i`-th candidate of the shown page: space for the first,
/// `'1'` to `'9'` for the first to ninth, `'0'` for the tenth.
pub open spec fn selects(c: char, i: int) -> bool {
    ||| c == ' ' && i == 1
    ||| c == '0' && i == 10
    ||| '1' <= c <= '9' && i == c as int - '0' as int
}

/// A selection key: space or a digit.
pub open spec fn is_selection(c: char) -> bool {
    c == ' ' || '0' <= c <= '9'
}

/// The tokens after `key`, with the candidates `cands` shown on page `page`.
pub open spec fn typed_buf(buf: Seq<u8>, page: int, key: FrontKey, cands: Seq<(usize, Vec<u8>)>) -> Seq<u8> {
    match key {
        FrontKey::Char(c) => if 'a' <= c <= 'z' || (c == '\'' && buf.len() > 0) {
            buf.push(c as u8)
        } else if c == '\n' && buf.len() > 0 {
            Seq::empty()
        } else if is_selection(c) && buf.len() > 0 && picked(page, c, cands) is Some {
            after_accept(buf, cands[picked(page, c, cands)->0].0 as int)
        } else {
            buf
        },
        FrontKey::Backspace => if buf.len() > 0 { buf.drop_last() } else { buf },
        FrontKey::Esc => Seq::empty(),
        _ => buf,
    }
}

/// Whether `key` changes what is typed (so the candidates must be updated).
pub open spec fn edits(buf: Seq<u8>, page: int, key: FrontKey, cands: Seq<(usize, Vec<u8>)>) -> bool {
    match key {
        FrontKey::Char(c) => 'a' <= c <= 'z' || ((c == '\'' || c == '\n') && buf.len() > 0) || (is_selection(c)
            && buf.len() > 0 && picked(page, c, cands) is Some),
        FrontKey::Backspace => buf.len() > 0,
        FrontKey::Esc => true,
        _ => false,
    }
}

/// Whether `key` chooses a candidate.
pub open spec fn chooses(buf: Seq<u8>, page: int, key: FrontKey, cands: Seq<(usize, Vec<u8>)>) -> bool {
    key matches FrontKey::Char(c) && is_selection(c) && buf.len() > 0 && picked(page, c, cands) is Some
}

/// The page after a paging key, with `n` candidates.
pub open spec fn typed_page(page: int, key: FrontKey, n: int) -> int {
    match key {
        FrontKey::PageUp => if page > 0 { page - 1 } else { 0 },
        FrontKey::PageDown => if page * PAGE_SIZE + PAGE_SIZE <= n { page + 1 } else { page },
        _ => page,
    }
}

/// `out` is what goes to the destination after `key`.
pub open spec fn output_of(out: Output, buf: Seq<u8>, page: int, key: FrontKey, cands: Seq<(usize, Vec<u8>)>) -> bool {
    match key {
        FrontKey::Char(c) => if 'a' <= c <= 'z' {
            out is Nothing
        } else if (c == '\'' || c == '\n' || is_selection(c)) && buf.len() == 0 {
            out == Output::Raw(c)
        } else if c == '\n' {
            out matches Output::Text(t) && t@ == buf
        } else if c == '\'' {
            out is Nothing
        } else if is_selection(c) {
            match picked(page, c, cands) {
                Some(k) => out matches Output::Text(t) && t@ == cands[k].1@,
                None => out is Nothing,
            }
        } else {
            out == Output::Raw(c)
        },
        FrontKey::Backspace => if buf.len() > 0 { out is Nothing } else { out == Output::Control(ControlKey::Backspace) },
        FrontKey::Control(k) => out == Output::Control(k),
        _ => out is Nothing,
    }
}

/// React to `key`, with the candidates `cands` last fetched. Any other key is ignored
/// and a quit key stops; each other key updates the state and sends what it sends, and
/// when the typed tokens changed (or had changed before) the history is reset if nothing
/// is left typed, the candidates are fetched anew and the first page is shown.
pub fn on_key(s: FrontState, key: FrontKey, cands: &Vec<(usize, Vec<u8>)>) -> (r: (FrontState, Reaction))
    requires
        forall|q: int| 0 <= q < cands@.len() ==> #[trigger] cands@[q].0 <= s.buf@.len(),
        s.page * PAGE_SIZE + PAGE_SIZE <= usize::MAX,
    ensures
        key is Quit || key is Other ==> {
            &&& r.0.buf@ == s.buf@
            &&& r.0.page == s.page
            &&& r.0.dirty == s.dirty
            &&& r.0.hist@ == s.hist@
            &&& r.1.out is Nothing
            &&& !r.1.set_hist && !r.1.refresh && !r.1.render
            &&& r.1.quit == (key is Quit)
        },
        !(key is Quit || key is Other) ==> {
            let buf = typed_buf(s.buf@, s.page as int, key, cands@);
            let dirty = s.dirty || edits(s.buf@, s.page as int, key, cands@);
            let hist = if chooses(s.buf@, s.page as int, key, cands@) {
                append_hist_spec(s.hist@, cands@[picked(s.page as int, key->Char_0, cands@)->0].1@)
            } else {
                s.hist@
            };
            &&& r.0.buf@ == buf
            &&& r.0.page == if dirty { 0 } else { typed_page(s.page as int, key, cands@.len() as int) }
            &&& !r.0.dirty
            &&& r.0.hist@ == if dirty && buf.len() == 0 { seq![0u8] } else { hist }
            &&& output_of(r.1.out, s.buf@, s.page as int, key, cands@)
            &&& r.1.set_hist == (chooses(s.buf@, s.page as int, key, cands@) || (dirty && buf.len() == 0))
            &&& r.1.refresh == dirty
            &&& r.1.render
            &&& !r.1.quit
        },
        forall|c: char, i: int|
            key == FrontKey::Char(c) && s.buf@.len() > 0 && #[trigger] selects(c, i) ==> {
                let k = PAGE_SIZE * s.page + i - 1;
                &&& k < cands@.len() ==> {
                    &&& r.1.out matches Output::Text(t) && t@ == cands@[k].1@
                    &&& r.0.buf@ == after_accept(s.buf@, cands@[k].0 as int)
                    &&& r.1.set_hist
                }
                &&& k >= cands@.len() ==> r.1.out is Nothing && r.0.buf@ == s.buf@
            },
{
    let mut s = s;
    let mut out = Output::Nothing;
    let mut set_hist = false;
    let mut edited = false;
    match key {
        FrontKey::Quit => {
            return (s, Reaction { out, set_hist: false, refresh: false, render: false, quit: true });
        },
        FrontKey::Other => {
            return (s, Reaction { out, set_hist: false, refresh: false, render: false, quit: false });
        },
        FrontKey::Char(c) => {
            if 'a' <= c && c <= 'z' {
                s.buf.push(c as u8);
                edited = true;
            } else if c == ' ' || ('0' <= c && c <= '9') {
                let i = match selection_number(c) {
                    Some(i) => i,
                    None => 0,
                };
                if s.buf.len() == 0 {
                    out = Output::Raw(c);
                } else if PAGE_SIZE * s.page + i - 1 < cands.len() {
                    let k = PAGE_SIZE * s.page + i - 1;
                    let len = cands[k].0;
                    let text = copy_text(cands[k].1.as_slice());
                    accept_candidate(&mut s.buf, len);
                    append_hist(&mut s.hist, text.as_slice());
                    out = Output::Text(text);
                    set_hist = true;
                    edited = true;
                }
            } else if c == '\'' {
                if s.buf.len() == 0 {
                    out = Output::Raw(c);
                } else {
                    s.buf.push(c as u8);
                    edited = true;
                }
            } else if c == '\n' {
                if s.buf.len() == 0 {
                    out = Output::Raw(c);
                } else {
                    let mut text: Vec<u8> = Vec::new();
                    std::mem::swap(&mut text, &mut s.buf);
                    out = Output::Text(text);
                    edited = true;
                }
            } else {
                out = Output::Raw(c);
            }
        },
        FrontKey::Backspace => {
            if s.buf.len() > 0 {
                s.buf.pop();
                edited = true;
            } else {
                out = Output::Control(ControlKey::Backspace);
            }
        },
        FrontKey::PageUp => {
            s.page = page_up(s.page);
        },
        FrontKey::PageDown => {
            s.page = page_down(s.page, cands.len());
        },
        FrontKey::Esc => {
            s.buf = Vec::new();
            edited = true;
        },
        FrontKey::Control(k) => {
            out = Output::Control(k);
        },
    }
    let refresh = s.dirty || edited;
    if refresh {
        if s.buf.len() == 0 {
            let mut h: Vec<u8> = Vec::new();
            h.push(0);
            s.hist = h;
            set_hist = true;
        }
        s.page = 0;
        s.dirty = false;
    }
    (s, Reaction { out, set_hist, refresh, render: true, quit: false })
}

/// A copy of the text `x`.
fn copy_text(x: &[u8]) -> (r: Vec<u8>)
    ensures
        r@ == x@,
{
    let mut r: Vec<u8> = Vec::new();
    let mut i: usize = 0;
    while i < x.len()
        invariant
            i <= x@.len(),
            r@ == x@.take(i as int),
        decreases x@.len() - i,
    {
        r.push(x[i]);
        assert(x@.take(i + 1) =~= x@.take(i as int).push(x@[i as int]));
        i = i + 1;
    }
    assert(x@.take(x@.len() as int) =~= x@);
    r
}

/// Paging keeps the shown page within the candidates: from a page that starts within
/// the `n` candidates, paging up or down leads to a page that does too.
pub proof fn law_page_stays_within(page: int, n: int)
    requires
        0 <= page,
        page * 10 <= n,
    ensures
        (if page > 0 { page - 1 } else { 0 }) * 10 <= n,
        (if page * 10 + 10 <= n { page + 1 } else { page }) * 10 <= n,
{
}

/// A selection key chooses from the page that is shown: on a non-empty buffer, the key
/// standing for the `i`-th candidate of page `page` sends the text of candidate
/// `PAGE_SIZE * page + i - 1` and leaves what that candidate does not take, when that
/// candidate exists; when it does not, nothing is sent and nothing typed changes.
pub proof fn law_selection_picks_shown_page(
    out: Output,
    buf: Seq<u8>,
    page: int,
    c: char,
    i: int,
    cands: Seq<(usize, Vec<u8>)>,
)
    requires
        0 <= page,
        buf.len() > 0,
        selects(c, i),
        output_of(out, buf, page, FrontKey::Char(c), cands),
    ensures
        PAGE_SIZE * page + i - 1 < cands.len() ==> {
            &&& out matches Output::Text(t) && t@ == cands[PAGE_SIZE * page + i - 1].1@
            &&& typed_buf(buf, page, FrontKey::Char(c), cands) == after_accept(
                buf,
                cands[PAGE_SIZE * page + i - 1].0 as int,
            )
            &&& chooses(buf, page, FrontKey::Char(c), cands)
        },
        PAGE_SIZE * page + i - 1 >= cands.len() ==> {
            &&& out is Nothing
            &&& typed_buf(buf, page, FrontKey::Char(c), cands) == buf
            &&& !chooses(buf, page, FrontKey::Char(c), cands)
        },
{
}

} // verus!
