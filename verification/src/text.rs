use vstd::prelude::*;

verus! {

/// Index of the first `c` in `s`, or `s.len()` when there is none.
pub open spec fn first_index_of(s: Seq<char>, c: char) -> nat
    decreases s.len(),
{
    if s.len() == 0 {
        0
    } else if s[0] == c {
        0
    } else {
        1 + first_index_of(s.drop_first(), c)
    }
}

pub proof fn lemma_first_index_of(s: Seq<char>, c: char, m: int)
    requires
        0 <= m <= s.len(),
        forall|k: int| 0 <= k < m ==> s[k] != c,
        m == s.len() || s[m] == c,
    ensures
        first_index_of(s, c) == m,
    decreases m,
{
    if m > 0 {
        lemma_first_index_of(s.drop_first(), c, m - 1);
    }
}

/// A line without the carriage return that ended it.
pub open spec fn strip_cr(l: Seq<char>) -> Seq<char> {
    if l.len() > 0 && l.last() == '\r' {
        l.drop_last()
    } else {
        l
    }
}

/// The lines of a text, as reading it line by line gives them: split at each `'\n'`,
/// a `'\r'` just before a `'\n'` dropped, no empty line after a final `'\n'`.
pub open spec fn split_lines(s: Seq<char>) -> Seq<Seq<char>>
    decreases s.len(),
{
    if s.len() == 0 {
        Seq::empty()
    } else {
        let e = first_index_of(s, '\n');
        if e < s.len() {
            seq![strip_cr(s.take(e as int))] + split_lines(s.skip(e + 1 as int))
        } else {
            seq![s]
        }
    }
}

/// `s` is a non-empty run of decimal digits.
pub open spec fn all_digits(s: Seq<char>) -> bool {
    forall|i: int| 0 <= i < s.len() ==> '0' <= #[trigger] s[i] <= '9'
}

/// Decimal value of a run of digits.
pub open spec fn digits_value(s: Seq<char>) -> int
    decreases s.len(),
{
    if s.len() == 0 {
        0
    } else {
        digits_value(s.drop_last()) * 10 + (s.last() as int - '0' as int)
    }
}

/// How a decimal `u16` is read from text: an optional `'+'`, then at least one digit,
/// with a value of at most 65535.
pub open spec fn parse_u16_spec(s: Seq<char>) -> Option<u16> {
    let d = if s.len() > 0 && s[0] == '+' {
        s.drop_first()
    } else {
        s
    };
    if d.len() > 0 && all_digits(d) && digits_value(d) <= 65535 {
        Some(digits_value(d) as u16)
    } else {
        None
    }
}

proof fn lemma_digits_value_nonneg(s: Seq<char>)
    requires
        all_digits(s),
    ensures
        digits_value(s) >= 0,
    decreases s.len(),
{
    if s.len() > 0 {
        assert(all_digits(s.drop_last()));
        lemma_digits_value_nonneg(s.drop_last());
        assert('0' <= s[s.len() - 1] <= '9');
    }
}

/// `v` capped at 65536.
pub open spec fn cap(v: int) -> int {
    if v < 65536 { v } else { 65536 }
}

proof fn lemma_cap_step(v: int, d: int)
    requires
        v >= 0,
        0 <= d <= 9,
    ensures
        cap(cap(v) * 10 + d) == cap(v * 10 + d),
{
}

/// Read a decimal `u16` from `t[lo..hi]`.
pub fn parse_u16(t: &[char], lo: usize, hi: usize) -> (r: Option<u16>)
    requires
        lo <= hi <= t@.len(),
    ensures
        r == parse_u16_spec(t@.subrange(lo as int, hi as int)),
{
    let ghost s = t@.subrange(lo as int, hi as int);
    let mut start = lo;
    if lo < hi && t[lo] == '+' {
        start = lo + 1;
    }
    let ghost d = t@.subrange(start as int, hi as int);
    assert(d == (if s.len() > 0 && s[0] == '+' { s.drop_first() } else { s }));
    if start == hi {
        return None;
    }
    // `acc` is the value read so far, capped at 65536.
    let mut acc: u32 = 0;
    let mut i = start;
    while i < hi
        invariant
            lo <= start <= i <= hi <= t@.len(),
            d == t@.subrange(start as int, hi as int),
            s == t@.subrange(lo as int, hi as int),
            d == (if s.len() > 0 && s[0] == '+' { s.drop_first() } else { s }),
            all_digits(t@.subrange(start as int, i as int)),
            acc as int == cap(digits_value(t@.subrange(start as int, i as int))),
        decreases hi - i,
    {
        let c = t[i];
        if !('0' <= c && c <= '9') {
            assert(d[i - start] == c);
            assert(!all_digits(d));
            assert(parse_u16_spec(s) == None::<u16>);
            return None;
        }
        let ghost pre = t@.subrange(start as int, i as int);
        let ghost cur = t@.subrange(start as int, i + 1);
        assert(cur.drop_last() =~= pre);
        assert(all_digits(cur));
        let dv: u32 = (c as u32) - ('0' as u32);
        proof {
            lemma_digits_value_nonneg(pre);
            assert(cur.last() == c);
            assert(digits_value(cur) == digits_value(pre) * 10 + dv);
            lemma_cap_step(digits_value(pre), dv as int);
        }
        acc = acc * 10 + dv;
        if acc > 65536 {
            acc = 65536;
        }
        assert(acc as int == cap(digits_value(cur)));
        i = i + 1;
    }
    assert(t@.subrange(start as int, hi as int) =~= d);
    if acc > 65535 {
        None
    } else {
        Some(acc as u16)
    }
}

/// The characters of a string.
pub fn chars_of(s: &str) -> (r: Vec<char>)
    ensures
        r@ == s@,
{
    let mut r: Vec<char> = Vec::new();
    for c in it: s.chars()
        invariant
            r@ == it.seq().take(it.index() as int),
    {
        r.push(c);
    }
    r
}


/// Position of the first `c` in `t[lo..hi]`, or `hi`.
pub fn find_char(t: &[char], lo: usize, hi: usize, c: char) -> (e: usize)
    requires
        lo <= hi <= t@.len(),
    ensures
        lo <= e <= hi,
        e - lo == first_index_of(t@.subrange(lo as int, hi as int), c),
{
    let mut e = lo;
    while e < hi && t[e] != c
        invariant
            lo <= e <= hi <= t@.len(),
            forall|k: int| lo <= k < e ==> t@[k] != c,
        decreases hi - e,
    {
        e = e + 1;
    }
    proof {
        let seg = t@.subrange(lo as int, hi as int);
        assert forall|k: int| 0 <= k < e - lo implies seg[k] != c by {
            assert(seg[k] == t@[lo + k]);
        }
        lemma_first_index_of(seg, c, e - lo);
    }
    e
}

/// `a` put in front of the list in `o`, if there is one.
pub open spec fn prepend(a: Seq<u16>, o: Option<Seq<u16>>) -> Option<Seq<u16>> {
    match o {
        Some(b) => Some(a + b),
        None => None,
    }
}

/// The ids of a space-separated list; `None` when a field is not a decimal `u16`
/// (an empty field included).
pub open spec fn parse_values(s: Seq<char>) -> Option<Seq<u16>>
    decreases s.len(),
{
    let e = first_index_of(s, ' ');
    if e < s.len() {
        match parse_u16_spec(s.take(e as int)) {
            Some(v) => prepend(seq![v], parse_values(s.skip(e + 1 as int))),
            None => None,
        }
    } else {
        match parse_u16_spec(s) {
            Some(v) => Some(seq![v]),
            None => None,
        }
    }
}

/// Read the space-separated ids of `t[lo..hi]`.
pub fn parse_value_list(t: &[char], lo: usize, hi: usize) -> (r: Option<Vec<u16>>)
    requires
        lo <= hi <= t@.len(),
    ensures
        r is Some <==> parse_values(t@.subrange(lo as int, hi as int)) is Some,
        r matches Some(v) ==> parse_values(t@.subrange(lo as int, hi as int)) == Some(v@),
{
    let mut vals: Vec<u16> = Vec::new();
    let mut pos = lo;
    loop
        invariant
            lo <= pos <= hi <= t@.len(),
            parse_values(t@.subrange(lo as int, hi as int)) == prepend(
                vals@,
                parse_values(t@.subrange(pos as int, hi as int)),
            ),
        decreases hi - pos,
    {
        let ghost seg = t@.subrange(pos as int, hi as int);
        let e = find_char(t, pos, hi, ' ');
        let v = parse_u16(t, pos, e);
        assert(seg.take(e - pos) =~= t@.subrange(pos as int, e as int));
        match v {
            None => {
                if e < hi {
                } else {
                    assert(seg =~= t@.subrange(pos as int, e as int));
                }
                return None;
            },
            Some(v) => {
                let ghost before = vals@;
                vals.push(v);
                if e < hi {
                    assert(seg.skip(e - pos + 1) =~= t@.subrange(e + 1, hi as int));
                    assert(before + (seq![v] + parse_values(t@.subrange(e + 1, hi as int))->0) =~= vals@
                        + parse_values(t@.subrange(e + 1, hi as int))->0);
                    pos = e + 1;
                } else {
                    assert(seg =~= t@.subrange(pos as int, e as int));
                    assert(before + seq![v] =~= vals@);
                    return Some(vals);
                }
            },
        }
    }
}

/// A dictionary line's token sequence: each character's code point truncated to a byte.
pub open spec fn key_bytes(s: Seq<char>) -> Seq<u8> {
    s.map_values(|c: char| ((c as u32) % 256) as u8)
}

/// A dictionary line: the token sequence up to the first space, then the word ids
/// separated by single spaces. `None` when an id field does not read as a `u16`.
pub open spec fn parse_entry(line: Seq<char>) -> Option<(Seq<u8>, Seq<u16>)> {
    let e = first_index_of(line, ' ');
    if e < line.len() {
        match parse_values(line.skip(e + 1 as int)) {
            Some(vs) => Some((key_bytes(line.take(e as int)), vs)),
            None => None,
        }
    } else {
        Some((key_bytes(line), Seq::empty()))
    }
}

/// The token bytes of `t[lo..hi]`.
fn key_of(t: &[char], lo: usize, hi: usize) -> (k: Vec<u8>)
    requires
        lo <= hi <= t@.len(),
    ensures
        k@ == key_bytes(t@.subrange(lo as int, hi as int)),
{
    let mut k: Vec<u8> = Vec::new();
    let mut i = lo;
    while i < hi
        invariant
            lo <= i <= hi <= t@.len(),
            k@ == key_bytes(t@.subrange(lo as int, i as int)),
        decreases hi - i,
    {
        let b: u8 = ((t[i] as u32) % 256) as u8;
        k.push(b);
        assert(key_bytes(t@.subrange(lo as int, i + 1)) =~= key_bytes(t@.subrange(lo as int, i as int)).push(b));
        i = i + 1;
    }
    k
}

/// Read the dictionary line `t[lo..hi]`.
pub fn parse_entry_at(t: &[char], lo: usize, hi: usize) -> (r: Option<(Vec<u8>, Vec<u16>)>)
    requires
        lo <= hi <= t@.len(),
    ensures
        r is Some <==> parse_entry(t@.subrange(lo as int, hi as int)) is Some,
        r matches Some((k, v)) ==> parse_entry(t@.subrange(lo as int, hi as int)) == Some((k@, v@)),
{
    let ghost line = t@.subrange(lo as int, hi as int);
    let e = find_char(t, lo, hi, ' ');
    assert(line.take(e - lo) =~= t@.subrange(lo as int, e as int));
    if e < hi {
        assert(line.skip(e - lo + 1) =~= t@.subrange(e + 1, hi as int));
        match parse_value_list(t, e + 1, hi) {
            Some(vs) => {
                let k = key_of(t, lo, e);
                Some((k, vs))
            },
            None => None,
        }
    } else {
        let k = key_of(t, lo, hi);
        let vs: Vec<u16> = Vec::new();
        assert(vs@ =~= Seq::<u16>::empty());
        Some((k, vs))
    }
}

} // verus!
