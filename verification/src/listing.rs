use vstd::prelude::*;
use crate::dict::line_bounds;
use crate::text::{all_digits, digits_value, find_char, first_index_of, lemma_first_index_of, split_lines, strip_cr};

verus! {

/// The character of the decimal digit `d`.
pub open spec fn digit_char(d: int) -> char {
    (d + 48) as char
}

/// The decimal digits of `n`, without leading zeros (`"0"` for zero).
pub open spec fn decimal(n: nat) -> Seq<char>
    decreases n,
{
    if n < 10 {
        seq![digit_char(n as int)]
    } else {
        decimal(n / 10).push(digit_char((n % 10) as int))
    }
}

proof fn lemma_decimal(n: nat)
    ensures
        decimal(n).len() > 0,
        all_digits(decimal(n)),
        digits_value(decimal(n)) == n,
        decimal(n)[0] != '+',
        forall|k: int| 0 <= k < decimal(n).len() ==> #[trigger] decimal(n)[k] != ' ' && decimal(n)[k] != '\n',
    decreases n,
{
    if n >= 10 {
        lemma_decimal(n / 10);
        let s = decimal(n);
        assert(s.drop_last() =~= decimal(n / 10));
        assert((n / 10) * 10 + n % 10 == n) by (nonlinear_arith);
        assert(s.last() == digit_char((n % 10) as int));
        assert(s.last() as int - '0' as int == n % 10);
        assert(digits_value(s) == digits_value(decimal(n / 10)) * 10 + (n % 10));
        assert(digits_value(decimal(n / 10)) == n / 10);
        assert(digits_value(s) == n);
        assert forall|k: int| 0 <= k < s.len() implies '0' <= #[trigger] s[k] <= '9' by {
            if k < s.len() - 1 {
                assert(s[k] == decimal(n / 10)[k]);
            }
        }
        assert(s[0] == decimal(n / 10)[0]);
    } else {
        let s = decimal(n);
        assert(s.drop_last() =~= Seq::<char>::empty());
        assert(s.last() as int - '0' as int == n);
        assert(digits_value(s.drop_last()) == 0);
        assert(digits_value(s) == n);
    }
}

/// The digit character of `d`.
fn digit_of(d: usize) -> (c: char)
    requires
        d < 10,
    ensures
        c == digit_char(d as int),
{
    if d == 0 {
        '0'
    } else if d == 1 {
        '1'
    } else if d == 2 {
        '2'
    } else if d == 3 {
        '3'
    } else if d == 4 {
        '4'
    } else if d == 5 {
        '5'
    } else if d == 6 {
        '6'
    } else if d == 7 {
        '7'
    } else if d == 8 {
        '8'
    } else {
        '9'
    }
}

/// `n` written in decimal.
pub fn format_decimal(n: usize) -> (r: Vec<char>)
    ensures
        r@ == decimal(n as nat),
    decreases n,
{
    if n < 10 {
        let mut r: Vec<char> = Vec::new();
        r.push(digit_of(n));
        assert(r@ =~= decimal(n as nat));
        r
    } else {
        let mut r = format_decimal(n / 10);
        r.push(digit_of(n % 10));
        r
    }
}

/// How a decimal `usize` is read from text: an optional `'+'`, then at least one digit,
/// with a value that fits.
pub open spec fn parse_usize_spec(s: Seq<char>) -> Option<usize> {
    let d = if s.len() > 0 && s[0] == '+' {
        s.drop_first()
    } else {
        s
    };
    if d.len() > 0 && all_digits(d) && digits_value(d) <= usize::MAX {
        Some(digits_value(d) as usize)
    } else {
        None
    }
}

/// `v` capped just above the largest `usize`.
spec fn capu(v: int) -> int {
    if v <= usize::MAX { v } else { usize::MAX + 1 }
}

proof fn lemma_digits_nonneg(s: Seq<char>)
    requires
        all_digits(s),
    ensures
        digits_value(s) >= 0,
    decreases s.len(),
{
    if s.len() > 0 {
        assert(all_digits(s.drop_last()));
        lemma_digits_nonneg(s.drop_last());
        assert('0' <= s[s.len() - 1] <= '9');
    }
}

/// Read a decimal `usize` from `t[lo..hi]`.
pub fn parse_usize(t: &[char], lo: usize, hi: usize) -> (r: Option<usize>)
    requires
        lo <= hi <= t@.len(),
    ensures
        r == parse_usize_spec(t@.subrange(lo as int, hi as int)),
{
    let ghost s = t@.subrange(lo as int, hi as int);
    let mut start = lo;
    if lo < hi && t[lo] == '+' {
        start = lo + 1;
    }
    let ghost d = t@.subrange(start as int, hi as int);
    assert(d == (if s.len() > 0 && s[0] == '+' { s.drop_first() } else { s }));
    if start == hi {
        return None;
    }
    // `acc` is the value read so far, capped just above the largest `usize`.
    let mut acc: u128 = 0;
    let mut i = start;
    while i < hi
        invariant
            lo <= start <= i <= hi <= t@.len(),
            d == t@.subrange(start as int, hi as int),
            s == t@.subrange(lo as int, hi as int),
            d == (if s.len() > 0 && s[0] == '+' { s.drop_first() } else { s }),
            all_digits(t@.subrange(start as int, i as int)),
            acc as int == capu(digits_value(t@.subrange(start as int, i as int))),
        decreases hi - i,
    {
        let c = t[i];
        if !('0' <= c && c <= '9') {
            assert(d[i - start] == c);
            assert(!all_digits(d));
            return None;
        }
        let ghost pre = t@.subrange(start as int, i as int);
        let ghost cur = t@.subrange(start as int, i + 1);
        assert(cur.drop_last() =~= pre);
        assert(all_digits(cur));
        let dv: u128 = (c as u32 - '0' as u32) as u128;
        proof {
            lemma_digits_nonneg(pre);
            assert(cur.last() == c);
            assert(digits_value(cur) == digits_value(pre) * 10 + dv);
        }
        acc = acc * 10 + dv;
        if acc > usize::MAX as u128 + 1 {
            acc = usize::MAX as u128 + 1;
        }
        assert(acc as int == capu(digits_value(cur)));
        i = i + 1;
    }
    assert(t@.subrange(start as int, hi as int) =~= d);
    if acc > usize::MAX as u128 {
        None
    } else {
        Some(acc as usize)
    }
}

/// The line of a candidate in a candidate listing: the number of tokens it takes, a space,
/// its text and a newline.
pub open spec fn listing_line(n: usize, text: Seq<char>) -> Seq<char> {
    decimal(n as nat) + seq![' '] + text + seq!['\n']
}

/// The candidate listing of `c`: one line per candidate, in order.
pub open spec fn listing(c: Seq<(usize, Seq<char>)>) -> Seq<char>
    decreases c.len(),
{
    if c.len() == 0 {
        Seq::empty()
    } else {
        listing_line(c[0].0, c[0].1) + listing(c.drop_first())
    }
}

proof fn lemma_listing_push(c: Seq<(usize, Seq<char>)>, x: (usize, Seq<char>))
    ensures
        listing(c.push(x)) == listing(c) + listing_line(x.0, x.1),
    decreases c.len(),
{
    if c.len() == 0 {
        assert(c.push(x).drop_first() =~= Seq::<(usize, Seq<char>)>::empty());
        assert(listing(c.push(x).drop_first()) == Seq::<char>::empty());
        assert(c.push(x)[0] == x);
        assert(listing(c.push(x)) =~= listing_line(x.0, x.1));
    } else {
        lemma_listing_push(c.drop_first(), x);
        assert(c.push(x).drop_first() =~= c.drop_first().push(x));
        assert(listing(c.push(x)) =~= listing(c) + listing_line(x.0, x.1));
    }
}

/// The candidates `c` with their texts as character sequences.
pub open spec fn texts_of(c: Seq<(usize, Vec<char>)>) -> Seq<(usize, Seq<char>)> {
    c.map_values(|e: (usize, Vec<char>)| (e.0, e.1@))
}

/// The candidate listing of `cands`, as the engine hands it to its callers.
pub fn format_listing(cands: &Vec<(usize, Vec<char>)>) -> (r: Vec<char>)
    ensures
        r@ == listing(texts_of(cands@)),
{
    let mut r: Vec<char> = Vec::new();
    let mut k: usize = 0;
    assert(texts_of(cands@).take(0) =~= Seq::<(usize, Seq<char>)>::empty());
    while k < cands.len()
        invariant
            k <= cands@.len(),
            r@ == listing(texts_of(cands@).take(k as int)),
        decreases cands@.len() - k,
    {
        let ghost before = r@;
        let (n, text) = (cands[k].0, &cands[k].1);
        let digits = format_decimal(n);
        let mut i: usize = 0;
        while i < digits.len()
            invariant
                i <= digits@.len(),
                r@ == before + digits@.take(i as int),
            decreases digits@.len() - i,
        {
            r.push(digits[i]);
            assert(digits@.take(i + 1) =~= digits@.take(i as int).push(digits@[i as int]));
            i = i + 1;
        }
        r.push(' ');
        let ghost mid = r@;
        let mut j: usize = 0;
        while j < text.len()
            invariant
                j <= text@.len(),
                r@ == mid + text@.take(j as int),
            decreases text@.len() - j,
        {
            r.push(text[j]);
            assert(text@.take(j + 1) =~= text@.take(j as int).push(text@[j as int]));
            j = j + 1;
        }
        r.push('\n');
        proof {
            let tk = texts_of(cands@);
            assert(tk.take(k + 1) =~= tk.take(k as int).push(tk[k as int]));
            lemma_listing_push(tk.take(k as int), tk[k as int]);
            assert(digits@.take(digits@.len() as int) =~= digits@);
            assert(text@.take(text@.len() as int) =~= text@);
            assert(r@ =~= before + listing_line(n, text@));
        }
        k = k + 1;
    }
    assert(texts_of(cands@).take(cands@.len() as int) =~= texts_of(cands@));
    r
}

/// How a line of a candidate listing reads: the number before the first space, and the
/// text after it up to the next space; `None` without a space or a number.
pub open spec fn read_line(l: Seq<char>) -> Option<(usize, Seq<char>)> {
    let e = first_index_of(l, ' ');
    if e < l.len() {
        match parse_usize_spec(l.take(e as int)) {
            Some(n) => {
                let rest = l.skip(e + 1 as int);
                Some((n, rest.take(first_index_of(rest, ' ') as int)))
            },
            None => None,
        }
    } else {
        None
    }
}

/// The candidates that the lines of a listing give; `None` when a line does not read.
pub open spec fn read_listing(lines: Seq<Seq<char>>) -> Option<Seq<(usize, Seq<char>)>> {
    if forall|i: int| 0 <= i < lines.len() ==> (#[trigger] read_line(lines[i])) is Some {
        Some(lines.map_values(|l: Seq<char>| read_line(l)->0))
    } else {
        None
    }
}

/// Read a candidate listing; `None` when a line does not read.
pub fn parse_listing(text: &[char]) -> (r: Option<Vec<(usize, Vec<char>)>>)
    ensures
        r is Some <==> read_listing(split_lines(text@)) is Some,
        r matches Some(c) ==> read_listing(split_lines(text@)) == Some(texts_of(c@)),
{
    let t = text;
    let n = t.len();
    let mut out: Vec<(usize, Vec<char>)> = Vec::new();
    let mut p: usize = 0;
    let ghost mut done: Seq<Seq<char>> = Seq::empty();
    assert(t@.skip(0) =~= t@);
    while p < n
        invariant
            n == t@.len(),
            t@ == text@,
            p <= n,
            split_lines(t@) == done + split_lines(t@.skip(p as int)),
            forall|i: int| 0 <= i < done.len() ==> (#[trigger] read_line(done[i])) is Some,
            texts_of(out@) == done.map_values(|l: Seq<char>| read_line(l)->0),
        decreases n - p,
    {
        let (e, hi) = line_bounds(t, p);
        let ghost line = t@.subrange(p as int, hi as int);
        proof {
            if e < n {
                assert(done + split_lines(t@.skip(p as int)) =~= done.push(line) + split_lines(t@.skip(e + 1)));
            } else {
                assert(done + split_lines(t@.skip(p as int)) =~= done.push(line));
            }
        }
        let sp = find_char(t, p, hi, ' ');
        assert(line.take(sp - p) =~= t@.subrange(p as int, sp as int));
        if sp == hi {
            proof {
                let all = split_lines(t@);
                assert(all[done.len() as int] == line);
                assert(read_line(all[done.len() as int]) is None);
                assert(!(forall|i: int| 0 <= i < all.len() ==> (#[trigger] read_line(all[i])) is Some));
                assert(read_listing(all) is None);
                assert(read_listing(split_lines(text@)) is None);
            }
            return None;
        }
        let num = parse_usize(t, p, sp);
        match num {
            None => {
                proof {
                    let all = split_lines(t@);
                    assert(all[done.len() as int] == line);
                    assert(read_line(all[done.len() as int]) is None);
                    assert(!(forall|i: int| 0 <= i < all.len() ==> (#[trigger] read_line(all[i])) is Some));
                    assert(read_listing(all) is None);
                    assert(read_listing(split_lines(text@)) is None);
                }
                return None;
            },
            Some(v) => {
                let sp2 = find_char(t, sp + 1, hi, ' ');
                let mut content: Vec<char> = Vec::new();
                let mut q = sp + 1;
                while q < sp2
                    invariant
                        sp + 1 <= q <= sp2 <= hi <= t@.len(),
                        content@ == t@.subrange(sp + 1, q as int),
                    decreases sp2 - q,
                {
                    content.push(t[q]);
                    assert(t@.subrange(sp + 1, q + 1) =~= t@.subrange(sp + 1, q as int).push(t@[q as int]));
                    q = q + 1;
                }
                proof {
                    let rest = line.skip(sp - p + 1);
                    assert(rest =~= t@.subrange(sp + 1, hi as int));
                    assert(rest.take(first_index_of(rest, ' ') as int) =~= content@);
                    assert(read_line(line) == Some((v, content@)));
                }
                let ghost o0 = texts_of(out@);
                out.push((v, content));
                proof {
                    let d0 = done;
                    done = done.push(line);
                    assert(texts_of(out@) =~= o0.push((v, content@)));
                    assert(done.map_values(|l: Seq<char>| read_line(l)->0) =~= d0.map_values(|l: Seq<char>| read_line(l)->0).push(
                        (v, content@),
                    ));
                    assert forall|i: int| 0 <= i < done.len() implies (#[trigger] read_line(done[i])) is Some by {
                        if i < d0.len() {
                            assert(done[i] == d0[i]);
                        }
                    }
                }
            },
        }
        if e < n {
            p = e + 1;
        } else {
            p = n;
            assert(t@.skip(n as int) =~= Seq::<char>::empty());
            assert(done + split_lines(t@.skip(n as int)) =~= done);
        }
    }
    assert(t@.skip(p as int) =~= Seq::<char>::empty());
    assert(done + split_lines(t@.skip(p as int)) =~= done);
    Some(out)
}

/// A text that a listing line can carry: no space, newline or carriage return.
pub open spec fn plain_text(t: Seq<char>) -> bool {
    forall|i: int| 0 <= i < t.len() ==> #[trigger] t[i] != ' ' && t[i] != '\n' && t[i] != '\r'
}

proof fn lemma_line_reads_back(n: usize, text: Seq<char>)
    requires
        plain_text(text),
    ensures
        read_line(decimal(n as nat) + seq![' '] + text) == Some((n, text)),
{
    lemma_decimal(n as nat);
    let d = decimal(n as nat);
    let l = d + seq![' '] + text;
    assert forall|k: int| 0 <= k < d.len() implies l[k] != ' ' by {
        assert(l[k] == d[k]);
    }
    lemma_first_index_of(l, ' ', d.len() as int);
    assert(l.take(d.len() as int) =~= d);
    assert(d[0] != '+');
    let rest = l.skip(d.len() + 1 as int);
    assert(rest =~= text);
    lemma_first_index_of(text, ' ', text.len() as int);
    assert(text.take(text.len() as int) =~= text);
}

/// A listing reads back as the candidates it lists, when no text holds a space, a
/// newline or a carriage return.
pub proof fn law_listing_reads_back(c: Seq<(usize, Seq<char>)>)
    requires
        forall|k: int| 0 <= k < c.len() ==> plain_text(#[trigger] c[k].1),
    ensures
        read_listing(split_lines(listing(c))) == Some(c),
    decreases c.len(),
{
    if c.len() == 0 {
        assert(split_lines(listing(c)) =~= Seq::<Seq<char>>::empty());
        assert(Seq::<Seq<char>>::empty().map_values(|l: Seq<char>| read_line(l)->0) =~= c);
    } else {
        let rest = c.drop_first();
        assert forall|k: int| 0 <= k < rest.len() implies plain_text(#[trigger] rest[k].1) by {
            assert(rest[k] == c[k + 1]);
        }
        law_listing_reads_back(rest);
        let (n, text) = c[0];
        assert(plain_text(c[0].1));
        lemma_decimal(n as nat);
        let content = decimal(n as nat) + seq![' '] + text;
        let whole = listing(c);
        assert(whole == listing_line(n, text) + listing(rest));
        let m = content.len() as int;
        assert forall|k: int| 0 <= k < m implies whole[k] != '\n' by {
            assert(whole[k] == content[k]);
            if k < decimal(n as nat).len() {
                assert(content[k] == decimal(n as nat)[k]);
            } else if k > decimal(n as nat).len() {
                assert(content[k] == text[k - decimal(n as nat).len() - 1]);
            }
        }
        assert(whole[m] == '\n');
        lemma_first_index_of(whole, '\n', m);
        assert(whole.take(m) =~= content);
        assert(whole.skip(m + 1) =~= listing(rest));
        assert(strip_cr(content) == content) by {
            if text.len() > 0 {
                assert(content.last() == text[text.len() - 1]);
            }
        }
        let lines = split_lines(whole);
        assert(lines == seq![content] + split_lines(listing(rest)));
        lemma_line_reads_back(n, text);
        let lr = split_lines(listing(rest));
        assert forall|i: int| 0 <= i < lines.len() implies (#[trigger] read_line(lines[i])) is Some by {
            if i > 0 {
                assert(lines[i] == lr[i - 1]);
                assert(read_line(lr[i - 1]) is Some);
            }
        }
        assert(lines.map_values(|l: Seq<char>| read_line(l)->0) =~= c) by {
            assert(lr.map_values(|l: Seq<char>| read_line(l)->0) == rest);
            assert forall|i: int| 0 <= i < c.len() implies lines.map_values(|l: Seq<char>| read_line(l)->0)[i] == c[i] by {
                if i > 0 {
                    assert(lines[i] == lr[i - 1]);
                    assert(lr.map_values(|l: Seq<char>| read_line(l)->0)[i - 1] == rest[i - 1]);
                }
            }
        }
    }
}

} // verus!
