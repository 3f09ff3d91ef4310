//! Line splitting and the small text cuts that the views show.

use vstd::prelude::*;
use vstd::std_specs::iter::IteratorSpec;
use vstd::utf8::encode_utf8;

verus! {

broadcast use vstd::string::group_string_axioms;

/// Appends one character to a string (`String::push`).
#[verifier::external_body]
pub(crate) fn push_char(s: &mut String, c: char)
    ensures
        final(s)@ == old(s)@.push(c),
{
    s.push(c);
}

/// The pieces of `s` between its `'\n'` characters: one more piece than there
/// are newlines, the last one being what follows the last newline.
pub open spec fn newline_pieces(s: Seq<char>) -> Seq<Seq<char>>
    decreases s.len(),
{
    if s.len() == 0 {
        seq![Seq::empty()]
    } else {
        let r = newline_pieces(s.drop_last());
        if s.last() == '\n' {
            r.push(Seq::empty())
        } else {
            r.update(r.len() - 1, r.last().push(s.last()))
        }
    }
}

/// A line that was ended by `'\n'` loses one `'\r'` before that newline.
pub open spec fn strip_cr(t: Seq<char>) -> Seq<char> {
    if t.len() > 0 && t.last() == '\r' {
        t.drop_last()
    } else {
        t
    }
}

/// The lines of `s` as `str::lines` yields them: split at `"\n"` and `"\r\n"`,
/// without the terminators; a last line is only there when it is not empty.
pub open spec fn spec_lines(s: Seq<char>) -> Seq<Seq<char>> {
    let p = newline_pieces(s);
    let ended = p.drop_last().map_values(|t: Seq<char>| strip_cr(t));
    if p.last().len() > 0 {
        ended.push(p.last())
    } else {
        ended
    }
}

proof fn lemma_newline_pieces_nonempty(s: Seq<char>)
    ensures
        newline_pieces(s).len() >= 1,
        newline_pieces(s).len() <= s.len() + 1,
    decreases s.len(),
{
    if s.len() > 0 {
        lemma_newline_pieces_nonempty(s.drop_last());
    }
}

/// Splits `text` into its lines, as `str::lines` does.
pub fn split_lines(text: &str) -> (res: Vec<String>)
    ensures
        crate::repo::texts(res@) == spec_lines(text@),
        res@.len() <= text@.len() + 1,
{
    let ghost s = text@;
    let mut lines: Vec<String> = Vec::new();
    let mut cur = String::new();
    let mut pending_cr = false;
    let mut it = text.chars();
    let ghost mut i: int = 0;
    proof {
        assert(s.take(0) =~= Seq::<char>::empty());
    }
    loop
        invariant
            0 <= i <= s.len(),
            it.remaining() == s.skip(i),
            newline_pieces(s.take(i)).drop_last().map_values(|t: Seq<char>| strip_cr(t))
                == crate::repo::texts(lines@),
            newline_pieces(s.take(i)).last() == (if pending_cr {
                cur@.push('\r')
            } else {
                cur@
            }),
            !pending_cr ==> (cur@.len() == 0 || cur@.last() != '\r'),
            lines@.len() <= i,
        ensures
            i == s.len(),
            newline_pieces(s).drop_last().map_values(|t: Seq<char>| strip_cr(t))
                == crate::repo::texts(lines@),
            newline_pieces(s).last() == (if pending_cr {
                cur@.push('\r')
            } else {
                cur@
            }),
            lines@.len() <= s.len(),
        decreases s.len() - i,
    {
        let ghost prev_pieces = newline_pieces(s.take(i));
        match it.next() {
            None => {
                proof {
                    assert(s.take(i) =~= s);
                }
                break;
            },
            Some(c) => {
                proof {
                    assert(c == s[i]);
                    assert(s.take(i + 1).drop_last() =~= s.take(i));
                    assert(s.take(i + 1).last() == c);
                    assert(s.skip(i).drop_first() =~= s.skip(i + 1));
                    lemma_newline_pieces_nonempty(s.take(i));
                }
                let ghost before_lines = crate::repo::texts(lines@);
                if c == '\n' {
                    let line = cur;
                    cur = String::new();
                    pending_cr = false;
                    proof {
                        let p2 = newline_pieces(s.take(i + 1));
                        assert(p2 == prev_pieces.push(Seq::empty()));
                        assert(p2.drop_last() =~= prev_pieces);
                        assert(strip_cr(prev_pieces.last()) == line@);
                        assert(prev_pieces =~= prev_pieces.drop_last().push(prev_pieces.last()));
                    }
                    lines.push(line);
                    proof {
                        let p2 = newline_pieces(s.take(i + 1));
                        assert(p2.drop_last().map_values(|t: Seq<char>| strip_cr(t))
                            =~= before_lines.push(lines@.last()@));
                        assert(crate::repo::texts(lines@) =~= before_lines.push(lines@.last()@));
                    }
                } else {
                    if pending_cr {
                        push_char(&mut cur, '\r');
                    }
                    if c == '\r' {
                        pending_cr = true;
                    } else {
                        pending_cr = false;
                        push_char(&mut cur, c);
                    }
                    proof {
                        let p2 = newline_pieces(s.take(i + 1));
                        assert(p2 == prev_pieces.update(
                            prev_pieces.len() - 1,
                            prev_pieces.last().push(c),
                        ));
                        assert(p2.drop_last() =~= prev_pieces.drop_last());
                        assert(p2.last() == prev_pieces.last().push(c));
                    }
                }
                proof {
                    i = i + 1;
                }
            },
        }
    }
    let ghost ended = newline_pieces(s).drop_last().map_values(|t: Seq<char>| strip_cr(t));
    if pending_cr {
        push_char(&mut cur, '\r');
    }
    proof {
        lemma_newline_pieces_nonempty(s);
    }
    if !cur.as_str().is_empty() {
        lines.push(cur);
        proof {
            assert(crate::repo::texts(lines@) =~= ended.push(lines@.last()@));
        }
    } else {
        proof {
            assert(cur@.len() == 0);
        }
    }
    lines
}


/// The first `n` characters of `s`, or all of `s` when it is shorter.
pub open spec fn char_prefix(s: Seq<char>, n: int) -> Seq<char> {
    if s.len() <= n {
        s
    } else {
        s.take(n)
    }
}

/// The first `n` characters of `s` (`s.chars().take(n)`).
pub fn take_chars(s: &str, n: usize) -> (res: String)
    ensures
        res@ == char_prefix(s@, n as int),
{
    let ghost t = s@;
    let mut res = String::new();
    let mut it = s.chars();
    let mut k: usize = 0;
    while k < n
        invariant
            t == s@,
            k <= n,
            k <= t.len(),
            it.remaining() == t.skip(k as int),
            res@ == t.take(k as int),
        decreases n - k,
    {
        match it.next() {
            None => {
                proof {
                    assert(t.skip(k as int).len() == 0);
                    assert(k == t.len());
                    assert(t.take(k as int) =~= t);
                    assert(char_prefix(t, n as int) == t);
                    assert(res@ == char_prefix(s@, n as int));
                }
                return res;
            },
            Some(c) => {
                proof {
                    assert(c == t[k as int]);
                    assert(t.skip(k as int).drop_first() =~= t.skip(k + 1));
                    assert(t.take(k + 1) =~= t.take(k as int).push(c));
                }
                push_char(&mut res, c);
                k = k + 1;
            },
        }
    }
    proof {
        if t.len() <= n {
            assert(t.take(k as int) =~= t);
        }
    }
    res
}

/// The first line of `s`, or nothing when `s` has no lines
/// (`s.lines().next().unwrap_or("")`).
pub open spec fn first_line_of(s: Seq<char>) -> Seq<char> {
    if spec_lines(s).len() > 0 {
        spec_lines(s)[0]
    } else {
        Seq::empty()
    }
}

/// The first line of `s`.
pub fn first_line(s: &str) -> (res: String)
    ensures
        res@ == first_line_of(s@),
{
    let lines = split_lines(s);
    if lines.len() > 0 {
        proof {
            assert(crate::repo::texts(lines@)[0] == lines@[0]@);
        }
        lines[0].clone()
    } else {
        String::new()
    }
}


/// The characters with the Unicode `White_Space` property, which
/// `char::is_whitespace` and `str::trim` go by.
pub open spec fn is_white_space(c: char) -> bool {
    let u = c as u32;
    ||| 0x9 <= u <= 0xD
    ||| u == 0x20
    ||| u == 0x85
    ||| u == 0xA0
    ||| u == 0x1680
    ||| 0x2000 <= u <= 0x200A
    ||| u == 0x2028
    ||| u == 0x2029
    ||| u == 0x202F
    ||| u == 0x205F
    ||| u == 0x3000
}

/// Whether `c` has the Unicode `White_Space` property.
pub fn is_white_space_char(c: char) -> (res: bool)
    ensures
        res == is_white_space(c),
{
    let u = c as u32;
    (0x9 <= u && u <= 0xD) || u == 0x20 || u == 0x85 || u == 0xA0 || u == 0x1680 || (0x2000 <= u
        && u <= 0x200A) || u == 0x2028 || u == 0x2029 || u == 0x202F || u == 0x205F || u == 0x3000
}

/// `s` without its leading white space.
pub open spec fn trim_start(s: Seq<char>) -> Seq<char>
    decreases s.len(),
{
    if s.len() > 0 && is_white_space(s[0]) {
        trim_start(s.drop_first())
    } else {
        s
    }
}

/// `s` without its trailing white space.
pub open spec fn trim_end(s: Seq<char>) -> Seq<char>
    decreases s.len(),
{
    if s.len() > 0 && is_white_space(s.last()) {
        trim_end(s.drop_last())
    } else {
        s
    }
}

/// `s` without leading and trailing white space (`str::trim`).
pub open spec fn trimmed(s: Seq<char>) -> Seq<char> {
    trim_end(trim_start(s))
}

proof fn lemma_trim_start_at(s: Seq<char>, lo: int)
    requires
        0 <= lo <= s.len(),
        forall|k: int| 0 <= k < lo ==> is_white_space(#[trigger] s[k]),
        lo < s.len() ==> !is_white_space(s[lo]),
    ensures
        trim_start(s) == s.subrange(lo, s.len() as int),
    decreases lo,
{
    if lo > 0 {
        let t = s.drop_first();
        assert forall|k: int| 0 <= k < lo - 1 implies is_white_space(#[trigger] t[k]) by {
            assert(t[k] == s[k + 1]);
        }
        lemma_trim_start_at(t, lo - 1);
        assert(t.subrange(lo - 1, t.len() as int) =~= s.subrange(lo, s.len() as int));
    } else {
        assert(s.subrange(0, s.len() as int) =~= s);
    }
}

proof fn lemma_trim_end_at(s: Seq<char>, hi: int)
    requires
        0 <= hi <= s.len(),
        forall|k: int| hi <= k < s.len() ==> is_white_space(#[trigger] s[k]),
        hi > 0 ==> !is_white_space(s[hi - 1]),
    ensures
        trim_end(s) == s.subrange(0, hi),
    decreases s.len() - hi,
{
    if hi < s.len() {
        let t = s.drop_last();
        assert forall|k: int| hi <= k < t.len() implies is_white_space(#[trigger] t[k]) by {
            assert(t[k] == s[k]);
        }
        lemma_trim_end_at(t, hi);
        assert(t.subrange(0, hi) =~= s.subrange(0, hi));
    } else {
        assert(s.subrange(0, hi) =~= s);
    }
}

/// The characters of `s`, in a vector.
pub fn chars_of(s: &str) -> (res: Vec<char>)
    ensures
        res@ == s@,
{
    let ghost t = s@;
    let mut res: Vec<char> = Vec::new();
    let mut it = s.chars();
    loop
        invariant
            t == s@,
            res@.len() <= t.len(),
            it.remaining() == t.skip(res@.len() as int),
            res@ == t.take(res@.len() as int),
        ensures
            res@ == t,
        decreases t.len() - res@.len(),
    {
        let ghost k = res@.len() as int;
        match it.next() {
            None => {
                proof {
                    assert(t.skip(k).len() == 0);
                    assert(t.take(k) =~= t);
                }
                break;
            },
            Some(c) => {
                proof {
                    assert(c == t[k]);
                    assert(t.skip(k).drop_first() =~= t.skip(k + 1));
                    assert(t.take(k + 1) =~= t.take(k).push(c));
                }
                res.push(c);
            },
        }
    }
    res
}

/// `s` without leading and trailing white space.
pub fn trim(s: &str) -> (res: String)
    ensures
        res@ == trimmed(s@),
{
    let cs = chars_of(s);
    let n = cs.len();
    let mut lo: usize = 0;
    while lo < n && is_white_space_char(cs[lo])
        invariant
            lo <= n,
            n == cs@.len(),
            forall|k: int| 0 <= k < lo ==> is_white_space(#[trigger] cs@[k]),
        decreases n - lo,
    {
        lo = lo + 1;
    }
    proof {
        lemma_trim_start_at(s@, lo as int);
    }
    let ghost st = s@.subrange(lo as int, n as int);
    let mut hi: usize = n;
    while hi > lo && is_white_space_char(cs[hi - 1])
        invariant
            lo <= hi <= n,
            n == cs@.len(),
            forall|k: int| hi <= k < n ==> is_white_space(#[trigger] cs@[k]),
        decreases hi,
    {
        hi = hi - 1;
    }
    proof {
        assert forall|k: int| hi - lo <= k < st.len() implies is_white_space(#[trigger] st[k]) by {
            assert(st[k] == cs@[k + lo]);
        }
        if hi > lo {
            assert(st[hi - lo - 1] == cs@[hi - 1]);
        }
        lemma_trim_end_at(st, hi - lo);
        assert(st.subrange(0, hi - lo) =~= s@.subrange(lo as int, hi as int));
    }
    let mut res = String::new();
    let mut k: usize = lo;
    while k < hi
        invariant
            lo <= k <= hi,
            hi <= n,
            n == cs@.len(),
            cs@ == s@,
            res@ == s@.subrange(lo as int, k as int),
        decreases hi - k,
    {
        push_char(&mut res, cs[k]);
        proof {
            assert(res@ =~= s@.subrange(lo as int, k + 1));
        }
        k = k + 1;
    }
    res
}

/// Whether `s` holds nothing but white space (`s.trim().is_empty()`).
pub fn is_blank(s: &str) -> (res: bool)
    ensures
        res == (trimmed(s@).len() == 0),
{
    let t = trim(s);
    t.as_str().is_empty()
}


/// UTF-8 encoding goes character by character: the encoding of two texts
/// one after the other is the two encodings one after the other.
pub proof fn lemma_encode_concat(a: Seq<char>, b: Seq<char>)
    ensures
        encode_utf8(a + b) == encode_utf8(a) + encode_utf8(b),
    decreases a.len(),
{
    if a.len() == 0 {
        assert(a + b =~= b);
        assert(encode_utf8(a) =~= Seq::<u8>::empty());
        assert(encode_utf8(a) + encode_utf8(b) =~= encode_utf8(b));
    } else {
        lemma_encode_concat(a.drop_first(), b);
        assert((a + b).drop_first() =~= a.drop_first() + b);
        assert((a + b)[0] == a[0]);
        assert(encode_utf8(a + b) =~= encode_utf8(a) + encode_utf8(b));
    }
}

/// The character of a decimal digit.
pub open spec fn digit_char(d: nat) -> char {
    (d + 48) as char
}

/// The decimal digits of `n`, most significant first, with no leading zero.
pub open spec fn decimal(n: nat) -> Seq<char>
    decreases n,
{
    if n < 10 {
        seq![digit_char(n)]
    } else {
        decimal(n / 10).push(digit_char(n % 10))
    }
}

/// The character of the digit `d`.
fn digit(d: usize) -> (res: char)
    requires
        d < 10,
    ensures
        res == digit_char(d as nat),
{
    match d {
        0 => '0',
        1 => '1',
        2 => '2',
        3 => '3',
        4 => '4',
        5 => '5',
        6 => '6',
        7 => '7',
        8 => '8',
        _ => '9',
    }
}

/// `n` written in decimal, as `n.to_string()` writes it.
pub fn decimal_string(n: usize) -> (res: String)
    ensures
        res@ == decimal(n as nat),
    decreases n,
{
    if n < 10 {
        let mut s = String::new();
        push_char(&mut s, digit(n));
        proof {
            assert(s@ =~= seq![digit_char(n as nat)]);
        }
        s
    } else {
        let mut s = decimal_string(n / 10);
        push_char(&mut s, digit(n % 10));
        s
    }
}

} // verus!
