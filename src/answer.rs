//! Reading an assignment from the text of an answer file: comment lines
//! start with `c`; the first other line holds signed literals separated by
//! white space, ended by `0` or by the end of the line. White space is
//! Unicode's: the ASCII spaces and the UTF-8 forms of U+0085, U+00A0,
//! U+1680, U+2000 to U+200A, U+2028, U+2029, U+202F, U+205F and U+3000.
use vstd::prelude::*;

verus! {

pub open spec fn is_space(b: u8) -> bool {
    b == 0x20 || b == 0x09 || b == 0x0a || b == 0x0b || b == 0x0c || b == 0x0d
}

/// The three-byte UTF-8 forms of the white-space characters.
pub open spec fn is_space3(a: u8, b: u8, c: u8) -> bool {
    (a == 0xe1 && b == 0x9a && c == 0x80) || (a == 0xe2 && b == 0x80 && ((0x80 <= c <= 0x8a) || c == 0xa8
        || c == 0xa9 || c == 0xaf)) || (a == 0xe2 && b == 0x81 && c == 0x9f) || (a == 0xe3 && b == 0x80
        && c == 0x80)
}

/// The length in bytes of the white-space character at `i` in `s`, or 0.
pub open spec fn space_len(s: Seq<u8>, i: int) -> int {
    if 0 <= i < s.len() {
        if is_space(s[i]) {
            1
        } else if s[i] == 0xc2 && i + 1 < s.len() && (s[i + 1] == 0x85 || s[i + 1] == 0xa0) {
            2
        } else if i + 2 < s.len() && is_space3(s[i], s[i + 1], s[i + 2]) {
            3
        } else {
            0
        }
    } else {
        0
    }
}

pub open spec fn is_digit(b: u8) -> bool {
    0x30 <= b <= 0x39
}

/// The position of the first line break at or after `i`, or the length.
pub open spec fn line_end(t: Seq<u8>, i: int) -> int
    decreases t.len() - i,
{
    if i >= t.len() || i < 0 {
        t.len() as int
    } else if t[i] == 0x0a {
        i
    } else {
        line_end(t, i + 1)
    }
}

/// Where the first line at or after position `i` that does not start with
/// `c` begins (the length when there is none).
pub open spec fn data_start(t: Seq<u8>, i: int) -> int
    decreases t.len() - i,
{
    if i >= t.len() || i < 0 {
        t.len() as int
    } else if line_end(t, i) < i || line_end(t, i) > t.len() {
        t.len() as int
    } else if t[i] == 0x63 {
        if line_end(t, i) < t.len() {
            data_start(t, line_end(t, i) + 1)
        } else {
            t.len() as int
        }
    } else {
        i
    }
}

/// The first line of `t` that does not start with `c` (empty when there is
/// none).
pub open spec fn data_line(t: Seq<u8>) -> Seq<u8> {
    let s = data_start(t, 0);
    if 0 <= s < t.len() && s <= line_end(t, s) <= t.len() {
        t.subrange(s, line_end(t, s))
    } else {
        Seq::empty()
    }
}

/// The value of a sequence of decimal digits.
pub open spec fn digits_value(s: Seq<u8>) -> int
    decreases s.len(),
{
    if s.len() == 0 {
        0
    } else {
        digits_value(s.drop_last()) * 10 + (s.last() - 0x30)
    }
}

pub open spec fn all_digits(s: Seq<u8>) -> bool {
    forall|j: int| 0 <= j < s.len() ==> is_digit(#[trigger] s[j])
}

/// A decimal integer with an optional sign, if `s` is one.
pub open spec fn int_of(s: Seq<u8>) -> Option<int> {
    if s.len() > 0 && (s[0] == 0x2d || s[0] == 0x2b) {
        let d = s.drop_first();
        if d.len() > 0 && all_digits(d) {
            Some(if s[0] == 0x2d { -digits_value(d) } else { digits_value(d) })
        } else {
            None
        }
    } else if s.len() > 0 && all_digits(s) {
        Some(digits_value(s))
    } else {
        None
    }
}

/// The end of the token that starts at `i`.
pub open spec fn token_end(line: Seq<u8>, i: int) -> int
    decreases line.len() - i,
{
    if i >= line.len() || i < 0 {
        line.len() as int
    } else if space_len(line, i) > 0 {
        i
    } else {
        token_end(line, i + 1)
    }
}

/// The literals of `line` from position `i`, or the position of the first
/// token before the first zero that is not an integer in the range of `i32`.
pub open spec fn literals_from(line: Seq<u8>, i: int) -> Result<Seq<i32>, int>
    decreases line.len() - i, 1int,
{
    if i >= line.len() || i < 0 {
        Ok(Seq::empty())
    } else if space_len(line, i) > 0 {
        literals_from(line, i + space_len(line, i))
    } else {
        literals_token(line, i)
    }
}

pub open spec fn literals_token(line: Seq<u8>, i: int) -> Result<Seq<i32>, int>
    decreases line.len() - i, 0int,
{
    let k = token_end(line, i);
    if 0 <= i < k <= line.len() {
        match int_of(line.subrange(i, k)) {
            Some(x) => if x == 0 {
                Ok(Seq::empty())
            } else if i32::MIN <= x <= i32::MAX {
                match literals_from(line, k) {
                    Ok(rest) => Ok(seq![x as i32] + rest),
                    Err(p) => Err(p),
                }
            } else {
                Err(i)
            },
            None => Err(i),
        }
    } else {
        Err(i)
    }
}

/// A token of the assignment line is not an integer in the range of `i32`.
#[derive(Debug, Clone, Copy, PartialEq, Eq, Structural)]
pub struct BadToken {
    /// Position of the token in the text.
    pub at: usize,
}

/// `v` in front of the literals in `o`, if there are any.
pub open spec fn prepend(v: Seq<i32>, o: Result<Seq<i32>, int>) -> Result<Seq<i32>, int> {
    match o {
        Ok(r) => Ok(v + r),
        Err(p) => Err(p),
    }
}

/// The value of `s` as an `i32`, if it is a decimal integer in range.
pub open spec fn i32_of(s: Seq<u8>) -> Option<i32> {
    match int_of(s) {
        Some(x) => if i32::MIN <= x <= i32::MAX { Some(x as i32) } else { None },
        None => None,
    }
}

proof fn lemma_digits_prefix(s: Seq<u8>, k: int)
    requires
        all_digits(s),
        0 <= k <= s.len(),
    ensures
        digits_value(s.subrange(0, k)) <= digits_value(s),
        0 <= digits_value(s),
    decreases s.len(),
{
    if s.len() == 0 {
        assert(s.subrange(0, k) =~= s);
    } else if k == s.len() {
        assert(s.subrange(0, k) =~= s);
        lemma_digits_prefix(s.drop_last(), 0);
    } else {
        let d = s.drop_last();
        assert(d.subrange(0, k) =~= s.subrange(0, k));
        lemma_digits_prefix(d, k);
    }
}

/// Whether `t[a..b]` is an integer in the range of `i32`, and its value.
pub(crate) fn parse_token(t: &[u8], a: usize, b: usize) -> (r: Option<i32>)
    requires
        a <= b <= t@.len(),
    ensures
        r == i32_of(t@.subrange(a as int, b as int)),
{
    let ghost s = t@.subrange(a as int, b as int);
    if a == b {
        return None;
    }
    let neg = t[a] == 0x2d;
    let start: usize = if t[a] == 0x2d || t[a] == 0x2b { a + 1 } else { a };
    let ghost d = t@.subrange(start as int, b as int);
    proof {
        if start == a + 1 {
            assert(s.drop_first() =~= d);
        } else {
            assert(s =~= d);
        }
    }
    if start == b {
        return None;
    }
    let mut acc: u64 = 0;
    let mut j: usize = start;
    while j < b
        invariant
            a <= start < b <= t@.len(),
            start == a || start == a + 1,
            start <= j <= b,
            s == t@.subrange(a as int, b as int),
            d == t@.subrange(start as int, b as int),
            start == a + 1 ==> s.drop_first() == d,
            start == a ==> s == d,
            start == a + 1 <==> (t@[a as int] == 0x2d || t@[a as int] == 0x2b),
            neg == (t@[a as int] == 0x2d),
            s.len() > 0 && s[0] == t@[a as int],
            all_digits(d.subrange(0, j - start)),
            acc == digits_value(d.subrange(0, j - start)),
            acc <= 0x8000_0000,
        decreases b - j,
    {
        let c = t[j];
        if c < 0x30 || c > 0x39 {
            proof {
                assert(!is_digit(d[j - start]));
                assert(!all_digits(d));
                if start == a + 1 {
                    assert(s[0] == 0x2d || s[0] == 0x2b);
                    assert(!all_digits(s.drop_first()));
                } else {
                    assert(!(s[0] == 0x2d || s[0] == 0x2b));
                    assert(!all_digits(s));
                }
                assert(int_of(s) is None);
            }
            return None;
        }
        let ghost p1 = d.subrange(0, j + 1 - start);
        proof {
            assert(p1.drop_last() =~= d.subrange(0, j - start));
            assert(p1.last() == c);
        }
        let next = acc * 10 + (c - 0x30) as u64;
        j += 1;
        if next > 0x8000_0000 {
            proof {
                assert(all_digits(p1));
                if all_digits(d) {
                    lemma_digits_prefix(d, j - start);
                    assert(digits_value(d) > 0x8000_0000);
                    if start == a + 1 {
                        assert(s[0] == 0x2d || s[0] == 0x2b);
                        assert(s.drop_first() == d);
                    } else {
                        assert(!(s[0] == 0x2d || s[0] == 0x2b));
                    }
                } else {
                    if start == a + 1 {
                        assert(s[0] == 0x2d || s[0] == 0x2b);
                        assert(!all_digits(s.drop_first()));
                    } else {
                        assert(!(s[0] == 0x2d || s[0] == 0x2b));
                        assert(!all_digits(s));
                    }
                }
                assert(i32_of(s) is None);
            }
            return None;
        }
        acc = next;
    }
    proof {
        assert(d.subrange(0, b - start) =~= d);
    }
    if neg {
        Some((0 - acc as i64) as i32)
    } else if acc > 0x7fff_ffff {
        None
    } else {
        Some(acc as i32)
    }
}

/// The length of the white-space character at `t[i]` within `t[s..e]`.
fn space_at(t: &[u8], s: usize, e: usize, i: usize) -> (r: usize)
    requires
        s <= i < e <= t@.len(),
    ensures
        r as int == space_len(t@.subrange(s as int, e as int), i - s),
        r <= 3,
{
    let ghost line = t@.subrange(s as int, e as int);
    let b = t[i];
    assert(line[i - s] == b);
    if b == 0x20 || b == 0x09 || b == 0x0a || b == 0x0b || b == 0x0c || b == 0x0d {
        return 1;
    }
    if b == 0xc2 && e - i > 1 {
        let c = t[i + 1];
        assert(line[i + 1 - s] == c);
        if c == 0x85 || c == 0xa0 {
            return 2;
        }
    }
    if e - i > 2 {
        let c = t[i + 1];
        let d = t[i + 2];
        assert(line[i + 1 - s] == c);
        assert(line[i + 2 - s] == d);
        if (b == 0xe1 && c == 0x9a && d == 0x80) || (b == 0xe2 && c == 0x80 && ((0x80 <= d && d <= 0x8a) || d
            == 0xa8 || d == 0xa9 || d == 0xaf)) || (b == 0xe2 && c == 0x81 && d == 0x9f) || (b == 0xe3 && c
            == 0x80 && d == 0x80) {
            return 3;
        }
    }
    0
}

/// The span of the first line of `t` that does not start with `c`; the
/// span is empty, at the end, when there is none.
fn find_data_line(t: &[u8]) -> (r: (usize, usize))
    ensures
        r.0 <= r.1 <= t@.len(),
        r.0 as int == data_start(t@, 0),
        t@.subrange(r.0 as int, r.1 as int) == data_line(t@),
{
    let mut i: usize = 0;
    while i < t.len()
        invariant
            i <= t@.len(),
            data_start(t@, 0) == data_start(t@, i as int),
        decreases t@.len() - i,
    {
        let mut e: usize = i;
        while e < t.len() && t[e] != 0x0a
            invariant
                i <= e <= t@.len(),
                line_end(t@, i as int) == line_end(t@, e as int),
            decreases t@.len() - e,
        {
            e += 1;
        }
        if t[i] == 0x63 {
            if e < t.len() {
                i = e + 1;
            } else {
                proof {
                    assert(t@.subrange(t@.len() as int, t@.len() as int) =~= Seq::<u8>::empty());
                }
                return (t.len(), t.len());
            }
        } else {
            return (i, e);
        }
    }
    proof {
        assert(t@.subrange(t@.len() as int, t@.len() as int) =~= Seq::<u8>::empty());
    }
    (t.len(), t.len())
}

/// Reads the literals of an assignment from the text of an answer file:
/// comment lines are skipped, and the first other line gives the literals,
/// up to the first `0`. No such line gives no literals. The first token
/// there that is not an integer in the range of `i32` is an error, at its
/// position in the text.
pub fn read_assignment(text: &[u8]) -> (r: Result<Vec<i32>, BadToken>)
    ensures
        literals_from(data_line(text@), 0) matches Ok(v) ==> r matches Ok(x) && x@ == v,
        literals_from(data_line(text@), 0) matches Err(p) ==> r == Err::<Vec<i32>, BadToken>(
            BadToken { at: (data_start(text@, 0) + p) as usize },
        ),
{
    let (s, e) = find_data_line(text);
    let ghost line = text@.subrange(s as int, e as int);
    let mut out: Vec<i32> = Vec::new();
    let mut p: usize = s;
    while p < e
        invariant
            s <= p <= e <= text@.len(),
            line == text@.subrange(s as int, e as int),
            line == data_line(text@),
            s as int == data_start(text@, 0),
            literals_from(line, 0) == prepend(out@, literals_from(line, p - s)),
        decreases e - p,
    {
        let sl = space_at(text, s, e, p);
        if sl > 0 {
            p += sl;
        } else {
            let mut q: usize = p + 1;
            proof {
                assert(token_end(line, p - s) == token_end(line, p - s + 1));
            }
            while q < e && space_at(text, s, e, q) == 0
                invariant
                    s <= p < q <= e <= text@.len(),
                    line == text@.subrange(s as int, e as int),
                    token_end(line, p - s) == token_end(line, q - s),
                decreases e - q,
            {
                q += 1;
            }
            let ghost k = q - s;
            proof {
                assert(token_end(line, p - s) == k);
                assert(line.subrange(p - s, k) =~= text@.subrange(p as int, q as int));
                assert(literals_from(line, p - s) == literals_token(line, p - s));
            }
            match parse_token(text, p, q) {
                None => {
                    return Err(BadToken { at: p });
                },
                Some(x) => {
                    if x == 0 {
                        proof {
                            assert(out@ + Seq::<i32>::empty() =~= out@);
                        }
                        return Ok(out);
                    }
                    let ghost o0 = out@;
                    out.push(x);
                    proof {
                        match literals_from(line, k) {
                            Ok(rest) => {
                                assert(o0 + (seq![x] + rest) =~= out@ + rest);
                            },
                            Err(_) => {},
                        }
                    }
                    p = q;
                }
            }
        }
    }
    proof {
        assert(out@ + Seq::<i32>::empty() =~= out@);
    }
    Ok(out)
}

} // verus!
