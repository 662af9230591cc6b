//! Character-level building blocks: hexadecimal numbers, Unicode white
//! space, and the line structure of a text.

use vstd::prelude::*;

verus! {

/// The lower-case hexadecimal digit of value `d`.
pub open spec fn hex_digit(d: int) -> char
    recommends
        0 <= d < 16,
{
    if d < 10 {
        (48 + d) as char
    } else {
        (87 + d) as char
    }
}

/// `n` written in lower-case hexadecimal, without leading zeros
/// (the text that `{:x}` produces).
pub open spec fn lower_hex(n: nat) -> Seq<char>
    decreases n,
{
    if n < 16 {
        seq![hex_digit(n as int)]
    } else {
        lower_hex(n / 16).push(hex_digit((n % 16) as int))
    }
}

proof fn lemma_hex_digit(d: int)
    requires
        0 <= d < 16,
    ensures
        is_hex_digit(hex_digit(d)),
        hex_digit_value(hex_digit(d)) == d,
        !is_white_space(hex_digit(d)),
        hex_digit(d) != '+',
{
}

/// What `lower_hex` writes is a string of hexadecimal digits, without white
/// space or sign, that denotes `n` again.
pub proof fn lemma_lower_hex(n: nat)
    ensures
        lower_hex(n).len() > 0,
        all_hex_digits(lower_hex(n)),
        hex_value(lower_hex(n)) == n,
        forall|i: int|
            0 <= i < lower_hex(n).len() ==> !is_white_space(#[trigger] lower_hex(n)[i])
                && lower_hex(n)[i] != '+',
    decreases n,
{
    let h = lower_hex(n);
    if n < 16 {
        lemma_hex_digit(n as int);
        assert(h.drop_last() =~= Seq::<char>::empty());
        assert(hex_value(h.drop_last()) == 0);
        assert(h.last() == hex_digit(n as int));
    } else {
        lemma_lower_hex(n / 16);
        lemma_hex_digit((n % 16) as int);
        let p = lower_hex(n / 16);
        assert(h.drop_last() =~= p);
        assert(h.last() == hex_digit((n % 16) as int));
        assert(hex_value(h) == hex_value(p) * 16 + (n % 16) as int);
        assert((n / 16) * 16 + n % 16 == n) by (nonlinear_arith);
        assert forall|i: int| 0 <= i < h.len() implies #[trigger] is_hex_digit(h[i]) by {
            if i < p.len() {
                assert(h[i] == p[i]);
            }
        }
        assert forall|i: int| 0 <= i < h.len() implies !is_white_space(#[trigger] h[i]) && h[i]
            != '+' by {
            if i < p.len() {
                assert(h[i] == p[i]);
            }
        }
    }
}

/// Hexadecimal parsing reads back what `lower_hex` writes.
pub proof fn law_lower_hex_parses_back(n: u64)
    ensures
        parse_hex_u64(lower_hex(n as nat)) == Some(n),
{
    lemma_lower_hex(n as nat);
    assert(unsigned_digits(lower_hex(n as nat)) == lower_hex(n as nat));
}

/// The digits that `lower_hex` writes are those of `{:x}`: `hex_digit(d)` is
/// the `d`-th character of `0123456789abcdef`, never an upper-case letter.
pub proof fn law_hex_digit_table(d: int)
    requires
        0 <= d < 16,
    ensures
        hex_digit(d) == seq![
            '0', '1', '2', '3', '4', '5', '6', '7', '8', '9', 'a', 'b', 'c', 'd', 'e', 'f',
        ][d],
{
    let t = seq!['0', '1', '2', '3', '4', '5', '6', '7', '8', '9', 'a', 'b', 'c', 'd', 'e', 'f'];
    assert(t[d] == hex_digit(d)) by {
        if d == 0 { assert(t[0] == '0'); }
        else if d == 1 { assert(t[1] == '1'); }
        else if d == 2 { assert(t[2] == '2'); }
        else if d == 3 { assert(t[3] == '3'); }
        else if d == 4 { assert(t[4] == '4'); }
        else if d == 5 { assert(t[5] == '5'); }
        else if d == 6 { assert(t[6] == '6'); }
        else if d == 7 { assert(t[7] == '7'); }
        else if d == 8 { assert(t[8] == '8'); }
        else if d == 9 { assert(t[9] == '9'); }
        else if d == 10 { assert(t[10] == 'a'); }
        else if d == 11 { assert(t[11] == 'b'); }
        else if d == 12 { assert(t[12] == 'c'); }
        else if d == 13 { assert(t[13] == 'd'); }
        else if d == 14 { assert(t[14] == 'e'); }
        else { assert(t[15] == 'f'); }
    }
}

/// Every character that `lower_hex` writes is a decimal digit or one of the
/// lower-case letters `a` to `f`.
pub proof fn law_lower_hex_is_lower_case(n: nat)
    ensures
        forall|i: int|
            0 <= i < lower_hex(n).len() ==> {
                let c = #[trigger] lower_hex(n)[i];
                ('0' <= c && c <= '9') || ('a' <= c && c <= 'f')
            },
    decreases n,
{
    let h = lower_hex(n);
    if n < 16 {
        law_hex_digit_table(n as int);
    } else {
        law_lower_hex_is_lower_case(n / 16);
        law_hex_digit_table((n % 16) as int);
        let p = lower_hex(n / 16);
        assert forall|i: int| 0 <= i < h.len() implies {
            let c = #[trigger] h[i];
            ('0' <= c && c <= '9') || ('a' <= c && c <= 'f')
        } by {
            if i < p.len() {
                assert(h[i] == p[i]);
            }
        }
    }
}

/// The white space that separates the fields of a line is Unicode
/// `White_Space`, the set that `char::is_whitespace` accepts: the ASCII tab,
/// line feed, vertical tab, form feed, carriage return and space, and the
/// listed characters beyond ASCII.
pub proof fn law_white_space_chars(c: char)
    ensures
        is_white_space(c) <==> (c == '\t' || c == '\n' || c == '\u{0B}' || c == '\u{0C}' || c
            == '\r' || c == ' ' || c == '\u{85}' || c == '\u{A0}' || c == '\u{1680}' || ('\u{2000}'
            <= c && c <= '\u{200A}') || c == '\u{2028}' || c == '\u{2029}' || c == '\u{202F}' || c
            == '\u{205F}' || c == '\u{3000}'),
{
}

/// The digits that hexadecimal parsing accepts are `0`-`9` and `a`-`f` in
/// either case, each with its value.
pub proof fn law_hex_digit_values(d: int, c: char)
    requires
        0 <= d < 16,
    ensures
        is_hex_digit(seq![
            '0', '1', '2', '3', '4', '5', '6', '7', '8', '9', 'a', 'b', 'c', 'd', 'e', 'f',
        ][d]),
        hex_digit_value(seq![
            '0', '1', '2', '3', '4', '5', '6', '7', '8', '9', 'a', 'b', 'c', 'd', 'e', 'f',
        ][d]) == d,
        is_hex_digit(seq![
            '0', '1', '2', '3', '4', '5', '6', '7', '8', '9', 'A', 'B', 'C', 'D', 'E', 'F',
        ][d]),
        hex_digit_value(seq![
            '0', '1', '2', '3', '4', '5', '6', '7', '8', '9', 'A', 'B', 'C', 'D', 'E', 'F',
        ][d]) == d,
        is_hex_digit(c) <==> (('0' <= c && c <= '9') || ('a' <= c && c <= 'f') || ('A' <= c && c
            <= 'F')),
{
    law_hex_digit_table(d);
    lemma_hex_digit(d);
    let u = seq!['0', '1', '2', '3', '4', '5', '6', '7', '8', '9', 'A', 'B', 'C', 'D', 'E', 'F'];
    assert(is_hex_digit(u[d]) && hex_digit_value(u[d]) == d) by {
        if d == 0 { assert(u[0] == '0'); }
        else if d == 1 { assert(u[1] == '1'); }
        else if d == 2 { assert(u[2] == '2'); }
        else if d == 3 { assert(u[3] == '3'); }
        else if d == 4 { assert(u[4] == '4'); }
        else if d == 5 { assert(u[5] == '5'); }
        else if d == 6 { assert(u[6] == '6'); }
        else if d == 7 { assert(u[7] == '7'); }
        else if d == 8 { assert(u[8] == '8'); }
        else if d == 9 { assert(u[9] == '9'); }
        else if d == 10 { assert(u[10] == 'A'); }
        else if d == 11 { assert(u[11] == 'B'); }
        else if d == 12 { assert(u[12] == 'C'); }
        else if d == 13 { assert(u[13] == 'D'); }
        else if d == 14 { assert(u[14] == 'E'); }
        else { assert(u[15] == 'F'); }
    }
}

/// Appends one character to a string.
/// Trusted: `String::push` appends `c` and leaves the rest of the string as it was.
#[verifier::external_body]
pub(crate) fn push_char(s: &mut String, c: char)
    ensures
        final(s)@ == old(s)@.push(c),
{
    s.push(c)
}

fn hex_digit_char(d: u64) -> (c: char)
    requires
        d < 16,
    ensures
        c == hex_digit(d as int),
{
    let b: u8 = d as u8;
    if b < 10 {
        (48u8 + b) as char
    } else {
        (87u8 + b) as char
    }
}

/// Appends `n` in lower-case hexadecimal to `out`.
pub fn push_lower_hex(out: &mut String, n: u64)
    ensures
        final(out)@ == old(out)@ + lower_hex(n as nat),
    decreases n,
{
    if n >= 16 {
        push_lower_hex(out, n / 16);
    }
    let c = hex_digit_char(n % 16);
    push_char(out, c);
    proof {
        assert(out@ =~= old(out)@ + lower_hex(n as nat));
    }
}


/// Unicode `White_Space`: the characters that `char::is_whitespace` accepts.
pub open spec fn is_white_space(c: char) -> bool {
    let u = c as u32;
    ||| 0x09 <= u <= 0x0d
    ||| u == 0x20
    ||| u == 0x85
    ||| u == 0xa0
    ||| u == 0x1680
    ||| 0x2000 <= u <= 0x200a
    ||| u == 0x2028
    ||| u == 0x2029
    ||| u == 0x202f
    ||| u == 0x205f
    ||| u == 0x3000
}

pub fn white_space(c: char) -> (b: bool)
    ensures
        b == is_white_space(c),
{
    let u = c as u32;
    (0x09 <= u && u <= 0x0d) || u == 0x20 || u == 0x85 || u == 0xa0 || u == 0x1680 || (0x2000 <= u
        && u <= 0x200a) || u == 0x2028 || u == 0x2029 || u == 0x202f || u == 0x205f || u == 0x3000
}

/// The number of characters before the first white space in `s`
/// (all of `s` where it holds none).
pub open spec fn white_space_index(s: Seq<char>) -> nat
    decreases s.len(),
{
    if s.len() == 0 {
        0
    } else if is_white_space(s[0]) {
        0
    } else {
        1 + white_space_index(s.drop_first())
    }
}

/// Text without white space followed by a white-space character: the first
/// white space is where the text ends.
pub proof fn lemma_white_space_index_concat(a: Seq<char>, b: Seq<char>)
    requires
        forall|i: int| 0 <= i < a.len() ==> !is_white_space(#[trigger] a[i]),
        b.len() > 0,
        is_white_space(b[0]),
    ensures
        white_space_index(a + b) == a.len(),
    decreases a.len(),
{
    if a.len() == 0 {
        assert(a + b =~= b);
    } else {
        assert((a + b).drop_first() =~= a.drop_first() + b);
        assert((a + b)[0] == a[0]);
        assert forall|i: int| 0 <= i < a.drop_first().len() implies !is_white_space(
            #[trigger] a.drop_first()[i],
        ) by {
            assert(a.drop_first()[i] == a[i + 1]);
        }
        lemma_white_space_index_concat(a.drop_first(), b);
    }
}

/// `s` without its leading white space (`str::trim_start`).
pub open spec fn trim_start(s: Seq<char>) -> Seq<char>
    decreases s.len(),
{
    if s.len() > 0 && is_white_space(s[0]) {
        trim_start(s.drop_first())
    } else {
        s
    }
}

/// A digit of base 16, in either case.
pub open spec fn is_hex_digit(c: char) -> bool {
    let u = c as u32;
    ||| 0x30 <= u <= 0x39
    ||| 0x61 <= u <= 0x66
    ||| 0x41 <= u <= 0x46
}

pub open spec fn hex_digit_value(c: char) -> int {
    let u = c as u32;
    if u <= 0x39 {
        u - 0x30
    } else if u >= 0x61 {
        u - 0x61 + 10
    } else {
        u - 0x41 + 10
    }
}

pub open spec fn all_hex_digits(s: Seq<char>) -> bool {
    forall|i: int| 0 <= i < s.len() ==> #[trigger] is_hex_digit(s[i])
}

/// The number that the digits `s` denote in base 16.
pub open spec fn hex_value(s: Seq<char>) -> int
    decreases s.len(),
{
    if s.len() == 0 {
        0
    } else {
        hex_value(s.drop_last()) * 16 + hex_digit_value(s.last())
    }
}

/// `s` without a leading `+`, the one sign that an unsigned number may carry.
pub open spec fn unsigned_digits(s: Seq<char>) -> Seq<char> {
    if s.len() > 0 && s[0] == '+' {
        s.drop_first()
    } else {
        s
    }
}

/// What `u64::from_str_radix(s, 16)` accepts: an optional `+` and then at
/// least one hexadecimal digit, denoting a number that fits in 64 bits.
pub open spec fn parse_hex_u64(s: Seq<char>) -> Option<u64> {
    let d = unsigned_digits(s);
    if d.len() > 0 && all_hex_digits(d) && hex_value(d) <= u64::MAX {
        Some(hex_value(d) as u64)
    } else {
        None
    }
}

proof fn lemma_hex_value_nonneg(s: Seq<char>)
    requires
        all_hex_digits(s),
    ensures
        hex_value(s) >= 0,
    decreases s.len(),
{
    if s.len() > 0 {
        assert(is_hex_digit(s[s.len() - 1]));
        assert(all_hex_digits(s.drop_last())) by {
            assert forall|i: int| 0 <= i < s.drop_last().len() implies #[trigger] is_hex_digit(
                s.drop_last()[i],
            ) by {
                assert(is_hex_digit(s[i]));
            }
        }
        lemma_hex_value_nonneg(s.drop_last());
    }
}

/// A prefix of a string of digits denotes no more than the whole.
proof fn lemma_hex_value_prefix(s: Seq<char>, k: int)
    requires
        all_hex_digits(s),
        0 <= k <= s.len(),
    ensures
        hex_value(s.take(k)) <= hex_value(s),
    decreases s.len(),
{
    if k < s.len() {
        let p = s.drop_last();
        assert(all_hex_digits(p)) by {
            assert forall|i: int| 0 <= i < p.len() implies #[trigger] is_hex_digit(p[i]) by {
                assert(is_hex_digit(s[i]));
            }
        }
        assert(s.take(k) =~= p.take(k));
        lemma_hex_value_prefix(p, k);
        lemma_hex_value_nonneg(p);
        assert(is_hex_digit(s[s.len() - 1]));
    } else {
        assert(s.take(k) =~= s);
    }
}

/// Parses `s[lo..hi]` as `u64::from_str_radix` does in base 16.
pub fn parse_hex(s: &[char], lo: usize, hi: usize) -> (r: Option<u64>)
    requires
        lo <= hi <= s@.len(),
    ensures
        r == parse_hex_u64(s@.subrange(lo as int, hi as int)),
{
    let ghost t = s@.subrange(lo as int, hi as int);
    let mut d0 = lo;
    if lo < hi && s[lo] == '+' {
        d0 = lo + 1;
    }
    let ghost d = s@.subrange(d0 as int, hi as int);
    assert(d =~= unsigned_digits(t));
    if d0 == hi {
        return None;
    }
    let mut v: u64 = 0;
    let mut i = d0;
    while i < hi
        invariant
            d0 <= i <= hi <= s@.len(),
            d == s@.subrange(d0 as int, hi as int),
            t == s@.subrange(lo as int, hi as int),
            d == unsigned_digits(t),
            d.len() > 0,
            all_hex_digits(d.take(i - d0)),
            v == hex_value(d.take(i - d0)),
        decreases hi - i,
    {
        let c = s[i];
        let u = c as u32;
        let dv: u64 = if 0x30 <= u && u <= 0x39 {
            (u - 0x30) as u64
        } else if 0x61 <= u && u <= 0x66 {
            (u - 0x61 + 10) as u64
        } else if 0x41 <= u && u <= 0x46 {
            (u - 0x41 + 10) as u64
        } else {
            assert(d[i - d0] == c);
            assert(!is_hex_digit(d[i - d0]));
            return None;
        };
        let ghost p = d.take(i - d0);
        let ghost q = d.take(i - d0 + 1);
        assert(q.drop_last() =~= p);
        assert(q.last() == c);
        assert(all_hex_digits(q)) by {
            assert forall|j: int| 0 <= j < q.len() implies #[trigger] is_hex_digit(q[j]) by {
                if j < p.len() {
                    assert(q[j] == p[j]);
                }
            }
        }
        if v > 0x0fff_ffff_ffff_ffff {
            proof {
                if all_hex_digits(d) {
                    lemma_hex_value_prefix(d, i - d0 + 1);
                }
            }
            return None;
        }
        v = v * 16 + dv;
        i = i + 1;
    }
    assert(d.take(i - d0) =~= d);
    Some(v)
}

/// The position of the first white space in `s[lo..hi]`, or `hi`.
pub fn find_white_space(s: &[char], lo: usize, hi: usize) -> (k: usize)
    requires
        lo <= hi <= s@.len(),
    ensures
        lo <= k <= hi,
        k == lo + white_space_index(s@.subrange(lo as int, hi as int)),
{
    let mut k = lo;
    while k < hi && !white_space(s[k])
        invariant
            lo <= k <= hi <= s@.len(),
            white_space_index(s@.subrange(lo as int, hi as int)) == (k - lo)
                + white_space_index(s@.subrange(k as int, hi as int)),
        decreases hi - k,
    {
        assert(s@.subrange(k as int, hi as int).drop_first() =~= s@.subrange(
            k + 1,
            hi as int,
        ));
        k = k + 1;
    }
    k
}

/// The position of the first character of `s[lo..hi]` that is not white
/// space, or `hi`: `s[k..hi]` is `s[lo..hi]` trimmed at the start.
pub fn skip_white_space(s: &[char], lo: usize, hi: usize) -> (k: usize)
    requires
        lo <= hi <= s@.len(),
    ensures
        lo <= k <= hi,
        s@.subrange(k as int, hi as int) == trim_start(s@.subrange(lo as int, hi as int)),
{
    let mut k = lo;
    while k < hi && white_space(s[k])
        invariant
            lo <= k <= hi <= s@.len(),
            trim_start(s@.subrange(lo as int, hi as int)) == trim_start(
                s@.subrange(k as int, hi as int),
            ),
        decreases hi - k,
    {
        assert(s@.subrange(k as int, hi as int).drop_first() =~= s@.subrange(
            k + 1,
            hi as int,
        ));
        k = k + 1;
    }
    k
}

/// A string holding the characters `s[lo..hi]`.
pub fn string_of(s: &[char], lo: usize, hi: usize) -> (r: String)
    requires
        lo <= hi <= s@.len(),
    ensures
        r@ == s@.subrange(lo as int, hi as int),
{
    let mut r = String::new();
    let mut k = lo;
    while k < hi
        invariant
            lo <= k <= hi <= s@.len(),
            r@ == s@.subrange(lo as int, k as int),
        decreases hi - k,
    {
        push_char(&mut r, s[k]);
        k = k + 1;
        assert(r@ =~= s@.subrange(lo as int, k as int));
    }
    r
}

/// The lines of `s` that a `'\n'` ends, each without that `'\n'`.
pub open spec fn ended_lines(s: Seq<char>) -> Seq<Seq<char>>
    decreases s.len(),
{
    if s.len() == 0 {
        seq![]
    } else if s.last() == '\n' {
        ended_lines(s.drop_last()).push(open_line(s.drop_last()))
    } else {
        ended_lines(s.drop_last())
    }
}

/// The characters of `s` after its last `'\n'` (all of `s` where it has none).
pub open spec fn open_line(s: Seq<char>) -> Seq<char>
    decreases s.len(),
{
    if s.len() == 0 {
        seq![]
    } else if s.last() == '\n' {
        seq![]
    } else {
        open_line(s.drop_last()).push(s.last())
    }
}

/// A line that a `'\n'` ended, without the `'\r'` of a `"\r\n"` ending.
pub open spec fn strip_cr(l: Seq<char>) -> Seq<char> {
    if l.len() > 0 && l.last() == '\r' {
        l.drop_last()
    } else {
        l
    }
}

/// The lines of a text as `str::lines` gives them: split at `"\n"` and
/// `"\r\n"`, without the line endings; a final line ending is optional and
/// starts no further line.
pub open spec fn text_lines(s: Seq<char>) -> Seq<Seq<char>> {
    ended_lines(s).map_values(|l: Seq<char>| strip_cr(l)) + if open_line(s).len() > 0 {
        seq![open_line(s)]
    } else {
        seq![]
    }
}

/// The lines that a prefix of a text ends are the first lines of the text.
pub proof fn lemma_ended_lines_prefix(s: Seq<char>, i: int)
    requires
        0 <= i <= s.len(),
    ensures
        ended_lines(s.take(i)).len() <= ended_lines(s).len(),
        forall|k: int|
            0 <= k < ended_lines(s.take(i)).len() ==> #[trigger] ended_lines(s.take(i))[k]
                == ended_lines(s)[k],
    decreases s.len(),
{
    if i < s.len() {
        assert(s.take(i) =~= s.drop_last().take(i));
        lemma_ended_lines_prefix(s.drop_last(), i);
    } else {
        assert(s.take(i) =~= s);
    }
}

/// `white_space_index` is where the first white space stands: nothing before
/// it is white space, and the character there, if any, is.
pub proof fn law_white_space_index(s: Seq<char>)
    ensures
        white_space_index(s) <= s.len(),
        forall|i: int| 0 <= i < white_space_index(s) ==> !is_white_space(#[trigger] s[i]),
        white_space_index(s) < s.len() ==> is_white_space(s[white_space_index(s) as int]),
    decreases s.len(),
{
    if s.len() > 0 && !is_white_space(s[0]) {
        law_white_space_index(s.drop_first());
        assert forall|i: int| 0 <= i < white_space_index(s) implies !is_white_space(
            #[trigger] s[i],
        ) by {
            if i > 0 {
                assert(s[i] == s.drop_first()[i - 1]);
            }
        }
    }
}

/// Trimming at the start removes exactly the leading white space: what is
/// left is a suffix of `s` that is empty or starts with a character that is
/// not white space, and all that was cut is white space.
pub proof fn law_trim_start(s: Seq<char>)
    ensures
        trim_start(s).len() <= s.len(),
        trim_start(s) == s.skip(s.len() - trim_start(s).len()),
        trim_start(s).len() > 0 ==> !is_white_space(trim_start(s)[0]),
        forall|i: int|
            0 <= i < s.len() - trim_start(s).len() ==> is_white_space(#[trigger] s[i]),
    decreases s.len(),
{
    if s.len() > 0 && is_white_space(s[0]) {
        law_trim_start(s.drop_first());
        let t = trim_start(s);
        assert(s.drop_first().skip(s.drop_first().len() - t.len()) =~= s.skip(s.len() - t.len()));
        assert forall|i: int| 0 <= i < s.len() - t.len() implies is_white_space(#[trigger] s[i]) by {
            if i > 0 {
                assert(s[i] == s.drop_first()[i - 1]);
            }
        }
    } else {
        assert(s.skip(0) =~= s);
    }
}

/// The sign rule of `u64::from_str_radix`: a leading `-` is refused, a
/// leading `+` is dropped, and a text with no digit (`""` or `"+"`) is
/// refused.
pub proof fn law_hex_sign(s: Seq<char>)
    ensures
        parse_hex_u64(seq!['-'] + s) is None,
        parse_hex_u64(Seq::<char>::empty()) is None,
        parse_hex_u64(seq!['+']) is None,
        s.len() > 0 && s[0] != '+' ==> parse_hex_u64(seq!['+'] + s) == parse_hex_u64(s),
{
    let m = seq!['-'] + s;
    assert(m[0] == '-');
    assert(!is_hex_digit(m[0]));
    assert(seq!['+'].drop_first() =~= Seq::<char>::empty());
    assert((seq!['+'] + s).drop_first() =~= s);
}

proof fn lemma_open_line_plain(l: Seq<char>)
    requires
        forall|i: int| 0 <= i < l.len() ==> #[trigger] l[i] != '\n',
    ensures
        ended_lines(l) == Seq::<Seq<char>>::empty(),
        open_line(l) == l,
    decreases l.len(),
{
    if l.len() > 0 {
        assert(l[l.len() - 1] != '\n');
        assert forall|i: int| 0 <= i < l.drop_last().len() implies #[trigger] l.drop_last()[i]
            != '\n' by {
            assert(l.drop_last()[i] == l[i]);
        }
        lemma_open_line_plain(l.drop_last());
        assert(l.drop_last().push(l.last()) =~= l);
    }
}

proof fn lemma_lines_after_newline(p: Seq<char>, r: Seq<char>)
    requires
        p.len() > 0,
        p.last() == '\n',
    ensures
        ended_lines(p + r) == ended_lines(p) + ended_lines(r),
        open_line(p + r) == open_line(r),
    decreases r.len(),
{
    if r.len() == 0 {
        assert(p + r =~= p);
        assert(ended_lines(p) + ended_lines(r) =~= ended_lines(p));
        assert(open_line(p) == Seq::<char>::empty());
    } else {
        lemma_lines_after_newline(p, r.drop_last());
        assert((p + r).drop_last() =~= p + r.drop_last());
        assert((p + r).last() == r.last());
        if r.last() == '\n' {
            assert(ended_lines(p) + ended_lines(r.drop_last()).push(open_line(r.drop_last())) =~= (
            ended_lines(p) + ended_lines(r.drop_last())).push(open_line(r.drop_last())));
        }
    }
}

/// A text splits into lines at each `'\n'`: a first line `l` (holding no
/// `'\n'`) ended by `'\n'` is the first line, without a `'\r'` that ends
/// it, and the lines of the rest follow; a text with no `'\n'` is one line,
/// or none if it is empty.
pub proof fn law_text_lines_split(l: Seq<char>, rest: Seq<char>)
    requires
        forall|i: int| 0 <= i < l.len() ==> #[trigger] l[i] != '\n',
    ensures
        text_lines(l + seq!['\n'] + rest) == seq![strip_cr(l)] + text_lines(rest),
        text_lines(l) == if l.len() > 0 {
            seq![l]
        } else {
            Seq::<Seq<char>>::empty()
        },
{
    lemma_open_line_plain(l);
    let p = l + seq!['\n'];
    assert(p.drop_last() =~= l);
    assert(ended_lines(p) == seq![l]) by {
        assert(ended_lines(p) == ended_lines(l).push(open_line(l)));
        assert(Seq::<Seq<char>>::empty().push(l) =~= seq![l]);
    }
    lemma_lines_after_newline(p, rest);
    let f = |x: Seq<char>| strip_cr(x);
    assert((seq![l] + ended_lines(rest)).map_values(f) =~= seq![strip_cr(l)] + ended_lines(
        rest,
    ).map_values(f));
    assert(text_lines(p + rest) =~= seq![strip_cr(l)] + text_lines(rest));
    assert(ended_lines(l).map_values(f) =~= Seq::<Seq<char>>::empty());
}

/// A line ended by `"\r\n"` loses its `'\r'`; any other line keeps its last
/// character.
pub proof fn law_strip_cr(l: Seq<char>)
    ensures
        strip_cr(l.push('\r')) == l,
        l.len() == 0 || l.last() != '\r' ==> strip_cr(l) == l,
{
    assert(l.push('\r').drop_last() =~= l);
}

} // verus!
