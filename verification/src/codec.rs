//! The wire codec: decimal rendering of coordinates, the `PX x y color`
//! draw and query lines, and parsing of server response lines.

use crate::raster::{Pixel, PixelView};
use vstd::prelude::*;
use vstd::string::{StrSliceExecFns, StringExecFns};

verus! {

/// Decimal digit characters, by code point: `0` is 48, `9` is 57.
pub open spec fn is_digit(c: char) -> bool {
    48 <= c as int && c as int <= 57
}

/// The numeric value of a decimal digit character.
pub open spec fn digit_val(c: char) -> int {
    c as int - 48
}

/// The digit character for a value below ten.
pub open spec fn digit_char(d: int) -> char {
    if d == 0 {
        '0'
    } else if d == 1 {
        '1'
    } else if d == 2 {
        '2'
    } else if d == 3 {
        '3'
    } else if d == 4 {
        '4'
    } else if d == 5 {
        '5'
    } else if d == 6 {
        '6'
    } else if d == 7 {
        '7'
    } else if d == 8 {
        '8'
    } else {
        '9'
    }
}

/// The decimal rendering of a non-negative number: most significant digit
/// first, no leading zeros except for the single digit `0` itself.
pub open spec fn dec_rep(n: nat) -> Seq<char>
    decreases n,
{
    if n < 10 {
        seq![digit_char(n as int)]
    } else {
        dec_rep(n / 10) + seq![digit_char((n % 10) as int)]
    }
}

/// The decimal rendering of a signed number: a leading `-` for negatives.
pub open spec fn int_rep(n: int) -> Seq<char> {
    if n < 0 {
        seq!['-'] + dec_rep((-n) as nat)
    } else {
        dec_rep(n as nat)
    }
}

/// The one draw line of the protocol: `PX <x> <y> <color>` and a newline.
pub open spec fn pixel_line_spec(x: int, y: int, color: Seq<char>) -> Seq<char> {
    "PX "@ + int_rep(x) + " "@ + int_rep(y) + " "@ + color + "\n"@
}

/// A batch of draw lines: the lines of the first `i` pixels, concatenated in
/// order with no separator beyond each line's own newline.
pub open spec fn lines_upto(ps: Seq<PixelView>, i: int) -> Seq<char>
    decreases i,
{
    if i <= 0 {
        Seq::empty()
    } else {
        lines_upto(ps, i - 1) + pixel_line_spec(ps[i - 1].x, ps[i - 1].y, ps[i - 1].color)
    }
}

/// A whole batch of pixels as one transmission.
pub open spec fn lines_spec(ps: Seq<PixelView>) -> Seq<char> {
    lines_upto(ps, ps.len() as int)
}

/// The read query for one coordinate: `PX <x> <y>`, without a trailing
/// newline, exactly as the client sends it.  Whether the server's query
/// grammar wants a terminating newline is an open question of the protocol;
/// the draw lines do carry one.
pub open spec fn query_spec(x: int, y: int) -> Seq<char> {
    "PX "@ + int_rep(x) + " "@ + int_rep(y)
}

/// The color the shape is drawn in.
pub open spec fn snake_color_spec() -> Seq<char> {
    "00FDFD"@
}

/// The well-known color that marks food: finding it ahead makes the shape
/// grow.
pub open spec fn food_color_spec() -> Seq<char> {
    "FD00FD"@
}

/// The fallback color used when a response line carries no color token.
pub open spec fn default_color_spec() -> Seq<char> {
    "000000"@
}

fn digit_str(d: u32) -> (r: &'static str)
    requires
        d < 10,
    ensures
        r@ == seq![digit_char(d as int)],
{
    let r: &'static str = match d {
        0 => {
            proof {
                reveal_strlit("0");
            }
            "0"
        },
        1 => {
            proof {
                reveal_strlit("1");
            }
            "1"
        },
        2 => {
            proof {
                reveal_strlit("2");
            }
            "2"
        },
        3 => {
            proof {
                reveal_strlit("3");
            }
            "3"
        },
        4 => {
            proof {
                reveal_strlit("4");
            }
            "4"
        },
        5 => {
            proof {
                reveal_strlit("5");
            }
            "5"
        },
        6 => {
            proof {
                reveal_strlit("6");
            }
            "6"
        },
        7 => {
            proof {
                reveal_strlit("7");
            }
            "7"
        },
        8 => {
            proof {
                reveal_strlit("8");
            }
            "8"
        },
        _ => {
            proof {
                reveal_strlit("9");
            }
            "9"
        },
    };
    proof {
        assert(r@ =~= seq![digit_char(d as int)]);
    }
    r
}

fn push_dec(s: &mut String, n: u32)
    ensures
        final(s)@ == old(s)@ + dec_rep(n as nat),
    decreases n,
{
    if n < 10 {
        s.append(digit_str(n));
        proof {
            assert(final(s)@ =~= old(s)@ + dec_rep(n as nat));
        }
    } else {
        push_dec(s, n / 10);
        s.append(digit_str(n % 10));
        proof {
            assert(final(s)@ =~= old(s)@ + dec_rep(n as nat));
        }
    }
}

fn push_i32(s: &mut String, n: i32)
    ensures
        final(s)@ == old(s)@ + int_rep(n as int),
{
    if n < 0 {
        proof {
            reveal_strlit("-");
        }
        s.append("-");
        let m: u32 = if n == i32::MIN {
            2147483648
        } else {
            (-n) as u32
        };
        proof {
            assert(m as nat == (-(n as int)) as nat);
        }
        push_dec(s, m);
        proof {
            assert(final(s)@ =~= old(s)@ + int_rep(n as int));
        }
    } else {
        push_dec(s, n as u32);
    }
}

/// Serialize one pixel into its draw line, `PX <x> <y> <color>` and a
/// newline.
pub fn encode_pixel(p: &Pixel) -> (r: String)
    ensures
        r@ == pixel_line_spec(p@.x, p@.y, p@.color),
{
    let mut s = String::new();
    s.append("PX ");
    push_i32(&mut s, p.x);
    s.append(" ");
    push_i32(&mut s, p.y);
    s.append(" ");
    s.append(p.color.as_str());
    s.append("\n");
    proof {
        assert(s@ =~= pixel_line_spec(p@.x, p@.y, p@.color));
    }
    s
}

/// Serialize a batch of pixels into one transmission: the concatenation of
/// their draw lines, in order.
pub fn encode_pixels(pixels: &Vec<Pixel>) -> (r: String)
    ensures
        r@ == lines_spec(pixels@.map_values(|p: Pixel| p@)),
{
    let ghost ps = pixels@.map_values(|p: Pixel| p@);
    let mut s = String::new();
    let mut i: usize = 0;
    while i < pixels.len()
        invariant
            i <= pixels.len(),
            ps == pixels@.map_values(|p: Pixel| p@),
            ps.len() == pixels@.len(),
            s@ == lines_upto(ps, i as int),
        decreases pixels.len() - i,
    {
        let line = encode_pixel(&pixels[i]);
        s.append(line.as_str());
        proof {
            assert(s@ =~= lines_upto(ps, i as int + 1));
        }
        i += 1;
    }
    s
}

/// Serialize the read query for one coordinate: `PX <x> <y>`, no newline.
pub fn encode_query(x: i32, y: i32) -> (r: String)
    ensures
        r@ == query_spec(x as int, y as int),
{
    let mut s = String::new();
    s.append("PX ");
    push_i32(&mut s, x);
    s.append(" ");
    push_i32(&mut s, y);
    proof {
        assert(s@ =~= query_spec(x as int, y as int));
    }
    s
}

/// Character-wise string equality, decided exactly.
pub fn str_eq(a: &str, b: &str) -> (r: bool)
    ensures
        r == (a@ == b@),
{
    let la = a.unicode_len();
    let lb = b.unicode_len();
    if la != lb {
        return false;
    }
    let mut i: usize = 0;
    while i < la
        invariant
            i <= la,
            la as nat == a@.len(),
            la as nat == b@.len(),
            forall|j: int| 0 <= j < i ==> a@[j] == b@[j],
        decreases la - i,
    {
        if a.get_char(i) != b.get_char(i) {
            return false;
        }
        i += 1;
    }
    proof {
        assert(a@ =~= b@);
    }
    true
}

/// The color the shape is drawn in, `00FDFD`.
pub fn snake_color() -> (r: String)
    ensures
        r@ == snake_color_spec(),
{
    String::from_str("00FDFD")
}

/// The food color, `FD00FD`.
pub fn food_color() -> (r: String)
    ensures
        r@ == food_color_spec(),
{
    String::from_str("FD00FD")
}

/// Splitting on a separator, as `split` of the standard library does it:
/// the separators themselves are dropped, empty tokens are kept, and the
/// empty input yields one empty token.
pub open spec fn split_spec(s: Seq<char>, sep: char) -> Seq<Seq<char>>
    decreases s.len(),
{
    if s.len() == 0 {
        seq![Seq::empty()]
    } else if s[0] == sep {
        seq![Seq::<char>::empty()] + split_spec(s.drop_first(), sep)
    } else {
        let r = split_spec(s.drop_first(), sep);
        seq![seq![s[0]] + r[0]] + r.skip(1)
    }
}

/// The numeric value of a digit sequence, most significant digit first.
pub open spec fn digits_val(s: Seq<char>) -> int
    decreases s.len(),
{
    if s.len() == 0 {
        0
    } else {
        digits_val(s.drop_last()) * 10 + digit_val(s.last())
    }
}

/// A sequence of decimal digit characters only.
pub open spec fn all_digits(s: Seq<char>) -> bool {
    forall|i: int| 0 <= i < s.len() ==> is_digit(#[trigger] s[i])
}

/// A digit run this parser accepts: one to ten digits, enough for any `i32`.
pub open spec fn dec_ok(s: Seq<char>) -> bool {
    1 <= s.len() <= 10 && all_digits(s)
}

/// The integer a token denotes: an optional leading `-`, then one to ten
/// decimal digits.  Anything else does not parse.
pub open spec fn parse_int_spec(t: Seq<char>) -> Option<int> {
    if t.len() > 0 && t[0] == '-' {
        if dec_ok(t.skip(1)) {
            Some(-digits_val(t.skip(1)))
        } else {
            None
        }
    } else if dec_ok(t) {
        Some(digits_val(t))
    } else {
        None
    }
}

/// The same, narrowed to values an `i32` can carry.
pub open spec fn parse_i32_spec(t: Seq<char>) -> Option<int> {
    match parse_int_spec(t) {
        Some(v) => if i32::MIN <= v <= i32::MAX {
            Some(v)
        } else {
            None
        },
        None => None,
    }
}

/// A line with its trailing newline, if any, taken off.
pub open spec fn strip_newline(l: Seq<char>) -> Seq<char> {
    if l.len() > 0 && l.last() == '\n' {
        l.drop_last()
    } else {
        l
    }
}

/// What a draw line means: exactly four space-separated tokens, the first
/// `PX`, then two integers, then the color, with an optional trailing
/// newline.  Any other shape does not parse.
pub open spec fn parse_line_spec(l: Seq<char>) -> Option<(int, int, Seq<char>)> {
    let toks = split_spec(strip_newline(l), ' ');
    if toks.len() == 4 && toks[0] == "PX"@ {
        match (parse_i32_spec(toks[1]), parse_i32_spec(toks[2])) {
            (Some(x), Some(y)) => Some((x, y, toks[3])),
            _ => None,
        }
    } else {
        None
    }
}

/// The color named by a response line: the last space-separated token, or
/// the fallback color where that token is empty.
pub open spec fn response_color_spec(l: Seq<char>) -> Seq<char> {
    let toks = split_spec(strip_newline(l), ' ');
    if toks.last().len() > 0 {
        toks.last()
    } else {
        default_color_spec()
    }
}

/// Splitting never yields an empty token list.
proof fn lemma_split_len_ge_1(s: Seq<char>, sep: char)
    ensures
        split_spec(s, sep).len() >= 1,
    decreases s.len(),
{
    if s.len() > 0 {
        lemma_split_len_ge_1(s.drop_first(), sep);
    }
}

/// A sequence without the separator splits into itself alone.
proof fn lemma_split_no_sep(s: Seq<char>, sep: char)
    requires
        forall|k: int| 0 <= k < s.len() ==> s[k] != sep,
    ensures
        split_spec(s, sep) == seq![s],
    decreases s.len(),
{
    if s.len() == 0 {
        assert(split_spec(s, sep) =~~= seq![s]);
    } else {
        lemma_split_no_sep(s.drop_first(), sep);
        assert(seq![s[0]] + s.drop_first() =~= s);
        assert(split_spec(s, sep) =~~= seq![s]);
    }
}

/// Splitting at the first separator: the prefix becomes the first token and
/// the rest splits on its own.
proof fn lemma_split_at_first(s: Seq<char>, sep: char, j: int)
    requires
        0 <= j < s.len(),
        s[j] == sep,
        forall|k: int| 0 <= k < j ==> s[k] != sep,
    ensures
        split_spec(s, sep) == seq![s.take(j)] + split_spec(s.skip(j + 1), sep),
    decreases j,
{
    if j == 0 {
        assert(s.take(0) =~= Seq::<char>::empty());
        assert(s.drop_first() =~= s.skip(1));
        assert(split_spec(s, sep) =~~= seq![s.take(0)] + split_spec(s.skip(1), sep));
    } else {
        let df = s.drop_first();
        lemma_split_at_first(df, sep, j - 1);
        let r = split_spec(df, sep);
        assert(r == seq![df.take(j - 1)] + split_spec(df.skip(j), sep));
        lemma_split_len_ge_1(df.skip(j), sep);
        assert(seq![s[0]] + r[0] =~= s.take(j));
        assert(df.skip(j) =~= s.skip(j + 1));
        assert(r.skip(1) =~= split_spec(s.skip(j + 1), sep));
        assert(split_spec(s, sep) =~~= seq![s.take(j)] + split_spec(s.skip(j + 1), sep));
    }
}

/// A sequence containing the separator splits into at least two tokens.
proof fn lemma_split_has_sep(s: Seq<char>, sep: char, j: int)
    requires
        0 <= j < s.len(),
        s[j] == sep,
    ensures
        split_spec(s, sep).len() >= 2,
    decreases s.len(),
{
    if s[0] == sep {
        lemma_split_len_ge_1(s.drop_first(), sep);
    } else {
        lemma_split_has_sep(s.drop_first(), sep, j - 1);
    }
}

/// The last token of a split is everything after the last separator.
proof fn lemma_split_last(s: Seq<char>, sep: char, m: int)
    requires
        0 <= m <= s.len(),
        m == 0 || s[m - 1] == sep,
        forall|k: int| m <= k < s.len() ==> s[k] != sep,
    ensures
        split_spec(s, sep).len() >= 1,
        split_spec(s, sep).last() == s.skip(m),
    decreases s.len(),
{
    lemma_split_len_ge_1(s, sep);
    if s.len() == 0 {
        assert(split_spec(s, sep).last() =~= s.skip(0));
    } else if s[0] == sep {
        let df = s.drop_first();
        if m <= 1 {
            lemma_split_last(df, sep, 0);
        } else {
            lemma_split_last(df, sep, m - 1);
        }
        assert(df.skip(if m <= 1 {
            0int
        } else {
            m - 1
        }) =~= s.skip(if m <= 1 {
            1int
        } else {
            m
        }));
        if m == 0 {
            assert(false);
        }
    } else {
        let df = s.drop_first();
        let r = split_spec(df, sep);
        if m == 0 {
            lemma_split_no_sep(s, sep);
            assert(split_spec(s, sep).last() == s.skip(0));
        } else {
            lemma_split_last(df, sep, m - 1);
            lemma_split_has_sep(df, sep, m - 2);
            assert(split_spec(s, sep).last() == r.last());
            assert(df.skip(m - 1) =~= s.skip(m));
        }
    }
}

/// Powers of ten, for bounding digit runs.
pub open spec fn pow10(k: nat) -> int
    decreases k,
{
    if k == 0 {
        1
    } else {
        10 * pow10((k - 1) as nat)
    }
}

/// A digit run's value is bounded by ten to its length.
proof fn lemma_digits_val_bound(s: Seq<char>)
    requires
        all_digits(s),
    ensures
        0 <= digits_val(s) < pow10(s.len()),
    decreases s.len(),
{
    if s.len() > 0 {
        assert(all_digits(s.drop_last()));
        lemma_digits_val_bound(s.drop_last());
        assert(is_digit(s.last()));
    }
}

fn find_space(s: &str, from: usize) -> (j: usize)
    requires
        from as nat <= s@.len(),
    ensures
        from <= j <= s@.len(),
        j < s@.len() ==> s@[j as int] == ' ',
        forall|k: int| from <= k < j ==> s@[k] != ' ',
{
    let n = s.unicode_len();
    let mut i: usize = from;
    while i < n
        invariant
            from <= i <= n,
            n as nat == s@.len(),
            forall|k: int| from <= k < i ==> s@[k] != ' ',
        decreases n - i,
    {
        if s.get_char(i) == ' ' {
            return i;
        }
        i += 1;
    }
    n
}

/// Parse a decimal integer token: an optional leading `-`, then one to ten
/// digits, and the value must fit an `i32`.
pub fn parse_i32(t: &str) -> (r: Option<i32>)
    ensures
        match r {
            Some(v) => parse_i32_spec(t@) == Some(v as int),
            None => parse_i32_spec(t@).is_none(),
        },
{
    let n = t.unicode_len();
    let neg = n > 0 && t.get_char(0) == '-';
    let start: usize = if neg {
        1
    } else {
        0
    };
    proof {
        if neg {
            assert(t@.skip(1) =~= t@.subrange(1, n as int));
        }
    }
    if n - start == 0 || n - start > 10 {
        return None;
    }
    let ghost digits = t@.subrange(start as int, n as int);
    let mut acc: u64 = 0;
    let mut i: usize = start;
    while i < n
        invariant
            start <= i <= n,
            n as nat == t@.len(),
            1 <= n - start <= 10,
            digits == t@.subrange(start as int, n as int),
            neg ==> start == 1 && t@[0] == '-',
            !neg ==> start == 0 && (t@.len() == 0 || t@[0] != '-'),
            all_digits(t@.subrange(start as int, i as int)),
            acc == digits_val(t@.subrange(start as int, i as int)),
            acc < pow10((i - start) as nat),
        decreases n - i,
    {
        let c = t.get_char(i);
        let cv = c as u32;
        if cv < 48 || cv > 57 {
            proof {
                assert(digits.len() == n - start);
                assert(digits[i as int - start as int] == t@[i as int]);
                assert(!is_digit(t@[i as int]));
                assert(!all_digits(digits));
                if neg {
                    assert(t@.skip(1) =~= digits);
                } else {
                    assert(t@ =~= digits);
                }
            }
            return None;
        }
        proof {
            reveal_with_fuel(pow10, 12);
            assert(pow10((i - start) as nat) <= pow10(9)) by {
                lemma_pow10_le((i - start) as nat, 9);
            }
            assert(t@.subrange(start as int, i as int + 1).drop_last() =~= t@.subrange(
                start as int,
                i as int,
            ));
            assert(t@.subrange(start as int, i as int + 1).last() == t@[i as int]);
        }
        acc = acc * 10 + ((cv - 48) as u64);
        i += 1;
    }
    proof {
        assert(dec_ok(digits));
        lemma_digits_val_bound(digits);
        if neg {
            assert(t@.skip(1) =~= digits);
        } else {
            assert(t@ =~= digits);
        }
    }
    if neg {
        if acc > 2147483648 {
            return None;
        }
        if acc == 2147483648 {
            Some(i32::MIN)
        } else {
            Some(-(acc as i32))
        }
    } else {
        if acc > 2147483647 {
            return None;
        }
        Some(acc as i32)
    }
}

/// Powers of ten grow with the exponent.
proof fn lemma_pow10_le(a: nat, b: nat)
    requires
        a <= b,
    ensures
        pow10(a) <= pow10(b),
        pow10(a) >= 1,
    decreases b,
{
    if b > 0 {
        if a == b {
            lemma_pow10_le((b - 1) as nat, (b - 1) as nat);
        } else {
            lemma_pow10_le(a, (b - 1) as nat);
        }
    }
}

/// Parse a draw or response line, `PX <x> <y> <color>` with an optional
/// trailing newline, into its coordinates and color token.
#[verifier::rlimit(100)]
pub fn parse_pixel_line(line: &str) -> (r: Option<(i32, i32, String)>)
    ensures
        match r {
            Some(t) => parse_line_spec(line@) == Some((t.0 as int, t.1 as int, t.2@)),
            None => parse_line_spec(line@).is_none(),
        },
{
    let n = line.unicode_len();
    let body: &str = if n > 0 && line.get_char(n - 1) == '\n' {
        line.substring_char(0, n - 1)
    } else {
        line
    };
    proof {
        assert(body@ =~= strip_newline(line@));
    }
    let ghost b = body@;
    let blen = body.unicode_len();
    let j0 = find_space(body, 0);
    if j0 == blen {
        proof {
            lemma_split_no_sep(b, ' ');
        }
        return None;
    }
    proof {
        lemma_split_at_first(b, ' ', j0 as int);
    }
    let ghost r1 = b.skip(j0 as int + 1);
    let j1 = find_space(body, j0 + 1);
    if j1 == blen {
        proof {
            assert(forall|k: int| 0 <= k < r1.len() ==> r1[k] == b[k + j0 + 1] && r1[k] != ' ');
            lemma_split_no_sep(r1, ' ');
        }
        return None;
    }
    proof {
        assert(r1[j1 - j0 - 1] == ' ');
        assert(forall|k: int| 0 <= k < j1 - j0 - 1 ==> r1[k] == b[k + j0 + 1] && r1[k] != ' ');
        lemma_split_at_first(r1, ' ', j1 - j0 - 1);
        assert(r1.take(j1 - j0 - 1) =~= b.subrange(j0 as int + 1, j1 as int));
        assert(r1.skip(j1 - j0) =~= b.skip(j1 as int + 1));
    }
    let ghost r2 = b.skip(j1 as int + 1);
    let j2 = find_space(body, j1 + 1);
    if j2 == blen {
        proof {
            assert(forall|k: int| 0 <= k < r2.len() ==> r2[k] == b[k + j1 + 1] && r2[k] != ' ');
            lemma_split_no_sep(r2, ' ');
        }
        return None;
    }
    proof {
        assert(r2[j2 - j1 - 1] == ' ');
        assert(forall|k: int| 0 <= k < j2 - j1 - 1 ==> r2[k] == b[k + j1 + 1] && r2[k] != ' ');
        lemma_split_at_first(r2, ' ', j2 - j1 - 1);
        assert(r2.take(j2 - j1 - 1) =~= b.subrange(j1 as int + 1, j2 as int));
        assert(r2.skip(j2 - j1) =~= b.skip(j2 as int + 1));
    }
    let ghost r3 = b.skip(j2 as int + 1);
    let j3 = find_space(body, j2 + 1);
    if j3 < blen {
        proof {
            assert(r3[j3 - j2 - 1] == ' ');
            lemma_split_has_sep(r3, ' ', j3 - j2 - 1);
        }
        return None;
    }
    proof {
        assert(forall|k: int| 0 <= k < r3.len() ==> r3[k] == b[k + j2 + 1] && r3[k] != ' ');
        lemma_split_no_sep(r3, ' ');
        assert(split_spec(b, ' ') =~~= seq![
            b.take(j0 as int),
            b.subrange(j0 as int + 1, j1 as int),
            b.subrange(j1 as int + 1, j2 as int),
            r3,
        ]);
    }
    let t0 = body.substring_char(0, j0);
    if !str_eq(t0, "PX") {
        return None;
    }
    let t1 = body.substring_char(j0 + 1, j1);
    let t2 = body.substring_char(j1 + 1, j2);
    let x = match parse_i32(t1) {
        Some(v) => v,
        None => {
            return None;
        },
    };
    let y = match parse_i32(t2) {
        Some(v) => v,
        None => {
            return None;
        },
    };
    let color = body.substring_char(j2 + 1, blen).to_owned();
    proof {
        assert(color@ =~= r3);
    }
    Some((x, y, color))
}

/// The color a response line names: its last space-separated token, or the
/// fallback color where that token is empty.
pub fn response_color(line: &str) -> (r: String)
    ensures
        r@ == response_color_spec(line@),
{
    let n = line.unicode_len();
    let body: &str = if n > 0 && line.get_char(n - 1) == '\n' {
        line.substring_char(0, n - 1)
    } else {
        line
    };
    proof {
        assert(body@ =~= strip_newline(line@));
    }
    let blen = body.unicode_len();
    let mut start: usize = 0;
    let mut i: usize = 0;
    while i < blen
        invariant
            0 <= start <= i <= blen,
            blen as nat == body@.len(),
            start == 0 || body@[start as int - 1] == ' ',
            forall|k: int| start <= k < i ==> body@[k] != ' ',
        decreases blen - i,
    {
        if body.get_char(i) == ' ' {
            start = i + 1;
        }
        i += 1;
    }
    proof {
        lemma_split_last(body@, ' ', start as int);
    }
    let tok = body.substring_char(start, blen);
    proof {
        assert(tok@ =~= body@.skip(start as int));
    }
    if tok.unicode_len() > 0 {
        tok.to_owned()
    } else {
        String::from_str("000000")
    }
}

/// Decimal renderings consist of digits only, at least one.
proof fn lemma_dec_rep_digits(n: nat)
    ensures
        all_digits(dec_rep(n)),
        dec_rep(n).len() >= 1,
    decreases n,
{
    if n < 10 {
        assert(is_digit(digit_char(n as int)));
        assert(forall|i: int|
            0 <= i < dec_rep(n).len() ==> is_digit(#[trigger] dec_rep(n)[i]));
    } else {
        lemma_dec_rep_digits(n / 10);
        assert(is_digit(digit_char((n % 10) as int)));
        assert(forall|i: int|
            0 <= i < dec_rep(n).len() ==> is_digit(#[trigger] dec_rep(n)[i]));
    }
}

/// Parsing a decimal rendering gives the number back.
proof fn lemma_dec_rep_val(n: nat)
    ensures
        digits_val(dec_rep(n)) == n,
    decreases n,
{
    if n < 10 {
        assert(dec_rep(n).drop_last() =~= Seq::<char>::empty());
        assert(digits_val(Seq::<char>::empty()) == 0);
        assert(dec_rep(n).last() == digit_char(n as int));
        assert(digit_val(digit_char(n as int)) == n);
    } else {
        lemma_dec_rep_val(n / 10);
        assert(dec_rep(n).drop_last() =~= dec_rep(n / 10));
        assert(dec_rep(n).last() == digit_char((n % 10) as int));
        assert(digit_val(digit_char((n % 10) as int)) == n % 10);
        assert((n / 10) * 10 + n % 10 == n) by (nonlinear_arith);
    }
}

/// A number below ten to the `k` renders in at most `k` digits.
proof fn lemma_dec_rep_len(n: nat, k: nat)
    requires
        1 <= k,
        n < pow10(k),
    ensures
        dec_rep(n).len() <= k,
    decreases n,
{
    if n >= 10 {
        assert(pow10(k) == 10 * pow10((k - 1) as nat));
        assert(n / 10 < pow10((k - 1) as nat)) by (nonlinear_arith)
            requires
                n < 10 * pow10((k - 1) as nat),
                n >= 10,
        ;
        if k == 1 {
            lemma_pow10_le(1, 1);
            assert(false);
        }
        lemma_dec_rep_len(n / 10, (k - 1) as nat);
    }
}

/// The rendering of any `i32` value parses back to that value, and contains
/// neither a space nor a newline.
proof fn lemma_int_rep_parses(v: int)
    requires
        i32::MIN <= v <= i32::MAX,
    ensures
        parse_i32_spec(int_rep(v)) == Some(v),
        int_rep(v).len() >= 1,
        forall|k: int| 0 <= k < int_rep(v).len() ==> int_rep(v)[k] != ' ' && int_rep(v)[k] != '\n',
{
    reveal_with_fuel(pow10, 12);
    let t = int_rep(v);
    if v >= 0 {
        lemma_dec_rep_digits(v as nat);
        lemma_dec_rep_val(v as nat);
        lemma_dec_rep_len(v as nat, 10);
        assert(!is_digit('-'));
        assert(t[0] != '-');
        assert(dec_ok(t));
        assert(forall|k: int|
            0 <= k < t.len() ==> is_digit(#[trigger] t[k]) && t[k] != ' ' && t[k] != '\n');
    } else {
        let m = (-v) as nat;
        lemma_dec_rep_digits(m);
        lemma_dec_rep_val(m);
        lemma_dec_rep_len(m, 10);
        assert(t == seq!['-'] + dec_rep(m));
        assert(t[0] == '-');
        assert(t.skip(1) =~= dec_rep(m));
        assert(dec_ok(t.skip(1)));
        assert(parse_int_spec(t) == Some(-digits_val(dec_rep(m))));
        assert(-digits_val(dec_rep(m)) == v);
        assert(forall|k: int|
            1 <= k < t.len() ==> is_digit(#[trigger] t[k]));
        assert(forall|k: int| 0 <= k < t.len() ==> t[k] != ' ' && t[k] != '\n');
    }
}

/// Round trip of the wire format: a draw line built from a pixel's
/// coordinates and color parses back to exactly those coordinates and that
/// color.
#[verifier::rlimit(100)]
pub proof fn lemma_encode_parse_round_trip(x: i32, y: i32, color: Seq<char>)
    requires
        crate::snake::color_ok(color),
    ensures
        parse_line_spec(pixel_line_spec(x as int, y as int, color)) == Some(
            (x as int, y as int, color),
        ),
{
    reveal_strlit("PX ");
    reveal_strlit("PX");
    reveal_strlit(" ");
    reveal_strlit("\n");
    let tx = int_rep(x as int);
    let ty = int_rep(y as int);
    lemma_int_rep_parses(x as int);
    lemma_int_rep_parses(y as int);
    let l = pixel_line_spec(x as int, y as int, color);
    assert(forall|k: int|
        0 <= k < color.len() ==> crate::snake::is_hex_char(#[trigger] color[k]) && color[k] != ' '
            && color[k] != '\n');
    assert(l.last() == '\n');
    let b = strip_newline(l);
    assert(b =~= "PX "@ + tx + " "@ + ty + " "@ + color);
    assert(b[0] == 'P' && b[1] == 'X' && b[2] == ' ');
    lemma_split_at_first(b, ' ', 2);
    assert(b.take(2) =~= "PX"@);
    let r1 = b.skip(3);
    assert(r1 =~= tx + " "@ + ty + " "@ + color);
    let j1 = tx.len() as int;
    assert(r1[j1] == ' ');
    assert(forall|k: int| 0 <= k < j1 ==> r1[k] == tx[k] && r1[k] != ' ');
    lemma_split_at_first(r1, ' ', j1);
    assert(r1.take(j1) =~= tx);
    let r2 = r1.skip(j1 + 1);
    assert(r2 =~= ty + " "@ + color);
    let j2 = ty.len() as int;
    assert(r2[j2] == ' ');
    assert(forall|k: int| 0 <= k < j2 ==> r2[k] == ty[k] && r2[k] != ' ');
    lemma_split_at_first(r2, ' ', j2);
    assert(r2.take(j2) =~= ty);
    let r3 = r2.skip(j2 + 1);
    assert(r3 =~= color);
    lemma_split_no_sep(r3, ' ');
    let toks = split_spec(b, ' ');
    assert(toks =~~= seq!["PX"@, tx, ty, color]);
    assert(parse_line_spec(l) == Some((x as int, y as int, color)));
}

} // verus!
