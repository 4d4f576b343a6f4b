//! Wire codec: JSON text frames over UTF-8 bytes.
//!
//! The exact grammar of every frame the core reads or writes is given
//! by spec functions over byte sequences; the executable encoder and
//! parser are proved equal to them. Inbound strings accept the standard
//! short escapes and `\uXXXX` escapes (surrogate pairs included),
//! decoded to UTF-8; outbound strings escape quotes, backslashes and
//! control characters.

use vstd::prelude::*;

verus! {

// ---------------------------------------------------------------------
// JSON strings: escaping and encoding
// ---------------------------------------------------------------------
/// Lowercase hex digit for a value below 16.
pub open spec fn hex_digit(v: u8) -> u8 {
    if v < 10 {
        (48 + v) as u8
    } else {
        (87 + v) as u8
    }
}

/// How one byte of a string body is written inside a JSON string.
pub open spec fn esc(b: u8) -> Seq<u8> {
    if b == 34 {
        seq![92u8, 34u8]
    } else if b == 92 {
        seq![92u8, 92u8]
    } else if b == 8 {
        seq![92u8, 98u8]
    } else if b == 9 {
        seq![92u8, 116u8]
    } else if b == 10 {
        seq![92u8, 110u8]
    } else if b == 12 {
        seq![92u8, 102u8]
    } else if b == 13 {
        seq![92u8, 114u8]
    } else if b < 32 {
        seq![92u8, 117u8, 48u8, 48u8, hex_digit(b / 16), hex_digit(b % 16)]
    } else {
        seq![b]
    }
}

/// The escaped body of a JSON string.
pub open spec fn json_escaped(s: Seq<u8>) -> Seq<u8>
    decreases s.len(),
{
    if s.len() == 0 {
        Seq::empty()
    } else {
        esc(s[0]) + json_escaped(s.drop_first())
    }
}

/// A whole JSON string: quote, escaped body, quote.
pub open spec fn json_string(s: Seq<u8>) -> Seq<u8> {
    seq![34u8] + json_escaped(s) + seq![34u8]
}

/// Escaping distributes over appending one byte at the end.
pub proof fn lemma_escaped_push(s: Seq<u8>, b: u8)
    ensures
        json_escaped(s.push(b)) == json_escaped(s) + esc(b),
    decreases s.len(),
{
    if s.len() == 0 {
        assert(s.push(b)[0] == b);
        assert(json_escaped(Seq::<u8>::empty()) =~= Seq::<u8>::empty());
        assert(s.push(b).drop_first() =~= Seq::<u8>::empty());
        assert(json_escaped(s.push(b)) =~= json_escaped(s) + esc(b));
    } else {
        assert(s.push(b)[0] == s[0]);
        assert(s.push(b).drop_first() =~= s.drop_first().push(b));
        lemma_escaped_push(s.drop_first(), b);
        assert(json_escaped(s.push(b)) =~= json_escaped(s) + esc(b));
    }
}

/// Append the JSON string encoding of `s` to `out`.
#[verifier::loop_isolation(false)]
pub fn write_json_string(out: &mut Vec<u8>, s: &Vec<u8>)
    ensures
        final(out)@ == old(out)@ + json_string(s@),
{
    out.push(34);
    let mut i: usize = 0;
    while i < s.len()
        invariant
            i <= s.len(),
            out@ == old(out)@ + seq![34u8] + json_escaped(s@.subrange(0, i as int)),
        decreases s.len() - i,
    {
        let ghost done = s@.subrange(0, i as int);
        let b = s[i];
        if b == 34 {
            out.push(92);
            out.push(34);
        } else if b == 92 {
            out.push(92);
            out.push(92);
        } else if b == 8 {
            out.push(92);
            out.push(98);
        } else if b == 9 {
            out.push(92);
            out.push(116);
        } else if b == 10 {
            out.push(92);
            out.push(110);
        } else if b == 12 {
            out.push(92);
            out.push(102);
        } else if b == 13 {
            out.push(92);
            out.push(114);
        } else if b < 32 {
            out.push(92);
            out.push(117);
            out.push(48);
            out.push(48);
            out.push(if b / 16 < 10 {
                48 + b / 16
            } else {
                87 + b / 16
            });
            out.push(if b % 16 < 10 {
                48 + b % 16
            } else {
                87 + b % 16
            });
        } else {
            out.push(b);
        }
        proof {
            lemma_escaped_push(done, b);
            assert(s@.subrange(0, i + 1) =~= done.push(b));
            assert(out@ =~= old(out)@ + seq![34u8] + json_escaped(s@.subrange(0, i + 1)));
        }
        i = i + 1;
    }
    out.push(34);
    proof {
        assert(s@.subrange(0, s@.len() as int) =~= s@);
        assert(out@ =~= old(out)@ + json_string(s@));
    }
}

/// `"key":` — a quoted key followed by a colon.
pub open spec fn kq(k: Seq<u8>) -> Seq<u8> {
    seq![34u8] + k + seq![34u8, 58u8]
}

/// Append `"key":` to `out`.
pub fn write_kq(out: &mut Vec<u8>, k: &Vec<u8>)
    ensures
        final(out)@ == old(out)@ + kq(k@),
{
    out.push(34);
    let mut i: usize = 0;
    let ghost mid = out@;
    #[verifier::loop_isolation(false)]
    while i < k.len()
        invariant
            i <= k.len(),
            out@ == mid + k@.subrange(0, i as int),
        decreases k.len() - i,
    {
        out.push(k[i]);
        proof {
            assert(k@.subrange(0, i + 1) =~= k@.subrange(0, i as int).push(k@[i as int]));
            assert(out@ =~= mid + k@.subrange(0, i + 1));
        }
        i = i + 1;
    }
    out.push(34);
    out.push(58);
    proof {
        assert(k@.subrange(0, k@.len() as int) =~= k@);
        assert(out@ =~= old(out)@ + kq(k@));
    }
}

// ---------------------------------------------------------------------
// Whitespace
// ---------------------------------------------------------------------
/// JSON insignificant whitespace.
pub open spec fn is_ws(b: u8) -> bool {
    b == 32 || b == 9 || b == 10 || b == 13
}

/// Index of the first non-whitespace byte at or after `i`.
pub open spec fn skip_ws(s: Seq<u8>, i: int) -> int
    decreases s.len() - i
        when 0 <= i <= s.len()
{
    if i < s.len() && is_ws(s[i]) {
        skip_ws(s, i + 1)
    } else {
        i
    }
}

/// Executable counterpart of [`is_ws`].
pub fn is_ws_ex(b: u8) -> (r: bool)
    ensures
        r == is_ws(b),
{
    b == 32 || b == 9 || b == 10 || b == 13
}

/// Executable counterpart of [`skip_ws`].
#[verifier::loop_isolation(false)]
pub fn ws_end(s: &Vec<u8>, i: usize) -> (j: usize)
    requires
        i <= s.len(),
    ensures
        j == skip_ws(s@, i as int),
        i <= j <= s@.len(),
{
    let mut j = i;
    while j < s.len() && is_ws_ex(s[j])
        invariant
            i <= j <= s.len(),
            skip_ws(s@, i as int) == skip_ws(s@, j as int),
        decreases s.len() - j,
    {
        j = j + 1;
    }
    j
}

// ---------------------------------------------------------------------
// JSON string parsing
// ---------------------------------------------------------------------
/// The escapes written as backslash plus one character, and their values.
pub open spec fn is_short_escape(e: u8) -> bool {
    e == 34 || e == 92 || e == 47 || e == 98 || e == 116 || e == 110 || e == 102 || e == 114
}

/// The byte a short escape denotes.
pub open spec fn unesc(e: u8) -> u8 {
    if e == 34 {
        34u8
    } else if e == 92 {
        92u8
    } else if e == 47 {
        47u8
    } else if e == 98 {
        8u8
    } else if e == 116 {
        9u8
    } else if e == 110 {
        10u8
    } else if e == 102 {
        12u8
    } else {
        13u8
    }
}

/// Value of a hex digit, or -1.
pub open spec fn hex_val(b: u8) -> int {
    if 48 <= b <= 57 {
        b - 48
    } else if 97 <= b <= 102 {
        b - 87
    } else if 65 <= b <= 70 {
        b - 55
    } else {
        -1
    }
}

/// Prefix one decoded byte onto a parse result.
pub open spec fn opt_prepend(c: u8, o: Option<(Seq<u8>, int)>) -> Option<(Seq<u8>, int)> {
    match o {
        Some((t, j)) => Some((seq![c] + t, j)),
        None => None,
    }
}

/// Prefix a decoded chunk onto a parse result.
pub open spec fn opt_prepend_seq(p: Seq<u8>, o: Option<(Seq<u8>, int)>) -> Option<
    (Seq<u8>, int),
> {
    match o {
        Some((t, j)) => Some((p + t, j)),
        None => None,
    }
}

/// The four hex digits of a `\uXXXX` escape starting at the backslash
/// (position `i`), as a code unit; meaningful when they are all digits.
pub open spec fn u_escape(s: Seq<u8>, i: int) -> int {
    ((hex_val(s[i + 2]) * 16 + hex_val(s[i + 3])) * 16 + hex_val(s[i + 4])) * 16 + hex_val(
        s[i + 5],
    )
}

/// Whether positions `i..i+6` hold `\u` and four hex digits.
pub open spec fn is_u_escape(s: Seq<u8>, i: int) -> bool {
    &&& i + 5 < s.len()
    &&& s[i] == 92
    &&& s[i + 1] == 117
    &&& hex_val(s[i + 2]) >= 0
    &&& hex_val(s[i + 3]) >= 0
    &&& hex_val(s[i + 4]) >= 0
    &&& hex_val(s[i + 5]) >= 0
}

/// UTF-8 bytes of one code point (below 0x110000, not a surrogate).
pub open spec fn utf8_of(cp: int) -> Seq<u8> {
    if cp < 0x80 {
        seq![cp as u8]
    } else if cp < 0x800 {
        seq![(0xC0 + cp / 0x40) as u8, (0x80 + cp % 0x40) as u8]
    } else if cp < 0x10000 {
        seq![
            (0xE0 + cp / 0x1000) as u8,
            (0x80 + (cp / 0x40) % 0x40) as u8,
            (0x80 + cp % 0x40) as u8,
        ]
    } else {
        seq![
            (0xF0 + cp / 0x40000) as u8,
            (0x80 + (cp / 0x1000) % 0x40) as u8,
            (0x80 + (cp / 0x40) % 0x40) as u8,
            (0x80 + cp % 0x40) as u8,
        ]
    }
}

/// Decoded contents and end position of a JSON string body starting at
/// `i` (just past the opening quote). Accepts raw non-control bytes, the
/// short escapes, and `\uXXXX` escapes — including surrogate pairs —
/// decoded to UTF-8.
pub open spec fn parse_string_body(s: Seq<u8>, i: int) -> Option<(Seq<u8>, int)>
    decreases s.len() - i
        when 0 <= i <= s.len()
{
    if i >= s.len() {
        None
    } else if s[i] == 34 {
        Some((Seq::empty(), i + 1))
    } else if s[i] == 92 {
        if i + 1 < s.len() && is_short_escape(s[i + 1]) {
            opt_prepend(unesc(s[i + 1]), parse_string_body(s, i + 2))
        } else if is_u_escape(s, i) {
            let cp = u_escape(s, i);
            if cp < 0xD800 || cp >= 0xE000 {
                opt_prepend_seq(utf8_of(cp), parse_string_body(s, i + 6))
            } else if cp < 0xDC00 && is_u_escape(s, i + 6) && 0xDC00 <= u_escape(s, i + 6)
                < 0xE000 {
                opt_prepend_seq(
                    utf8_of(0x10000 + (cp - 0xD800) * 0x400 + (u_escape(s, i + 6) - 0xDC00)),
                    parse_string_body(s, i + 12),
                )
            } else {
                None
            }
        } else {
            None
        }
    } else if s[i] < 32 {
        None
    } else {
        opt_prepend(s[i], parse_string_body(s, i + 1))
    }
}

/// A whole JSON string starting at `i`: its decoded contents and the
/// position just past the closing quote.
pub open spec fn parse_string(s: Seq<u8>, i: int) -> Option<(Seq<u8>, int)> {
    if 0 <= i < s.len() && s[i] == 34 {
        parse_string_body(s, i + 1)
    } else {
        None
    }
}

proof fn lemma_prepend_assoc(p: Seq<u8>, c: u8, o: Option<(Seq<u8>, int)>)
    ensures
        opt_prepend_seq(p, opt_prepend(c, o)) == opt_prepend_seq(p.push(c), o),
{
    match o {
        Some((t, j)) => {
            assert(p + (seq![c] + t) =~= p.push(c) + t);
        },
        None => {},
    }
}

proof fn lemma_prepend_seq_assoc(p: Seq<u8>, q: Seq<u8>, o: Option<(Seq<u8>, int)>)
    ensures
        opt_prepend_seq(p, opt_prepend_seq(q, o)) == opt_prepend_seq(p + q, o),
{
    match o {
        Some((t, j)) => {
            assert(p + (q + t) =~= (p + q) + t);
        },
        None => {},
    }
}

/// Read the four hex digits of a `\uXXXX` escape whose `\u` stands at
/// `i`.
fn read_u_escape(s: &Vec<u8>, i: usize) -> (r: Option<u32>)
    requires
        i + 5 < s.len(),
        s@[i as int] == 92,
        s@[i + 1] == 117,
    ensures
        match r {
            Some(cp) => is_u_escape(s@, i as int) && u_escape(s@, i as int) == cp as int && cp
                < 0x10000,
            None => !is_u_escape(s@, i as int),
        },
{
    let h1 = hex_val_ex(s[i + 2]);
    let h2 = hex_val_ex(s[i + 3]);
    let h3 = hex_val_ex(s[i + 4]);
    let h4 = hex_val_ex(s[i + 5]);
    match (h1, h2, h3, h4) {
        (Some(a), Some(b), Some(d), Some(e)) => Some(
            ((a as u32 * 16 + b as u32) * 16 + d as u32) * 16 + e as u32,
        ),
        _ => None,
    }
}

/// Append the UTF-8 bytes of one code point.
fn push_utf8(out: &mut Vec<u8>, cp: u32)
    requires
        cp < 0x110000,
    ensures
        final(out)@ == old(out)@ + utf8_of(cp as int),
{
    if cp < 0x80 {
        out.push(cp as u8);
    } else if cp < 0x800 {
        out.push((0xC0 + cp / 0x40) as u8);
        out.push((0x80 + cp % 0x40) as u8);
    } else if cp < 0x10000 {
        out.push((0xE0 + cp / 0x1000) as u8);
        out.push((0x80 + (cp / 0x40) % 0x40) as u8);
        out.push((0x80 + cp % 0x40) as u8);
    } else {
        out.push((0xF0 + cp / 0x40000) as u8);
        out.push((0x80 + (cp / 0x1000) % 0x40) as u8);
        out.push((0x80 + (cp / 0x40) % 0x40) as u8);
        out.push((0x80 + cp % 0x40) as u8);
    }
    proof {
        assert(out@ =~= old(out)@ + utf8_of(cp as int));
    }
}

/// The escaped body of `s`, followed by the closing quote and anything
/// after it, parses back to exactly `s`, ending just past the quote.
#[verifier::rlimit(100)]
proof fn lemma_escaped_parses_back(u: Seq<u8>, i: int, s: Seq<u8>)
    requires
        0 <= i,
        i + json_escaped(s).len() < u.len(),
        u.subrange(i, i + json_escaped(s).len() as int) == json_escaped(s),
        u[i + json_escaped(s).len() as int] == 34,
    ensures
        parse_string_body(u, i) == Some((s, i + json_escaped(s).len() + 1)),
    decreases s.len(),
{
    let e = json_escaped(s);
    let elen = e.len() as int;
    if s.len() == 0 {
        assert(u[i] == 34);
    } else {
        let b = s[0];
        let t = s.drop_first();
        let et = json_escaped(t);
        assert(e == esc(b) + et);
        let bl = esc(b).len() as int;
        assert forall|j: int| 0 <= j < et.len() implies #[trigger] u.subrange(
            i + bl,
            i + bl + et.len() as int,
        )[j] == et[j] by {
            assert(u.subrange(i, i + elen)[bl + j] == e[bl + j]);
        }
        assert(u.subrange(i + bl, i + bl + et.len() as int) =~= et);
        assert(u[i + bl + et.len() as int] == 34);
        lemma_escaped_parses_back(u, i + bl, t);
        assert(u.subrange(i, i + elen)[0] == e[0]);
        if b == 34 || b == 92 || b == 8 || b == 9 || b == 10 || b == 12 || b == 13 {
            assert(u.subrange(i, i + elen)[1] == e[1]);
            assert(u[i] == 92 && is_short_escape(u[i + 1]) && unesc(u[i + 1]) == b);
            assert(parse_string_body(u, i) == opt_prepend(b, parse_string_body(u, i + 2)));
            assert(seq![b] + t =~= s);
        } else if b < 32 {
            assert(u.subrange(i, i + elen)[1] == e[1]);
            assert(u.subrange(i, i + elen)[2] == e[2]);
            assert(u.subrange(i, i + elen)[3] == e[3]);
            assert(u.subrange(i, i + elen)[4] == e[4]);
            assert(u.subrange(i, i + elen)[5] == e[5]);
            assert(u[i] == 92 && u[i + 1] == 117 && u[i + 2] == 48 && u[i + 3] == 48);
            assert(u[i + 4] == hex_digit(b / 16) && u[i + 5] == hex_digit(b % 16));
            assert(hex_val(hex_digit(b / 16)) == b / 16 && hex_val(hex_digit(b % 16)) == b % 16);
            assert(!is_short_escape(u[i + 1]));
            assert(is_u_escape(u, i));
            assert(u_escape(u, i) == ((0 * 16 + 0) * 16 + b / 16) * 16 + b % 16);
            assert(u_escape(u, i) == b);
            assert(utf8_of(b as int) =~= seq![b]);
            assert(parse_string_body(u, i) == opt_prepend_seq(
                utf8_of(b as int),
                parse_string_body(u, i + 6),
            ));
            assert(seq![b] + t =~= s);
        } else {
            assert(u[i] == b && b != 34 && b != 92 && b >= 32);
            assert(parse_string_body(u, i) == opt_prepend(b, parse_string_body(u, i + 1)));
            assert(seq![b] + t =~= s);
        }
    }
}

/// Law: the reader accepts what the writer writes — a JSON string the
/// library encodes, wherever it stands in a frame, parses back to
/// exactly the bytes it encoded.
pub proof fn lemma_json_string_round_trip(s: Seq<u8>, rest: Seq<u8>)
    ensures
        parse_string(json_string(s) + rest, 0) == Some((s, json_string(s).len() as int)),
{
    let u = json_string(s) + rest;
    assert(u[0] == 34);
    assert(u.subrange(1, 1 + json_escaped(s).len() as int) =~= json_escaped(s));
    assert(u[1 + json_escaped(s).len() as int] == 34);
    lemma_escaped_parses_back(u, 1, s);
}

/// Executable counterpart of [`hex_val`]: the digit's value if it is one.
pub fn hex_val_ex(b: u8) -> (r: Option<u8>)
    ensures
        match r {
            Some(v) => hex_val(b) == v as int,
            None => hex_val(b) < 0,
        },
{
    if 48 <= b && b <= 57 {
        Some(b - 48)
    } else if 97 <= b && b <= 102 {
        Some(b - 87)
    } else if 65 <= b && b <= 70 {
        Some(b - 55)
    } else {
        None
    }
}

/// Executable counterpart of [`parse_string_body`].
#[verifier::loop_isolation(false)]
pub fn parse_string_body_ex(s: &Vec<u8>, i: usize) -> (r: Option<(Vec<u8>, usize)>)
    requires
        i <= s.len(),
    ensures
        match r {
            Some(p) => parse_string_body(s@, i as int) == Some((p.0@, p.1 as int)) && i < p.1
                <= s.len(),
            None => parse_string_body(s@, i as int) is None,
        },
{
    let mut cur = i;
    let mut acc: Vec<u8> = Vec::new();
    proof {
        if parse_string_body(s@, i as int) is Some {
            let (t, j) = parse_string_body(s@, i as int)->Some_0;
            assert(acc@ + t =~= t);
        }
    }
    while cur < s.len()
        invariant
            i <= cur <= s.len(),
            parse_string_body(s@, i as int) == opt_prepend_seq(
                acc@,
                parse_string_body(s@, cur as int),
            ),
        decreases s.len() - cur,
    {
        let b = s[cur];
        if b == 34 {
            proof {
                assert(acc@ + Seq::<u8>::empty() =~= acc@);
            }
            return Some((acc, cur + 1));
        } else if b == 92 {
            if cur + 1 < s.len() {
                let e = s[cur + 1];
                if e == 34 || e == 92 || e == 47 || e == 98 || e == 116 || e == 110 || e == 102
                    || e == 114 {
                    let c = if e == 34 {
                        34
                    } else if e == 92 {
                        92
                    } else if e == 47 {
                        47
                    } else if e == 98 {
                        8
                    } else if e == 116 {
                        9
                    } else if e == 110 {
                        10
                    } else if e == 102 {
                        12
                    } else {
                        13
                    };
                    proof {
                        lemma_prepend_assoc(acc@, c, parse_string_body(s@, cur + 2));
                    }
                    acc.push(c);
                    cur = cur + 2;
                } else if s.len() - cur > 5 && e == 117 {
                    let cp = match read_u_escape(s, cur) {
                        Some(cp) => cp,
                        None => {
                            return None;
                        },
                    };
                    if cp < 0xD800 || cp >= 0xE000 {
                        let ghost pre_acc = acc@;
                        push_utf8(&mut acc, cp);
                        proof {
                            lemma_prepend_seq_assoc(
                                pre_acc,
                                utf8_of(cp as int),
                                parse_string_body(s@, cur + 6),
                            );
                        }
                        cur = cur + 6;
                    } else if cp < 0xDC00 && s.len() - cur > 11 && s[cur + 6] == 92 && s[cur + 7]
                        == 117 {
                        let low = match read_u_escape(s, cur + 6) {
                            Some(low) => low,
                            None => {
                                return None;
                            },
                        };
                        if 0xDC00 <= low && low < 0xE000 {
                            let combined = 0x10000 + (cp - 0xD800) * 0x400 + (low - 0xDC00);
                            let ghost pre_acc = acc@;
                            push_utf8(&mut acc, combined);
                            proof {
                                lemma_prepend_seq_assoc(
                                    pre_acc,
                                    utf8_of(combined as int),
                                    parse_string_body(s@, cur + 12),
                                );
                            }
                            cur = cur + 12;
                        } else {
                            return None;
                        }
                    } else {
                        return None;
                    }
                } else {
                    return None;
                }
            } else {
                return None;
            }
        } else if b < 32 {
            return None;
        } else {
            proof {
                lemma_prepend_assoc(acc@, b, parse_string_body(s@, cur + 1));
            }
            acc.push(b);
            cur = cur + 1;
        }
    }
    None
}

/// Executable counterpart of [`parse_string`].
pub fn parse_string_ex(s: &Vec<u8>, i: usize) -> (r: Option<(Vec<u8>, usize)>)
    requires
        i <= s.len(),
    ensures
        match r {
            Some(p) => parse_string(s@, i as int) == Some((p.0@, p.1 as int)) && i < p.1
                <= s.len(),
            None => parse_string(s@, i as int) is None,
        },
{
    if i < s.len() && s[i] == 34 {
        parse_string_body_ex(s, i + 1)
    } else {
        None
    }
}

// ---------------------------------------------------------------------
// Message ids: 128-bit values written as 26 characters of Crockford
// base32, most significant digit first (so ids sort as their strings).
// ---------------------------------------------------------------------
/// Value of one base32 character: the canonical uppercase alphabet
/// (digits, then letters with I, L, O and U left out), and the same
/// letters in lowercase; -1 for anything else.
pub open spec fn b32_val(b: u8) -> int {
    if 48 <= b <= 57 {
        b - 48
    } else if 65 <= b <= 72 {
        b - 55
    } else if b == 74 || b == 75 {
        b - 56
    } else if b == 77 || b == 78 {
        b - 57
    } else if 80 <= b <= 84 {
        b - 58
    } else if 86 <= b <= 90 {
        b - 59
    } else if 97 <= b <= 104 {
        b - 87
    } else if b == 106 || b == 107 {
        b - 88
    } else if b == 109 || b == 110 {
        b - 89
    } else if 112 <= b <= 116 {
        b - 90
    } else if 118 <= b <= 122 {
        b - 91
    } else {
        -1
    }
}

/// The canonical character for a base32 digit.
pub open spec fn b32_char(v: int) -> u8 {
    if v < 10 {
        (48 + v) as u8
    } else if v < 18 {
        (55 + v) as u8
    } else if v < 20 {
        (56 + v) as u8
    } else if v < 22 {
        (57 + v) as u8
    } else if v < 27 {
        (58 + v) as u8
    } else {
        (59 + v) as u8
    }
}

pub open spec fn pow32(e: nat) -> int {
    vstd::arithmetic::power::pow(32, e)
}

/// The 26-character rendering of a 128-bit id.
pub open spec fn ulid_bytes(x: u128) -> Seq<u8> {
    Seq::new(26, |i: int| b32_char((x as int / pow32((25 - i) as nat)) % 32))
}

/// Numeric value of a digit string, most significant first.
pub open spec fn ulid_value(s: Seq<u8>) -> int
    decreases s.len(),
{
    if s.len() == 0 {
        0
    } else {
        ulid_value(s.drop_last()) * 32 + b32_val(s.last())
    }
}

/// The id a 26-character string denotes, accepting either letter case:
/// defined exactly when every character is in the alphabet and the value
/// fits in 128 bits (first character below '8').
pub open spec fn ulid_decode(s: Seq<u8>) -> Option<u128> {
    if s.len() == 26 && (forall|i: int| 0 <= i < 26 ==> b32_val(#[trigger] s[i]) >= 0) && b32_val(
        s[0],
    ) < 8 {
        Some(ulid_value(s) as u128)
    } else {
        None
    }
}

proof fn lemma_pow32_step(e: nat)
    ensures
        pow32((e + 1) as nat) == 32 * pow32(e),
{
    vstd::arithmetic::power::lemma_pow_adds(32, 1, e);
    vstd::arithmetic::power::lemma_pow1(32);
}

proof fn lemma_pow32_25()
    ensures
        pow32(25) == 0x20000000000000000000000000000000,
{
    reveal_with_fuel(vstd::arithmetic::power::pow, 26);
}

/// Executable counterpart of [`b32_char`].
pub fn b32_char_ex(v: u8) -> (r: u8)
    requires
        v < 32,
    ensures
        r == b32_char(v as int),
{
    if v < 10 {
        48 + v
    } else if v < 18 {
        55 + v
    } else if v < 20 {
        56 + v
    } else if v < 22 {
        57 + v
    } else if v < 27 {
        58 + v
    } else {
        59 + v
    }
}

/// Executable counterpart of [`b32_val`].
pub fn b32_val_ex(b: u8) -> (r: Option<u8>)
    ensures
        match r {
            Some(v) => b32_val(b) == v as int && v < 32,
            None => b32_val(b) < 0,
        },
{
    if 48 <= b && b <= 57 {
        Some(b - 48)
    } else if 65 <= b && b <= 72 {
        Some(b - 55)
    } else if b == 74 || b == 75 {
        Some(b - 56)
    } else if b == 77 || b == 78 {
        Some(b - 57)
    } else if 80 <= b && b <= 84 {
        Some(b - 58)
    } else if 86 <= b && b <= 90 {
        Some(b - 59)
    } else if 97 <= b && b <= 104 {
        Some(b - 87)
    } else if b == 106 || b == 107 {
        Some(b - 88)
    } else if b == 109 || b == 110 {
        Some(b - 89)
    } else if 112 <= b && b <= 116 {
        Some(b - 90)
    } else if 118 <= b && b <= 122 {
        Some(b - 91)
    } else {
        None
    }
}

/// Render an id as its 26-character string.
#[verifier::loop_isolation(false)]
pub fn ulid_to_bytes(x: u128) -> (r: Vec<u8>)
    ensures
        r@ == ulid_bytes(x),
{
    let mut r: Vec<u8> = Vec::new();
    let mut f: usize = 0;
    while f < 26
        invariant
            r.len() == f <= 26,
        decreases 26 - f,
    {
        r.push(48);
        f = f + 1;
    }
    let mut y = x;
    let mut k: usize = 0;
    proof {
        vstd::arithmetic::power::lemma_pow0(32);
    }
    while k < 26
        invariant
            k <= 26,
            r.len() == 26,
            y as int == x as int / pow32(k as nat),
            forall|j: int|
                0 <= j < k ==> r@[25 - j] == b32_char(
                    (x as int / #[trigger] pow32(j as nat)) % 32,
                ),
        decreases 26 - k,
    {
        proof {
            vstd::arithmetic::power::lemma_pow_positive(32, k as nat);
            vstd::arithmetic::div_mod::lemma_div_denominator(x as int, pow32(k as nat), 32);
            lemma_pow32_step(k as nat);
        }
        let d = (y % 32) as u8;
        let c = b32_char_ex(d);
        r[25 - k] = c;
        y = y / 32;
        k = k + 1;
    }
    proof {
        assert forall|i: int| 0 <= i < 26 implies r@[i] == ulid_bytes(x)[i] by {
            assert(r@[25 - (25 - i)] == b32_char((x as int / pow32((25 - i) as nat)) % 32));
        }
        assert(r@ =~= ulid_bytes(x));
    }
    r
}

/// Every canonical digit string headed by a digit below 8 denotes a
/// value below 8 * 32^(len-1).
proof fn lemma_ulid_value_bound(s: Seq<u8>)
    requires
        s.len() >= 1,
        forall|i: int| 0 <= i < s.len() ==> b32_val(#[trigger] s[i]) >= 0,
        b32_val(s[0]) < 8,
    ensures
        0 <= ulid_value(s) < 8 * pow32((s.len() - 1) as nat),
    decreases s.len(),
{
    if s.len() == 1 {
        vstd::arithmetic::power::lemma_pow0(32);
        assert(ulid_value(s.drop_last()) == 0);
    } else {
        let p = s.drop_last();
        lemma_ulid_value_bound(p);
        let e = (p.len() - 1) as nat;
        vstd::arithmetic::mul::lemma_mul_inequality(ulid_value(p), 8 * pow32(e) - 1, 32);
        lemma_pow32_step(e);
        assert((8 * pow32(e) - 1) * 32 == 8 * (32 * pow32(e)) - 32) by (nonlinear_arith);
        assert(b32_val(s.last()) < 32);
    }
}

/// Parse an id from its 26-character string, either letter case.
#[verifier::loop_isolation(false)]
pub fn ulid_from_bytes(s: &Vec<u8>) -> (r: Option<u128>)
    ensures
        match r {
            Some(v) => ulid_decode(s@) == Some(v),
            None => ulid_decode(s@) is None,
        },
{
    if s.len() != 26 {
        return None;
    }
    let mut acc: u128 = 0;
    let mut k: usize = 0;
    proof {
        vstd::arithmetic::power::lemma_pow0(32);
        lemma_pow32_25();
        assert(s@.subrange(0, 0) =~= Seq::<u8>::empty());
    }
    while k < 26
        invariant
            k <= 26,
            s.len() == 26,
            forall|j: int| 0 <= j < k ==> b32_val(#[trigger] s@[j]) >= 0,
            k >= 1 ==> b32_val(s@[0]) < 8,
            acc as int == ulid_value(s@.subrange(0, k as int)),
            k >= 1 ==> (acc as int) < 8 * pow32((k - 1) as nat),
            k == 0 ==> acc == 0,
        decreases 26 - k,
    {
        let d = match b32_val_ex(s[k]) {
            Some(d) => d,
            None => {
                return None;
            },
        };
        if k == 0 && d >= 8 {
            return None;
        }
        proof {
            if k >= 1 {
                let e = (k - 1) as nat;
                vstd::arithmetic::power::lemma_pow_increases(32, e, 24);
                vstd::arithmetic::mul::lemma_mul_inequality(acc as int, 8 * pow32(e) - 1, 32);
                lemma_pow32_step(e);
                assert((8 * pow32(e) - 1) * 32 == 8 * (32 * pow32(e)) - 32) by (nonlinear_arith);
                vstd::arithmetic::mul::lemma_mul_inequality(pow32(e), pow32(24), 256int);
                assert(pow32(24) * 256int == 8 * (32 * pow32(24))) by (nonlinear_arith);
                lemma_pow32_step(24);
                assert(pow32(25) == 32 * pow32(24));
            }
            assert(s@.subrange(0, k + 1).drop_last() =~= s@.subrange(0, k as int));
            assert(s@.subrange(0, k + 1).last() == s@[k as int]);
        }
        acc = acc * 32 + d as u128;
        k = k + 1;
    }
    proof {
        assert(s@.subrange(0, 26) =~= s@);
    }
    Some(acc)
}

// ---------------------------------------------------------------------
// Frame grammar: objects with known string keys, string-or-null values
// ---------------------------------------------------------------------
/// Fixed tokens of the wire grammar.
pub open spec fn content_key() -> Seq<u8> {
    seq![99u8, 111u8, 110u8, 116u8, 101u8, 110u8, 116u8]
}

pub open spec fn reply_key() -> Seq<u8> {
    seq![114u8, 101u8, 112u8, 108u8, 121u8, 95u8, 116u8, 111u8]
}

pub open spec fn subscribe_key() -> Seq<u8> {
    seq![83u8, 117u8, 98u8, 115u8, 99u8, 114u8, 105u8, 98u8, 101u8]
}

pub open spec fn unsubscribe_key() -> Seq<u8> {
    seq![85u8, 110u8, 115u8, 117u8, 98u8, 115u8, 99u8, 114u8, 105u8, 98u8, 101u8]
}

pub open spec fn channel_key() -> Seq<u8> {
    seq![99u8, 104u8, 97u8, 110u8, 110u8, 101u8, 108u8, 95u8, 110u8, 97u8, 109u8, 101u8]
}

/// A JSON value of the shapes the frames use: a string (`Some`) or
/// `null` (`None`), with the position just past it.
pub open spec fn parse_jval(s: Seq<u8>, i: int) -> Option<(Option<Seq<u8>>, int)> {
    if 0 <= i < s.len() && s[i] == 34 {
        match parse_string(s, i) {
            Some((t, j)) => Some((Some(t), j)),
            None => None,
        }
    } else if 0 <= i && i + 4 <= s.len() && s[i] == 110 && s[i + 1] == 117 && s[i + 2] == 108
        && s[i + 3] == 108 {
        Some((None, i + 4))
    } else {
        None
    }
}

/// One `"key": value` member starting at `i`.
pub open spec fn parse_member(s: Seq<u8>, i: int) -> Option<((Seq<u8>, Option<Seq<u8>>), int)> {
    match parse_string(s, i) {
        None => None,
        Some((k, j)) => {
            let j2 = skip_ws(s, j);
            if j2 < s.len() && s[j2] == 58 {
                let j3 = skip_ws(s, j2 + 1);
                match parse_jval(s, j3) {
                    None => None,
                    Some((v, j4)) => Some(((k, v), j4)),
                }
            } else {
                None
            }
        },
    }
}

/// The meaning of a one-member chat frame.
pub open spec fn incoming_of_field(k: Seq<u8>, v: Option<Seq<u8>>) -> Option<
    (Seq<u8>, Option<u128>),
> {
    if k == content_key() {
        match v {
            Some(c) => Some((c, None)),
            None => None,
        }
    } else {
        None
    }
}

/// Content plus reply reference, when both are well-formed.
pub open spec fn combine_fields(cv: Option<Seq<u8>>, rv: Option<Seq<u8>>) -> Option<
    (Seq<u8>, Option<u128>),
> {
    match cv {
        None => None,
        Some(c) => match rv {
            None => Some((c, None)),
            Some(rs) => match ulid_decode(rs) {
                Some(u) => Some((c, Some(u))),
                None => None,
            },
        },
    }
}

/// The meaning of a two-member chat frame (either field order).
pub open spec fn incoming_of_fields(
    k1: Seq<u8>,
    v1: Option<Seq<u8>>,
    k2: Seq<u8>,
    v2: Option<Seq<u8>>,
) -> Option<(Seq<u8>, Option<u128>)> {
    if k1 == content_key() && k2 == reply_key() {
        combine_fields(v1, v2)
    } else if k1 == reply_key() && k2 == content_key() {
        combine_fields(v2, v1)
    } else {
        None
    }
}

/// An inbound chat frame: an object holding `content` (a string) and
/// optionally `reply_to` (a message id string or null), nothing else.
/// The result is the content and the reply reference.
pub open spec fn parse_incoming(s: Seq<u8>) -> Option<(Seq<u8>, Option<u128>)> {
    let i = skip_ws(s, 0);
    if i < s.len() && s[i] == 123 {
        let j = skip_ws(s, i + 1);
        match parse_member(s, j) {
            None => None,
            Some(((k1, v1), p)) => {
                let p1 = skip_ws(s, p);
                if p1 < s.len() && s[p1] == 125 {
                    if skip_ws(s, p1 + 1) == s.len() {
                        incoming_of_field(k1, v1)
                    } else {
                        None
                    }
                } else if p1 < s.len() && s[p1] == 44 {
                    let q = skip_ws(s, p1 + 1);
                    match parse_member(s, q) {
                        None => None,
                        Some(((k2, v2), p2)) => {
                            let p3 = skip_ws(s, p2);
                            if p3 < s.len() && s[p3] == 125 {
                                if skip_ws(s, p3 + 1) == s.len() {
                                    incoming_of_fields(k1, v1, k2, v2)
                                } else {
                                    None
                                }
                            } else {
                                None
                            }
                        },
                    }
                } else {
                    None
                }
            },
        }
    } else {
        None
    }
}

/// An inbound multiplexer control frame: an object with one key,
/// `Subscribe` or `Unsubscribe`, whose value is an object with the one
/// key `channel_name` holding a string. The result says whether it
/// subscribes, and to which channel.
pub open spec fn parse_control(s: Seq<u8>) -> Option<(bool, Seq<u8>)> {
    let i = skip_ws(s, 0);
    if i < s.len() && s[i] == 123 {
        let j = skip_ws(s, i + 1);
        match parse_string(s, j) {
            None => None,
            Some((k, p)) => {
                if k == subscribe_key() || k == unsubscribe_key() {
                    let p1 = skip_ws(s, p);
                    if p1 < s.len() && s[p1] == 58 {
                        let p2 = skip_ws(s, p1 + 1);
                        if p2 < s.len() && s[p2] == 123 {
                            let p3 = skip_ws(s, p2 + 1);
                            match parse_member(s, p3) {
                                None => None,
                                Some(((k2, v2), p4)) => {
                                    if k2 == channel_key() {
                                        match v2 {
                                            Some(name) => {
                                                let p5 = skip_ws(s, p4);
                                                if p5 < s.len() && s[p5] == 125 {
                                                    let p6 = skip_ws(s, p5 + 1);
                                                    if p6 < s.len() && s[p6] == 125 {
                                                        if skip_ws(s, p6 + 1) == s.len() {
                                                            Some((k == subscribe_key(), name))
                                                        } else {
                                                            None
                                                        }
                                                    } else {
                                                        None
                                                    }
                                                } else {
                                                    None
                                                }
                                            },
                                            None => None,
                                        }
                                    } else {
                                        None
                                    }
                                },
                            }
                        } else {
                            None
                        }
                    } else {
                        None
                    }
                } else {
                    None
                }
            },
        }
    } else {
        None
    }
}

// ---------------------------------------------------------------------
// Executable parsing of the frames
// ---------------------------------------------------------------------
/// The contents of an optional byte vector.
pub open spec fn omap(v: Option<Vec<u8>>) -> Option<Seq<u8>> {
    match v {
        Some(x) => Some(x@),
        None => None,
    }
}

/// Whether two byte vectors hold the same bytes.
pub fn bytes_eq(a: &Vec<u8>, b: &Vec<u8>) -> (r: bool)
    ensures
        r == (a@ == b@),
{
    let r = a == b;
    proof {
        if r {
            assert(a@ =~= b@);
        }
    }
    r
}

/// The `content` token as bytes.
pub fn content_key_vec() -> (r: Vec<u8>)
    ensures
        r@ == content_key(),
{
    let mut v: Vec<u8> = Vec::new();
    v.push(99);
    v.push(111);
    v.push(110);
    v.push(116);
    v.push(101);
    v.push(110);
    v.push(116);
    proof {
        assert(v@ =~= content_key());
    }
    v
}

/// The `reply_to` token as bytes.
pub fn reply_key_vec() -> (r: Vec<u8>)
    ensures
        r@ == reply_key(),
{
    let mut v: Vec<u8> = Vec::new();
    v.push(114);
    v.push(101);
    v.push(112);
    v.push(108);
    v.push(121);
    v.push(95);
    v.push(116);
    v.push(111);
    proof {
        assert(v@ =~= reply_key());
    }
    v
}

/// The `Subscribe` token as bytes.
pub fn subscribe_key_vec() -> (r: Vec<u8>)
    ensures
        r@ == subscribe_key(),
{
    let mut v: Vec<u8> = Vec::new();
    v.push(83);
    v.push(117);
    v.push(98);
    v.push(115);
    v.push(99);
    v.push(114);
    v.push(105);
    v.push(98);
    v.push(101);
    proof {
        assert(v@ =~= subscribe_key());
    }
    v
}

/// The `Unsubscribe` token as bytes.
pub fn unsubscribe_key_vec() -> (r: Vec<u8>)
    ensures
        r@ == unsubscribe_key(),
{
    let mut v: Vec<u8> = Vec::new();
    v.push(85);
    v.push(110);
    v.push(115);
    v.push(117);
    v.push(98);
    v.push(115);
    v.push(99);
    v.push(114);
    v.push(105);
    v.push(98);
    v.push(101);
    proof {
        assert(v@ =~= unsubscribe_key());
    }
    v
}

/// The `channel_name` token as bytes.
pub fn channel_key_vec() -> (r: Vec<u8>)
    ensures
        r@ == channel_key(),
{
    let mut v: Vec<u8> = Vec::new();
    v.push(99);
    v.push(104);
    v.push(97);
    v.push(110);
    v.push(110);
    v.push(101);
    v.push(108);
    v.push(95);
    v.push(110);
    v.push(97);
    v.push(109);
    v.push(101);
    proof {
        assert(v@ =~= channel_key());
    }
    v
}

/// Executable counterpart of [`parse_jval`].
pub fn parse_jval_ex(s: &Vec<u8>, i: usize) -> (r: Option<(Option<Vec<u8>>, usize)>)
    requires
        i <= s.len(),
    ensures
        match r {
            Some(p) => parse_jval(s@, i as int) == Some((omap(p.0), p.1 as int)) && p.1 <= s.len(),
            None => parse_jval(s@, i as int) is None,
        },
{
    if i < s.len() && s[i] == 34 {
        match parse_string_ex(s, i) {
            Some((t, j)) => Some((Some(t), j)),
            None => None,
        }
    } else if s.len() - i >= 4 && s[i] == 110 && s[i + 1] == 117 && s[i + 2] == 108 && s[i + 3]
        == 108 {
        Some((None, i + 4))
    } else {
        None
    }
}

/// Executable counterpart of [`parse_member`].
pub fn parse_member_ex(s: &Vec<u8>, i: usize) -> (r: Option<((Vec<u8>, Option<Vec<u8>>), usize)>)
    requires
        i <= s.len(),
    ensures
        match r {
            Some(m) => parse_member(s@, i as int) == Some((((m.0).0@, omap((m.0).1)), m.1 as int))
                && m.1 <= s.len(),
            None => parse_member(s@, i as int) is None,
        },
{
    match parse_string_ex(s, i) {
        None => None,
        Some((k, j)) => {
            let j2 = ws_end(s, j);
            if j2 < s.len() && s[j2] == 58 {
                let j3 = ws_end(s, j2 + 1);
                match parse_jval_ex(s, j3) {
                    None => None,
                    Some((v, j4)) => Some(((k, v), j4)),
                }
            } else {
                None
            }
        },
    }
}

fn incoming_of_field_ex(k: Vec<u8>, v: Option<Vec<u8>>) -> (r: Option<(Vec<u8>, Option<u128>)>)
    ensures
        match r {
            Some(p) => incoming_of_field(k@, omap(v)) == Some((p.0@, p.1)),
            None => incoming_of_field(k@, omap(v)) is None,
        },
{
    if bytes_eq(&k, &content_key_vec()) {
        match v {
            Some(c) => Some((c, None)),
            None => None,
        }
    } else {
        None
    }
}

fn combine_fields_ex(cv: Option<Vec<u8>>, rv: Option<Vec<u8>>) -> (r: Option<
    (Vec<u8>, Option<u128>),
>)
    ensures
        match r {
            Some(p) => combine_fields(omap(cv), omap(rv)) == Some((p.0@, p.1)),
            None => combine_fields(omap(cv), omap(rv)) is None,
        },
{
    match cv {
        None => None,
        Some(c) => match rv {
            None => Some((c, None)),
            Some(rs) => match ulid_from_bytes(&rs) {
                Some(u) => Some((c, Some(u))),
                None => None,
            },
        },
    }
}

fn incoming_of_fields_ex(
    k1: Vec<u8>,
    v1: Option<Vec<u8>>,
    k2: Vec<u8>,
    v2: Option<Vec<u8>>,
) -> (r: Option<(Vec<u8>, Option<u128>)>)
    ensures
        match r {
            Some(p) => incoming_of_fields(k1@, omap(v1), k2@, omap(v2)) == Some((p.0@, p.1)),
            None => incoming_of_fields(k1@, omap(v1), k2@, omap(v2)) is None,
        },
{
    let ck = content_key_vec();
    let rk = reply_key_vec();
    if bytes_eq(&k1, &ck) && bytes_eq(&k2, &rk) {
        combine_fields_ex(v1, v2)
    } else if bytes_eq(&k1, &rk) && bytes_eq(&k2, &ck) {
        combine_fields_ex(v2, v1)
    } else {
        None
    }
}

/// Executable counterpart of [`parse_incoming`].
pub fn parse_incoming_ex(s: &Vec<u8>) -> (r: Option<(Vec<u8>, Option<u128>)>)
    ensures
        match r {
            Some(p) => parse_incoming(s@) == Some((p.0@, p.1)),
            None => parse_incoming(s@) is None,
        },
{
    let i = ws_end(s, 0);
    if !(i < s.len() && s[i] == 123) {
        return None;
    }
    let j = ws_end(s, i + 1);
    match parse_member_ex(s, j) {
        None => None,
        Some(((k1, v1), p)) => {
            let p1 = ws_end(s, p);
            if p1 < s.len() && s[p1] == 125 {
                let e = ws_end(s, p1 + 1);
                if e == s.len() {
                    incoming_of_field_ex(k1, v1)
                } else {
                    None
                }
            } else if p1 < s.len() && s[p1] == 44 {
                let q = ws_end(s, p1 + 1);
                match parse_member_ex(s, q) {
                    None => None,
                    Some(((k2, v2), p2)) => {
                        let p3 = ws_end(s, p2);
                        if p3 < s.len() && s[p3] == 125 {
                            let e = ws_end(s, p3 + 1);
                            if e == s.len() {
                                incoming_of_fields_ex(k1, v1, k2, v2)
                            } else {
                                None
                            }
                        } else {
                            None
                        }
                    },
                }
            } else {
                None
            }
        },
    }
}

/// Executable counterpart of [`parse_control`].
pub fn parse_control_ex(s: &Vec<u8>) -> (r: Option<(bool, Vec<u8>)>)
    ensures
        match r {
            Some(p) => parse_control(s@) == Some((p.0, p.1@)),
            None => parse_control(s@) is None,
        },
{
    let i = ws_end(s, 0);
    if !(i < s.len() && s[i] == 123) {
        return None;
    }
    let j = ws_end(s, i + 1);
    match parse_string_ex(s, j) {
        None => None,
        Some((k, p)) => {
            let is_sub = bytes_eq(&k, &subscribe_key_vec());
            let is_unsub = bytes_eq(&k, &unsubscribe_key_vec());
            if !(is_sub || is_unsub) {
                return None;
            }
            let p1 = ws_end(s, p);
            if !(p1 < s.len() && s[p1] == 58) {
                return None;
            }
            let p2 = ws_end(s, p1 + 1);
            if !(p2 < s.len() && s[p2] == 123) {
                return None;
            }
            let p3 = ws_end(s, p2 + 1);
            match parse_member_ex(s, p3) {
                None => None,
                Some(((k2, v2), p4)) => {
                    if !bytes_eq(&k2, &channel_key_vec()) {
                        return None;
                    }
                    match v2 {
                        None => None,
                        Some(name) => {
                            let p5 = ws_end(s, p4);
                            if !(p5 < s.len() && s[p5] == 125) {
                                return None;
                            }
                            let p6 = ws_end(s, p5 + 1);
                            if !(p6 < s.len() && s[p6] == 125) {
                                return None;
                            }
                            let e = ws_end(s, p6 + 1);
                            if e == s.len() {
                                Some((is_sub, name))
                            } else {
                                None
                            }
                        },
                    }
                },
            }
        },
    }
}

} // verus!
