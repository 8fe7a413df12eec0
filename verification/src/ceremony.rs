//! The text format of the Ethereum KZG ceremony output, as c-kzg-4844 ships
//! it: a line with the number of G1 points, a line with the number of G2
//! points, then one compressed point in hex per line.

use vstd::prelude::*;
use vstd::string::StringSliceAdditionalSpecFns;
use crate::curve::{G1, G2, spec_g1_compress, spec_g1_decompress, spec_g2_compress, spec_g2_decompress};
use crate::curve::g1_views;
use crate::kzg::{Srs, SrsError, powers_consistent, powers_but_one, tau_powers};
use ark_std::rand::RngCore;

verus! {

/// ASCII whitespace.
pub open spec fn is_ws(b: u8) -> bool {
    b == 9 || b == 10 || b == 11 || b == 12 || b == 13 || b == 32
}

/// The UTF-8 encoding of U+0085 or U+00A0 (whitespace of two bytes).
pub open spec fn is_ws2(a: u8, b: u8) -> bool {
    a == 0xC2 && (b == 0x85 || b == 0xA0)
}

/// The UTF-8 encoding of U+1680, U+2000 to U+200A, U+2028, U+2029, U+202F,
/// U+205F or U+3000 (whitespace of three bytes).
pub open spec fn is_ws3(a: u8, b: u8, c: u8) -> bool {
    ||| a == 0xE1 && b == 0x9A && c == 0x80
    ||| a == 0xE2 && b == 0x80 && ((0x80 <= c <= 0x8A) || c == 0xA8 || c == 0xA9 || c == 0xAF)
    ||| a == 0xE2 && b == 0x81 && c == 0x9F
    ||| a == 0xE3 && b == 0x80 && c == 0x80
}

/// The length of the whitespace character `s` starts with, 0 if none.
/// Whitespace is Unicode's `White_Space`, as `char::is_whitespace` and
/// `str::trim` take it.
pub open spec fn ws_prefix(s: Seq<u8>) -> nat {
    if s.len() >= 1 && is_ws(s[0]) {
        1
    } else if s.len() >= 2 && is_ws2(s[0], s[1]) {
        2
    } else if s.len() >= 3 && is_ws3(s[0], s[1], s[2]) {
        3
    } else {
        0
    }
}

/// The length of the whitespace character `s` ends with, 0 if none.
pub open spec fn ws_suffix(s: Seq<u8>) -> nat {
    let n = s.len() as int;
    if n >= 1 && is_ws(s[n - 1]) {
        1
    } else if n >= 2 && is_ws2(s[n - 2], s[n - 1]) {
        2
    } else if n >= 3 && is_ws3(s[n - 3], s[n - 2], s[n - 1]) {
        3
    } else {
        0
    }
}

pub open spec fn trim_front(s: Seq<u8>) -> Seq<u8>
    decreases s.len(),
{
    if ws_prefix(s) > 0 {
        trim_front(s.subrange(ws_prefix(s) as int, s.len() as int))
    } else {
        s
    }
}

pub open spec fn trim_back(s: Seq<u8>) -> Seq<u8>
    decreases s.len(),
{
    if ws_suffix(s) > 0 {
        trim_back(s.subrange(0, s.len() - ws_suffix(s)))
    } else {
        s
    }
}

/// `s` without leading or trailing whitespace.
pub open spec fn trim_ws(s: Seq<u8>) -> Seq<u8> {
    trim_back(trim_front(s))
}

/// Append the trimmed line `cur`, unless it is empty.
pub open spec fn push_line(ls: Seq<Seq<u8>>, cur: Seq<u8>) -> Seq<Seq<u8>> {
    if trim_ws(cur).len() == 0 {
        ls
    } else {
        ls.push(trim_ws(cur))
    }
}

/// Reading `b` line by line: the nonempty trimmed lines finished so far and
/// the line in progress.
pub open spec fn lines_state(b: Seq<u8>) -> (Seq<Seq<u8>>, Seq<u8>)
    decreases b.len(),
{
    if b.len() == 0 {
        (Seq::empty(), Seq::empty())
    } else {
        let (ls, cur) = lines_state(b.drop_last());
        if b.last() == 10 {
            (push_line(ls, cur), Seq::empty())
        } else {
            (ls, cur.push(b.last()))
        }
    }
}

/// The trimmed, nonempty lines of `b`.
pub open spec fn text_lines(b: Seq<u8>) -> Seq<Seq<u8>> {
    push_line(lines_state(b).0, lines_state(b).1)
}

pub open spec fn byte_lines(v: Seq<Vec<u8>>) -> Seq<Seq<u8>> {
    v.map_values(|l: Vec<u8>| l@)
}

pub open spec fn is_digit(b: u8) -> bool {
    48 <= b <= 57
}

/// The decimal number the digits `s` spell.
pub open spec fn digits_value(s: Seq<u8>) -> nat
    decreases s.len(),
{
    if s.len() == 0 {
        0
    } else {
        digits_value(s.drop_last()) * 10 + (s.last() - 48) as nat
    }
}

/// `s` without a leading `+`.
pub open spec fn strip_plus(s: Seq<u8>) -> Seq<u8> {
    if s.len() > 0 && s[0] == 43 {
        s.drop_first()
    } else {
        s
    }
}

pub open spec fn all_digits(d: Seq<u8>) -> bool {
    forall|i: int| 0 <= i < d.len() ==> is_digit(#[trigger] d[i])
}

/// `usize::from_str`: an optional `+`, then at least one digit, and the
/// value must fit.
pub open spec fn parse_usize_spec(s: Seq<u8>) -> Option<nat> {
    let d = strip_plus(s);
    if d.len() == 0 || !all_digits(d) || digits_value(d) > usize::MAX {
        None
    } else {
        Some(digits_value(d))
    }
}

/// The value of a hex digit, or -1.
pub open spec fn hex_val(c: u8) -> int {
    if 48 <= c <= 57 {
        c - 48
    } else if 97 <= c <= 102 {
        c - 87
    } else if 65 <= c <= 70 {
        c - 55
    } else {
        -1
    }
}

/// The byte a pair of hex digits (either case) stands for; `None` unless
/// both characters are hex digits.
pub open spec fn hex_pair(a: u8, b: u8) -> Option<u8> {
    if hex_val(a) >= 0 && hex_val(b) >= 0 {
        Some((16 * hex_val(a) + hex_val(b)) as u8)
    } else {
        None
    }
}

/// The bytes of `s` without a leading `0x`.
pub open spec fn strip_0x(s: Seq<u8>) -> Seq<u8> {
    if s.len() >= 2 && s[0] == 48 && s[1] == 120 {
        s.subrange(2, s.len() as int)
    } else {
        s
    }
}

/// Hex decoding: an optional `0x`, then an even number of characters, read
/// in pairs.
pub open spec fn decode_hex_spec(s: Seq<u8>) -> Option<Seq<u8>> {
    let t = strip_0x(s);
    if t.len() % 2 != 0 {
        None
    } else if forall|k: int| 0 <= k < t.len() / 2 ==> (#[trigger] hex_pair(t[2 * k], t[2 * k + 1])) is Some {
        Some(Seq::new(t.len() / 2, |k: int| hex_pair(t[2 * k], t[2 * k + 1])->0))
    } else {
        None
    }
}

/// The lowercase hex digit of `d < 16`.
pub open spec fn hex_digit(d: nat) -> u8 {
    if d < 10 {
        (48 + d) as u8
    } else {
        (87 + d) as u8
    }
}

/// Two lowercase hex digits per byte.
pub open spec fn encode_hex_spec(b: Seq<u8>) -> Seq<u8> {
    Seq::new(2 * b.len(), |i: int| if i % 2 == 0 { hex_digit((b[i / 2] / 16) as nat) } else { hex_digit((b[i / 2] % 16) as nat) })
}

pub open spec fn ascii_chars(b: Seq<u8>) -> Seq<char> {
    b.map_values(|x: u8| x as char)
}

/// `String::from_utf8` on ASCII bytes: the string of those characters.
#[verifier::external_body]
fn string_from_ascii(bytes: Vec<u8>) -> (r: String)
    requires
        forall|i: int| 0 <= i < bytes@.len() ==> (#[trigger] bytes@[i]) < 128,
    ensures
        r@ == ascii_chars(bytes@),
{
    String::from_utf8(bytes).unwrap()
}

/// The G1 point whose compressed encoding the hex line `l` holds; a line
/// shorter than a compressed point holds none.
pub open spec fn g1_of_line(l: Seq<u8>) -> Option<Seq<u8>> {
    match decode_hex_spec(l) {
        Some(b) => if b.len() >= 48 {
            spec_g1_decompress(b)
        } else {
            None
        },
        None => None,
    }
}

/// The G2 point whose compressed encoding the hex line `l` holds; a line
/// shorter than a compressed point holds none.
pub open spec fn g2_of_line(l: Seq<u8>) -> Option<Seq<u8>> {
    match decode_hex_spec(l) {
        Some(b) => if b.len() >= 96 {
            spec_g2_decompress(b)
        } else {
            None
        },
        None => None,
    }
}

/// The G1 point on line `i`, if that line is hex for one.
pub open spec fn line_g1(lines: Seq<Seq<u8>>, i: int) -> Option<Seq<u8>> {
    if 0 <= i < lines.len() {
        g1_of_line(lines[i])
    } else {
        None
    }
}

/// The G2 point on line `i`, if that line is hex for one.
pub open spec fn line_g2(lines: Seq<Seq<u8>>, i: int) -> Option<Seq<u8>> {
    if 0 <= i < lines.len() {
        g2_of_line(lines[i])
    } else {
        None
    }
}

pub open spec fn g1_section_ok(lines: Seq<Seq<u8>>, start: int, n: nat) -> bool {
    forall|k: int| 0 <= k < n ==> (#[trigger] line_g1(lines, start + k)) is Some
}

pub open spec fn g1_section(lines: Seq<Seq<u8>>, start: int, n: nat) -> Seq<Seq<u8>> {
    Seq::new(n, |k: int| line_g1(lines, start + k)->0)
}

pub open spec fn g2_section_ok(lines: Seq<Seq<u8>>, start: int, n: nat) -> bool {
    forall|k: int| 0 <= k < n ==> (#[trigger] line_g2(lines, start + k)) is Some
}

pub open spec fn count_at(lines: Seq<Seq<u8>>, i: int) -> Option<nat> {
    if 0 <= i < lines.len() {
        parse_usize_spec(lines[i])
    } else {
        None
    }
}

/// What the ceremony text `b` holds: the G1 powers (the monomial section
/// when present, else the first section) and the first two G2 points.
pub open spec fn ceremony_parse(b: Seq<u8>) -> Option<(Seq<Seq<u8>>, Seq<u8>, Seq<u8>)> {
    let lines = text_lines(b);
    match (count_at(lines, 0), count_at(lines, 1)) {
        (Some(n1), Some(n2)) => {
            let g2_start = 2 + n1 as int;
            let mono_start = g2_start + n2 as int;
            if n2 < 2 || !g1_section_ok(lines, 2, n1) || !g2_section_ok(lines, g2_start, n2) {
                None
            } else if lines.len() > mono_start {
                if g1_section_ok(lines, mono_start, n1) {
                    Some((g1_section(lines, mono_start, n1), line_g2(lines, g2_start)->0, line_g2(lines, g2_start + 1)->0))
                } else {
                    None
                }
            } else {
                Some((g1_section(lines, 2, n1), line_g2(lines, g2_start)->0, line_g2(lines, g2_start + 1)->0))
            }
        },
        _ => None,
    }
}

/// The points a ceremony text is read into: with `n1` G1 points per
/// section and `n2 >= 2` G2 points, `h` is the first line of the G2
/// section (line `2 + n1`) and `tau_h` the second (line `3 + n1`), whatever
/// `n2` is; the G1 powers are the `n1` points of the monomial section
/// (after the G2 section) when the text has one, else of the first section.
pub proof fn lemma_ceremony_points(b: Seq<u8>)
    ensures
        ceremony_parse(b) matches Some(p) ==> ({
            let ls = text_lines(b);
            let n1 = count_at(ls, 0)->0;
            &&& count_at(ls, 0) is Some
            &&& count_at(ls, 1) matches Some(n2) && n2 >= 2 && p.0 == g1_section(
                ls,
                if ls.len() > 2 + n1 + n2 { (2 + n1 + n2) as int } else { 2int },
                n1,
            )
            &&& p.0.len() == n1
            &&& Some(p.1) == line_g2(ls, 2 + n1 as int)
            &&& Some(p.2) == line_g2(ls, 3 + n1 as int)
        }),
{
    let ls = text_lines(b);
    if let (Some(n1), Some(n2)) = (count_at(ls, 0), count_at(ls, 1)) {
        let g2_start = 2 + n1 as int;
        if n2 >= 2 && g2_section_ok(ls, g2_start, n2) {
            assert(line_g2(ls, g2_start + 0) is Some);
            assert(line_g2(ls, g2_start + 1) is Some);
            assert(g2_start + 0 == 2 + n1);
        }
    }
}

/// The length of the whitespace character at the start of `s[lo..hi]`.
fn ws_prefix_at(s: &Vec<u8>, lo: usize, hi: usize) -> (k: usize)
    requires
        lo <= hi <= s@.len(),
    ensures
        k == ws_prefix(s@.subrange(lo as int, hi as int)),
{
    let len = hi - lo;
    if len >= 1 && (s[lo] == 9 || s[lo] == 10 || s[lo] == 11 || s[lo] == 12 || s[lo] == 13 || s[lo] == 32) {
        1
    } else if len >= 2 && s[lo] == 0xC2 && (s[lo + 1] == 0x85 || s[lo + 1] == 0xA0) {
        2
    } else if len >= 3 && ((s[lo] == 0xE1 && s[lo + 1] == 0x9A && s[lo + 2] == 0x80) || (s[lo] == 0xE2 && s[lo + 1] == 0x80
        && ((0x80 <= s[lo + 2] && s[lo + 2] <= 0x8A) || s[lo + 2] == 0xA8 || s[lo + 2] == 0xA9 || s[lo + 2] == 0xAF)) || (
    s[lo] == 0xE2 && s[lo + 1] == 0x81 && s[lo + 2] == 0x9F) || (s[lo] == 0xE3 && s[lo + 1] == 0x80 && s[lo + 2] == 0x80)) {
        3
    } else {
        0
    }
}

/// The length of the whitespace character at the end of `s[lo..hi]`.
fn ws_suffix_at(s: &Vec<u8>, lo: usize, hi: usize) -> (k: usize)
    requires
        lo <= hi <= s@.len(),
    ensures
        k == ws_suffix(s@.subrange(lo as int, hi as int)),
{
    let len = hi - lo;
    if len >= 1 && (s[hi - 1] == 9 || s[hi - 1] == 10 || s[hi - 1] == 11 || s[hi - 1] == 12 || s[hi - 1] == 13 || s[hi
        - 1] == 32) {
        1
    } else if len >= 2 && s[hi - 2] == 0xC2 && (s[hi - 1] == 0x85 || s[hi - 1] == 0xA0) {
        2
    } else if len >= 3 && ((s[hi - 3] == 0xE1 && s[hi - 2] == 0x9A && s[hi - 1] == 0x80) || (s[hi - 3] == 0xE2 && s[hi - 2]
        == 0x80 && ((0x80 <= s[hi - 1] && s[hi - 1] <= 0x8A) || s[hi - 1] == 0xA8 || s[hi - 1] == 0xA9 || s[hi - 1] == 0xAF))
        || (s[hi - 3] == 0xE2 && s[hi - 2] == 0x81 && s[hi - 1] == 0x9F) || (s[hi - 3] == 0xE3 && s[hi - 2] == 0x80 && s[hi
        - 1] == 0x80)) {
        3
    } else {
        0
    }
}

fn trim_line(s: &Vec<u8>) -> (r: Vec<u8>)
    ensures
        r@ == trim_ws(s@),
{
    let n = s.len();
    let mut lo: usize = 0;
    proof {
        assert(s@.subrange(0, n as int) =~= s@);
    }
    loop
        invariant
            n == s@.len(),
            0 <= lo <= n,
            trim_front(s@) == trim_front(s@.subrange(lo as int, n as int)),
        ensures
            trim_front(s@) == s@.subrange(lo as int, n as int),
            lo <= n,
        decreases n - lo,
    {
        let k = ws_prefix_at(s, lo, n);
        if k == 0 {
            break;
        }
        proof {
            assert(s@.subrange(lo as int, n as int).subrange(k as int, n - lo) =~= s@.subrange(lo + k, n as int));
        }
        lo = lo + k;
    }
    let mut hi: usize = n;
    loop
        invariant
            n == s@.len(),
            0 <= lo <= hi <= n,
            trim_ws(s@) == trim_back(s@.subrange(lo as int, hi as int)),
        ensures
            trim_ws(s@) == s@.subrange(lo as int, hi as int),
            lo <= hi <= n,
        decreases hi - lo,
    {
        let k = ws_suffix_at(s, lo, hi);
        if k == 0 {
            break;
        }
        proof {
            assert(s@.subrange(lo as int, hi as int).subrange(0, hi - lo - k) =~= s@.subrange(lo as int, hi - k));
        }
        hi = hi - k;
    }
    crate::field::copy_range(s.as_slice(), lo, hi)
}

/// The trimmed, nonempty lines of `b`.
pub fn split_lines(b: &[u8]) -> (r: Vec<Vec<u8>>)
    ensures
        byte_lines(r@) == text_lines(b@),
{
    let mut ls: Vec<Vec<u8>> = Vec::new();
    let mut cur: Vec<u8> = Vec::new();
    proof {
        assert(b@.subrange(0, 0) =~= Seq::<u8>::empty());
        assert(byte_lines(ls@) =~= Seq::<Seq<u8>>::empty());
    }
    for i in 0..b.len()
        invariant
            byte_lines(ls@) == lines_state(b@.subrange(0, i as int)).0,
            cur@ == lines_state(b@.subrange(0, i as int)).1,
    {
        proof {
            assert(b@.subrange(0, i + 1).drop_last() =~= b@.subrange(0, i as int));
        }
        if b[i] == 10 {
            let t = trim_line(&cur);
            if t.len() > 0 {
                ls.push(t);
            }
            cur = Vec::new();
            proof {
                assert(byte_lines(ls@) =~= lines_state(b@.subrange(0, i + 1)).0);
            }
        } else {
            cur.push(b[i]);
        }
    }
    let t = trim_line(&cur);
    if t.len() > 0 {
        ls.push(t);
    }
    proof {
        assert(b@.subrange(0, b@.len() as int) =~= b@);
        assert(byte_lines(ls@) =~= text_lines(b@));
    }
    ls
}

/// `usize::from_str` on the bytes of a line.
pub fn parse_usize(s: &[u8]) -> (r: Option<usize>)
    ensures
        r matches Some(v) ==> parse_usize_spec(s@) == Some(v as nat),
        r is None ==> parse_usize_spec(s@) is None,
{
    let start: usize = if s.len() > 0 && s[0] == 43 { 1 } else { 0 };
    let ghost d = strip_plus(s@);
    proof {
        assert(d =~= s@.subrange(start as int, s@.len() as int));
    }
    if start >= s.len() {
        return None;
    }
    let mut value: usize = 0;
    let mut overflow = false;
    let mut i = start;
    while i < s.len()
        invariant
            start <= i <= s@.len(),
            d == s@.subrange(start as int, s@.len() as int),
            d.len() == s@.len() - start,
            d == strip_plus(s@),
            forall|j: int| 0 <= j < i - start ==> is_digit(#[trigger] d[j]),
            !overflow ==> value as nat == digits_value(d.subrange(0, i - start)),
            overflow ==> digits_value(d.subrange(0, i - start)) > usize::MAX,
        decreases s@.len() - i,
    {
        let c = s[i];
        if c < 48 || c > 57 {
            proof {
                assert(d[i - start] == s@[i as int]);
                assert(!is_digit(d[i - start]));
                assert(!all_digits(d));
            }
            return None;
        }
        let ghost prev = digits_value(d.subrange(0, i - start));
        proof {
            assert(d.subrange(0, i - start + 1).drop_last() =~= d.subrange(0, i - start));
            assert(digits_value(d.subrange(0, i - start + 1)) == prev * 10 + (c - 48) as nat);
        }
        if !overflow {
            let digit = (c - 48) as usize;
            if value > (usize::MAX - digit) / 10 {
                overflow = true;
            } else {
                value = value * 10 + digit;
            }
        }
        i = i + 1;
    }
    proof {
        assert(d.subrange(0, d.len() as int) =~= d);
    }
    if overflow {
        None
    } else {
        Some(value)
    }
}

/// Decode hex, with an optional `0x` prefix. `None` on odd length or a bad
/// pair.
pub fn decode_hex(s: &str) -> (r: Option<Vec<u8>>)
    ensures
        r matches Some(v) ==> decode_hex_spec(s.spec_bytes()) == Some(v@),
        r is None ==> decode_hex_spec(s.spec_bytes()) is None,
{
    decode_hex_bytes(s.as_bytes())
}

fn hex_value(c: u8) -> (r: i32)
    ensures
        r == hex_val(c),
{
    if 48 <= c && c <= 57 {
        (c - 48) as i32
    } else if 97 <= c && c <= 102 {
        (c - 87) as i32
    } else if 65 <= c && c <= 70 {
        (c - 55) as i32
    } else {
        -1
    }
}

fn hex_pair_exec(a: u8, b: u8) -> (r: Option<u8>)
    ensures
        r == hex_pair(a, b),
{
    let ha = hex_value(a);
    let hb = hex_value(b);
    if ha >= 0 && hb >= 0 {
        Some((16 * ha + hb) as u8)
    } else {
        None
    }
}

/// Hex decoding on bytes.
pub fn decode_hex_bytes(s: &[u8]) -> (r: Option<Vec<u8>>)
    ensures
        r matches Some(v) ==> decode_hex_spec(s@) == Some(v@),
        r is None ==> decode_hex_spec(s@) is None,
{
    let start: usize = if s.len() >= 2 && s[0] == 48 && s[1] == 120 { 2 } else { 0 };
    let ghost t = strip_0x(s@);
    proof {
        assert(t =~= s@.subrange(start as int, s@.len() as int));
    }
    let len = s.len() - start;
    if len % 2 != 0 {
        return None;
    }
    let mut out: Vec<u8> = Vec::new();
    let mut k: usize = 0;
    while k < len / 2
        invariant
            t == s@.subrange(start as int, s@.len() as int),
            t == strip_0x(s@),
            start + len == s@.len(),
            len == t.len(),
            len % 2 == 0,
            0 <= k <= len / 2,
            out@.len() == k,
            forall|j: int| 0 <= j < k ==> (#[trigger] hex_pair(t[2 * j], t[2 * j + 1])) is Some && out@[j] == hex_pair(t[2 * j], t[2 * j + 1])->0,
        decreases len / 2 - k,
    {
        assert(2 * k + 1 < len);
        match hex_pair_exec(s[start + 2 * k], s[start + 2 * k + 1]) {
            Some(v) => {
                out.push(v);
            },
            None => {
                proof {
                    assert(hex_pair(t[2 * k], t[2 * k + 1]) is None);
                }
                return None;
            },
        }
        k = k + 1;
    }
    proof {
        assert(out@ =~= Seq::new(t.len() / 2, |k: int| hex_pair(t[2 * k], t[2 * k + 1])->0));
    }
    Some(out)
}

fn hex_digit_exec(d: u8) -> (r: u8)
    requires
        d < 16,
    ensures
        r == hex_digit(d as nat),
        r < 128,
{
    if d < 10 {
        48 + d
    } else {
        87 + d
    }
}

/// Two lowercase hex digits per byte, as ASCII bytes.
pub fn encode_hex_bytes(bytes: &[u8]) -> (r: Vec<u8>)
    ensures
        r@ == encode_hex_spec(bytes@),
        forall|i: int| 0 <= i < r@.len() ==> (#[trigger] r@[i]) < 128,
{
    let mut out: Vec<u8> = Vec::new();
    for j in 0..bytes.len()
        invariant
            out@.len() == 2 * j,
            forall|i: int| 0 <= i < out@.len() ==> (#[trigger] out@[i]) < 128,
            forall|i: int| 0 <= i < out@.len() ==> (#[trigger] out@[i]) == encode_hex_spec(bytes@)[i],
    {
        let b = bytes[j];
        out.push(hex_digit_exec(b / 16));
        out.push(hex_digit_exec(b % 16));
        proof {
            assert forall|i: int| 0 <= i < out@.len() implies (#[trigger] out@[i]) == encode_hex_spec(bytes@)[i] by {
                if i >= 2 * j {
                    assert(i / 2 == j as int);
                }
            }
        }
    }
    proof {
        assert(out@ =~= encode_hex_spec(bytes@));
    }
    out
}

/// Two lowercase hex digits per byte.
pub fn encode_hex(bytes: &[u8]) -> (r: String)
    ensures
        r@ == ascii_chars(encode_hex_spec(bytes@)),
{
    string_from_ascii(encode_hex_bytes(bytes))
}

/// A line that survives trimming unchanged: nonempty, ASCII, no whitespace.
pub open spec fn line_ok(l: Seq<u8>) -> bool {
    l.len() > 0 && forall|i: int| 0 <= i < l.len() ==> !is_ws(#[trigger] l[i]) && l[i] < 128
}

/// The lines `ls`, each followed by a newline.
pub open spec fn join_lines(ls: Seq<Seq<u8>>) -> Seq<u8>
    decreases ls.len(),
{
    if ls.len() == 0 {
        Seq::empty()
    } else {
        join_lines(ls.drop_last()) + ls.last() + seq![10u8]
    }
}

proof fn lemma_lines_state_append(p: Seq<u8>, w: Seq<u8>)
    requires
        forall|i: int| 0 <= i < w.len() ==> #[trigger] w[i] != 10,
    ensures
        lines_state(p + w) == (lines_state(p).0, lines_state(p).1 + w),
    decreases w.len(),
{
    if w.len() == 0 {
        assert(p + w =~= p);
        assert(lines_state(p).1 + w =~= lines_state(p).1);
    } else {
        lemma_lines_state_append(p, w.drop_last());
        assert((p + w).drop_last() =~= p + w.drop_last());
        assert((p + w).last() == w.last());
        assert(w.last() == w[w.len() - 1]);
        assert((lines_state(p).1 + w.drop_last()).push(w.last()) =~= lines_state(p).1 + w);
    }
}

proof fn lemma_trim_clean(l: Seq<u8>)
    requires
        line_ok(l),
    ensures
        trim_ws(l) == l,
{
    assert(!is_ws(l[0]) && l[0] < 128);
    assert(trim_front(l) == l);
    assert(l.last() == l[l.len() - 1]);
    assert(!is_ws(l.last()) && l.last() < 128);
}

/// Splitting the joined lines gives them back, when each is clean.
pub proof fn lemma_text_lines_join(ls: Seq<Seq<u8>>)
    requires
        forall|i: int| 0 <= i < ls.len() ==> line_ok(#[trigger] ls[i]),
    ensures
        text_lines(join_lines(ls)) == ls,
{
    lemma_lines_state_join(ls);
    assert(trim_front(Seq::<u8>::empty()) == Seq::<u8>::empty());
}

proof fn lemma_lines_state_join(ls: Seq<Seq<u8>>)
    requires
        forall|i: int| 0 <= i < ls.len() ==> line_ok(#[trigger] ls[i]),
    ensures
        lines_state(join_lines(ls)) == (ls, Seq::<u8>::empty()),
    decreases ls.len(),
{
    if ls.len() == 0 {
        assert(ls =~= Seq::<Seq<u8>>::empty());
    } else {
        let prev = ls.drop_last();
        let l = ls.last();
        assert(line_ok(ls[ls.len() - 1]));
        assert forall|i: int| 0 <= i < prev.len() implies line_ok(#[trigger] prev[i]) by {
            assert(prev[i] == ls[i]);
        }
        lemma_lines_state_join(prev);
        assert forall|i: int| 0 <= i < l.len() implies #[trigger] l[i] != 10 by {
            assert(!is_ws(l[i]));
        }
        lemma_lines_state_append(join_lines(prev), l);
        let x = join_lines(prev) + l;
        assert((x + seq![10u8]).drop_last() =~= x);
        assert(Seq::<u8>::empty() + l =~= l);
        lemma_trim_clean(l);
        assert(prev.push(l) =~= ls);
    }
}

/// The decimal digits of `n`.
pub open spec fn decimal_spec(n: nat) -> Seq<u8>
    decreases n,
{
    if n < 10 {
        seq![(48 + n) as u8]
    } else {
        decimal_spec(n / 10).push((48 + n % 10) as u8)
    }
}

proof fn lemma_decimal(n: nat)
    ensures
        decimal_spec(n).len() > 0,
        all_digits(decimal_spec(n)),
        digits_value(decimal_spec(n)) == n,
        strip_plus(decimal_spec(n)) == decimal_spec(n),
        line_ok(decimal_spec(n)),
        forall|i: int| 0 <= i < decimal_spec(n).len() ==> #[trigger] decimal_spec(n)[i] < 128,
    decreases n,
{
    let d = decimal_spec(n);
    if n < 10 {
        assert(d.drop_last() =~= Seq::<u8>::empty());
        assert(d.last() == (48 + n) as u8);
        assert(((48 + n) as u8) as int == 48 + n);
        assert(digits_value(d) == digits_value(d.drop_last()) * 10 + (d.last() - 48) as nat);
        assert(digits_value(d.drop_last()) == 0);
    } else {
        lemma_decimal(n / 10);
        assert(d.drop_last() =~= decimal_spec(n / 10));
        assert(d[0] == decimal_spec(n / 10)[0]);
        assert(d.last() == (48 + n % 10) as u8);
        assert(n == (n / 10) * 10 + n % 10) by (nonlinear_arith);
        assert(digits_value(d) == digits_value(d.drop_last()) * 10 + (d.last() - 48) as nat);
    }
    assert(d[0] != 43);
}

/// `n` in decimal ASCII digits.
fn usize_decimal(n: usize) -> (r: Vec<u8>)
    ensures
        r@ == decimal_spec(n as nat),
    decreases n,
{
    if n < 10 {
        let mut v: Vec<u8> = Vec::new();
        v.push(48 + n as u8);
        v
    } else {
        let mut v = usize_decimal(n / 10);
        v.push(48 + (n % 10) as u8);
        v
    }
}

/// Hex decoding undoes hex encoding.
pub proof fn lemma_hex_round_trip(b: Seq<u8>)
    ensures
        decode_hex_spec(encode_hex_spec(b)) == Some(b),
{
    let e = encode_hex_spec(b);
    if b.len() > 0 {
        assert(e[1] == hex_digit((b[0] % 16) as nat));
        assert(e[1] != 120);
    }
    assert(strip_0x(e) == e);
    assert forall|k: int| 0 <= k < e.len() / 2 implies #[trigger] hex_pair(e[2 * k], e[2 * k + 1]) == Some(b[k]) by {
        assert((2 * k) / 2 == k);
        assert((2 * k + 1) / 2 == k);
        assert((2 * k) % 2 == 0);
        assert((2 * k + 1) % 2 == 1);
        let hi = (b[k] / 16) as nat;
        let lo = (b[k] % 16) as nat;
        assert(hex_val(hex_digit(hi)) == hi);
        assert(hex_val(hex_digit(lo)) == lo);
        assert(16 * hi + lo == b[k]);
    }
    assert(Seq::new(e.len() / 2, |k: int| hex_pair(e[2 * k], e[2 * k + 1])->0) =~= b);
}

proof fn lemma_hex_line_ok(b: Seq<u8>)
    requires
        b.len() > 0,
    ensures
        line_ok(encode_hex_spec(b)),
        forall|i: int| 0 <= i < encode_hex_spec(b).len() ==> #[trigger] encode_hex_spec(b)[i] < 128,
{
    let e = encode_hex_spec(b);
    assert forall|i: int| 0 <= i < e.len() implies !is_ws(#[trigger] e[i]) && e[i] < 128 by {
        let d = if i % 2 == 0 { (b[i / 2] / 16) as nat } else { (b[i / 2] % 16) as nat };
        assert(e[i] == hex_digit(d));
    }
}

/// The lines of the ceremony text for G1 powers `powers` and G2 points
/// `h`, `tau_h`, in the short layout: the count of G1 points, the count 2,
/// the G1 powers, then the two G2 points, each compressed and in hex.
pub open spec fn ceremony_text_lines(powers: Seq<Seq<u8>>, h: Seq<u8>, tau_h: Seq<u8>) -> Seq<Seq<u8>> {
    seq![decimal_spec(powers.len()), seq![50u8]] + powers.map_values(|p: Seq<u8>| encode_hex_spec(spec_g1_compress(p)))
        + seq![encode_hex_spec(spec_g2_compress(h)), encode_hex_spec(spec_g2_compress(tau_h))]
}

/// The ceremony text of `powers`, `h`, `tau_h`.
pub open spec fn ceremony_text_bytes(powers: Seq<Seq<u8>>, h: Seq<u8>, tau_h: Seq<u8>) -> Seq<u8> {
    join_lines(ceremony_text_lines(powers, h, tau_h))
}

/// A string of ASCII characters has those characters as its bytes.
pub proof fn lemma_ascii_text_bytes(s: &str, b: Seq<u8>)
    requires
        s@ == ascii_chars(b),
        forall|i: int| 0 <= i < b.len() ==> #[trigger] b[i] < 128,
    ensures
        s.spec_bytes() == b,
{
    assert(vstd::string::is_ascii(s));
    vstd::string::is_ascii_spec_bytes(s);
    assert(s.spec_bytes() =~= b);
}

/// Points whose compressed encodings decode back to them.
pub open spec fn encodings_invert(powers: Seq<Seq<u8>>, h: Seq<u8>, tau_h: Seq<u8>) -> bool {
    &&& forall|j: int| 0 <= j < powers.len() ==> {
        &&& (#[trigger] spec_g1_compress(powers[j])).len() == 48
        &&& spec_g1_decompress(spec_g1_compress(powers[j])) == Some(powers[j])
    }
    &&& spec_g2_compress(h).len() == 96
    &&& spec_g2_decompress(spec_g2_compress(h)) == Some(h)
    &&& spec_g2_compress(tau_h).len() == 96
    &&& spec_g2_decompress(spec_g2_compress(tau_h)) == Some(tau_h)
}

/// Reading back the ceremony text written for some points gives those
/// points, when their compressed encodings decode back to them.
pub proof fn lemma_ceremony_round_trip(powers: Seq<Seq<u8>>, h: Seq<u8>, tau_h: Seq<u8>)
    requires
        powers.len() <= usize::MAX,
        encodings_invert(powers, h, tau_h),
    ensures
        ceremony_parse(ceremony_text_bytes(powers, h, tau_h)) == Some((powers, h, tau_h)),
{
    let n = powers.len() as int;
    let ls = ceremony_text_lines(powers, h, tau_h);
    lemma_decimal(powers.len());
    assert(ls.len() == n + 4);
    assert(ls[0] == decimal_spec(powers.len()));
    assert(ls[1] == seq![50u8]);
    assert(ls[n + 2] == encode_hex_spec(spec_g2_compress(h)));
    assert(ls[n + 3] == encode_hex_spec(spec_g2_compress(tau_h)));
    assert forall|k: int| 0 <= k < n implies #[trigger] ls[2 + k] == encode_hex_spec(spec_g1_compress(powers[k])) by {}
    assert forall|i: int| 0 <= i < ls.len() implies line_ok(#[trigger] ls[i]) by {
        if i >= 2 && i < n + 2 {
            assert(ls[2 + (i - 2)] == ls[i]);
            assert(spec_g1_compress(powers[i - 2]).len() == 48);
            lemma_hex_line_ok(spec_g1_compress(powers[i - 2]));
        } else if i == n + 2 {
            lemma_hex_line_ok(spec_g2_compress(h));
        } else if i == n + 3 {
            lemma_hex_line_ok(spec_g2_compress(tau_h));
        } else if i == 1 {
            assert(!is_ws(ls[1][0]) && ls[1][0] < 128);
        }
    }
    lemma_text_lines_join(ls);
    assert(text_lines(ceremony_text_bytes(powers, h, tau_h)) == ls);
    assert(count_at(ls, 0) == Some(powers.len()));
    let two = seq![50u8];
    assert(two.drop_last() =~= Seq::<u8>::empty());
    assert(digits_value(two.drop_last()) == 0);
    assert(two.last() == 50);
    assert(digits_value(two) == 2);
    assert(all_digits(two));
    assert(strip_plus(two) == two);
    assert(count_at(ls, 1) == Some(2nat));
    assert forall|k: int| 0 <= k < n implies #[trigger] line_g1(ls, 2 + k) == Some(powers[k]) by {
        assert(ls[2 + k] == encode_hex_spec(spec_g1_compress(powers[k])));
        assert(spec_g1_decompress(spec_g1_compress(powers[k])) == Some(powers[k]));
        lemma_hex_round_trip(spec_g1_compress(powers[k]));
    }
    assert(g1_section_ok(ls, 2, powers.len()));
    lemma_hex_round_trip(spec_g2_compress(h));
    lemma_hex_round_trip(spec_g2_compress(tau_h));
    assert(line_g2(ls, 2 + n) == Some(h));
    assert(line_g2(ls, 2 + n + 1) == Some(tau_h));
    assert forall|k: int| 0 <= k < 2 implies (#[trigger] line_g2(ls, 2 + n + k)) is Some by {
        if k == 1 {
            assert(2 + n + k == 2 + n + 1);
        }
    }
    assert(g2_section_ok(ls, 2 + n, 2));
    assert(g1_section(ls, 2, powers.len()) =~= powers);
}

impl Srs {
    /// Inverse of [`Srs::from_ceremony_text`], in the short layout: the
    /// monomial G1 powers in the first section, then the two G2 points.
    pub fn to_ceremony_text(&self) -> (r: String)
        ensures
            r@ == ascii_chars(ceremony_text_bytes(g1_views(self.powers_of_g@), self.h@, self.tau_h@)),
            forall|i: int| 0 <= i < ceremony_text_bytes(g1_views(self.powers_of_g@), self.h@, self.tau_h@).len()
                ==> #[trigger] ceremony_text_bytes(g1_views(self.powers_of_g@), self.h@, self.tau_h@)[i] < 128,
            ceremony_parse(ceremony_text_bytes(g1_views(self.powers_of_g@), self.h@, self.tau_h@)) == Some(
                (g1_views(self.powers_of_g@), self.h@, self.tau_h@),
            ),
    {
        let n = self.powers_of_g.len();
        let ghost powers = g1_views(self.powers_of_g@);
        let mut out = usize_decimal(n);
        out.push(10);
        out.push(50);
        out.push(10);
        let ghost mut lines: Seq<Seq<u8>> = seq![decimal_spec(n as nat), seq![50u8]];
        proof {
            lemma_decimal(n as nat);
            assert(lines.drop_last().drop_last() =~= Seq::<Seq<u8>>::empty());
            assert(lines.drop_last() =~= seq![decimal_spec(n as nat)]);
            assert(join_lines(lines.drop_last().drop_last()) == Seq::<u8>::empty());
            assert(Seq::<u8>::empty() + decimal_spec(n as nat) =~= decimal_spec(n as nat));
            assert(join_lines(lines.drop_last()) =~= decimal_spec(n as nat) + seq![10u8]);
            assert(out@ =~= join_lines(lines));
        }
        for i in 0..n
            invariant
                n == self.powers_of_g@.len(),
                powers == g1_views(self.powers_of_g@),
                lines.len() == 2 + i,
                lines[0] == decimal_spec(n as nat),
                lines[1] == seq![50u8],
                forall|j: int| 0 <= j < i ==> #[trigger] lines[2 + j] == encode_hex_spec(spec_g1_compress(powers[j])),
                out@ == join_lines(lines),
                forall|j: int| 0 <= j < out@.len() ==> #[trigger] out@[j] < 128,
                forall|j: int| 0 <= j < i ==> {
                    &&& (#[trigger] spec_g1_compress(powers[j])).len() == 48
                    &&& spec_g1_decompress(spec_g1_compress(powers[j])) == Some(powers[j])
                },
        {
            let c = self.powers_of_g[i].to_compressed();
            let mut hx = encode_hex_bytes(c.as_slice());
            let ghost hv = hx@;
            let ghost prev = out@;
            proof {
                assert(powers[i as int] == self.powers_of_g@[i as int]@);
                lemma_hex_line_ok(c@);
            }
            out.append(&mut hx);
            out.push(10);
            proof {
                let old_lines = lines;
                lines = lines.push(hv);
                assert(lines.drop_last() =~= old_lines);
                assert(out@ =~= prev + hv + seq![10u8]);
                assert forall|j: int| 0 <= j < out@.len() implies #[trigger] out@[j] < 128 by {
                    if j >= prev.len() && j < prev.len() + hv.len() {
                        assert(out@[j] == hv[j - prev.len()]);
                    }
                }
            }
        }
        let ch = self.h.to_compressed();
        let mut hh = encode_hex_bytes(ch.as_slice());
        let ghost hhv = hh@;
        let ghost prev1 = out@;
        proof {
            lemma_hex_line_ok(ch@);
        }
        out.append(&mut hh);
        out.push(10);
        let ct = self.tau_h.to_compressed();
        let mut ht = encode_hex_bytes(ct.as_slice());
        let ghost htv = ht@;
        let ghost prev2 = out@;
        proof {
            lemma_hex_line_ok(ct@);
            assert forall|j: int| 0 <= j < prev2.len() implies #[trigger] prev2[j] < 128 by {
                if j >= prev1.len() && j < prev1.len() + hhv.len() {
                    assert(prev2[j] == hhv[j - prev1.len()]);
                }
            }
        }
        out.append(&mut ht);
        out.push(10);
        proof {
            let mid = lines.push(hhv);
            let all = mid.push(htv);
            assert(mid.drop_last() =~= lines);
            assert(all.drop_last() =~= mid);
            assert(prev2 =~= join_lines(mid));
            assert(out@ =~= join_lines(all));
            let ctl = ceremony_text_lines(powers, self.h@, self.tau_h@);
            assert forall|k: int| 0 <= k < all.len() implies #[trigger] all[k] == ctl[k] by {
                if 2 <= k < 2 + n {
                    assert(lines[2 + (k - 2)] == encode_hex_spec(spec_g1_compress(powers[k - 2])));
                }
            }
            assert(all =~= ctl);
            assert forall|j: int| 0 <= j < out@.len() implies #[trigger] out@[j] < 128 by {
                if j >= prev2.len() && j < prev2.len() + htv.len() {
                    assert(out@[j] == htv[j - prev2.len()]);
                }
            }
            lemma_ceremony_round_trip(powers, self.h@, self.tau_h@);
        }
        string_from_ascii(out)
    }
}

/// Why a section of points could not be read.
enum LineFault {
    /// The text ends before the section does.
    Ends,
    /// A line is not hex.
    BadHex,
    /// A line is hex but not a point.
    BadPoint,
}

fn read_g1_line(line: &Vec<u8>) -> (r: Result<G1, LineFault>)
    ensures
        r is Ok <==> g1_of_line(line@) is Some,
        r matches Ok(p) ==> g1_of_line(line@) == Some(p@),
{
    match decode_hex_bytes(line.as_slice()) {
        Some(b) => if b.len() >= 48 {
            match G1::from_compressed(b.as_slice()) {
                Some(p) => Ok(p),
                None => Err(LineFault::BadPoint),
            }
        } else {
            Err(LineFault::BadPoint)
        },
        None => Err(LineFault::BadHex),
    }
}

fn read_g2_line(line: &Vec<u8>) -> (r: Result<G2, LineFault>)
    ensures
        r is Ok <==> g2_of_line(line@) is Some,
        r matches Ok(p) ==> g2_of_line(line@) == Some(p@),
{
    match decode_hex_bytes(line.as_slice()) {
        Some(b) => if b.len() >= 96 {
            match G2::from_compressed(b.as_slice()) {
                Some(p) => Ok(p),
                None => Err(LineFault::BadPoint),
            }
        } else {
            Err(LineFault::BadPoint)
        },
        None => Err(LineFault::BadHex),
    }
}

/// The `n` G1 points on the lines from `start` on.
fn read_g1_section(lines: &Vec<Vec<u8>>, start: usize, n: usize) -> (r: Result<Vec<G1>, LineFault>)
    ensures
        r is Ok <==> g1_section_ok(byte_lines(lines@), start as int, n as nat),
        r matches Ok(v) ==> g1_views(v@) == g1_section(byte_lines(lines@), start as int, n as nat),
{
    let ghost ls = byte_lines(lines@);
    let mut out: Vec<G1> = Vec::new();
    let mut k: usize = 0;
    while k < n
        invariant
            ls == byte_lines(lines@),
            k <= n,
            out@.len() == k,
            forall|j: int| 0 <= j < k ==> #[trigger] line_g1(ls, start + j) == Some(out@[j]@),
        decreases n - k,
    {
        if start >= lines.len() || k >= lines.len() - start {
            proof {
                assert(line_g1(ls, start + k as int) is None);
            }
            return Err(LineFault::Ends);
        }
        match read_g1_line(&lines[start + k]) {
            Ok(p) => {
                out.push(p);
            },
            Err(fault) => {
                proof {
                    assert(ls[start + k as int] == lines@[start + k as int]@);
                    assert(line_g1(ls, start + k as int) is None);
                }
                return Err(fault);
            },
        }
        proof {
            assert(ls[start + k as int] == lines@[start + k as int]@);
        }
        k = k + 1;
    }
    proof {
        assert(g1_views(out@) =~= g1_section(ls, start as int, n as nat));
    }
    Ok(out)
}

/// The `n` G2 points on the lines from `start` on.
fn read_g2_section(lines: &Vec<Vec<u8>>, start: usize, n: usize) -> (r: Result<Vec<G2>, LineFault>)
    ensures
        r is Ok <==> g2_section_ok(byte_lines(lines@), start as int, n as nat),
        r matches Ok(v) ==> v@.len() == n && forall|j: int| 0 <= j < n ==> #[trigger] line_g2(byte_lines(lines@), start + j) == Some(v@[j]@),
{
    let ghost ls = byte_lines(lines@);
    let mut out: Vec<G2> = Vec::new();
    let mut k: usize = 0;
    while k < n
        invariant
            ls == byte_lines(lines@),
            k <= n,
            out@.len() == k,
            forall|j: int| 0 <= j < k ==> #[trigger] line_g2(ls, start + j) == Some(out@[j]@),
        decreases n - k,
    {
        if start >= lines.len() || k >= lines.len() - start {
            proof {
                assert(line_g2(ls, start + k as int) is None);
            }
            return Err(LineFault::Ends);
        }
        match read_g2_line(&lines[start + k]) {
            Ok(p) => {
                out.push(p);
            },
            Err(fault) => {
                proof {
                    assert(ls[start + k as int] == lines@[start + k as int]@);
                    assert(line_g2(ls, start + k as int) is None);
                }
                return Err(fault);
            },
        }
        proof {
            assert(ls[start + k as int] == lines@[start + k as int]@);
        }
        k = k + 1;
    }
    Ok(out)
}

/// The parse error with message `m`.
fn parse_error(m: &str) -> (r: SrsError)
    ensures
        r matches SrsError::Parse(msg) && msg@ == m@,
{
    SrsError::Parse(m.to_owned())
}

/// The parse error for a count line `s` (of G1 points when `g1`, else of G2
/// points) that is not a `usize`, with the reason `usize::from_str` gives:
/// digits (after an optional `+`) that overflow, or anything else.
fn count_error(s: &[u8], g1: bool) -> (r: SrsError)
    ensures
        r is Parse,
{
    let start: usize = if s.len() > 0 && s[0] == 43 { 1 } else { 0 };
    let mut digits = start < s.len();
    let mut i = start;
    while i < s.len()
        invariant
            start <= i <= s@.len(),
        decreases s@.len() - i,
    {
        if s[i] < 48 || s[i] > 57 {
            digits = false;
        }
        i = i + 1;
    }
    match (digits, g1) {
        (true, true) => parse_error("bad g1 count: number too large to fit in target type"),
        (true, false) => parse_error("bad g2 count: number too large to fit in target type"),
        (false, true) => parse_error("bad g1 count: invalid digit found in string"),
        (false, false) => parse_error("bad g2 count: invalid digit found in string"),
    }
}

/// The parse error for a section of points that could not be read, with the
/// message for each fault: the text ends inside the section, a line is not
/// hex, or a line is not a point.
fn section_error(fault: LineFault, ends: &str, bad_hex: &str, bad_point: &str) -> (r: SrsError)
    ensures
        r is Parse,
{
    match fault {
        LineFault::Ends => parse_error(ends),
        LineFault::BadHex => parse_error(bad_hex),
        LineFault::BadPoint => parse_error(bad_point),
    }
}

/// What building an SRS from the points `g`, `h`, `t` with random
/// consistency weights gives: a parse error when there are fewer than two
/// G1 points, else the SRS of exactly those points when the check passes
/// for the weights drawn, and `Inconsistent` when it fails.
pub open spec fn checked_srs(g: Seq<Seq<u8>>, h: Seq<u8>, t: Seq<u8>, r: Result<Srs, SrsError>) -> bool {
    &&& (r matches Err(SrsError::Parse(_)) <==> g.len() < 2)
    &&& (g.len() >= 2 ==> exists|rs: Seq<nat>| {
        &&& rs.len() == g.len() - 1
        &&& (r is Ok <==> #[trigger] powers_consistent(g, h, t, rs))
    })
    &&& (r matches Ok(s) ==> g1_views(s.powers_of_g@) == g && s.h@ == h && s.tau_h@ == t)
    &&& (g.len() >= 2 && tau_powers(g, h, t) ==> r is Ok)
    &&& forall|xs: Seq<nat>, e: nat, tau: nat, j: int|
        #[trigger] powers_but_one(g, h, t, xs, e, tau, j) ==> (r is Ok <==> xs[j + 1] == crate::field::fmul(tau, xs[j]))
}

/// Reading back the ceremony text of an SRS whose points are powers of one
/// `tau` (as `setup` makes them) gives that SRS:
/// the points parse back, and the consistency check accepts them.
pub proof fn lemma_setup_text_round_trip(g: Seq<Seq<u8>>, h: Seq<u8>, t: Seq<u8>, r: Result<Srs, SrsError>)
    requires
        g.len() >= 2,
        tau_powers(g, h, t),
        checked_srs(g, h, t, r),
    ensures
        r matches Ok(s) && g1_views(s.powers_of_g@) == g && s.h@ == h && s.tau_h@ == t,
{
}

impl Srs {
    /// Parse the trusted setup file shipped with c-kzg-4844 (the Ethereum
    /// KZG ceremony output). Format: a line with the number of G1 points,
    /// a line with the number of G2 points, the G1 points in Lagrange form,
    /// the G2 powers, then the G1 points in monomial form, one compressed
    /// point in hex per line. Older files stop after the G2 section; then
    /// the first section is taken as monomial and the consistency check in
    /// [`Srs::from_powers`] decides whether that was right.
    pub fn from_ceremony_text<R: RngCore>(text: &str, rng: &mut R) -> (r: Result<Srs, SrsError>)
        ensures
            ceremony_parse(text.spec_bytes()) is None ==> r matches Err(SrsError::Parse(_)),
            ceremony_parse(text.spec_bytes()) matches Some(p) ==> checked_srs(p.0, p.1, p.2, r),
            r matches Ok(s) ==> ({
                let ls = text_lines(text.spec_bytes());
                let n1 = count_at(ls, 0)->0;
                &&& count_at(ls, 0) is Some
                &&& s.powers_of_g@.len() == n1
                &&& count_at(ls, 1) matches Some(n2) && g1_views(s.powers_of_g@) == g1_section(
                    ls,
                    if ls.len() > 2 + n1 + n2 { (2 + n1 + n2) as int } else { 2int },
                    n1,
                )
                &&& Some(s.h@) == line_g2(ls, 2 + n1 as int)
                &&& Some(s.tau_h@) == line_g2(ls, 3 + n1 as int)
            }),
    {
        let lines = split_lines(text.as_bytes());
        let ghost ls = byte_lines(lines@);
        proof {
            assert(ls == text_lines(text.spec_bytes()));
        }
        if lines.len() < 1 {
            return Err(parse_error("missing g1 count"));
        }
        proof {
            assert(ls[0] == lines@[0]@);
        }
        let n_g1 = match parse_usize(lines[0].as_slice()) {
            Some(v) => v,
            None => {
                return Err(count_error(lines[0].as_slice(), true));
            },
        };
        if lines.len() < 2 {
            return Err(parse_error("missing g2 count"));
        }
        proof {
            assert(ls[1] == lines@[1]@);
        }
        let n_g2 = match parse_usize(lines[1].as_slice()) {
            Some(v) => v,
            None => {
                return Err(count_error(lines[1].as_slice(), false));
            },
        };
        if n_g2 < 2 {
            return Err(parse_error("need [1]_2 and [tau]_2"));
        }
        let lagrange = match read_g1_section(&lines, 2, n_g1) {
            Ok(v) => v,
            Err(fault) => {
                return Err(section_error(fault, "file ends inside g1 lagrange", "bad hex in g1 lagrange", "bad g1 point"));
            },
        };
        proof {
            if n_g1 > 0 {
                assert(line_g1(ls, 2 + (n_g1 - 1)) is Some);
            }
        }
        let g2_start = 2 + n_g1;
        let g2 = match read_g2_section(&lines, g2_start, n_g2) {
            Ok(v) => v,
            Err(fault) => {
                return Err(section_error(fault, "file ends inside g2", "bad hex in g2", "bad g2 point"));
            },
        };
        proof {
            assert(line_g2(ls, g2_start + (n_g2 - 1)) is Some);
        }
        let mono_start = g2_start + n_g2;
        let g1 = if lines.len() > mono_start {
            match read_g1_section(&lines, mono_start, n_g1) {
                Ok(v) => v,
                Err(fault) => {
                    return Err(section_error(fault, "file ends inside g1 monomial", "bad hex in g1 monomial", "bad g1 point"));
                },
            }
        } else {
            lagrange
        };
        let ghost gv = g1_views(g1@);
        let ghost hv = g2@[0]@;
        let ghost tv = g2@[1]@;
        proof {
            assert(line_g2(ls, g2_start + 0) == Some(hv));
            assert(line_g2(ls, g2_start + 1) == Some(tv));
            assert(count_at(ls, 0) == Some(n_g1 as nat));
            assert(count_at(ls, 1) == Some(n_g2 as nat));
            assert(ceremony_parse(text.spec_bytes()) == Some((gv, hv, tv)));
            assert(gv.len() == g1@.len());
        }
        let r = Self::from_powers(g1, g2[0], g2[1], rng);
        proof {
            if gv.len() >= 2 {
                let rs = choose|rs: Seq<nat>| rs.len() == gv.len() - 1 && (r is Ok <==> #[trigger] powers_consistent(gv, hv, tv, rs));
                assert(rs.len() == gv.len() - 1 && (r is Ok <==> powers_consistent(gv, hv, tv, rs)));
            }
            assert(checked_srs(gv, hv, tv, r));
            lemma_ceremony_points(text.spec_bytes());
        }
        r
    }
}

} // verus!
