//! Text encodings: numbers as base-64 digits, and text as a string literal.

use vstd::prelude::*;
use vstd::std_specs::iter::IteratorSpec;
use vstd::utf8::encode_utf8;
use crate::order::{
    bytes_lt, text_lt, lemma_bytes_lt_prefix, lemma_bytes_lt_extend, lemma_encode_utf8_concat,
};

verus! {

/// Appends `c` to `s`.
///
/// Trusted: `String::push`, which std documents as appending the char to the
/// end of the string.
#[verifier::external_body]
pub(crate) fn push_char(s: &mut String, c: char)
    ensures
        final(s)@ == old(s)@.push(c),
{
    s.push(c)
}

/// 64 to the power `n`.
pub open spec fn pow64(n: nat) -> nat
    decreases n,
{
    if n == 0 {
        1
    } else {
        64 * pow64((n - 1) as nat)
    }
}

/// The character for base-64 digit `d`: `'0' + d`, from `'0'` to `'o'`.
pub open spec fn digit_char(d: nat) -> char {
    ((48 + d) as u32) as char
}

/// The base-64 digit of character `c`: `c - '0'`.
pub open spec fn digit_value(c: char) -> int {
    (c as u32) - 48
}

/// `value` as `n` base-64 digits, most significant first; digits beyond
/// the `n` lowest are dropped.
pub open spec fn base64_digits(value: nat, n: nat) -> Seq<char>
    decreases n,
{
    if n == 0 {
        Seq::empty()
    } else {
        base64_digits(value / 64, (n - 1) as nat).push(digit_char(value % 64))
    }
}

/// The number that a run of base-64 digits stands for.
pub open spec fn base64_value(s: Seq<char>) -> int
    decreases s.len(),
{
    if s.len() == 0 {
        0
    } else {
        64 * base64_value(s.drop_last()) + digit_value(s.last())
    }
}

/// Appends `value` to `out` as `digits` base-64 digits, most significant
/// first, each digit the character `'0' + d`: `'0'` to `'o'`, one contiguous
/// run of ASCII.
pub fn digits(out: &mut String, value: u64, digits: u32)
    requires
        digits <= 10,
        value < pow64(digits as nat),
    ensures
        final(out)@ == old(out)@ + base64_digits(value as nat, digits as nat),
    decreases digits,
{
    if digits > 0 {
        self::digits(out, value / 64, digits - 1);
        let d: u8 = (value % 64) as u8;
        push_char(out, (48u8 + d) as char);
        assert(final(out)@ =~= old(out)@ + base64_digits(value as nat, digits as nat));
    } else {
        assert(final(out)@ =~= old(out)@ + base64_digits(value as nat, digits as nat));
    }
}

/// Each digit is one of `'0'` to `'o'`, and the digits read back as the
/// number they were written from, whenever it fits in them.
pub proof fn lemma_digits_round_trip(value: nat, n: nat)
    requires
        value < pow64(n),
    ensures
        base64_digits(value, n).len() == n,
        forall|i: int| 0 <= i < n ==> '0' <= #[trigger] base64_digits(value, n)[i] <= 'o',
        base64_value(base64_digits(value, n)) == value,
    decreases n,
{
    if n > 0 {
        assert(value / 64 < pow64((n - 1) as nat));
        lemma_digits_round_trip(value / 64, (n - 1) as nat);
        let s = base64_digits(value, n);
        assert(s.drop_last() =~= base64_digits(value / 64, (n - 1) as nat));
    }
}

/// The UTF-8 bytes of `n` base-64 digits: one byte per digit, the last
/// one `'0'` plus the lowest digit.
proof fn lemma_digits_bytes(value: nat, n: nat)
    requires
        n > 0,
    ensures
        encode_utf8(base64_digits(value, n)) == encode_utf8(base64_digits(value / 64, (n - 1) as nat))
            + seq![(48 + value % 64) as u8],
        encode_utf8(base64_digits(value, n)).len() == n,
    decreases n,
{
    let q = base64_digits(value / 64, (n - 1) as nat);
    let c = digit_char(value % 64);
    let v: u32 = (48 + value % 64) as u32;
    assert(c as u32 == v);
    assert((v & 0x7F) as u8 == v as u8) by (bit_vector)
        requires
            v <= 0x7F,
    ;
    assert(seq![c].drop_first() =~= Seq::<char>::empty());
    assert(vstd::utf8::has_width_1_encoding(v));
    assert(vstd::utf8::encode_scalar(v) =~= seq![(48 + value % 64) as u8]);
    assert(encode_utf8(Seq::<char>::empty()) =~= Seq::<u8>::empty());
    assert(encode_utf8(seq![c]) =~= vstd::utf8::encode_scalar(v) + encode_utf8(
        Seq::<char>::empty(),
    ));
    assert(encode_utf8(seq![c]) =~= seq![(48 + value % 64) as u8]);
    lemma_encode_utf8_concat(q, seq![c]);
    assert(q + seq![c] =~= q.push(c));
    if n > 1 {
        lemma_digits_bytes(value / 64, (n - 1) as nat);
    }
}

/// Written with the same number of digits, a smaller number comes first in
/// the order of strings, after any common start: numbers and their digits
/// sort alike.
pub proof fn lemma_digits_order(prefix: Seq<char>, a: nat, b: nat, n: nat)
    requires
        a < b,
        b < pow64(n),
    ensures
        text_lt(prefix + base64_digits(a, n), prefix + base64_digits(b, n)),
{
    lemma_digits_bytes_order(a, b, n);
    lemma_encode_utf8_concat(prefix, base64_digits(a, n));
    lemma_encode_utf8_concat(prefix, base64_digits(b, n));
    lemma_bytes_lt_prefix(
        encode_utf8(prefix),
        encode_utf8(base64_digits(a, n)),
        encode_utf8(base64_digits(b, n)),
    );
}

/// The bytes of the digits of a smaller number come first.
proof fn lemma_digits_bytes_order(a: nat, b: nat, n: nat)
    requires
        a < b,
        b < pow64(n),
    ensures
        bytes_lt(encode_utf8(base64_digits(a, n)), encode_utf8(base64_digits(b, n))),
    decreases n,
{
    if n == 0 {
    } else {
        let m = (n - 1) as nat;
        assert(b / 64 < pow64(m));
        lemma_digits_bytes(a, n);
        lemma_digits_bytes(b, n);
        let ea = encode_utf8(base64_digits(a / 64, m));
        let eb = encode_utf8(base64_digits(b / 64, m));
        let la = seq![(48 + a % 64) as u8];
        let lb = seq![(48 + b % 64) as u8];
        if a / 64 < b / 64 {
            lemma_digits_bytes_order(a / 64, b / 64, m);
            lemma_digits_length(a / 64, m);
            lemma_digits_length(b / 64, m);
            lemma_bytes_lt_extend(ea, eb, la, lb);
        } else {
            assert(a % 64 < b % 64);
            assert(bytes_lt(la, lb));
            lemma_bytes_lt_prefix(ea, la, lb);
        }
    }
}

/// `n` base-64 digits take `n` bytes.
proof fn lemma_digits_length(value: nat, n: nat)
    ensures
        encode_utf8(base64_digits(value, n)).len() == n,
{
    if n > 0 {
        lemma_digits_bytes(value, n);
    }
}

/// The decimal digit or upper-case hexadecimal digit for `d`.
pub open spec fn hex_digit(d: nat) -> char {
    if d < 10 {
        ((48 + d) as u32) as char
    } else {
        ((55 + d) as u32) as char
    }
}

/// `n` in upper-case hexadecimal, without leading zeros (`0` for zero).
pub open spec fn hex_upper(n: nat) -> Seq<char>
    decreases n,
{
    if n < 16 {
        seq![hex_digit(n)]
    } else {
        hex_upper(n / 16).push(hex_digit(n % 16))
    }
}

/// `n` in decimal, without leading zeros (`0` for zero).
pub open spec fn decimal(n: nat) -> Seq<char>
    decreases n,
{
    if n < 10 {
        seq![hex_digit(n)]
    } else {
        decimal(n / 10).push(hex_digit(n % 10))
    }
}

/// Appends `n` in upper-case hexadecimal.
pub fn push_hex(out: &mut String, n: u32)
    ensures
        final(out)@ == old(out)@ + hex_upper(n as nat),
    decreases n,
{
    if n >= 16 {
        push_hex(out, n / 16);
    }
    let d: u8 = (n % 16) as u8;
    let c: char = if d < 10 { (48u8 + d) as char } else { (55u8 + d) as char };
    push_char(out, c);
    assert(final(out)@ =~= old(out)@ + hex_upper(n as nat));
}

/// Appends `n` in decimal.
pub fn push_decimal(out: &mut String, n: u64)
    ensures
        final(out)@ == old(out)@ + decimal(n as nat),
    decreases n,
{
    if n >= 10 {
        push_decimal(out, n / 10);
    }
    let d: u8 = (n % 10) as u8;
    push_char(out, (48u8 + d) as char);
    assert(final(out)@ =~= old(out)@ + decimal(n as nat));
}

/// Whether `c` is printable ASCII, a space to a tilde.
pub open spec fn is_printable(c: char) -> bool {
    0x20 <= (c as u32) && (c as u32) <= 0x7e
}

/// How one char of the text is written: `"`, `\` and `$` behind a
/// backslash; a space that starts a line as `\x20`; any other printable
/// ASCII as it is; anything else as `\u{..}` with its code point in
/// upper-case hexadecimal.
pub open spec fn escaped(c: char, line_start: bool) -> Seq<char> {
    if c == '"' {
        seq!['\\', '"']
    } else if c == '\\' {
        seq!['\\', '\\']
    } else if c == '$' {
        seq!['\\', '$']
    } else if c == ' ' && line_start {
        seq!['\\', 'x', '2', '0']
    } else if is_printable(c) {
        seq![c]
    } else {
        seq!['\\', 'u', '{'] + hex_upper(c as nat) + seq!['}']
    }
}

/// Whether char `i` of the text starts a line: every `width` chars, but
/// not the first.
pub open spec fn starts_line(i: int, width: nat) -> bool {
    i > 0 && i % (width as int) == 0
}

/// A backslash, a newline and four spaces: a line continuation.
pub open spec fn continuation() -> Seq<char> {
    seq!['\\', '\n', ' ', ' ', ' ', ' ']
}

/// What char `i` of `text` becomes in the literal.
pub open spec fn literal_piece(text: Seq<char>, width: nat, i: int) -> Seq<char> {
    if starts_line(i, width) {
        continuation() + escaped(text[i], true)
    } else {
        escaped(text[i], false)
    }
}

/// The literal's contents for the first `k` chars of `text`.
pub open spec fn literal_body(text: Seq<char>, width: nat, k: nat) -> Seq<char>
    decreases k,
{
    if k == 0 {
        Seq::empty()
    } else {
        literal_body(text, width, (k - 1) as nat) + literal_piece(text, width, k - 1)
    }
}

/// `text` as one string literal broken every `width` chars.
pub open spec fn literal_of(text: Seq<char>, width: nat) -> Seq<char> {
    seq!['"'] + literal_body(text, width, text.len()) + seq!['"']
}

/// Appends how `c` is written in a literal (see [`escaped`]).
fn push_escaped(out: &mut String, c: char, line_start: bool)
    ensures
        final(out)@ == old(out)@ + escaped(c, line_start),
{
    if c == '"' {
        push_char(out, '\\');
        push_char(out, '"');
    } else if c == '\\' {
        push_char(out, '\\');
        push_char(out, '\\');
    } else if c == '$' {
        push_char(out, '\\');
        push_char(out, '$');
    } else if c == ' ' && line_start {
        push_char(out, '\\');
        push_char(out, 'x');
        push_char(out, '2');
        push_char(out, '0');
    } else if 0x20 <= (c as u32) && (c as u32) <= 0x7e {
        push_char(out, c);
    } else {
        push_char(out, '\\');
        push_char(out, 'u');
        push_char(out, '{');
        push_hex(out, c as u32);
        push_char(out, '}');
    }
    assert(final(out)@ =~= old(out)@ + escaped(c, line_start));
}

/// The column after `i` is one further, or the first again.
proof fn lemma_next_column(i: int, w: int)
    requires
        0 <= i,
        0 < w,
    ensures
        (i + 1) % w == if i % w + 1 == w { 0 } else { i % w + 1 },
{
    vstd::arithmetic::div_mod::lemma_add_mod_noop(i, 1, w);
    vstd::arithmetic::div_mod::lemma_mod_self_0(w);
    vstd::arithmetic::div_mod::lemma_mod_bound(i, w);
    vstd::arithmetic::div_mod::lemma_mod_bound(1, w);
    if w > 1 {
        vstd::arithmetic::div_mod::lemma_small_mod(1, w as nat);
    }
    if i % w + 1 < w {
        vstd::arithmetic::div_mod::lemma_small_mod((i % w + 1) as nat, w as nat);
    }
}

/// `text` as one string literal, broken with `\`-newline every `width`
/// characters. Only printable ASCII is written raw; a space that would start
/// a line is `\x20`, since a continuation drops leading whitespace.
pub fn long_literal(text: &str, width: usize) -> (lit: String)
    requires
        width > 0,
    ensures
        lit@ == literal_of(text@, width as nat),
{
    let mut out = String::new();
    push_char(&mut out, '"');
    let mut chars = text.chars();
    let ghost all: Seq<char> = text@;
    let ghost mut i: nat = 0;
    // The column of the next char, and whether it is the first.
    let mut col: usize = 0;
    let mut first: bool = true;
    proof {
        vstd::string::axiom_spec_iter(text);
    }
    loop
        invariant
            width > 0,
            i <= all.len(),
            col == (i as int) % (width as int),
            first == (i == 0),
            chars.remaining() == all.skip(i as int),
            out@ == seq!['"'] + literal_body(all, width as nat, i),
        ensures
            out@ == seq!['"'] + literal_body(all, width as nat, all.len()),
        decreases all.len() - i,
    {
        match chars.next() {
            Some(c) => {
                proof {
                    assert(c == all[i as int]);
                    assert(all.skip(i as int).drop_first() =~= all.skip(i + 1int));
                }
                let line_start = !first && col == 0;
                if line_start {
                    push_char(&mut out, '\\');
                    push_char(&mut out, '\n');
                    push_char(&mut out, ' ');
                    push_char(&mut out, ' ');
                    push_char(&mut out, ' ');
                    push_char(&mut out, ' ');
                }
                push_escaped(&mut out, c, line_start);
                assert(out@ =~= seq!['"'] + literal_body(all, width as nat, i + 1));
                proof {
                    lemma_next_column(i as int, width as int);
                    i = i + 1;
                }
                col = if col + 1 == width { 0 } else { col + 1 };
                first = false;
            },
            None => {
                break;
            },
        }
    }
    push_char(&mut out, '"');
    out
}

/// Every char of a literal is printable ASCII, but for the newlines of its
/// line continuations.
pub proof fn lemma_literal_printable(text: Seq<char>, width: nat)
    requires
        width > 0,
    ensures
        forall|k: int| 0 <= k < literal_of(text, width).len() ==>
            is_printable(#[trigger] literal_of(text, width)[k]) || literal_of(text, width)[k] == '\n',
{
    lemma_body_printable(text, width, text.len());
    let b = literal_body(text, width, text.len());
    let l = literal_of(text, width);
    assert forall|k: int| 0 <= k < l.len() implies is_printable(#[trigger] l[k]) || l[k] == '\n' by {
        if 1 <= k < 1 + b.len() {
            assert(l[k] == b[k - 1]);
        }
    }
}

/// Hexadecimal digits are printable.
proof fn lemma_hex_printable(n: nat)
    ensures
        forall|k: int| 0 <= k < hex_upper(n).len() ==> is_printable(#[trigger] hex_upper(n)[k]),
    decreases n,
{
    let h = hex_upper(n);
    assert(is_printable(hex_digit(n % 16)));
    if n >= 16 {
        lemma_hex_printable(n / 16);
        let p = hex_upper(n / 16);
        assert forall|k: int| 0 <= k < h.len() implies is_printable(#[trigger] h[k]) by {
            if k < p.len() {
                assert(h[k] == p[k]);
            }
        }
    } else {
        assert(is_printable(hex_digit(n)));
    }
}

/// The pieces of a literal's body are printable, but for newlines.
proof fn lemma_body_printable(text: Seq<char>, width: nat, k: nat)
    requires
        width > 0,
        k <= text.len(),
    ensures
        forall|j: int| 0 <= j < literal_body(text, width, k).len() ==>
            is_printable(#[trigger] literal_body(text, width, k)[j]) || literal_body(text, width, k)[j] == '\n',
    decreases k,
{
    if k > 0 {
        lemma_body_printable(text, width, (k - 1) as nat);
        let c = text[k - 1];
        lemma_hex_printable(c as nat);
        let prev = literal_body(text, width, (k - 1) as nat);
        let e = escaped(c, starts_line(k - 1, width));
        let p = literal_piece(text, width, k - 1);
        assert forall|j: int| 0 <= j < e.len() implies is_printable(#[trigger] e[j]) by {
            if !(c == '"' || c == '\\' || c == '$' || (c == ' ' && starts_line(k - 1, width)) || is_printable(c)) {
                let h = hex_upper(c as nat);
                if 3 <= j < 3 + h.len() {
                    assert(e[j] == h[j - 3]);
                }
            }
        }
        assert forall|j: int| 0 <= j < p.len() implies is_printable(#[trigger] p[j]) || p[j] == '\n' by {
            if starts_line(k - 1, width) && j >= 6 {
                assert(p[j] == e[j - 6]);
            }
        }
        let b = literal_body(text, width, k);
        assert(b == prev + p);
        assert forall|j: int| 0 <= j < b.len() implies is_printable(#[trigger] b[j]) || b[j] == '\n' by {
            if j >= prev.len() {
                assert(b[j] == p[j - prev.len()]);
            } else {
                assert(b[j] == prev[j]);
            }
        }
    }
}

/// Whether every newline of `b` ends a line continuation that goes on to a
/// line: behind a backslash, followed by four spaces and then a char that
/// is not a space.
pub open spec fn continuations_sound(b: Seq<char>) -> bool {
    forall|k: int| 0 <= k < b.len() && #[trigger] b[k] == '\n' ==> {
        &&& k >= 1
        &&& b[k - 1] == '\\'
        &&& k + 5 < b.len()
        &&& b[k + 1] == ' ' && b[k + 2] == ' ' && b[k + 3] == ' ' && b[k + 4] == ' '
        &&& b[k + 5] != ' '
    }
}

/// The continuations in a literal's body are sound.
proof fn lemma_body_continuations(text: Seq<char>, width: nat, n: nat)
    requires
        width > 0,
        n <= text.len(),
    ensures
        continuations_sound(literal_body(text, width, n)),
    decreases n,
{
    if n > 0 {
        lemma_body_continuations(text, width, (n - 1) as nat);
        lemma_body_printable(text, width, n);
        let c = text[n - 1];
        lemma_hex_printable(c as nat);
        let b = literal_body(text, width, (n - 1) as nat);
        let ls = starts_line(n - 1, width);
        let e = escaped(c, ls);
        let p = literal_piece(text, width, n - 1);
        let b2 = literal_body(text, width, n);
        assert(b2 == b + p);
        assert(e.len() > 0);
        assert(ls ==> e[0] != ' ');
        assert forall|j: int| 0 <= j < e.len() implies #[trigger] e[j] != '\n' by {
            if !(c == '"' || c == '\\' || c == '$' || (c == ' ' && ls) || is_printable(c)) {
                let h = hex_upper(c as nat);
                if 3 <= j < 3 + h.len() {
                    assert(e[j] == h[j - 3]);
                    assert(is_printable(h[j - 3]));
                }
            }
        }
        assert forall|k: int| 0 <= k < b2.len() && #[trigger] b2[k] == '\n' implies {
            &&& k >= 1
            &&& b2[k - 1] == '\\'
            &&& k + 5 < b2.len()
            &&& b2[k + 1] == ' ' && b2[k + 2] == ' ' && b2[k + 3] == ' ' && b2[k + 4] == ' '
            &&& b2[k + 5] != ' '
        } by {
            if k < b.len() {
                assert(b2[k] == b[k]);
                assert(b[k] == '\n');
                assert(b2[k - 1] == b[k - 1]);
                assert(b2[k + 1] == b[k + 1]);
                assert(b2[k + 2] == b[k + 2]);
                assert(b2[k + 3] == b[k + 3]);
                assert(b2[k + 4] == b[k + 4]);
                assert(b2[k + 5] == b[k + 5]);
            } else {
                let j = k - b.len();
                assert(b2[k] == p[j]);
                if ls {
                    assert(p == continuation() + e);
                    if j >= 6 {
                        assert(p[j] == e[j - 6]);
                    }
                    assert(j == 1);
                    assert(b2[k + 5] == e[0]);
                } else {
                    assert(p == e);
                }
            }
        }
    }
}

/// Every newline of a literal belongs to a line continuation: behind a
/// backslash, followed by four spaces and then a char that is not a space,
/// so that reading the literal back, which drops the leading whitespace of
/// a continued line, loses no space of the text.
pub proof fn lemma_literal_continuations(text: Seq<char>, width: nat)
    requires
        width > 0,
    ensures
        continuations_sound(literal_of(text, width)),
{
    lemma_body_continuations(text, width, text.len());
    let b = literal_body(text, width, text.len());
    let l = literal_of(text, width);
    assert forall|k: int| 0 <= k < l.len() && #[trigger] l[k] == '\n' implies {
        &&& k >= 1
        &&& l[k - 1] == '\\'
        &&& k + 5 < l.len()
        &&& l[k + 1] == ' ' && l[k + 2] == ' ' && l[k + 3] == ' ' && l[k + 4] == ' '
        &&& l[k + 5] != ' '
    } by {
        assert(k >= 1 && k < l.len() - 1);
        assert(l[k] == b[k - 1]);
        assert(l[k - 1] == b[k - 2]);
        assert(l[k + 1] == b[k]);
        assert(l[k + 2] == b[k + 1]);
        assert(l[k + 3] == b[k + 2]);
        assert(l[k + 4] == b[k + 3]);
        assert(l[k + 5] == b[k + 4]);
    }
}

/// `c` in front of the text of `o`, if there is one.
pub open spec fn prepend(c: char, o: Option<Seq<char>>) -> Option<Seq<char>> {
    match o {
        Some(t) => Some(seq![c] + t),
        None => None,
    }
}

/// Whether `c` is whitespace that a line continuation drops.
pub open spec fn is_ws(c: char) -> bool {
    c == ' ' || c == '\t' || c == '\n' || c == '\r'
}

/// How many whitespace chars `s` starts with.
pub open spec fn leading_ws(s: Seq<char>) -> nat
    decreases s.len(),
{
    if s.len() == 0 || !is_ws(s[0]) {
        0
    } else {
        1 + leading_ws(s.skip(1))
    }
}

/// Where the first `}` at or after `i` stands in `s`.
pub open spec fn brace_after(s: Seq<char>, i: int) -> Option<int>
    decreases s.len() - i,
{
    if i < 0 || i >= s.len() {
        None
    } else if s[i] == '}' {
        Some(i)
    } else {
        brace_after(s, i + 1)
    }
}

/// The value of a hexadecimal digit, upper or lower case.
pub open spec fn hex_char_value(c: char) -> Option<nat> {
    let u = c as u32;
    if 48 <= u && u <= 57 {
        Some((u - 48) as nat)
    } else if 65 <= u && u <= 70 {
        Some((u - 55) as nat)
    } else if 97 <= u && u <= 102 {
        Some((u - 87) as nat)
    } else {
        None
    }
}

/// The number that a run of hexadecimal digits stands for, if all are
/// digits.
pub open spec fn hex_value(s: Seq<char>) -> Option<nat>
    decreases s.len(),
{
    if s.len() == 0 {
        Some(0)
    } else {
        match (hex_value(s.drop_last()), hex_char_value(s.last())) {
            (Some(v), Some(d)) => Some(16 * v + d),
            _ => None,
        }
    }
}

/// Whether `v` is a Unicode scalar value, the value of a char.
pub open spec fn is_scalar_value(v: nat) -> bool {
    v < 0xD800 || (0xE000 <= v && v <= 0x10FFFF)
}

/// The text that the contents of a string literal stand for: `\"`, `\\`
/// and `\$` for the char behind the backslash, `\x20` for a space,
/// `\u{..}` for the char with that hexadecimal value, and a backslash before
/// a newline drops itself, the newline and the whitespace after it; a `"`
/// on its own ends the literal, so it cannot stand inside; any other char
/// stands for itself. `None` where the contents are not well formed.
pub open spec fn unescape_body(s: Seq<char>) -> Option<Seq<char>>
    decreases s.len(),
{
    if s.len() == 0 {
        Some(Seq::empty())
    } else if s[0] == '\\' {
        if s.len() < 2 {
            None
        } else if s[1] == '"' || s[1] == '\\' || s[1] == '$' {
            prepend(s[1], unescape_body(s.skip(2)))
        } else if s[1] == 'x' {
            if s.len() >= 4 && s[2] == '2' && s[3] == '0' {
                prepend(' ', unescape_body(s.skip(4)))
            } else {
                None
            }
        } else if s[1] == 'u' {
            if s.len() >= 3 && s[2] == '{' {
                match brace_after(s, 3) {
                    Some(j) => if 3 < j < s.len() {
                        match hex_value(s.subrange(3, j)) {
                            Some(v) => if is_scalar_value(v) {
                                prepend((v as u32) as char, unescape_body(s.skip(j + 1)))
                            } else {
                                None
                            },
                            None => None,
                        }
                    } else {
                        None
                    },
                    None => None,
                }
            } else {
                None
            }
        } else if s[1] == '\n' {
            let k = leading_ws(s.skip(2));
            if 2 + k <= s.len() {
                unescape_body(s.skip(2 + k as int))
            } else {
                None
            }
        } else {
            None
        }
    } else if s[0] == '"' {
        None
    } else {
        prepend(s[0], unescape_body(s.skip(1)))
    }
}

/// The text that a string literal stands for: its contents between the
/// opening and the closing `"`, read back (see [`unescape_body`]).
pub open spec fn unescape_literal(s: Seq<char>) -> Option<Seq<char>> {
    if s.len() >= 2 && s[0] == '"' && s[s.len() - 1] == '"' {
        unescape_body(s.subrange(1, s.len() - 1))
    } else {
        None
    }
}

/// The first `}` from `i` on is found where it is.
proof fn lemma_brace_after(s: Seq<char>, i: int, j: int)
    requires
        0 <= i <= j < s.len(),
        s[j] == '}',
        forall|k: int| i <= k < j ==> s[k] != '}',
    ensures
        brace_after(s, i) == Some(j),
    decreases j - i,
{
    if i < j {
        lemma_brace_after(s, i + 1, j);
    }
}

/// Hexadecimal digits read back as the number they were written from.
proof fn lemma_hex_round_trip(n: nat)
    ensures
        hex_value(hex_upper(n)) == Some(n),
        hex_upper(n).len() > 0,
        forall|k: int| 0 <= k < hex_upper(n).len() ==> #[trigger] hex_upper(n)[k] != '}',
    decreases n,
{
    let d = n % 16;
    assert(hex_char_value(hex_digit(d)) == Some(d));
    let h = hex_upper(n);
    if n >= 16 {
        lemma_hex_round_trip(n / 16);
        let p = hex_upper(n / 16);
        assert(h.drop_last() =~= p);
        assert(h.last() == hex_digit(d));
        assert(hex_value(h) == Some(16 * (n / 16) + d));
        assert forall|k: int| 0 <= k < h.len() implies #[trigger] h[k] != '}' by {
            if k < p.len() {
                assert(h[k] == p[k]);
            }
        }
    } else {
        vstd::arithmetic::div_mod::lemma_small_mod(n, 16);
        assert(d == n);
        assert(h.drop_last() =~= Seq::<char>::empty());
        assert(hex_value(h.drop_last()) == Some(0nat));
        assert(h.last() == hex_digit(n));
        assert(hex_value(h) == Some(16 * 0 + n));
    }
}

/// Spaces in front add to the whitespace that a text starts with.
proof fn lemma_leading_spaces(u: Seq<char>, k: nat)
    ensures
        leading_ws(Seq::new(k, |i: int| ' ') + u) == k + leading_ws(u),
    decreases k,
{
    if k > 0 {
        let s = Seq::new(k, |i: int| ' ') + u;
        lemma_leading_spaces(u, (k - 1) as nat);
        assert(s.skip(1) =~= Seq::new((k - 1) as nat, |i: int| ' ') + u);
    } else {
        assert(Seq::new(0, |i: int| ' ') + u =~= u);
    }
}

/// An escaped char reads back as the char, whatever follows.
proof fn lemma_unescape_escaped(c: char, line_start: bool, r: Seq<char>)
    ensures
        unescape_body(escaped(c, line_start) + r) == prepend(c, unescape_body(r)),
{
    let e = escaped(c, line_start);
    let s = e + r;
    if c == '"' || c == '\\' || c == '$' {
        assert(s.skip(2) =~= r);
    } else if c == ' ' && line_start {
        assert(s.skip(4) =~= r);
    } else if is_printable(c) {
        assert(s.skip(1) =~= r);
    } else {
        let n = c as nat;
        let h = hex_upper(n);
        lemma_hex_round_trip(n);
        let j: int = 3 + h.len() as int;
        assert(s[j] == '}');
        assert forall|k: int| 3 <= k < j implies s[k] != '}' by {
            assert(s[k] == h[k - 3]);
        }
        lemma_brace_after(s, 3, j);
        assert(s.subrange(3, j) =~= h);
        assert(s.skip(j + 1) =~= r);
        assert(is_scalar_value(n));
        vstd::utf8::char_u32_cast(c, c as u32);
    }
}

/// The first char of an escape is not whitespace where it starts a line.
proof fn lemma_escaped_starts_solid(c: char)
    ensures
        escaped(c, true).len() > 0,
        !is_ws(escaped(c, true)[0]),
{
}

/// A piece of a literal reads back as its char, whatever follows.
proof fn lemma_unescape_piece(text: Seq<char>, width: nat, i: int, r: Seq<char>)
    requires
        width > 0,
        0 <= i < text.len(),
    ensures
        unescape_body(literal_piece(text, width, i) + r) == prepend(text[i], unescape_body(r)),
{
    let c = text[i];
    if starts_line(i, width) {
        let e = escaped(c, true);
        lemma_escaped_starts_solid(c);
        lemma_unescape_escaped(c, true, r);
        let s = continuation() + e + r;
        assert(literal_piece(text, width, i) + r == s);
        let t = s.skip(2);
        assert(t =~= Seq::new(4, |i: int| ' ') + (e + r));
        lemma_leading_spaces(e + r, 4);
        assert((e + r)[0] == e[0]);
        assert(leading_ws(e + r) == 0);
        assert(leading_ws(t) == 4);
        assert(s.skip(6) =~= e + r);
    } else {
        lemma_unescape_escaped(c, false, r);
    }
}

/// The pieces of a literal from char `i` on.
pub open spec fn pieces_from(text: Seq<char>, width: nat, i: int) -> Seq<char>
    decreases text.len() - i,
{
    if i < 0 || i >= text.len() {
        Seq::empty()
    } else {
        literal_piece(text, width, i) + pieces_from(text, width, i + 1)
    }
}

/// The pieces from char `i` on read back as the text from `i` on.
proof fn lemma_unescape_pieces(text: Seq<char>, width: nat, i: int)
    requires
        width > 0,
        0 <= i <= text.len(),
    ensures
        unescape_body(pieces_from(text, width, i)) == Some(text.skip(i)),
    decreases text.len() - i,
{
    if i < text.len() {
        lemma_unescape_pieces(text, width, i + 1);
        lemma_unescape_piece(text, width, i, pieces_from(text, width, i + 1));
        assert(text.skip(i) =~= seq![text[i]] + text.skip(i + 1));
    } else {
        assert(text.skip(i) =~= Seq::<char>::empty());
    }
}

/// The body of a literal, written from the front, is its pieces.
proof fn lemma_body_is_pieces(text: Seq<char>, width: nat, k: nat)
    requires
        k <= text.len(),
    ensures
        literal_body(text, width, k) + pieces_from(text, width, k as int) == pieces_from(text, width, 0),
    decreases k,
{
    if k > 0 {
        lemma_body_is_pieces(text, width, (k - 1) as nat);
        let b = literal_body(text, width, (k - 1) as nat);
        let p = literal_piece(text, width, k - 1);
        let rest = pieces_from(text, width, k as int);
        assert(pieces_from(text, width, k - 1) == p + rest);
        assert(b + (p + rest) =~= (b + p) + rest);
    } else {
        assert(literal_body(text, width, 0) + pieces_from(text, width, 0) =~= pieces_from(text, width, 0));
    }
}

/// A literal reads back as the text it was written from: whatever the
/// text, a string literal reader gets it back from `long_literal`.
pub proof fn lemma_literal_round_trip(text: Seq<char>, width: nat)
    requires
        width > 0,
    ensures
        unescape_literal(literal_of(text, width)) == Some(text),
{
    lemma_body_is_pieces(text, width, text.len());
    lemma_unescape_pieces(text, width, 0);
    let b = literal_body(text, width, text.len());
    assert(pieces_from(text, width, text.len() as int) =~= Seq::<char>::empty());
    assert(b + Seq::<char>::empty() =~= b);
    let l = literal_of(text, width);
    assert(l.subrange(1, l.len() - 1) =~= b);
    assert(text.skip(0) =~= text);
}

} // verus!
