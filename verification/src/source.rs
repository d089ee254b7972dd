//! Reading the data of unicode-linebreak that it keeps private (its pair
//! table, the classes for start and end of text, and which pairs of classes
//! are safe places to resume breaking) from the crate's source text.

use vstd::prelude::*;
use vstd::std_specs::iter::IteratorSpec;
use crate::classes::{runs_below, SCALARS};
use crate::tables::{byte_rows, class_name, class_name_of, flag_rows, tables, tables_text, CLASSES, COLUMNS};

verus! {

/// The chars of `s`.
pub fn chars_of(s: &str) -> (v: Vec<char>)
    ensures
        v@ == s@,
{
    let mut v: Vec<char> = Vec::new();
    let mut chars = s.chars();
    let ghost all: Seq<char> = s@;
    proof {
        vstd::string::axiom_spec_iter(s);
    }
    loop
        invariant
            v@.len() <= all.len(),
            chars.remaining() == all.skip(v@.len() as int),
            v@ == all.take(v@.len() as int),
        ensures
            v@ == all,
        decreases all.len() - v@.len(),
    {
        match chars.next() {
            Some(c) => {
                proof {
                    assert(c == all[v@.len() as int]);
                    assert(all.skip(v@.len() as int).drop_first() =~= all.skip(v@.len() + 1int));
                }
                v.push(c);
                assert(v@ =~= all.take(v@.len() as int));
            },
            None => {
                assert(all.take(v@.len() as int) =~= all);
                break;
            },
        }
    }
    v
}

/// The first place at or after `i` where `pat` occurs in `s`.
pub open spec fn find_from(s: Seq<char>, pat: Seq<char>, i: int) -> Option<int>
    decreases s.len() + 1 - i,
{
    if i < 0 || i + pat.len() > s.len() {
        None
    } else if s.subrange(i, i + pat.len()) == pat {
        Some(i)
    } else {
        find_from(s, pat, i + 1)
    }
}

/// The text of `s` between the first `start` and the first `end` after it.
pub open spec fn section(s: Seq<char>, start: Seq<char>, end: Seq<char>) -> Option<Seq<char>> {
    match find_from(s, start, 0) {
        None => None,
        Some(a) => match find_from(s, end, a + start.len()) {
            None => None,
            Some(b) => Some(s.subrange(a + start.len(), b)),
        },
    }
}

/// Whether `pat` stands in `s` at `i`.
fn matches_at(s: &Vec<char>, pat: &Vec<char>, i: usize) -> (r: bool)
    requires
        i + pat@.len() <= s@.len(),
    ensures
        r == (s@.subrange(i as int, i + pat@.len()) == pat@),
{
    let n = s.len();
    let mut j: usize = 0;
    while j < pat.len()
        invariant
            j <= pat@.len(),
            n == s@.len(),
            i + pat@.len() <= s@.len(),
            s@.subrange(i as int, i + j) == pat@.take(j as int),
        decreases pat@.len() - j,
    {
        if s[i + j] != pat[j] {
            assert(s@.subrange(i as int, i + pat@.len())[j as int] != pat@[j as int]);
            return false;
        }
        assert(s@.subrange(i as int, i + j + 1) =~= pat@.take(j + 1int));
        j = j + 1;
    }
    assert(pat@.take(pat@.len() as int) =~= pat@);
    true
}

/// Where `pat` first occurs in `s` at or after `from`.
pub fn find(s: &Vec<char>, pat: &Vec<char>, from: usize) -> (r: Option<usize>)
    ensures
        r matches Some(i) ==> find_from(s@, pat@, from as int) == Some(i as int),
        r is None ==> find_from(s@, pat@, from as int) is None,
{
    let n = s.len();
    let mut i: usize = from;
    loop
        invariant
            from <= i,
            n == s@.len(),
            find_from(s@, pat@, from as int) == find_from(s@, pat@, i as int),
        decreases s@.len() + 1 - i,
    {
        if i > s.len() || s.len() - i < pat.len() {
            return None;
        }
        if matches_at(s, pat, i) {
            return Some(i);
        }
        if pat.len() == 0 {
            assert(s@.subrange(i as int, i as int) =~= pat@);
        }
        i = i + 1;
    }
}

/// The text between the first `start` and the first `end` after it.
pub fn section_of(s: &Vec<char>, start: &Vec<char>, end: &Vec<char>) -> (r: Option<Vec<char>>)
    ensures
        r matches Some(v) ==> section(s@, start@, end@) == Some(v@),
        r is None ==> section(s@, start@, end@) is None,
{
    let n = s.len();
    match find(s, start, 0) {
        None => None,
        Some(a) => {
            proof {
                lemma_find_from_bounds(s@, start@, 0);
            }
            let b0 = a + start.len();
            match find(s, end, b0) {
                None => None,
                Some(b) => {
                    let mut v: Vec<char> = Vec::new();
                    let mut k: usize = b0;
                    proof {
                        lemma_find_from_bounds(s@, end@, b0 as int);
                    }
                    while k < b
                        invariant
                            b0 <= k <= b,
                            b <= s@.len(),
                            v@ == s@.subrange(b0 as int, k as int),
                        decreases b - k,
                    {
                        v.push(s[k]);
                        assert(v@ =~= s@.subrange(b0 as int, k + 1int));
                        k = k + 1;
                    }
                    Some(v)
                },
            }
        },
    }
}

/// Where `find_from` finds something, it is at or after the start and
/// inside the text.
proof fn lemma_find_from_bounds(s: Seq<char>, pat: Seq<char>, i: int)
    ensures
        find_from(s, pat, i) matches Some(j) ==> i <= j && j + pat.len() <= s.len(),
    decreases s.len() + 1 - i,
{
    if !(i < 0 || i + pat.len() > s.len()) && s.subrange(i, i + pat.len()) != pat {
        lemma_find_from_bounds(s, pat, i + 1);
    }
}

/// Whether `c` is a decimal digit.
pub open spec fn is_digit(c: char) -> bool {
    48 <= (c as u32) && (c as u32) <= 57
}

/// Whether `c` can be part of an identifier: an ASCII letter or digit, or
/// an underscore.
pub open spec fn is_ident_char(c: char) -> bool {
    is_digit(c) || (65 <= (c as u32) && (c as u32) <= 90) || (97 <= (c as u32) && (c as u32) <= 122)
        || c == '_'
}

/// Whether `c` is part of a word: of an identifier where `ident`, of a
/// number otherwise.
pub open spec fn word_char(c: char, ident: bool) -> bool {
    if ident {
        is_ident_char(c)
    } else {
        is_digit(c)
    }
}

/// The words that end within the first `k` chars of `s`, and the word that
/// is still going on after them.
pub open spec fn scan_words(s: Seq<char>, ident: bool, k: nat) -> (Seq<Seq<char>>, Seq<char>)
    decreases k,
{
    if k == 0 {
        (Seq::empty(), Seq::empty())
    } else {
        let (ws, cur) = scan_words(s, ident, (k - 1) as nat);
        let c = s[k - 1];
        if word_char(c, ident) {
            (ws, cur.push(c))
        } else if cur.len() > 0 {
            (ws.push(cur), Seq::empty())
        } else {
            (ws, Seq::empty())
        }
    }
}

/// The words of `s`: its longest runs of word chars, in order.
pub open spec fn words(s: Seq<char>, ident: bool) -> Seq<Seq<char>> {
    let (ws, cur) = scan_words(s, ident, s.len());
    if cur.len() > 0 {
        ws.push(cur)
    } else {
        ws
    }
}

/// The texts of a vector of char vectors.
pub open spec fn char_rows(v: Seq<Vec<char>>) -> Seq<Seq<char>> {
    v.map_values(|w: Vec<char>| w@)
}

/// The words of `s` (see [`words`]).
pub fn words_of(s: &Vec<char>, ident: bool) -> (ws: Vec<Vec<char>>)
    ensures
        char_rows(ws@) == words(s@, ident),
{
    let mut ws: Vec<Vec<char>> = Vec::new();
    let mut cur: Vec<char> = Vec::new();
    let mut k: usize = 0;
    while k < s.len()
        invariant
            k <= s@.len(),
            (char_rows(ws@), cur@) == scan_words(s@, ident, k as nat),
        decreases s@.len() - k,
    {
        let c = s[k];
        let u = c as u32;
        let digit = 48 <= u && u <= 57;
        let is_word = if ident {
            digit || (65 <= u && u <= 90) || (97 <= u && u <= 122) || c == '_'
        } else {
            digit
        };
        assert(is_word == word_char(c, ident));
        if is_word {
            cur.push(c);
        } else if cur.len() > 0 {
            let ghost before = ws@;
            let w = cur;
            ws.push(w);
            assert(char_rows(ws@) =~= char_rows(before).push(w@));
            cur = Vec::new();
        } else {
            cur = Vec::new();
        }
        assert(cur@ =~= scan_words(s@, ident, (k + 1) as nat).1);
        k = k + 1;
    }
    if cur.len() > 0 {
        let ghost before = ws@;
        let ghost last = cur@;
        ws.push(cur);
        assert(char_rows(ws@) =~= char_rows(before).push(last));
    }
    ws
}

/// Every word is nonempty and made of word chars.
pub open spec fn proper_words(ws: Seq<Seq<char>>, ident: bool) -> bool {
    forall|i: int| 0 <= i < ws.len() ==> {
        &&& #[trigger] ws[i].len() > 0
        &&& forall|j: int| 0 <= j < ws[i].len() ==> word_char(#[trigger] ws[i][j], ident)
    }
}

/// The words of a scan are proper, and so is the word in progress but for
/// being empty.
proof fn lemma_scan_proper(s: Seq<char>, ident: bool, k: nat)
    requires
        k <= s.len(),
    ensures
        proper_words(scan_words(s, ident, k).0, ident),
        forall|j: int| 0 <= j < scan_words(s, ident, k).1.len() ==> word_char(#[trigger] scan_words(s, ident, k).1[j], ident),
    decreases k,
{
    if k > 0 {
        lemma_scan_proper(s, ident, (k - 1) as nat);
        let (ws, cur) = scan_words(s, ident, (k - 1) as nat);
        let c = s[k - 1];
        if word_char(c, ident) {
            assert forall|j: int| 0 <= j < cur.push(c).len() implies word_char(#[trigger] cur.push(c)[j], ident) by {
                if j < cur.len() {
                    assert(cur.push(c)[j] == cur[j]);
                }
            }
        } else if cur.len() > 0 {
            let w2 = ws.push(cur);
            assert forall|i: int| 0 <= i < w2.len() implies {
                &&& #[trigger] w2[i].len() > 0
                &&& forall|j: int| 0 <= j < w2[i].len() ==> word_char(#[trigger] w2[i][j], ident)
            } by {
                if i < ws.len() {
                    assert(w2[i] == ws[i]);
                }
            }
        }
    }
}

/// The words of a text are proper.
pub proof fn lemma_words_proper(s: Seq<char>, ident: bool)
    ensures
        proper_words(words(s, ident), ident),
{
    lemma_scan_proper(s, ident, s.len());
    let (ws, cur) = scan_words(s, ident, s.len());
    if cur.len() > 0 {
        let w2 = ws.push(cur);
        assert forall|i: int| 0 <= i < w2.len() implies {
            &&& #[trigger] w2[i].len() > 0
            &&& forall|j: int| 0 <= j < w2[i].len() ==> word_char(#[trigger] w2[i][j], ident)
        } by {
            if i < ws.len() {
                assert(w2[i] == ws[i]);
            }
        }
    }
}

/// The number that a run of decimal digits stands for.
pub open spec fn dec_value(w: Seq<char>) -> nat
    decreases w.len(),
{
    if w.len() == 0 {
        0
    } else {
        10 * dec_value(w.drop_last()) + ((w.last() as u32) - 48) as nat
    }
}

/// A longer run of digits is worth at least as much as its start.
proof fn lemma_dec_value_grows(w: Seq<char>, j: int)
    requires
        0 <= j <= w.len(),
        forall|k: int| 0 <= k < w.len() ==> is_digit(#[trigger] w[k]),
    ensures
        dec_value(w.take(j)) <= dec_value(w),
    decreases w.len() - j,
{
    if j < w.len() {
        lemma_dec_value_grows(w, j + 1);
        assert(w.take(j + 1).drop_last() =~= w.take(j));
    } else {
        assert(w.take(j) =~= w);
    }
}

/// The value of a run of digits, if it is below 256.
fn byte_value(w: &Vec<char>) -> (r: Option<u8>)
    requires
        forall|k: int| 0 <= k < w@.len() ==> is_digit(#[trigger] w@[k]),
    ensures
        r is Some <==> dec_value(w@) < 256,
        r matches Some(b) ==> b as nat == dec_value(w@),
{
    let mut v: u32 = 0;
    let mut j: usize = 0;
    while j < w.len()
        invariant
            j <= w@.len(),
            forall|k: int| 0 <= k < w@.len() ==> is_digit(#[trigger] w@[k]),
            v as nat == dec_value(w@.take(j as int)),
            v < 256,
        decreases w@.len() - j,
    {
        let d: u32 = (w[j] as u32) - 48;
        assert(w@.take(j + 1int).drop_last() =~= w@.take(j as int));
        assert(w@.take(j + 1int).last() == w@[j as int]);
        if v * 10 + d > 255 {
            proof {
                lemma_dec_value_grows(w@, j + 1);
            }
            return None;
        }
        v = v * 10 + d;
        j = j + 1;
    }
    assert(w@.take(w@.len() as int) =~= w@);
    Some(v as u8)
}

/// Whether all the numbers are below 256.
pub open spec fn fits_bytes(ws: Seq<Seq<char>>) -> bool {
    forall|i: int| 0 <= i < ws.len() ==> dec_value(#[trigger] ws[i]) < 256
}

/// The numbers as bytes.
pub open spec fn byte_values(ws: Seq<Seq<char>>) -> Seq<u8> {
    Seq::new(ws.len(), |i: int| dec_value(ws[i]) as u8)
}

/// The values of runs of digits, if all are below 256.
fn bytes_of(ws: &Vec<Vec<char>>) -> (r: Option<Vec<u8>>)
    requires
        proper_words(char_rows(ws@), false),
    ensures
        r is Some <==> fits_bytes(char_rows(ws@)),
        r matches Some(v) ==> v@ == byte_values(char_rows(ws@)),
{
    let ghost all = char_rows(ws@);
    let mut v: Vec<u8> = Vec::new();
    let mut i: usize = 0;
    while i < ws.len()
        invariant
            i <= ws@.len(),
            all == char_rows(ws@),
            proper_words(all, false),
            v@ == byte_values(all).take(i as int),
            fits_bytes(all.take(i as int)),
        decreases ws@.len() - i,
    {
        assert(ws@[i as int]@ == all[i as int]);
        assert(all[i as int].len() > 0);
        match byte_value(&ws[i]) {
            None => {
                assert(!fits_bytes(all));
                return None;
            },
            Some(b) => {
                v.push(b);
                assert(v@ =~= byte_values(all).take(i + 1int));
                assert forall|k: int| 0 <= k < i + 1 implies dec_value(#[trigger] all.take(i + 1int)[k]) < 256 by {
                    if k < i {
                        assert(all.take(i + 1int)[k] == all.take(i as int)[k]);
                    }
                }
            },
        }
        i = i + 1;
    }
    assert(all.take(ws@.len() as int) =~= all);
    assert(byte_values(all).take(ws@.len() as int) =~= byte_values(all));
    Some(v)
}

/// The rows of `v`, `w` entries each.
pub open spec fn rows_of(v: Seq<u8>, w: nat) -> Seq<Seq<u8>> {
    Seq::new(v.len() / w, |r: int| v.subrange(r * w, r * w + w))
}

/// The numbers of the pair table in the text of the crate's tables: those
/// after the `= ` of the line of `static PAIR_TABLE`.
pub open spec fn pair_numbers(tables: Seq<char>) -> Option<Seq<Seq<char>>> {
    match section(tables, "static PAIR_TABLE"@, "\n"@) {
        None => None,
        Some(line) => match section(line, "= "@, ";"@) {
            None => None,
            Some(list) => Some(words(list, false)),
        },
    }
}

/// The pair table in the text of the crate's tables: rows of `COLUMNS`
/// bytes, at least one.
pub open spec fn pair_table(tables: Seq<char>) -> Option<Seq<Seq<u8>>> {
    match pair_numbers(tables) {
        None => None,
        Some(ws) => if fits_bytes(ws) && ws.len() > 0 && ws.len() % (COLUMNS as nat) == 0 {
            Some(rows_of(byte_values(ws), COLUMNS as nat))
        } else {
            None
        },
    }
}

/// The value of the byte constant whose definition starts with `prefix`,
/// up to the next `;`: the one number there.
pub open spec fn byte_constant(text: Seq<char>, prefix: Seq<char>) -> Option<u8> {
    match section(text, prefix, ";"@) {
        None => None,
        Some(v) => {
            let ws = words(v, false);
            if ws.len() == 1 && dec_value(ws[0]) < 256 {
                Some(dec_value(ws[0]) as u8)
            } else {
                None
            }
        },
    }
}

/// The chars of a literal, as a vector.
fn text_vec(s: &str) -> (v: Vec<char>)
    ensures
        v@ == s@,
{
    chars_of(s)
}

/// The pair table of the crate, read from the text of its tables.
pub fn read_pair_table(tables: &Vec<char>) -> (r: Option<Vec<Vec<u8>>>)
    ensures
        r is Some <==> pair_table(tables@) is Some,
        r matches Some(rows) ==> byte_rows(rows@) == pair_table(tables@)->0,
{
    let line = match section_of(tables, &text_vec("static PAIR_TABLE"), &text_vec("\n")) {
        None => return None,
        Some(line) => line,
    };
    let list = match section_of(&line, &text_vec("= "), &text_vec(";")) {
        None => return None,
        Some(list) => list,
    };
    let ws = words_of(&list, false);
    proof {
        lemma_words_proper(list@, false);
    }
    let values = match bytes_of(&ws) {
        None => return None,
        Some(v) => v,
    };
    let n = values.len();
    if n == 0 || n % COLUMNS != 0 {
        return None;
    }
    let ghost want = rows_of(values@, COLUMNS as nat);
    let mut rows: Vec<Vec<u8>> = Vec::new();
    let mut r: usize = 0;
    while r < n / COLUMNS
        invariant
            n == values@.len(),
            n % COLUMNS == 0,
            r <= n / COLUMNS,
            want == rows_of(values@, COLUMNS as nat),
            byte_rows(rows@) == want.take(r as int),
        decreases n / COLUMNS - r,
    {
        let mut row: Vec<u8> = Vec::new();
        let mut c: usize = 0;
        proof {
            vstd::arithmetic::div_mod::lemma_fundamental_div_mod(n as int, COLUMNS as int);
            vstd::arithmetic::mul::lemma_mul_inequality(r as int + 1, (n / COLUMNS) as int, COLUMNS as int);
        }
        assert((r + 1) * COLUMNS <= n) by (nonlinear_arith)
            requires r + 1 <= n / COLUMNS, n / COLUMNS * COLUMNS <= n;
        while c < COLUMNS
            invariant
                c <= COLUMNS,
                (r + 1) * COLUMNS <= n,
                n == values@.len(),
                row@ == values@.subrange(r * COLUMNS, r * COLUMNS + c),
            decreases COLUMNS - c,
        {
            assert(r * COLUMNS + c < n) by (nonlinear_arith)
                requires c < COLUMNS, (r + 1) * COLUMNS <= n;
            row.push(values[r * COLUMNS + c]);
            assert(row@ =~= values@.subrange(r * COLUMNS, r * COLUMNS + c + 1));
            c = c + 1;
        }
        let ghost before = rows@;
        let ghost rv = row@;
        rows.push(row);
        assert(byte_rows(rows@) =~= byte_rows(before).push(rv));
        assert(r < want.len());
        assert(want[r as int] == values@.subrange(r * COLUMNS, r * COLUMNS + COLUMNS));
        assert(want.take(r + 1int) =~= want.take(r as int).push(want[r as int]));
        r = r + 1;
    }
    assert(want.take((n / COLUMNS) as int) =~= want);
    Some(rows)
}

/// The value of the byte constant whose definition starts with `prefix`.
pub fn read_byte_constant(text: &Vec<char>, prefix: &str) -> (r: Option<u8>)
    ensures
        r == byte_constant(text@, prefix@),
{
    let v = match section_of(text, &text_vec(prefix), &text_vec(";")) {
        None => return None,
        Some(v) => v,
    };
    let ws = words_of(&v, false);
    proof {
        lemma_words_proper(v@, false);
    }
    if ws.len() != 1 {
        return None;
    }
    assert(ws@[0]@ == words(v@, false)[0]);
    byte_value(&ws[0])
}

/// The words of the crate's list of abbreviations of classes: triples of
/// a class name, `as` and the abbreviation.
pub open spec fn abbreviation_words(shared: Seq<char>) -> Option<Seq<Seq<char>>> {
    match section(shared, "use BreakClass::{"@, "}"@) {
        None => None,
        Some(v) => {
            let t = words(v, true);
            if t.len() % 3 == 0 && forall|k: int| 0 <= k < t.len() / 3 ==> #[trigger] t[3 * k + 1] == "as"@ {
                Some(t)
            } else {
                None
            }
        },
    }
}

/// The class name for abbreviation `a` among the first `n` triples: that
/// of the first triple that has it.
pub open spec fn name_of_abbr(t: Seq<Seq<char>>, a: Seq<char>, n: nat) -> Option<Seq<char>>
    decreases n,
{
    if n == 0 {
        None
    } else {
        match name_of_abbr(t, a, (n - 1) as nat) {
            Some(x) => Some(x),
            None => if t[3 * (n - 1) + 2] == a {
                Some(t[3 * (n - 1)])
            } else {
                None
            },
        }
    }
}

/// The number of the first class below `n` named `name`.
pub open spec fn class_index(name: Seq<char>, n: nat) -> Option<nat>
    decreases n,
{
    if n == 0 {
        None
    } else {
        match class_index(name, (n - 1) as nat) {
            Some(i) => Some(i),
            None => if class_name((n - 1) as nat) == name {
                Some((n - 1) as nat)
            } else {
                None
            },
        }
    }
}

/// The number of the class with abbreviation `a`.
pub open spec fn class_of_abbr(t: Seq<Seq<char>>, a: Seq<char>) -> Option<nat> {
    match name_of_abbr(t, a, t.len() / 3) {
        None => None,
        Some(name) => class_index(name, CLASSES as nat),
    }
}

/// The abbreviations in the pattern of the crate's `is_safe_pair`: the
/// pairs that are not safe.
pub open spec fn unsafe_words(tables: Seq<char>) -> Option<Seq<Seq<char>>> {
    match section(tables, "matches!((a, b),"@, "\n"@) {
        None => None,
        Some(v) => Some(words(v, true)),
    }
}

/// The first `n` pairs of `u`, as class numbers.
pub open spec fn class_pairs(t: Seq<Seq<char>>, u: Seq<Seq<char>>, n: nat) -> Option<Seq<(nat, nat)>>
    decreases n,
{
    if n == 0 {
        Some(Seq::empty())
    } else {
        match class_pairs(t, u, (n - 1) as nat) {
            None => None,
            Some(ps) => match (class_of_abbr(t, u[2 * (n - 1)]), class_of_abbr(t, u[2 * (n - 1) + 1])) {
                (Some(a), Some(b)) => Some(ps.push((a, b))),
                _ => None,
            },
        }
    }
}

/// Which pairs of classes are safe: all but those listed, row then
/// column.
pub open spec fn safe_table(ps: Seq<(nat, nat)>) -> Seq<Seq<bool>> {
    Seq::new(CLASSES as nat, |a: int| Seq::new(CLASSES as nat, |b: int| !ps.contains((a as nat, b as nat))))
}

/// Which pairs of classes the crate takes as safe places to resume
/// breaking from.
pub open spec fn safe_pairs(shared: Seq<char>, tables: Seq<char>) -> Option<Seq<Seq<bool>>> {
    match (abbreviation_words(shared), unsafe_words(tables)) {
        (Some(t), Some(u)) => if u.len() % 2 == 0 {
            match class_pairs(t, u, u.len() / 2) {
                Some(ps) => Some(safe_table(ps)),
                None => None,
            }
        } else {
            None
        },
        _ => None,
    }
}

/// Whether two texts are the same.
fn same_chars(a: &Vec<char>, b: &Vec<char>) -> (r: bool)
    ensures
        r == (a@ == b@),
{
    if a.len() != b.len() {
        return false;
    }
    let mut i: usize = 0;
    while i < a.len()
        invariant
            i <= a@.len(),
            a@.len() == b@.len(),
            a@.take(i as int) == b@.take(i as int),
        decreases a@.len() - i,
    {
        if a[i] != b[i] {
            return false;
        }
        assert(a@.take(i + 1int) =~= a@.take(i as int).push(a@[i as int]));
        assert(b@.take(i + 1int) =~= b@.take(i as int).push(b@[i as int]));
        i = i + 1;
    }
    assert(a@.take(a@.len() as int) =~= a@);
    assert(b@.take(b@.len() as int) =~= b@);
    true
}

/// The names of all classes, as char vectors.
fn class_names() -> (v: Vec<Vec<char>>)
    ensures
        v@.len() == CLASSES,
        forall|i: int| 0 <= i < CLASSES ==> #[trigger] v@[i]@ == class_name(i as nat),
{
    let mut v: Vec<Vec<char>> = Vec::new();
    let mut i: usize = 0;
    while i < CLASSES
        invariant
            i <= CLASSES,
            v@.len() == i,
            forall|k: int| 0 <= k < i ==> #[trigger] v@[k]@ == class_name(k as nat),
        decreases CLASSES - i,
    {
        v.push(chars_of(class_name_of(i)));
        i = i + 1;
    }
    v
}

/// The words of the crate's list of abbreviations.
pub fn read_abbreviations(shared: &Vec<char>) -> (r: Option<Vec<Vec<char>>>)
    ensures
        r is Some <==> abbreviation_words(shared@) is Some,
        r matches Some(t) ==> char_rows(t@) == abbreviation_words(shared@)->0,
{
    let v = match section_of(shared, &text_vec("use BreakClass::{"), &text_vec("}")) {
        None => return None,
        Some(v) => v,
    };
    let t = words_of(&v, true);
    let ghost tw = char_rows(t@);
    assert(tw.len() == t@.len());
    if t.len() % 3 != 0 {
        return None;
    }
    let as_word = text_vec("as");
    let mut k: usize = 0;
    while k < t.len() / 3
        invariant
            t@.len() % 3 == 0,
            k <= t@.len() / 3,
            tw == char_rows(t@),
            tw.len() == t@.len(),
            section(shared@, "use BreakClass::{"@, "}"@) == Some(v@),
            tw == words(v@, true),
            as_word@ == "as"@,
            forall|j: int| 0 <= j < k ==> #[trigger] tw[3 * j + 1] == "as"@,
        decreases t@.len() / 3 - k,
    {
        assert(3 * k + 1 < t@.len());
        assert(t@[3 * k + 1]@ == tw[3 * k + 1]);
        if !same_chars(&t[3 * k + 1], &as_word) {
            assert(tw[3 * k + 1] != "as"@);
            return None;
        }
        k = k + 1;
    }
    Some(t)
}

/// The number of the class with abbreviation `a`.
fn abbr_class(t: &Vec<Vec<char>>, names: &Vec<Vec<char>>, a: &Vec<char>) -> (r: Option<usize>)
    requires
        t@.len() % 3 == 0,
        names@.len() == CLASSES,
        forall|i: int| 0 <= i < CLASSES ==> #[trigger] names@[i]@ == class_name(i as nat),
    ensures
        r matches Some(c) ==> class_of_abbr(char_rows(t@), a@) == Some(c as nat),
        r is None ==> class_of_abbr(char_rows(t@), a@) is None,
{
    let ghost tw = char_rows(t@);
    assert(tw.len() == t@.len());
    let mut k: usize = 0;
    while k < t.len() / 3
        invariant
            t@.len() % 3 == 0,
            k <= t@.len() / 3,
            tw == char_rows(t@),
            tw.len() == t@.len(),
            names@.len() == CLASSES,
            forall|j: int| 0 <= j < CLASSES ==> #[trigger] names@[j]@ == class_name(j as nat),
            name_of_abbr(tw, a@, k as nat) is None,
        decreases t@.len() / 3 - k,
    {
        assert(3 * k + 2 < t@.len());
        assert(t@[3 * k + 2]@ == tw[3 * k + 2]);
        if same_chars(&t[3 * k + 2], a) {
            let name = &t[3 * k];
            assert(name@ == tw[3 * k]);
            assert(name_of_abbr(tw, a@, (k + 1) as nat) == Some(name@));
            proof {
                lemma_name_of_abbr_stays(tw, a@, (k + 1) as nat, tw.len() / 3);
            }
            let mut i: usize = 0;
            while i < CLASSES
                invariant
                    i <= CLASSES,
                    names@.len() == CLASSES,
                    forall|j: int| 0 <= j < CLASSES ==> #[trigger] names@[j]@ == class_name(j as nat),
                    class_index(name@, i as nat) is None,
                    name_of_abbr(tw, a@, tw.len() / 3) == Some(name@),
                    tw == char_rows(t@),
                decreases CLASSES - i,
            {
                if same_chars(&names[i], name) {
                    assert(class_index(name@, (i + 1) as nat) == Some(i as nat));
                    proof {
                        lemma_class_index_stays(name@, (i + 1) as nat, CLASSES as nat);
                    }
                    return Some(i);
                }
                i = i + 1;
            }
            return None;
        }
        k = k + 1;
    }
    None
}

/// Once found among the first `n` triples, an abbreviation's name stays.
proof fn lemma_name_of_abbr_stays(t: Seq<Seq<char>>, a: Seq<char>, n: nat, m: nat)
    requires
        n <= m,
        name_of_abbr(t, a, n) is Some,
    ensures
        name_of_abbr(t, a, m) == name_of_abbr(t, a, n),
    decreases m - n,
{
    if n < m {
        lemma_name_of_abbr_stays(t, a, n, (m - 1) as nat);
    }
}

/// Once found among the first `n` classes, a name's number stays.
proof fn lemma_class_index_stays(name: Seq<char>, n: nat, m: nat)
    requires
        n <= m,
        class_index(name, n) is Some,
    ensures
        class_index(name, m) == class_index(name, n),
    decreases m - n,
{
    if n < m {
        lemma_class_index_stays(name, n, (m - 1) as nat);
    }
}

/// Which pairs of classes the crate takes as safe, read from the texts of
/// its shared definitions and of its tables.
pub fn read_safe_pairs(shared: &Vec<char>, tables: &Vec<char>) -> (r: Option<Vec<Vec<bool>>>)
    ensures
        r is Some <==> safe_pairs(shared@, tables@) is Some,
        r matches Some(rows) ==> flag_rows(rows@) == safe_pairs(shared@, tables@)->0,
{
    let t = match read_abbreviations(shared) {
        None => return None,
        Some(t) => t,
    };
    let v = match section_of(tables, &text_vec("matches!((a, b),"), &text_vec("\n")) {
        None => return None,
        Some(v) => v,
    };
    let u = words_of(&v, true);
    let ghost tw = char_rows(t@);
    let ghost uw = char_rows(u@);
    assert(uw.len() == u@.len());
    assert(tw.len() == t@.len());
    if u.len() % 2 != 0 {
        return None;
    }
    let names = class_names();
    let mut pairs: Vec<(usize, usize)> = Vec::new();
    let mut k: usize = 0;
    while k < u.len() / 2
        invariant
            u@.len() % 2 == 0,
            k <= u@.len() / 2,
            tw == char_rows(t@),
            uw == char_rows(u@),
            t@.len() % 3 == 0,
            abbreviation_words(shared@) == Some(tw),
            unsafe_words(tables@) == Some(uw),
            names@.len() == CLASSES,
            forall|i: int| 0 <= i < CLASSES ==> #[trigger] names@[i]@ == class_name(i as nat),
            class_pairs(tw, uw, k as nat) == Some(pairs@.map_values(|p: (usize, usize)| (p.0 as nat, p.1 as nat))),
        decreases u@.len() / 2 - k,
    {
        assert(2 * k + 1 < u@.len());
        assert(u@[2 * k]@ == uw[2 * k]);
        assert(u@[2 * k + 1]@ == uw[2 * k + 1]);
        let a = abbr_class(&t, &names, &u[2 * k]);
        let b = abbr_class(&t, &names, &u[2 * k + 1]);
        match (a, b) {
            (Some(a), Some(b)) => {
                let ghost before = pairs@;
                pairs.push((a, b));
                assert(pairs@.map_values(|p: (usize, usize)| (p.0 as nat, p.1 as nat)) =~=
                    before.map_values(|p: (usize, usize)| (p.0 as nat, p.1 as nat)).push((a as nat, b as nat)));
            },
            _ => {
                proof {
                    lemma_class_pairs_fail(tw, uw, (k + 1) as nat, uw.len() / 2);
                }
                return None;
            },
        }
        k = k + 1;
    }
    let ghost ps = pairs@.map_values(|p: (usize, usize)| (p.0 as nat, p.1 as nat));
    let ghost want = safe_table(ps);
    let mut rows: Vec<Vec<bool>> = Vec::new();
    let mut a: usize = 0;
    while a < CLASSES
        invariant
            a <= CLASSES,
            ps == pairs@.map_values(|p: (usize, usize)| (p.0 as nat, p.1 as nat)),
            want == safe_table(ps),
            flag_rows(rows@) == want.take(a as int),
        decreases CLASSES - a,
    {
        let mut row: Vec<bool> = Vec::new();
        let mut b: usize = 0;
        while b < CLASSES
            invariant
                a < CLASSES,
                b <= CLASSES,
                ps == pairs@.map_values(|p: (usize, usize)| (p.0 as nat, p.1 as nat)),
                row@ == want[a as int].take(b as int),
                want == safe_table(ps),
            decreases CLASSES - b,
        {
            let mut listed = false;
            let mut j: usize = 0;
            while j < pairs.len()
                invariant
                    j <= pairs@.len(),
                    ps == pairs@.map_values(|p: (usize, usize)| (p.0 as nat, p.1 as nat)),
                    listed == ps.take(j as int).contains((a as nat, b as nat)),
                decreases pairs@.len() - j,
            {
                if pairs[j].0 == a && pairs[j].1 == b {
                    listed = true;
                }
                proof {
                    broadcast use vstd::seq_lib::group_seq_properties;
                    assert(ps.take(j + 1int) =~= ps.take(j as int).push(ps[j as int]));
                }
                j = j + 1;
            }
            assert(ps.take(pairs@.len() as int) =~= ps);
            row.push(!listed);
            assert(row@ =~= want[a as int].take(b + 1int));
            b = b + 1;
        }
        let ghost before = rows@;
        let ghost rv = row@;
        rows.push(row);
        assert(rv =~= want[a as int]);
        assert(flag_rows(rows@) =~= flag_rows(before).push(rv));
        assert(want.take(a + 1int) =~= want.take(a as int).push(want[a as int]));
        a = a + 1;
    }
    assert(want.take(CLASSES as int) =~= want);
    Some(rows)
}

/// Once a pair fails to resolve, the whole list fails.
proof fn lemma_class_pairs_fail(t: Seq<Seq<char>>, u: Seq<Seq<char>>, n: nat, m: nat)
    requires
        n <= m,
        class_pairs(t, u, n) is None,
    ensures
        class_pairs(t, u, m) is None,
    decreases m - n,
{
    if n < m {
        lemma_class_pairs_fail(t, u, n, (m - 1) as nat);
    }
}

/// Whether the crate's sources hold all the data of the tables file, with
/// end of text as the last column of the pair table.
pub open spec fn source_complete(shared: Seq<char>, tables: Seq<char>) -> bool {
    &&& pair_table(tables) is Some
    &&& safe_pairs(shared, tables) is Some
    &&& byte_constant(shared, "const eot: u8 = "@) == Some((COLUMNS - 1) as u8)
    &&& byte_constant(shared, "const sot: u8 = "@) is Some
}

/// The tables file, with the data that unicode-linebreak keeps private read
/// from the texts of its sources: `shared` (its shared definitions, which
/// hold the classes for end and start of text and the abbreviations of
/// class names) and `tables` (its tables, which hold the pair table and
/// `is_safe_pair`). `None` where those texts do not hold that data, or end
/// of text is not the last column.
pub fn tables_from_source(notice: &str, header: &str, shared: &str, tables_src: &str) -> (text: Option<String>)
    ensures
        text is Some <==> source_complete(shared@, tables_src@),
        text matches Some(t) ==> t@ == tables_text(
            notice@,
            header@,
            (15u8, 0u8, 0u8),
            runs_below(SCALARS as nat),
            pair_table(tables_src@)->0,
            (COLUMNS - 1) as u8,
            byte_constant(shared@, "const sot: u8 = "@)->0,
            safe_pairs(shared@, tables_src@)->0,
        ),
{
    let shared_chars = chars_of(shared);
    let table_chars = chars_of(tables_src);
    let pairs = match read_pair_table(&table_chars) {
        None => return None,
        Some(p) => p,
    };
    let safe = match read_safe_pairs(&shared_chars, &table_chars) {
        None => return None,
        Some(f) => f,
    };
    let eot = match read_byte_constant(&shared_chars, "const eot: u8 = ") {
        None => return None,
        Some(e) => e,
    };
    let sot = match read_byte_constant(&shared_chars, "const sot: u8 = ") {
        None => return None,
        Some(s) => s,
    };
    if eot as usize != COLUMNS - 1 {
        return None;
    }
    proof {
        let rows = pair_table(tables_src@)->0;
        let ws = pair_numbers(tables_src@)->0;
        let n = byte_values(ws).len();
        assert(n > 0 && n % 44 == 0);
        assert(n / 44 >= 1) by (nonlinear_arith)
            requires n > 0, n % 44 == 0;
        assert(rows.len() == n / 44);
        assert(byte_rows(pairs@).len() == pairs@.len());
        assert(pairs@.len() > 0);
        assert(byte_rows(pairs@)[0] == pairs@[0]@);
        assert(rows[0].len() == COLUMNS);
    }
    Some(tables(notice, header, &pairs, eot, sot, &safe))
}

} // verus!
