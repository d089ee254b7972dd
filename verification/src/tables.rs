//! The tables file: the class of every code point, the pair table that
//! drives the line breaking state machine, and which pairs of classes are
//! safe places to resume breaking from.

use vstd::prelude::*;
use vstd::string::StringExecFns;
use crate::classes::{class_runs, runs_below, Run, SCALARS};
use crate::encode::{base64_digits, decimal, digits, long_literal, literal_of, pow64, push_char, push_decimal};

verus! {

/// How many line break classes there are.
pub const CLASSES: usize = 43;

/// The width of the pair table: one column per class, then one for end of
/// text.
pub const COLUMNS: usize = 44;

/// The name of class `i`, in the order of declaration, which is the order
/// that class numbers follow.
pub open spec fn class_name(i: nat) -> Seq<char> {
    if i == 0 {
        "Mandatory"@
    } else if i == 1 {
        "CarriageReturn"@
    } else if i == 2 {
        "LineFeed"@
    } else if i == 3 {
        "CombiningMark"@
    } else if i == 4 {
        "NextLine"@
    } else if i == 5 {
        "Surrogate"@
    } else if i == 6 {
        "WordJoiner"@
    } else if i == 7 {
        "ZeroWidthSpace"@
    } else if i == 8 {
        "NonBreakingGlue"@
    } else if i == 9 {
        "Space"@
    } else if i == 10 {
        "ZeroWidthJoiner"@
    } else if i == 11 {
        "BeforeAndAfter"@
    } else if i == 12 {
        "After"@
    } else if i == 13 {
        "Before"@
    } else if i == 14 {
        "Hyphen"@
    } else if i == 15 {
        "Contingent"@
    } else if i == 16 {
        "ClosePunctuation"@
    } else if i == 17 {
        "CloseParenthesis"@
    } else if i == 18 {
        "Exclamation"@
    } else if i == 19 {
        "Inseparable"@
    } else if i == 20 {
        "NonStarter"@
    } else if i == 21 {
        "OpenPunctuation"@
    } else if i == 22 {
        "Quotation"@
    } else if i == 23 {
        "InfixSeparator"@
    } else if i == 24 {
        "Numeric"@
    } else if i == 25 {
        "Postfix"@
    } else if i == 26 {
        "Prefix"@
    } else if i == 27 {
        "Symbol"@
    } else if i == 28 {
        "Ambiguous"@
    } else if i == 29 {
        "Alphabetic"@
    } else if i == 30 {
        "ConditionalJapaneseStarter"@
    } else if i == 31 {
        "EmojiBase"@
    } else if i == 32 {
        "EmojiModifier"@
    } else if i == 33 {
        "HangulLvSyllable"@
    } else if i == 34 {
        "HangulLvtSyllable"@
    } else if i == 35 {
        "HebrewLetter"@
    } else if i == 36 {
        "Ideographic"@
    } else if i == 37 {
        "HangulLJamo"@
    } else if i == 38 {
        "HangulVJamo"@
    } else if i == 39 {
        "HangulTJamo"@
    } else if i == 40 {
        "RegionalIndicator"@
    } else if i == 41 {
        "ComplexContext"@
    } else {
        "Unknown"@
    }
}

/// The name of class `i`.
pub fn class_name_of(i: usize) -> (name: &'static str)
    requires
        i < CLASSES,
    ensures
        name@ == class_name(i as nat),
{
    match i {
        0 => "Mandatory",
        1 => "CarriageReturn",
        2 => "LineFeed",
        3 => "CombiningMark",
        4 => "NextLine",
        5 => "Surrogate",
        6 => "WordJoiner",
        7 => "ZeroWidthSpace",
        8 => "NonBreakingGlue",
        9 => "Space",
        10 => "ZeroWidthJoiner",
        11 => "BeforeAndAfter",
        12 => "After",
        13 => "Before",
        14 => "Hyphen",
        15 => "Contingent",
        16 => "ClosePunctuation",
        17 => "CloseParenthesis",
        18 => "Exclamation",
        19 => "Inseparable",
        20 => "NonStarter",
        21 => "OpenPunctuation",
        22 => "Quotation",
        23 => "InfixSeparator",
        24 => "Numeric",
        25 => "Postfix",
        26 => "Prefix",
        27 => "Symbol",
        28 => "Ambiguous",
        29 => "Alphabetic",
        30 => "ConditionalJapaneseStarter",
        31 => "EmojiBase",
        32 => "EmojiModifier",
        33 => "HangulLvSyllable",
        34 => "HangulLvtSyllable",
        35 => "HebrewLetter",
        36 => "Ideographic",
        37 => "HangulLJamo",
        38 => "HangulVJamo",
        39 => "HangulTJamo",
        40 => "RegionalIndicator",
        41 => "ComplexContext",
        _ => "Unknown",
    }
}

/// The Unicode version that unicode-linebreak describes.
///
/// Trusted: `unicode_linebreak::UNICODE_VERSION`, which the crate's source
/// sets to `(15, 0, 0)`.
#[verifier::external_body]
fn unicode_version() -> (v: (u8, u8, u8))
    ensures
        v == (15u8, 0u8, 0u8),
{
    unicode_linebreak::UNICODE_VERSION
}

/// `i` right-aligned in two columns.
pub open spec fn pad2(i: nat) -> Seq<char> {
    if i < 10 {
        seq![' '] + decimal(i)
    } else {
        decimal(i)
    }
}

/// The line of the listing of classes for class `i`.
pub open spec fn listing_line(i: nat) -> Seq<char> {
    seq!['-', '-', ' ', ' ', ' '] + pad2(i) + seq![' '] + class_name(i) + seq!['\n']
}

/// The listing lines of the classes below `k`.
pub open spec fn listing(k: nat) -> Seq<char>
    decreases k,
{
    if k == 0 {
        Seq::empty()
    } else {
        listing((k - 1) as nat) + listing_line((k - 1) as nat)
    }
}

/// The record of a run: `lo` and `hi` in 4 digits each, the class in 1.
pub open spec fn run_record(r: Run) -> Seq<char> {
    base64_digits(r.0 as nat, 4) + base64_digits(r.1 as nat, 4) + base64_digits(r.2 as nat, 1)
}

/// The records of `runs`, one after the other.
pub open spec fn runs_digits(runs: Seq<Run>) -> Seq<char>
    decreases runs.len(),
{
    if runs.len() == 0 {
        Seq::empty()
    } else {
        runs_digits(runs.drop_last()) + run_record(runs.last())
    }
}

/// A row of the pair table, 2 digits per entry.
pub open spec fn row_digits(row: Seq<u8>) -> Seq<char>
    decreases row.len(),
{
    if row.len() == 0 {
        Seq::empty()
    } else {
        row_digits(row.drop_last()) + base64_digits(row.last() as nat, 2)
    }
}

/// The rows of the pair table, one after the other.
pub open spec fn table_digits(rows: Seq<Seq<u8>>) -> Seq<char>
    decreases rows.len(),
{
    if rows.len() == 0 {
        Seq::empty()
    } else {
        table_digits(rows.drop_last()) + row_digits(rows.last())
    }
}

/// `'1'` for true, `'0'` for false.
pub open spec fn flag(b: bool) -> char {
    if b { '1' } else { '0' }
}

/// A row of flags.
pub open spec fn flags_row(row: Seq<bool>) -> Seq<char>
    decreases row.len(),
{
    if row.len() == 0 {
        Seq::empty()
    } else {
        flags_row(row.drop_last()).push(flag(row.last()))
    }
}

/// Rows of flags, one after the other.
pub open spec fn flags_table(rows: Seq<Seq<bool>>) -> Seq<char>
    decreases rows.len(),
{
    if rows.len() == 0 {
        Seq::empty()
    } else {
        flags_table(rows.drop_last()) + flags_row(rows.last())
    }
}

/// The rows of a table of bytes.
pub open spec fn byte_rows(v: Seq<Vec<u8>>) -> Seq<Seq<u8>> {
    v.map_values(|r: Vec<u8>| r@)
}

/// The rows of a table of flags.
pub open spec fn flag_rows(v: Seq<Vec<bool>>) -> Seq<Seq<bool>> {
    v.map_values(|r: Vec<bool>| r@)
}

/// Appends the listing of all classes.
fn push_listing(out: &mut String)
    ensures
        final(out)@ == old(out)@ + listing(CLASSES as nat),
{
    let mut i: usize = 0;
    while i < CLASSES
        invariant
            i <= CLASSES,
            out@ == old(out)@ + listing(i as nat),
        decreases CLASSES - i,
    {
        out.append("--   ");
        proof {
            reveal_strlit("--   ");
        }
        if i < 10 {
            push_char(out, ' ');
        }
        push_decimal(out, i as u64);
        push_char(out, ' ');
        out.append(class_name_of(i));
        push_char(out, '\n');
        assert(out@ =~= old(out)@ + listing((i + 1) as nat));
        i = i + 1;
    }
}

/// The records of `runs`, as base-64 digits.
pub fn encode_runs(runs: &Vec<Run>) -> (s: String)
    requires
        forall|i: int| 0 <= i < runs@.len() ==> {
            &&& #[trigger] runs@[i].0 < pow64(4)
            &&& runs@[i].1 < pow64(4)
            &&& runs@[i].2 < pow64(1)
        },
    ensures
        s@ == runs_digits(runs@),
{
    let mut s = String::new();
    let mut i: usize = 0;
    while i < runs.len()
        invariant
            i <= runs@.len(),
            forall|k: int| 0 <= k < runs@.len() ==> {
                &&& #[trigger] runs@[k].0 < pow64(4)
                &&& runs@[k].1 < pow64(4)
                &&& runs@[k].2 < pow64(1)
            },
            s@ == runs_digits(runs@.take(i as int)),
        decreases runs@.len() - i,
    {
        let (lo, hi, v) = runs[i];
        assert(runs@[i as int] == (lo, hi, v));
        digits(&mut s, lo as u64, 4);
        digits(&mut s, hi as u64, 4);
        digits(&mut s, v as u64, 1);
        assert(runs@.take(i + 1int).drop_last() =~= runs@.take(i as int));
        assert(s@ =~= runs_digits(runs@.take(i + 1int)));
        i = i + 1;
    }
    assert(runs@.take(runs@.len() as int) =~= runs@);
    s
}

/// 64^2.
proof fn lemma_pow64_2()
    ensures
        pow64(2) == 4096,
        pow64(1) == 64,
        pow64(4) == 16777216,
{
    reveal_with_fuel(pow64, 5);
}

/// The rows of a table of bytes, each entry as 2 base-64 digits.
pub fn encode_table(rows: &Vec<Vec<u8>>) -> (s: String)
    ensures
        s@ == table_digits(byte_rows(rows@)),
{
    proof {
        lemma_pow64_2();
    }
    let ghost all = byte_rows(rows@);
    let mut s = String::new();
    let mut i: usize = 0;
    while i < rows.len()
        invariant
            i <= rows@.len(),
            pow64(2) == 4096,
            all == byte_rows(rows@),
            s@ == table_digits(all.take(i as int)),
        decreases rows@.len() - i,
    {
        let row = &rows[i];
        assert(row@ == all[i as int]);
        let ghost start = s@;
        let mut j: usize = 0;
        while j < row.len()
            invariant
                j <= row@.len(),
                pow64(2) == 4096,
                s@ == start + row_digits(row@.take(j as int)),
            decreases row@.len() - j,
        {
            digits(&mut s, row[j] as u64, 2);
            assert(row@.take(j + 1int).drop_last() =~= row@.take(j as int));
            assert(s@ =~= start + row_digits(row@.take(j + 1int)));
            j = j + 1;
        }
        assert(row@.take(row@.len() as int) =~= row@);
        assert(all.take(i + 1int).drop_last() =~= all.take(i as int));
        assert(s@ =~= table_digits(all.take(i + 1int)));
        i = i + 1;
    }
    assert(all.take(rows@.len() as int) =~= all);
    s
}

/// The rows of a table of flags, each as `'1'` or `'0'`.
pub fn encode_flags(rows: &Vec<Vec<bool>>) -> (s: String)
    ensures
        s@ == flags_table(flag_rows(rows@)),
{
    let ghost all = flag_rows(rows@);
    let mut s = String::new();
    let mut i: usize = 0;
    while i < rows.len()
        invariant
            i <= rows@.len(),
            all == flag_rows(rows@),
            s@ == flags_table(all.take(i as int)),
        decreases rows@.len() - i,
    {
        let row = &rows[i];
        assert(row@ == all[i as int]);
        let ghost start = s@;
        let mut j: usize = 0;
        while j < row.len()
            invariant
                j <= row@.len(),
                s@ == start + flags_row(row@.take(j as int)),
            decreases row@.len() - j,
        {
            push_char(&mut s, if row[j] { '1' } else { '0' });
            assert(row@.take(j + 1int).drop_last() =~= row@.take(j as int));
            assert(s@ =~= start + flags_row(row@.take(j + 1int)));
            j = j + 1;
        }
        assert(row@.take(row@.len() as int) =~= row@);
        assert(all.take(i + 1int).drop_last() =~= all.take(i as int));
        assert(s@ =~= flags_table(all.take(i + 1int)));
        i = i + 1;
    }
    assert(all.take(rows@.len() as int) =~= all);
    s
}

/// The tables file, given its opening lines (`notice`), the licence
/// header, the Unicode version, the class runs, the pair table with its end
/// of text column and start state, and the safe pairs.
pub open spec fn tables_text(
    notice: Seq<char>,
    header: Seq<char>,
    version: (u8, u8, u8),
    runs: Seq<Run>,
    pairs: Seq<Seq<u8>>,
    eot: u8,
    sot: u8,
    safe: Seq<Seq<bool>>,
) -> Seq<char> {
    notice
        + "--\n-- Every table is a string of fixed-width records, each field written in the\n-- base-64 digits '0' ('0' + 0) to 'o' ('0' + 63), most significant first, and\n-- is read in place by `Lookup.mw`.\n--\n"@
        + header
        + "\n\n-- The Unicode version the tables describe.\n@pub(pkg) def unicodeVersion = ("@
        + decimal(version.0 as nat) + ", "@ + decimal(version.1 as nat) + ", "@ + decimal(version.2 as nat)
        + ")\n\n-- The line break class of each code point, as `lo hi` (4 digits each) and the\n-- class (1). Code points not listed are Unknown. The classes:\n--\n"@
        + listing(CLASSES as nat)
        + "@pub(pkg) def classes =\n  "@
        + literal_of(runs_digits(runs), 96)
        + "\n\n-- The state machine: "@ + decimal(pairs.len())
        + " rows, one per state, of "@ + decimal(COLUMNS as nat)
        + " entries, one per class\n-- and then end of text ("@ + decimal(eot as nat)
        + "), 2 digits each. An entry is the next state, plus\n-- 128 if there is a break before the class and 64 if it is mandatory. The\n-- start state is "@
        + decimal(sot as nat)
        + ".\n@pub(pkg) def pairs =\n  "@
        + literal_of(table_digits(pairs), 96)
        + "\n\n-- Whether a pair of classes (row, then column; "@ + decimal(CLASSES as nat)
        + " of each) is a safe place to\n-- resume breaking from: '1' or '0'.\n@pub(pkg) def safePairs =\n  "@
        + literal_of(flags_table(safe), 86)
        + "\n"@
}

/// The tables file: the class runs and the Unicode version come from
/// unicode-linebreak; the pair table (`pairs`, whose last column is for end
/// of text, `eot`, and whose start state is `sot`) and the safe pairs
/// (`safe`, row then column by class) are passed in, together with the
/// file's opening lines (`notice`) and licence header (`header`).
pub fn tables(
    notice: &str,
    header: &str,
    pairs: &Vec<Vec<u8>>,
    eot: u8,
    sot: u8,
    safe: &Vec<Vec<bool>>,
) -> (text: String)
    requires
        eot as usize == COLUMNS - 1,
        pairs@.len() > 0,
        pairs@[0]@.len() == COLUMNS,
    ensures
        text@ == tables_text(
            notice@,
            header@,
            (15u8, 0u8, 0u8),
            runs_below(SCALARS as nat),
            byte_rows(pairs@),
            eot,
            sot,
            flag_rows(safe@),
        ),
{
    let (maj, min, pat) = unicode_version();
    let runs = class_runs();
    proof {
        lemma_pow64_2();
        assert forall|i: int| 0 <= i < runs@.len() implies {
            &&& #[trigger] runs@[i].0 < pow64(4)
            &&& runs@[i].1 < pow64(4)
            &&& runs@[i].2 < pow64(1)
        } by {
            assert(runs@[i].0 <= runs@[i].1 < SCALARS);
        }
    }
    let classes = encode_runs(&runs);
    let table = encode_table(pairs);
    let flags = encode_flags(safe);
    let mut out = String::new();
    out.append(notice);
    out.append("--\n-- Every table is a string of fixed-width records, each field written in the\n-- base-64 digits '0' ('0' + 0) to 'o' ('0' + 63), most significant first, and\n-- is read in place by `Lookup.mw`.\n--\n");
    out.append(header);
    out.append("\n\n-- The Unicode version the tables describe.\n@pub(pkg) def unicodeVersion = (");
    push_decimal(&mut out, maj as u64);
    out.append(", ");
    push_decimal(&mut out, min as u64);
    out.append(", ");
    push_decimal(&mut out, pat as u64);
    out.append(")\n\n-- The line break class of each code point, as `lo hi` (4 digits each) and the\n-- class (1). Code points not listed are Unknown. The classes:\n--\n");
    push_listing(&mut out);
    out.append("@pub(pkg) def classes =\n  ");
    out.append(long_literal(classes.as_str(), 96).as_str());
    out.append("\n\n-- The state machine: ");
    push_decimal(&mut out, pairs.len() as u64);
    out.append(" rows, one per state, of ");
    push_decimal(&mut out, COLUMNS as u64);
    out.append(" entries, one per class\n-- and then end of text (");
    push_decimal(&mut out, eot as u64);
    out.append("), 2 digits each. An entry is the next state, plus\n-- 128 if there is a break before the class and 64 if it is mandatory. The\n-- start state is ");
    push_decimal(&mut out, sot as u64);
    out.append(".\n@pub(pkg) def pairs =\n  ");
    out.append(long_literal(table.as_str(), 96).as_str());
    out.append("\n\n-- Whether a pair of classes (row, then column; ");
    push_decimal(&mut out, CLASSES as u64);
    out.append(" of each) is a safe place to\n-- resume breaking from: '1' or '0'.\n@pub(pkg) def safePairs =\n  ");
    out.append(long_literal(flags.as_str(), 86).as_str());
    out.append("\n");
    assert(byte_rows(pairs@).len() == pairs@.len());
    assert(out@ =~= tables_text(
        notice@,
        header@,
        (15u8, 0u8, 0u8),
        runs_below(SCALARS as nat),
        byte_rows(pairs@),
        eot,
        sot,
        flag_rows(safe@),
    ));
    out
}

} // verus!
