//! Test strings, with the break opportunities that unicode-linebreak finds
//! in them and where it splits them for a safe restart.

use vstd::prelude::*;
use vstd::string::StringSliceAdditionalSpecFns;
use vstd::utf8::encode_utf8;
use crate::encode::{base64_digits, base64_value, lemma_digits_round_trip, decimal, digits, literal_of, long_literal, pow64, push_char, push_decimal};
use crate::pool::{interesting, lemma_increasing_unique, picks_of_classes, strictly_increasing, EVERYDAY};
use vstd::string::StringExecFns;
use crate::order::{insert_text, lemma_sorted_texts_unique, sorted_texts, texts};
use crate::rng::{scramble, xorshift, Rng};

verus! {

/// The seed of the generator that makes the random test strings.
pub const SEED: u64 = 0x5eed_11e0_b4ea_c0de;

/// How many random test strings are made.
pub const RANDOM_STRINGS: usize = 5000;

/// `k` chars drawn from `pool`, one generator step each, starting from
/// `state`; and the state after.
pub open spec fn gen_chars(k: nat, state: u64, pool: Seq<char>) -> (Seq<char>, u64)
    decreases k,
{
    if k == 0 {
        (Seq::empty(), state)
    } else {
        let (cs, s) = gen_chars((k - 1) as nat, state, pool);
        let s2 = xorshift(s);
        (cs.push(pool[(scramble(s2) % (pool.len() as u64)) as int]), s2)
    }
}

/// A random string: a length from 1 to 10 drawn first, then that many chars
/// drawn from `pool`; and the state after.
pub open spec fn gen_string(state: u64, pool: Seq<char>) -> (Seq<char>, u64) {
    let s1 = xorshift(state);
    let len = 1 + scramble(s1) % 10;
    gen_chars(len as nat, s1, pool)
}

/// `k` random strings, one after the other; and the state after.
pub open spec fn gen_strings(k: nat, state: u64, pool: Seq<char>) -> (Seq<Seq<char>>, u64)
    decreases k,
{
    if k == 0 {
        (Seq::empty(), state)
    } else {
        let (ss, s) = gen_strings((k - 1) as nat, state, pool);
        let (t, s2) = gen_string(s, pool);
        (ss.push(t), s2)
    }
}

/// Draws one random string from `pool`.
pub fn random_string(rng: &mut Rng, pool: &Vec<char>) -> (s: String)
    requires
        pool@.len() > 0,
    ensures
        (s@, final(rng).0) == gen_string(old(rng).0, pool@),
{
    let len = 1 + rng.below(10);
    let ghost s1 = rng.0;
    let mut s = String::new();
    let mut k: usize = 0;
    while k < len
        invariant
            pool@.len() > 0,
            k <= len,
            len == 1 + scramble(s1) % 10,
            s1 == xorshift(old(rng).0),
            (s@, rng.0) == gen_chars(k as nat, s1, pool@),
        decreases len - k,
    {
        let i = rng.below(pool.len());
        push_char(&mut s, pool[i]);
        k = k + 1;
    }
    s
}

/// Draws `count` random strings from `pool`.
pub fn random_strings(rng: &mut Rng, pool: &Vec<char>, count: usize) -> (v: Vec<String>)
    requires
        pool@.len() > 0,
    ensures
        (texts(v@), final(rng).0) == gen_strings(count as nat, old(rng).0, pool@),
{
    let mut v: Vec<String> = Vec::new();
    let mut k: usize = 0;
    while k < count
        invariant
            pool@.len() > 0,
            k <= count,
            (texts(v@), rng.0) == gen_strings(k as nat, old(rng).0, pool@),
        decreases count - k,
    {
        let s = random_string(rng, pool);
        let ghost before = v@;
        v.push(s);
        assert(texts(v@) =~= texts(before).push(s@));
        k = k + 1;
    }
    v
}

/// The fixed test strings: everyday text, and some that exercise
/// particular rules.
pub open spec fn fixed_texts() -> Seq<Seq<char>> {
    seq![
        ""@,
        "Hello world!"@,
        "a b \nc"@,
        "Not allowed to break within em dashes: \u{2014} \u{2014}"@,
        "The quick (\"brown\") fox can't jump 32.3 feet, right?"@,
        "e.g. $10,000.00 \u{2014} 50% off! (see: http://example.com/a-b?c=d)"@,
        "\u{65e5}\u{672c}\u{8a9e}\u{306e}\u{30c6}\u{30ad}\u{30b9}\u{30c8}\u{3001}\u{30ab}\u{30bf}\u{30ab}\u{30ca}\u{3002}\u{300c}\u{5f15}\u{7528}\u{300d}\u{3067}\u{3059}\u{3002}"@,
        "\u{1f468}\u{200d}\u{1f469}\u{200d}\u{1f467} \u{1f44d}\u{1f3fd} \u{1f1fa}\u{1f1f8}\u{1f1ec}\u{1f1e7}"@,
        "co-operate re-\u{ad}enter x\u{2014}y 1\u{2013}2"@,
        "\r\n\r\n\u{85}\u{2028}\u{2029}\u{b}\u{c}"@,
    ]
}

/// The fixed test strings, as string slices.
fn fixed_strs() -> (v: Vec<&'static str>)
    ensures
        v@.len() == fixed_texts().len(),
        forall|i: int| 0 <= i < v@.len() ==> #[trigger] v@[i]@ == fixed_texts()[i],
{
    let v: Vec<&'static str> = vec![
        "",
        "Hello world!",
        "a b \nc",
        "Not allowed to break within em dashes: \u{2014} \u{2014}",
        "The quick (\"brown\") fox can't jump 32.3 feet, right?",
        "e.g. $10,000.00 \u{2014} 50% off! (see: http://example.com/a-b?c=d)",
        "\u{65e5}\u{672c}\u{8a9e}\u{306e}\u{30c6}\u{30ad}\u{30b9}\u{30c8}\u{3001}\u{30ab}\u{30bf}\u{30ab}\u{30ca}\u{3002}\u{300c}\u{5f15}\u{7528}\u{300d}\u{3067}\u{3059}\u{3002}",
        "\u{1f468}\u{200d}\u{1f469}\u{200d}\u{1f467} \u{1f44d}\u{1f3fd} \u{1f1fa}\u{1f1f8}\u{1f1ec}\u{1f1e7}",
        "co-operate re-\u{ad}enter x\u{2014}y 1\u{2013}2",
        "\r\n\r\n\u{85}\u{2028}\u{2029}\u{b}\u{c}",
    ];
    assert(v@.len() == 10);
    v
}

/// The test strings: the fixed ones and `RANDOM_STRINGS` random strings
/// drawn from `pool` with the generator seeded with `SEED`, sorted in the
/// order of `String`, each once.
pub fn case_strings(pool: &Vec<char>) -> (v: Vec<String>)
    requires
        pool@.len() > 0,
    ensures
        sorted_texts(texts(v@)),
        forall|x: Seq<char>| #[trigger] texts(v@).contains(x)
            <==> fixed_texts().contains(x) || gen_strings(RANDOM_STRINGS as nat, SEED, pool@).0.contains(x),
        texts(v@).contains(""@),
        texts(v@).contains("Hello world!"@),
        texts(v@).contains("a b \nc"@),
        texts(v@).contains("Not allowed to break within em dashes: \u{2014} \u{2014}"@),
        texts(v@).contains("The quick (\"brown\") fox can't jump 32.3 feet, right?"@),
        texts(v@).contains("e.g. $10,000.00 \u{2014} 50% off! (see: http://example.com/a-b?c=d)"@),
        texts(v@).contains("\u{65e5}\u{672c}\u{8a9e}\u{306e}\u{30c6}\u{30ad}\u{30b9}\u{30c8}\u{3001}\u{30ab}\u{30bf}\u{30ab}\u{30ca}\u{3002}\u{300c}\u{5f15}\u{7528}\u{300d}\u{3067}\u{3059}\u{3002}"@),
        texts(v@).contains("\u{1f468}\u{200d}\u{1f469}\u{200d}\u{1f467} \u{1f44d}\u{1f3fd} \u{1f1fa}\u{1f1f8}\u{1f1ec}\u{1f1e7}"@),
        texts(v@).contains("co-operate re-\u{ad}enter x\u{2014}y 1\u{2013}2"@),
        texts(v@).contains("\r\n\r\n\u{85}\u{2028}\u{2029}\u{b}\u{c}"@),
{
    let fixed = fixed_strs();
    let mut rng = Rng(SEED);
    let random = random_strings(&mut rng, pool, RANDOM_STRINGS);
    let ghost gen = gen_strings(RANDOM_STRINGS as nat, SEED, pool@).0;
    let mut out: Vec<String> = Vec::new();
    let mut i: usize = 0;
    while i < fixed.len()
        invariant
            i <= fixed@.len(),
            fixed@.len() == fixed_texts().len(),
            forall|k: int| 0 <= k < fixed@.len() ==> #[trigger] fixed@[k]@ == fixed_texts()[k],
            sorted_texts(texts(out@)),
            forall|x: Seq<char>| #[trigger] texts(out@).contains(x) <==> fixed_texts().take(i as int).contains(x),
        decreases fixed@.len() - i,
    {
        let s: String = fixed[i].to_owned();
        insert_text(&mut out, s);
        proof {
            broadcast use vstd::seq_lib::group_seq_properties;
            assert(fixed_texts().take(i + 1int) =~= fixed_texts().take(i as int).push(fixed_texts()[i as int]));
        }
        i = i + 1;
    }
    assert(fixed_texts().take(fixed@.len() as int) =~= fixed_texts());
    let mut j: usize = 0;
    while j < random.len()
        invariant
            j <= random@.len(),
            texts(random@) == gen,
            sorted_texts(texts(out@)),
            forall|x: Seq<char>| #[trigger] texts(out@).contains(x)
                <==> fixed_texts().contains(x) || gen.take(j as int).contains(x),
        decreases random@.len() - j,
    {
        let s: String = random[j].clone();
        assert(s@ == gen[j as int]);
        insert_text(&mut out, s);
        proof {
            broadcast use vstd::seq_lib::group_seq_properties;
            assert(gen.take(j + 1int) =~= gen.take(j as int).push(gen[j as int]));
        }
        j = j + 1;
    }
    assert(gen.take(random@.len() as int) =~= gen);
    proof {
        lemma_fixed_listed();
    }
    out
}

/// The break opportunities that unicode-linebreak finds in `text`: the
/// byte offset of the char after each break, and whether the break is
/// mandatory.
pub uninterp spec fn breaks_of(text: Seq<char>) -> Seq<(usize, bool)>;

/// Where unicode-linebreak splits `text` for a safe restart: the byte
/// length of the part before.
pub uninterp spec fn safe_split_of(text: Seq<char>) -> usize;

/// The break opportunities in `text`.
///
/// Trusted: `unicode_linebreak::linebreaks`, collected, each
/// `BreakOpportunity` turned into whether it is `Mandatory`. The result is
/// named (`breaks_of`). Of it, the contract claims what the crate's source
/// and README show: there is at most one break before each char and one at
/// the end, in increasing order of offset, each offset at most the byte
/// length; an empty text has none, and any other text ends with a mandatory
/// break at its byte length. Which offsets have breaks is left unsaid.
#[verifier::external_body]
fn line_breaks(text: &str) -> (b: Vec<(usize, bool)>)
    ensures
        b@ == breaks_of(text@),
        b@.len() <= text@.len() + 1,
        forall|i: int| 0 <= i < b@.len() ==> #[trigger] b@[i].0 <= encode_utf8(text@).len(),
        forall|i: int, j: int| 0 <= i < j < b@.len() ==> #[trigger] b@[i].0 < #[trigger] b@[j].0,
        text@.len() == 0 ==> b@.len() == 0,
        text@.len() > 0 ==> b@.len() > 0 && b@.last() == (encode_utf8(text@).len() as usize, true),
{
    unicode_linebreak::linebreaks(text).map(|(i, k)| (i, match k {
        unicode_linebreak::BreakOpportunity::Mandatory => true,
        unicode_linebreak::BreakOpportunity::Allowed => false,
    })).collect()
}

/// Where `text` is split for a safe restart.
///
/// Trusted: `unicode_linebreak::split_at_safe`, the byte length of the
/// first part. The result is named (`safe_split_of`); of it the contract
/// claims only that it is at most the byte length of `text`, as the split
/// is at the start of one of its chars, or at 0.
#[verifier::external_body]
fn safe_split(text: &str) -> (n: usize)
    ensures
        n == safe_split_of(text@),
        n <= encode_utf8(text@).len(),
{
    unicode_linebreak::split_at_safe(text).0.len()
}

/// The number that stands for a break: twice its offset, plus one if it is
/// mandatory.
pub open spec fn break_code(b: (usize, bool)) -> nat {
    (2 * b.0 + if b.1 { 1int } else { 0int }) as nat
}

/// Each break as 3 digits.
pub open spec fn breaks_digits(bs: Seq<(usize, bool)>) -> Seq<char>
    decreases bs.len(),
{
    if bs.len() == 0 {
        Seq::empty()
    } else {
        breaks_digits(bs.drop_last()) + base64_digits(break_code(bs.last()), 3)
    }
}

/// The record of one test string: its length in bytes (3 digits) and the
/// string; how many breaks (3 digits), then each break (3 digits each);
/// then where it is split (3 digits).
pub open spec fn case_record(text: Seq<char>, bs: Seq<(usize, bool)>, split: usize) -> Seq<char> {
    base64_digits(encode_utf8(text).len(), 3) + text + base64_digits(bs.len(), 3) + breaks_digits(bs)
        + base64_digits(split as nat, 3)
}

/// Whether every number of a record fits in 3 digits.
pub open spec fn record_fits(text: Seq<char>, bs: Seq<(usize, bool)>, split: usize) -> bool {
    &&& encode_utf8(text).len() < pow64(3)
    &&& bs.len() < pow64(3)
    &&& forall|i: int| 0 <= i < bs.len() ==> #[trigger] break_code(bs[i]) < pow64(3)
    &&& split < pow64(3)
}

/// 64^3.
proof fn lemma_pow64_3()
    ensures
        pow64(3) == 262144,
{
    reveal_with_fuel(pow64, 4);
}

/// Appends the record of `text`, with breaks `bs` and split `split`.
pub fn push_record(body: &mut String, text: &str, bs: &Vec<(usize, bool)>, split: usize)
    requires
        record_fits(text@, bs@, split),
    ensures
        final(body)@ == old(body)@ + case_record(text@, bs@, split),
{
    proof {
        lemma_pow64_3();
    }
    let n: usize = text.as_bytes().len();
    digits(body, n as u64, 3);
    body.append(text);
    digits(body, bs.len() as u64, 3);
    let ghost start = body@;
    let mut i: usize = 0;
    while i < bs.len()
        invariant
            i <= bs@.len(),
            pow64(3) == 262144,
            forall|k: int| 0 <= k < bs@.len() ==> #[trigger] break_code(bs@[k]) < pow64(3),
            body@ == start + breaks_digits(bs@.take(i as int)),
        decreases bs@.len() - i,
    {
        let (at, mandatory) = bs[i];
        assert(break_code(bs@[i as int]) < pow64(3));
        let code: u64 = 2 * (at as u64) + if mandatory { 1u64 } else { 0u64 };
        digits(body, code, 3);
        assert(bs@.take(i + 1int).drop_last() =~= bs@.take(i as int));
        i = i + 1;
    }
    assert(bs@.take(bs@.len() as int) =~= bs@);
    digits(body, split as u64, 3);
    assert(final(body)@ =~= old(body)@ + case_record(text@, bs@, split));
}

/// Whether the records of all of `ts` fit.
pub open spec fn all_fit(ts: Seq<Seq<char>>) -> bool {
    forall|i: int| 0 <= i < ts.len() ==> #[trigger] record_fits(ts[i], breaks_of(ts[i]), safe_split_of(ts[i]))
}

/// The records of `ts`, one after the other.
pub open spec fn records(ts: Seq<Seq<char>>) -> Seq<char>
    decreases ts.len(),
{
    if ts.len() == 0 {
        Seq::empty()
    } else {
        let t = ts.last();
        records(ts.drop_last()) + case_record(t, breaks_of(t), safe_split_of(t))
    }
}

/// Whether each of `ts` takes fewer than 2^17 bytes: short enough that
/// every number of its record fits in 3 digits.
pub open spec fn short_texts(ts: Seq<Seq<char>>) -> bool {
    forall|i: int| 0 <= i < ts.len() ==> encode_utf8(#[trigger] ts[i]).len() < 131072
}

/// A text takes at least one byte and at most four per char.
proof fn lemma_utf8_length(s: Seq<char>)
    ensures
        s.len() <= encode_utf8(s).len() <= 4 * s.len(),
    decreases s.len(),
{
    if s.len() > 0 {
        lemma_utf8_length(s.drop_first());
        let e = vstd::utf8::encode_scalar(s[0] as u32);
        assert(1 <= e.len() <= 4);
    }
}

/// `k` drawn chars are `k` chars.
proof fn lemma_gen_chars_length(k: nat, state: u64, pool: Seq<char>)
    ensures
        gen_chars(k, state, pool).0.len() == k,
    decreases k,
{
    if k > 0 {
        lemma_gen_chars_length((k - 1) as nat, state, pool);
    }
}

/// Random strings have at most 10 chars.
proof fn lemma_gen_strings_short(k: nat, state: u64, pool: Seq<char>)
    ensures
        forall|i: int| 0 <= i < gen_strings(k, state, pool).0.len()
            ==> (#[trigger] gen_strings(k, state, pool).0[i]).len() <= 10,
    decreases k,
{
    if k > 0 {
        let (ss, st) = gen_strings((k - 1) as nat, state, pool);
        lemma_gen_strings_short((k - 1) as nat, state, pool);
        let s1 = xorshift(st);
        lemma_gen_chars_length((1 + scramble(s1) % 10) as nat, s1, pool);
        let t = gen_string(st, pool).0;
        assert(t.len() <= 10);
        assert forall|i: int| 0 <= i < gen_strings(k, state, pool).0.len()
            implies (#[trigger] gen_strings(k, state, pool).0[i]).len() <= 10 by {
            if i < ss.len() {
                assert(gen_strings(k, state, pool).0[i] == ss[i]);
            }
        }
    }
}

/// The fixed test strings have at most 100 chars.
proof fn lemma_fixed_short()
    ensures
        forall|i: int| 0 <= i < fixed_texts().len() ==> (#[trigger] fixed_texts()[i]).len() <= 100,
{
    reveal_strlit("");
    reveal_strlit("Hello world!");
    reveal_strlit("a b \nc");
    reveal_strlit("Not allowed to break within em dashes: \u{2014} \u{2014}");
    reveal_strlit("The quick (\"brown\") fox can't jump 32.3 feet, right?");
    reveal_strlit("e.g. $10,000.00 \u{2014} 50% off! (see: http://example.com/a-b?c=d)");
    reveal_strlit("\u{65e5}\u{672c}\u{8a9e}\u{306e}\u{30c6}\u{30ad}\u{30b9}\u{30c8}\u{3001}\u{30ab}\u{30bf}\u{30ab}\u{30ca}\u{3002}\u{300c}\u{5f15}\u{7528}\u{300d}\u{3067}\u{3059}\u{3002}");
    reveal_strlit("\u{1f468}\u{200d}\u{1f469}\u{200d}\u{1f467} \u{1f44d}\u{1f3fd} \u{1f1fa}\u{1f1f8}\u{1f1ec}\u{1f1e7}");
    reveal_strlit("co-operate re-\u{ad}enter x\u{2014}y 1\u{2013}2");
    reveal_strlit("\r\n\r\n\u{85}\u{2028}\u{2029}\u{b}\u{c}");
}

/// The records of `strings`, or `None` where a number does not fit in its
/// digits.
pub fn case_body(strings: &Vec<String>) -> (body: Option<String>)
    ensures
        body is Some <==> all_fit(texts(strings@)),
        short_texts(texts(strings@)) ==> body is Some,
        body matches Some(b) ==> b@ == records(texts(strings@)),
{
    let ghost ts = texts(strings@);
    let mut body = String::new();
    let mut i: usize = 0;
    proof {
        lemma_pow64_3();
    }
    while i < strings.len()
        invariant
            i <= strings@.len(),
            ts == texts(strings@),
            pow64(3) == 262144,
            all_fit(ts.take(i as int)),
            body@ == records(ts.take(i as int)),
        decreases strings@.len() - i,
    {
        let s: &str = strings[i].as_str();
        assert(s@ == ts[i as int]);
        let bs = line_breaks(s);
        let split = safe_split(s);
        let n: usize = s.as_bytes().len();
        let base = n < 262144 && bs.len() < 262144 && split < 262144;
        let mut fits = base;
        let mut k: usize = 0;
        while k < bs.len()
            invariant
                k <= bs@.len(),
                fits == (base && forall|j: int| 0 <= j < k ==> #[trigger] break_code(bs@[j]) < 262144),
            decreases bs@.len() - k,
        {
            if bs[k].0 >= 131072 {
                fits = false;
            }
            assert(break_code(bs@[k as int]) < 262144 <==> bs@[k as int].0 < 131072);
            k = k + 1;
        }
        proof {
            if n < 131072 {
                lemma_utf8_length(s@);
                assert forall|j: int| 0 <= j < bs@.len() implies #[trigger] break_code(bs@[j]) < 262144 by {
                    assert(bs@[j].0 <= n);
                }
            }
        }
        if !fits {
            proof {
                assert(encode_utf8(ts[i as int]).len() >= 131072);
                assert(!short_texts(ts));
                assert(!record_fits(ts[i as int], breaks_of(ts[i as int]), safe_split_of(ts[i as int])));
                assert(!all_fit(ts));
            }
            return None;
        }
        push_record(&mut body, s, &bs, split);
        proof {
            assert(ts.take(i + 1int).drop_last() =~= ts.take(i as int));
            assert(ts.take(i + 1int).last() == ts[i as int]);
            assert forall|j: int| 0 <= j < i + 1 implies #[trigger] record_fits(ts.take(i + 1int)[j],
                breaks_of(ts.take(i + 1int)[j]), safe_split_of(ts.take(i + 1int)[j])) by {
                if j < i {
                    assert(ts.take(i + 1int)[j] == ts.take(i as int)[j]);
                }
            }
        }
        i = i + 1;
    }
    assert(ts.take(strings@.len() as int) =~= ts);
    Some(body)
}

/// The pool of chars that test strings are drawn from: in increasing
/// order, the picks of every class and the everyday chars.
pub open spec fn is_pool(p: Seq<char>) -> bool {
    &&& strictly_increasing(p)
    &&& forall|c: char| #[trigger] p.contains(c) <==> picks_of_classes(43).contains(c) || EVERYDAY@.contains(c)
}

/// The test strings made from pool `p`: sorted, each once, the fixed ones
/// and the random ones.
pub open spec fn is_case_list(ss: Seq<Seq<char>>, p: Seq<char>) -> bool {
    &&& sorted_texts(ss)
    &&& forall|x: Seq<char>| #[trigger] ss.contains(x)
        <==> fixed_texts().contains(x) || gen_strings(RANDOM_STRINGS as nat, SEED, p).0.contains(x)
}

/// The cases file for `count` test strings whose records are `body`, given
/// its opening lines (`notice`) and licence header (`header`).
pub open spec fn cases_text(notice: Seq<char>, header: Seq<char>, count: nat, body: Seq<char>) -> Seq<char> {
    notice
        + "--\n-- Strings with the break opportunities the crate finds in them, for\n-- `Tests.mw`: "@
        + decimal(count)
        + " in all.\n--\n"@
        + header
        + "\n\n-- Each: the length in bytes (3 digits) and that many bytes; how many breaks\n-- (3), then each as twice its byte offset, plus one if it is mandatory (3);\n-- then where `split_at_safe` splits the string (3).\n@cfg(test)\n@pub(pkg) def cases =\n  "@
        + literal_of(body, 96)
        + "\n"@
}

/// The fixed test strings are these ten: everyday text, the examples of
/// unicode-linebreak's documentation, and strings that exercise its rules.
pub proof fn lemma_fixed_listed()
    ensures
        fixed_texts().contains(""@),
        fixed_texts().contains("Hello world!"@),
        fixed_texts().contains("a b \nc"@),
        fixed_texts().contains("Not allowed to break within em dashes: \u{2014} \u{2014}"@),
        fixed_texts().contains("The quick (\"brown\") fox can't jump 32.3 feet, right?"@),
        fixed_texts().contains("e.g. $10,000.00 \u{2014} 50% off! (see: http://example.com/a-b?c=d)"@),
        fixed_texts().contains("\u{65e5}\u{672c}\u{8a9e}\u{306e}\u{30c6}\u{30ad}\u{30b9}\u{30c8}\u{3001}\u{30ab}\u{30bf}\u{30ab}\u{30ca}\u{3002}\u{300c}\u{5f15}\u{7528}\u{300d}\u{3067}\u{3059}\u{3002}"@),
        fixed_texts().contains("\u{1f468}\u{200d}\u{1f469}\u{200d}\u{1f467} \u{1f44d}\u{1f3fd} \u{1f1fa}\u{1f1f8}\u{1f1ec}\u{1f1e7}"@),
        fixed_texts().contains("co-operate re-\u{ad}enter x\u{2014}y 1\u{2013}2"@),
        fixed_texts().contains("\r\n\r\n\u{85}\u{2028}\u{2029}\u{b}\u{c}"@),
{
    assert(fixed_texts()[0] == ""@);
    assert(fixed_texts()[1] == "Hello world!"@);
    assert(fixed_texts()[2] == "a b \nc"@);
    assert(fixed_texts()[3] == "Not allowed to break within em dashes: \u{2014} \u{2014}"@);
    assert(fixed_texts()[4] == "The quick (\"brown\") fox can't jump 32.3 feet, right?"@);
    assert(fixed_texts()[5] == "e.g. $10,000.00 \u{2014} 50% off! (see: http://example.com/a-b?c=d)"@);
    assert(fixed_texts()[6] == "\u{65e5}\u{672c}\u{8a9e}\u{306e}\u{30c6}\u{30ad}\u{30b9}\u{30c8}\u{3001}\u{30ab}\u{30bf}\u{30ab}\u{30ca}\u{3002}\u{300c}\u{5f15}\u{7528}\u{300d}\u{3067}\u{3059}\u{3002}"@);
    assert(fixed_texts()[7] == "\u{1f468}\u{200d}\u{1f469}\u{200d}\u{1f467} \u{1f44d}\u{1f3fd} \u{1f1fa}\u{1f1f8}\u{1f1ec}\u{1f1e7}"@);
    assert(fixed_texts()[8] == "co-operate re-\u{ad}enter x\u{2014}y 1\u{2013}2"@);
    assert(fixed_texts()[9] == "\r\n\r\n\u{85}\u{2028}\u{2029}\u{b}\u{c}"@);
}

/// Every test string list holds the ten fixed strings.
pub proof fn lemma_case_list_holds_fixed(ss: Seq<Seq<char>>, p: Seq<char>)
    requires
        is_case_list(ss, p),
    ensures
        ss.contains(""@),
        ss.contains("Hello world!"@),
        ss.contains("a b \nc"@),
        ss.contains("Not allowed to break within em dashes: \u{2014} \u{2014}"@),
        ss.contains("The quick (\"brown\") fox can't jump 32.3 feet, right?"@),
        ss.contains("e.g. $10,000.00 \u{2014} 50% off! (see: http://example.com/a-b?c=d)"@),
        ss.contains("\u{65e5}\u{672c}\u{8a9e}\u{306e}\u{30c6}\u{30ad}\u{30b9}\u{30c8}\u{3001}\u{30ab}\u{30bf}\u{30ab}\u{30ca}\u{3002}\u{300c}\u{5f15}\u{7528}\u{300d}\u{3067}\u{3059}\u{3002}"@),
        ss.contains("\u{1f468}\u{200d}\u{1f469}\u{200d}\u{1f467} \u{1f44d}\u{1f3fd} \u{1f1fa}\u{1f1f8}\u{1f1ec}\u{1f1e7}"@),
        ss.contains("co-operate re-\u{ad}enter x\u{2014}y 1\u{2013}2"@),
        ss.contains("\r\n\r\n\u{85}\u{2028}\u{2029}\u{b}\u{c}"@),
{
    lemma_fixed_listed();
}

/// The line that gives the number of test strings comes right after the
/// opening lines, and shows `count`, whatever the rest of the file holds.
pub proof fn lemma_count_line(notice: Seq<char>, header: Seq<char>, count: nat, body: Seq<char>)
    ensures
        ({
            let line = notice
                + "--\n-- Strings with the break opportunities the crate finds in them, for\n-- `Tests.mw`: "@
                + decimal(count) + " in all.\n"@;
            cases_text(notice, header, count, body).take(line.len() as int) == line
        }),
{
    reveal_strlit(" in all.\n");
    reveal_strlit(" in all.\n--\n");
    let head = notice
        + "--\n-- Strings with the break opportunities the crate finds in them, for\n-- `Tests.mw`: "@
        + decimal(count);
    let line = head + " in all.\n"@;
    let t = cases_text(notice, header, count, body);
    assert(t.take(line.len() as int) =~= line);
}

/// The cases file: the test strings with the break opportunities that
/// unicode-linebreak finds in them and where it splits them, given the
/// file's opening lines (`notice`) and licence header (`header`). Every
/// test string is short, so all its numbers fit in their digits.
pub fn cases(notice: &str, header: &str) -> (text: String)
    ensures
        exists|p: Seq<char>, ss: Seq<Seq<char>>|
            #![trigger is_pool(p), is_case_list(ss, p)]
            {
                &&& is_pool(p)
                &&& is_case_list(ss, p)
                &&& all_fit(ss)
                &&& text@ == cases_text(notice@, header@, ss.len(), records(ss))
                &&& text@.take((notice@
                    + "--\n-- Strings with the break opportunities the crate finds in them, for\n-- `Tests.mw`: "@
                    + decimal(ss.len()) + " in all.\n"@).len() as int) == notice@
                    + "--\n-- Strings with the break opportunities the crate finds in them, for\n-- `Tests.mw`: "@
                    + decimal(ss.len()) + " in all.\n"@
            },
{
    let pool = interesting();
    proof {
        reveal_strlit(" -\u{ad}.,!?()'\"0123456789aZ\n\r\t\u{200d}\u{a0}");
        assert(EVERYDAY@.contains(EVERYDAY@[0]));
        assert(pool@.contains(EVERYDAY@[0]));
    }
    let strings = case_strings(&pool);
    let ghost ss = texts(strings@);
    assert(is_pool(pool@));
    assert(is_case_list(ss, pool@));
    proof {
        let gen = gen_strings(RANDOM_STRINGS as nat, SEED, pool@).0;
        lemma_fixed_short();
        lemma_gen_strings_short(RANDOM_STRINGS as nat, SEED, pool@);
        assert forall|i: int| 0 <= i < ss.len() implies encode_utf8(#[trigger] ss[i]).len() < 131072 by {
            assert(ss.contains(ss[i]));
            lemma_utf8_length(ss[i]);
            if fixed_texts().contains(ss[i]) {
                let j = choose|j: int| 0 <= j < fixed_texts().len() && fixed_texts()[j] == ss[i];
                assert(fixed_texts()[j].len() <= 100);
            } else {
                assert(gen.contains(ss[i]));
                let j = choose|j: int| 0 <= j < gen.len() && gen[j] == ss[i];
                assert(gen[j].len() <= 10);
            }
        }
        assert(short_texts(ss));
    }
    let body = case_body(&strings).unwrap();
    let mut out = String::new();
    out.append(notice);
    out.append("--\n-- Strings with the break opportunities the crate finds in them, for\n-- `Tests.mw`: ");
    push_decimal(&mut out, strings.len() as u64);
    out.append(" in all.\n--\n");
    out.append(header);
    out.append("\n\n-- Each: the length in bytes (3 digits) and that many bytes; how many breaks\n-- (3), then each as twice its byte offset, plus one if it is mandatory (3);\n-- then where `split_at_safe` splits the string (3).\n@cfg(test)\n@pub(pkg) def cases =\n  ");
    out.append(long_literal(body.as_str(), 96).as_str());
    out.append("\n");
    assert(ss.len() == strings@.len());
    assert(out@ =~= cases_text(notice@, header@, ss.len(), records(ss)));
    proof {
        lemma_count_line(notice@, header@, ss.len(), records(ss));
    }
    out
}

/// The digits of the breaks take 3 chars each, and each 3 read back as
/// the number of that break.
proof fn lemma_breaks_read_back(bs: Seq<(usize, bool)>)
    requires
        forall|i: int| 0 <= i < bs.len() ==> #[trigger] break_code(bs[i]) < pow64(3),
    ensures
        breaks_digits(bs).len() == 3 * bs.len(),
        forall|i: int| 0 <= i < bs.len() ==>
            base64_value(#[trigger] breaks_digits(bs).subrange(3 * i, 3 * i + 3)) == break_code(bs[i]),
    decreases bs.len(),
{
    if bs.len() > 0 {
        let init = bs.drop_last();
        assert forall|i: int| 0 <= i < init.len() implies #[trigger] break_code(init[i]) < pow64(3) by {
            assert(init[i] == bs[i]);
        }
        lemma_breaks_read_back(init);
        let last = bs.last();
        assert(break_code(bs[bs.len() - 1]) < pow64(3));
        lemma_digits_round_trip(break_code(last), 3);
        let d = breaks_digits(init);
        let e = base64_digits(break_code(last), 3);
        assert(breaks_digits(bs) == d + e);
        assert forall|i: int| 0 <= i < bs.len() implies
            base64_value(#[trigger] breaks_digits(bs).subrange(3 * i, 3 * i + 3)) == break_code(bs[i]) by {
            if i < init.len() {
                assert(breaks_digits(bs).subrange(3 * i, 3 * i + 3) =~= d.subrange(3 * i, 3 * i + 3));
                assert(init[i] == bs[i]);
            } else {
                assert(breaks_digits(bs).subrange(3 * i, 3 * i + 3) =~= e);
            }
        }
    }
}

/// A record reads back as what was written: its first 3 digits are the
/// byte length of the string, then come the string's chars, then 3 digits
/// of the number of breaks, 3 digits for each break, and 3 digits of the
/// split, and nothing more.
pub proof fn lemma_record_read_back(text: Seq<char>, bs: Seq<(usize, bool)>, split: usize)
    requires
        record_fits(text, bs, split),
    ensures
        ({
            let r = case_record(text, bs, split);
            let n = text.len() as int;
            let m = bs.len() as int;
            &&& r.len() == 9 + n + 3 * m
            &&& base64_value(r.subrange(0, 3)) == encode_utf8(text).len()
            &&& r.subrange(3, 3 + n) == text
            &&& base64_value(r.subrange(3 + n, 6 + n)) == m
            &&& forall|i: int| 0 <= i < m ==>
                base64_value(#[trigger] r.subrange(6 + n + 3 * i, 9 + n + 3 * i)) == break_code(bs[i])
            &&& base64_value(r.subrange(6 + n + 3 * m, 9 + n + 3 * m)) == split
        }),
{
    let n = text.len() as int;
    let m = bs.len() as int;
    let a = base64_digits(encode_utf8(text).len(), 3);
    let c = base64_digits(m as nat, 3);
    let d = breaks_digits(bs);
    let e = base64_digits(split as nat, 3);
    lemma_digits_round_trip(encode_utf8(text).len(), 3);
    lemma_digits_round_trip(m as nat, 3);
    lemma_digits_round_trip(split as nat, 3);
    lemma_breaks_read_back(bs);
    let r = case_record(text, bs, split);
    assert(r == a + text + c + d + e);
    assert(r.subrange(0, 3) =~= a);
    assert(r.subrange(3, 3 + n) =~= text);
    assert(r.subrange(3 + n, 6 + n) =~= c);
    assert forall|i: int| 0 <= i < m implies
        base64_value(#[trigger] r.subrange(6 + n + 3 * i, 9 + n + 3 * i)) == break_code(bs[i]) by {
        assert(r.subrange(6 + n + 3 * i, 9 + n + 3 * i) =~= d.subrange(3 * i, 3 * i + 3));
    }
    assert(r.subrange(6 + n + 3 * m, 9 + n + 3 * m) =~= e);
}

/// The pool and the list of test strings that `cases` speaks of are each
/// the only one of their kind, so its text is determined: sorting without
/// repeats leaves nothing open.
pub proof fn lemma_cases_determined(p1: Seq<char>, p2: Seq<char>, s1: Seq<Seq<char>>, s2: Seq<Seq<char>>)
    requires
        is_pool(p1),
        is_pool(p2),
        is_case_list(s1, p1),
        is_case_list(s2, p2),
    ensures
        p1 == p2,
        s1 == s2,
{
    assert forall|c: char| #[trigger] p1.contains(c) <==> p2.contains(c) by {}
    lemma_increasing_unique(p1, p2);
    assert forall|x: Seq<char>| #[trigger] s1.contains(x) <==> s2.contains(x) by {}
    lemma_sorted_texts_unique(s1, s2);
}

} // verus!
