//! The characters that test strings are built from: two of every line break
//! class, and some everyday ones.

use vstd::prelude::*;
use crate::classes::{break_class, break_class_of, SCALARS};
use vstd::std_specs::iter::IteratorSpec;

verus! {

/// Whether `cp` is a Unicode scalar value, that is a code point that is not
/// a surrogate.
pub open spec fn is_scalar(cp: u32) -> bool {
    cp < 0xD800 || (0xE000 <= cp && cp < SCALARS)
}

/// The char of `cp`, if it is a scalar value.
///
/// Trusted: `char::from_u32`, which std documents as returning the char
/// whose value is `cp` when `cp` is a scalar value, and `None` otherwise.
#[verifier::external_body]
fn char_from_u32(cp: u32) -> (c: Option<char>)
    ensures
        c is Some <==> is_scalar(cp),
        c matches Some(ch) ==> ch as u32 == cp && ch == cp as char,
{
    char::from_u32(cp)
}

/// The chars below `n` of class `v`, at most the first two.
pub open spec fn picks_below(v: u8, n: nat) -> Seq<char>
    decreases n,
{
    if n == 0 {
        Seq::empty()
    } else {
        let cp = (n - 1) as u32;
        let p = picks_below(v, (n - 1) as nat);
        if is_scalar(cp) && break_class_of(cp) == v && p.len() < 2 {
            p.push(cp as char)
        } else {
            p
        }
    }
}

/// No class gets more than two picks.
pub proof fn lemma_picks_at_most_two(v: u8, n: nat)
    ensures
        picks_below(v, n).len() <= 2,
    decreases n,
{
    if n > 0 {
        lemma_picks_at_most_two(v, (n - 1) as nat);
    }
}

/// Whether some scalar value below `n` has class `v`.
pub open spec fn one_of_class_below(v: u8, n: int) -> bool {
    exists|a: u32| #![trigger break_class_of(a)] a < n && is_scalar(a) && break_class_of(a) == v
}

/// Whether two scalar values below `n` have class `v`.
pub open spec fn two_of_class_below(v: u8, n: int) -> bool {
    exists|a: u32, b: u32|
        #![trigger break_class_of(a), break_class_of(b)]
        a < b && b < n && is_scalar(a) && is_scalar(b) && break_class_of(a) == v && break_class_of(b) == v
}

/// Whether `c` is one of the first two chars of its class: fewer than two
/// chars before it have its class.
pub open spec fn first_two_of_class(c: char) -> bool {
    !two_of_class_below(break_class_of(c as u32), c as u32 as int)
}

/// A char is a scalar value.
proof fn lemma_char_is_scalar(c: char)
    ensures
        is_scalar(c as u32),
        (c as u32) < SCALARS,
        (c as u32) as char == c,
{
    vstd::utf8::char_u32_cast(c, c as u32);
}

/// The picks of class `v` below `n` are exactly the chars of class `v`
/// below `n` that have fewer than two chars of their class before them;
/// there are none where no char below `n` has class `v`, and two where two
/// do.
pub proof fn lemma_picks_below_exact(v: u8, n: nat)
    requires
        n <= SCALARS,
    ensures
        picks_below(v, n).len() == 0 <==> !one_of_class_below(v, n as int),
        picks_below(v, n).len() >= 2 <==> two_of_class_below(v, n as int),
        forall|c: char| #[trigger] picks_below(v, n).contains(c)
            <==> (c as u32) < n && break_class_of(c as u32) == v && !two_of_class_below(v, c as u32 as int),
    decreases n,
{
    if n == 0 {
        assert forall|c: char| #[trigger] picks_below(v, n).contains(c)
            <==> (c as u32) < n && break_class_of(c as u32) == v && !two_of_class_below(v, c as u32 as int) by {
        }
    } else {
        let m = (n - 1) as nat;
        let cp = m as u32;
        let p = picks_below(v, m);
        lemma_picks_below_exact(v, m);
        lemma_picks_at_most_two(v, m);
        let hit = is_scalar(cp) && break_class_of(cp) == v;
        // What holds below `m` holds below `n`.
        if one_of_class_below(v, m as int) {
            let a = choose|a: u32| #![trigger break_class_of(a)] a < m && is_scalar(a) && break_class_of(a) == v;
            assert(a < n && is_scalar(a) && break_class_of(a) == v);
        }
        if two_of_class_below(v, m as int) {
            let (a, b) = choose|a: u32, b: u32|
                #![trigger break_class_of(a), break_class_of(b)]
                a < b && b < m && is_scalar(a) && is_scalar(b) && break_class_of(a) == v && break_class_of(b) == v;
            assert(a < b && b < n && is_scalar(a) && is_scalar(b) && break_class_of(a) == v && break_class_of(b) == v);
        }
        if hit {
            assert(cp < n && is_scalar(cp) && break_class_of(cp) == v);
            assert(one_of_class_below(v, n as int));
            if one_of_class_below(v, m as int) {
                let a = choose|a: u32| #![trigger break_class_of(a)] a < m && is_scalar(a) && break_class_of(a) == v;
                assert(a < cp && cp < n && is_scalar(a) && is_scalar(cp) && break_class_of(a) == v && break_class_of(cp) == v);
                assert(two_of_class_below(v, n as int));
            }
        }
        // A pair or a single below `n` that is not below `m` ends at `cp`.
        if two_of_class_below(v, n as int) && !two_of_class_below(v, m as int) {
            let (a, b) = choose|a: u32, b: u32|
                #![trigger break_class_of(a), break_class_of(b)]
                a < b && b < n && is_scalar(a) && is_scalar(b) && break_class_of(a) == v && break_class_of(b) == v;
            assert(b == cp);
            assert(hit);
            assert(a < m && is_scalar(a) && break_class_of(a) == v);
            assert(one_of_class_below(v, m as int));
        }
        if one_of_class_below(v, n as int) && !one_of_class_below(v, m as int) {
            let a = choose|a: u32| #![trigger break_class_of(a)] a < n && is_scalar(a) && break_class_of(a) == v;
            assert(a == cp);
            assert(hit);
        }
        assert forall|c: char| #[trigger] picks_below(v, n).contains(c)
            <==> (c as u32) < n && break_class_of(c as u32) == v && !two_of_class_below(v, c as u32 as int) by {
            lemma_char_is_scalar(c);
            if hit && p.len() < 2 {
                let q = p.push(cp as char);
                assert(picks_below(v, n) == q);
                if (c as u32) == cp {
                    assert(q[q.len() - 1] == c);
                    assert(q.contains(c));
                } else {
                    if q.contains(c) {
                        let i = choose|i: int| 0 <= i < q.len() && q[i] == c;
                        if i < p.len() {
                            assert(p[i] == c);
                            assert(p.contains(c));
                        } else {
                            assert(c == cp as char);
                            vstd::utf8::char_u32_cast(c, c as u32);
                        }
                    }
                    if p.contains(c) {
                        let i = choose|i: int| 0 <= i < p.len() && p[i] == c;
                        assert(q[i] == c);
                    }
                }
            } else {
                assert(picks_below(v, n) == p);
            }
        }
    }
}

/// The chars that the classes below `k` (at most 43) get: those of a
/// class below `k` that are among the first two of their class.
pub proof fn lemma_picks_of_classes_exact(k: nat)
    requires
        k <= 43,
    ensures
        forall|c: char| #[trigger] picks_of_classes(k).contains(c)
            <==> break_class_of(c as u32) < k && first_two_of_class(c),
    decreases k,
{
    if k > 0 {
        let v = (k - 1) as u8;
        lemma_picks_of_classes_exact((k - 1) as nat);
        lemma_picks_below_exact(v, SCALARS as nat);
        let a = picks_of_classes((k - 1) as nat);
        let b = picks_below(v, SCALARS as nat);
        assert forall|c: char| #[trigger] picks_of_classes(k).contains(c)
            <==> break_class_of(c as u32) < k && first_two_of_class(c) by {
            lemma_char_is_scalar(c);
            assert(picks_of_classes(k) == a + b);
            if (a + b).contains(c) {
                let i = choose|i: int| 0 <= i < (a + b).len() && (a + b)[i] == c;
                if i < a.len() {
                    assert(a[i] == c);
                    assert(a.contains(c));
                } else {
                    assert(b[i - a.len()] == c);
                    assert(b.contains(c));
                }
            }
            if a.contains(c) {
                let i = choose|i: int| 0 <= i < a.len() && a[i] == c;
                assert((a + b)[i] == c);
            }
            if b.contains(c) {
                let i = choose|i: int| 0 <= i < b.len() && b[i] == c;
                assert((a + b)[a.len() + i] == c);
            }
        }
    } else {
        assert forall|c: char| #[trigger] picks_of_classes(k).contains(c)
            <==> break_class_of(c as u32) < k && first_two_of_class(c) by {
        }
    }
}

/// The picks of the classes below `k`, class by class.
pub open spec fn picks_of_classes(k: nat) -> Seq<char>
    decreases k,
{
    if k == 0 {
        Seq::empty()
    } else {
        picks_of_classes((k - 1) as nat) + picks_below((k - 1) as u8, SCALARS as nat)
    }
}

/// Chars in strictly increasing order (so each at most once).
pub open spec fn strictly_increasing(s: Seq<char>) -> bool {
    forall|i: int, j: int| 0 <= i < j < s.len() ==> (#[trigger] s[i] as u32) < (#[trigger] s[j] as u32)
}

/// Everyday characters that test strings should also hold.
pub const EVERYDAY: &'static str = " -\u{ad}.,!?()'\"0123456789aZ\n\r\t\u{200d}\u{a0}";

/// Adds `c` to a strictly increasing `out`, where it is not there yet.
pub fn insert_char(out: &mut Vec<char>, c: char)
    requires
        strictly_increasing(old(out)@),
    ensures
        strictly_increasing(final(out)@),
        forall|x: char| #[trigger] final(out)@.contains(x) <==> old(out)@.contains(x) || x == c,
{
    let n = out.len();
    let mut i: usize = 0;
    while i < n && (out[i] as u32) < (c as u32)
        invariant
            n == out@.len(),
            i <= n,
            forall|k: int| 0 <= k < i ==> (#[trigger] out@[k] as u32) < (c as u32),
        decreases n - i,
    {
        i = i + 1;
    }
    if i < n && out[i] == c {
        assert(old(out)@.contains(c) && old(out)@[i as int] == c);
        return;
    }
    let ghost before = out@;
    out.insert(i, c);
    assert(out@ =~= before.subrange(0, i as int).push(c) + before.subrange(i as int, n as int));
    assert forall|a: int, b: int| 0 <= a < b < out@.len() implies
        (#[trigger] out@[a] as u32) < (#[trigger] out@[b] as u32) by {
        if i < n {
            assert(before[i as int] != c);
            if (before[i as int] as u32) == (c as u32) {
                vstd::utf8::char_u32_cast(before[i as int], c as u32);
                vstd::utf8::char_u32_cast(c, c as u32);
            }
        }
        if a < i && b == i {
            assert(out@[a] == before[a]);
        } else if a < i && b > i {
            assert(out@[a] == before[a]);
            assert(out@[b] == before[b - 1]);
        } else if a == i {
            assert(out@[b] == before[b - 1]);
            assert((before[i as int] as u32) <= (before[b - 1] as u32));
        } else if a > i {
            assert(out@[a] == before[a - 1]);
            assert(out@[b] == before[b - 1]);
        } else {
            assert(out@[a] == before[a]);
            assert(out@[b] == before[b]);
        }
    }
    assert forall|x: char| #[trigger] out@.contains(x) <==> before.contains(x) || x == c by {
        if out@.contains(x) {
            let k = choose|k: int| 0 <= k < out@.len() && out@[k] == x;
            if k < i {
                assert(before[k] == x);
            } else if k > i {
                assert(before[k - 1] == x);
            }
        }
        if before.contains(x) {
            let k = choose|k: int| 0 <= k < before.len() && before[k] == x;
            if k < i {
                assert(out@[k] == x);
            } else {
                assert(out@[k + 1] == x);
            }
        }
        if x == c {
            assert(out@[i as int] == c);
        }
    }
}

/// Two chars of every line break class (the first two by code point; fewer
/// where the class has fewer), and some everyday ones, sorted, each once.
pub fn interesting() -> (picks: Vec<char>)
    ensures
        strictly_increasing(picks@),
        forall|c: char| #[trigger] picks@.contains(c)
            <==> picks_of_classes(43).contains(c) || EVERYDAY@.contains(c),
        forall|c: char| first_two_of_class(c) ==> #[trigger] picks@.contains(c),
        forall|c: char| #[trigger] picks@.contains(c) ==> first_two_of_class(c) || EVERYDAY@.contains(c),
{
    // Slot 2 * v and 2 * v + 1 hold the picks of class v; counts[v] says
    // how many there are.
    let mut counts: Vec<u8> = Vec::new();
    let mut slots: Vec<char> = Vec::new();
    let mut v: usize = 0;
    while v < 43
        invariant
            v <= 43,
            counts@.len() == v,
            slots@.len() == 2 * v,
            forall|k: int| 0 <= k < v ==> #[trigger] counts@[k] == 0,
        decreases 43 - v,
    {
        counts.push(0);
        slots.push('\0');
        slots.push('\0');
        v = v + 1;
    }
    let mut cp: u32 = 0;
    while cp < SCALARS
        invariant
            cp <= SCALARS,
            counts@.len() == 43,
            slots@.len() == 86,
            forall|k: int| 0 <= k < 43 ==> #[trigger] counts@[k] as nat == picks_below(k as u8, cp as nat).len(),
            forall|k: int| 0 <= k < 43 ==> #[trigger] counts@[k] <= 2,
            forall|k: int, j: int| 0 <= k < 43 && 0 <= j < counts@[k] ==>
                #[trigger] slots@[2 * k + j] == #[trigger] picks_below(k as u8, cp as nat)[j],
            forall|a: u32| a < cp && is_scalar(a) ==> #[trigger] break_class_of(a) < 43,
        decreases SCALARS - cp,
    {
        let ghost prev_counts = counts@;
        let ghost prev_slots = slots@;
        proof {
            assert forall|k: int| 0 <= k < 43 implies #[trigger] picks_below(k as u8, (cp + 1) as nat)
                == (if is_scalar(cp) && break_class_of(cp) == k as u8 && picks_below(k as u8, cp as nat).len() < 2 {
                    picks_below(k as u8, cp as nat).push(cp as char)
                } else {
                    picks_below(k as u8, cp as nat)
                }) by {}
        }
        match char_from_u32(cp) {
            Some(c) => {
                let cls = break_class(cp);
                let k = cls as usize;
                let count = counts[k];
                if count < 2 {
                    slots.set(2 * k + count as usize, c);
                    counts.set(k, count + 1);
                }
                proof {
                    assert forall|kk: int, j: int| 0 <= kk < 43 && 0 <= j < counts@[kk] implies
                        #[trigger] slots@[2 * kk + j] == #[trigger] picks_below(kk as u8, (cp + 1) as nat)[j] by {
                        if kk != k {
                            assert(slots@[2 * kk + j] == prev_slots[2 * kk + j]);
                            assert((kk as u8) != cls);
                        } else if j < prev_counts[kk] {
                            assert(slots@[2 * kk + j] == prev_slots[2 * kk + j]);
                        }
                    }
                    assert forall|kk: int| 0 <= kk < 43 implies #[trigger] counts@[kk] as nat
                        == picks_below(kk as u8, (cp + 1) as nat).len() by {
                        if kk != k {
                            assert((kk as u8) != cls);
                        }
                    }
                    assert forall|kk: int| 0 <= kk < 43 implies #[trigger] counts@[kk] <= 2 by {
                        lemma_picks_at_most_two(kk as u8, (cp + 1) as nat);
                    }
                }
            },
            None => {},
        }
        cp = cp + 1;
    }
    // The picks, class by class, then the everyday chars.
    let mut out: Vec<char> = Vec::new();
    let ghost mut seen: Seq<char> = Seq::empty();
    let mut k: usize = 0;
    while k < 43
        invariant
            k <= 43,
            counts@.len() == 43,
            slots@.len() == 86,
            forall|kk: int| 0 <= kk < 43 ==> #[trigger] counts@[kk] as nat == picks_below(kk as u8, SCALARS as nat).len(),
            forall|kk: int| 0 <= kk < 43 ==> #[trigger] counts@[kk] <= 2,
            forall|kk: int, j: int| 0 <= kk < 43 && 0 <= j < counts@[kk] ==>
                #[trigger] slots@[2 * kk + j] == #[trigger] picks_below(kk as u8, SCALARS as nat)[j],
            seen == picks_of_classes(k as nat),
            forall|a: u32| is_scalar(a) ==> #[trigger] break_class_of(a) < 43,
            strictly_increasing(out@),
            forall|x: char| #[trigger] out@.contains(x) <==> seen.contains(x),
        decreases 43 - k,
    {
        let ghost p = picks_below(k as u8, SCALARS as nat);
        let count = counts[k] as usize;
        let mut j: usize = 0;
        while j < count
            invariant
                k < 43,
                count == counts@[k as int],
                count == p.len(),
                count <= 2,
                j <= count,
                slots@.len() == 86,
                forall|jj: int| 0 <= jj < count ==> #[trigger] slots@[2 * k + jj] == p[jj],
                strictly_increasing(out@),
                forall|x: char| #[trigger] out@.contains(x) <==> seen.contains(x) || p.take(j as int).contains(x),
            decreases count - j,
        {
            let c = slots[2 * k + j];
            insert_char(&mut out, c);
            proof {
                broadcast use vstd::seq_lib::group_seq_properties;
                assert(p.take(j + 1) =~= p.take(j as int).push(c));
            }
            j = j + 1;
        }
        proof {
            assert(p.take(count as int) =~= p);
            assert(picks_of_classes((k + 1) as nat) == seen + p);
            broadcast use vstd::seq_lib::group_seq_properties;
            seen = seen + p;
        }
        k = k + 1;
    }
    let everyday: &str = EVERYDAY;
    let mut chars = everyday.chars();
    let ghost all: Seq<char> = everyday@;
    let ghost mut done: nat = 0;
    proof {
        vstd::string::axiom_spec_iter(everyday);
    }
    loop
        invariant
            strictly_increasing(out@),
            seen == picks_of_classes(43),
            forall|a: u32| is_scalar(a) ==> #[trigger] break_class_of(a) < 43,
            all == EVERYDAY@,
            done <= all.len(),
            chars.remaining() == all.skip(done as int),
            forall|x: char| #[trigger] out@.contains(x) <==> seen.contains(x) || all.take(done as int).contains(x),
        ensures
            strictly_increasing(out@),
            forall|x: char| #[trigger] out@.contains(x) <==> seen.contains(x) || all.contains(x),
            forall|a: u32| is_scalar(a) ==> #[trigger] break_class_of(a) < 43,
        decreases all.len() - done,
    {
        match chars.next() {
            Some(c) => {
                insert_char(&mut out, c);
                proof {
                    assert(c == all[done as int]);
                    assert(all.skip(done as int).drop_first() =~= all.skip(done + 1int));
                    broadcast use vstd::seq_lib::group_seq_properties;
                    assert(all.take(done + 1int) =~= all.take(done as int).push(c));
                    done = done + 1;
                }
            },
            None => {
                proof {
                    assert(all.take(done as int) =~= all);
                }
                break;
            },
        }
    }
    proof {
        lemma_picks_of_classes_exact(43);
        assert forall|c: char| first_two_of_class(c) implies #[trigger] out@.contains(c) by {
            lemma_char_is_scalar(c);
            assert(break_class_of(c as u32) < 43);
            assert(seen.contains(c));
        }
    }
    out
}

/// Two strictly increasing sequences of chars that hold the same chars are
/// the same: sorting without repeats leaves nothing open.
pub proof fn lemma_increasing_unique(a: Seq<char>, b: Seq<char>)
    requires
        strictly_increasing(a),
        strictly_increasing(b),
        forall|x: char| #[trigger] a.contains(x) <==> b.contains(x),
    ensures
        a == b,
    decreases a.len(),
{
    if a.len() == 0 {
        if b.len() > 0 {
            assert(b.contains(b[0]));
            assert(a.contains(b[0]));
        }
        assert(a =~= b);
    } else if b.len() == 0 {
        assert(a.contains(a[0]));
        assert(b.contains(a[0]));
    } else {
        let la = a.last();
        let lb = b.last();
        assert(a[a.len() - 1] == la);
        assert(b[b.len() - 1] == lb);
        assert(a.contains(la));
        assert(b.contains(la));
        assert(b.contains(lb));
        assert(a.contains(lb));
        let i = choose|i: int| 0 <= i < b.len() && b[i] == la;
        let j = choose|j: int| 0 <= j < a.len() && a[j] == lb;
        if la != lb {
            assert(i < b.len() - 1);
            assert(j < a.len() - 1);
            assert((b[i] as u32) < (b[b.len() - 1] as u32));
            assert((a[j] as u32) < (a[a.len() - 1] as u32));
        }
        let a2 = a.drop_last();
        let b2 = b.drop_last();
        assert forall|x: char| #[trigger] a2.contains(x) <==> b2.contains(x) by {
            if a2.contains(x) {
                let k = choose|k: int| 0 <= k < a2.len() && a2[k] == x;
                assert(a[k] == x);
                assert(a.contains(x));
                assert(b.contains(x));
                let m = choose|m: int| 0 <= m < b.len() && b[m] == x;
                if m == b.len() - 1 {
                    assert((a[k] as u32) < (a[a.len() - 1] as u32));
                }
                assert(b2[m] == x);
            }
            if b2.contains(x) {
                let k = choose|k: int| 0 <= k < b2.len() && b2[k] == x;
                assert(b[k] == x);
                assert(b.contains(x));
                assert(a.contains(x));
                let m = choose|m: int| 0 <= m < a.len() && a[m] == x;
                if m == a.len() - 1 {
                    assert((b[k] as u32) < (b[b.len() - 1] as u32));
                }
                assert(a2[m] == x);
            }
        }
        lemma_increasing_unique(a2, b2);
        assert(a =~= a2.push(la));
        assert(b =~= b2.push(lb));
    }
}

} // verus!
