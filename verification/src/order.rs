//! Text in the order of its UTF-8 bytes (the order of `String`), and sorted
//! collections of texts without repeats.

use vstd::prelude::*;
use vstd::string::StringSliceAdditionalSpecFns;
use vstd::utf8::encode_utf8;

verus! {

/// Lexicographic order of byte strings: a proper prefix comes first.
pub open spec fn bytes_lt(a: Seq<u8>, b: Seq<u8>) -> bool
    decreases a.len(),
{
    if a.len() == 0 {
        b.len() > 0
    } else if b.len() == 0 {
        false
    } else if a[0] != b[0] {
        a[0] < b[0]
    } else {
        bytes_lt(a.drop_first(), b.drop_first())
    }
}

/// No byte string comes before itself.
pub proof fn lemma_bytes_lt_irreflexive(a: Seq<u8>)
    ensures
        !bytes_lt(a, a),
    decreases a.len(),
{
    if a.len() > 0 {
        lemma_bytes_lt_irreflexive(a.drop_first());
    }
}

/// The order of byte strings is transitive.
pub proof fn lemma_bytes_lt_transitive(a: Seq<u8>, b: Seq<u8>, c: Seq<u8>)
    requires
        bytes_lt(a, b),
        bytes_lt(b, c),
    ensures
        bytes_lt(a, c),
    decreases a.len(),
{
    if a.len() > 0 && b.len() > 0 && c.len() > 0 && a[0] == b[0] && b[0] == c[0] {
        lemma_bytes_lt_transitive(a.drop_first(), b.drop_first(), c.drop_first());
    }
}

/// Of two different byte strings, one comes first.
pub proof fn lemma_bytes_lt_total(a: Seq<u8>, b: Seq<u8>)
    ensures
        a == b || bytes_lt(a, b) || bytes_lt(b, a),
    decreases a.len(),
{
    if a.len() > 0 && b.len() > 0 && a[0] == b[0] {
        lemma_bytes_lt_total(a.drop_first(), b.drop_first());
        if a.drop_first() == b.drop_first() {
            assert(a =~= seq![a[0]] + a.drop_first());
            assert(b =~= seq![b[0]] + b.drop_first());
        }
    } else if a.len() == 0 && b.len() == 0 {
        assert(a =~= b);
    }
}

/// A common prefix keeps the order of two byte strings.
pub proof fn lemma_bytes_lt_prefix(p: Seq<u8>, a: Seq<u8>, b: Seq<u8>)
    requires
        bytes_lt(a, b),
    ensures
        bytes_lt(p + a, p + b),
    decreases p.len(),
{
    if p.len() > 0 {
        lemma_bytes_lt_prefix(p.drop_first(), a, b);
        assert((p + a).drop_first() =~= p.drop_first() + a);
        assert((p + b).drop_first() =~= p.drop_first() + b);
    } else {
        assert(p + a =~= a);
        assert(p + b =~= b);
    }
}

/// Of two byte strings of one length, whatever follows each keeps their
/// order.
pub proof fn lemma_bytes_lt_extend(a: Seq<u8>, b: Seq<u8>, x: Seq<u8>, y: Seq<u8>)
    requires
        bytes_lt(a, b),
        a.len() == b.len(),
    ensures
        bytes_lt(a + x, b + y),
    decreases a.len(),
{
    if a.len() > 0 && a[0] == b[0] {
        lemma_bytes_lt_extend(a.drop_first(), b.drop_first(), x, y);
        assert((a + x).drop_first() =~= a.drop_first() + x);
        assert((b + y).drop_first() =~= b.drop_first() + y);
    }
}

/// The UTF-8 bytes of two texts one after the other are the bytes of the
/// first, then those of the second.
pub proof fn lemma_encode_utf8_concat(s: Seq<char>, t: Seq<char>)
    ensures
        encode_utf8(s + t) == encode_utf8(s) + encode_utf8(t),
    decreases s.len(),
{
    if s.len() == 0 {
        assert(s + t =~= t);
        assert(encode_utf8(s) + encode_utf8(t) =~= encode_utf8(t));
    } else {
        lemma_encode_utf8_concat(s.drop_first(), t);
        assert((s + t).drop_first() =~= s.drop_first() + t);
        assert((s + t)[0] == s[0]);
        let e = vstd::utf8::encode_scalar(s[0] as u32);
        assert(e + (encode_utf8(s.drop_first()) + encode_utf8(t)) =~= (e + encode_utf8(
            s.drop_first(),
        )) + encode_utf8(t));
    }
}

/// Whether `a` comes before `b`: by the UTF-8 bytes of each, which is the
/// order that `String` compares by.
pub open spec fn text_lt(a: Seq<char>, b: Seq<char>) -> bool {
    bytes_lt(encode_utf8(a), encode_utf8(b))
}

/// Texts in strictly increasing order (so each at most once).
pub open spec fn sorted_texts(v: Seq<Seq<char>>) -> bool {
    forall|i: int, j: int| 0 <= i < j < v.len() ==> text_lt(#[trigger] v[i], #[trigger] v[j])
}

/// The texts that a vector of strings holds.
pub open spec fn texts(v: Seq<String>) -> Seq<Seq<char>> {
    v.map_values(|s: String| s@)
}

/// Whether `a` comes before `b` in byte order.
pub fn bytes_less(a: &[u8], b: &[u8]) -> (r: bool)
    ensures
        r == bytes_lt(a@, b@),
{
    let mut i: usize = 0;
    assert(a@.skip(0) =~= a@);
    assert(b@.skip(0) =~= b@);
    loop
        invariant
            i <= a@.len(),
            i <= b@.len(),
            bytes_lt(a@, b@) == bytes_lt(a@.skip(i as int), b@.skip(i as int)),
        decreases a@.len() - i,
    {
        if i == a.len() {
            return i < b.len();
        }
        if i == b.len() {
            return false;
        }
        if a[i] != b[i] {
            return a[i] < b[i];
        }
        assert(a@.skip(i as int).drop_first() =~= a@.skip(i + 1int));
        assert(b@.skip(i as int).drop_first() =~= b@.skip(i + 1int));
        i = i + 1;
    }
}

/// Whether text `a` comes before text `b`.
pub fn text_less(a: &String, b: &String) -> (r: bool)
    ensures
        r == text_lt(a@, b@),
{
    bytes_less(a.as_str().as_bytes(), b.as_str().as_bytes())
}

/// Texts that are the same in bytes are the same.
proof fn lemma_same_bytes_same_text(a: Seq<char>, b: Seq<char>)
    requires
        encode_utf8(a) == encode_utf8(b),
    ensures
        a == b,
{
    vstd::utf8::encode_utf8_decode_utf8(a);
    vstd::utf8::encode_utf8_decode_utf8(b);
}

/// Adds `s` to a sorted `out`, unless a string of the same text is there.
pub fn insert_text(out: &mut Vec<String>, s: String)
    requires
        sorted_texts(texts(old(out)@)),
    ensures
        sorted_texts(texts(final(out)@)),
        forall|x: Seq<char>| #[trigger] texts(final(out)@).contains(x)
            <==> texts(old(out)@).contains(x) || x == s@,
{
    let n = out.len();
    let ghost before = texts(out@);
    assert(before.len() == n);
    let mut lo: usize = 0;
    let mut hi: usize = n;
    while lo < hi
        invariant
            n == out@.len(),
            before == texts(out@),
            sorted_texts(before),
            0 <= lo <= hi <= n,
            forall|k: int| 0 <= k < lo ==> text_lt(#[trigger] before[k], s@),
            forall|k: int| hi <= k < n ==> !text_lt(#[trigger] before[k], s@),
        decreases hi - lo,
    {
        let mid = lo + (hi - lo) / 2;
        assert(before[mid as int] == out@[mid as int]@);
        if text_less(&out[mid], &s) {
            assert forall|k: int| 0 <= k < mid + 1 implies text_lt(#[trigger] before[k], s@) by {
                if k < mid {
                    lemma_bytes_lt_transitive(
                        encode_utf8(before[k]),
                        encode_utf8(before[mid as int]),
                        encode_utf8(s@),
                    );
                }
            }
            lo = mid + 1;
        } else {
            assert forall|k: int| mid <= k < n implies !text_lt(#[trigger] before[k], s@) by {
                if mid < k && text_lt(before[k], s@) {
                    lemma_bytes_lt_transitive(
                        encode_utf8(before[mid as int]),
                        encode_utf8(before[k]),
                        encode_utf8(s@),
                    );
                }
            }
            hi = mid;
        }
    }
    if lo < n {
        assert(before[lo as int] == out@[lo as int]@);
        if !text_less(&s, &out[lo]) {
            proof {
                lemma_bytes_lt_total(encode_utf8(before[lo as int]), encode_utf8(s@));
                lemma_same_bytes_same_text(before[lo as int], s@);
                assert(before.contains(s@));
            }
            return;
        }
    }
    out.insert(lo, s);
    let ghost after = texts(out@);
    assert(after =~= before.subrange(0, lo as int).push(s@) + before.subrange(lo as int, n as int));
    assert forall|a: int, b: int| 0 <= a < b < after.len() implies text_lt(#[trigger] after[a], #[trigger] after[b]) by {
        if a < lo && b == lo {
        } else if a < lo && b > lo {
            assert(after[b] == before[b - 1]);
        } else if a == lo {
            assert(after[b] == before[b - 1]);
            if b - 1 > lo {
                lemma_bytes_lt_transitive(encode_utf8(s@), encode_utf8(before[lo as int]), encode_utf8(before[b - 1]));
            }
        } else if a > lo {
            assert(after[a] == before[a - 1]);
            assert(after[b] == before[b - 1]);
        }
    }
    assert forall|x: Seq<char>| #[trigger] after.contains(x) <==> before.contains(x) || x == s@ by {
        if after.contains(x) {
            let k = choose|k: int| 0 <= k < after.len() && after[k] == x;
            if k < lo {
                assert(before[k] == x);
            } else if k > lo {
                assert(before[k - 1] == x);
            }
        }
        if before.contains(x) {
            let k = choose|k: int| 0 <= k < before.len() && before[k] == x;
            if k < lo {
                assert(after[k] == x);
            } else {
                assert(after[k + 1] == x);
            }
        }
        if x == s@ {
            assert(after[lo as int] == x);
        }
    }
}

/// Two sorted sequences of texts that hold the same texts are the same:
/// sorting without repeats leaves nothing open.
pub proof fn lemma_sorted_texts_unique(a: Seq<Seq<char>>, b: Seq<Seq<char>>)
    requires
        sorted_texts(a),
        sorted_texts(b),
        forall|x: Seq<char>| #[trigger] a.contains(x) <==> b.contains(x),
    ensures
        a == b,
    decreases a.len(),
{
    if a.len() == 0 {
        if b.len() > 0 {
            assert(b.contains(b[0]));
            assert(a.contains(b[0]));
        }
        assert(a =~= b);
    } else if b.len() == 0 {
        assert(a.contains(a[0]));
        assert(b.contains(a[0]));
    } else {
        // The last text of each is the largest in both.
        let la = a.last();
        let lb = b.last();
        assert(a[a.len() - 1] == la);
        assert(b[b.len() - 1] == lb);
        assert(a.contains(la));
        assert(b.contains(la));
        assert(b.contains(lb));
        assert(a.contains(lb));
        let i = choose|i: int| 0 <= i < b.len() && b[i] == la;
        let j = choose|j: int| 0 <= j < a.len() && a[j] == lb;
        if la != lb {
            assert(i < b.len() - 1);
            assert(j < a.len() - 1);
            assert(text_lt(b[i], b[b.len() - 1]));
            assert(text_lt(a[j], a[a.len() - 1]));
            lemma_bytes_lt_transitive(encode_utf8(la), encode_utf8(lb), encode_utf8(la));
            lemma_bytes_lt_irreflexive(encode_utf8(la));
        }
        let a2 = a.drop_last();
        let b2 = b.drop_last();
        assert forall|x: Seq<char>| #[trigger] a2.contains(x) <==> b2.contains(x) by {
            if a2.contains(x) {
                let k = choose|k: int| 0 <= k < a2.len() && a2[k] == x;
                assert(a[k] == x);
                assert(a.contains(x));
                assert(b.contains(x));
                let m = choose|m: int| 0 <= m < b.len() && b[m] == x;
                if m == b.len() - 1 {
                    assert(a[k] == la);
                    assert(text_lt(a[k], a[a.len() - 1]));
                    lemma_bytes_lt_irreflexive(encode_utf8(la));
                }
                assert(b2[m] == x);
            }
            if b2.contains(x) {
                let k = choose|k: int| 0 <= k < b2.len() && b2[k] == x;
                assert(b[k] == x);
                assert(b.contains(x));
                assert(a.contains(x));
                let m = choose|m: int| 0 <= m < a.len() && a[m] == x;
                if m == a.len() - 1 {
                    assert(b[k] == lb);
                    assert(text_lt(b[k], b[b.len() - 1]));
                    lemma_bytes_lt_irreflexive(encode_utf8(lb));
                }
                assert(a2[m] == x);
            }
        }
        lemma_sorted_texts_unique(a2, b2);
        assert(a =~= a2.push(la));
        assert(b =~= b2.push(lb));
    }
}

} // verus!
