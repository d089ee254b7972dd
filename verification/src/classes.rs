//! The line break class of every code point, as runs of equal classes.

use vstd::prelude::*;

verus! {

/// One past the largest code point.
pub const SCALARS: u32 = 0x11_0000;

/// The number of the class Unknown, the last of the 43 classes.
pub const UNKNOWN_CLASS: u8 = 42;

/// The number (declaration order) of the line break class that
/// unicode-linebreak gives code point `cp`.
pub uninterp spec fn break_class_of(cp: u32) -> u8;

/// The number of the line break class of `cp`.
///
/// Trusted: `unicode_linebreak::break_property`, converted to the number of
/// the class, its position in the declaration of `BreakClass` (the enum is
/// `repr(u8)` with implicit discriminants). The result is named, and it is
/// below 43, since the enum has 43 variants.
#[verifier::external_body]
pub(crate) fn break_class(cp: u32) -> (v: u8)
    ensures
        v == break_class_of(cp),
        v < 43,
{
    unicode_linebreak::break_property(cp) as u8
}

/// The number of the class Unknown.
///
/// Trusted: `unicode_linebreak::BreakClass::Unknown` as a number; it is the
/// last of 43 variants in the declaration, so 42.
#[verifier::external_body]
fn unknown_class() -> (v: u8)
    ensures
        v == UNKNOWN_CLASS,
{
    unicode_linebreak::BreakClass::Unknown as u8
}

/// A run `(lo, hi, class)`: the code points `lo ..= hi`, which all have
/// class number `class`.
pub type Run = (u32, u32, u8);

/// `runs` after looking at code point `cp` of class `v`: Unknown is left
/// out; a class equal to that of the last run, right after it, extends that
/// run; anything else starts a run of its own.
pub open spec fn runs_step(runs: Seq<Run>, cp: u32, v: u8) -> Seq<Run> {
    if v == UNKNOWN_CLASS {
        runs
    } else if runs.len() > 0 && runs.last().2 == v && runs.last().1 + 1 == cp {
        runs.update(runs.len() - 1, (runs.last().0, cp, v))
    } else {
        runs.push((cp, cp, v))
    }
}

/// The runs of the code points below `n`.
pub open spec fn runs_below(n: nat) -> Seq<Run>
    decreases n,
{
    if n == 0 {
        Seq::empty()
    } else {
        let cp = (n - 1) as u32;
        runs_step(runs_below((n - 1) as nat), cp, break_class_of(cp))
    }
}

/// The class that `runs` list for `cp`: that of the last run holding it, or
/// Unknown where none does.
pub open spec fn listed_class(runs: Seq<Run>, cp: u32) -> u8
    decreases runs.len(),
{
    if runs.len() == 0 {
        UNKNOWN_CLASS
    } else if runs.last().0 <= cp <= runs.last().1 {
        runs.last().2
    } else {
        listed_class(runs.drop_last(), cp)
    }
}

/// The runs of the code points below `n` are well formed: each is a
/// nonempty range below `n` of a class other than Unknown, which every code
/// point in it has; they come in increasing order without overlap; and two
/// runs that touch have different classes, so each run is as long as it can
/// be.
pub open spec fn runs_well_formed(runs: Seq<Run>, n: nat) -> bool {
    &&& forall|i: int| 0 <= i < runs.len() ==> {
        &&& #[trigger] runs[i].0 <= runs[i].1
        &&& runs[i].1 < n
        &&& runs[i].2 != UNKNOWN_CLASS
    }
    &&& forall|i: int, cp: u32|
        #![trigger runs[i], break_class_of(cp)]
        0 <= i < runs.len() && runs[i].0 <= cp <= runs[i].1 ==> break_class_of(cp) == runs[i].2
    &&& forall|i: int, j: int|
        #![trigger runs[i], runs[j]]
        0 <= i < j < runs.len() ==> runs[i].1 < runs[j].0
    &&& forall|i: int|
        #![trigger runs[i]]
        0 <= i < runs.len() - 1 && runs[i].1 + 1 == runs[i + 1].0 ==> runs[i].2 != runs[i + 1].2
}

/// No run that ends below `n` holds `cp >= n`.
proof fn lemma_listed_beyond(runs: Seq<Run>, n: nat, cp: u32)
    requires
        forall|i: int| 0 <= i < runs.len() ==> #[trigger] runs[i].1 < n,
        cp >= n,
    ensures
        listed_class(runs, cp) == UNKNOWN_CLASS,
    decreases runs.len(),
{
    if runs.len() > 0 {
        let r = runs.drop_last();
        assert forall|i: int| 0 <= i < r.len() implies #[trigger] r[i].1 < n by {
            assert(r[i] == runs[i]);
        }
        assert(runs.last() == runs[runs.len() - 1]);
        lemma_listed_beyond(r, n, cp);
    }
}

/// Laws of the runs: for every `n` up to the number of code points, the runs
/// of the code points below `n` are well formed, and they list for each
/// such code point exactly the class that unicode-linebreak gives it (Unknown
/// for those that no run holds).
pub proof fn lemma_runs_describe_classes(n: nat)
    requires
        n <= SCALARS,
    ensures
        runs_well_formed(runs_below(n), n),
        forall|cp: u32| cp < n ==> #[trigger] listed_class(runs_below(n), cp) == break_class_of(cp),
    decreases n,
{
    if n > 0 {
        let m = (n - 1) as nat;
        let cp = m as u32;
        let v = break_class_of(cp);
        let r = runs_below(m);
        lemma_runs_describe_classes(m);
        assert(runs_below(n) == runs_step(r, cp, v));
        let r2 = runs_below(n);
        assert forall|i: int| 0 <= i < r.len() implies #[trigger] r[i].1 < m by {}
        if v == UNKNOWN_CLASS {
            assert(r2 == r);
            assert forall|c: u32| c < n implies #[trigger] listed_class(r2, c) == break_class_of(c) by {
                if c == cp {
                    lemma_listed_beyond(r, m, c);
                }
            }
        } else if r.len() > 0 && r.last().2 == v && r.last().1 + 1 == cp {
            let k = r.len() - 1;
            assert(r.last() == r[k]);
            assert(r2 == r.update(k, (r[k].0, cp, v)));
            assert(r2.drop_last() =~= r.drop_last());
            assert forall|c: u32| c < n implies #[trigger] listed_class(r2, c) == break_class_of(c) by {
                assert(r2.last() == r2[k]);
                if c < cp {
                    assert(listed_class(r, c) == break_class_of(c));
                }
            }
            assert forall|i: int, c: u32|
                #![trigger r2[i], break_class_of(c)]
                0 <= i < r2.len() && r2[i].0 <= c <= r2[i].1 implies break_class_of(c) == r2[i].2 by {
                if i == k && c < cp {
                    assert(r[k].0 <= c <= r[k].1);
                }
                if i < k {
                    assert(r2[i] == r[i]);
                }
            }
            assert forall|i: int, j: int|
                #![trigger r2[i], r2[j]]
                0 <= i < j < r2.len() implies r2[i].1 < r2[j].0 by {
                assert(r[i].1 < r[j].0);
            }
            assert forall|i: int|
                #![trigger r2[i]]
                0 <= i < r2.len() - 1 && r2[i].1 + 1 == r2[i + 1].0 implies r2[i].2 != r2[i + 1].2 by {
                assert(r2[i] == r[i]);
                assert(r2[i + 1].0 == r[i + 1].0);
                assert(r2[i + 1].2 == r[i + 1].2);
            }
        } else {
            assert(r2 == r.push((cp, cp, v)));
            assert(r2.drop_last() =~= r);
            assert forall|c: u32| c < n implies #[trigger] listed_class(r2, c) == break_class_of(c) by {
                assert(r2.last() == (cp, cp, v));
                if c < cp {
                    assert(listed_class(r, c) == break_class_of(c));
                    assert(listed_class(r2, c) == listed_class(r2.drop_last(), c));
                }
            }
            assert forall|i: int, c: u32|
                #![trigger r2[i], break_class_of(c)]
                0 <= i < r2.len() && r2[i].0 <= c <= r2[i].1 implies break_class_of(c) == r2[i].2 by {
                if i < r.len() {
                    assert(r2[i] == r[i]);
                }
            }
            assert forall|i: int, j: int|
                #![trigger r2[i], r2[j]]
                0 <= i < j < r2.len() implies r2[i].1 < r2[j].0 by {
                assert(r2[i] == r[i]);
                if j < r.len() {
                    assert(r2[j] == r[j]);
                }
            }
            assert forall|i: int|
                #![trigger r2[i]]
                0 <= i < r2.len() - 1 && r2[i].1 + 1 == r2[i + 1].0 implies r2[i].2 != r2[i + 1].2 by {
                assert(r2[i] == r[i]);
                if i + 1 < r.len() {
                    assert(r2[i + 1] == r[i + 1]);
                } else {
                    assert(r.last() == r[i]);
                }
            }
        }
    }
}

/// Adds code point `cp` of class `v` to the runs built so far.
pub fn extend_runs(runs: &mut Vec<Run>, cp: u32, v: u8)
    requires
        v != UNKNOWN_CLASS && old(runs)@.len() > 0 && old(runs)@.last().2 == v
            ==> old(runs)@.last().1 < u32::MAX,
    ensures
        final(runs)@ == runs_step(old(runs)@, cp, v),
{
    if v == unknown_class() {
        return;
    }
    let n = runs.len();
    if n > 0 {
        let (lo, hi, lv) = runs[n - 1];
        if lv == v && hi + 1 == cp {
            runs.set(n - 1, (lo, cp, v));
            return;
        }
    }
    runs.push((cp, cp, v));
}

/// The runs of equal class among all code points, surrogates included, in
/// increasing order; code points of class Unknown are left out.
pub fn class_runs() -> (runs: Vec<Run>)
    ensures
        runs@ == runs_below(SCALARS as nat),
        runs_well_formed(runs@, SCALARS as nat),
        forall|cp: u32| cp < SCALARS ==> #[trigger] listed_class(runs@, cp) == break_class_of(cp),
        forall|i: int| 0 <= i < runs@.len() ==> #[trigger] runs@[i].2 < 43,
{
    let mut out: Vec<Run> = Vec::new();
    let mut cp: u32 = 0;
    while cp < SCALARS
        invariant
            cp <= SCALARS,
            out@ == runs_below(cp as nat),
            forall|i: int| 0 <= i < out@.len() ==> #[trigger] out@[i].2 < 43,
        decreases SCALARS - cp,
    {
        proof {
            lemma_runs_describe_classes(cp as nat);
            if out@.len() > 0 {
                assert(out@.last() == out@[out@.len() - 1]);
            }
        }
        let v = break_class(cp);
        let ghost before = out@;
        extend_runs(&mut out, cp, v);
        assert forall|i: int| 0 <= i < out@.len() implies #[trigger] out@[i].2 < 43 by {
            if i < before.len() && !(v != UNKNOWN_CLASS && before.len() > 0 && i == before.len() - 1) {
                assert(out@[i] == before[i]);
            }
        }
        cp = cp + 1;
    }
    proof {
        lemma_runs_describe_classes(SCALARS as nat);
    }
    out
}

} // verus!
