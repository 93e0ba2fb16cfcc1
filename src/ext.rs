//! Small value helpers: choosing by a flag, resetting to the default,
//! reading a duration such as `250ms`, and moving matching items out of a
//! vector.

use vstd::prelude::*;
use vstd::string::StringSliceAdditionalSpecFns;

verus! {

/// `te` when `b` holds, else `fe`.
pub fn pick<O>(b: bool, te: O, fe: O) -> (r: O)
    ensures
        r == if b { te } else { fe },
{
    if b {
        te
    } else {
        fe
    }
}

/// Puts the type's default value in place of `a`.
pub fn bzero<A: Default>(a: &mut A)
    ensures
        call_ensures(A::default, (), *final(a)),
{
    *a = A::default();
}

/// Consumes a value and drops it.
pub fn void<B>(b: B) {
}

pub open spec fn is_digit(c: u8) -> bool {
    48 <= c <= 57
}

/// The number that a run of decimal digits spells.
pub open spec fn digits_value(d: Seq<u8>) -> nat
    decreases d.len(),
{
    if d.len() == 0 {
        0
    } else {
        digits_value(d.drop_last()) * 10 + (d.last() - 48) as nat
    }
}

/// Index of the first byte at or after `i` that is not a digit, or the length.
pub open spec fn digit_end(b: Seq<u8>, i: nat) -> nat
    decreases b.len() - i,
{
    if i < b.len() && is_digit(b[i as int]) {
        digit_end(b, i + 1)
    } else {
        i
    }
}

/// Nanoseconds in one of the units `ns`, `us`, `ms`, `s`, `m`.
pub open spec fn unit_nanos(u: Seq<u8>) -> Option<nat> {
    if u == seq![110u8, 115u8] {
        Some(1)
    } else if u == seq![117u8, 115u8] {
        Some(1_000)
    } else if u == seq![109u8, 115u8] {
        Some(1_000_000)
    } else if u == seq![115u8] {
        Some(1_000_000_000)
    } else if u == seq![109u8] {
        Some(60_000_000_000)
    } else {
        None
    }
}

/// The length, in nanoseconds, that a text of digits and a unit names: at
/// least one digit, a number that fits in `u64`, then exactly a unit.
pub open spec fn duration_nanos(b: Seq<u8>) -> Option<nat> {
    let k = digit_end(b, 0);
    let num = digits_value(b.subrange(0, k as int));
    if 0 < k && num <= u64::MAX && unit_nanos(b.subrange(k as int, b.len() as int)) is Some {
        Some(num * unit_nanos(b.subrange(k as int, b.len() as int))->0)
    } else {
        None
    }
}

proof fn lemma_digit_end(b: Seq<u8>, i: nat)
    requires
        i <= b.len(),
    ensures
        i <= digit_end(b, i) <= b.len(),
        forall|j: int| i <= j < digit_end(b, i) ==> is_digit(#[trigger] b[j]),
        digit_end(b, i) < b.len() ==> !is_digit(b[digit_end(b, i) as int]),
    decreases b.len() - i,
{
    if i < b.len() && is_digit(b[i as int]) {
        lemma_digit_end(b, i + 1);
    }
}

/// A longer run of digits never spells a smaller number.
proof fn lemma_digits_grow(b: Seq<u8>, i: int, k: int)
    requires
        0 <= i <= k <= b.len(),
        forall|j: int| 0 <= j < k ==> is_digit(#[trigger] b[j]),
    ensures
        digits_value(b.subrange(0, i)) <= digits_value(b.subrange(0, k)),
    decreases k - i,
{
    if i < k {
        lemma_digits_grow(b, i, k - 1);
        assert(b.subrange(0, k).drop_last() =~= b.subrange(0, k - 1));
    }
}

proof fn lemma_unit_spellings()
    ensures
        seq![110u8, 115u8].len() == 2 && seq![110u8, 115u8][0] == 110u8 && seq![110u8, 115u8][1] == 115u8,
        seq![117u8, 115u8].len() == 2 && seq![117u8, 115u8][0] == 117u8 && seq![117u8, 115u8][1] == 115u8,
        seq![109u8, 115u8].len() == 2 && seq![109u8, 115u8][0] == 109u8 && seq![109u8, 115u8][1] == 115u8,
        seq![115u8].len() == 1 && seq![115u8][0] == 115u8,
        seq![109u8].len() == 1 && seq![109u8][0] == 109u8,
{
}

fn unit_of(b: &[u8], k: usize) -> (r: Option<u64>)
    requires
        k <= b@.len(),
    ensures
        r matches Some(n) ==> unit_nanos(b@.subrange(k as int, b@.len() as int)) == Some(n as nat),
        r is None ==> unit_nanos(b@.subrange(k as int, b@.len() as int)) is None,
        r matches Some(n) ==> 1 <= n <= 60_000_000_000,
{
    let u = Ghost(b@.subrange(k as int, b@.len() as int));
    proof {
        lemma_unit_spellings();
    }
    let n = b.len() - k;
    if n == 2 {
        let (c0, c1) = (b[k], b[k + 1]);
        proof {
            assert(u@ =~= seq![c0, c1]);
        }
        if c1 == 115u8 {
            if c0 == 110u8 {
                return Some(1);
            } else if c0 == 117u8 {
                return Some(1_000);
            } else if c0 == 109u8 {
                return Some(1_000_000);
            }
        }
        None
    } else if n == 1 {
        let c0 = b[k];
        proof {
            assert(u@ =~= seq![c0]);
        }
        if c0 == 115u8 {
            Some(1_000_000_000)
        } else if c0 == 109u8 {
            Some(60_000_000_000)
        } else {
            None
        }
    } else {
        proof {
            assert(u@.len() != 1 && u@.len() != 2);
            assert(u@ != seq![110u8, 115u8]);
            assert(u@ != seq![115u8]);
        }
        None
    }
}

/// Reads a duration written as a decimal number followed by a unit (`ns`,
/// `us`, `ms`, `s` or `m`), in nanoseconds. `None` for any other text.
pub fn try_to_dur(s: &str) -> (r: Option<u128>)
    ensures
        r matches Some(n) ==> duration_nanos(s.spec_bytes()) == Some(n as nat),
        r is None ==> duration_nanos(s.spec_bytes()) is None,
{
    let b = s.as_bytes();
    let ghost bs = b@;
    proof {
        lemma_digit_end(bs, 0);
    }
    let ghost k = digit_end(bs, 0);
    let mut i: usize = 0;
    let mut num: u64 = 0;
    while i < b.len() && b[i] >= 48u8 && b[i] <= 57u8
        invariant
            bs == b@,
            bs == s.spec_bytes(),
            k == digit_end(bs, 0),
            k <= bs.len(),
            forall|j: int| 0 <= j < k ==> is_digit(#[trigger] bs[j]),
            k < bs.len() ==> !is_digit(bs[k as int]),
            i <= k,
            num as nat == digits_value(bs.subrange(0, i as int)),
        decreases bs.len() - i,
    {
        let d = (b[i] - 48u8) as u64;
        proof {
            if i == k {
                assert(!is_digit(bs[i as int]));
            }
            assert(i < k);
            assert(bs.subrange(0, i as int + 1).drop_last() =~= bs.subrange(0, i as int));
            assert(bs.subrange(0, i as int + 1).last() == bs[i as int]);
            assert(digits_value(bs.subrange(0, i as int + 1)) == num * 10 + d);
        }
        if num > (u64::MAX - d) / 10 {
            proof {
                assert(digits_value(bs.subrange(0, i as int + 1)) > u64::MAX) by (nonlinear_arith)
                    requires
                        num > (u64::MAX - d) / 10,
                        digits_value(bs.subrange(0, i as int + 1)) == num * 10 + d,
                        d <= 9,
                ;
                lemma_digits_grow(bs, i as int + 1, k as int);
            }
            return None;
        }
        num = num * 10 + d;
        i = i + 1;
    }
    proof {
        if i < k {
            assert(is_digit(bs[i as int]));
        }
        assert(i == k);
    }
    if i == 0 {
        return None;
    }
    match unit_of(b, i) {
        Some(scale) => {
            proof {
                assert((num as u128) * (scale as u128) <= u64::MAX as nat * 60_000_000_000) by (nonlinear_arith)
                    requires
                        num <= u64::MAX,
                        scale <= 60_000_000_000u64,
                ;
            }
            let n = (num as u128) * (scale as u128);
            Some(n)
        },
        None => None,
    }
}

/// The nanoseconds that a well-formed duration text names (see
/// `try_to_dur`); other text is outside its domain.
pub fn to_dur(s: &str) -> (r: u128)
    requires
        duration_nanos(s.spec_bytes()) is Some,
    ensures
        r as nat == duration_nanos(s.spec_bytes())->0,
{
    match try_to_dur(s) {
        Some(n) => n,
        None => 0,
    }
}

/// The items of `s` whose flag in `keep` equals `want`, in order.
pub open spec fn select<T>(s: Seq<T>, keep: Seq<bool>, want: bool) -> Seq<T>
    recommends
        s.len() == keep.len(),
    decreases s.len(),
{
    if s.len() == 0 || keep.len() == 0 {
        Seq::empty()
    } else {
        let init = select(s.drop_last(), keep.drop_last(), want);
        if keep.last() == want {
            init.push(s.last())
        } else {
            init
        }
    }
}

/// Moves the items for which `predicate` holds out of `v`, in order, and
/// returns them; the others stay in `v`, in order. `flags` records what
/// `predicate` said of each item.
pub fn remove_if<T, F: Fn(&T) -> bool>(v: &mut Vec<T>, predicate: F) -> (r: Vec<T>)
    requires
        forall|x: &T| #[trigger] predicate.requires((x,)),
    ensures
        exists|flags: Seq<bool>|
            {
                &&& flags.len() == old(v)@.len()
                &&& forall|i: int|
                    0 <= i < flags.len() ==> #[trigger] predicate.ensures((&old(v)@[i],), flags[i])
                &&& r@ == select(old(v)@, flags, true)
                &&& final(v)@ == select(old(v)@, flags, false)
            },
{
    let ghost orig = v@;
    let ghost mut flags: Seq<bool> = Seq::empty();
    let mut r: Vec<T> = Vec::new();
    let mut i: usize = 0;
    while i < v.len()
        invariant
            forall|x: &T| #[trigger] predicate.requires((x,)),
            flags.len() <= orig.len(),
            forall|j: int|
                0 <= j < flags.len() ==> #[trigger] predicate.ensures((&orig[j],), flags[j]),
            r@ == select(orig.subrange(0, flags.len() as int), flags, true),
            i == select(orig.subrange(0, flags.len() as int), flags, false).len(),
            v@ == select(orig.subrange(0, flags.len() as int), flags, false) + orig.subrange(
                flags.len() as int,
                orig.len() as int,
            ),
        decreases v@.len() - i,
    {
        let ghost p = flags.len() as int;
        let ghost kept = select(orig.subrange(0, p), flags, false);
        let ghost took = select(orig.subrange(0, p), flags, true);
        proof {
            assert(v@[i as int] == orig[p]);
            assert(orig.subrange(0, p + 1).drop_last() =~= orig.subrange(0, p));
            assert(orig.subrange(0, p + 1).last() == orig[p]);
        }
        let hit = predicate(&v[i]);
        proof {
            let old_flags = flags;
            flags = flags.push(hit);
            assert(flags.drop_last() =~= old_flags);
            assert(select(orig.subrange(0, p + 1), flags, true) == if hit { took.push(orig[p]) } else { took });
            assert(select(orig.subrange(0, p + 1), flags, false) == if hit { kept } else { kept.push(orig[p]) });
        }
        if hit {
            let x = v.remove(i);
            r.push(x);
            proof {
                assert(v@ =~= kept + orig.subrange(p + 1, orig.len() as int));
            }
        } else {
            i = i + 1;
            proof {
                assert(v@ =~= kept.push(orig[p]) + orig.subrange(p + 1, orig.len() as int));
            }
        }
    }
    proof {
        assert(orig.subrange(0, flags.len() as int) =~= orig);
    }
    r
}

} // verus!
