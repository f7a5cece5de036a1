//! Small arithmetic: a greeting, a parallel sum and Fibonacci numbers.

use rayon::iter::{IntoParallelRefIterator, ParallelIterator};
use vstd::arithmetic::power2::{lemma2_to64, lemma_pow2_strictly_increases, lemma_pow2_unfold, pow2};
use vstd::prelude::*;
use vstd::string::StringExecFns;
use crate::error::InvalidInput;

verus! {

/// The largest index for which `fibonacci` answers.
pub const FIBONACCI_LIMIT: u64 = 50;

/// The Fibonacci numbers: 0, 1, and from then on the sum of the two before.
pub open spec fn fib(n: nat) -> nat
    decreases n,
{
    if n <= 1 {
        n
    } else {
        fib((n - 1) as nat) + fib((n - 2) as nat)
    }
}

/// The sum of the numbers.
pub open spec fn total(s: Seq<i64>) -> int
    decreases s.len(),
{
    if s.len() == 0 {
        0
    } else {
        total(s.drop_last()) + s.last()
    }
}

/// The sum of those of the numbers that are above zero.
pub open spec fn positive_total(s: Seq<i64>) -> int
    decreases s.len(),
{
    if s.len() == 0 {
        0
    } else {
        positive_total(s.drop_last()) + if s.last() > 0 {
            s.last() as int
        } else {
            0
        }
    }
}

/// The sum of those of the numbers that are below zero.
pub open spec fn negative_total(s: Seq<i64>) -> int
    decreases s.len(),
{
    if s.len() == 0 {
        0
    } else {
        negative_total(s.drop_last()) + if s.last() < 0 {
            s.last() as int
        } else {
            0
        }
    }
}

/// No sum of some of the numbers leaves the range of `i64`: the numbers
/// above zero add up to no more than `i64::MAX`, and those below zero to no
/// less than `i64::MIN`.
pub open spec fn sums_fit(s: Seq<i64>) -> bool {
    positive_total(s) <= i64::MAX && negative_total(s) >= i64::MIN
}

/// The Fibonacci numbers grow no faster than the powers of two.
pub proof fn lemma_fib_below_pow2(n: nat)
    ensures
        fib(n) < pow2(n),
    decreases n,
{
    if n <= 1 {
        lemma2_to64();
    } else {
        lemma_fib_below_pow2((n - 1) as nat);
        lemma_fib_below_pow2((n - 2) as nat);
        lemma_pow2_unfold(n);
        lemma_pow2_unfold((n - 1) as nat);
    }
}

/// The three sums of two lists, one written after the other, are the sums
/// of the first list plus those of the second.
pub proof fn lemma_totals_of_concat(a: Seq<i64>, b: Seq<i64>)
    ensures
        total(a + b) == total(a) + total(b),
        positive_total(a + b) == positive_total(a) + positive_total(b),
        negative_total(a + b) == negative_total(a) + negative_total(b),
    decreases b.len(),
{
    if b.len() == 0 {
        assert(a + b =~= a);
    } else {
        assert((a + b).drop_last() =~= a + b.drop_last());
        lemma_totals_of_concat(a, b.drop_last());
    }
}

/// The sum of the numbers lies between the sum of those below zero, which
/// is not above zero, and the sum of those above zero, which is not below
/// zero.
pub proof fn lemma_total_between(s: Seq<i64>)
    ensures
        negative_total(s) <= 0 <= positive_total(s),
        negative_total(s) <= total(s) <= positive_total(s),
        total(s) == negative_total(s) + positive_total(s),
    decreases s.len(),
{
    if s.len() > 0 {
        lemma_total_between(s.drop_last());
    }
}

/// The sum of any run of the numbers lies between the sum of all those
/// below zero and the sum of all those above zero; where `sums_fit`, it
/// fits in `i64`.
pub proof fn lemma_part_sum_between(s: Seq<i64>, lo: int, hi: int)
    requires
        0 <= lo <= hi <= s.len(),
    ensures
        negative_total(s) <= negative_total(s.subrange(lo, hi)) <= total(s.subrange(lo, hi)),
        total(s.subrange(lo, hi)) <= positive_total(s.subrange(lo, hi)) <= positive_total(s),
{
    let front = s.take(lo);
    let part = s.subrange(lo, hi);
    let back = s.skip(hi);
    assert(front + part + back =~= s);
    lemma_totals_of_concat(front, part);
    lemma_totals_of_concat(front + part, back);
    lemma_total_between(front);
    lemma_total_between(part);
    lemma_total_between(back);
}

/// The greeting of the library.
pub fn rust_hello() -> (greeting: String)
    ensures
        greeting@ == "Hello from DAEMON-ONE Rust Core! 🦀😈"@,
{
    String::from_str("Hello from DAEMON-ONE Rust Core! 🦀😈")
}

/// The Fibonacci number of index `n`, for `n` up to 50.
pub fn fibonacci(n: u64) -> (r: Result<u64, InvalidInput>)
    ensures
        n <= FIBONACCI_LIMIT ==> r == Ok::<u64, InvalidInput>(fib(n as nat) as u64),
        n <= FIBONACCI_LIMIT ==> fib(n as nat) <= u64::MAX,
        n > FIBONACCI_LIMIT ==> r == Err::<u64, InvalidInput>(InvalidInput::IndexTooLarge),
{
    if n > FIBONACCI_LIMIT {
        return Err(InvalidInput::IndexTooLarge);
    }
    let mut a: u64 = 0;
    let mut b: u64 = 1;
    let mut i: u64 = 0;
    while i < n
        invariant
            i <= n <= FIBONACCI_LIMIT,
            a == fib(i as nat),
            b == fib((i + 1) as nat),
        decreases n - i,
    {
        proof {
            lemma_fib_below_pow2((i + 2) as nat);
            lemma_pow2_strictly_increases((i + 2) as nat, 64);
            lemma2_to64();
        }
        let next = a + b;
        a = b;
        b = next;
        i += 1;
    }
    Ok(a)
}

/// `ParallelIterator::sum` of rayon, on the parallel iterator over the
/// numbers: adds them up in parts and adds the partial sums. Every sum that
/// it forms is the sum of some of the numbers, so it is no more than the sum
/// of those above zero and no less than the sum of those below zero, and
/// none overflows where these two fit in `i64`; the result is then the sum
/// of all the numbers.
#[verifier::external_body]
fn parallel_sum(numbers: &Vec<i64>) -> (sum: i64)
    requires
        positive_total(numbers@) <= i64::MAX,
        negative_total(numbers@) >= i64::MIN,
    ensures
        sum == total(numbers@),
{
    numbers.par_iter().sum()
}

/// Tells whether the numbers above zero add up to no more than `i64::MAX`
/// and those below zero to no less than `i64::MIN`.
pub fn sum_is_bounded(numbers: &Vec<i64>) -> (bounded: bool)
    ensures
        bounded == sums_fit(numbers@),
{
    let n = numbers.len();
    let mut above: i64 = 0;
    let mut below: i64 = 0;
    let mut i: usize = 0;
    while i < n
        invariant
            n == numbers.len(),
            i <= n,
            above == positive_total(numbers@.take(i as int)),
            below == negative_total(numbers@.take(i as int)),
            below <= 0 <= above,
        decreases n - i,
    {
        let x = numbers[i];
        proof {
            let next = numbers@.take(i as int + 1);
            assert(next.drop_last() =~= numbers@.take(i as int));
            assert(next.last() == x);
            assert(next + numbers@.skip(i as int + 1) =~= numbers@);
            lemma_totals_of_concat(next, numbers@.skip(i as int + 1));
            lemma_total_between(numbers@.skip(i as int + 1));
        }
        if x > 0 {
            if x > i64::MAX - above {
                return false;
            }
            above = above + x;
        } else if x < 0 {
            if x < i64::MIN - below {
                return false;
            }
            below = below + x;
        }
        i += 1;
    }
    proof {
        assert(numbers@.take(n as int) =~= numbers@);
    }
    true
}

/// The sum of the numbers, computed in parallel, where no sum of some of
/// them can overflow: the numbers above zero add up to no more than
/// `i64::MAX` and those below zero to no less than `i64::MIN`. `None`
/// otherwise.
pub fn fast_sum(numbers: &Vec<i64>) -> (sum: Option<i64>)
    ensures
        sum == if sums_fit(numbers@) {
            Some(total(numbers@) as i64)
        } else {
            None
        },
        sum is Some ==> i64::MIN <= total(numbers@) <= i64::MAX,
{
    proof {
        lemma_total_between(numbers@);
    }
    if sum_is_bounded(numbers) {
        Some(parallel_sum(numbers))
    } else {
        None
    }
}

} // verus!
