//! A deliberately slow computation, for exercising the solver with methods that take time.

use vstd::prelude::*;

verus! {

/// The Fibonacci numbers, with `fib(n) == n` for `n <= 1`.
pub open spec fn fib(n: int) -> int
    decreases n,
{
    if n <= 1 {
        n
    } else {
        fib(n - 1) + fib(n - 2)
    }
}

/// Fibonacci numbers of non-negative arguments are non-negative and grow with the argument.
pub proof fn lemma_fib_grows(n: int)
    requires
        n >= 1,
    ensures
        fib(n - 1) >= 0,
        fib(n) >= fib(n - 1),
    decreases n,
{
    if n > 1 {
        lemma_fib_grows(n - 1);
    }
}

/// Computes the Fibonacci number of `n` by naive recursion.
pub fn slow_fib(n: i32) -> (r: i32)
    requires
        fib(n as int) <= i32::MAX,
    ensures
        r == fib(n as int),
    decreases n,
{
    if n <= 1 {
        n
    } else {
        proof {
            lemma_fib_grows(n as int);
            lemma_fib_grows(n - 1);
        }
        slow_fib(n - 1) + slow_fib(n - 2)
    }
}

} // verus!
