//! Read-only computations over a shared sequence of numbers.

use vstd::prelude::*;

verus! {

/// The sum of all elements of `s`.
pub open spec fn total(s: Seq<usize>) -> nat
    decreases s.len(),
{
    if s.len() == 0 {
        0
    } else {
        total(s.drop_last()) + s.last() as nat
    }
}

/// The sequence `lo, lo + 1, .., hi`; empty when `hi < lo`.
pub open spec fn span(lo: usize, hi: usize) -> Seq<usize> {
    Seq::new(
        if hi < lo { 0nat } else { (hi - lo + 1) as nat },
        |i: int| (lo + i) as usize,
    )
}

/// Extending a sequence by one element adds that element to its total.
pub proof fn lemma_total_push(s: Seq<usize>, x: usize)
    ensures
        total(s.push(x)) == total(s) + x,
{
    assert(s.push(x).drop_last() =~= s);
}

/// The total of a prefix never exceeds the total of the whole.
pub proof fn lemma_total_prefix(s: Seq<usize>, n: int)
    requires
        0 <= n <= s.len(),
    ensures
        total(s.take(n)) <= total(s),
    decreases s.len(),
{
    if n < s.len() {
        assert(s.drop_last().take(n) =~= s.take(n));
        lemma_total_prefix(s.drop_last(), n);
    } else {
        assert(s.take(n) =~= s);
    }
}

/// Twice the total of `0, 1, .., n` is `n * (n + 1)`.
pub proof fn lemma_total_span_from_zero(n: usize)
    ensures
        2 * total(span(0, n)) == n * (n + 1),
    decreases n,
{
    if n == 0 {
        assert(span(0, 0).drop_last() =~= Seq::<usize>::empty());
        assert(total(span(0, 0).drop_last()) == 0);
    } else {
        let m: usize = (n - 1) as usize;
        assert(span(0, n).drop_last() =~= span(0, m));
        lemma_total_span_from_zero(m);
        assert(2 * total(span(0, n)) == n * (n + 1)) by (nonlinear_arith)
            requires
                2 * total(span(0, m)) == m * (m + 1),
                m == n - 1,
                total(span(0, n)) == total(span(0, m)) + n,
        ;
    }
}

/// The numbers `lo..=hi` in ascending order.
pub fn range_inclusive(lo: usize, hi: usize) -> (numbers: Vec<usize>)
    ensures
        numbers@ == span(lo, hi),
{
    let mut numbers: Vec<usize> = Vec::new();
    if hi < lo {
        assert(numbers@ =~= span(lo, hi));
        return numbers;
    }
    let mut next: usize = lo;
    while next < hi
        invariant
            lo <= next <= hi,
            numbers@ == span(lo, next).drop_last(),
        decreases hi - next,
    {
        numbers.push(next);
        next = next + 1;
        assert(numbers@ =~= span(lo, next).drop_last());
    }
    numbers.push(hi);
    assert(numbers@ =~= span(lo, hi));
    numbers
}

/// The number of elements in the dataset.
pub fn count(numbers: &Vec<usize>) -> (n: usize)
    ensures
        n == numbers@.len(),
{
    numbers.len()
}

/// The sum of the dataset, or `None` when it does not fit in a `usize`.
pub fn sum(numbers: &Vec<usize>) -> (result: Option<usize>)
    ensures
        result == (if total(numbers@) <= usize::MAX {
            Some(total(numbers@) as usize)
        } else {
            None
        }),
{
    let mut acc: usize = 0;
    let mut i: usize = 0;
    while i < numbers.len()
        invariant
            i <= numbers.len(),
            acc == total(numbers@.take(i as int)),
        decreases numbers.len() - i,
    {
        proof {
            assert(numbers@.take(i + 1) =~= numbers@.take(i as int).push(numbers@[i as int]));
            lemma_total_push(numbers@.take(i as int), numbers@[i as int]);
            lemma_total_prefix(numbers@, i + 1);
        }
        match acc.checked_add(numbers[i]) {
            Some(next) => {
                acc = next;
            },
            None => {
                return None;
            },
        }
        i = i + 1;
    }
    proof {
        assert(numbers@.take(i as int) =~= numbers@);
    }
    Some(acc)
}

/// The mean of `s`, rounded towards zero; 0 for the empty sequence.
pub open spec fn mean(s: Seq<usize>) -> nat {
    if s.len() == 0 {
        0
    } else {
        total(s) / s.len()
    }
}

/// The mean of the dataset rounded towards zero, or `None` when the dataset is
/// empty or its sum does not fit in a `usize`.
pub fn average(numbers: &Vec<usize>) -> (result: Option<usize>)
    ensures
        result == (if numbers@.len() > 0 && total(numbers@) <= usize::MAX {
            Some(mean(numbers@) as usize)
        } else {
            None
        }),
{
    let len: usize = count(numbers);
    if len == 0 {
        return None;
    }
    match sum(numbers) {
        Some(all) => {
            assert(all / len <= all) by (nonlinear_arith)
                requires
                    len > 0,
            ;
            Some(all / len)
        },
        None => None,
    }
}

/// The mean of the numbers 0 to 100, computed over a dataset that the
/// computation owns outright.
pub fn one() -> (mean_value: usize)
    ensures
        mean_value == mean(span(0, 100)),
        mean_value == 50,
{
    let numbers: Vec<usize> = range_inclusive(0, 100);
    proof {
        lemma_total_span_from_zero(100);
        assert(span(0, 100).len() == 101);
    }
    match average(&numbers) {
        Some(mean_value) => mean_value,
        None => 0,
    }
}

} // verus!
