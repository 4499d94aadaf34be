use vstd::prelude::*;

verus! {

/// Ten to the power `k`.
pub open spec fn pow10(k: nat) -> nat
    decreases k,
{
    if k == 0 {
        1
    } else {
        10 * pow10((k - 1) as nat)
    }
}

/// The number that decimal digits `ds` spell, most significant first.
pub open spec fn digits_value(ds: Seq<u32>) -> nat
    decreases ds.len(),
{
    if ds.len() == 0 {
        0
    } else {
        digits_value(ds.drop_last()) * 10 + ds.last() as nat
    }
}

/// Putting digit `d` in front of `ds` adds `d` times ten to the length of `ds`.
proof fn lemma_prepend_digit(d: u32, ds: Seq<u32>)
    ensures
        digits_value(seq![d] + ds) == d * pow10(ds.len()) + digits_value(ds),
    decreases ds.len(),
{
    if ds.len() > 0 {
        let front = ds.drop_last();
        lemma_prepend_digit(d, front);
        assert((seq![d] + ds).drop_last() =~= seq![d] + front);
        assert((seq![d] + ds).last() == ds.last());
        let pf = pow10(front.len());
        let vf = digits_value(front);
        assert(pow10(ds.len()) == 10 * pf);
        assert((d * pf + vf) * 10 == d * (10 * pf) + vf * 10) by (nonlinear_arith);
    } else {
        assert(seq![d] + ds =~= seq![d]);
        assert(seq![d].drop_last() =~= Seq::<u32>::empty());
        assert(digits_value(Seq::<u32>::empty()) == 0);
        assert(pow10(0) == 1);
    }
}

/// The decimal digits of `number`, most significant first, without leading
/// zeros; zero has the single digit 0.
pub fn number_to_digits(number: u32) -> (r: Vec<u32>)
    ensures
        r.len() >= 1,
        forall|i: int| 0 <= i < r.len() ==> r@[i] < 10,
        digits_value(r@) == number,
        r.len() > 1 ==> r@[0] != 0,
        number == 0 ==> r@ == seq![0u32],
{
    let mut digits: Vec<u32> = Vec::new();
    if number == 0 {
        digits.push(0);
        assert(digits_value(digits@) == 0) by {
            let e = digits@.drop_last();
            assert(e =~= Seq::<u32>::empty());
            assert(digits_value(e) == 0);
        }
        assert(digits@ =~= seq![0u32]);
        return digits;
    }
    let mut n = number;
    assert(digits_value(digits@) == 0);
    assert(digits.len() == 0);
    assert(pow10(digits.len() as nat) == 1);
    assert(n * pow10(digits.len() as nat) == n) by (nonlinear_arith)
        requires pow10(digits.len() as nat) == 1;
    while n != 0
        invariant
            forall|i: int| 0 <= i < digits.len() ==> digits@[i] < 10,
            n * pow10(digits.len() as nat) + digits_value(digits@) == number,
            digits.len() > 0 ==> (digits@[0] != 0 || n != 0),
            n == 0 ==> digits.len() > 0,
        decreases n,
    {
        let ghost before = digits@;
        let d = n % 10;
        digits.insert(0, d);
        proof {
            assert(digits@ =~= seq![d] + before);
            lemma_prepend_digit(d, before);
            let p = pow10(before.len());
            assert(pow10(digits.len() as nat) == 10 * p);
            assert((n / 10) * (10 * p) + d * p == n * p) by (nonlinear_arith)
                requires d == n % 10, n >= 0;
        }
        n = n / 10;
    }
    digits
}

} // verus!
