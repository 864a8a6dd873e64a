//! Decimal rendering of counts and the error messages of shape conversions.

use vstd::prelude::*;

verus! {

/// The character of a decimal digit.
pub open spec fn digit_char(d: int) -> char {
    (d + 48) as char
}

/// Decimal representation of a natural number, most significant digit first.
pub open spec fn decimal(n: nat) -> Seq<char>
    decreases n,
{
    if n < 10 {
        seq![digit_char(n as int)]
    } else {
        decimal(n / 10).push(digit_char((n % 10) as int))
    }
}

pub open spec fn wrong_dim_msg(expected: nat, got: nat) -> Seq<char> {
    "expected "@ + decimal(expected) + " dimensions, got "@ + decimal(got)
}

pub open spec fn shape_mismatch_msg(expected: nat, got: nat) -> Seq<char> {
    "shape mismatch: expected "@ + decimal(expected) + " elements, got "@ + decimal(got)
}

pub open spec fn non_rectangular_msg() -> Seq<char> {
    "non-rectangular nested vector"@
}

pub open spec fn pow10(n: nat) -> nat
    decreases n,
{
    if n == 0 {
        1
    } else {
        10 * pow10((n - 1) as nat)
    }
}

/// Value of a little-endian sequence of decimal digits.
pub open spec fn digits_value(d: Seq<u8>) -> nat
    decreases d.len(),
{
    if d.len() == 0 {
        0
    } else {
        digits_value(d.drop_last()) + (d.last() as nat) * pow10((d.len() - 1) as nat)
    }
}

/// Digits without leading zeros (in little-endian order: no trailing zeros),
/// and at least one digit.
pub open spec fn canonical_digits(d: Seq<u8>) -> bool {
    &&& d.len() >= 1
    &&& forall|i: int| 0 <= i < d.len() ==> #[trigger] d[i] < 10
    &&& (d.len() == 1 || d.last() != 0)
}

/// The characters of `d` read from the most significant digit.
pub open spec fn digits_chars(d: Seq<u8>) -> Seq<char> {
    Seq::new(d.len(), |j: int| digit_char(d[d.len() - 1 - j] as int))
}

proof fn lemma_pow10_pos(n: nat)
    ensures
        pow10(n) >= 1,
    decreases n,
{
    if n > 0 {
        lemma_pow10_pos((n - 1) as nat);
    }
}

proof fn lemma_digits_value_single(d: Seq<u8>)
    requires
        d.len() == 1,
    ensures
        digits_value(d) == d[0] as nat,
{
    assert(d.drop_last() =~= Seq::<u8>::empty());
    assert(digits_value(d.drop_last()) == 0);
    assert(pow10(0) == 1);
    assert(d.last() == d[0]);
    let x = d.last() as nat;
    assert(x * pow10(0) == x);
    assert(digits_value(d) == digits_value(d.drop_last()) + x * pow10((d.len() - 1) as nat));
}

proof fn lemma_digits_value_front(d: Seq<u8>)
    requires
        d.len() >= 1,
    ensures
        digits_value(d) == d[0] as nat + 10 * digits_value(d.drop_first()),
    decreases d.len(),
{
    if d.len() == 1 {
        lemma_digits_value_single(d);
        assert(d.drop_first() =~= Seq::<u8>::empty());
        assert(digits_value(d.drop_first()) == 0);
    } else {
        let p = d.drop_last();
        let q = d.drop_first();
        lemma_digits_value_front(p);
        assert(p.drop_first() =~= q.drop_last());
        let n = (d.len() - 2) as nat;
        assert(pow10(n + 1) == 10 * pow10(n));
        let x = d.last() as nat;
        assert(x * pow10(n + 1) == 10 * (x * pow10(n))) by (nonlinear_arith)
            requires
                pow10(n + 1) == 10 * pow10(n),
        ;
    }
}

proof fn lemma_digits_value_push_zero(d: Seq<u8>)
    ensures
        digits_value(d.push(0)) == digits_value(d),
{
    let e = d.push(0);
    assert(e.drop_last() =~= d);
    assert(e.last() == 0);
    assert(e.len() == d.len() + 1);
    assert((e.last() as nat) * pow10((e.len() - 1) as nat) == 0);
}

proof fn lemma_canonical_value_pos(d: Seq<u8>)
    requires
        canonical_digits(d),
        d.len() >= 2,
    ensures
        digits_value(d) >= 1,
{
    let n = (d.len() - 1) as nat;
    lemma_pow10_pos(n);
    let x = d.last() as nat;
    assert(x >= 1);
    assert(x * pow10(n) >= 1) by (nonlinear_arith)
        requires
            x >= 1,
            pow10(n) >= 1,
    ;
}

proof fn lemma_decimal_of_digits(d: Seq<u8>)
    requires
        canonical_digits(d),
    ensures
        decimal(digits_value(d)) == digits_chars(d),
    decreases d.len(),
{
    if d.len() == 1 {
        lemma_digits_value_single(d);
        assert(decimal(digits_value(d)) =~= digits_chars(d));
    } else {
        let q = d.drop_first();
        assert(q.last() == d.last());
        assert(canonical_digits(q));
        lemma_digits_value_front(d);
        lemma_decimal_of_digits(q);
        if q.len() >= 2 {
            lemma_canonical_value_pos(q);
        } else {
            lemma_digits_value_single(q);
        }
        let v = digits_value(d);
        let w = digits_value(q);
        assert(w >= 1);
        assert(v >= 10);
        assert(v / 10 == w);
        assert(v % 10 == d[0] as nat);
        assert(decimal(v) == decimal(w).push(digit_char(d[0] as int)));
        assert(decimal(v) =~= digits_chars(d));
    }
}

/// The string of a single decimal digit.
fn digit_str(d: u8) -> (s: &'static str)
    requires
        d < 10,
    ensures
        s@ == seq![digit_char(d as int)],
{
    proof {
        reveal_strlit("0");
        reveal_strlit("1");
        reveal_strlit("2");
        reveal_strlit("3");
        reveal_strlit("4");
        reveal_strlit("5");
        reveal_strlit("6");
        reveal_strlit("7");
        reveal_strlit("8");
        reveal_strlit("9");
    }
    let s = match d {
        0 => "0",
        1 => "1",
        2 => "2",
        3 => "3",
        4 => "4",
        5 => "5",
        6 => "6",
        7 => "7",
        8 => "8",
        _ => "9",
    };
    assert(s@ =~= seq![digit_char(d as int)]);
    s
}

/// Renders canonical little-endian digits, most significant digit first.
pub fn digits_to_string(d: &Vec<u8>) -> (s: String)
    requires
        canonical_digits(d@),
    ensures
        s@ == decimal(digits_value(d@)),
{
    let mut s = String::new();
    let mut k: usize = d.len();
    while k > 0
        invariant
            k <= d@.len(),
            canonical_digits(d@),
            s@ =~= digits_chars(d@).take(d@.len() - k),
        decreases k,
    {
        k = k - 1;
        let c = digit_str(d[k]);
        s.append(c);
        assert(s@ =~= digits_chars(d@).take(d@.len() - k));
    }
    proof {
        lemma_decimal_of_digits(d@);
    }
    assert(digits_chars(d@).take(d@.len() as int) =~= digits_chars(d@));
    s
}


proof fn lemma_digits_value_push(d: Seq<u8>, x: u8)
    ensures
        digits_value(d.push(x)) == digits_value(d) + (x as nat) * pow10(d.len()),
{
    assert(d.push(x).drop_last() =~= d);
}

proof fn lemma_digits_value_take_step(d: Seq<u8>, i: int)
    requires
        0 <= i < d.len(),
    ensures
        digits_value(d.take(i + 1)) == digits_value(d.take(i)) + (d[i] as nat) * pow10(i as nat),
{
    assert(d.take(i + 1) =~= d.take(i).push(d[i]));
    lemma_digits_value_push(d.take(i), d[i]);
}

/// One step of schoolbook multiplication: emitting the low digit of `t` and
/// carrying the rest keeps the running identity.
proof fn lemma_mul_step(vr: int, c: int, p: int, x: int, cnew: int, t: int, vd: int, di: int, m: int)
    requires
        vr + c * p == vd * m,
        t == di * m + c,
        t == 10 * cnew + x,
    ensures
        vr + x * p + cnew * (10 * p) == (vd + di * p) * m,
{
    assert(vr + x * p + cnew * (10 * p) == (vd + di * p) * m) by (nonlinear_arith)
        requires
            vr + c * p == vd * m,
            t == di * m + c,
            t == 10 * cnew + x,
    ;
}

/// Multiplies a decimal number, given by its little-endian digits, by `m`.
pub fn mul_digits(d: &Vec<u8>, m: usize) -> (r: Vec<u8>)
    requires
        canonical_digits(d@),
    ensures
        canonical_digits(r@),
        digits_value(r@) == digits_value(d@) * m,
{
    let mut r: Vec<u8> = Vec::new();
    let mut carry: u128 = 0;
    let mut i: usize = 0;
    assert(d@.take(0) =~= Seq::<u8>::empty());
    assert(r@ =~= Seq::<u8>::empty());
    assert(digits_value(r@) == 0);
    assert(digits_value(d@.take(0)) == 0);
    assert(0 * (m as int) == 0);
    while i < d.len()
        invariant
            i <= d@.len(),
            canonical_digits(d@),
            r@.len() == i,
            forall|j: int| 0 <= j < r@.len() ==> #[trigger] r@[j] < 10,
            carry <= m,
            digits_value(r@) + carry * pow10(i as nat) == digits_value(d@.take(i as int)) * m,
        decreases d@.len() - i,
    {
        let di = d[i];
        assert(di < 10);
        assert((di as int) * (m as int) <= 9 * (m as int)) by (nonlinear_arith)
            requires
                di < 10,
        ;
        let t: u128 = (di as u128) * (m as u128) + carry;
        let x: u8 = (t % 10) as u8;
        let cnew: u128 = t / 10;
        proof {
            lemma_digits_value_push(r@, x);
            lemma_digits_value_take_step(d@, i as int);
            lemma_mul_step(
                digits_value(r@) as int,
                carry as int,
                pow10(i as nat) as int,
                x as int,
                cnew as int,
                t as int,
                digits_value(d@.take(i as int)) as int,
                di as int,
                m as int,
            );
            assert(pow10((i + 1) as nat) == 10 * pow10(i as nat));
        }
        r.push(x);
        carry = cnew;
        i = i + 1;
    }
    assert(d@.take(d@.len() as int) =~= d@);
    let ghost total = digits_value(d@) * m;
    while carry > 0
        invariant
            r@.len() >= 1,
            forall|j: int| 0 <= j < r@.len() ==> #[trigger] r@[j] < 10,
            digits_value(r@) + carry * pow10(r@.len()) == total,
        decreases carry,
    {
        let x: u8 = (carry % 10) as u8;
        let cnew: u128 = carry / 10;
        proof {
            lemma_digits_value_push(r@, x);
            lemma_mul_step(
                digits_value(r@) as int,
                carry as int,
                pow10(r@.len()) as int,
                x as int,
                cnew as int,
                carry as int,
                digits_value(r@) as int + carry * pow10(r@.len()),
                0,
                1,
            );
            assert(pow10(r@.len() + 1) == 10 * pow10(r@.len()));
        }
        r.push(x);
        carry = cnew;
    }
    assert(digits_value(r@) == total);
    while r.len() > 1 && r[r.len() - 1] == 0
        invariant
            r@.len() >= 1,
            forall|j: int| 0 <= j < r@.len() ==> #[trigger] r@[j] < 10,
            digits_value(r@) == total,
        decreases r@.len(),
    {
        proof {
            assert(r@ =~= r@.drop_last().push(0));
            lemma_digits_value_push_zero(r@.drop_last());
        }
        r.pop();
    }
    r
}

/// Little-endian decimal digits of `n`.
pub fn usize_digits(n: usize) -> (d: Vec<u8>)
    ensures
        canonical_digits(d@),
        digits_value(d@) == n,
{
    let one: Vec<u8> = vec![1u8];
    proof {
        lemma_digits_value_single(one@);
    }
    mul_digits(&one, n)
}

/// Decimal rendering of `n`.
pub fn usize_to_decimal(n: usize) -> (s: String)
    ensures
        s@ == decimal(n as nat),
{
    let d = usize_digits(n);
    digits_to_string(&d)
}

/// The error message for an array with the wrong number of dimensions.
pub fn wrong_dim_error(expected: usize, got: usize) -> (s: String)
    ensures
        s@ == wrong_dim_msg(expected as nat, got as nat),
{
    let mut s = String::from_str("expected ");
    let e = usize_to_decimal(expected);
    s.append(e.as_str());
    s.append(" dimensions, got ");
    let g = usize_to_decimal(got);
    s.append(g.as_str());
    s
}

/// The shape-mismatch message for an expected count given by its digits.
pub fn shape_mismatch_from_digits(expected: &Vec<u8>, got: usize) -> (s: String)
    requires
        canonical_digits(expected@),
    ensures
        s@ == shape_mismatch_msg(digits_value(expected@), got as nat),
{
    let mut s = String::from_str("shape mismatch: expected ");
    let e = digits_to_string(expected);
    s.append(e.as_str());
    s.append(" elements, got ");
    let g = usize_to_decimal(got);
    s.append(g.as_str());
    s
}

/// The error message for data whose length differs from the element count of
/// the shape.
pub fn shape_mismatch_error(expected: usize, got: usize) -> (s: String)
    ensures
        s@ == shape_mismatch_msg(expected as nat, got as nat),
{
    let e = usize_digits(expected);
    shape_mismatch_from_digits(&e, got)
}

/// The error message for nested vectors whose rows differ in length.
pub fn non_rectangular_error() -> (s: String)
    ensures
        s@ == non_rectangular_msg(),
{
    String::from_str("non-rectangular nested vector")
}


/// A decimal digit character.
pub open spec fn is_digit(c: char) -> bool {
    48 <= c as int <= 57
}

/// Value of a string of decimal digits, most significant first.
pub open spec fn decimal_value(s: Seq<char>) -> nat
    decreases s.len(),
{
    if s.len() == 0 {
        0
    } else {
        decimal_value(s.drop_last()) * 10 + ((s.last() as int - 48) as nat)
    }
}

proof fn lemma_digit_char(d: int)
    requires
        0 <= d < 10,
    ensures
        is_digit(digit_char(d)),
        digit_char(d) as int - 48 == d,
{
}

proof fn lemma_decimal_digits(n: nat)
    ensures
        decimal(n).len() >= 1,
        forall|i: int| 0 <= i < decimal(n).len() ==> is_digit(#[trigger] decimal(n)[i]),
        decimal_value(decimal(n)) == n,
    decreases n,
{
    if n < 10 {
        lemma_digit_char(n as int);
        let s1 = seq![digit_char(n as int)];
        assert(s1.drop_last() =~= Seq::<char>::empty());
        assert(decimal_value(s1.drop_last()) == 0);
        assert(s1.last() == digit_char(n as int));
        assert(decimal_value(s1) == n);
    } else {
        lemma_decimal_digits(n / 10);
        lemma_digit_char((n % 10) as int);
        let d = decimal(n / 10);
        let full = d.push(digit_char((n % 10) as int));
        assert(full.drop_last() =~= d);
        assert(full.last() == digit_char((n % 10) as int));
        assert(decimal(n) == full);
        assert(decimal_value(full) == decimal_value(d) * 10 + (n % 10));
        assert((n / 10) * 10 + n % 10 == n);
        assert forall|i: int| 0 <= i < decimal(n).len() implies is_digit(
            #[trigger] decimal(n)[i],
        ) by {
            if i < d.len() {
                assert(decimal(n)[i] == d[i]);
            }
        }
    }
}

/// Splitting `p + decimal(a) + q + decimal(b)` after a prefix `p` recovers
/// `a` and `b` when `q` starts with a non-digit.
proof fn lemma_message_fields(p: Seq<char>, q: Seq<char>, a: nat, b: nat, c: nat, d: nat)
    requires
        q.len() >= 1,
        !is_digit(q[0]),
        p + decimal(a) + q + decimal(b) == p + decimal(c) + q + decimal(d),
    ensures
        a == c,
        b == d,
{
    let x = decimal(a);
    let y = decimal(c);
    let m = p + x + q + decimal(b);
    let n = p + y + q + decimal(d);
    lemma_decimal_digits(a);
    lemma_decimal_digits(c);
    lemma_decimal_digits(b);
    lemma_decimal_digits(d);
    if x.len() < y.len() {
        assert(m[(p.len() + x.len()) as int] == q[0]);
        assert(n[(p.len() + x.len()) as int] == y[x.len() as int]);
        assert(false);
    }
    if y.len() < x.len() {
        assert(n[(p.len() + y.len()) as int] == q[0]);
        assert(m[(p.len() + y.len()) as int] == x[y.len() as int]);
        assert(false);
    }
    assert(x =~= y) by {
        assert forall|i: int| 0 <= i < x.len() implies x[i] == y[i] by {
            assert(m[p.len() + i] == x[i]);
            assert(n[p.len() + i] == y[i]);
        }
    }
    let off: int = (p.len() + x.len() + q.len()) as int;
    assert(m.len() == n.len());
    assert(decimal(b).len() == decimal(d).len());
    assert(decimal(b) =~= decimal(d)) by {
        assert forall|i: int| 0 <= i < decimal(b).len() implies decimal(b)[i] == decimal(d)[i] by {
            assert(m[off + i] == decimal(b)[i]);
            assert(n[off + i] == decimal(d)[i]);
        }
    }
}

/// The wrong-dimension message tells its two counts apart: equal messages
/// come from equal counts.
pub proof fn law_wrong_dim_msg_injective(a: nat, b: nat, c: nat, d: nat)
    requires
        wrong_dim_msg(a, b) == wrong_dim_msg(c, d),
    ensures
        a == c,
        b == d,
{
    reveal_strlit(" dimensions, got ");
    lemma_message_fields("expected "@, " dimensions, got "@, a, b, c, d);
}

/// The shape-mismatch message tells its two counts apart: equal messages
/// come from equal counts.
pub proof fn law_shape_mismatch_msg_injective(a: nat, b: nat, c: nat, d: nat)
    requires
        shape_mismatch_msg(a, b) == shape_mismatch_msg(c, d),
    ensures
        a == c,
        b == d,
{
    reveal_strlit(" elements, got ");
    lemma_message_fields("shape mismatch: expected "@, " elements, got "@, a, b, c, d);
}

/// The three conversion messages differ from each other, whatever the counts.
pub proof fn law_messages_distinct(a: nat, b: nat, c: nat, d: nat)
    ensures
        shape_mismatch_msg(a, b) != wrong_dim_msg(c, d),
        shape_mismatch_msg(a, b) != non_rectangular_msg(),
        wrong_dim_msg(c, d) != non_rectangular_msg(),
{
    reveal_strlit("expected ");
    reveal_strlit("shape mismatch: expected ");
    reveal_strlit("non-rectangular nested vector");
    let s = shape_mismatch_msg(a, b);
    let w = wrong_dim_msg(c, d);
    let r = non_rectangular_msg();
    assert(s[0] == 's');
    assert(w[0] == 'e');
    assert(r[0] == 'n');
}

} // verus!
