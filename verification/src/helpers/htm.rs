use crate::errors::ErrorCode;
use vstd::arithmetic::div_mod::lemma_div_denominator;
use vstd::prelude::*;

verus! {

/// Ten to the `k`.
pub open spec fn pow10(k: nat) -> nat
    decreases k,
{
    if k == 0 {
        1
    } else {
        10 * pow10((k - 1) as nat)
    }
}

/// How many decimal digits `n` is written with (one for zero).
pub open spec fn decimal_len(n: nat) -> nat
    decreases n,
{
    if n < 10 {
        1
    } else {
        1 + decimal_len(n / 10)
    }
}

/// The decimal digit of `n` at place `k`, place 0 being the rightmost.
pub open spec fn decimal_digit(n: nat, k: nat) -> nat {
    (n / pow10(k)) % 10
}

/// The leftmost decimal digit of `n`.
pub open spec fn leading_digit(n: nat) -> nat
    decreases n,
{
    if n < 10 {
        n
    } else {
        leading_digit(n / 10)
    }
}

/// The depth that an identifier is read as: how many times it has to be
/// divided by ten until it is at most 8.
pub open spec fn spec_resolution(id: nat) -> nat
    decreases id,
{
    if id <= 8 {
        0
    } else {
        1 + spec_resolution(id / 10)
    }
}

/// The slot that a trixel's parent keeps its hash in: its leftmost digit
/// less one. Zero is no identifier.
pub open spec fn spec_child_slot(id: u64) -> Result<int, ErrorCode> {
    if id == 0 {
        Err(ErrorCode::InvalidTrixelId)
    } else {
        Ok(leading_digit(id as nat) - 1)
    }
}

/// A trixel identifier is well formed when its rightmost digit names a base
/// trixel (1 to 8) and every other digit names a child (1 to 4).
pub open spec fn valid_trixel_id(id: nat) -> bool {
    &&& 1 <= decimal_digit(id, 0) <= 8
    &&& forall|k: nat| 1 <= k < decimal_len(id) ==> 1 <= #[trigger] decimal_digit(id, k) <= 4
}

/// The ancestors of a well-formed identifier, nearest first: what is left of
/// it after its 1, 2, ... leftmost digits are taken away, down to the base
/// trixel.
pub open spec fn spec_ancestors(id: u64) -> Seq<u64> {
    Seq::new(
        spec_resolution(id as nat),
        |i: int| (id as nat % pow10((spec_resolution(id as nat) - i) as nat)) as u64,
    )
}

/// `a` is written with the last digits of `id`.
pub open spec fn is_decimal_suffix(a: nat, id: nat) -> bool {
    exists|k: nat| 1 <= k <= decimal_len(id) && a == id % #[trigger] pow10(k)
}

/// Every digit of `n` names a child; zero has no digits to ask.
pub open spec fn child_digits_only(n: nat) -> bool
    decreases n,
{
    n == 0 || (1 <= n % 10 <= 4 && child_digits_only(n / 10))
}

/// A power of ten is at least one.
pub(crate) proof fn lemma_pow10_positive(k: nat)
    ensures
        pow10(k) >= 1,
    decreases k,
{
    if k > 0 {
        lemma_pow10_positive((k - 1) as nat);
    }
}

/// Ten to the 19, the largest power of ten below 2 to the 64.
proof fn lemma_pow10_19()
    ensures
        pow10(19) == 10_000_000_000_000_000_000nat,
{
    reveal_with_fuel(pow10, 20);
}

/// The digit at place `k + 1` of `n` is the digit at place `k` of `n / 10`.
pub(crate) proof fn lemma_digit_shift(n: nat, k: nat)
    ensures
        decimal_digit(n, k + 1) == decimal_digit(n / 10, k),
{
    lemma_pow10_positive(k);
    lemma_div_denominator(n as int, 10, pow10(k) as int);
    assert(pow10(k + 1) == 10 * pow10(k));
}

/// `child_digits_only` asks of each digit what `valid_trixel_id` asks of the
/// digits left of the first.
proof fn lemma_child_digits(n: nat)
    ensures
        child_digits_only(n) <==> (n == 0 || forall|k: nat|
            k < decimal_len(n) ==> 1 <= #[trigger] decimal_digit(n, k) <= 4),
    decreases n,
{
    assert(pow10(0) == 1);
    if n == 0 {
    } else if n < 10 {
        assert(decimal_digit(n, 0) == n);
        assert(child_digits_only(0));
    } else {
        lemma_child_digits(n / 10);
        assert(decimal_digit(n, 0) == n % 10);
        if child_digits_only(n) {
            assert forall|k: nat| k < decimal_len(n) implies 1 <= #[trigger] decimal_digit(n, k)
                <= 4 by {
                if k > 0 {
                    lemma_digit_shift(n, (k - 1) as nat);
                    assert(1 <= decimal_digit(n / 10, (k - 1) as nat) <= 4);
                }
            }
        }
        if forall|k: nat| k < decimal_len(n) ==> 1 <= #[trigger] decimal_digit(n, k) <= 4 {
            assert(1 <= decimal_digit(n, 0) <= 4);
            assert forall|k: nat| k < decimal_len(n / 10) implies 1 <= #[trigger] decimal_digit(
                n / 10,
                k,
            ) <= 4 by {
                lemma_digit_shift(n, k);
                assert(1 <= decimal_digit(n, k + 1) <= 4);
            }
        }
    }
}

/// Validity, digit by digit from the right.
pub proof fn lemma_valid_by_digits(id: nat)
    ensures
        valid_trixel_id(id) <==> (1 <= id % 10 <= 8 && child_digits_only(id / 10)),
{
    assert(pow10(0) == 1);
    assert(decimal_digit(id, 0) == id % 10);
    lemma_child_digits(id / 10);
    if id < 10 {
        assert(id / 10 == 0);
    } else {
        if valid_trixel_id(id) {
            assert forall|k: nat| k < decimal_len(id / 10) implies 1 <= #[trigger] decimal_digit(
                id / 10,
                k,
            ) <= 4 by {
                lemma_digit_shift(id, k);
                assert(1 <= decimal_digit(id, k + 1) <= 4);
            }
        }
        if 1 <= id % 10 <= 8 && child_digits_only(id / 10) {
            assert forall|k: nat| 1 <= k < decimal_len(id) implies 1 <= #[trigger] decimal_digit(
                id,
                k,
            ) <= 4 by {
                lemma_digit_shift(id, (k - 1) as nat);
                assert(1 <= decimal_digit(id / 10, (k - 1) as nat) <= 4);
            }
        }
    }
}

/// The leftmost digit of a number that is not zero is not zero.
pub(crate) proof fn lemma_leading_digit_range(n: nat)
    requires
        n >= 1,
    ensures
        1 <= leading_digit(n) <= 9,
    decreases n,
{
    if n >= 10 {
        lemma_leading_digit_range(n / 10);
    }
}

/// The leftmost digit is the digit at the highest place.
proof fn lemma_leading_is_top_digit(n: nat)
    ensures
        leading_digit(n) == decimal_digit(n, (decimal_len(n) - 1) as nat),
    decreases n,
{
    assert(pow10(0) == 1);
    if n >= 10 {
        lemma_leading_is_top_digit(n / 10);
        let top = (decimal_len(n / 10) - 1) as nat;
        lemma_digit_shift(n, top);
        assert(top + 1 == decimal_len(n) - 1);
    } else {
        assert(decimal_digit(n, 0) == n);
    }
}

/// Where the leftmost digit is not 9, the depth is one less than the number
/// of digits, and ten to the depth times that digit is the identifier with
/// its other digits cleared.
proof fn lemma_resolution_bounds(n: nat)
    requires
        1 <= leading_digit(n) <= 8,
    ensures
        spec_resolution(n) == decimal_len(n) - 1,
        pow10(spec_resolution(n)) * leading_digit(n) <= n,
        n < pow10(spec_resolution(n)) * (leading_digit(n) + 1),
    decreases n,
{
    assert(pow10(0) == 1);
    if n >= 10 {
        lemma_resolution_bounds(n / 10);
        let p = pow10(spec_resolution(n / 10));
        let l = leading_digit(n);
        assert(pow10(spec_resolution(n)) == 10 * p);
        assert((10 * p) * l <= n && n < (10 * p) * (l + 1)) by (nonlinear_arith)
            requires
                p * l <= n / 10,
                n / 10 < p * (l + 1),
        ;
    }
}

/// A well-formed identifier does not start with 0 or 9.
proof fn lemma_valid_leading(id: nat)
    requires
        valid_trixel_id(id),
    ensures
        1 <= leading_digit(id) <= 8,
        decimal_len(id) >= 2 ==> leading_digit(id) <= 4,
{
    lemma_leading_is_top_digit(id);
}

/// Depth of a trixel identifier.
pub fn resolution_from_trixel_id(id: u64) -> (r: Result<u8, ErrorCode>)
    ensures
        r == Ok::<u8, ErrorCode>(spec_resolution(id as nat) as u8),
        spec_resolution(id as nat) <= 19,
{
    let mut count: u8 = 0;
    let mut current: u64 = id;
    assert(pow10(0) == 1);
    while current > 8
        invariant
            count <= 19,
            spec_resolution(id as nat) == count + spec_resolution(current as nat),
            current as nat * pow10(count as nat) <= id,
        decreases current,
    {
        proof {
            lemma_pow10_positive(count as nat);
            assert(pow10(count as nat + 1) == 10 * pow10(count as nat));
            assert((current / 10) as nat * (10 * pow10(count as nat)) <= current as nat * pow10(
                count as nat,
            )) by (nonlinear_arith)
                requires
                    pow10(count as nat) >= 1,
            ;
            if count == 19 {
                lemma_pow10_19();
                assert(current as nat * pow10(19) >= 9 * pow10(19)) by (nonlinear_arith)
                    requires
                        current > 8,
                ;
            }
        }
        current = current / 10;
        count = count + 1;
    }
    Ok(count)
}

/// Where a trixel sits in its parent, and at which depth: the slot is its
/// leftmost digit less one, among eight for a base trixel and among four
/// below. Zero is no identifier.
pub fn get_child_index(id: u64) -> (r: Result<(usize, u8), ErrorCode>)
    ensures
        match spec_child_slot(id) {
            Ok(slot) => r is Ok && r->Ok_0.0 == slot && r->Ok_0.1 == spec_resolution(id as nat),
            Err(e) => r == Err::<(usize, u8), ErrorCode>(e),
        },
        r is Ok ==> r->Ok_0.0 <= 8 && r->Ok_0.1 <= 19,
        1 <= id <= 8 ==> r == Ok::<(usize, u8), ErrorCode>(((id - 1) as usize, 0u8)),
{
    if id < 1 {
        return Err(ErrorCode::InvalidTrixelId);
    }
    let mut current: u64 = id;
    let mut resolution: u8 = 0;
    assert(pow10(0) == 1);
    while current > 8
        invariant
            resolution <= 19,
            spec_resolution(id as nat) == resolution + spec_resolution(current as nat),
            current as nat * pow10(resolution as nat) <= id,
            current >= 1 ==> leading_digit(id as nat) == leading_digit(current as nat),
            current == 0 ==> leading_digit(id as nat) == 9,
        decreases current,
    {
        proof {
            lemma_pow10_positive(resolution as nat);
            assert(pow10(resolution as nat + 1) == 10 * pow10(resolution as nat));
            assert((current / 10) as nat * (10 * pow10(resolution as nat)) <= current as nat
                * pow10(resolution as nat)) by (nonlinear_arith)
                requires
                    pow10(resolution as nat) >= 1,
            ;
            if resolution == 19 {
                lemma_pow10_19();
                assert(current as nat * pow10(19) >= 9 * pow10(19)) by (nonlinear_arith)
                    requires
                        current > 8,
                ;
            }
        }
        current = current / 10;
        resolution = resolution + 1;
    }
    if current == 0 {
        Ok((8, resolution))
    } else {
        Ok(((current - 1) as usize, resolution))
    }
}

/// The ancestors of a trixel, nearest first and ending with its base
/// trixel; none for a base trixel. An identifier that is not well formed is
/// turned away.
pub fn get_trixel_ancestors(id: u64) -> (r: Result<Vec<u64>, ErrorCode>)
    ensures
        valid_trixel_id(id as nat) ==> r is Ok && r->Ok_0@ == spec_ancestors(id),
        !valid_trixel_id(id as nat) ==> r == Err::<Vec<u64>, ErrorCode>(
            ErrorCode::InvalidTrixelId,
        ),
{
    proof {
        lemma_valid_by_digits(id as nat);
    }
    let mut rest: u64 = id / 10;
    while rest > 0
        invariant
            valid_trixel_id(id as nat) <==> (1 <= id % 10 <= 8 && child_digits_only(
                (id / 10) as nat,
            )),
            child_digits_only((id / 10) as nat) <==> child_digits_only(rest as nat),
        decreases rest,
    {
        let d: u64 = rest % 10;
        if d < 1 || d > 4 {
            return Err(ErrorCode::InvalidTrixelId);
        }
        rest = rest / 10;
    }
    let last: u64 = id % 10;
    if last < 1 || last > 8 {
        return Err(ErrorCode::InvalidTrixelId);
    }
    proof {
        lemma_valid_leading(id as nat);
        assert(pow10(0) == 1);
    }
    let mut current: u64 = id;
    let mut depth: u8 = 0;
    let mut place: u64 = 1;
    while current > 8
        invariant
            depth <= 19,
            spec_resolution(id as nat) == depth + spec_resolution(current as nat),
            1 <= leading_digit(current as nat) <= 8,
            place == pow10(depth as nat),
            current as nat * place as nat <= id,
        decreases current,
    {
        proof {
            assert(current >= 10);
            lemma_pow10_positive(depth as nat);
            assert((current / 10) as nat * (10 * place as nat) <= current as nat * place as nat)
                by (nonlinear_arith)
                requires
                    place >= 1,
            ;
            assert(10 * place as nat <= (current / 10) as nat * (10 * place as nat))
                by (nonlinear_arith)
                requires
                    current / 10 >= 1,
            ;
            if depth == 19 {
                lemma_pow10_19();
            }
        }
        current = current / 10;
        depth = depth + 1;
        place = place * 10;
    }
    let mut ancestors: Vec<u64> = Vec::new();
    let mut i: u8 = 0;
    while i < depth
        invariant
            i <= depth,
            depth == spec_resolution(id as nat),
            place == pow10((depth - i) as nat),
            ancestors@.len() == i,
            forall|j: int|
                0 <= j < i ==> ancestors@[j] as nat == id as nat % pow10((depth - j) as nat),
        decreases depth - i,
    {
        proof {
            lemma_pow10_positive((depth - i) as nat);
            assert(pow10((depth - i) as nat) == 10 * pow10((depth - i - 1) as nat));
        }
        ancestors.push(id % place);
        place = place / 10;
        i = i + 1;
    }
    assert(ancestors@ =~= spec_ancestors(id)) by {
        assert forall|j: int| 0 <= j < depth implies ancestors@[j] == spec_ancestors(id)[j] by {
            assert(ancestors@[j] as nat == id as nat % pow10((depth - j) as nat));
        }
    }
    Ok(ancestors)
}

/// A well-formed identifier has as many ancestors as its depth, each of
/// them written with its last digits, each well formed, and each smaller
/// than the one before.
pub proof fn lemma_ancestor_chain(id: u64)
    requires
        valid_trixel_id(id as nat),
    ensures
        spec_ancestors(id).len() == spec_resolution(id as nat),
        spec_resolution(id as nat) == decimal_len(id as nat) - 1,
        forall|i: int|
            0 <= i < spec_ancestors(id).len() ==> is_decimal_suffix(
                #[trigger] spec_ancestors(id)[i] as nat,
                id as nat,
            ),
        forall|i: int|
            0 <= i < spec_ancestors(id).len() ==> valid_trixel_id(
                #[trigger] spec_ancestors(id)[i] as nat,
            ),
        forall|i: int|
            0 <= i < spec_ancestors(id).len() ==> spec_resolution(
                #[trigger] spec_ancestors(id)[i] as nat,
            ) == spec_resolution(id as nat) - 1 - i,
        forall|i: int, j: int|
            0 <= i < j < spec_ancestors(id).len() ==> spec_ancestors(id)[i] > spec_ancestors(
                id,
            )[j],
        spec_ancestors(id).len() > 0 ==> id > spec_ancestors(id)[0],
        forall|i: int|
            0 <= i < spec_ancestors(id).len() ==> (#[trigger] spec_ancestors(id)[i]) as nat
                == id as nat % pow10((spec_resolution(id as nat) - i) as nat),
{
    let n = id as nat;
    let r = spec_resolution(n);
    lemma_valid_leading(n);
    lemma_resolution_bounds(n);
    assert forall|i: int| 0 <= i < r implies {
        &&& is_decimal_suffix(#[trigger] spec_ancestors(id)[i] as nat, n)
        &&& valid_trixel_id(spec_ancestors(id)[i] as nat)
        &&& spec_resolution(spec_ancestors(id)[i] as nat) == r - 1 - i
        &&& spec_ancestors(id)[i] as nat == n % pow10((r - i) as nat)
    } by {
        let k = (r - i) as nat;
        lemma_pow10_positive(k);
        lemma_suffix_valid(n, k);
        vstd::arithmetic::div_mod::lemma_mod_decreases(n, pow10(k));
    }
    assert forall|i: int, j: int| 0 <= i < j < r implies spec_ancestors(id)[i] > spec_ancestors(
        id,
    )[j] by {
        lemma_suffix_grows(n, (r - j) as nat, (r - i) as nat);
    }
    if r > 0 {
        lemma_suffix_valid(n, r + 1);
        lemma_suffix_grows(n, r, r + 1);
    }
}

/// The last `k` digits of a well-formed identifier form a well-formed
/// identifier of depth `k - 1`.
proof fn lemma_suffix_valid(id: nat, k: nat)
    requires
        valid_trixel_id(id),
        1 <= k <= decimal_len(id),
    ensures
        valid_trixel_id(id % pow10(k)),
        decimal_len(id % pow10(k)) == k,
        spec_resolution(id % pow10(k)) == k - 1,
        k == decimal_len(id) ==> id % pow10(k) == id,
    decreases k,
{
    let s = id % pow10(k);
    lemma_pow10_positive(k);
    lemma_pow10_positive((k - 1) as nat);
    assert(pow10(k) == 10 * pow10((k - 1) as nat));
    assert(pow10(0) == 1);
    lemma_valid_by_digits(id);
    lemma_valid_by_digits(s);
    // s % 10 == id % 10 and s / 10 == (id / 10) % pow10(k - 1)
    lemma_mod_split(id, pow10((k - 1) as nat));
    if k == 1 {
        assert(s == id % 10);
        assert(s / 10 == 0);
        assert(spec_resolution(s) == 0);
        if decimal_len(id) == 1 {
            lemma_len_positive(id / 10);
            assert(id < 10);
        }
    } else {
        assert(id >= 10);
        lemma_child_suffix(id / 10, (k - 1) as nat);
        assert(s >= 10);
        assert(decimal_len(s) == 1 + decimal_len(s / 10));
        lemma_valid_leading(s);
        lemma_resolution_bounds(s);
        if k == decimal_len(id) {
            assert(s / 10 == id / 10);
            assert(s % 10 == id % 10);
        }
    }
}

/// `n % (10 * m)` keeps the last digit of `n` and, above it, `(n / 10) % m`.
proof fn lemma_mod_split(n: nat, m: nat)
    requires
        m >= 1,
    ensures
        (n % (10 * m)) % 10 == n % 10,
        (n % (10 * m)) / 10 == (n / 10) % m,
{
    vstd::arithmetic::div_mod::lemma_fundamental_div_mod(n as int, 10 * m as int);
    vstd::arithmetic::div_mod::lemma_fundamental_div_mod((n / 10) as int, m as int);
    let q = (n / 10) / m;
    let t = (n / 10) % m;
    let d = n % 10;
    assert(n == 10 * (m * q + t) + d);
    assert(n == q * (10 * m) + (10 * t + d)) by (nonlinear_arith)
        requires
            n == 10 * (m * q + t) + d,
    ;
    assert(0 <= 10 * t + d < 10 * m);
    vstd::arithmetic::div_mod::lemma_fundamental_div_mod_converse(
        n as int,
        10 * m as int,
        q as int,
        (10 * t + d) as int,
    );
}

/// Digits that all name children: the last `k` of them do so too, and none
/// of them is lost to a leading zero.
proof fn lemma_child_suffix(n: nat, k: nat)
    requires
        child_digits_only(n),
        1 <= k <= decimal_len(n),
        n > 0,
    ensures
        child_digits_only(n % pow10(k)),
        n % pow10(k) > 0,
        decimal_len(n % pow10(k)) == k,
        k == decimal_len(n) ==> n % pow10(k) == n,
    decreases k,
{
    lemma_pow10_positive((k - 1) as nat);
    assert(pow10(k) == 10 * pow10((k - 1) as nat));
    assert(pow10(0) == 1);
    lemma_mod_split(n, pow10((k - 1) as nat));
    let s = n % pow10(k);
    if k == 1 {
        assert(s == n % 10);
        assert(child_digits_only(0));
    } else {
        lemma_child_suffix(n / 10, (k - 1) as nat);
        assert(s / 10 == (n / 10) % pow10((k - 1) as nat));
        assert(s >= 10);
    }
}

/// Of a well-formed identifier, a longer suffix is a larger number.
proof fn lemma_suffix_grows(id: nat, k: nat, m: nat)
    requires
        valid_trixel_id(id),
        1 <= k < m <= decimal_len(id),
    ensures
        id % pow10(k) < id % pow10(m),
{
    lemma_suffix_valid(id, k);
    lemma_suffix_valid(id, m);
    let a = id % pow10(k);
    let b = id % pow10(m);
    lemma_pow10_positive(k);
    assert(a < pow10(k));
    assert(pow10(0) == 1);
    assert(decimal_digit(b, 0) == b % 10);
    lemma_pow10_positive(m);
    vstd::arithmetic::div_mod::lemma_mod_pos_bound(id as int, pow10(m) as int);
    lemma_len_bounds(b);
    lemma_pow10_monotonic(k, (m - 1) as nat);
}

/// A number of `d` digits is at least ten to the `d - 1`, unless it is zero.
proof fn lemma_len_bounds(n: nat)
    requires
        n > 0,
    ensures
        pow10((decimal_len(n) - 1) as nat) <= n,
    decreases n,
{
    assert(pow10(0) == 1);
    if n >= 10 {
        lemma_len_bounds(n / 10);
    }
}

/// Every number is written with at least one digit.
proof fn lemma_len_positive(n: nat)
    ensures
        decimal_len(n) >= 1,
    decreases n,
{
    if n >= 10 {
        lemma_len_positive(n / 10);
    }
}

/// A larger exponent gives no smaller power of ten.
pub(crate) proof fn lemma_pow10_monotonic(a: nat, b: nat)
    requires
        a <= b,
    ensures
        pow10(a) <= pow10(b),
    decreases b,
{
    if a < b {
        lemma_pow10_monotonic(a, (b - 1) as nat);
    }
}

/// The parent of an ancestor is the next ancestor.
pub proof fn lemma_ancestor_of_ancestor(id: u64, i: int)
    requires
        valid_trixel_id(id as nat),
        0 <= i,
        i + 1 < spec_ancestors(id).len(),
    ensures
        valid_trixel_id(spec_ancestors(id)[i] as nat),
        spec_ancestors(spec_ancestors(id)[i]).len() > 0,
        spec_ancestors(spec_ancestors(id)[i])[0] == spec_ancestors(id)[i + 1],
{
    let r = spec_resolution(id as nat);
    let a = spec_ancestors(id)[i];
    let k = (r - i - 1) as nat;
    lemma_ancestor_chain(id);
    lemma_ancestor_chain(a);
    lemma_pow10_positive(k);
    assert(pow10(k + 1) == pow10(k) * 10) by {
        assert(pow10(k + 1) == 10 * pow10(k));
    }
    vstd::arithmetic::div_mod::lemma_mod_mod(id as int, pow10(k) as int, 10);
    assert(a as nat == id as nat % pow10(k + 1));
    assert(spec_resolution(a as nat) == k);
    assert(spec_ancestors(a)[0] as nat == a as nat % pow10(k));
    assert(spec_ancestors(id)[i + 1] as nat == id as nat % pow10(k));
}

/// A trixel is the digit of its slot written in front of its parent.
proof fn lemma_child_of_parent(x: u64)
    requires
        valid_trixel_id(x as nat),
        spec_resolution(x as nat) >= 1,
    ensures
        x as nat == leading_digit(x as nat) * pow10(spec_resolution(x as nat)) + spec_ancestors(
            x,
        )[0] as nat,
        spec_resolution(spec_ancestors(x)[0] as nat) == spec_resolution(x as nat) - 1,
{
    let n = x as nat;
    let r = spec_resolution(n);
    let l = leading_digit(n);
    lemma_ancestor_chain(x);
    lemma_valid_leading(n);
    lemma_resolution_bounds(n);
    lemma_pow10_positive(r);
    let rest = n - pow10(r) * l;
    assert(0 <= rest < pow10(r)) by (nonlinear_arith)
        requires
            rest == n - pow10(r) * l,
            pow10(r) * l <= n,
            n < pow10(r) * (l + 1),
    ;
    assert(n == l * pow10(r) + rest) by (nonlinear_arith)
        requires
            rest == n - pow10(r) * l,
    ;
    vstd::arithmetic::div_mod::lemma_fundamental_div_mod_converse(
        n as int,
        pow10(r) as int,
        l as int,
        rest as int,
    );
}

/// Under one parent no two trixels share a slot: a trixel is known by its
/// parent and its leftmost digit, and a base trixel by its only digit.
pub proof fn lemma_child_by_slot(x: u64, y: u64)
    requires
        valid_trixel_id(x as nat),
        valid_trixel_id(y as nat),
        leading_digit(x as nat) == leading_digit(y as nat),
        spec_ancestors(x).len() == 0 <==> spec_ancestors(y).len() == 0,
        spec_ancestors(x).len() > 0 ==> spec_ancestors(x)[0] == spec_ancestors(y)[0],
    ensures
        x == y,
{
    if spec_ancestors(x).len() > 0 {
        lemma_child_of_parent(x);
        lemma_child_of_parent(y);
    }
}

/// A well-formed identifier starts with a digit up to 8; with one up to 4
/// where it has more than one digit; and is its only digit where its depth
/// is zero.
pub(crate) proof fn lemma_valid_shape(id: nat)
    requires
        valid_trixel_id(id),
    ensures
        1 <= leading_digit(id) <= 8,
        spec_resolution(id) == decimal_len(id) - 1,
        spec_resolution(id) >= 1 ==> leading_digit(id) <= 4,
        spec_resolution(id) == 0 ==> id == leading_digit(id),
{
    lemma_valid_leading(id);
    lemma_resolution_bounds(id);
}

} // verus!
