use vstd::prelude::*;

verus! {

/// Multiplication by the polynomial `x`, reduced modulo x^8 + x^4 + x^3 + x + 1.
pub open spec fn xtime(a: u8) -> u8 {
    if a & 0x80 == 0 {
        (a << 1u8) as u8
    } else {
        ((a << 1u8) as u8) ^ 0x1b
    }
}

/// `a * x^k` in the field.
pub open spec fn xtime_pow(a: u8, k: nat) -> u8
    decreases k,
{
    if k == 0 {
        a
    } else {
        xtime(xtime_pow(a, (k - 1) as nat))
    }
}

/// The contribution of bit `i` of `b` to a product, where `ai` is the other factor times `x^i`.
pub open spec fn term(ai: u8, b: u8, i: u8) -> u8 {
    if (b >> i) & 1u8 == 1u8 {
        ai
    } else {
        0
    }
}

/// Sum of the contributions of the lowest `k` bits of `b` to `a * b`.
pub open spec fn mul_partial(a: u8, b: u8, k: nat) -> u8
    decreases k,
{
    if k == 0 {
        0
    } else {
        mul_partial(a, b, (k - 1) as nat) ^ term(xtime_pow(a, (k - 1) as nat), b, (k - 1) as u8)
    }
}

/// The field product: carry-less product of `a` and `b` reduced modulo x^8 + x^4 + x^3 + x + 1.
pub open spec fn gf_mul(a: u8, b: u8) -> u8 {
    mul_partial(a, b, 8)
}

/// The field sum.
pub open spec fn gf_add(a: u8, b: u8) -> u8 {
    a ^ b
}

/// A field element: a polynomial of degree below 8 over GF(2), one bit per coefficient.
#[derive(Clone, Copy, Debug, PartialEq, Eq, Structural)]
pub struct GF256 {
    val: u8,
}

impl View for GF256 {
    type V = u8;

    closed spec fn view(&self) -> u8 {
        self.val
    }
}

impl GF256 {
    pub fn new(val: u8) -> (r: GF256)
        ensures
            r@ == val,
    {
        GF256 { val }
    }

    /// The byte that holds the element's coefficients.
    pub fn value(&self) -> (r: u8)
        ensures
            r == self@,
    {
        self.val
    }

    /// Sixteen elements from a slice of exactly sixteen bytes.
    pub fn from_u8array(array: &[u8]) -> (r: Result<[GF256; 16], ()>)
        ensures
            r is Ok <==> array@.len() == 16,
            r matches Ok(res) ==> forall|i: int| 0 <= i < 16 ==> #[trigger] res[i]@ == array@[i],
    {
        if array.len() != 16 {
            return Err(());
        }
        let mut res = [GF256::new(0); 16];
        for i in 0..16
            invariant
                array@.len() == 16,
                forall|k: int| 0 <= k < i ==> #[trigger] res[k]@ == array@[k],
        {
            res[i] = GF256::new(array[i]);
        }
        Ok(res)
    }

    fn add_by_xor(a: u8, b: u8) -> (r: GF256)
        ensures
            r@ == gf_add(a, b),
    {
        GF256::new(a ^ b)
    }

    /// Field addition, which is bitwise exclusive or.
    pub fn add(self, rhs: GF256) -> (r: GF256)
        ensures
            r@ == gf_add(self@, rhs@),
    {
        GF256::add_by_xor(self.val, rhs.val)
    }

    /// Bitwise exclusive or, the same operation as field addition.
    pub fn bitxor(self, rhs: GF256) -> (r: GF256)
        ensures
            r@ == gf_add(self@, rhs@),
    {
        GF256::add_by_xor(self.val, rhs.val)
    }

    /// Adds `rhs` in place.
    pub fn bitxor_assign(&mut self, rhs: GF256)
        ensures
            final(self)@ == gf_add(old(self)@, rhs@),
    {
        *self = GF256::add_by_xor(self.val, rhs.val);
    }

    /// The element as two lowercase hexadecimal digits.
    pub fn to_hex_string(&self) -> (r: String)
        ensures
            r@ == seq![hex_digit(self@ / 16), hex_digit(self@ % 16)],
    {
        hex2(self.val)
    }

    /// Field multiplication.
    pub fn mul(self, rhs: GF256) -> (r: GF256)
        ensures
            r@ == gf_mul(self@, rhs@),
    {
        GF256::new(gmul(self.val, rhs.val))
    }
}

/// The lowercase hexadecimal digit for `d`, which is below 16.
pub open spec fn hex_digit(d: u8) -> char {
    if d < 10 {
        ((d + 48) as u8) as char
    } else {
        ((d + 87) as u8) as char
    }
}

/// Relies on `format!` with `{:02x}`: a byte as exactly two lowercase hexadecimal digits.
#[verifier::external_body]
fn hex2(v: u8) -> (r: String)
    ensures
        r@ == seq![hex_digit(v / 16), hex_digit(v % 16)],
{
    format!("{:02x}", v)
}

proof fn lemma_xtime_step(a: u8)
    ensures
        ((a & 0x80u8) == 0x80u8) == !(a & 0x80 == 0),
{
    assert(((a & 0x80u8) == 0x80u8) == !(a & 0x80 == 0)) by (bit_vector);
}

/// Shift-and-reduce multiplication over the bits of `y`, lowest first.
pub fn gmul(x: u8, y: u8) -> (r: u8)
    ensures
        r == gf_mul(x, y),
{
    let mut r: u8 = 0;
    let mut a: u8 = x;
    let mut b: u8 = y;
    let mut i: u8 = 0;
    assert(y >> 0u8 == y) by (bit_vector);
    while i < 8
        invariant
            i <= 8,
            r == mul_partial(x, y, i as nat),
            a == xtime_pow(x, i as nat),
            b == y >> i,
        decreases 8 - i,
    {
        let ghost old_r = r;
        if (b & 1) == 1 {
            r = r ^ a;
        }
        let ghost old_a = a;
        let hi_bit_set = a & 0x80;
        a = a << 1;
        if hi_bit_set == 0x80 {
            a = a ^ 0x1b;
        }
        proof {
            assert(mul_partial(x, y, (i + 1) as nat) == mul_partial(x, y, i as nat) ^ term(
                xtime_pow(x, i as nat),
                y,
                i,
            ));
            lemma_xtime_step(old_a);
            assert(old_r ^ 0u8 == old_r) by (bit_vector);
            assert(b & 1 == (y >> i) & 1u8);
            assert((y >> i) >> 1u8 == y >> ((i + 1) as u8)) by (bit_vector)
                requires
                    i < 8,
            ;
        }
        b = b >> 1;
        i = i + 1;
    }
    r
}

proof fn lemma_term_linear(ai: u8, b: u8, c: u8, i: u8)
    ensures
        term(ai, b ^ c, i) == term(ai, b, i) ^ term(ai, c, i),
{
    assert(term(ai, b ^ c, i) == term(ai, b, i) ^ term(ai, c, i)) by (bit_vector);
}

proof fn lemma_partial_linear(a: u8, b: u8, c: u8, k: nat)
    requires
        k <= 8,
    ensures
        mul_partial(a, b ^ c, k) == mul_partial(a, b, k) ^ mul_partial(a, c, k),
    decreases k,
{
    if k > 0 {
        lemma_partial_linear(a, b, c, (k - 1) as nat);
        let ai = xtime_pow(a, (k - 1) as nat);
        let i = (k - 1) as u8;
        lemma_term_linear(ai, b, c, i);
        let p = mul_partial(a, b, (k - 1) as nat);
        let q = mul_partial(a, c, (k - 1) as nat);
        let tb = term(ai, b, i);
        let tc = term(ai, c, i);
        assert((p ^ q) ^ (tb ^ tc) == (p ^ tb) ^ (q ^ tc)) by (bit_vector);
        assert(mul_partial(a, b ^ c, k) == mul_partial(a, b ^ c, (k - 1) as nat) ^ term(ai, b ^ c, i));
        assert(mul_partial(a, b, k) == p ^ tb);
        assert(mul_partial(a, c, k) == q ^ tc);
        assert(mul_partial(a, b ^ c, (k - 1) as nat) == p ^ q);
    } else {
        assert(0u8 ^ 0u8 == 0u8) by (bit_vector);
    }
}

proof fn lemma_partial_zero(a: u8, k: nat)
    requires
        k <= 8,
    ensures
        mul_partial(a, 0, k) == 0,
    decreases k,
{
    if k > 0 {
        lemma_partial_zero(a, (k - 1) as nat);
        let ai = xtime_pow(a, (k - 1) as nat);
        let i = (k - 1) as u8;
        assert(term(ai, 0, i) == 0 && 0u8 ^ 0u8 == 0u8) by (bit_vector);
    }
}

proof fn lemma_partial_one(a: u8, k: nat)
    requires
        1 <= k <= 8,
    ensures
        mul_partial(a, 1, k) == a,
    decreases k,
{
    if k == 1 {
        assert(term(a, 1, 0) == a && 0u8 ^ a == a) by (bit_vector);
        assert(mul_partial(a, 1, 0) == 0);
        assert(xtime_pow(a, 0) == a);
        assert(mul_partial(a, 1, 1) == mul_partial(a, 1, 0) ^ term(xtime_pow(a, 0), 1, 0));
    } else {
        lemma_partial_one(a, (k - 1) as nat);
        let ai = xtime_pow(a, (k - 1) as nat);
        let i = (k - 1) as u8;
        assert(term(ai, 1, i) == 0 && a ^ 0u8 == a) by (bit_vector)
            requires
                1 <= i < 8,
        ;
    }
}

/// Every element is its own additive inverse.
pub proof fn lemma_add_self_inverse(a: u8)
    ensures
        gf_add(a, a) == 0,
{
    assert(a ^ a == 0) by (bit_vector);
}

/// Addition commutes.
pub proof fn lemma_add_commutative(a: u8, b: u8)
    ensures
        gf_add(a, b) == gf_add(b, a),
{
    assert(a ^ b == b ^ a) by (bit_vector);
}

/// Zero annihilates and one is the multiplicative identity.
pub proof fn lemma_mul_zero_one(a: u8)
    ensures
        gf_mul(a, 0) == 0,
        gf_mul(a, 1) == a,
{
    lemma_partial_zero(a, 8);
    lemma_partial_one(a, 8);
}

/// Multiplication distributes over addition.
pub proof fn lemma_mul_distributive(a: u8, b: u8, c: u8)
    ensures
        gf_mul(a, gf_add(b, c)) == gf_add(gf_mul(a, b), gf_mul(a, c)),
{
    lemma_partial_linear(a, b, c, 8);
}

proof fn lemma_xtime_linear(a: u8, c: u8)
    ensures
        xtime(a ^ c) == xtime(a) ^ xtime(c),
{
    assert(xtime(a ^ c) == xtime(a) ^ xtime(c)) by (bit_vector);
}

proof fn lemma_xtime_pow_linear(a: u8, c: u8, n: nat)
    ensures
        xtime_pow(a ^ c, n) == xtime_pow(a, n) ^ xtime_pow(c, n),
    decreases n,
{
    if n > 0 {
        lemma_xtime_pow_linear(a, c, (n - 1) as nat);
        lemma_xtime_linear(xtime_pow(a, (n - 1) as nat), xtime_pow(c, (n - 1) as nat));
    }
}

/// Multiplication is linear in its first factor.
proof fn lemma_partial_linear_left(a: u8, c: u8, b: u8, k: nat)
    ensures
        mul_partial(a ^ c, b, k) == mul_partial(a, b, k) ^ mul_partial(c, b, k),
    decreases k,
{
    if k > 0 {
        let n = (k - 1) as nat;
        let i = (k - 1) as u8;
        lemma_partial_linear_left(a, c, b, n);
        lemma_xtime_pow_linear(a, c, n);
        let x = xtime_pow(a, n);
        let y = xtime_pow(c, n);
        assert(term(x ^ y, b, i) == term(x, b, i) ^ term(y, b, i)) by (bit_vector);
        let p = mul_partial(a, b, n);
        let q = mul_partial(c, b, n);
        let tx = term(x, b, i);
        let ty = term(y, b, i);
        assert((p ^ q) ^ (tx ^ ty) == (p ^ tx) ^ (q ^ ty)) by (bit_vector);
    } else {
        assert(0u8 ^ 0u8 == 0u8) by (bit_vector);
    }
}

proof fn lemma_xtime_pow_shift(a: u8, n: nat)
    ensures
        xtime_pow(xtime(a), n) == xtime(xtime_pow(a, n)),
    decreases n,
{
    if n > 0 {
        lemma_xtime_pow_shift(a, (n - 1) as nat);
    }
}

/// Multiplying the first factor by `x` multiplies the product by `x`.
proof fn lemma_partial_xtime(a: u8, b: u8, k: nat)
    ensures
        mul_partial(xtime(a), b, k) == xtime(mul_partial(a, b, k)),
    decreases k,
{
    if k > 0 {
        let n = (k - 1) as nat;
        let i = (k - 1) as u8;
        lemma_partial_xtime(a, b, n);
        lemma_xtime_pow_shift(a, n);
        let v = xtime_pow(a, n);
        assert(xtime(term(v, b, i)) == term(xtime(v), b, i)) by (bit_vector);
        lemma_xtime_linear(mul_partial(a, b, n), term(v, b, i));
    } else {
        assert(xtime(0) == 0) by (bit_vector);
    }
}

proof fn lemma_one_left(a: u8)
    ensures
        gf_mul(1, a) == a,
{
    reveal_with_fuel(mul_partial, 9);
    reveal_with_fuel(xtime_pow, 8);
    assert(xtime(1) == 2 && xtime(2) == 4 && xtime(4) == 8 && xtime(8) == 16 && xtime(16) == 32
        && xtime(32) == 64 && xtime(64) == 128) by (bit_vector);
    assert(0u8 ^ term(1, a, 0) ^ term(2, a, 1) ^ term(4, a, 2) ^ term(8, a, 3) ^ term(16, a, 4)
        ^ term(32, a, 5) ^ term(64, a, 6) ^ term(128, a, 7) == a) by (bit_vector);
}

proof fn lemma_zero_left(b: u8)
    ensures
        gf_mul(0, b) == 0,
{
    lemma_partial_linear_left(0, 0, b, 8);
    assert(0u8 ^ 0u8 == 0u8) by (bit_vector);
    let p = gf_mul(0, b);
    assert(p ^ p == 0) by (bit_vector);
}

/// `x^k * a` is `a` shifted `k` times.
proof fn lemma_pow_basis(a: u8, k: nat)
    ensures
        gf_mul(xtime_pow(1, k), a) == xtime_pow(a, k),
    decreases k,
{
    if k == 0 {
        lemma_one_left(a);
    } else {
        lemma_pow_basis(a, (k - 1) as nat);
        lemma_partial_xtime(xtime_pow(1, (k - 1) as nat), a, 8);
    }
}

/// The lowest `k` bits of `b`.
spec fn low_bits(b: u8, k: u8) -> u8 {
    if k >= 8 {
        b
    } else {
        b & (((1u8 << k) as u8) - 1) as u8
    }
}

proof fn lemma_pow_one(k: u8)
    requires
        k < 8,
    ensures
        xtime_pow(1, k as nat) == (1u8 << k) as u8,
    decreases k,
{
    if k == 0 {
        assert((1u8 << 0u8) as u8 == 1u8) by (bit_vector);
    } else {
        lemma_pow_one((k - 1) as u8);
        let j = (k - 1) as u8;
        assert(xtime((1u8 << j) as u8) == (1u8 << k) as u8) by (bit_vector)
            requires
                j < 7,
                k == j + 1,
        ;
    }
}

proof fn lemma_comm_prefix(a: u8, b: u8, k: u8)
    requires
        k <= 8,
    ensures
        mul_partial(a, b, k as nat) == gf_mul(low_bits(b, k), a),
    decreases k,
{
    if k == 0 {
        assert(low_bits(b, 0) == 0) by (bit_vector);
        lemma_zero_left(a);
    } else {
        let j = (k - 1) as u8;
        lemma_comm_prefix(a, b, j);
        let e: u8 = if (b >> j) & 1u8 == 1u8 {
            (1u8 << j) as u8
        } else {
            0
        };
        assert(low_bits(b, k) == low_bits(b, j) ^ e) by (bit_vector)
            requires
                j < 8,
                k == j + 1,
                e == (if (b >> j) & 1u8 == 1u8 {
                    (1u8 << j) as u8
                } else {
                    0u8
                }),
        ;
        lemma_partial_linear_left(low_bits(b, j), e, a, 8);
        if (b >> j) & 1u8 == 1u8 {
            lemma_pow_one(j);
            lemma_pow_basis(a, j as nat);
        } else {
            lemma_zero_left(a);
        }
    }
}

/// Multiplication commutes.
pub proof fn lemma_mul_commutative(a: u8, b: u8)
    ensures
        gf_mul(a, b) == gf_mul(b, a),
{
    lemma_comm_prefix(a, b, 8);
}

proof fn lemma_xtime_pow_right(a: u8, b: u8, n: nat)
    ensures
        xtime_pow(gf_mul(a, b), n) == gf_mul(a, xtime_pow(b, n)),
    decreases n,
{
    if n == 0 {
    } else {
        let m = (n - 1) as nat;
        lemma_xtime_pow_right(a, b, m);
        let v = xtime_pow(b, m);
        lemma_mul_commutative(a, v);
        lemma_partial_xtime(v, a, 8);
        lemma_mul_commutative(xtime(v), a);
    }
}

proof fn lemma_assoc_prefix(a: u8, b: u8, c: u8, k: nat)
    requires
        k <= 8,
    ensures
        mul_partial(gf_mul(a, b), c, k) == gf_mul(a, mul_partial(b, c, k)),
    decreases k,
{
    lemma_mul_zero_one(a);
    if k > 0 {
        let n = (k - 1) as nat;
        let i = (k - 1) as u8;
        lemma_assoc_prefix(a, b, c, n);
        lemma_xtime_pow_right(a, b, n);
        let v = xtime_pow(b, n);
        lemma_partial_linear(a, mul_partial(b, c, n), term(v, c, i), 8);
    }
}

/// Multiplication is associative.
pub proof fn lemma_mul_associative(a: u8, b: u8, c: u8)
    ensures
        gf_mul(gf_mul(a, b), c) == gf_mul(a, gf_mul(b, c)),
{
    lemma_assoc_prefix(a, b, c, 8);
}

/// `a^254` by repeated squaring: the inverse of a nonzero `a`, since every nonzero `a` has `a^255 == 1`.
pub open spec fn inverse_candidate(a: u8) -> u8 {
    let s1 = gf_mul(a, a);
    let s2 = gf_mul(s1, s1);
    let s3 = gf_mul(s2, s2);
    let s4 = gf_mul(s3, s3);
    let s5 = gf_mul(s4, s4);
    let s6 = gf_mul(s5, s5);
    let s7 = gf_mul(s6, s6);
    gf_mul(gf_mul(gf_mul(gf_mul(gf_mul(gf_mul(s1, s2), s3), s4), s5), s6), s7)
}

/// `r == a * b`, written out over the multiples `x1..x7` of `a` by `x, x^2, .., x^7`.
spec fn product_by_chain(a: u8, b: u8, r: u8, x1: u8, x2: u8, x3: u8, x4: u8, x5: u8, x6: u8, x7: u8) -> bool {
    &&& x1 == xtime(a)
    &&& x2 == xtime(x1)
    &&& x3 == xtime(x2)
    &&& x4 == xtime(x3)
    &&& x5 == xtime(x4)
    &&& x6 == xtime(x5)
    &&& x7 == xtime(x6)
    &&& r == term(a, b, 0) ^ term(x1, b, 1) ^ term(x2, b, 2) ^ term(x3, b, 3) ^ term(x4, b, 4)
        ^ term(x5, b, 5) ^ term(x6, b, 6) ^ term(x7, b, 7)
}

proof fn lemma_product_by_chain(a: u8, b: u8)
    ensures
        product_by_chain(a, b, gf_mul(a, b), xtime_pow(a, 1), xtime_pow(a, 2), xtime_pow(a, 3),
            xtime_pow(a, 4), xtime_pow(a, 5), xtime_pow(a, 6), xtime_pow(a, 7)),
{
    reveal_with_fuel(xtime_pow, 8);
    assert(xtime_pow(a, 0) == a);
    assert(mul_partial(a, b, 0) == 0);
    assert(mul_partial(a, b, 1) == 0u8 ^ term(a, b, 0));
    assert(mul_partial(a, b, 2) == mul_partial(a, b, 1) ^ term(xtime_pow(a, 1), b, 1));
    assert(mul_partial(a, b, 3) == mul_partial(a, b, 2) ^ term(xtime_pow(a, 2), b, 2));
    assert(mul_partial(a, b, 4) == mul_partial(a, b, 3) ^ term(xtime_pow(a, 3), b, 3));
    assert(mul_partial(a, b, 5) == mul_partial(a, b, 4) ^ term(xtime_pow(a, 4), b, 4));
    assert(mul_partial(a, b, 6) == mul_partial(a, b, 5) ^ term(xtime_pow(a, 5), b, 5));
    assert(mul_partial(a, b, 7) == mul_partial(a, b, 6) ^ term(xtime_pow(a, 6), b, 6));
    assert(mul_partial(a, b, 8) == mul_partial(a, b, 7) ^ term(xtime_pow(a, 7), b, 7));
    let t0 = term(a, b, 0);
    assert(0u8 ^ t0 == t0) by (bit_vector);
}

/// Every nonzero element has an inverse.
pub proof fn lemma_inverse_exists(a: u8)
    requires
        a != 0,
    ensures
        gf_mul(a, inverse_candidate(a)) == 1,
{
    let s1 = gf_mul(a, a);
    lemma_product_by_chain(a, a);
    let s2 = gf_mul(s1, s1);
    lemma_product_by_chain(s1, s1);
    let s3 = gf_mul(s2, s2);
    lemma_product_by_chain(s2, s2);
    let s4 = gf_mul(s3, s3);
    lemma_product_by_chain(s3, s3);
    let s5 = gf_mul(s4, s4);
    lemma_product_by_chain(s4, s4);
    let s6 = gf_mul(s5, s5);
    lemma_product_by_chain(s5, s5);
    let s7 = gf_mul(s6, s6);
    lemma_product_by_chain(s6, s6);
    let p2 = gf_mul(s1, s2);
    lemma_product_by_chain(s1, s2);
    let p3 = gf_mul(p2, s3);
    lemma_product_by_chain(p2, s3);
    let p4 = gf_mul(p3, s4);
    lemma_product_by_chain(p3, s4);
    let p5 = gf_mul(p4, s5);
    lemma_product_by_chain(p4, s5);
    let p6 = gf_mul(p5, s6);
    lemma_product_by_chain(p5, s6);
    let p7 = gf_mul(p6, s7);
    lemma_product_by_chain(p6, s7);
    let f = gf_mul(a, p7);
    lemma_product_by_chain(a, p7);
    let (s1_1, s1_2, s1_3, s1_4, s1_5, s1_6, s1_7) = (xtime_pow(a, 1), xtime_pow(a, 2), xtime_pow(a, 3), xtime_pow(a, 4), xtime_pow(a, 5), xtime_pow(a, 6), xtime_pow(a, 7));
    let (s2_1, s2_2, s2_3, s2_4, s2_5, s2_6, s2_7) = (xtime_pow(s1, 1), xtime_pow(s1, 2), xtime_pow(s1, 3), xtime_pow(s1, 4), xtime_pow(s1, 5), xtime_pow(s1, 6), xtime_pow(s1, 7));
    let (s3_1, s3_2, s3_3, s3_4, s3_5, s3_6, s3_7) = (xtime_pow(s2, 1), xtime_pow(s2, 2), xtime_pow(s2, 3), xtime_pow(s2, 4), xtime_pow(s2, 5), xtime_pow(s2, 6), xtime_pow(s2, 7));
    let (s4_1, s4_2, s4_3, s4_4, s4_5, s4_6, s4_7) = (xtime_pow(s3, 1), xtime_pow(s3, 2), xtime_pow(s3, 3), xtime_pow(s3, 4), xtime_pow(s3, 5), xtime_pow(s3, 6), xtime_pow(s3, 7));
    let (s5_1, s5_2, s5_3, s5_4, s5_5, s5_6, s5_7) = (xtime_pow(s4, 1), xtime_pow(s4, 2), xtime_pow(s4, 3), xtime_pow(s4, 4), xtime_pow(s4, 5), xtime_pow(s4, 6), xtime_pow(s4, 7));
    let (s6_1, s6_2, s6_3, s6_4, s6_5, s6_6, s6_7) = (xtime_pow(s5, 1), xtime_pow(s5, 2), xtime_pow(s5, 3), xtime_pow(s5, 4), xtime_pow(s5, 5), xtime_pow(s5, 6), xtime_pow(s5, 7));
    let (s7_1, s7_2, s7_3, s7_4, s7_5, s7_6, s7_7) = (xtime_pow(s6, 1), xtime_pow(s6, 2), xtime_pow(s6, 3), xtime_pow(s6, 4), xtime_pow(s6, 5), xtime_pow(s6, 6), xtime_pow(s6, 7));
    let (p2_1, p2_2, p2_3, p2_4, p2_5, p2_6, p2_7) = (xtime_pow(s1, 1), xtime_pow(s1, 2), xtime_pow(s1, 3), xtime_pow(s1, 4), xtime_pow(s1, 5), xtime_pow(s1, 6), xtime_pow(s1, 7));
    let (p3_1, p3_2, p3_3, p3_4, p3_5, p3_6, p3_7) = (xtime_pow(p2, 1), xtime_pow(p2, 2), xtime_pow(p2, 3), xtime_pow(p2, 4), xtime_pow(p2, 5), xtime_pow(p2, 6), xtime_pow(p2, 7));
    let (p4_1, p4_2, p4_3, p4_4, p4_5, p4_6, p4_7) = (xtime_pow(p3, 1), xtime_pow(p3, 2), xtime_pow(p3, 3), xtime_pow(p3, 4), xtime_pow(p3, 5), xtime_pow(p3, 6), xtime_pow(p3, 7));
    let (p5_1, p5_2, p5_3, p5_4, p5_5, p5_6, p5_7) = (xtime_pow(p4, 1), xtime_pow(p4, 2), xtime_pow(p4, 3), xtime_pow(p4, 4), xtime_pow(p4, 5), xtime_pow(p4, 6), xtime_pow(p4, 7));
    let (p6_1, p6_2, p6_3, p6_4, p6_5, p6_6, p6_7) = (xtime_pow(p5, 1), xtime_pow(p5, 2), xtime_pow(p5, 3), xtime_pow(p5, 4), xtime_pow(p5, 5), xtime_pow(p5, 6), xtime_pow(p5, 7));
    let (p7_1, p7_2, p7_3, p7_4, p7_5, p7_6, p7_7) = (xtime_pow(p6, 1), xtime_pow(p6, 2), xtime_pow(p6, 3), xtime_pow(p6, 4), xtime_pow(p6, 5), xtime_pow(p6, 6), xtime_pow(p6, 7));
    let (f_1, f_2, f_3, f_4, f_5, f_6, f_7) = (xtime_pow(a, 1), xtime_pow(a, 2), xtime_pow(a, 3), xtime_pow(a, 4), xtime_pow(a, 5), xtime_pow(a, 6), xtime_pow(a, 7));
    assert(f == 1u8) by (bit_vector)
        requires
            a != 0,
            product_by_chain(a, a, s1, s1_1, s1_2, s1_3, s1_4, s1_5, s1_6, s1_7),
            product_by_chain(s1, s1, s2, s2_1, s2_2, s2_3, s2_4, s2_5, s2_6, s2_7),
            product_by_chain(s2, s2, s3, s3_1, s3_2, s3_3, s3_4, s3_5, s3_6, s3_7),
            product_by_chain(s3, s3, s4, s4_1, s4_2, s4_3, s4_4, s4_5, s4_6, s4_7),
            product_by_chain(s4, s4, s5, s5_1, s5_2, s5_3, s5_4, s5_5, s5_6, s5_7),
            product_by_chain(s5, s5, s6, s6_1, s6_2, s6_3, s6_4, s6_5, s6_6, s6_7),
            product_by_chain(s6, s6, s7, s7_1, s7_2, s7_3, s7_4, s7_5, s7_6, s7_7),
            product_by_chain(s1, s2, p2, p2_1, p2_2, p2_3, p2_4, p2_5, p2_6, p2_7),
            product_by_chain(p2, s3, p3, p3_1, p3_2, p3_3, p3_4, p3_5, p3_6, p3_7),
            product_by_chain(p3, s4, p4, p4_1, p4_2, p4_3, p4_4, p4_5, p4_6, p4_7),
            product_by_chain(p4, s5, p5, p5_1, p5_2, p5_3, p5_4, p5_5, p5_6, p5_7),
            product_by_chain(p5, s6, p6, p6_1, p6_2, p6_3, p6_4, p6_5, p6_6, p6_7),
            product_by_chain(p6, s7, p7, p7_1, p7_2, p7_3, p7_4, p7_5, p7_6, p7_7),
            product_by_chain(a, p7, f, f_1, f_2, f_3, f_4, f_5, f_6, f_7),
    ;
}

} // verus!
