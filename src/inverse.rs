use vstd::prelude::*;

use crate::field::{
    gf_mul, gmul, inverse_candidate, lemma_inverse_exists, lemma_mul_associative,
    lemma_mul_commutative, lemma_mul_zero_one, GF256,
};

verus! {

/// The divisor of a division was the zero element.
#[derive(Clone, Copy, Debug, PartialEq, Eq, Structural)]
pub struct DivisionByZero;

/// A nonzero entry of `t` at `k` is an inverse of `k`.
pub open spec fn pairs_to_one(t: Seq<u8>, k: int) -> bool {
    t[k] != 0 ==> gf_mul(k as u8, t[k]) == 1
}

/// Table of multiplicative inverses, found by trying every candidate; entry 0 stays 0.
fn ginv() -> (res: Vec<u8>)
    ensures
        res@.len() == 256,
        res@[0] == 0,
        forall|k: int| 1 <= k < 256 ==> res@[k] != 0,
        forall|k: int| 0 <= k < 256 ==> pairs_to_one(res@, k),
{
    let mut res: Vec<u8> = vec![0u8; 256];
    for i in 1u16..256
        invariant
            res@.len() == 256,
            res@[0] == 0,
            forall|k: int| 1 <= k < i ==> res@[k] != 0,
            forall|k: int| 0 <= k < 256 ==> pairs_to_one(res@, k),
    {
        if res[i as usize] == 0 {
            let ghost w = inverse_candidate(i as u8);
            proof {
                lemma_inverse_exists(i as u8);
                lemma_mul_zero_one(i as u8);
            }
            for j in 1u16..256
                invariant
                    1 <= i < 256,
                    w != 0,
                    gf_mul(i as u8, w) == 1,
                    res@.len() == 256,
                    res@[0] == 0,
                    forall|k: int| 1 <= k < i ==> res@[k] != 0,
                    w < j ==> res@[i as int] != 0,
                    forall|k: int| 0 <= k < 256 ==> pairs_to_one(res@, k),
            {
                if gmul(i as u8, j as u8) == 1 {
                    let ghost before = res@;
                    res.set(i as usize, j as u8);
                    res.set(j as usize, i as u8);
                    proof {
                        lemma_mul_commutative(i as u8, j as u8);
                        assert forall|k: int| 0 <= k < 256 implies pairs_to_one(res@, k) by {
                            if k != i as int && k != j as int {
                                assert(res@[k] == before[k]);
                                assert(pairs_to_one(before, k));
                            }
                        }
                    }
                }
            }
        }
    }
    res
}

/// Inverses of the nonzero elements, built once and then only read.
pub struct InverseTable {
    inv: Vec<u8>,
}

impl InverseTable {
    /// The entry recorded for `a`.
    pub closed spec fn inverse(&self, a: u8) -> u8 {
        self.inv@[a as int]
    }

    /// Every nonzero element has its inverse recorded.
    pub open spec fn wf(&self) -> bool {
        &&& self.len_ok()
        &&& forall|a: u8| a != 0 ==> gf_mul(a, #[trigger] self.inverse(a)) == 1
    }

    pub closed spec fn len_ok(&self) -> bool {
        self.inv@.len() == 256
    }

    /// Builds the table by search.
    pub fn build() -> (r: InverseTable)
        ensures
            r.wf(),
    {
        let inv = ginv();
        proof {
            assert forall|a: u8| a != 0 implies gf_mul(a, inv@[a as int]) == 1 by {
                assert(pairs_to_one(inv@, a as int));
            }
        }
        InverseTable { inv }
    }

    /// The inverse of a nonzero element.
    pub fn invert(&self, a: GF256) -> (r: GF256)
        requires
            self.wf(),
            a@ != 0,
        ensures
            r@ == self.inverse(a@),
            gf_mul(a@, r@) == 1,
    {
        let r = GF256::new(self.inv[a.value() as usize]);
        assert(gf_mul(a@, self.inverse(a@)) == 1);
        r
    }
}

impl GF256 {
    /// `self * rhs^-1`; fails on a zero divisor.
    pub fn div(self, rhs: GF256, table: &InverseTable) -> (r: Result<GF256, DivisionByZero>)
        requires
            table.wf(),
        ensures
            r is Err <==> rhs@ == 0,
            r matches Ok(q) ==> q@ == gf_mul(self@, table.inverse(rhs@)),
    {
        if rhs.value() == 0 {
            return Err(DivisionByZero);
        }
        Ok(self.mul(table.invert(rhs)))
    }
}

/// A nonzero element times its recorded inverse is one.
pub proof fn lemma_inverse(t: &InverseTable, a: u8)
    requires
        t.wf(),
        a != 0,
    ensures
        gf_mul(a, t.inverse(a)) == 1,
{
}

/// Dividing a product by one of its nonzero factors gives back the other factor.
pub proof fn lemma_div_undoes_mul(t: &InverseTable, a: u8, b: u8)
    requires
        t.wf(),
        b != 0,
    ensures
        gf_mul(gf_mul(a, b), t.inverse(b)) == a,
{
    lemma_mul_associative(a, b, t.inverse(b));
    lemma_mul_zero_one(a);
}

} // verus!
