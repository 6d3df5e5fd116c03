use vstd::prelude::*;

verus! {

/// Denominator of a basis-point fraction: 10 000 basis points are 100%.
pub const BASIS_POINTS_PER_UNIT: u64 = 10000;

/// How much room to reserve beyond the request when a block is appended.
#[derive(Debug, Clone, Copy, PartialEq, Eq, Default)]
pub enum OverallocationPolicy {
    /// Reserve exactly the request.
    #[default]
    Exact,
    /// Reserve the request plus a fixed number of bytes.
    Bytes(u64),
    /// Reserve the request plus a fraction of it, given in basis points.
    Percentage(u64),
    /// Reserve the request plus a fraction of it, at most `max_add_bytes` more.
    PercentageCapped { basis_points: u64, max_add_bytes: u64 },
}

/// `floor(n * bp / 10000)`.
pub open spec fn fraction_of(n: u64, bp: u64) -> nat {
    ((n as nat) * (bp as nat) / (BASIS_POINTS_PER_UNIT as nat)) as nat
}

/// `a + b`, saturated at the largest `u64`.
pub open spec fn sat_add(a: nat, b: nat) -> nat {
    if a + b > u64::MAX {
        u64::MAX as nat
    } else {
        a + b
    }
}

pub open spec fn min_nat(a: nat, b: nat) -> nat {
    if a <= b {
        a
    } else {
        b
    }
}

impl OverallocationPolicy {
    /// The number of bytes to reserve for a request of `n` bytes.
    pub open spec fn spec_calculate(self, n: u64) -> nat {
        match self {
            OverallocationPolicy::Exact => n as nat,
            OverallocationPolicy::Bytes(k) => sat_add(n as nat, k as nat),
            OverallocationPolicy::Percentage(bp) => sat_add(n as nat, fraction_of(n, bp)),
            OverallocationPolicy::PercentageCapped { basis_points, max_add_bytes } => sat_add(
                n as nat,
                min_nat(fraction_of(n, basis_points), max_add_bytes as nat),
            ),
        }
    }

    /// Computes how many bytes to reserve for a request of `required_bytes`.
    /// The sum saturates at the largest `u64`.
    pub fn calculate(&self, required_bytes: u64) -> (r: u64)
        ensures
            r as nat == self.spec_calculate(required_bytes),
            r >= required_bytes,
    {
        match self {
            OverallocationPolicy::Exact => required_bytes,
            OverallocationPolicy::Bytes(b) => required_bytes.saturating_add(*b),
            OverallocationPolicy::Percentage(bp) => {
                let extra = fraction(required_bytes, *bp);
                required_bytes.saturating_add(extra)
            },
            OverallocationPolicy::PercentageCapped { basis_points, max_add_bytes } => {
                let over = fraction(required_bytes, *basis_points);
                let extra = if over <= *max_add_bytes {
                    over
                } else {
                    *max_add_bytes
                };
                required_bytes.saturating_add(extra)
            },
        }
    }
}

proof fn lemma_wide_product(n: u64, bp: u64)
    ensures
        (n as nat) * (bp as nat) <= u128::MAX,
{
    assert((n as nat) * (bp as nat) <= (u64::MAX as nat) * (u64::MAX as nat)) by (nonlinear_arith);
}

/// `floor(n * bp / 10000)`, saturated at the largest `u64`.
fn fraction(n: u64, bp: u64) -> (r: u64)
    ensures
        r as nat == (if fraction_of(n, bp) > u64::MAX { u64::MAX as nat } else { fraction_of(n, bp) }),
{
    proof {
        lemma_wide_product(n, bp);
    }
    let wide: u128 = (n as u128) * (bp as u128);
    let q: u128 = wide / (BASIS_POINTS_PER_UNIT as u128);
    if q > u64::MAX as u128 {
        u64::MAX
    } else {
        q as u64
    }
}

} // verus!
