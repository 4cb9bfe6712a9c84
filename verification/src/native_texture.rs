//! Texture sampler settings and the texel addressing they imply.

use vstd::prelude::*;

verus! {

/// How a coordinate outside the image is brought back into it.
#[derive(Debug, Clone, Copy, PartialEq, Eq, Structural)]
pub enum Wrap {
    Repeat,
    ClampToEdge,
    MirroredRepeat,
}

/// How texels are combined.
#[derive(Debug, Clone, Copy, PartialEq, Eq, Structural)]
pub enum Filter {
    Nearest,
    Linear,
}

/// A sampler: wrap modes per axis and a filter.
#[derive(Debug, Clone, Copy, PartialEq, Eq, Structural)]
pub struct Sampler {
    pub u: Wrap,
    pub v: Wrap,
    pub filter: Filter,
}

/// The texel index that integer coordinate `i` addresses along an axis of
/// `n` texels: `i` modulo `n` (Euclidean) for `Repeat`, `i` clamped to
/// `0..n` otherwise.
pub open spec fn spec_index(i: int, n: int, wrap: Wrap) -> int {
    match wrap {
        Wrap::Repeat => i % n,
        _ => if i < 0 {
            0
        } else if i > n - 1 {
            n - 1
        } else {
            i
        },
    }
}

/// The texel index that integer coordinate `i` addresses along an axis of
/// `n` texels.
pub fn index(i: i64, n: usize, wrap: Wrap) -> (r: usize)
    requires
        0 < n <= i64::MAX,
    ensures
        r == spec_index(i as int, n as int, wrap),
        r < n,
{
    let m = n as i64;
    match wrap {
        Wrap::Repeat => {
            if i >= 0 {
                let r = (i as u64) % (n as u64);
                r as usize
            } else {
                let a: u64 = (-(i + 1)) as u64;
                let ra = a % (n as u64);
                let r = (n as u64) - 1 - ra;
                proof {
                    let mm = n as int;
                    vstd::arithmetic::div_mod::lemma_fundamental_div_mod(a as int, mm);
                    let qa = (a as int) / mm;
                    assert((a as int) == mm * qa + ra);
                    assert((i as int) == (-qa - 1) * mm + (r as int)) by (nonlinear_arith)
                        requires
                            (a as int) == mm * qa + ra,
                            (i as int) == -(a as int) - 1,
                            r == mm - 1 - ra,
                    ;
                    vstd::arithmetic::div_mod::lemma_fundamental_div_mod_converse(
                        i as int,
                        mm,
                        -qa - 1,
                        r as int,
                    );
                }
                r as usize
            }
        },
        _ => {
            if i < 0 {
                0
            } else if i > m - 1 {
                (m - 1) as usize
            } else {
                i as usize
            }
        },
    }
}

} // verus!
