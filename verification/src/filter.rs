//! Post-filter evaluation.
//!
//! A filter is evaluated against the attributes of one vector. A missing
//! attribute fails the predicate; numeric range predicates apply only to
//! integer and float attributes; string comparisons are byte-wise.

use crate::fpbits::{
    cmp_i64_f64, f64_bits_is_nan, f64_is_nan, f64_le, f64_lt, f64_val, f64_val_eq,
};
use crate::types::{
    attrs_get, attrs_lookup, attrs_view, AttributeValue, AttributeValueV, Attributes, Filter,
};
use core::cmp::Ordering;
use vstd::arithmetic::power2::pow2;
use vstd::prelude::*;

verus! {

broadcast use vstd::std_specs::vec::axiom_vec_index_decreases;

/// First value bound to `field`, at the specification level.
pub open spec fn attrs_lookup_v(
    attrs: Seq<(Seq<char>, AttributeValueV)>,
    field: Seq<char>,
) -> Option<AttributeValueV>
    decreases attrs.len(),
{
    if attrs.len() == 0 {
        None
    } else if attrs[0].0 == field {
        Some(attrs[0].1)
    } else {
        attrs_lookup_v(attrs.skip(1), field)
    }
}

/// The executable lookup agrees with the specification-level lookup on the
/// attribute image.
pub proof fn lemma_lookup_view(a: Seq<(String, AttributeValue)>, field: Seq<char>)
    ensures
        attrs_lookup_v(attrs_view(a), field) == match attrs_lookup(a, field) {
            Some(v) => Some(v@),
            None => None::<AttributeValueV>,
        },
    decreases a.len(),
{
    if a.len() == 0 {
    } else {
        assert(attrs_view(a)[0] == (a[0].0@, a[0].1@));
        assert(attrs_view(a).skip(1) =~= attrs_view(a.skip(1)));
        lemma_lookup_view(a.skip(1), field);
    }
}

/// Equality of attribute values, as the engine compares them: same variant,
/// equal contents; floats by numeric value (`-0.0 == +0.0`, NaN equal to
/// nothing).
pub open spec fn attr_eq(a: AttributeValueV, b: AttributeValueV) -> bool {
    match (a, b) {
        (AttributeValueV::String(x), AttributeValueV::String(y)) => x == y,
        (AttributeValueV::Integer(x), AttributeValueV::Integer(y)) => x == y,
        (AttributeValueV::Float(x), AttributeValueV::Float(y)) => !f64_is_nan(x) && !f64_is_nan(y)
            && f64_val(x) == f64_val(y),
        (AttributeValueV::Bool(x), AttributeValueV::Bool(y)) => x == y,
        (AttributeValueV::StringList(x), AttributeValueV::StringList(y)) => x.len() == y.len() && (
        forall|i: int| 0 <= i < x.len() ==> x[i] == #[trigger] y[i]),
        _ => false,
    }
}

/// The scaled numeric value of an attribute, on the common 2^-1074 grid, if
/// the attribute is numeric and not NaN.
pub open spec fn attr_numeric(v: AttributeValueV) -> Option<int> {
    match v {
        AttributeValueV::Integer(n) => Some((n as int) * pow2(1074)),
        AttributeValueV::Float(x) => if f64_is_nan(x) {
            None
        } else {
            Some(f64_val(x))
        },
        _ => None,
    }
}

pub open spec fn bound_holds(s: int, b: Option<u64>, strict: bool, lower: bool) -> bool {
    match b {
        None => true,
        Some(bb) => !f64_is_nan(bb) && {
            if lower {
                if strict {
                    s > f64_val(bb)
                } else {
                    s >= f64_val(bb)
                }
            } else {
                if strict {
                    s < f64_val(bb)
                } else {
                    s <= f64_val(bb)
                }
            }
        },
    }
}

/// A range predicate holds of numeric attributes whose value satisfies every
/// bound that is present.
pub open spec fn in_range(
    v: AttributeValueV,
    gte: Option<u64>,
    lte: Option<u64>,
    gt: Option<u64>,
    lt: Option<u64>,
) -> bool {
    match attr_numeric(v) {
        Some(s) => bound_holds(s, gte, false, true) && bound_holds(s, lte, false, false)
            && bound_holds(s, gt, true, true) && bound_holds(s, lt, true, false),
        None => false,
    }
}

/// What it means for the attributes of one vector to match a filter.
pub open spec fn filter_matches(f: Filter, attrs: Seq<(Seq<char>, AttributeValueV)>) -> bool
    decreases f,
{
    match f {
        Filter::Eq { field, value } => match attrs_lookup_v(attrs, field@) {
            Some(v) => attr_eq(v, value@),
            None => false,
        },
        Filter::Range { field, gte, lte, gt, lt } => match attrs_lookup_v(attrs, field@) {
            Some(v) => in_range(v, gte, lte, gt, lt),
            None => false,
        },
        Filter::In { field, values } => match attrs_lookup_v(attrs, field@) {
            Some(v) => exists|i: int| 0 <= i < values@.len() && attr_eq(v, #[trigger] values@[i]@),
            None => false,
        },
        Filter::And { filters } => forall|i: int|
            0 <= i < filters@.len() ==> filter_matches(#[trigger] filters@[i], attrs),
        Filter::Or { filters } => exists|i: int|
            0 <= i < filters@.len() && filter_matches(#[trigger] filters@[i], attrs),
        Filter::Not { filter } => !filter_matches(*filter, attrs),
    }
}

/// Whether an optional filter accepts the (optional) attributes of a vector.
/// With no filter everything passes; with a filter, a vector without
/// attributes fails.
pub open spec fn passes_filter(
    f: Option<Filter>,
    attrs: Option<Seq<(Seq<char>, AttributeValueV)>>,
) -> bool {
    match f {
        None => true,
        Some(ff) => match attrs {
            Some(a) => filter_matches(ff, a),
            None => false,
        },
    }
}

/// Equality of two attribute values.
pub fn attr_value_eq(a: &AttributeValue, b: &AttributeValue) -> (r: bool)
    ensures
        r == attr_eq(a@, b@),
{
    match (a, b) {
        (AttributeValue::String(x), AttributeValue::String(y)) => *x == *y,
        (AttributeValue::Integer(x), AttributeValue::Integer(y)) => *x == *y,
        (AttributeValue::Float(x), AttributeValue::Float(y)) => {
            if f64_bits_is_nan(*x) || f64_bits_is_nan(*y) {
                false
            } else {
                f64_val_eq(*x, *y)
            }
        },
        (AttributeValue::Bool(x), AttributeValue::Bool(y)) => *x == *y,
        (AttributeValue::StringList(x), AttributeValue::StringList(y)) => {
            if x.len() != y.len() {
                false
            } else {
                let n = x.len();
                let mut i: usize = 0;
                let mut ok = true;
                while i < n
                    invariant
                        i <= n,
                        n == x@.len() == y@.len(),
                        ok == (forall|j: int| 0 <= j < i ==> x@[j]@ == #[trigger] y@[j]@),
                    decreases n - i,
                {
                    if !(x[i] == y[i]) {
                        ok = false;
                    }
                    i = i + 1;
                }
                proof {
                    let xv = crate::types::strs_view(x@);
                    let yv = crate::types::strs_view(y@);
                    if ok {
                        assert(forall|j: int| 0 <= j < xv.len() ==> xv[j] == #[trigger] yv[j]);
                    } else {
                        let w = choose|j: int| 0 <= j < x@.len() && x@[j]@ != #[trigger] y@[j]@;
                        assert(xv[w] != yv[w]);
                    }
                }
                ok
            }
        },
        _ => false,
    }
}

fn check_bound(s_int: Option<i64>, s_float: Option<u64>, b: u64, strict: bool, lower: bool) -> (r:
    bool)
    requires
        s_int is Some <==> s_float is None,
        s_float is Some ==> !f64_is_nan(s_float->0),
    ensures
        r == bound_holds(
            match s_int {
                Some(n) => (n as int) * pow2(1074),
                None => f64_val(s_float->0),
            },
            Some(b),
            strict,
            lower,
        ),
{
    if f64_bits_is_nan(b) {
        return false;
    }
    match s_int {
        Some(n) => {
            let c = cmp_i64_f64(n, b);
            if lower {
                if strict {
                    matches!(c, Ordering::Greater)
                } else {
                    !matches!(c, Ordering::Less)
                }
            } else {
                if strict {
                    matches!(c, Ordering::Less)
                } else {
                    !matches!(c, Ordering::Greater)
                }
            }
        },
        None => {
            let x = s_float.unwrap();
            if lower {
                if strict {
                    f64_lt(b, x)
                } else {
                    f64_le(b, x)
                }
            } else {
                if strict {
                    f64_lt(x, b)
                } else {
                    f64_le(x, b)
                }
            }
        },
    }
}

fn range_check(
    v: &AttributeValue,
    gte: &Option<u64>,
    lte: &Option<u64>,
    gt: &Option<u64>,
    lt: &Option<u64>,
) -> (r: bool)
    ensures
        r == in_range(v@, *gte, *lte, *gt, *lt),
{
    let (s_int, s_float): (Option<i64>, Option<u64>) = match v {
        AttributeValue::Integer(n) => (Some(*n), None),
        AttributeValue::Float(x) => {
            if f64_bits_is_nan(*x) {
                return false;
            }
            (None, Some(*x))
        },
        _ => {
            return false;
        },
    };
    let mut ok = true;
    if let Some(b) = gte {
        ok = ok && check_bound(s_int, s_float, *b, false, true);
    }
    if let Some(b) = lte {
        ok = ok && check_bound(s_int, s_float, *b, false, false);
    }
    if let Some(b) = gt {
        ok = ok && check_bound(s_int, s_float, *b, true, true);
    }
    if let Some(b) = lt {
        ok = ok && check_bound(s_int, s_float, *b, true, false);
    }
    ok
}

/// Evaluate a filter against the attributes of one vector.
#[verifier::loop_isolation(false)]
pub fn evaluate_filter(filter: &Filter, attrs: &Attributes) -> (r: bool)
    ensures
        r == filter_matches(*filter, attrs_view(attrs@)),
    decreases *filter,
{
    match filter {
        Filter::Eq { field, value } => match attrs_get(attrs, field) {
            Some(v) => {
                proof {
                    lemma_lookup_view(attrs@, field@);
                }
                attr_value_eq(v, value)
            },
            None => {
                proof {
                    lemma_lookup_view(attrs@, field@);
                }
                false
            },
        },
        Filter::Range { field, gte, lte, gt, lt } => match attrs_get(attrs, field) {
            Some(v) => {
                proof {
                    lemma_lookup_view(attrs@, field@);
                }
                range_check(v, gte, lte, gt, lt)
            },
            None => {
                proof {
                    lemma_lookup_view(attrs@, field@);
                }
                false
            },
        },
        Filter::In { field, values } => match attrs_get(attrs, field) {
            Some(v) => {
                proof {
                    lemma_lookup_view(attrs@, field@);
                }
                let n = values.len();
                let mut i: usize = 0;
                let mut found = false;
                while i < n
                    invariant
                        i <= n,
                        n == values@.len(),
                        found == (exists|j: int| 0 <= j < i && attr_eq(v@, #[trigger] values@[j]@)),
                    decreases n - i,
                {
                    if attr_value_eq(v, &values[i]) {
                        found = true;
                    }
                    i = i + 1;
                }
                found
            },
            None => {
                proof {
                    lemma_lookup_view(attrs@, field@);
                }
                false
            },
        },
        Filter::And { filters } => {
            let n = filters.len();
            let mut i: usize = 0;
            let mut ok = true;
            while i < n
                invariant
                    i <= n,
                    n == filters@.len(),
                    ok == (forall|j: int|
                        0 <= j < i ==> filter_matches(#[trigger] filters@[j], attrs_view(attrs@))),
                decreases n - i,
            {
                proof {
                    assert(decreases_to!(*filter => *filters));
                    assert(decreases_to!(*filters => filters[i as int]));
                }
                if !evaluate_filter(&filters[i], attrs) {
                    ok = false;
                }
                i = i + 1;
            }
            ok
        },
        Filter::Or { filters } => {
            let n = filters.len();
            let mut i: usize = 0;
            let mut any = false;
            while i < n
                invariant
                    i <= n,
                    n == filters@.len(),
                    any == (exists|j: int|
                        0 <= j < i && filter_matches(#[trigger] filters@[j], attrs_view(attrs@))),
                decreases n - i,
            {
                proof {
                    assert(decreases_to!(*filter => *filters));
                    assert(decreases_to!(*filters => filters[i as int]));
                }
                if evaluate_filter(&filters[i], attrs) {
                    any = true;
                }
                i = i + 1;
            }
            any
        },
        Filter::Not { filter } => !evaluate_filter(filter, attrs),
    }
}

/// Candidate pool size when a filter is present: `top_k * oversample_factor`,
/// saturating at the machine limit.
pub fn oversampled_k(top_k: usize, oversample_factor: usize) -> (r: usize)
    ensures
        top_k * oversample_factor <= usize::MAX ==> r == top_k * oversample_factor,
        top_k * oversample_factor > usize::MAX ==> r == usize::MAX,
{
    match top_k.checked_mul(oversample_factor) {
        Some(k) => k,
        None => usize::MAX,
    }
}

} // verus!
