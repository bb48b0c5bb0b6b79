//! Range-bound variables and the variant enumerator: extracts the
//! range upper bound from each variable occurrence's name suffix and
//! produces every combination of admissible values.

use vstd::prelude::*;
use vstd::string::StrSliceExecFns;

use crate::error::ExprError;
use crate::token::SpecToken;
use crate::token::Token;
use crate::token::Operand;
use crate::token::var_count;
use crate::tokenizer::digits_val;
use crate::tokenizer::is_digit_char;
use crate::tokenizer::lemma_digits_val_nonneg;
use crate::tokenizer::lemma_digits_val_prefix;

verus! {

/// The length of the maximal run of digit characters at the end of a
/// name.
pub open spec fn trailing_digit_len(name: Seq<char>) -> nat
    decreases name.len(),
{
    if name.len() == 0 || !is_digit_char(name.last()) {
        0
    } else {
        1 + trailing_digit_len(name.drop_last())
    }
}

/// The range upper bound denoted by a variable name: the value of its
/// trailing digit run.  A name with no trailing digits, or with a
/// trailing value that does not fit in `i32`, has no valid range.
pub open spec fn var_bound(name: Seq<char>) -> Result<i32, ExprError> {
    let k = trailing_digit_len(name);
    if k == 0 {
        Err(ExprError::InvalidVariableRange)
    } else {
        let v = digits_val(name.subrange(name.len() - k, name.len() as int));
        if v <= i32::MAX {
            Ok(v as i32)
        } else {
            Err(ExprError::InvalidVariableRange)
        }
    }
}

/// The list of range upper bounds of a token sequence, one per variable
/// occurrence in order, or the error of the leftmost invalid name.
pub open spec fn spec_bounds(ts: Seq<SpecToken>) -> Result<Seq<i32>, ExprError>
    decreases ts.len(),
{
    if ts.len() == 0 {
        Ok(Seq::empty())
    } else {
        let rest = spec_bounds(ts.drop_first());
        match ts[0] {
            SpecToken::Var(name) => match var_bound(name) {
                Err(e) => Err(e),
                Ok(b) => match rest {
                    Err(e) => Err(e),
                    Ok(bs) => Ok(seq![b] + bs),
                },
            },
            _ => rest,
        }
    }
}

/// A bound list covers exactly the variable occurrences.
pub proof fn lemma_spec_bounds_len(ts: Seq<SpecToken>)
    requires
        spec_bounds(ts) is Ok,
    ensures
        spec_bounds(ts)->Ok_0.len() == var_count(ts),
    decreases ts.len(),
{
    if ts.len() > 0 {
        lemma_spec_bounds_len(ts.drop_first());
    }
}

/// The exact trailing run length, from what bounds it on both sides.
pub proof fn lemma_trailing_exact(name: Seq<char>, s: int)
    requires
        0 <= s <= name.len(),
        forall|k: int| s <= k < name.len() ==> is_digit_char(name[k]),
        s == 0 || !is_digit_char(name[s - 1]),
    ensures
        trailing_digit_len(name) == name.len() - s,
    decreases name.len(),
{
    if s < name.len() {
        assert(forall|k: int|
            s <= k < name.drop_last().len() ==> is_digit_char(name.drop_last()[k]));
        lemma_trailing_exact(name.drop_last(), s);
    } else {
        if name.len() > 0 {
            assert(!is_digit_char(name.last()));
        }
    }
}

/// Extracts the range upper bound from a variable name's trailing
/// digit suffix.
pub fn bound_of_name(name: &str) -> (r: Result<i32, ExprError>)
    ensures
        r == var_bound(name@),
{
    let ghost nm = name@;
    let n = name.unicode_len();
    let mut s = n;
    while s > 0 && char_is_digit_at(name, s - 1)
        invariant
            nm == name@,
            n == nm.len(),
            s <= n,
            forall|k: int| s <= k < n ==> is_digit_char(nm[k]),
        decreases s,
    {
        s = s - 1;
    }
    proof {
        lemma_trailing_exact(nm, s as int);
    }
    if s == n {
        return Err(ExprError::InvalidVariableRange);
    }
    let ghost run = nm.subrange(s as int, n as int);
    let mut val: i32 = 0;
    let mut k = s;
    while k < n
        invariant
            nm == name@,
            n == nm.len(),
            s <= k <= n,
            s < n,
            forall|j: int| s <= j < n ==> is_digit_char(nm[j]),
            run == nm.subrange(s as int, n as int),
            trailing_digit_len(nm) == n - s,
            val == digits_val(nm.subrange(s as int, k as int)),
            val >= 0,
        decreases n - k,
    {
        let d = (name.get_char(k) as u32) - 48;
        let ghost prev = nm.subrange(s as int, k as int);
        let ghost cur = nm.subrange(s as int, k as int + 1);
        proof {
            assert(cur.drop_last() =~= prev);
            assert(cur.last() == nm[k as int]);
        }
        let step = match val.checked_mul(10) {
            Some(v10) => v10.checked_add(d as i32),
            None => None,
        };
        match step {
            Some(v) => {
                val = v;
                k = k + 1;
            },
            None => {
                // The suffix value only grows with more digits, so the
                // whole suffix is out of range and the name is invalid.
                proof {
                    assert(digits_val(cur) > i32::MAX);
                    lemma_digits_val_nonneg(cur);
                    assert(run.subrange(0, k as int + 1 - s) =~= cur);
                    lemma_digits_val_prefix(run, k as int + 1 - s);
                }
                return Err(ExprError::InvalidVariableRange);
            },
        }
    }
    proof {
        assert(nm.subrange(s as int, n as int) =~= run);
    }
    Ok(val)
}

/// Reads one character of a string and decides whether it is a digit.
fn char_is_digit_at(name: &str, i: usize) -> (b: bool)
    requires
        i < name@.len(),
    ensures
        b == is_digit_char(name@[i as int]),
{
    crate::tokenizer::char_is_digit(name.get_char(i))
}

/// Lifts a bound-list prefix over the result for the remaining tokens.
pub open spec fn bounds_concat(prefix: Seq<i32>, rest: Result<Seq<i32>, ExprError>) -> Result<
    Seq<i32>,
    ExprError,
> {
    match rest {
        Ok(bs) => Ok(prefix + bs),
        Err(e) => Err(e),
    }
}

/// Extracts the range upper bound of every variable occurrence of a
/// token sequence, in occurrence order, or reports the leftmost
/// invalid name.
pub fn variable_bounds(tokens: &Vec<Token>) -> (r: Result<Vec<i32>, ExprError>)
    ensures
        (match spec_bounds(tokens.deep_view()) {
            Ok(bs) => r matches Ok(v) && v@ == bs,
            Err(e) => r matches Err(e2) && e2 == e,
        }),
{
    let ghost ts = tokens.deep_view();
    let n = tokens.len();
    let mut out: Vec<i32> = Vec::new();
    let mut k: usize = 0;
    proof {
        assert(ts.subrange(0, n as int) =~= ts);
        assert(out@ =~= Seq::<i32>::empty());
        match spec_bounds(ts) {
            Ok(bs) => {
                assert(Seq::<i32>::empty() + bs =~= bs);
            },
            Err(_) => {},
        }
    }
    while k < n
        invariant
            ts == tokens.deep_view(),
            n == tokens.len(),
            ts.len() == n,
            k <= n,
            spec_bounds(ts) == bounds_concat(out@, spec_bounds(ts.subrange(k as int, n as int))),
        decreases n - k,
    {
        let ghost remaining = ts.subrange(k as int, n as int);
        let ghost rest = ts.subrange(k as int + 1, n as int);
        proof {
            assert(remaining[0] == ts[k as int]);
            assert(remaining.drop_first() =~= rest);
        }
        match &tokens[k] {
            Token::Operand(Operand::Variable(name)) => {
                match bound_of_name(name.as_str()) {
                    Ok(b) => {
                        let ghost out0 = out@;
                        out.push(b);
                        proof {
                            match spec_bounds(rest) {
                                Ok(bs) => {
                                    assert(out0 + (seq![b] + bs) =~= out0.push(b) + bs);
                                },
                                Err(_) => {},
                            }
                        }
                    },
                    Err(e) => {
                        return Err(e);
                    },
                }
            },
            _ => {},
        }
        k = k + 1;
    }
    proof {
        assert(ts.subrange(n as int, n as int) =~= Seq::<SpecToken>::empty());
        match spec_bounds(ts) {
            Ok(bs) => {
                assert(out@ + Seq::<i32>::empty() =~= out@);
            },
            Err(_) => {},
        }
    }
    Ok(out)
}

/// Each variant of `vs`, with `x` prepended.
pub open spec fn prefix_each(x: i32, vs: Seq<Seq<i32>>) -> Seq<Seq<i32>> {
    vs.map_values(|v: Seq<i32>| seq![x] + v)
}

/// The variants whose first component runs from `lo` through `b` and
/// whose remaining components run through `rest`, first component
/// outermost.
pub open spec fn var_block(lo: int, b: int, rest: Seq<Seq<i32>>) -> Seq<Seq<i32>>
    decreases b + 1 - lo,
{
    if lo > b {
        Seq::empty()
    } else {
        prefix_each(lo as i32, rest) + var_block(lo + 1, b, rest)
    }
}

/// The full cartesian product of value combinations for a bound list:
/// the i-th component of each variant runs over `1..=bounds[i]`, the
/// first component varying slowest.  An empty bound list yields the
/// single empty variant.
pub open spec fn spec_variants(bounds: Seq<i32>) -> Seq<Seq<i32>>
    decreases bounds.len(),
{
    if bounds.len() == 0 {
        seq![Seq::<i32>::empty()]
    } else {
        var_block(1, bounds[0] as int, spec_variants(bounds.drop_first()))
    }
}

/// The views of a list of materialized variants.
pub open spec fn variant_views(vs: Seq<Vec<i32>>) -> Seq<Seq<i32>> {
    vs.map_values(|v: Vec<i32>| v@)
}

/// Materializes the full cartesian product of value combinations for
/// the given list of range upper bounds, in enumeration order.
pub fn get_variants(vars: &[i32]) -> (r: Vec<Vec<i32>>)
    ensures
        variant_views(r@) == spec_variants(vars@),
    decreases vars@.len(),
{
    let mut result: Vec<Vec<i32>> = Vec::new();
    if vars.len() == 0 {
        result.push(Vec::new());
        proof {
            assert(variant_views(result@) =~= seq![Seq::<i32>::empty()]);
        }
        return result;
    }
    let rest = get_variants(&vars[1..vars.len()]);
    let ghost tail_bounds = vars@.drop_first();
    let ghost rv = spec_variants(tail_bounds);
    proof {
        assert(vars@.subrange(1, vars@.len() as int) =~= tail_bounds);
    }
    let b = vars[0];
    let mut i: i64 = 1;
    proof {
        assert(variant_views(result@) =~= Seq::<Seq<i32>>::empty());
        assert(Seq::<Seq<i32>>::empty() + var_block(1, b as int, rv) =~= var_block(
            1,
            b as int,
            rv,
        ));
    }
    while i <= b as i64
        invariant
            1 <= i,
            i <= b as i64 + 1 || i == 1,
            b == vars@[0],
            rv == spec_variants(vars@.drop_first()),
            variant_views(rest@) == rv,
            spec_variants(vars@) == variant_views(result@) + var_block(i as int, b as int, rv),
        decreases b as i64 + 1 - i,
    {
        let x = i as i32;
        let m = rest.len();
        let mut j: usize = 0;
        let ghost block0 = variant_views(result@);
        while j < m
            invariant
                1 <= i <= b as i64,
                x == i as i32,
                m == rest.len(),
                j <= m,
                rv == variant_views(rest@),
                variant_views(result@) == block0 + prefix_each(x, rv).subrange(0, j as int),
            decreases m - j,
        {
            let mut nv: Vec<i32> = Vec::new();
            nv.push(x);
            let len_j = rest[j].len();
            let mut t: usize = 0;
            while t < len_j
                invariant
                    j < m,
                    m == rest.len(),
                    len_j == rest[j as int]@.len(),
                    t <= len_j,
                    nv@ == seq![x] + rest[j as int]@.subrange(0, t as int),
                decreases len_j - t,
            {
                nv.push(rest[j][t]);
                proof {
                    assert(seq![x] + rest[j as int]@.subrange(0, t as int + 1) =~= (seq![x]
                        + rest[j as int]@.subrange(0, t as int)).push(rest[j as int]@[t as int]));
                }
                t = t + 1;
            }
            proof {
                assert(rest[j as int]@.subrange(0, len_j as int) =~= rest[j as int]@);
            }
            let ghost prev = variant_views(result@);
            result.push(nv);
            proof {
                assert(variant_views(result@) =~= prev.push(nv@));
                assert(prefix_each(x, rv)[j as int] == seq![x] + rv[j as int]);
                assert(rv[j as int] == rest[j as int]@);
                assert(prefix_each(x, rv).subrange(0, j as int + 1) =~= prefix_each(
                    x,
                    rv,
                ).subrange(0, j as int).push(prefix_each(x, rv)[j as int]));
                assert(block0 + prefix_each(x, rv).subrange(0, j as int + 1) =~= (block0
                    + prefix_each(x, rv).subrange(0, j as int)).push(seq![x] + rv[j as int]));
            }
            j = j + 1;
        }
        proof {
            assert(prefix_each(x, rv).subrange(0, m as int) =~= prefix_each(x, rv));
            assert((block0 + prefix_each(x, rv)) + var_block(i as int + 1, b as int, rv) =~= block0
                + (prefix_each(x, rv) + var_block(i as int + 1, b as int, rv)));
        }
        i = i + 1;
    }
    proof {
        assert(variant_views(result@) + var_block(i as int, b as int, rv) =~= variant_views(
            result@,
        ));
    }
    result
}

/// A named variable with its admissible value range, stepped through
/// cyclically.
#[derive(Debug)]
pub struct Variable {
    pub name: String,
    pub val: i32,
    pub start: i32,
    pub end: i32,
}

impl Variable {
    /// Builds a variable from its name: the range upper bound is the
    /// name's trailing digit suffix, the range starts at 1, and the
    /// current value starts at 0 (before the range).
    pub fn new(name: String) -> (r: Result<Variable, ExprError>)
        ensures
            (match var_bound(name@) {
                Ok(b) => r matches Ok(v) && v.name@ == name@ && v.val == 0 && v.start == 1
                    && v.end == b,
                Err(e) => r matches Err(e2) && e2 == e,
            }),
    {
        match bound_of_name(name.as_str()) {
            Ok(b) => Ok(Variable { name, val: 0, start: 1, end: b }),
            Err(e) => Err(e),
        }
    }

    /// Steps the value: back to the range start when it sits at the
    /// upper bound, one up otherwise; returns the new value.
    pub fn inc(&mut self) -> (r: i32)
        requires
            old(self).val < i32::MAX,
        ensures
            final(self).val == (if old(self).val == old(self).end {
                old(self).start as int
            } else {
                old(self).val + 1
            }),
            r == final(self).val,
            final(self).name@ == old(self).name@,
            final(self).start == old(self).start,
            final(self).end == old(self).end,
    {
        self.val = if self.val == self.end {
            self.start
        } else {
            self.val + 1
        };
        self.val
    }
}

/// How many variants a bound list implies: the product of its bounds,
/// a bound below one contributing an empty range.
pub open spec fn variant_count(bounds: Seq<i32>) -> int
    decreases bounds.len(),
{
    if bounds.len() == 0 {
        1
    } else {
        (if bounds[0] >= 1 {
            bounds[0] as int
        } else {
            0
        }) * variant_count(bounds.drop_first())
    }
}

/// A variant is admissible for a bound list when it assigns each
/// occurrence a value between 1 and that occurrence's bound.
pub open spec fn admissible(v: Seq<i32>, bounds: Seq<i32>) -> bool {
    v.len() == bounds.len() && (forall|j: int| 0 <= j < v.len() ==> 1 <= #[trigger] v[j] <= bounds[j])
}

proof fn lemma_var_block_len(lo: int, b: int, rest: Seq<Seq<i32>>)
    ensures
        var_block(lo, b, rest).len() == (if lo > b {
            0
        } else {
            (b - lo + 1) * rest.len()
        }),
    decreases b + 1 - lo,
{
    if lo <= b {
        lemma_var_block_len(lo + 1, b, rest);
        let n = rest.len() as int;
        assert(prefix_each(lo as i32, rest).len() == n);
        if lo == b {
            assert(var_block(lo + 1, b, rest).len() == 0);
            assert(var_block(lo, b, rest).len() == n);
        } else {
            assert(var_block(lo, b, rest).len() == n + (b - lo) * n);
            assert(n + (b - lo) * n == (b - lo + 1) * n) by (nonlinear_arith);
        }
    }
}

/// The enumerator produces exactly the product of the bounds many
/// variants.
pub proof fn lemma_variants_count(bounds: Seq<i32>)
    ensures
        spec_variants(bounds).len() == variant_count(bounds),
    decreases bounds.len(),
{
    if bounds.len() > 0 {
        lemma_variants_count(bounds.drop_first());
        lemma_var_block_len(1, bounds[0] as int, spec_variants(bounds.drop_first()));
    }
}

/// Each element of a block is a value in `lo..=b` prepended to an
/// element of `rest`, and carries that value as its first component.
proof fn lemma_var_block_elem(lo: int, b: int, rest: Seq<Seq<i32>>, i: int)
    requires
        1 <= lo,
        b <= i32::MAX,
        0 <= i < var_block(lo, b, rest).len(),
    ensures
        exists|x: i32, j: int|
            lo <= x as int <= b && 0 <= j < rest.len() && var_block(lo, b, rest)[i] == seq![x]
                + rest[j] && var_block(lo, b, rest)[i].len() >= 1 && var_block(lo, b, rest)[i][0]
                == x,
    decreases b + 1 - lo,
{
    if lo <= b {
        let vb = var_block(lo, b, rest);
        let pe = prefix_each(lo as i32, rest);
        if i < rest.len() {
            assert(vb[i] == pe[i]);
            assert(pe[i] == seq![lo as i32] + rest[i]);
            assert((seq![lo as i32] + rest[i])[0] == lo as i32);
        } else {
            lemma_var_block_elem(lo + 1, b, rest, i - rest.len());
            assert(vb[i] == var_block(lo + 1, b, rest)[i - rest.len()]);
        }
    }
}

/// Every enumerated variant is admissible for the bound list.
pub proof fn lemma_variants_sound(bounds: Seq<i32>, i: int)
    requires
        0 <= i < spec_variants(bounds).len(),
    ensures
        admissible(spec_variants(bounds)[i], bounds),
    decreases bounds.len(),
{
    if bounds.len() == 0 {
        assert(spec_variants(bounds)[0] =~= Seq::<i32>::empty());
    } else {
        let rest = spec_variants(bounds.drop_first());
        lemma_var_block_elem(1, bounds[0] as int, rest, i);
        let (x, j) = choose|x: i32, j: int|
            1 <= x as int <= bounds[0] as int && 0 <= j < rest.len() && var_block(
                1,
                bounds[0] as int,
                rest,
            )[i] == seq![x] + rest[j] && var_block(1, bounds[0] as int, rest)[i].len() >= 1
                && var_block(1, bounds[0] as int, rest)[i][0] == x;
        lemma_variants_sound(bounds.drop_first(), j);
        let v = spec_variants(bounds)[i];
        assert(v == seq![x] + rest[j]);
        assert(v.len() == 1 + rest[j].len());
        assert(forall|k: int| 0 <= k < rest[j].len() ==> #[trigger] v[k + 1] == rest[j][k]);
        assert forall|k: int| 1 <= k < v.len() implies 1 <= #[trigger] v[k] <= bounds[k] by {
            assert(v[k] == rest[j][k - 1]);
            assert(bounds[k] == bounds.drop_first()[k - 1]);
        }
    }
}

proof fn lemma_var_block_distinct(lo: int, b: int, rest: Seq<Seq<i32>>)
    requires
        1 <= lo,
        b <= i32::MAX,
        forall|p: int, q: int|
            #![trigger rest[p], rest[q]]
            0 <= p < q < rest.len() ==> rest[p] != rest[q],
    ensures
        forall|p: int, q: int|
            #![trigger var_block(lo, b, rest)[p], var_block(lo, b, rest)[q]]
            0 <= p < q < var_block(lo, b, rest).len() ==> var_block(lo, b, rest)[p] != var_block(
                lo,
                b,
                rest,
            )[q],
    decreases b + 1 - lo,
{
    if lo <= b {
        let vb = var_block(lo, b, rest);
        let pe = prefix_each(lo as i32, rest);
        let suffix = var_block(lo + 1, b, rest);
        lemma_var_block_distinct(lo + 1, b, rest);
        assert forall|p: int, q: int| 0 <= p < q < vb.len() implies vb[p] != vb[q] by {
            if q < rest.len() {
                assert(vb[p] == seq![lo as i32] + rest[p]);
                assert(vb[q] == seq![lo as i32] + rest[q]);
                assert(rest[p] != rest[q]);
                assert((seq![lo as i32] + rest[p]).drop_first() =~= rest[p]);
                assert((seq![lo as i32] + rest[q]).drop_first() =~= rest[q]);
            } else if p < rest.len() {
                assert(vb[p] == seq![lo as i32] + rest[p]);
                assert(vb[p][0] == lo as i32);
                lemma_var_block_elem(lo + 1, b, rest, q - rest.len());
                assert(vb[q] == suffix[q - rest.len()]);
                let (x, j) = choose|x: i32, j: int|
                    lo + 1 <= x as int <= b && 0 <= j < rest.len() && suffix[q - rest.len()]
                        == seq![x] + rest[j] && suffix[q - rest.len()].len() >= 1 && suffix[q
                        - rest.len()][0] == x;
                assert(vb[q][0] == x);
                assert(x as int != lo);
            } else {
                assert(vb[p] == suffix[p - rest.len()]);
                assert(vb[q] == suffix[q - rest.len()]);
            }
        }
    }
}

/// No two enumerated variants are equal.
pub proof fn lemma_variants_distinct(bounds: Seq<i32>)
    ensures
        forall|p: int, q: int|
            #![trigger spec_variants(bounds)[p], spec_variants(bounds)[q]]
            0 <= p < q < spec_variants(bounds).len() ==> spec_variants(bounds)[p]
                != spec_variants(bounds)[q],
    decreases bounds.len(),
{
    if bounds.len() > 0 {
        lemma_variants_distinct(bounds.drop_first());
        lemma_var_block_distinct(1, bounds[0] as int, spec_variants(bounds.drop_first()));
    }
}

proof fn lemma_var_block_complete(lo: int, b: int, rest: Seq<Seq<i32>>, x: i32, j: int)
    requires
        1 <= lo,
        b <= i32::MAX,
        lo <= x as int <= b,
        0 <= j < rest.len(),
    ensures
        var_block(lo, b, rest).contains(seq![x] + rest[j]),
    decreases b + 1 - lo,
{
    let vb = var_block(lo, b, rest);
    if x as int == lo {
        assert(vb[j] == prefix_each(lo as i32, rest)[j]);
        assert(vb[j] == seq![x] + rest[j]);
    } else {
        lemma_var_block_complete(lo + 1, b, rest, x, j);
        let suffix = var_block(lo + 1, b, rest);
        let i = choose|i: int| 0 <= i < suffix.len() && suffix[i] == seq![x] + rest[j];
        assert(vb[rest.len() + i] == seq![x] + rest[j]);
    }
}

/// Every admissible variant is enumerated: the cartesian product is
/// covered with no omissions.
pub proof fn lemma_variants_complete(bounds: Seq<i32>, v: Seq<i32>)
    requires
        admissible(v, bounds),
    ensures
        spec_variants(bounds).contains(v),
    decreases bounds.len(),
{
    if bounds.len() == 0 {
        assert(v =~= Seq::<i32>::empty());
        assert(spec_variants(bounds)[0] == v);
    } else {
        let tail = v.drop_first();
        let tb = bounds.drop_first();
        assert forall|k: int| 0 <= k < tail.len() implies 1 <= #[trigger] tail[k] <= tb[k] by {
            assert(tail[k] == v[k + 1]);
            assert(tb[k] == bounds[k + 1]);
        }
        lemma_variants_complete(tb, tail);
        let rest = spec_variants(tb);
        let j = choose|j: int| 0 <= j < rest.len() && rest[j] == tail;
        lemma_var_block_complete(1, bounds[0] as int, rest, v[0], j);
        assert(v =~= seq![v[0]] + tail);
    }
}

} // verus!
