//! The KKT model of the constrained maximum-entropy problem: the
//! unknown-variable graph and the coefficient structure of the Jacobian of
//! the stationarity system.

use vstd::prelude::*;
use crate::solver::{EntropyConstraint, VarAndValue, constraint_ok, constraints_ok};

verus! {

/// The optimizer for one global problem: `varc` variables, each over `k`
/// values, under the given exclusion constraints. Duplicate constraints in
/// the vector carry no additional meaning.
pub struct EntropyOptimizer {
    pub varc: usize,
    pub k: usize,
    pub contras: Vec<EntropyConstraint>,
}

/// Whether one constraint forbids the joint assignment
/// `var1 = val1, var2 = val2`.
pub open spec fn cstr_excludes(
    c: EntropyConstraint,
    var1: usize,
    val1: usize,
    var2: usize,
    val2: usize,
) -> bool {
    match c {
        EntropyConstraint::DoubleNeq(a, b) => val1 == val2 && ((var1 == a && var2 == b) || (var1
            == b && var2 == a)),
        EntropyConstraint::SingleNeq(vv) => (var1 == vv.var && val1 == vv.value) || (var2 == vv.var
            && val2 == vv.value),
    }
}

/// Whether some constraint of the set forbids the joint assignment
/// `var1 = val1, var2 = val2`.
pub open spec fn spec_constrained(
    cs: Seq<EntropyConstraint>,
    var1: usize,
    val1: usize,
    var2: usize,
    val2: usize,
) -> bool {
    exists|i: int| 0 <= i < cs.len() && cstr_excludes(#[trigger] cs[i], var1, val1, var2, val2)
}

/// One node of the flat unknown vector of the KKT stationarity system.
///
/// `BaseVariable` is a primal unknown: the probability of one valid joint
/// outcome of a required pair; `lagrangians` and `neg_lags` list the dual
/// nodes to which it contributes positively resp. negatively.
/// `Lagrangian` is a dual unknown forcing its members to sum to one.
/// `EquivalentSums` is a dual unknown forcing the sum over its first list to
/// equal the sum over its second: the same marginal computed through two
/// different paired partners.
#[derive(Debug)]
pub enum VariableType {
    BaseVariable {
        var1: VarAndValue,
        var2: VarAndValue,
        lagrangians: Vec<usize>,
        neg_lags: Vec<usize>,
    },
    Lagrangian(Vec<usize>),
    EquivalentSums(Vec<usize>, Vec<usize>),
}

/// Why an optimization cannot be carried out.
#[derive(Debug, Copy, Clone, PartialEq, Eq, Structural)]
pub enum EntropyError {
    /// A constraint references a variable or value outside the declared
    /// ranges, or pairs a variable with itself.
    InvalidInput,
    /// Some required pair has no valid joint outcome at all: its
    /// normalization constraint would be empty.
    Infeasible,
    /// Both the direct and the least-squares linear solves failed.
    SingularSystem,
    /// The Newton iteration exhausted its step budget before the residual
    /// norm fell below the tolerance.
    NonConvergence,
}

/// One entry of the Jacobian of the stationarity system, up to the one
/// value-dependent coefficient: `RecipDiag` stands for the entropy term
/// `1 / x[row]` on the diagonal of a primal row; the other three are the
/// constant coefficients of the linear constraint terms.
#[derive(Debug, Copy, Clone, PartialEq, Eq, Structural)]
pub enum JacCoeff {
    Zero,
    One,
    NegOne,
    RecipDiag,
}

/// Whether the node is a primal joint-probability unknown.
pub open spec fn is_base(nd: VariableType) -> bool {
    nd matches VariableType::BaseVariable { .. }
}

/// Whether the node is a normalization multiplier.
pub open spec fn is_lag(nd: VariableType) -> bool {
    nd matches VariableType::Lagrangian(_)
}

/// Whether the node is a marginal-consistency multiplier.
pub open spec fn is_equiv(nd: VariableType) -> bool {
    nd matches VariableType::EquivalentSums(_, _)
}

/// The first half of a primal node's joint outcome.
pub open spec fn base_var1(nd: VariableType) -> VarAndValue {
    match nd {
        VariableType::BaseVariable { var1, .. } => var1,
        _ => VarAndValue { var: 0, value: 0 },
    }
}

/// The second half of a primal node's joint outcome.
pub open spec fn base_var2(nd: VariableType) -> VarAndValue {
    match nd {
        VariableType::BaseVariable { var2, .. } => var2,
        _ => VarAndValue { var: 0, value: 0 },
    }
}

/// The dual nodes a primal node contributes to positively.
pub open spec fn base_pos_links(nd: VariableType) -> Seq<usize> {
    match nd {
        VariableType::BaseVariable { lagrangians, .. } => lagrangians@,
        _ => Seq::empty(),
    }
}

/// The dual nodes a primal node contributes to negatively.
pub open spec fn base_neg_links(nd: VariableType) -> Seq<usize> {
    match nd {
        VariableType::BaseVariable { neg_lags, .. } => neg_lags@,
        _ => Seq::empty(),
    }
}

/// The members of a normalization multiplier.
pub open spec fn lag_members(nd: VariableType) -> Seq<usize> {
    match nd {
        VariableType::Lagrangian(m) => m@,
        _ => Seq::empty(),
    }
}

/// The positive members of a marginal-consistency multiplier.
pub open spec fn equiv_pos(nd: VariableType) -> Seq<usize> {
    match nd {
        VariableType::EquivalentSums(p, _) => p@,
        _ => Seq::empty(),
    }
}

/// The negative members of a marginal-consistency multiplier.
pub open spec fn equiv_neg(nd: VariableType) -> Seq<usize> {
    match nd {
        VariableType::EquivalentSums(_, n) => n@,
        _ => Seq::empty(),
    }
}

/// Whether the dual node at index `l` lists primal index `i` as a positive
/// member.
pub open spec fn positive_member(u: Seq<VariableType>, l: usize, i: usize) -> bool {
    match u[l as int] {
        VariableType::Lagrangian(m) => m@.contains(i),
        VariableType::EquivalentSums(p, _) => p@.contains(i),
        VariableType::BaseVariable { .. } => false,
    }
}

/// Whether the dual node at index `l` lists primal index `i` as a negative
/// member.
pub open spec fn negative_member(u: Seq<VariableType>, l: usize, i: usize) -> bool {
    match u[l as int] {
        VariableType::EquivalentSums(_, n) => n@.contains(i),
        _ => false,
    }
}

/// Whether a primal node carries probability mass for `vv` jointly with a
/// partner variable `other`: one half of its outcome is exactly `vv` and
/// the free half belongs to `other`.
pub open spec fn node_matches(nd: VariableType, vv: VarAndValue, other: usize) -> bool {
    match nd {
        VariableType::BaseVariable { var1, var2, .. } => (var1 == vv && var2.var == other) || (var2
            == vv && var1.var == other),
        _ => false,
    }
}

/// The indices below `upto` of the primal nodes whose mass counts toward the
/// marginal of `vv` through partner `other`, in ascending order.
pub open spec fn spec_marginal_indices(
    u: Seq<VariableType>,
    vv: VarAndValue,
    other: usize,
    upto: int,
) -> Seq<usize>
    decreases upto,
{
    if upto <= 0 {
        Seq::empty()
    } else {
        let pre = spec_marginal_indices(u, vv, other, upto - 1);
        if node_matches(u[upto - 1], vv, other) {
            pre.push((upto - 1) as usize)
        } else {
            pre
        }
    }
}

/// Whether the index vector holds `x`.
fn contains_usize(v: &Vec<usize>, x: usize) -> (r: bool)
    ensures
        r == v@.contains(x),
{
    let n = v.len();
    let mut i: usize = 0;
    while i < n
        invariant
            n == v@.len(),
            i <= n,
            forall|j: int| 0 <= j < i ==> v@[j] != x,
        decreases n - i,
    {
        if v[i] == x {
            return true;
        }
        i = i + 1;
    }
    false
}

/// The indices of the primal nodes whose mass counts toward the marginal of
/// `vv` through partner `other`, in ascending order.
pub fn marginal_indices(u: &Vec<VariableType>, vv: VarAndValue, other: usize) -> (r: Vec<usize>)
    ensures
        r@ == spec_marginal_indices(u@, vv, other, u@.len() as int),
{
    let n = u.len();
    let mut result: Vec<usize> = Vec::new();
    let mut i: usize = 0;
    while i < n
        invariant
            n == u@.len(),
            i <= n,
            result@ == spec_marginal_indices(u@, vv, other, i as int),
        decreases n - i,
    {
        let hit = match &u[i] {
            VariableType::BaseVariable { var1, var2, .. } => (var1.var == vv.var && var1.value
                == vv.value && var2.var == other) || (var2.var == vv.var && var2.value == vv.value
                && var1.var == other),
            _ => false,
        };
        if hit {
            result.push(i);
        }
        i = i + 1;
    }
    result
}

/// The entry of the Jacobian of the stationarity system at `(row, col)`, as
/// a symbolic coefficient.
///
/// A primal row carries the entropy term `1 / x[row]` on the diagonal and
/// the coefficient of each dual unknown it contributes to; a dual row
/// carries the coefficient of each primal member of its constraint; every
/// dual-by-dual entry is zero.
pub open spec fn spec_jac_coeff(u: Seq<VariableType>, row: usize, col: usize) -> JacCoeff {
    match u[row as int] {
        VariableType::BaseVariable { .. } => match u[col as int] {
            VariableType::BaseVariable { .. } => if row == col {
                JacCoeff::RecipDiag
            } else {
                JacCoeff::Zero
            },
            VariableType::Lagrangian(m) => if m@.contains(row) {
                JacCoeff::One
            } else {
                JacCoeff::Zero
            },
            VariableType::EquivalentSums(p, n) => if p@.contains(row) {
                JacCoeff::One
            } else if n@.contains(row) {
                JacCoeff::NegOne
            } else {
                JacCoeff::Zero
            },
        },
        _ => match u[col as int] {
            VariableType::BaseVariable { lagrangians, neg_lags, .. } => if lagrangians@.contains(
                row,
            ) {
                JacCoeff::One
            } else if negative_row_hit(u, row, neg_lags@) {
                JacCoeff::NegOne
            } else {
                JacCoeff::Zero
            },
            _ => JacCoeff::Zero,
        },
    }
}

/// Whether a dual row reaches a primal column through its negative links:
/// only a marginal-consistency row can.
pub open spec fn negative_row_hit(u: Seq<VariableType>, row: usize, neg_lags: Seq<usize>) -> bool {
    is_equiv(u[row as int]) && neg_lags.contains(row)
}

/// Evaluates the symbolic Jacobian entry at `(row, col)` of the node list.
pub fn jacobian_coeff(u: &Vec<VariableType>, row: usize, col: usize) -> (r: JacCoeff)
    requires
        row < u@.len(),
        col < u@.len(),
    ensures
        r == spec_jac_coeff(u@, row, col),
{
    match &u[row] {
        VariableType::BaseVariable { .. } => match &u[col] {
            VariableType::BaseVariable { .. } => if row == col {
                JacCoeff::RecipDiag
            } else {
                JacCoeff::Zero
            },
            VariableType::Lagrangian(m) => if contains_usize(m, row) {
                JacCoeff::One
            } else {
                JacCoeff::Zero
            },
            VariableType::EquivalentSums(p, n) => if contains_usize(p, row) {
                JacCoeff::One
            } else if contains_usize(n, row) {
                JacCoeff::NegOne
            } else {
                JacCoeff::Zero
            },
        },
        VariableType::Lagrangian(_) => match &u[col] {
            VariableType::BaseVariable { lagrangians, .. } => if contains_usize(lagrangians, row) {
                JacCoeff::One
            } else {
                JacCoeff::Zero
            },
            _ => JacCoeff::Zero,
        },
        VariableType::EquivalentSums(_, _) => match &u[col] {
            VariableType::BaseVariable { lagrangians, neg_lags, .. } => if contains_usize(
                lagrangians,
                row,
            ) {
                JacCoeff::One
            } else if contains_usize(neg_lags, row) {
                JacCoeff::NegOne
            } else {
                JacCoeff::Zero
            },
            _ => JacCoeff::Zero,
        },
    }
}

/// Whether the unordered pair `{a, b}` already stands in the pair list.
pub open spec fn joint_pair_listed(js: Seq<(usize, usize)>, a: usize, b: usize) -> bool {
    exists|i: int| 0 <= i < js.len() && ((#[trigger] js[i]) == (a, b) || js[i] == (b, a))
}

/// The list of distinct unordered variable pairs declared by the pairwise
/// constraints of the set, in order of first occurrence. These are the pairs
/// whose joint distribution must be tracked explicitly.
pub open spec fn spec_required_joints(cs: Seq<EntropyConstraint>) -> Seq<(usize, usize)>
    decreases cs.len(),
{
    if cs.len() == 0 {
        Seq::empty()
    } else {
        let pre = spec_required_joints(cs.drop_last());
        match cs.last() {
            EntropyConstraint::DoubleNeq(a, b) => if joint_pair_listed(pre, a, b) {
                pre
            } else {
                pre.push((a, b))
            },
            EntropyConstraint::SingleNeq(_) => pre,
        }
    }
}

/// Whether variable `n` takes part in some required joint pair.
pub open spec fn spec_mentioned(js: Seq<(usize, usize)>, n: usize) -> bool {
    exists|i: int| 0 <= i < js.len() && ((#[trigger] js[i]).0 == n || js[i].1 == n)
}

/// Whether the unordered pair `{a, b}` stands in the pair vector.
fn pair_listed(js: &Vec<(usize, usize)>, a: usize, b: usize) -> (r: bool)
    ensures
        r == joint_pair_listed(js@, a, b),
{
    let n = js.len();
    let mut i: usize = 0;
    while i < n
        invariant
            n == js@.len(),
            i <= n,
            forall|j: int| 0 <= j < i ==> !((#[trigger] js@[j]) == (a, b) || js@[j] == (b, a)),
        decreases n - i,
    {
        let (x, y) = js[i];
        if (x == a && y == b) || (x == b && y == a) {
            return true;
        }
        i = i + 1;
    }
    false
}

/// The partner of variable `n` in the first required joint pair that
/// mentions it, if any. Summing the solved joint probabilities against any
/// one partner yields the marginal of `n`; the first one is the canonical
/// choice.
pub open spec fn spec_partner_of(js: Seq<(usize, usize)>, n: usize) -> Option<usize>
    decreases js.len(),
{
    if js.len() == 0 {
        None
    } else if js[0].0 == n {
        Some(js[0].1)
    } else if js[0].1 == n {
        Some(js[0].0)
    } else {
        spec_partner_of(js.drop_first(), n)
    }
}

/// Picks the partner of `n` from the first pair of the list that mentions
/// `n`; `None` exactly when no pair does.
pub fn partner_of(js: &Vec<(usize, usize)>, n: usize) -> (r: Option<usize>)
    ensures
        r == spec_partner_of(js@, n),
        r.is_some() == spec_mentioned(js@, n),
{
    let cnt = js.len();
    let mut i: usize = 0;
    proof {
        assert(js@.skip(0) =~= js@);
    }
    while i < cnt
        invariant
            cnt == js@.len(),
            i <= cnt,
            spec_partner_of(js@, n) == spec_partner_of(js@.skip(i as int), n),
            forall|j: int| 0 <= j < i ==> !((#[trigger] js@[j]).0 == n || js@[j].1 == n),
        decreases cnt - i,
    {
        let (x, y) = js[i];
        proof {
            assert(js@.skip(i as int)[0] == js@[i as int]);
            assert(js@.skip(i as int).drop_first() =~= js@.skip(i as int + 1));
        }
        if x == n {
            return Some(y);
        }
        if y == n {
            return Some(x);
        }
        i = i + 1;
    }
    proof {
        assert(js@.skip(cnt as int).len() == 0);
    }
    None
}

/// Whether some constraint of the set forbids variable `n` from taking
/// value `v` outright.
pub open spec fn spec_unary_excluded(cs: Seq<EntropyConstraint>, n: usize, v: usize) -> bool {
    exists|i: int| 0 <= i < cs.len() && (#[trigger] cs[i]) == EntropyConstraint::SingleNeq(
        VarAndValue { var: n, value: v },
    )
}

/// The values below `upto` that no unary constraint forbids for variable
/// `n`, in ascending order.
pub open spec fn spec_free_values(cs: Seq<EntropyConstraint>, n: usize, upto: int) -> Seq<usize>
    decreases upto,
{
    if upto <= 0 {
        Seq::empty()
    } else {
        let pre = spec_free_values(cs, n, upto - 1);
        if spec_unary_excluded(cs, n, (upto - 1) as usize) {
            pre
        } else {
            pre.push((upto - 1) as usize)
        }
    }
}

/// The row of valid joint outcomes of pair `(n1, n2)` with first value `k1`:
/// the second values `k2 < upto2` whose combination no constraint excludes,
/// as outcome pairs in ascending order of `k2`.
pub open spec fn spec_pair_row(
    cs: Seq<EntropyConstraint>,
    n1: usize,
    n2: usize,
    k1: usize,
    upto2: int,
) -> Seq<(VarAndValue, VarAndValue)>
    decreases upto2,
{
    if upto2 <= 0 {
        Seq::empty()
    } else {
        let pre = spec_pair_row(cs, n1, n2, k1, upto2 - 1);
        let k2 = (upto2 - 1) as usize;
        if spec_constrained(cs, n1, k1, n2, k2) {
            pre
        } else {
            pre.push(
                (VarAndValue { var: n1, value: k1 }, VarAndValue { var: n2, value: k2 }),
            )
        }
    }
}

/// The valid joint outcomes of pair `(n1, n2)` over first values
/// `k1 < upto1` and all second values below `k`, in lexicographic order of
/// `(k1, k2)`.
pub open spec fn spec_pair_rows(
    cs: Seq<EntropyConstraint>,
    n1: usize,
    n2: usize,
    k: usize,
    upto1: int,
) -> Seq<(VarAndValue, VarAndValue)>
    decreases upto1,
{
    if upto1 <= 0 {
        Seq::empty()
    } else {
        spec_pair_rows(cs, n1, n2, k, upto1 - 1) + spec_pair_row(
            cs,
            n1,
            n2,
            (upto1 - 1) as usize,
            k as int,
        )
    }
}

/// All valid joint outcomes of pair `(n1, n2)` over a `k`-by-`k` value grid,
/// in lexicographic order.
pub open spec fn spec_pair_bases(
    cs: Seq<EntropyConstraint>,
    n1: usize,
    n2: usize,
    k: usize,
) -> Seq<(VarAndValue, VarAndValue)> {
    spec_pair_rows(cs, n1, n2, k, k as int)
}

/// The concatenation of the valid joint outcomes of every required pair of
/// the list, in pair order: the primal block of the unknown vector.
pub open spec fn spec_all_bases(
    cs: Seq<EntropyConstraint>,
    js: Seq<(usize, usize)>,
    k: usize,
) -> Seq<(VarAndValue, VarAndValue)>
    decreases js.len(),
{
    if js.len() == 0 {
        Seq::empty()
    } else {
        spec_all_bases(cs, js.drop_last(), k) + spec_pair_bases(
            cs,
            js.last().0,
            js.last().1,
            k,
        )
    }
}

/// The indices below `upto` of the outcome pairs that carry mass for `vv`
/// jointly with partner `other`, in ascending order.
pub open spec fn spec_base_group(
    bases: Seq<(VarAndValue, VarAndValue)>,
    vv: VarAndValue,
    other: usize,
    upto: int,
) -> Seq<usize>
    decreases upto,
{
    if upto <= 0 {
        Seq::empty()
    } else {
        let pre = spec_base_group(bases, vv, other, upto - 1);
        if base_matches(bases[upto - 1], vv, other) {
            pre.push((upto - 1) as usize)
        } else {
            pre
        }
    }
}

/// Whether the outcome pair carries mass for `vv` jointly with `other`.
pub open spec fn base_matches(b: (VarAndValue, VarAndValue), vv: VarAndValue, other: usize) -> bool {
    (b.0 == vv && b.1.var == other) || (b.1 == vv && b.0.var == other)
}

/// Whether some required pair has no valid joint outcome at all: its
/// normalization constraint would be empty, which signals an infeasible
/// constraint set.
pub open spec fn spec_infeasible(
    cs: Seq<EntropyConstraint>,
    js: Seq<(usize, usize)>,
    k: usize,
) -> bool {
    exists|j: int| 0 <= j < js.len() && spec_pair_bases(cs, (#[trigger] js[j]).0, js[j].1, k).len()
        == 0
}

/// The contiguous index range `start .. start + count`, as a sequence.
pub open spec fn spec_lag_range(start: int, count: int) -> Seq<usize> {
    Seq::new(count as nat, |t: int| (start + t) as usize)
}

/// The dual indices below `upto` whose node lists primal index `c` as a
/// positive member, in ascending order.
pub open spec fn spec_pos_links(u: Seq<VariableType>, c: usize, upto: int) -> Seq<usize>
    decreases upto,
{
    if upto <= 0 {
        Seq::empty()
    } else {
        let pre = spec_pos_links(u, c, upto - 1);
        if positive_member(u, (upto - 1) as usize, c) {
            pre.push((upto - 1) as usize)
        } else {
            pre
        }
    }
}

/// The dual indices below `upto` whose node lists primal index `c` as a
/// negative member, in ascending order.
pub open spec fn spec_neg_links(u: Seq<VariableType>, c: usize, upto: int) -> Seq<usize>
    decreases upto,
{
    if upto <= 0 {
        Seq::empty()
    } else {
        let pre = spec_neg_links(u, c, upto - 1);
        if negative_member(u, (upto - 1) as usize, c) {
            pre.push((upto - 1) as usize)
        } else {
            pre
        }
    }
}

/// The primal block of the node list mirrors the base outcome list: node
/// `i` is the joint-probability unknown of outcome `bases[i]`.
pub open spec fn base_block_ok(
    u: Seq<VariableType>,
    bases: Seq<(VarAndValue, VarAndValue)>,
) -> bool {
    forall|i: int| 0 <= i < bases.len() ==> is_base(#[trigger] u[i]) && base_var1(u[i])
        == bases[i].0 && base_var2(u[i]) == bases[i].1
}

/// Directly after the primal block stands one normalization multiplier per
/// required pair, in pair order, whose members are exactly that pair's
/// contiguous range of primal nodes.
pub open spec fn lag_block_ok(
    u: Seq<VariableType>,
    cs: Seq<EntropyConstraint>,
    js: Seq<(usize, usize)>,
    k: usize,
) -> bool {
    let b = spec_all_bases(cs, js, k).len() as int;
    forall|t: int| 0 <= t < js.len() ==> is_lag(#[trigger] u[b + t]) && lag_members(u[b + t])
        == spec_lag_range(
        spec_all_bases(cs, js.take(t), k).len() as int,
        spec_pair_bases(cs, js[t].0, js[t].1, k).len() as int,
    )
}

/// A marginal-consistency node equates two non-empty marginal groups of the
/// same `(variable, value)` pair computed through two distinct partners.
pub open spec fn equiv_node_ok(nd: VariableType, bases: Seq<(VarAndValue, VarAndValue)>) -> bool {
    &&& is_equiv(nd)
    &&& equiv_pos(nd).len() > 0
    &&& equiv_neg(nd).len() > 0
    &&& exists|vv: VarAndValue, a: usize, b2: usize|
        a != b2 && equiv_pos(nd) == spec_base_group(bases, vv, a, bases.len() as int) && equiv_neg(
            nd,
        ) == spec_base_group(bases, vv, b2, bases.len() as int)
}

/// Every node past the primal and normalization blocks is a well-formed
/// marginal-consistency multiplier.
pub open spec fn tail_ok(
    u: Seq<VariableType>,
    cs: Seq<EntropyConstraint>,
    js: Seq<(usize, usize)>,
    k: usize,
) -> bool {
    forall|l: int| spec_all_bases(cs, js, k).len() + js.len() <= l < u.len() ==> equiv_node_ok(
        #[trigger] u[l],
        spec_all_bases(cs, js, k),
    )
}

/// The back-links of every primal node are exactly the strictly ascending
/// lists of the dual nodes whose member lists hold it — no link missing,
/// none duplicated, none out of order — and, spelled out as a membership
/// equivalence for consumers: primal node `i` lists dual node `l`
/// positively resp. negatively if and only if `l` lists `i` so, and every
/// link points into the node list.
pub open spec fn links_ok(u: Seq<VariableType>, b: int) -> bool {
    &&& forall|i: int| 0 <= i < b ==> (#[trigger] base_pos_links(u[i])) == spec_pos_links(
        u,
        (i as usize),
        u.len() as int,
    ) && base_neg_links(u[i]) == spec_neg_links(u, (i as usize), u.len() as int)
    &&& forall|i: int, l: usize| 0 <= i < b && (l as int) < u.len() ==> (#[trigger] base_pos_links(
        u[i],
    ).contains(l)) == positive_member(u, l, (i as usize))
    &&& forall|i: int, l: usize| 0 <= i < b && (l as int) < u.len() ==> (#[trigger] base_neg_links(
        u[i],
    ).contains(l)) == negative_member(u, l, (i as usize))
    &&& forall|i: int, t: int| 0 <= i < b && 0 <= t < base_pos_links(u[i]).len() ==> (
    #[trigger] base_pos_links(u[i])[t]) < u.len()
    &&& forall|i: int, t: int| 0 <= i < b && 0 <= t < base_neg_links(u[i]).len() ==> (
    #[trigger] base_neg_links(u[i])[t]) < u.len()
}

/// Below the limits, every ordered pair of distinct non-empty marginal
/// groups of the same `(variable, value)` pair has its consistency node:
/// the pairs of a variable below `var_lim`, or of variable `var_lim` with a
/// value below `val_lim`, are covered.
pub open spec fn groups_paired_below(
    u: Seq<VariableType>,
    from: int,
    bases: Seq<(VarAndValue, VarAndValue)>,
    var_lim: int,
    val_lim: int,
) -> bool {
    forall|vv: VarAndValue, a: usize, b2: usize|
        #![trigger spec_base_group(bases, vv, a, bases.len() as int), spec_base_group(bases, vv, b2, bases.len() as int)]
        ((vv.var as int) < var_lim || ((vv.var as int) == var_lim && (vv.value as int) < val_lim))
            && a != b2 && spec_base_group(bases, vv, a, bases.len() as int).len() > 0
            && spec_base_group(bases, vv, b2, bases.len() as int).len() > 0 ==> equiv_listed(
            u,
            from,
            spec_base_group(bases, vv, a, bases.len() as int),
            spec_base_group(bases, vv, b2, bases.len() as int),
        )
}

/// Every ordered pair of distinct non-empty marginal groups of the same
/// `(variable, value)` pair is equated by some marginal-consistency node of
/// the tail: no required consistency constraint is missing.
pub open spec fn equiv_complete(u: Seq<VariableType>, cs: Seq<EntropyConstraint>, k: usize) -> bool {
    let js = spec_required_joints(cs);
    let bases = spec_all_bases(cs, js, k);
    forall|vv: VarAndValue, a: usize, b2: usize|
        #![trigger spec_base_group(bases, vv, a, bases.len() as int), spec_base_group(bases, vv, b2, bases.len() as int)]
        a != b2 && spec_base_group(bases, vv, a, bases.len() as int).len() > 0 && spec_base_group(
            bases,
            vv,
            b2,
            bases.len() as int,
        ).len() > 0 ==> equiv_listed(
            u,
            bases.len() as int + js.len() as int,
            spec_base_group(bases, vv, a, bases.len() as int),
            spec_base_group(bases, vv, b2, bases.len() as int),
        )
}

/// The partners below `upto` of `(variable, value)` pair `vv` whose
/// marginal group is non-empty, in ascending order: the group keys of the
/// consistency nodes of `vv`.
pub open spec fn spec_gvars(
    bases: Seq<(VarAndValue, VarAndValue)>,
    vv: VarAndValue,
    upto: int,
) -> Seq<usize>
    decreases upto,
{
    if upto <= 0 {
        Seq::empty()
    } else {
        let pre = spec_gvars(bases, vv, upto - 1);
        let n2 = (upto - 1) as usize;
        if n2 != vv.var && spec_base_group(bases, vv, n2, bases.len() as int).len() > 0 {
            pre.push(n2)
        } else {
            pre
        }
    }
}

/// The `(positive, negative)` member views of the consistency nodes whose
/// positive group is `gv[i1]`, against the second groups `gv[.. upto2]`
/// other than `gv[i1]` itself, in order.
pub open spec fn spec_equiv_row(
    bases: Seq<(VarAndValue, VarAndValue)>,
    vv: VarAndValue,
    gv: Seq<usize>,
    i1: int,
    upto2: int,
) -> Seq<(Seq<usize>, Seq<usize>)>
    decreases upto2,
{
    if upto2 <= 0 {
        Seq::empty()
    } else {
        let pre = spec_equiv_row(bases, vv, gv, i1, upto2 - 1);
        if upto2 - 1 == i1 {
            pre
        } else {
            pre.push(
                (
                    spec_base_group(bases, vv, gv[i1], bases.len() as int),
                    spec_base_group(bases, vv, gv[upto2 - 1], bases.len() as int),
                ),
            )
        }
    }
}

/// The member views of the consistency nodes of `vv` over first groups
/// `gv[.. upto1]`, row by row.
pub open spec fn spec_equiv_rows(
    bases: Seq<(VarAndValue, VarAndValue)>,
    vv: VarAndValue,
    gv: Seq<usize>,
    upto1: int,
) -> Seq<(Seq<usize>, Seq<usize>)>
    decreases upto1,
{
    if upto1 <= 0 {
        Seq::empty()
    } else {
        spec_equiv_rows(bases, vv, gv, upto1 - 1) + spec_equiv_row(
            bases,
            vv,
            gv,
            upto1 - 1,
            gv.len() as int,
        )
    }
}

/// The member views of all consistency nodes of one `(variable, value)`
/// pair: one per ordered pair of its distinct non-empty partner groups,
/// none when fewer than two groups exist.
pub open spec fn spec_vv_equivs(
    bases: Seq<(VarAndValue, VarAndValue)>,
    vv: VarAndValue,
    varc: int,
) -> Seq<(Seq<usize>, Seq<usize>)> {
    let gv = spec_gvars(bases, vv, varc);
    if gv.len() <= 1 {
        Seq::empty()
    } else {
        spec_equiv_rows(bases, vv, gv, gv.len() as int)
    }
}

/// The member views of the consistency nodes of variable `n1` over values
/// below `upto_val`, in ascending value order.
pub open spec fn spec_tail_vals(
    bases: Seq<(VarAndValue, VarAndValue)>,
    n1: usize,
    varc: int,
    upto_val: int,
) -> Seq<(Seq<usize>, Seq<usize>)>
    decreases upto_val,
{
    if upto_val <= 0 {
        Seq::empty()
    } else {
        spec_tail_vals(bases, n1, varc, upto_val - 1) + spec_vv_equivs(
            bases,
            VarAndValue { var: n1, value: ((upto_val - 1) as usize) },
            varc,
        )
    }
}

/// The member views of the consistency nodes of variables below `upto1`,
/// in ascending variable order.
pub open spec fn spec_tail_upto(
    bases: Seq<(VarAndValue, VarAndValue)>,
    varc: int,
    k: int,
    upto1: int,
) -> Seq<(Seq<usize>, Seq<usize>)>
    decreases upto1,
{
    if upto1 <= 0 {
        Seq::empty()
    } else {
        spec_tail_upto(bases, varc, k, upto1 - 1) + spec_tail_vals(
            bases,
            ((upto1 - 1) as usize),
            varc,
            k,
        )
    }
}

/// The member views of the whole consistency-node block, in construction
/// order: variables ascending, values ascending, then ordered group pairs.
pub open spec fn spec_tail(
    bases: Seq<(VarAndValue, VarAndValue)>,
    varc: int,
    k: int,
) -> Seq<(Seq<usize>, Seq<usize>)> {
    spec_tail_upto(bases, varc, k, varc)
}

/// The node list from index `from` on consists of exactly one
/// marginal-consistency node per entry of `specs`, in order, with exactly
/// those member lists.
pub open spec fn tail_matches(
    u: Seq<VariableType>,
    from: int,
    specs: Seq<(Seq<usize>, Seq<usize>)>,
) -> bool {
    &&& u.len() == from + specs.len()
    &&& forall|t: int| 0 <= t < specs.len() ==> is_equiv(#[trigger] u[from + t]) && equiv_pos(
        u[from + t],
    ) == specs[t].0 && equiv_neg(u[from + t]) == specs[t].1
}

/// A matched tail extends by one matching node.
proof fn lemma_tail_matches_push(
    u: Seq<VariableType>,
    nd: VariableType,
    from: int,
    specs: Seq<(Seq<usize>, Seq<usize>)>,
    pos: Seq<usize>,
    neg: Seq<usize>,
)
    requires
        tail_matches(u, from, specs),
        0 <= from,
        is_equiv(nd),
        equiv_pos(nd) == pos,
        equiv_neg(nd) == neg,
    ensures
        tail_matches(u.push(nd), from, specs.push((pos, neg))),
{
    let u2 = u.push(nd);
    let s2 = specs.push((pos, neg));
    assert forall|t: int| 0 <= t < s2.len() implies is_equiv(#[trigger] u2[from + t]) && equiv_pos(
        u2[from + t],
    ) == s2[t].0 && equiv_neg(u2[from + t]) == s2[t].1 by {
        if t < specs.len() {
            assert(u2[from + t] == u[from + t]);
            assert(s2[t] == specs[t]);
        } else {
            assert(u2[from + t] == nd);
        }
    }
}

/// The full characterization of a node list built for constraint set `cs`
/// over `varc` variables of `k` values each: the primal block enumerates
/// the valid joint outcomes of every required pair in order; one
/// normalization multiplier per pair follows; the tail is exactly one
/// marginal-consistency multiplier per ordered pair of distinct non-empty
/// partner groups, in ascending variable, value and partner order; and the
/// primal back-links are exactly the ascending lists induced by the dual
/// member lists. This pins the node list completely.
pub open spec fn built_from(
    u: Seq<VariableType>,
    cs: Seq<EntropyConstraint>,
    varc: usize,
    k: usize,
) -> bool {
    let js = spec_required_joints(cs);
    let bases = spec_all_bases(cs, js, k);
    &&& bases.len() + js.len() <= u.len()
    &&& base_block_ok(u, bases)
    &&& lag_block_ok(u, cs, js, k)
    &&& tail_ok(u, cs, js, k)
    &&& tail_matches(
        u,
        bases.len() as int + js.len() as int,
        spec_tail(bases, varc as int, k as int),
    )
    &&& links_ok(u, bases.len() as int)
    &&& equiv_complete(u, cs, k)
}

/// Appending one pair to the list appends exactly its valid outcomes to the
/// primal block.
pub proof fn lemma_all_bases_step(
    cs: Seq<EntropyConstraint>,
    js: Seq<(usize, usize)>,
    k: usize,
    t: int,
)
    requires
        0 <= t < js.len(),
    ensures
        spec_all_bases(cs, js.take(t + 1), k) == spec_all_bases(cs, js.take(t), k)
            + spec_pair_bases(cs, js[t].0, js[t].1, k),
{
    assert(js.take(t + 1).drop_last() =~= js.take(t));
    assert(js.take(t + 1).last() == js[t]);
}

/// The primal block only grows as pairs are appended.
pub proof fn lemma_all_bases_prefix_len(
    cs: Seq<EntropyConstraint>,
    js: Seq<(usize, usize)>,
    k: usize,
    t1: int,
    t2: int,
)
    requires
        0 <= t1 <= t2 <= js.len(),
    ensures
        spec_all_bases(cs, js.take(t1), k).len() <= spec_all_bases(cs, js.take(t2), k).len(),
    decreases t2 - t1,
{
    if t1 < t2 {
        lemma_all_bases_prefix_len(cs, js, k, t1, t2 - 1);
        lemma_all_bases_step(cs, js, k, t2 - 1);
    }
}

/// Membership, ordering and range of the positive link list: it holds
/// exactly the dual indices below `upto` that list `c` positively, in
/// strictly ascending order.
pub proof fn lemma_pos_links_elems(u: Seq<VariableType>, c: usize, upto: int)
    requires
        upto <= u.len(),
        u.len() <= usize::MAX,
    ensures
        forall|t: int| 0 <= t < spec_pos_links(u, c, upto).len() ==> (#[trigger] spec_pos_links(
            u,
            c,
            upto,
        )[t]) < upto,
        forall|t1: int, t2: int|
            0 <= t1 < t2 < spec_pos_links(u, c, upto).len() ==> spec_pos_links(u, c, upto)[t1]
                < spec_pos_links(u, c, upto)[t2],
        forall|l: usize| spec_pos_links(u, c, upto).contains(l) <==> ((l as int) < upto
            && positive_member(u, l, c)),
    decreases upto,
{
    if upto > 0 {
        lemma_pos_links_elems(u, c, upto - 1);
        let pre = spec_pos_links(u, c, upto - 1);
        let cur = spec_pos_links(u, c, upto);
        let l0 = (upto - 1) as usize;
        if positive_member(u, l0, c) {
            assert(cur == pre.push(l0));
            assert forall|l: usize| cur.contains(l) implies ((l as int) < upto && positive_member(
                u,
                l,
                c,
            )) by {
                let t = choose|t: int| 0 <= t < cur.len() && cur[t] == l;
                if t < pre.len() {
                    assert(pre[t] == l);
                    assert(pre.contains(l));
                } else {
                    assert(l == l0);
                }
            }
            assert forall|l: usize| ((l as int) < upto && positive_member(u, l, c)) implies
                cur.contains(l) by {
                if (l as int) < upto - 1 {
                    assert(pre.contains(l));
                    let t = choose|t: int| 0 <= t < pre.len() && pre[t] == l;
                    assert(cur[t] == l);
                } else {
                    assert(cur[cur.len() - 1] == l);
                }
            }
        } else {
            assert(cur == pre);
            assert forall|l: usize| ((l as int) < upto && positive_member(u, l, c)) implies
                cur.contains(l) by {
                assert(l != l0);
                assert((l as int) < upto - 1);
                assert(pre.contains(l));
            }
            assert forall|l: usize| cur.contains(l) implies ((l as int) < upto && positive_member(
                u,
                l,
                c,
            )) by {
                assert(pre.contains(l));
            }
        }
    }
}

/// Membership, ordering and range of the negative link list, as for the
/// positive one.
pub proof fn lemma_neg_links_elems(u: Seq<VariableType>, c: usize, upto: int)
    requires
        upto <= u.len(),
        u.len() <= usize::MAX,
    ensures
        forall|t: int| 0 <= t < spec_neg_links(u, c, upto).len() ==> (#[trigger] spec_neg_links(
            u,
            c,
            upto,
        )[t]) < upto,
        forall|t1: int, t2: int|
            0 <= t1 < t2 < spec_neg_links(u, c, upto).len() ==> spec_neg_links(u, c, upto)[t1]
                < spec_neg_links(u, c, upto)[t2],
        forall|l: usize| spec_neg_links(u, c, upto).contains(l) <==> ((l as int) < upto
            && negative_member(u, l, c)),
    decreases upto,
{
    if upto > 0 {
        lemma_neg_links_elems(u, c, upto - 1);
        let pre = spec_neg_links(u, c, upto - 1);
        let cur = spec_neg_links(u, c, upto);
        let l0 = (upto - 1) as usize;
        if negative_member(u, l0, c) {
            assert(cur == pre.push(l0));
            assert forall|l: usize| cur.contains(l) implies ((l as int) < upto && negative_member(
                u,
                l,
                c,
            )) by {
                let t = choose|t: int| 0 <= t < cur.len() && cur[t] == l;
                if t < pre.len() {
                    assert(pre[t] == l);
                    assert(pre.contains(l));
                } else {
                    assert(l == l0);
                }
            }
            assert forall|l: usize| ((l as int) < upto && negative_member(u, l, c)) implies
                cur.contains(l) by {
                if (l as int) < upto - 1 {
                    assert(pre.contains(l));
                    let t = choose|t: int| 0 <= t < pre.len() && pre[t] == l;
                    assert(cur[t] == l);
                } else {
                    assert(cur[cur.len() - 1] == l);
                }
            }
        } else {
            assert(cur == pre);
            assert forall|l: usize| ((l as int) < upto && negative_member(u, l, c)) implies
                cur.contains(l) by {
                assert(l != l0);
                assert((l as int) < upto - 1);
                assert(pre.contains(l));
            }
            assert forall|l: usize| cur.contains(l) implies ((l as int) < upto && negative_member(
                u,
                l,
                c,
            )) by {
                assert(pre.contains(l));
            }
        }
    }
}

/// Two node lists whose dual nodes agree pointwise give primal index `c`
/// the same link lists.
pub proof fn lemma_links_congruence(u1: Seq<VariableType>, u2: Seq<VariableType>, c: usize, upto: int)
    requires
        forall|l: usize| (l as int) < upto ==> positive_member(u1, l, c) == positive_member(
            u2,
            l,
            c,
        ) && negative_member(u1, l, c) == negative_member(u2, l, c),
    ensures
        spec_pos_links(u1, c, upto) == spec_pos_links(u2, c, upto),
        spec_neg_links(u1, c, upto) == spec_neg_links(u2, c, upto),
    decreases upto,
{
    if upto > 0 {
        lemma_links_congruence(u1, u2, c, upto - 1);
        assert(positive_member(u1, (upto - 1) as usize, c) == positive_member(
            u2,
            (upto - 1) as usize,
            c,
        ));
        assert(negative_member(u1, (upto - 1) as usize, c) == negative_member(
            u2,
            (upto - 1) as usize,
            c,
        ));
    }
}

/// Whether the set declares the pairwise exclusion `DoubleNeq(a, b)` in
/// exactly this orientation.
pub open spec fn spec_pairwise_declared(cs: Seq<EntropyConstraint>, a: usize, b: usize) -> bool {
    exists|i: int| 0 <= i < cs.len() && (#[trigger] cs[i]) == EntropyConstraint::DoubleNeq(a, b)
}

/// Every index of a built unknown vector falls in one of the three blocks:
/// primal nodes first, then one normalization multiplier per pair, then the
/// marginal-consistency multipliers.
pub proof fn lemma_node_class(
    u: Seq<VariableType>,
    cs: Seq<EntropyConstraint>,
    varc: usize,
    k: usize,
    i: int,
)
    requires
        built_from(u, cs, varc, k),
        0 <= i < u.len(),
    ensures
        i < spec_all_bases(cs, spec_required_joints(cs), k).len() ==> is_base(u[i]),
        spec_all_bases(cs, spec_required_joints(cs), k).len() <= i < spec_all_bases(
            cs,
            spec_required_joints(cs),
            k,
        ).len() + spec_required_joints(cs).len() ==> is_lag(u[i]),
        spec_all_bases(cs, spec_required_joints(cs), k).len() + spec_required_joints(cs).len()
            <= i ==> is_equiv(u[i]),
{
    let js = spec_required_joints(cs);
    let bases = spec_all_bases(cs, js, k);
    let b = bases.len() as int;
    if i < b {
        assert(is_base(u[i]));
    } else if i < b + js.len() {
        let t = i - b;
        assert(is_lag(u[b + t]));
        assert(u[b + t] == u[i]);
    } else {
        assert(equiv_node_ok(u[i], bases));
    }
}

/// Every outcome of one pair row pairs `(n1, k1)` with some second value
/// below `upto2`, and no constraint excludes it.
pub proof fn lemma_pair_row_sound(
    cs: Seq<EntropyConstraint>,
    n1: usize,
    n2: usize,
    k1: usize,
    upto2: int,
)
    ensures
        forall|t: int| 0 <= t < spec_pair_row(cs, n1, n2, k1, upto2).len() ==> {
            let e = #[trigger] spec_pair_row(cs, n1, n2, k1, upto2)[t];
            e.0.var == n1 && e.1.var == n2 && e.0.value == k1 && (e.1.value as int) < upto2
                && !spec_constrained(cs, e.0.var, e.0.value, e.1.var, e.1.value)
        },
    decreases upto2,
{
    if upto2 > 0 {
        lemma_pair_row_sound(cs, n1, n2, k1, upto2 - 1);
        let pre = spec_pair_row(cs, n1, n2, k1, upto2 - 1);
        let cur = spec_pair_row(cs, n1, n2, k1, upto2);
        assert forall|t: int| 0 <= t < cur.len() implies {
            let e = #[trigger] cur[t];
            e.0.var == n1 && e.1.var == n2 && e.0.value == k1 && (e.1.value as int) < upto2
                && !spec_constrained(cs, e.0.var, e.0.value, e.1.var, e.1.value)
        } by {
            if t < pre.len() {
                assert(cur[t] == pre[t]);
            } else {
                assert(!spec_constrained(cs, n1, k1, n2, (upto2 - 1) as usize));
            }
        }
    }
}

/// Every outcome of a pair's grid has values below `k`, first variable
/// `n1`, second variable `n2`, and no constraint excludes it.
pub proof fn lemma_pair_rows_sound(
    cs: Seq<EntropyConstraint>,
    n1: usize,
    n2: usize,
    k: usize,
    upto1: int,
)
    requires
        upto1 <= k,
    ensures
        forall|t: int| 0 <= t < spec_pair_rows(cs, n1, n2, k, upto1).len() ==> {
            let e = #[trigger] spec_pair_rows(cs, n1, n2, k, upto1)[t];
            e.0.var == n1 && e.1.var == n2 && e.0.value < k && e.1.value < k && !spec_constrained(
                cs,
                e.0.var,
                e.0.value,
                e.1.var,
                e.1.value,
            )
        },
    decreases upto1,
{
    if upto1 > 0 {
        lemma_pair_rows_sound(cs, n1, n2, k, upto1 - 1);
        lemma_pair_row_sound(cs, n1, n2, (upto1 - 1) as usize, k as int);
        let pre = spec_pair_rows(cs, n1, n2, k, upto1 - 1);
        let row = spec_pair_row(cs, n1, n2, (upto1 - 1) as usize, k as int);
        let cur = spec_pair_rows(cs, n1, n2, k, upto1);
        assert forall|t: int| 0 <= t < cur.len() implies {
            let e = #[trigger] cur[t];
            e.0.var == n1 && e.1.var == n2 && e.0.value < k && e.1.value < k && !spec_constrained(
                cs,
                e.0.var,
                e.0.value,
                e.1.var,
                e.1.value,
            )
        } by {
            if t < pre.len() {
                assert(cur[t] == pre[t]);
            } else {
                assert(cur[t] == row[t - pre.len()]);
            }
        }
    }
}

/// Every outcome of the primal block belongs to some listed pair, has
/// values below `k`, and no constraint excludes it.
pub proof fn lemma_all_bases_sound(cs: Seq<EntropyConstraint>, js: Seq<(usize, usize)>, k: usize)
    ensures
        forall|i: int| 0 <= i < spec_all_bases(cs, js, k).len() ==> {
            let e = #[trigger] spec_all_bases(cs, js, k)[i];
            joint_pair_listed(js, e.0.var, e.1.var) && e.0.value < k && e.1.value < k
                && !spec_constrained(cs, e.0.var, e.0.value, e.1.var, e.1.value)
        },
    decreases js.len(),
{
    if js.len() > 0 {
        lemma_all_bases_sound(cs, js.drop_last(), k);
        lemma_pair_rows_sound(cs, js.last().0, js.last().1, k, k as int);
        let pre = spec_all_bases(cs, js.drop_last(), k);
        let row = spec_pair_bases(cs, js.last().0, js.last().1, k);
        assert forall|i: int| 0 <= i < spec_all_bases(cs, js, k).len() implies {
            let e = #[trigger] spec_all_bases(cs, js, k)[i];
            joint_pair_listed(js, e.0.var, e.1.var) && e.0.value < k && e.1.value < k
                && !spec_constrained(cs, e.0.var, e.0.value, e.1.var, e.1.value)
        } by {
            let e = spec_all_bases(cs, js, k)[i];
            if i < pre.len() {
                assert(e == pre[i]);
                assert(joint_pair_listed(js.drop_last(), e.0.var, e.1.var));
                let t = choose|t: int| 0 <= t < js.drop_last().len() && ((#[trigger] js.drop_last()[t])
                    == (e.0.var, e.1.var) || js.drop_last()[t] == (e.1.var, e.0.var));
                assert(js[t] == js.drop_last()[t]);
            } else {
                assert(e == row[i - pre.len()]);
                assert(js[js.len() - 1] == (js.last().0, js.last().1));
                assert(joint_pair_listed(js, e.0.var, e.1.var));
            }
        }
    }
}

/// A node list whose entries below `upto` never match `(vv, other)` yields
/// an empty marginal group.
pub proof fn lemma_marginal_empty(u: Seq<VariableType>, vv: VarAndValue, other: usize, upto: int)
    requires
        forall|j: int| 0 <= j < upto ==> !node_matches(#[trigger] u[j], vv, other),
    ensures
        spec_marginal_indices(u, vv, other, upto).len() == 0,
    decreases upto,
{
    if upto > 0 {
        lemma_marginal_empty(u, vv, other, upto - 1);
    }
}

/// A unary exclusion empties the marginal of the excluded `(variable,
/// value)` pair: no primal node of a built unknown vector carries mass for
/// it, through any partner.
pub proof fn lemma_unary_exclusion_no_mass(
    u: Seq<VariableType>,
    cs: Seq<EntropyConstraint>,
    varc: usize,
    k: usize,
    vv: VarAndValue,
    other: usize,
)
    requires
        built_from(u, cs, varc, k),
        spec_unary_excluded(cs, vv.var, vv.value),
    ensures
        spec_marginal_indices(u, vv, other, u.len() as int).len() == 0,
{
    let js = spec_required_joints(cs);
    let bases = spec_all_bases(cs, js, k);
    lemma_all_bases_sound(cs, js, k);
    let ci = choose|i: int| 0 <= i < cs.len() && (#[trigger] cs[i]) == EntropyConstraint::SingleNeq(
        vv,
    );
    assert forall|j: int| 0 <= j < u.len() implies !node_matches(#[trigger] u[j], vv, other) by {
        if j < bases.len() {
            assert(is_base(u[j]) && base_var1(u[j]) == bases[j].0 && base_var2(u[j]) == bases[j].1);
            if node_matches(u[j], vv, other) {
                assert(cstr_excludes(cs[ci], bases[j].0.var, bases[j].0.value, bases[j].1.var, bases[j].1.value));
                assert(spec_constrained(cs, bases[j].0.var, bases[j].0.value, bases[j].1.var, bases[j].1.value));
            }
        } else {
            lemma_node_class(u, cs, varc, k, j);
        }
    }
    lemma_marginal_empty(u, vv, other, u.len() as int);
}

/// A pairwise exclusion keeps every equal-value joint outcome of the
/// declared pair out of the unknown vector: no probability mass is ever
/// assigned to the two variables sharing a value.
pub proof fn lemma_pairwise_exclusion_no_equal_mass(
    u: Seq<VariableType>,
    cs: Seq<EntropyConstraint>,
    varc: usize,
    k: usize,
    a: usize,
    b: usize,
)
    requires
        built_from(u, cs, varc, k),
        spec_pairwise_declared(cs, a, b),
    ensures
        forall|i: int| 0 <= i < u.len() && is_base(#[trigger] u[i]) ==> !((((base_var1(u[i]).var
            == a && base_var2(u[i]).var == b) || (base_var1(u[i]).var == b && base_var2(u[i]).var
            == a))) && base_var1(u[i]).value == base_var2(u[i]).value),
{
    let js = spec_required_joints(cs);
    let bases = spec_all_bases(cs, js, k);
    lemma_all_bases_sound(cs, js, k);
    let ci = choose|i: int| 0 <= i < cs.len() && (#[trigger] cs[i]) == EntropyConstraint::DoubleNeq(
        a,
        b,
    );
    assert forall|i: int| 0 <= i < u.len() && is_base(#[trigger] u[i]) implies !((((base_var1(
        u[i],
    ).var == a && base_var2(u[i]).var == b) || (base_var1(u[i]).var == b && base_var2(u[i]).var
        == a))) && base_var1(u[i]).value == base_var2(u[i]).value) by {
        if i < bases.len() {
            if ((base_var1(u[i]).var == a && base_var2(u[i]).var == b) || (base_var1(u[i]).var == b
                && base_var2(u[i]).var == a)) && base_var1(u[i]).value == base_var2(u[i]).value {
                assert(cstr_excludes(cs[ci], bases[i].0.var, bases[i].0.value, bases[i].1.var, bases[i].1.value));
                assert(spec_constrained(cs, bases[i].0.var, bases[i].0.value, bases[i].1.var, bases[i].1.value));
            }
        } else {
            lemma_node_class(u, cs, varc, k, i);
        }
    }
}

/// Over the primal block, selecting marginal indices from the nodes agrees
/// with selecting them from the outcome list itself.
proof fn lemma_marginal_group_upto(
    u: Seq<VariableType>,
    bases: Seq<(VarAndValue, VarAndValue)>,
    vv: VarAndValue,
    other: usize,
    upto: int,
)
    requires
        base_block_ok(u, bases),
        0 <= upto <= bases.len(),
        bases.len() <= u.len(),
    ensures
        spec_marginal_indices(u, vv, other, upto) == spec_base_group(bases, vv, other, upto),
    decreases upto,
{
    if upto > 0 {
        lemma_marginal_group_upto(u, bases, vv, other, upto - 1);
        assert(is_base(u[upto - 1]));
        assert(node_matches(u[upto - 1], vv, other) == base_matches(bases[upto - 1], vv, other));
    }
}

/// Nodes past the primal block never carry marginal mass, so the selection
/// is unchanged by them.
proof fn lemma_marginal_stable_above(
    u: Seq<VariableType>,
    vv: VarAndValue,
    other: usize,
    b: int,
    upto: int,
)
    requires
        0 <= b <= upto <= u.len(),
        forall|l: int| b <= l < upto ==> !is_base(#[trigger] u[l]),
    ensures
        spec_marginal_indices(u, vv, other, upto) == spec_marginal_indices(u, vv, other, b),
    decreases upto - b,
{
    if upto > b {
        lemma_marginal_stable_above(u, vv, other, b, upto - 1);
        assert(!node_matches(u[upto - 1], vv, other));
    }
}

/// The marginal selection over the whole unknown vector equals the base
/// group of the outcome list.
pub proof fn lemma_marginal_equals_group(
    u: Seq<VariableType>,
    cs: Seq<EntropyConstraint>,
    varc: usize,
    k: usize,
    vv: VarAndValue,
    other: usize,
)
    requires
        built_from(u, cs, varc, k),
    ensures
        spec_marginal_indices(u, vv, other, u.len() as int) == spec_base_group(
            spec_all_bases(cs, spec_required_joints(cs), k),
            vv,
            other,
            spec_all_bases(cs, spec_required_joints(cs), k).len() as int,
        ),
{
    let js = spec_required_joints(cs);
    let bases = spec_all_bases(cs, js, k);
    let b = bases.len() as int;
    assert forall|l: int| b <= l < u.len() implies !is_base(#[trigger] u[l]) by {
        lemma_node_class(u, cs, varc, k, l);
    }
    lemma_marginal_stable_above(u, vv, other, b, u.len() as int);
    lemma_marginal_group_upto(u, bases, vv, other, b);
}

/// Reducing a marginal through any one partner is valid: for any two
/// partners whose selections are non-empty, some marginal-consistency node
/// of the vector equates exactly those two selections, so the solved sums
/// agree at any stationary point.
pub proof fn lemma_partner_choice_consistent(
    u: Seq<VariableType>,
    cs: Seq<EntropyConstraint>,
    varc: usize,
    k: usize,
    vv: VarAndValue,
    a: usize,
    b2: usize,
)
    requires
        built_from(u, cs, varc, k),
        a != b2,
        spec_marginal_indices(u, vv, a, u.len() as int).len() > 0,
        spec_marginal_indices(u, vv, b2, u.len() as int).len() > 0,
    ensures
        equiv_listed(
            u,
            spec_all_bases(cs, spec_required_joints(cs), k).len() as int + spec_required_joints(
                cs,
            ).len() as int,
            spec_marginal_indices(u, vv, a, u.len() as int),
            spec_marginal_indices(u, vv, b2, u.len() as int),
        ),
{
    lemma_marginal_equals_group(u, cs, varc, k, vv, a);
    lemma_marginal_equals_group(u, cs, varc, k, vv, b2);
}

/// Membership in the free-value list: it holds exactly the values below
/// `upto` that no unary constraint forbids, in ascending order.
pub proof fn lemma_free_values_elems(cs: Seq<EntropyConstraint>, n: usize, upto: int)
    requires
        upto <= usize::MAX,
    ensures
        forall|t: int| 0 <= t < spec_free_values(cs, n, upto).len() ==> (
        #[trigger] spec_free_values(cs, n, upto)[t]) < upto,
        forall|t1: int, t2: int|
            0 <= t1 < t2 < spec_free_values(cs, n, upto).len() ==> spec_free_values(cs, n, upto)[t1]
                < spec_free_values(cs, n, upto)[t2],
        forall|v: usize| spec_free_values(cs, n, upto).contains(v) <==> ((v as int) < upto
            && !spec_unary_excluded(cs, n, v)),
    decreases upto,
{
    if upto > 0 {
        lemma_free_values_elems(cs, n, upto - 1);
        let pre = spec_free_values(cs, n, upto - 1);
        let cur = spec_free_values(cs, n, upto);
        let v0 = (upto - 1) as usize;
        if !spec_unary_excluded(cs, n, v0) {
            assert(cur == pre.push(v0));
            assert forall|v: usize| cur.contains(v) implies ((v as int) < upto
                && !spec_unary_excluded(cs, n, v)) by {
                let t = choose|t: int| 0 <= t < cur.len() && cur[t] == v;
                if t < pre.len() {
                    assert(pre[t] == v);
                    assert(pre.contains(v));
                } else {
                    assert(v == v0);
                }
            }
            assert forall|v: usize| ((v as int) < upto && !spec_unary_excluded(cs, n, v)) implies
                cur.contains(v) by {
                if (v as int) < upto - 1 {
                    assert(pre.contains(v));
                    let t = choose|t: int| 0 <= t < pre.len() && pre[t] == v;
                    assert(cur[t] == v);
                } else {
                    assert(cur[cur.len() - 1] == v);
                }
            }
        } else {
            assert(cur == pre);
            assert forall|v: usize| ((v as int) < upto && !spec_unary_excluded(cs, n, v)) implies
                cur.contains(v) by {
                assert(v != v0);
                assert((v as int) < upto - 1);
                assert(pre.contains(v));
            }
            assert forall|v: usize| cur.contains(v) implies ((v as int) < upto
                && !spec_unary_excluded(cs, n, v)) by {
                assert(pre.contains(v));
            }
        }
    }
}

/// A unary exclusion keeps the excluded value out of the free-value list
/// of its variable: an unpaired variable's uniform distribution never
/// assigns it mass.
pub proof fn lemma_unary_exclusion_not_free(
    cs: Seq<EntropyConstraint>,
    n: usize,
    v: usize,
    k: usize,
)
    requires
        spec_unary_excluded(cs, n, v),
    ensures
        !spec_free_values(cs, n, k as int).contains(v),
{
    lemma_free_values_elems(cs, n, k as int);
}

/// With no constraints at all, nothing is tracked jointly and every
/// variable keeps its full value range: the optimum is the uniform
/// distribution over all `k` values of every variable.
pub proof fn lemma_no_constraints_uniform(cs: Seq<EntropyConstraint>, k: usize, n: usize)
    requires
        cs.len() == 0,
    ensures
        spec_required_joints(cs).len() == 0,
        spec_free_values(cs, n, k as int) =~= Seq::new(k as nat, |i: int| i as usize),
{
    lemma_free_values_full(cs, k as int, n);
}

/// With no constraints, the free-value list below `upto` is `0, 1, ...,
/// upto - 1`.
proof fn lemma_free_values_full(cs: Seq<EntropyConstraint>, upto: int, n: usize)
    requires
        cs.len() == 0,
        upto >= 0,
    ensures
        spec_free_values(cs, n, upto) =~= Seq::new(upto as nat, |i: int| i as usize),
    decreases upto,
{
    if upto > 0 {
        lemma_free_values_full(cs, upto - 1, n);
        assert(!spec_unary_excluded(cs, n, (upto - 1) as usize));
        assert(spec_free_values(cs, n, upto) =~= Seq::new((upto - 1) as nat, |i: int| i as usize).push(
            (upto - 1) as usize,
        ));
    }
}

/// The Jacobian of the stationarity system of a built unknown vector is
/// symmetric: the coefficient at `(row, col)` equals the one at
/// `(col, row)`.
pub proof fn lemma_jacobian_symmetric(
    u: Seq<VariableType>,
    cs: Seq<EntropyConstraint>,
    varc: usize,
    k: usize,
    row: usize,
    col: usize,
)
    requires
        built_from(u, cs, varc, k),
        (row as int) < u.len(),
        (col as int) < u.len(),
    ensures
        spec_jac_coeff(u, row, col) == spec_jac_coeff(u, col, row),
{
    let js = spec_required_joints(cs);
    let bases = spec_all_bases(cs, js, k);
    let b = bases.len() as int;
    lemma_node_class(u, cs, varc, k, row as int);
    lemma_node_class(u, cs, varc, k, col as int);
    if is_base(u[row as int]) && is_base(u[col as int]) {
    } else if is_base(u[row as int]) {
        assert((row as int) < b);
        assert(base_pos_links(u[row as int]).contains(col) == positive_member(u, col, row));
        assert(base_neg_links(u[row as int]).contains(col) == negative_member(u, col, row));
    } else if is_base(u[col as int]) {
        assert((col as int) < b);
        assert(base_pos_links(u[col as int]).contains(row) == positive_member(u, row, col));
        assert(base_neg_links(u[col as int]).contains(row) == negative_member(u, row, col));
    } else {
    }
}

/// Whether some constraint forbids variable `n` from taking value `v`.
fn has_unary(cs: &Vec<EntropyConstraint>, n: usize, v: usize) -> (r: bool)
    ensures
        r == spec_unary_excluded(cs@, n, v),
{
    let cnt = cs.len();
    let mut i: usize = 0;
    while i < cnt
        invariant
            cnt == cs@.len(),
            i <= cnt,
            forall|j: int| 0 <= j < i ==> (#[trigger] cs@[j]) != EntropyConstraint::SingleNeq(
                VarAndValue { var: n, value: v },
            ),
        decreases cnt - i,
    {
        match cs[i] {
            EntropyConstraint::SingleNeq(vv) => {
                if vv.var == n && vv.value == v {
                    return true;
                }
            },
            EntropyConstraint::DoubleNeq(_, _) => {},
        }
        i = i + 1;
    }
    false
}

/// A copy of an index vector.
fn copy_indices(v: &Vec<usize>) -> (r: Vec<usize>)
    ensures
        r@ == v@,
{
    let n = v.len();
    let mut result: Vec<usize> = Vec::new();
    let mut i: usize = 0;
    while i < n
        invariant
            n == v@.len(),
            i <= n,
            result@ == v@.take(i as int),
        decreases n - i,
    {
        result.push(v[i]);
        proof {
            assert(result@ =~= v@.take(i as int + 1));
        }
        i = i + 1;
    }
    proof {
        assert(v@.take(n as int) =~= v@);
    }
    result
}

/// The indices of the outcome pairs that carry mass for `vv` jointly with
/// partner `other`, in ascending order.
fn group_of(bases: &Vec<(VarAndValue, VarAndValue)>, vv: VarAndValue, other: usize) -> (r: Vec<
    usize,
>)
    ensures
        r@ == spec_base_group(bases@, vv, other, bases@.len() as int),
{
    let n = bases.len();
    let mut result: Vec<usize> = Vec::new();
    let mut i: usize = 0;
    while i < n
        invariant
            n == bases@.len(),
            i <= n,
            result@ == spec_base_group(bases@, vv, other, i as int),
        decreases n - i,
    {
        let (v1, v2) = bases[i];
        if (v1.var == vv.var && v1.value == vv.value && v2.var == other) || (v2.var == vv.var
            && v2.value == vv.value && v1.var == other) {
            result.push(i);
        }
        i = i + 1;
    }
    result
}

/// Whether some node from index `from` on is a marginal-consistency
/// multiplier with exactly these positive and negative members.
pub open spec fn equiv_listed(
    u: Seq<VariableType>,
    from: int,
    pos: Seq<usize>,
    neg: Seq<usize>,
) -> bool {
    exists|l: int| from <= l < u.len() && equiv_pos(#[trigger] u[l]) == pos && equiv_neg(u[l])
        == neg
}

/// A non-empty marginal group contains the index of a matching outcome.
pub proof fn lemma_base_group_witness(
    bases: Seq<(VarAndValue, VarAndValue)>,
    vv: VarAndValue,
    other: usize,
    upto: int,
)
    requires
        spec_base_group(bases, vv, other, upto).len() > 0,
    ensures
        exists|c: int| 0 <= c < upto && base_matches(#[trigger] bases[c], vv, other),
    decreases upto,
{
    if upto > 0 {
        if base_matches(bases[upto - 1], vv, other) {
            assert(0 <= upto - 1 < upto && base_matches(bases[upto - 1], vv, other));
        } else {
            lemma_base_group_witness(bases, vv, other, upto - 1);
        }
    }
}

/// An outcome list without a matching element yields an empty marginal
/// group.
pub proof fn lemma_base_group_empty(
    bases: Seq<(VarAndValue, VarAndValue)>,
    vv: VarAndValue,
    other: usize,
    upto: int,
)
    requires
        forall|c: int| 0 <= c < upto ==> !base_matches(#[trigger] bases[c], vv, other),
    ensures
        spec_base_group(bases, vv, other, upto).len() == 0,
    decreases upto,
{
    if upto > 0 {
        lemma_base_group_empty(bases, vv, other, upto - 1);
    }
}

/// Under valid constraints, every required pair links two distinct
/// variables of the declared range.
pub proof fn lemma_required_joints_vars(cs: Seq<EntropyConstraint>, varc: usize, k: usize)
    requires
        constraints_ok(cs, varc, k),
    ensures
        forall|t: int| 0 <= t < spec_required_joints(cs).len() ==> (#[trigger] spec_required_joints(
            cs,
        )[t]).0 < varc && spec_required_joints(cs)[t].1 < varc && spec_required_joints(cs)[t].0
            != spec_required_joints(cs)[t].1,
    decreases cs.len(),
{
    if cs.len() > 0 {
        assert(constraints_ok(cs.drop_last(), varc, k)) by {
            assert forall|i: int| 0 <= i < cs.drop_last().len() implies constraint_ok(
                #[trigger] cs.drop_last()[i],
                varc,
                k,
            ) by {
                assert(cs.drop_last()[i] == cs[i]);
            }
        }
        lemma_required_joints_vars(cs.drop_last(), varc, k);
        assert(constraint_ok(cs[cs.len() - 1], varc, k));
        let pre = spec_required_joints(cs.drop_last());
        let cur = spec_required_joints(cs);
        assert forall|t: int| 0 <= t < cur.len() implies (#[trigger] cur[t]).0 < varc && cur[t].1
            < varc && cur[t].0 != cur[t].1 by {
            match cs.last() {
                EntropyConstraint::DoubleNeq(a, b) => {
                    if joint_pair_listed(pre, a, b) {
                        assert(cur == pre);
                        assert(pre[t].0 < varc && pre[t].1 < varc && pre[t].0 != pre[t].1);
                    } else {
                        assert(cur == pre.push((a, b)));
                        if t < pre.len() {
                            assert(cur[t] == pre[t]);
                            assert(pre[t].0 < varc && pre[t].1 < varc && pre[t].0 != pre[t].1);
                        } else {
                            assert(cur[t] == (a, b));
                        }
                    }
                },
                EntropyConstraint::SingleNeq(_) => {
                    assert(cur == pre);
                    assert(pre[t].0 < varc && pre[t].1 < varc && pre[t].0 != pre[t].1);
                },
            }
        }
    }
}

/// Every outcome pairs two distinct variables of the declared range, with
/// values of the declared domain.
pub open spec fn bases_in_range(
    bases: Seq<(VarAndValue, VarAndValue)>,
    varc: usize,
    k: usize,
) -> bool {
    forall|i: int|
        0 <= i < bases.len() ==> {
            let e = #[trigger] bases[i];
            e.0.var < varc && e.1.var < varc && e.0.var != e.1.var && e.0.value < k && e.1.value
                < k
        }
}

/// A marginal group keyed outside the declared ranges, or pairing a
/// variable with itself, is empty.
pub proof fn lemma_group_out_of_range(
    bases: Seq<(VarAndValue, VarAndValue)>,
    varc: usize,
    k: usize,
    vv: VarAndValue,
    other: usize,
)
    requires
        bases_in_range(bases, varc, k),
        vv.var >= varc || vv.value >= k || other >= varc || vv.var == other,
    ensures
        spec_base_group(bases, vv, other, bases.len() as int).len() == 0,
{
    assert forall|c: int| 0 <= c < bases.len() implies !base_matches(
        #[trigger] bases[c],
        vv,
        other,
    ) by {
        let e = bases[c];
        assert(e.0.var < varc && e.1.var < varc && e.0.var != e.1.var && e.0.value < k
            && e.1.value < k);
    }
    lemma_base_group_empty(bases, vv, other, bases.len() as int);
}

/// A listed marginal-consistency node stays listed as the node list grows.
proof fn lemma_equiv_listed_push(
    u: Seq<VariableType>,
    nd: VariableType,
    from: int,
    pos: Seq<usize>,
    neg: Seq<usize>,
)
    requires
        0 <= from,
        equiv_listed(u, from, pos, neg),
    ensures
        equiv_listed(u.push(nd), from, pos, neg),
{
    let l = choose|l: int| from <= l < u.len() && equiv_pos(#[trigger] u[l]) == pos && equiv_neg(
        u[l],
    ) == neg;
    assert(u.push(nd)[l] == u[l]);
}

/// Under valid constraints, the primal block of the unknown vector is in
/// range.
pub proof fn lemma_all_bases_props(cs: Seq<EntropyConstraint>, varc: usize, k: usize)
    requires
        constraints_ok(cs, varc, k),
    ensures
        bases_in_range(spec_all_bases(cs, spec_required_joints(cs), k), varc, k),
{
    let js = spec_required_joints(cs);
    let bases = spec_all_bases(cs, js, k);
    lemma_all_bases_sound(cs, js, k);
    lemma_required_joints_vars(cs, varc, k);
    assert forall|i: int| 0 <= i < bases.len() implies {
        let e = #[trigger] bases[i];
        e.0.var < varc && e.1.var < varc && e.0.var != e.1.var && e.0.value < k && e.1.value < k
    } by {
        let e = bases[i];
        assert(joint_pair_listed(js, e.0.var, e.1.var));
        let t = choose|t: int|
            0 <= t < js.len() && ((#[trigger] js[t]) == (e.0.var, e.1.var) || js[t] == (
                e.1.var,
                e.0.var,
            ));
        assert(js[t].0 < varc && js[t].1 < varc && js[t].0 != js[t].1);
    }
}

/// The primal block `bases` together with its segmentation `starts`:
/// `starts[t]` is the index where the outcomes of pair `t` begin, and the
/// whole block concatenates the outcomes of every pair in order.
pub open spec fn bases_collected(
    bases: Seq<(VarAndValue, VarAndValue)>,
    starts: Seq<usize>,
    cs: Seq<EntropyConstraint>,
    js: Seq<(usize, usize)>,
    k: usize,
) -> bool {
    &&& bases == spec_all_bases(cs, js, k)
    &&& starts.len() == js.len() + 1
    &&& (forall|t: int| 0 <= t <= js.len() ==> (#[trigger] starts[t]) == spec_all_bases(
        cs,
        js.take(t),
        k,
    ).len())
}

/// The positive and negative back-links of primal index `c`: the dual
/// indices whose member lists hold `c`, in ascending order.
fn links_of(u: &Vec<VariableType>, c: usize) -> (r: (Vec<usize>, Vec<usize>))
    ensures
        r.0@ == spec_pos_links(u@, c, u@.len() as int),
        r.1@ == spec_neg_links(u@, c, u@.len() as int),
{
    let total = u.len();
    let mut pos: Vec<usize> = Vec::new();
    let mut neg: Vec<usize> = Vec::new();
    let mut l: usize = 0;
    while l < total
        invariant
            total == u@.len(),
            l <= total,
            pos@ == spec_pos_links(u@, c, l as int),
            neg@ == spec_neg_links(u@, c, l as int),
        decreases total - l,
    {
        match &u[l] {
            VariableType::Lagrangian(m) => {
                if contains_usize(m, c) {
                    pos.push(l);
                }
            },
            VariableType::EquivalentSums(p, n) => {
                if contains_usize(p, c) {
                    pos.push(l);
                }
                if contains_usize(n, c) {
                    neg.push(l);
                }
            },
            VariableType::BaseVariable { .. } => {},
        }
        l = l + 1;
    }
    (pos, neg)
}

/// Appends one marginal-consistency node for every ordered pair of
/// distinct non-empty partner groups of every `(variable, value)` pair,
/// leaving all existing nodes untouched. On return no such pair lacks its
/// node.
#[verifier::loop_isolation(false)]
fn push_equiv_nodes(
    unknowns: &mut Vec<VariableType>,
    bases: &Vec<(VarAndValue, VarAndValue)>,
    varc: usize,
    k: usize,
)
    requires
        bases_in_range(bases@, varc, k),
    ensures
        old(unknowns)@.len() <= final(unknowns)@.len(),
        forall|c: int| 0 <= c < old(unknowns)@.len() ==> final(unknowns)@[c] == old(unknowns)@[c],
        forall|l: int| old(unknowns)@.len() <= l < final(unknowns)@.len() ==> equiv_node_ok(
            #[trigger] final(unknowns)@[l],
            bases@,
        ),
        groups_paired_below(
            final(unknowns)@,
            old(unknowns)@.len() as int,
            bases@,
            varc as int,
            0,
        ),
        tail_matches(
            final(unknowns)@,
            old(unknowns)@.len() as int,
            spec_tail(bases@, varc as int, k as int),
        ),
{
    let ghost from0 = old(unknowns)@.len() as int;
    proof {
        assert(tail_matches(unknowns@, from0, spec_tail_upto(bases@, varc as int, k as int, 0)));
    }
    let mut n1: usize = 0;
    while n1 < varc
        invariant
            n1 <= varc,
            old(unknowns)@.len() <= unknowns@.len(),
            forall|c: int| 0 <= c < old(unknowns)@.len() ==> unknowns@[c] == old(unknowns)@[c],
            forall|l: int| old(unknowns)@.len() <= l < unknowns@.len() ==> equiv_node_ok(
                #[trigger] unknowns@[l],
                bases@,
            ),
            groups_paired_below(unknowns@, from0, bases@, n1 as int, 0),
            tail_matches(
                unknowns@,
                from0,
                spec_tail_upto(bases@, varc as int, k as int, n1 as int),
            ),
        decreases varc - n1,
    {
        let mut val: usize = 0;
        proof {
            assert(spec_tail_upto(bases@, varc as int, k as int, n1 as int) + spec_tail_vals(
                bases@,
                n1,
                varc as int,
                0,
            ) =~= spec_tail_upto(bases@, varc as int, k as int, n1 as int));
        }
        while val < k
            invariant
                val <= k,
                old(unknowns)@.len() <= unknowns@.len(),
                forall|c: int| 0 <= c < old(unknowns)@.len() ==> unknowns@[c] == old(unknowns)@[c],
                forall|l: int| old(unknowns)@.len() <= l < unknowns@.len() ==> equiv_node_ok(
                    #[trigger] unknowns@[l],
                    bases@,
                ),
                groups_paired_below(unknowns@, from0, bases@, n1 as int, val as int),
                tail_matches(
                    unknowns@,
                    from0,
                    spec_tail_upto(bases@, varc as int, k as int, n1 as int) + spec_tail_vals(
                        bases@,
                        n1,
                        varc as int,
                        val as int,
                    ),
                ),
            decreases k - val,
        {
            let vv = VarAndValue { var: n1, value: val };
            let ghost pfx = spec_tail_upto(bases@, varc as int, k as int, n1 as int)
                + spec_tail_vals(bases@, n1, varc as int, val as int);
            let mut groups: Vec<Vec<usize>> = Vec::new();
            let mut gvars: Vec<usize> = Vec::new();
            let mut n2: usize = 0;
            while n2 < varc
                invariant
                    n2 <= varc,
                    groups@.len() == gvars@.len(),
                    forall|g: int| 0 <= g < groups@.len() ==> (#[trigger] groups@[g])@
                        == spec_base_group(bases@, vv, gvars@[g], bases@.len() as int)
                        && groups@[g]@.len() > 0,
                    forall|g1: int, g2: int| 0 <= g1 < g2 < gvars@.len() ==> gvars@[g1]
                        < gvars@[g2],
                    forall|g: int| 0 <= g < gvars@.len() ==> (#[trigger] gvars@[g]) < n2,
                    gvars@ == spec_gvars(bases@, vv, n2 as int),
                    forall|a: usize|
                        #![trigger spec_base_group(bases@, vv, a, bases@.len() as int)]
                        (a as int) < n2 as int && a != n1 && spec_base_group(
                            bases@,
                            vv,
                            a,
                            bases@.len() as int,
                        ).len() > 0 ==> exists|g: int|
                            0 <= g < gvars@.len() && (#[trigger] gvars@[g]) == a,
                decreases varc - n2,
            {
                if n2 != n1 {
                    let g = group_of(bases, vv, n2);
                    if g.len() > 0 {
                        let ghost pre_gv = gvars@;
                        groups.push(g);
                        gvars.push(n2);
                        proof {
                            assert forall|a: usize|
                                (a as int) < n2 as int + 1 && a != n1 && spec_base_group(
                                    bases@,
                                    vv,
                                    a,
                                    bases@.len() as int,
                                ).len() > 0 implies exists|gq: int|
                                0 <= gq < gvars@.len() && (#[trigger] gvars@[gq]) == a by {
                                if a == n2 {
                                    assert(gvars@[gvars@.len() - 1] == a);
                                } else {
                                    let gq = choose|gq: int|
                                        0 <= gq < pre_gv.len() && (#[trigger] pre_gv[gq]) == a;
                                    assert(gvars@[gq] == a);
                                }
                            }
                        }
                    }
                }
                n2 = n2 + 1;
            }
            if groups.len() > 1 {
                let gl = groups.len();
                let mut i1: usize = 0;
                proof {
                    assert(pfx + spec_equiv_rows(bases@, vv, gvars@, 0) =~= pfx);
                }
                while i1 < gl
                    invariant
                        i1 <= gl,
                        gl == groups@.len(),
                        gl == gvars@.len(),
                        gvars@ == spec_gvars(bases@, vv, varc as int),
                        tail_matches(
                            unknowns@,
                            from0,
                            pfx + spec_equiv_rows(bases@, vv, gvars@, i1 as int),
                        ),
                        old(unknowns)@.len() <= unknowns@.len(),
                        forall|c: int| 0 <= c < old(unknowns)@.len() ==> unknowns@[c] == old(
                            unknowns,
                        )@[c],
                        forall|l: int| old(unknowns)@.len() <= l < unknowns@.len() ==>
                            equiv_node_ok(#[trigger] unknowns@[l], bases@),
                        groups_paired_below(unknowns@, from0, bases@, n1 as int, val as int),
                        forall|g1: int, g2: int|
                            #![trigger groups@[g1], groups@[g2]]
                            0 <= g1 < i1 && 0 <= g2 < gl && g1 != g2 ==> equiv_listed(
                                unknowns@,
                                from0,
                                groups@[g1]@,
                                groups@[g2]@,
                            ),
                    decreases gl - i1,
                {
                    let mut i2: usize = 0;
                    proof {
                        assert(pfx + spec_equiv_rows(bases@, vv, gvars@, i1 as int)
                            + spec_equiv_row(bases@, vv, gvars@, i1 as int, 0) =~= pfx
                            + spec_equiv_rows(bases@, vv, gvars@, i1 as int));
                    }
                    while i2 < gl
                        invariant
                            i2 <= gl,
                            gl == groups@.len(),
                            gl == gvars@.len(),
                            gvars@ == spec_gvars(bases@, vv, varc as int),
                            i1 < gl,
                            tail_matches(
                                unknowns@,
                                from0,
                                pfx + spec_equiv_rows(bases@, vv, gvars@, i1 as int)
                                    + spec_equiv_row(bases@, vv, gvars@, i1 as int, i2 as int),
                            ),
                            old(unknowns)@.len() <= unknowns@.len(),
                            forall|c: int| 0 <= c < old(unknowns)@.len() ==> unknowns@[c] == old(
                                unknowns,
                            )@[c],
                            forall|l: int| old(unknowns)@.len() <= l < unknowns@.len() ==>
                                equiv_node_ok(#[trigger] unknowns@[l], bases@),
                            groups_paired_below(unknowns@, from0, bases@, n1 as int, val as int),
                            forall|g1: int, g2: int|
                                #![trigger groups@[g1], groups@[g2]]
                                0 <= g1 < i1 && 0 <= g2 < gl && g1 != g2 ==> equiv_listed(
                                    unknowns@,
                                    from0,
                                    groups@[g1]@,
                                    groups@[g2]@,
                                ),
                            forall|g2: int|
                                #![trigger groups@[g2]]
                                0 <= g2 < i2 && g2 != i1 ==> equiv_listed(
                                    unknowns@,
                                    from0,
                                    groups@[i1 as int]@,
                                    groups@[g2]@,
                                ),
                        decreases gl - i2,
                    {
                        if i1 != i2 {
                            let p = copy_indices(&groups[i1]);
                            let n = copy_indices(&groups[i2]);
                            let ghost nd0 = VariableType::EquivalentSums(p, n);
                            let ghost pre_u = unknowns@;
                            proof {
                                if i1 < i2 {
                                    assert(gvars@[i1 as int] != gvars@[i2 as int]);
                                } else {
                                    assert(gvars@[i2 as int] != gvars@[i1 as int]);
                                }
                                assert(equiv_node_ok(nd0, bases@)) by {
                                    let a = gvars@[i1 as int];
                                    let b2 = gvars@[i2 as int];
                                    assert(a != b2 && equiv_pos(nd0) == spec_base_group(
                                        bases@,
                                        vv,
                                        a,
                                        bases@.len() as int,
                                    ) && equiv_neg(nd0) == spec_base_group(
                                        bases@,
                                        vv,
                                        b2,
                                        bases@.len() as int,
                                    ));
                                }
                            }
                            unknowns.push(VariableType::EquivalentSums(p, n));
                            proof {
                                assert(unknowns@ == pre_u.push(nd0));
                                assert forall|vvq: VarAndValue, a: usize, b2: usize|
                                    (((vvq.var as int) < n1 as int || ((vvq.var as int)
                                        == n1 as int && (vvq.value as int) < val as int)) && a
                                        != b2 && spec_base_group(
                                        bases@,
                                        vvq,
                                        a,
                                        bases@.len() as int,
                                    ).len() > 0 && spec_base_group(
                                        bases@,
                                        vvq,
                                        b2,
                                        bases@.len() as int,
                                    ).len() > 0) implies equiv_listed(
                                    unknowns@,
                                    from0,
                                    spec_base_group(bases@, vvq, a, bases@.len() as int),
                                    spec_base_group(bases@, vvq, b2, bases@.len() as int),
                                ) by {
                                    lemma_equiv_listed_push(
                                        pre_u,
                                        nd0,
                                        from0,
                                        spec_base_group(bases@, vvq, a, bases@.len() as int),
                                        spec_base_group(bases@, vvq, b2, bases@.len() as int),
                                    );
                                }
                                assert forall|g1: int, g2: int|
                                    (0 <= g1 < i1 && 0 <= g2 < gl && g1 != g2) implies
                                    equiv_listed(
                                    unknowns@,
                                    from0,
                                    groups@[g1]@,
                                    groups@[g2]@,
                                ) by {
                                    lemma_equiv_listed_push(
                                        pre_u,
                                        nd0,
                                        from0,
                                        groups@[g1]@,
                                        groups@[g2]@,
                                    );
                                }
                                assert forall|g2: int| (0 <= g2 < i2 + 1 && g2 != i1) implies
                                    equiv_listed(
                                    unknowns@,
                                    from0,
                                    groups@[i1 as int]@,
                                    groups@[g2]@,
                                ) by {
                                    if g2 == i2 {
                                        assert(equiv_pos(nd0) == groups@[i1 as int]@);
                                        assert(equiv_neg(nd0) == groups@[i2 as int]@);
                                        assert(unknowns@[unknowns@.len() - 1] == nd0);
                                        assert(from0 <= unknowns@.len() - 1 < unknowns@.len());
                                    } else {
                                        lemma_equiv_listed_push(
                                            pre_u,
                                            nd0,
                                            from0,
                                            groups@[i1 as int]@,
                                            groups@[g2]@,
                                        );
                                    }
                                }
                                let gpos = spec_base_group(
                                    bases@,
                                    vv,
                                    gvars@[i1 as int],
                                    bases@.len() as int,
                                );
                                let gneg = spec_base_group(
                                    bases@,
                                    vv,
                                    gvars@[i2 as int],
                                    bases@.len() as int,
                                );
                                assert(equiv_pos(nd0) == gpos && equiv_neg(nd0) == gneg);
                                let oldspec = pfx + spec_equiv_rows(bases@, vv, gvars@, i1 as int)
                                    + spec_equiv_row(bases@, vv, gvars@, i1 as int, i2 as int);
                                lemma_tail_matches_push(pre_u, nd0, from0, oldspec, gpos, gneg);
                                assert(spec_equiv_row(bases@, vv, gvars@, i1 as int, i2 as int + 1)
                                    == spec_equiv_row(
                                    bases@,
                                    vv,
                                    gvars@,
                                    i1 as int,
                                    i2 as int,
                                ).push((gpos, gneg)));
                                assert(oldspec.push((gpos, gneg)) =~= pfx + spec_equiv_rows(
                                    bases@,
                                    vv,
                                    gvars@,
                                    i1 as int,
                                ) + spec_equiv_row(bases@, vv, gvars@, i1 as int, i2 as int + 1));
                            }
                        } else {
                            proof {
                                assert(spec_equiv_row(bases@, vv, gvars@, i1 as int, i2 as int + 1)
                                    == spec_equiv_row(bases@, vv, gvars@, i1 as int, i2 as int));
                            }
                        }
                        i2 = i2 + 1;
                    }
                    proof {
                        assert(spec_equiv_rows(bases@, vv, gvars@, i1 as int + 1)
                            == spec_equiv_rows(bases@, vv, gvars@, i1 as int) + spec_equiv_row(
                            bases@,
                            vv,
                            gvars@,
                            i1 as int,
                            gvars@.len() as int,
                        ));
                        assert(pfx + spec_equiv_rows(bases@, vv, gvars@, i1 as int)
                            + spec_equiv_row(bases@, vv, gvars@, i1 as int, gl as int) =~= pfx
                            + spec_equiv_rows(bases@, vv, gvars@, i1 as int + 1));
                    }
                    i1 = i1 + 1;
                }
            }
            proof {
                let gv = spec_gvars(bases@, vv, varc as int);
                assert(spec_tail_vals(bases@, n1, varc as int, val as int + 1) == spec_tail_vals(
                    bases@,
                    n1,
                    varc as int,
                    val as int,
                ) + spec_vv_equivs(bases@, vv, varc as int));
                assert(gvars@ == gv);
                if groups.len() > 1 {
                    assert(gv.len() > 1);
                    assert(spec_vv_equivs(bases@, vv, varc as int) == spec_equiv_rows(
                        bases@,
                        vv,
                        gv,
                        gv.len() as int,
                    ));
                    assert(pfx + spec_equiv_rows(bases@, vv, gv, gv.len() as int)
                        =~= spec_tail_upto(bases@, varc as int, k as int, n1 as int)
                        + spec_tail_vals(bases@, n1, varc as int, val as int + 1));
                } else {
                    assert(gv.len() <= 1);
                    assert(spec_vv_equivs(bases@, vv, varc as int) == Seq::<(
                        Seq<usize>,
                        Seq<usize>,
                    )>::empty());
                    assert(pfx =~= spec_tail_upto(bases@, varc as int, k as int, n1 as int)
                        + spec_tail_vals(bases@, n1, varc as int, val as int + 1));
                }
            }
            proof {
                assert forall|vvq: VarAndValue, a: usize, b2: usize|
                    (((vvq.var as int) < n1 as int || ((vvq.var as int) == n1 as int && (
                    vvq.value as int) < val as int + 1)) && a != b2 && spec_base_group(
                        bases@,
                        vvq,
                        a,
                        bases@.len() as int,
                    ).len() > 0 && spec_base_group(bases@, vvq, b2, bases@.len() as int).len()
                        > 0) implies equiv_listed(
                    unknowns@,
                    from0,
                    spec_base_group(bases@, vvq, a, bases@.len() as int),
                    spec_base_group(bases@, vvq, b2, bases@.len() as int),
                ) by {
                    if (vvq.var as int) == n1 as int && (vvq.value as int) == val as int {
                        assert(vvq == vv);
                        if a == n1 {
                            lemma_group_out_of_range(bases@, varc, k, vv, a);
                        }
                        if b2 == n1 {
                            lemma_group_out_of_range(bases@, varc, k, vv, b2);
                        }
                        lemma_base_group_witness(bases@, vv, a, bases@.len() as int);
                        let c1 = choose|c: int|
                            0 <= c < bases@.len() && base_matches(#[trigger] bases@[c], vv, a);
                        assert(bases@[c1].0.var < varc && bases@[c1].1.var < varc);
                        lemma_base_group_witness(bases@, vv, b2, bases@.len() as int);
                        let c2 = choose|c: int|
                            0 <= c < bases@.len() && base_matches(#[trigger] bases@[c], vv, b2);
                        assert(bases@[c2].0.var < varc && bases@[c2].1.var < varc);
                        assert(a < varc && b2 < varc);
                        let ga = choose|g: int|
                            0 <= g < gvars@.len() && (#[trigger] gvars@[g]) == a;
                        let gb = choose|g: int|
                            0 <= g < gvars@.len() && (#[trigger] gvars@[g]) == b2;
                        assert(groups@[ga]@ == spec_base_group(bases@, vv, a, bases@.len() as int));
                        assert(groups@[gb]@ == spec_base_group(
                            bases@,
                            vv,
                            b2,
                            bases@.len() as int,
                        ));
                        assert(ga != gb);
                        assert(groups@.len() > 1);
                        assert(equiv_listed(unknowns@, from0, groups@[ga]@, groups@[gb]@));
                    }
                }
            }
            val = val + 1;
        }
        proof {
            assert forall|vvq: VarAndValue, a: usize, b2: usize|
                ((vvq.var as int) < n1 as int + 1 && a != b2 && spec_base_group(
                    bases@,
                    vvq,
                    a,
                    bases@.len() as int,
                ).len() > 0 && spec_base_group(bases@, vvq, b2, bases@.len() as int).len() > 0)
                implies equiv_listed(
                unknowns@,
                from0,
                spec_base_group(bases@, vvq, a, bases@.len() as int),
                spec_base_group(bases@, vvq, b2, bases@.len() as int),
            ) by {
                if (vvq.var as int) == n1 as int && (vvq.value as int) >= k as int {
                    lemma_group_out_of_range(bases@, varc, k, vvq, a);
                }
            }
            assert(spec_tail_upto(bases@, varc as int, k as int, n1 as int + 1)
                == spec_tail_upto(bases@, varc as int, k as int, n1 as int) + spec_tail_vals(
                bases@,
                n1,
                varc as int,
                k as int,
            ));
            assert(tail_matches(
                unknowns@,
                from0,
                spec_tail_upto(bases@, varc as int, k as int, n1 as int) + spec_tail_vals(
                    bases@,
                    n1,
                    varc as int,
                    k as int,
                ),
            ));
            assert(tail_matches(
                unknowns@,
                from0,
                spec_tail_upto(bases@, varc as int, k as int, n1 as int + 1),
            ));
        }
        n1 = n1 + 1;
    }
    proof {
        assert(spec_tail(bases@, varc as int, k as int) == spec_tail_upto(
            bases@,
            varc as int,
            k as int,
            varc as int,
        ));
    }
}

/// Rewrites every primal node with its outcome pair and the back-links that
/// the dual nodes of the list induce, leaving every dual node untouched.
#[verifier::loop_isolation(false)]
fn attach_links(unknowns: &mut Vec<VariableType>, bases: &Vec<(VarAndValue, VarAndValue)>, nb: usize)
    requires
        nb == bases@.len(),
        nb <= old(unknowns)@.len(),
        forall|c: int| 0 <= c < nb ==> is_base(#[trigger] old(unknowns)@[c]),
    ensures
        final(unknowns)@.len() == old(unknowns)@.len(),
        forall|l: int| nb <= l < old(unknowns)@.len() ==> final(unknowns)@[l] == old(unknowns)@[l],
        forall|c: int| 0 <= c < nb ==> is_base(#[trigger] final(unknowns)@[c]) && base_var1(
            final(unknowns)@[c],
        ) == bases@[c].0 && base_var2(final(unknowns)@[c]) == bases@[c].1 && base_pos_links(
            final(unknowns)@[c],
        ) == spec_pos_links(old(unknowns)@, c as usize, old(unknowns)@.len() as int)
            && base_neg_links(final(unknowns)@[c]) == spec_neg_links(
            old(unknowns)@,
            c as usize,
            old(unknowns)@.len() as int,
        ),
{
    let ghost skel = old(unknowns)@;
    let total = unknowns.len();
    let mut i: usize = 0;
    while i < nb
        invariant
            unknowns@.len() == total,
            i <= nb,
            forall|l: int| i <= l < total ==> unknowns@[l] == skel[l],
            forall|c: int| 0 <= c < i ==> is_base(#[trigger] unknowns@[c]) && base_var1(
                unknowns@[c],
            ) == bases@[c].0 && base_var2(unknowns@[c]) == bases@[c].1 && base_pos_links(
                unknowns@[c],
            ) == spec_pos_links(skel, c as usize, total as int) && base_neg_links(unknowns@[c])
                == spec_neg_links(skel, c as usize, total as int),
        decreases nb - i,
    {
        let (v1, v2) = bases[i];
        let (lg, ng) = links_of(&unknowns, i);
        proof {
            assert forall|l: usize| (l as int) < total implies positive_member(unknowns@, l, i)
                == positive_member(skel, l, i) && negative_member(unknowns@, l, i)
                == negative_member(skel, l, i) by {
                if (l as int) < i {
                    assert(is_base(unknowns@[l as int]));
                    assert(is_base(skel[l as int]));
                } else {
                    assert(unknowns@[l as int] == skel[l as int]);
                }
            }
            lemma_links_congruence(unknowns@, skel, i, total as int);
        }
        unknowns[i] = VariableType::BaseVariable { var1: v1, var2: v2, lagrangians: lg, neg_lags: ng };
        i = i + 1;
    }
}

impl EntropyOptimizer {
    /// Whether every constraint of the set is within range for this
    /// problem's `varc` variables of `k` values each.
    pub fn validate(&self) -> (r: bool)
        ensures
            r == constraints_ok(self.contras@, self.varc, self.k),
    {
        let n = self.contras.len();
        let mut i: usize = 0;
        while i < n
            invariant
                n == self.contras@.len(),
                i <= n,
                forall|j: int| 0 <= j < i ==> constraint_ok(
                    #[trigger] self.contras@[j],
                    self.varc,
                    self.k,
                ),
            decreases n - i,
        {
            let ok = match self.contras[i] {
                EntropyConstraint::DoubleNeq(a, b) => a != b && a < self.varc && b < self.varc,
                EntropyConstraint::SingleNeq(vv) => vv.var < self.varc && vv.value < self.k,
            };
            if !ok {
                return false;
            }
            i = i + 1;
        }
        true
    }

    /// The values that no unary constraint forbids for variable `n`, in
    /// ascending order. A variable that takes part in no required pair is
    /// distributed uniformly over exactly these values.
    pub fn free_values(&self, n: usize) -> (r: Vec<usize>)
        ensures
            r@ == spec_free_values(self.contras@, n, self.k as int),
    {
        let mut result: Vec<usize> = Vec::new();
        let mut v: usize = 0;
        while v < self.k
            invariant
                v <= self.k,
                result@ == spec_free_values(self.contras@, n, v as int),
            decreases self.k - v,
        {
            if !has_unary(&self.contras, n, v) {
                result.push(v);
            }
            v = v + 1;
        }
        result
    }

    /// The valid joint outcomes of pair `(n1, n2)`, in lexicographic value
    /// order.
    fn bases_of_pair(&self, n1: usize, n2: usize) -> (r: Vec<(VarAndValue, VarAndValue)>)
        ensures
            r@ == spec_pair_bases(self.contras@, n1, n2, self.k),
    {
        let mut result: Vec<(VarAndValue, VarAndValue)> = Vec::new();
        let mut k1: usize = 0;
        while k1 < self.k
            invariant
                k1 <= self.k,
                result@ == spec_pair_rows(self.contras@, n1, n2, self.k, k1 as int),
            decreases self.k - k1,
        {
            let mut k2: usize = 0;
            proof {
                assert(result@ =~= spec_pair_rows(self.contras@, n1, n2, self.k, k1 as int)
                    + spec_pair_row(self.contras@, n1, n2, k1, 0));
            }
            while k2 < self.k
                invariant
                    k1 < self.k,
                    k2 <= self.k,
                    result@ == spec_pair_rows(self.contras@, n1, n2, self.k, k1 as int)
                        + spec_pair_row(self.contras@, n1, n2, k1, k2 as int),
                decreases self.k - k2,
            {
                let ghost rows = spec_pair_rows(self.contras@, n1, n2, self.k, k1 as int);
                let ghost row = spec_pair_row(self.contras@, n1, n2, k1, k2 as int);
                if !self.is_constrained(n1, k1, n2, k2) {
                    result.push(
                        (VarAndValue { var: n1, value: k1 }, VarAndValue { var: n2, value: k2 }),
                    );
                    proof {
                        let combo = (VarAndValue { var: n1, value: k1 }, VarAndValue {
                            var: n2,
                            value: k2,
                        });
                        assert((rows + row).push(combo) =~= rows + row.push(combo));
                    }
                }
                k2 = k2 + 1;
            }
            k1 = k1 + 1;
        }
        result
    }

    /// Enumerates the primal block: the valid joint outcomes of every
    /// required pair in order, with the segment boundaries per pair. Fails
    /// exactly when some pair has no valid outcome.
    #[verifier::loop_isolation(false)]
    fn collect_bases(&self, js: &Vec<(usize, usize)>) -> (r: Result<
        (Vec<(VarAndValue, VarAndValue)>, Vec<usize>),
        EntropyError,
    >)
        ensures
            (r matches Err(e) ==> e == EntropyError::Infeasible && spec_infeasible(
                self.contras@,
                js@,
                self.k,
            )),
            (r is Ok ==> !spec_infeasible(self.contras@, js@, self.k)),
            (r matches Ok(bs) ==> bases_collected(bs.0@, bs.1@, self.contras@, js@, self.k)),
    {
        let nj = js.len();
        let mut bases: Vec<(VarAndValue, VarAndValue)> = Vec::new();
        let mut starts: Vec<usize> = Vec::new();
        starts.push(0);
        let mut j: usize = 0;
        while j < nj
            invariant
                j <= nj,
                bases@ == spec_all_bases(self.contras@, js@.take(j as int), self.k),
                starts@.len() == j + 1,
                forall|t: int| 0 <= t <= j ==> (#[trigger] starts@[t]) == spec_all_bases(
                    self.contras@,
                    js@.take(t),
                    self.k,
                ).len(),
                forall|t: int| 0 <= t < j ==> spec_pair_bases(
                    self.contras@,
                    (#[trigger] js@[t]).0,
                    js@[t].1,
                    self.k,
                ).len() > 0,
            decreases nj - j,
        {
            let (n1, n2) = js[j];
            let mut pb = self.bases_of_pair(n1, n2);
            if pb.len() == 0 {
                proof {
                    assert(spec_infeasible(self.contras@, js@, self.k)) by {
                        assert(spec_pair_bases(self.contras@, js@[j as int].0, js@[j as int].1, self.k).len()
                            == 0);
                    }
                }
                return Err(EntropyError::Infeasible);
            }
            bases.append(&mut pb);
            starts.push(bases.len());
            proof {
                lemma_all_bases_step(self.contras@, js@, self.k, j as int);
            }
            j = j + 1;
        }
        proof {
            assert(js@.take(nj as int) =~= js@);
            assert(!spec_infeasible(self.contras@, js@, self.k)) by {
                assert forall|t: int|
                    0 <= t < js@.len() implies spec_pair_bases(
                    self.contras@,
                    (#[trigger] js@[t]).0,
                    js@[t].1,
                    self.k,
                ).len() > 0 by {}
            }
        }
        Ok((bases, starts))
    }

    /// Builds the flat unknown vector of the KKT stationarity system for
    /// this problem: the primal joint-probability nodes of every required
    /// pair, one normalization multiplier per pair, and the
    /// marginal-consistency multipliers, all cross-linked by index.
    ///
    /// Fails with `InvalidInput` exactly when some constraint is out of
    /// range, and otherwise with `Infeasible` exactly when some required
    /// pair has no valid joint outcome.
    #[verifier::loop_isolation(false)]
    pub fn build_unknowns(&self) -> (r: Result<Vec<VariableType>, EntropyError>)
        ensures
            ((r is Err) <==> (!constraints_ok(self.contras@, self.varc, self.k)
                || spec_infeasible(
                self.contras@,
                spec_required_joints(self.contras@),
                self.k,
            ))),
            (r matches Err(e) ==> e == (if !constraints_ok(self.contras@, self.varc, self.k) {
                EntropyError::InvalidInput
            } else {
                EntropyError::Infeasible
            })),
            (r matches Ok(u) ==> built_from(u@, self.contras@, self.varc, self.k)),
    {
        if !self.validate() {
            return Err(EntropyError::InvalidInput);
        }
        let js = self.required_joints();
        let collected = match self.collect_bases(&js) {
            Err(e) => {
                return Err(e);
            },
            Ok(x) => x,
        };
        let (bases, starts) = collected;
        let nb = bases.len();
        let nj = js.len();

        // Primal skeleton: one node per outcome, links attached later.
        let mut unknowns: Vec<VariableType> = Vec::new();
        let mut i: usize = 0;
        while i < nb
            invariant
                unknowns@.len() == i,
                i <= nb,
                forall|c: int| 0 <= c < i ==> is_base(#[trigger] unknowns@[c]) && base_var1(
                    unknowns@[c],
                ) == bases@[c].0 && base_var2(unknowns@[c]) == bases@[c].1,
            decreases nb - i,
        {
            let (v1, v2) = bases[i];
            unknowns.push(
                VariableType::BaseVariable {
                    var1: v1,
                    var2: v2,
                    lagrangians: Vec::new(),
                    neg_lags: Vec::new(),
                },
            );
            i = i + 1;
        }

        // One normalization multiplier per pair, members in segment order.
        let mut j2: usize = 0;
        while j2 < nj
            invariant
                unknowns@.len() == nb + j2,
                j2 <= nj,
                forall|c: int| 0 <= c < nb ==> is_base(#[trigger] unknowns@[c]) && base_var1(
                    unknowns@[c],
                ) == bases@[c].0 && base_var2(unknowns@[c]) == bases@[c].1,
                forall|t: int| 0 <= t < j2 ==> is_lag(#[trigger] unknowns@[nb + t]) && lag_members(
                    unknowns@[nb + t],
                ) == spec_lag_range(starts@[t] as int, starts@[t + 1] - starts@[t]),
            decreases nj - j2,
        {
            let s = starts[j2];
            let e = starts[j2 + 1];
            proof {
                lemma_all_bases_prefix_len(self.contras@, js@, self.k, j2 as int, j2 as int + 1);
            }
            let mut members: Vec<usize> = Vec::new();
            let mut c = s;
            while c < e
                invariant
                    s <= c <= e,
                    members@ == spec_lag_range(s as int, c - s),
                decreases e - c,
            {
                members.push(c);
                proof {
                    assert(members@ =~= spec_lag_range(s as int, c + 1 - s));
                }
                c = c + 1;
            }
            unknowns.push(VariableType::Lagrangian(members));
            j2 = j2 + 1;
        }

        proof {
            lemma_all_bases_props(self.contras@, self.varc, self.k);
        }
        push_equiv_nodes(&mut unknowns, &bases, self.varc, self.k);
        let total_e = unknowns.len();
        let ghost skel = unknowns@;
        proof {
            assert(forall|c: int| 0 <= c < nb ==> is_base(#[trigger] skel[c]));
            assert(skel.len() >= nb + nj);
        }
        attach_links(&mut unknowns, &bases, nb);

        proof {
            assert(skel.len() == total_e as int);
            let csq = self.contras@;
            let jsq = spec_required_joints(csq);
            let bs = spec_all_bases(csq, jsq, self.k);
            let total = skel.len() as int;
            assert(bases@ == bs);
            assert(base_block_ok(unknowns@, bs));
            assert forall|t: int| 0 <= t < nj implies is_lag(#[trigger] unknowns@[nb + t])
                && lag_members(unknowns@[nb + t]) == spec_lag_range(
                spec_all_bases(csq, jsq.take(t), self.k).len() as int,
                spec_pair_bases(csq, jsq[t].0, jsq[t].1, self.k).len() as int,
            ) by {
                lemma_all_bases_step(csq, jsq, self.k, t);
                assert(unknowns@[nb + t] == skel[nb + t]);
            }
            assert(lag_block_ok(unknowns@, csq, jsq, self.k));
            assert(tail_ok(unknowns@, csq, jsq, self.k));
            assert forall|c: usize, l: usize| (c as int) < nb && (l as int)
                < unknowns@.len() implies (base_pos_links(unknowns@[c as int]).contains(l)
                == positive_member(unknowns@, l, c)) && (base_neg_links(
                unknowns@[c as int],
            ).contains(l) == negative_member(unknowns@, l, c)) by {
                lemma_pos_links_elems(skel, c, total);
                lemma_neg_links_elems(skel, c, total);
                assert(base_pos_links(unknowns@[c as int]) == spec_pos_links(skel, c, total));
                assert(base_neg_links(unknowns@[c as int]) == spec_neg_links(skel, c, total));
                if (l as int) < nb {
                    assert(is_base(unknowns@[l as int]));
                    assert(is_base(skel[l as int]));
                    assert(!positive_member(unknowns@, l, c));
                    assert(!positive_member(skel, l, c));
                    assert(!negative_member(unknowns@, l, c));
                    assert(!negative_member(skel, l, c));
                } else {
                    assert(unknowns@[l as int] == skel[l as int]);
                    assert(positive_member(unknowns@, l, c) == positive_member(skel, l, c));
                    assert(negative_member(unknowns@, l, c) == negative_member(skel, l, c));
                }
            }
            assert forall|c: int, t: int| 0 <= c < nb && 0 <= t < base_pos_links(
                unknowns@[c],
            ).len() implies (#[trigger] base_pos_links(unknowns@[c])[t]) < unknowns@.len() by {
                lemma_pos_links_elems(skel, c as usize, total);
                assert(base_pos_links(unknowns@[c]).contains(base_pos_links(unknowns@[c])[t]));
            }
            assert forall|c: int, t: int| 0 <= c < nb && 0 <= t < base_neg_links(
                unknowns@[c],
            ).len() implies (#[trigger] base_neg_links(unknowns@[c])[t]) < unknowns@.len() by {
                lemma_neg_links_elems(skel, c as usize, total);
                assert(base_neg_links(unknowns@[c]).contains(base_neg_links(unknowns@[c])[t]));
            }
            assert forall|c: int| 0 <= c < nb implies (#[trigger] base_pos_links(unknowns@[c]))
                == spec_pos_links(unknowns@, (c as usize), unknowns@.len() as int)
                && base_neg_links(unknowns@[c]) == spec_neg_links(
                unknowns@,
                (c as usize),
                unknowns@.len() as int,
            ) by {
                let cu = c as usize;
                assert forall|l: usize| (l as int) < total implies (#[trigger] positive_member(
                    unknowns@,
                    l,
                    cu,
                )) == positive_member(skel, l, cu) && negative_member(unknowns@, l, cu)
                    == negative_member(skel, l, cu) by {
                    if (l as int) < nb {
                        assert(is_base(unknowns@[l as int]));
                        assert(is_base(skel[l as int]));
                    } else {
                        assert(unknowns@[l as int] == skel[l as int]);
                    }
                }
                lemma_links_congruence(unknowns@, skel, cu, total);
                assert(base_pos_links(unknowns@[c]) == spec_pos_links(skel, cu, total));
            }
            assert(links_ok(unknowns@, nb as int));
            assert(equiv_complete(unknowns@, csq, self.k)) by {
                assert forall|vv: VarAndValue, a: usize, b2: usize|
                    (a != b2 && spec_base_group(bs, vv, a, bs.len() as int).len() > 0
                        && spec_base_group(bs, vv, b2, bs.len() as int).len() > 0) implies
                    equiv_listed(
                    unknowns@,
                    bs.len() as int + jsq.len() as int,
                    spec_base_group(bs, vv, a, bs.len() as int),
                    spec_base_group(bs, vv, b2, bs.len() as int),
                ) by {
                    let ga = spec_base_group(bs, vv, a, bs.len() as int);
                    let gb = spec_base_group(bs, vv, b2, bs.len() as int);
                    if (vv.var as int) >= self.varc as int {
                        lemma_group_out_of_range(bs, self.varc, self.k, vv, a);
                    }
                    assert(equiv_listed(skel, nb as int + nj as int, ga, gb));
                    let l = choose|l: int|
                        nb + nj <= l < skel.len() && equiv_pos(#[trigger] skel[l]) == ga
                            && equiv_neg(skel[l]) == gb;
                    assert(unknowns@[l] == skel[l]);
                }
            }
            assert(built_from(unknowns@, csq, self.varc, self.k));
        }
        Ok(unknowns)
    }

    /// The distinct unordered variable pairs declared by the pairwise
    /// constraints, in order of first occurrence.
    pub fn required_joints(&self) -> (r: Vec<(usize, usize)>)
        ensures
            r@ == spec_required_joints(self.contras@),
    {
        let n = self.contras.len();
        let mut result: Vec<(usize, usize)> = Vec::new();
        let mut i: usize = 0;
        while i < n
            invariant
                n == self.contras@.len(),
                i <= n,
                result@ == spec_required_joints(self.contras@.take(i as int)),
            decreases n - i,
        {
            proof {
                assert(self.contras@.take(i as int + 1).drop_last() =~= self.contras@.take(
                    i as int,
                ));
                assert(self.contras@.take(i as int + 1).last() == self.contras@[i as int]);
            }
            match self.contras[i] {
                EntropyConstraint::DoubleNeq(a, b) => {
                    if !pair_listed(&result, a, b) {
                        result.push((a, b));
                    }
                },
                EntropyConstraint::SingleNeq(_) => {},
            }
            i = i + 1;
        }
        proof {
            assert(self.contras@.take(n as int) =~= self.contras@);
        }
        result
    }

    /// Whether the joint assignment `var1 = val1, var2 = val2` violates some
    /// constraint of the set: either the two variables form an excluded pair
    /// and the values are equal, or one half matches a unary exclusion.
    pub fn is_constrained(&self, var1: usize, val1: usize, var2: usize, val2: usize) -> (r: bool)
        ensures
            r == spec_constrained(self.contras@, var1, val1, var2, val2),
    {
        let n = self.contras.len();
        let mut i: usize = 0;
        while i < n
            invariant
                n == self.contras@.len(),
                i <= n,
                forall|j: int| 0 <= j < i ==> !cstr_excludes(
                    #[trigger] self.contras@[j],
                    var1,
                    val1,
                    var2,
                    val2,
                ),
            decreases n - i,
        {
            let hit = match self.contras[i] {
                EntropyConstraint::DoubleNeq(a, b) => val1 == val2 && ((var1 == a && var2 == b) || (
                var1 == b && var2 == a)),
                EntropyConstraint::SingleNeq(vv) => (var1 == vv.var && val1 == vv.value) || (var2
                    == vv.var && val2 == vv.value),
            };
            if hit {
                return true;
            }
            i = i + 1;
        }
        false
    }
}

} // verus!
