//! Constraint model and decomposition of a problem into independent
//! sub-problems over connected components of the constraint graph.

use vstd::prelude::*;

verus! {

/// An immutable pair of a variable index and one of its values, both
/// zero-based.
#[derive(Debug, Copy, Clone, PartialEq, Eq, Hash, Structural)]
pub struct VarAndValue {
    pub var: usize,
    pub value: usize,
}

/// One exclusion constraint.
///
/// `DoubleNeq(a, b)` declares that variables `a` and `b` must never share an
/// equal assigned value; `SingleNeq(vv)` declares that variable `vv.var` may
/// never take value `vv.value`.
#[derive(Debug, Copy, Clone, PartialEq, Eq, Hash, Structural)]
pub enum EntropyConstraint {
    DoubleNeq(usize, usize),
    SingleNeq(VarAndValue),
}

/// A single constraint references only variables below `varc` and values
/// below `k`, and a pairwise constraint links two distinct variables.
pub open spec fn constraint_ok(c: EntropyConstraint, varc: usize, k: usize) -> bool {
    match c {
        EntropyConstraint::DoubleNeq(a, b) => a != b && a < varc && b < varc,
        EntropyConstraint::SingleNeq(vv) => vv.var < varc && vv.value < k,
    }
}

/// Every constraint of the set is within range for `varc` variables of `k`
/// values each.
pub open spec fn constraints_ok(cs: Seq<EntropyConstraint>, varc: usize, k: usize) -> bool {
    forall|i: int| 0 <= i < cs.len() ==> constraint_ok(#[trigger] cs[i], varc, k)
}

/// As `constraint_ok`, with mathematical bounds.
pub open spec fn constraint_ok_int(c: EntropyConstraint, varc: int, k: int) -> bool {
    match c {
        EntropyConstraint::DoubleNeq(a, b) => a != b && a < varc && b < varc,
        EntropyConstraint::SingleNeq(vv) => vv.var < varc && vv.value < k,
    }
}

/// As `constraints_ok`, with mathematical bounds.
pub open spec fn constraints_ok_int(cs: Seq<EntropyConstraint>, varc: int, k: int) -> bool {
    forall|i: int| 0 <= i < cs.len() ==> constraint_ok_int(#[trigger] cs[i], varc, k)
}

/// No index occurs twice.
pub open spec fn seq_distinct(s: Seq<usize>) -> bool {
    forall|i: int, j: int| 0 <= i < j < s.len() ==> s[i] != s[j]
}

/// How many entries of the map are set.
pub open spec fn count_some(m: Seq<Option<usize>>) -> int
    decreases m.len(),
{
    if m.len() == 0 {
        0
    } else {
        count_some(m.drop_last()) + (if m.last() is Some {
            1int
        } else {
            0
        })
    }
}

/// The count of set entries never exceeds the map's length and is never
/// negative.
proof fn lemma_count_some_bound(m: Seq<Option<usize>>)
    ensures
        0 <= count_some(m) <= m.len(),
    decreases m.len(),
{
    if m.len() > 0 {
        lemma_count_some_bound(m.drop_last());
    }
}

/// A wholly unset map has count zero.
proof fn lemma_count_some_none(m: Seq<Option<usize>>)
    requires
        forall|i: int| 0 <= i < m.len() ==> (#[trigger] m[i]) is None,
    ensures
        count_some(m) == 0,
    decreases m.len(),
{
    if m.len() > 0 {
        lemma_count_some_none(m.drop_last());
    }
}

/// Setting an unset entry raises the count by one.
proof fn lemma_count_some_update(m: Seq<Option<usize>>, i: int, x: usize)
    requires
        0 <= i < m.len(),
        m[i] is None,
    ensures
        count_some(m.update(i, Some(x))) == count_some(m) + 1,
    decreases m.len(),
{
    let upd = m.update(i, Some(x));
    if i == m.len() - 1 {
        assert(upd.drop_last() =~= m.drop_last());
    } else {
        lemma_count_some_update(m.drop_last(), i, x);
        assert(upd.drop_last() =~= m.drop_last().update(i, Some(x)));
        assert(upd.last() == m.last());
    }
}

/// During translation of a component: the global constraint `c`, if its
/// variables lie in the component, already has its image among the local
/// constraints collected so far.
spec fn fwd_ok(
    c: EntropyConstraint,
    vm: Seq<Option<usize>>,
    km: Seq<Option<usize>>,
    nc: Seq<EntropyConstraint>,
) -> bool {
    match c {
        EntropyConstraint::DoubleNeq(a, b) => vm[a as int] is Some ==> exists|cj: int|
            0 <= cj < nc.len() && ((#[trigger] nc[cj]) matches EntropyConstraint::DoubleNeq(la, lb)
                && vm[a as int] == Some(la) && vm[b as int] == Some(lb)),
        EntropyConstraint::SingleNeq(vv) => vm[vv.var as int] is Some ==> exists|cj: int|
            0 <= cj < nc.len() && ((#[trigger] nc[cj]) matches EntropyConstraint::SingleNeq(lvv)
                && vm[vv.var as int] == Some(lvv.var) && km[vv.value as int] == Some(lvv.value)),
    }
}

/// During translation of a component: the local constraint `lc` is the
/// image of some global constraint under the variable and value numberings.
spec fn bwd_ok(
    lc: EntropyConstraint,
    vm: Seq<Option<usize>>,
    km: Seq<Option<usize>>,
    cs: Seq<EntropyConstraint>,
) -> bool {
    match lc {
        EntropyConstraint::DoubleNeq(la, lb) => exists|ci: int| 0 <= ci < cs.len() && ((
        #[trigger] cs[ci]) matches EntropyConstraint::DoubleNeq(a, b) && vm[a as int] == Some(la)
            && vm[b as int] == Some(lb)),
        EntropyConstraint::SingleNeq(lvv) => exists|ci: int| 0 <= ci < cs.len() && ((
        #[trigger] cs[ci]) matches EntropyConstraint::SingleNeq(gvv) && vm[gvv.var as int] == Some(
            lvv.var,
        ) && km[gvv.value as int] == Some(lvv.value)),
    }
}

/// Whether some entry of the map is set to exactly `x`.
pub open spec fn maps_to(m: Seq<Option<usize>>, x: usize) -> bool {
    exists|i: int| 0 <= i < m.len() && (#[trigger] m[i]) == Some(x)
}

/// Finds an index whose map entry is set to exactly `x`.
fn find_preimage(m: &Vec<Option<usize>>, x: usize) -> (r: usize)
    requires
        exists|i: int| 0 <= i < m@.len() && m@[i] == Some(x),
    ensures
        (r as int) < m@.len(),
        m@[r as int] == Some(x),
{
    let n = m.len();
    let mut o: usize = 0;
    while o < n
        invariant
            o <= n,
            n == m@.len(),
            exists|i: int| 0 <= i < m@.len() && m@[i] == Some(x),
            forall|j: int| 0 <= j < o ==> m@[j] != Some(x),
        decreases n - o,
    {
        let hit = match m[o] {
            Some(y) => y == x,
            None => false,
        };
        if hit {
            return o;
        }
        o = o + 1;
    }
    proof {
        let i = choose|i: int| 0 <= i < m@.len() && m@[i] == Some(x);
        assert(false);
    }
    0
}

/// Whether some sub-problem of the list maps local index back to global
/// variable `v`.
pub open spec fn in_some_sub(subs: Seq<EntropySubProblem>, v: usize) -> bool {
    exists|s: int| 0 <= s < subs.len() && (#[trigger] subs[s]).var_map@.contains(v)
}

/// Whether global value `v` lies in some bucket of the sub-problem's value
/// map.
pub open spec fn in_some_bucket(km: Seq<Vec<usize>>, v: usize) -> bool {
    exists|b: int| 0 <= b < km.len() && (#[trigger] km[b])@.contains(v)
}

/// Whether the sub-problem keeps both ends of every pairwise constraint
/// together: a pairwise-linked pair of globals is either wholly inside or
/// wholly outside of it.
pub open spec fn edges_respected(sub: EntropySubProblem, cs: Seq<EntropyConstraint>) -> bool {
    forall|ci: int| 0 <= ci < cs.len() ==> ((#[trigger] cs[ci]) matches EntropyConstraint::DoubleNeq(
        a,
        b,
    ) ==> (sub.var_map@.contains(a) <==> sub.var_map@.contains(b)))
}

/// Whether some pairwise constraint of the set links `x` and `y` directly,
/// in either orientation.
pub open spec fn connected_step(cs: Seq<EntropyConstraint>, x: usize, y: usize) -> bool {
    exists|ci: int| 0 <= ci < cs.len() && ((#[trigger] cs[ci]) == EntropyConstraint::DoubleNeq(
        x,
        y,
    ) || cs[ci] == EntropyConstraint::DoubleNeq(y, x))
}

/// Whether `y` is reachable from `x` in at most `n` pairwise-constraint
/// edges.
pub open spec fn connected_in(cs: Seq<EntropyConstraint>, x: usize, y: usize, n: nat) -> bool
    decreases n,
{
    x == y || (n > 0 && exists|z: usize| #[trigger] connected_step(cs, x, z) && connected_in(
        cs,
        z,
        y,
        (n - 1) as nat,
    ))
}

/// Whether `x` and `y` lie in the same connected component of the variable
/// graph whose edges are the pairwise constraints.
pub open spec fn connected(cs: Seq<EntropyConstraint>, x: usize, y: usize) -> bool {
    exists|n: nat| connected_in(cs, x, y, n)
}

/// A path stays a path under a larger step budget.
proof fn lemma_connected_mono(cs: Seq<EntropyConstraint>, x: usize, y: usize, n: nat, n2: nat)
    requires
        connected_in(cs, x, y, n),
        n <= n2,
    ensures
        connected_in(cs, x, y, n2),
    decreases n,
{
    if x != y {
        let z = choose|z: usize| #[trigger] connected_step(cs, x, z) && connected_in(
            cs,
            z,
            y,
            (n - 1) as nat,
        );
        lemma_connected_mono(cs, z, y, (n - 1) as nat, (n2 - 1) as nat);
    }
}

/// A path extends by one edge at its end.
proof fn lemma_connected_append(cs: Seq<EntropyConstraint>, x: usize, y: usize, z: usize, n: nat)
    requires
        connected_in(cs, x, y, n),
        connected_step(cs, y, z),
    ensures
        connected_in(cs, x, z, (n + 1) as nat),
    decreases n,
{
    if x == y {
        assert(connected_step(cs, x, z) && connected_in(cs, z, z, n));
    } else {
        let w = choose|w: usize| #[trigger] connected_step(cs, x, w) && connected_in(
            cs,
            w,
            y,
            (n - 1) as nat,
        );
        lemma_connected_append(cs, w, y, z, (n - 1) as nat);
        assert(connected_step(cs, x, w) && connected_in(cs, w, z, n));
    }
}

/// Connectivity is symmetric: every path can be walked backwards.
proof fn lemma_connected_sym(cs: Seq<EntropyConstraint>, x: usize, y: usize, n: nat)
    requires
        connected_in(cs, x, y, n),
    ensures
        connected_in(cs, y, x, n),
    decreases n,
{
    if x != y {
        let z = choose|z: usize| #[trigger] connected_step(cs, x, z) && connected_in(
            cs,
            z,
            y,
            (n - 1) as nat,
        );
        lemma_connected_sym(cs, z, y, (n - 1) as nat);
        assert(connected_step(cs, z, x));
        lemma_connected_append(cs, y, z, x, (n - 1) as nat);
    }
}

/// Connectivity is transitive: two paths concatenate.
proof fn lemma_connected_trans(
    cs: Seq<EntropyConstraint>,
    x: usize,
    y: usize,
    z: usize,
    n: nat,
    m: nat,
)
    requires
        connected_in(cs, x, y, n),
        connected_in(cs, y, z, m),
    ensures
        connected_in(cs, x, z, (n + m) as nat),
    decreases n,
{
    if x == y {
        lemma_connected_mono(cs, y, z, m, (n + m) as nat);
    } else {
        let w = choose|w: usize| #[trigger] connected_step(cs, x, w) && connected_in(
            cs,
            w,
            y,
            (n - 1) as nat,
        );
        lemma_connected_trans(cs, w, y, z, (n - 1) as nat, m);
        assert(connected_step(cs, x, w) && connected_in(cs, w, z, (n + m - 1) as nat));
    }
}

/// Any two variables of one sub-problem are connected, directly or
/// transitively, by the pairwise constraints: the sub-problem lies within
/// one connected component. Together with cover and disjointness this
/// makes the sub-problems exactly the connected components.
pub open spec fn sub_connected(sub: EntropySubProblem, cs: Seq<EntropyConstraint>) -> bool {
    forall|i1: int, i2: int|
        #![trigger sub.var_map@[i1], sub.var_map@[i2]]
        0 <= i1 < sub.var_map@.len() && 0 <= i2 < sub.var_map@.len() ==> connected(
            cs,
            sub.var_map@[i1],
            sub.var_map@[i2],
        )
}

/// Whether some unary constraint of the set, on a variable of the
/// sub-problem, forbids global value `v`: the values the component
/// mentions.
pub open spec fn value_mentioned(
    sub: EntropySubProblem,
    cs: Seq<EntropyConstraint>,
    v: usize,
) -> bool {
    exists|ci: int| 0 <= ci < cs.len() && ((#[trigger] cs[ci])
        matches EntropyConstraint::SingleNeq(gvv) && sub.var_map@.contains(gvv.var) && gvv.value
        == v)
}

/// The value buckets follow the mention structure of the component: every
/// bucket but the last is a singleton holding a value some unary
/// constraint of the component mentions, and the last bucket holds only
/// unmentioned values. With the bucket partition of `sub_wf` this pins the
/// buckets completely: one singleton per distinct mentioned value, and the
/// one final bucket collapsing exactly the unmentioned values.
pub open spec fn buckets_characterized(sub: EntropySubProblem, cs: Seq<EntropyConstraint>) -> bool {
    &&& (forall|b: int| 0 <= b < sub.k_map@.len() - 1 ==> (#[trigger] sub.k_map@[b])@.len() == 1
        && value_mentioned(sub, cs, sub.k_map@[b]@[0]))
    &&& (forall|t: int|
        0 <= t < sub.k_map@[sub.k_map@.len() - 1]@.len() ==> !value_mentioned(
            sub,
            cs,
            (#[trigger] sub.k_map@[sub.k_map@.len() - 1]@[t]),
        ))
}

/// Whether the local constraint `lc` is the image of the global pairwise
/// constraint `DoubleNeq(a, b)` under the sub-problem's variable map.
pub open spec fn pair_translates(
    lc: EntropyConstraint,
    sub: EntropySubProblem,
    a: usize,
    b: usize,
) -> bool {
    lc matches EntropyConstraint::DoubleNeq(la, lb) && (la as int) < sub.var_map@.len() && (
    lb as int) < sub.var_map@.len() && sub.var_map@[la as int] == a && sub.var_map@[lb as int] == b
}

/// Whether the local constraint `lc` is the image of the global unary
/// constraint on `vv` under the sub-problem's variable and value maps.
pub open spec fn unary_translates(
    lc: EntropyConstraint,
    sub: EntropySubProblem,
    vv: VarAndValue,
) -> bool {
    lc matches EntropyConstraint::SingleNeq(lvv) && (lvv.var as int) < sub.var_map@.len()
        && sub.var_map@[lvv.var as int] == vv.var && (lvv.value as int) < sub.k_map@.len()
        && sub.k_map@[lvv.value as int]@.contains(vv.value)
}

/// Every global constraint whose variables lie in the sub-problem appears
/// translated among its local constraints.
pub open spec fn constraint_translated(c: EntropyConstraint, sub: EntropySubProblem) -> bool {
    match c {
        EntropyConstraint::DoubleNeq(a, b) => sub.var_map@.contains(a) ==> exists|cj: int|
            0 <= cj < sub.contras@.len() && pair_translates(#[trigger] sub.contras@[cj], sub, a, b),
        EntropyConstraint::SingleNeq(vv) => sub.var_map@.contains(vv.var) ==> exists|cj: int|
            0 <= cj < sub.contras@.len() && unary_translates(#[trigger] sub.contras@[cj], sub, vv),
    }
}

/// Every local constraint of the sub-problem is the image of some global
/// constraint: nothing is invented.
pub open spec fn constraint_original(
    lc: EntropyConstraint,
    sub: EntropySubProblem,
    cs: Seq<EntropyConstraint>,
) -> bool {
    match lc {
        EntropyConstraint::DoubleNeq(la, lb) => exists|ci: int| 0 <= ci < cs.len() && ((
        #[trigger] cs[ci]) matches EntropyConstraint::DoubleNeq(a, b) && pair_translates(
            lc,
            sub,
            a,
            b,
        )),
        EntropyConstraint::SingleNeq(lvv) => exists|ci: int| 0 <= ci < cs.len() && ((
        #[trigger] cs[ci]) matches EntropyConstraint::SingleNeq(gvv) && unary_translates(
            lc,
            sub,
            gvv,
        )),
    }
}

/// The two directions of translation faithfulness together.
pub open spec fn sub_constraints_faithful(sub: EntropySubProblem, cs: Seq<EntropyConstraint>) -> bool {
    &&& (forall|ci: int| 0 <= ci < cs.len() ==> constraint_translated(#[trigger] cs[ci], sub))
    &&& (forall|cj: int| 0 <= cj < sub.contras@.len() ==> constraint_original(
        #[trigger] sub.contras@[cj],
        sub,
        cs,
    ))
}

/// A well-formed sub-problem of a problem with `varc` variables over `k`
/// values: its variable map lists distinct globals, its value map's buckets
/// partition the global value range, and its own constraints are in range
/// for its local sizes.
pub open spec fn sub_wf(sub: EntropySubProblem, varc: usize, k: usize) -> bool {
    &&& sub.var_map@.len() >= 1
    &&& (forall|i: int| 0 <= i < sub.var_map@.len() ==> (#[trigger] sub.var_map@[i]) < varc)
    &&& seq_distinct(sub.var_map@)
    &&& sub.k_map@.len() >= 1
    &&& (forall|b: int, t: int|
        0 <= b < sub.k_map@.len() && 0 <= t < sub.k_map@[b]@.len() ==> (#[trigger] sub.k_map@[b]@[t])
            < k)
    &&& (forall|v: usize| v < k ==> #[trigger] in_some_bucket(sub.k_map@, v))
    &&& (forall|b1: int, b2: int, v: usize|
        #![trigger sub.k_map@[b1]@.contains(v), sub.k_map@[b2]@.contains(v)]
        0 <= b1 < b2 < sub.k_map@.len() ==> !(sub.k_map@[b1]@.contains(v)
            && sub.k_map@[b2]@.contains(v)))
    &&& constraints_ok_int(sub.contras@, sub.var_map@.len() as int, sub.k_map@.len() as int)
}

/// Iterator over all `(variable, value)` pairs of a rectangular range, in
/// lexicographic order: the variable runs from its start (inclusive) to its
/// end (exclusive), and for each variable the value runs from `0` to the
/// common domain size (exclusive).
pub struct VarValIter {
    pub current: VarAndValue,
    pub end: VarAndValue,
}

impl VarValIter {
    /// The cursor never runs past the end of the range.
    pub open spec fn wf(self) -> bool {
        self.current.var <= self.end.var && (self.current.var == self.end.var
            || self.current.value < self.end.value)
    }

    /// Yields the current pair and advances the cursor in lexicographic
    /// order; yields `None` once the variable range is exhausted.
    pub fn next(&mut self) -> (r: Option<VarAndValue>)
        requires
            old(self).wf(),
        ensures
            final(self).wf(),
            final(self).end == old(self).end,
            old(self).current.var == old(self).end.var ==> r == None::<VarAndValue>
                && final(self).current == old(self).current,
            old(self).current.var != old(self).end.var ==> r == Some(old(self).current)
                && final(self).current == (if old(self).current.value + 1 == old(
                self,
            ).end.value {
                VarAndValue { var: (old(self).current.var + 1) as usize, value: 0 }
            } else {
                VarAndValue { var: old(self).current.var, value: (old(self).current.value
                    + 1) as usize }
            }),
    {
        if self.current.var == self.end.var {
            return None;
        }
        let result = self.current;
        self.current.value = self.current.value + 1;
        if self.current.value == self.end.value {
            self.current.value = 0;
            self.current.var = self.current.var + 1;
        }
        Some(result)
    }
}

/// One independent sub-problem of a decomposed optimization.
///
/// `var_map` maps each local variable index back to its global variable;
/// local `varc` is its length. `k_map` maps each local value index to the
/// global values it stands for: every value mentioned by a constraint of
/// the component keeps a bucket of its own, and all unmentioned values are
/// collapsed into the final bucket. `contras` are the component's
/// constraints over local indices.
pub struct EntropySubProblem {
    pub var_map: Vec<usize>,
    pub k_map: Vec<Vec<usize>>,
    pub contras: Vec<EntropyConstraint>,
}

impl EntropySubProblem {
    /// The number of variables of the sub-problem.
    pub fn varc(&self) -> (r: usize)
        ensures
            r == self.var_map@.len(),
    {
        self.var_map.len()
    }

    /// The number of local values of the sub-problem.
    pub fn k(&self) -> (r: usize)
        ensures
            r == self.k_map@.len(),
    {
        self.k_map.len()
    }

    /// How many global values the local value `kval` stands for.
    pub fn kcount(&self, kval: usize) -> (r: usize)
        requires
            kval < self.k_map@.len(),
        ensures
            r == self.k_map@[kval as int]@.len(),
    {
        self.k_map[kval].len()
    }
}

/// The optimizer seen by the decomposition: the same problem data, before
/// being split into independent sub-problems.
pub struct EntropyOptimizer {
    pub varc: usize,
    pub k: usize,
    pub contras: Vec<EntropyConstraint>,
}

impl EntropyOptimizer {
    /// Whether every constraint of the set is within range for this
    /// problem's sizes.
    pub fn constraints_valid(&self) -> (r: bool)
        ensures
            r == constraints_ok(self.contras@, self.varc, self.k),
    {
        let n = self.contras.len();
        let mut i: usize = 0;
        while i < n
            invariant
                n == self.contras@.len(),
                i <= n,
                forall|j: int| 0 <= j < i ==> constraint_ok(
                    #[trigger] self.contras@[j],
                    self.varc,
                    self.k,
                ),
            decreases n - i,
        {
            let ok = match self.contras[i] {
                EntropyConstraint::DoubleNeq(a, b) => a != b && a < self.varc && b < self.varc,
                EntropyConstraint::SingleNeq(vv) => vv.var < self.varc && vv.value < self.k,
            };
            if !ok {
                return false;
            }
            i = i + 1;
        }
        true
    }

    /// Grows the connected component of `seed` to a fixpoint over the
    /// pairwise edges, numbering its members in discovery order: a map from
    /// global variable to local index, and the component's size. Members
    /// are exactly an edge-closed set of unassigned variables around
    /// `seed`, each connected to it, numbered injectively `0 .. count`.
    #[verifier::loop_isolation(false)]
    fn grow_component(&self, seed: usize, assigned: &Vec<bool>) -> (r: (Vec<Option<usize>>, usize))
        requires
            constraints_ok(self.contras@, self.varc, self.k),
            assigned@.len() == self.varc,
            seed < self.varc,
            !assigned@[seed as int],
            forall|ci: int| 0 <= ci < self.contras@.len() ==> ((#[trigger] self.contras@[ci])
                matches EntropyConstraint::DoubleNeq(a, b) ==> assigned@[a as int]
                == assigned@[b as int]),
        ensures
            r.0@.len() == self.varc,
            1 <= r.1 <= self.varc,
            r.0@[seed as int] == Some(0usize),
            forall|i1: int, i2: int|
                0 <= i1 < i2 < self.varc && (#[trigger] r.0@[i1]) is Some && (#[trigger] r.0@[i2])
                    is Some ==> r.0@[i1] != r.0@[i2],
            forall|i: int| 0 <= i < self.varc ==> ((#[trigger] r.0@[i]) matches Some(x) ==> x
                < r.1),
            forall|x: usize| x < r.1 ==> #[trigger] maps_to(r.0@, x),
            forall|i: int| 0 <= i < self.varc && (#[trigger] r.0@[i]) is Some ==> !assigned@[i],
            forall|ci: int| 0 <= ci < self.contras@.len() ==> ((#[trigger] self.contras@[ci])
                matches EntropyConstraint::DoubleNeq(a, b) ==> (r.0@[a as int] is Some
                <==> r.0@[b as int] is Some)),
            forall|i: int| 0 <= i < self.varc && (#[trigger] r.0@[i]) is Some ==> connected(
                self.contras@,
                seed,
                (i as usize),
            ),
    {
        let varc = self.varc;
        let ncs = self.contras.len();
        // Grow the component of `seed` to a fixpoint over the pairwise
        // edges, numbering its members as they are discovered.
        let mut var_map: Vec<Option<usize>> = Vec::new();
        let mut t1: usize = 0;
        while t1 < varc
            invariant
                var_map@.len() == t1,
                t1 <= varc,
                forall|i: int| 0 <= i < t1 ==> (#[trigger] var_map@[i]) is None,
            decreases varc - t1,
        {
            var_map.push(None);
            t1 = t1 + 1;
        }
        proof {
            lemma_count_some_none(var_map@);
        }
        let ghost pre_vm = var_map@;
        var_map[seed] = Some(0);
        let mut vcnt: usize = 1;
        proof {
            lemma_count_some_update(pre_vm, seed as int, 0);
            assert(connected_in(self.contras@, seed, seed, 0nat));
            assert(connected(self.contras@, seed, seed));
        }
        let mut changed = true;
        while changed
            invariant
                var_map@.len() == varc,
                1 <= vcnt <= varc,
                count_some(var_map@) == vcnt,
                var_map@[seed as int] == Some(0usize),
                forall|i1: int, i2: int|
                    0 <= i1 < i2 < varc && (#[trigger] var_map@[i1]) is Some && (
                    #[trigger] var_map@[i2]) is Some ==> var_map@[i1] != var_map@[i2],
                forall|i: int| 0 <= i < varc ==> ((#[trigger] var_map@[i]) matches Some(x) ==> x
                    < vcnt),
                forall|x: usize| x < vcnt ==> #[trigger] maps_to(var_map@, x),
                forall|i: int| 0 <= i < varc && (#[trigger] var_map@[i]) is Some ==> !assigned@[i],
                forall|i: int| 0 <= i < varc && (#[trigger] var_map@[i]) is Some ==> connected(
                    self.contras@,
                    seed,
                    (i as usize),
                ),
                !changed ==> (forall|ci: int| 0 <= ci < self.contras@.len() ==> ((
                #[trigger] self.contras@[ci]) matches EntropyConstraint::DoubleNeq(a, b) ==> (
                var_map@[a as int] is Some <==> var_map@[b as int] is Some))),
            decreases varc - vcnt + (if changed {
                1int
            } else {
                0
            }),
        {
            changed = false;
            let ghost v0 = vcnt;
            let mut ci: usize = 0;
            while ci < ncs
                invariant
                    var_map@.len() == varc,
                    1 <= vcnt <= varc,
                    count_some(var_map@) == vcnt,
                    var_map@[seed as int] == Some(0usize),
                    ci <= ncs,
                    ncs == self.contras@.len(),
                    forall|i1: int, i2: int|
                        0 <= i1 < i2 < varc && (#[trigger] var_map@[i1]) is Some && (
                        #[trigger] var_map@[i2]) is Some ==> var_map@[i1] != var_map@[i2],
                    forall|i: int| 0 <= i < varc ==> ((#[trigger] var_map@[i]) matches Some(x)
                        ==> x < vcnt),
                    forall|x: usize| x < vcnt ==> #[trigger] maps_to(var_map@, x),
                    forall|i: int| 0 <= i < varc && (#[trigger] var_map@[i]) is Some
                        ==> !assigned@[i],
                    forall|i: int| 0 <= i < varc && (#[trigger] var_map@[i]) is Some
                        ==> connected(self.contras@, seed, (i as usize)),
                    changed ==> vcnt > v0,
                    !changed ==> vcnt == v0,
                    !changed ==> (forall|j: int| 0 <= j < ci ==> ((
                    #[trigger] self.contras@[j]) matches EntropyConstraint::DoubleNeq(a, b)
                        ==> (var_map@[a as int] is Some <==> var_map@[b as int] is Some))),
                decreases ncs - ci,
            {
                match self.contras[ci] {
                    EntropyConstraint::DoubleNeq(a, b) => {
                        let ia = var_map[a].is_some();
                        let ib = var_map[b].is_some();
                        if ia != ib {
                            let tgt = if !ia {
                                a
                            } else {
                                b
                            };
                            proof {
                                lemma_count_some_update(var_map@, tgt as int, vcnt);
                                assert(self.contras@[ci as int] == EntropyConstraint::DoubleNeq(
                                    a,
                                    b,
                                ));
                                if !ia {
                                    assert(connected(self.contras@, seed, b));
                                    let n = choose|n: nat|
                                        connected_in(self.contras@, seed, b, n);
                                    assert(connected_step(self.contras@, b, a));
                                    lemma_connected_append(self.contras@, seed, b, a, n);
                                    assert(connected(self.contras@, seed, a));
                                } else {
                                    assert(connected(self.contras@, seed, a));
                                    let n = choose|n: nat|
                                        connected_in(self.contras@, seed, a, n);
                                    assert(connected_step(self.contras@, a, b));
                                    lemma_connected_append(self.contras@, seed, a, b, n);
                                    assert(connected(self.contras@, seed, b));
                                }
                            }
                            let ghost prev = var_map@;
                            var_map[tgt] = Some(vcnt);
                            proof {
                                lemma_count_some_bound(var_map@);
                                assert forall|x: usize| x < vcnt + 1 implies #[trigger] maps_to(
                                    var_map@,
                                    x,
                                ) by {
                                    if x < vcnt {
                                        assert(maps_to(prev, x));
                                        let i = choose|i: int|
                                            0 <= i < prev.len() && prev[i] == Some(x);
                                        assert(var_map@[i] == Some(x));
                                    } else {
                                        assert(var_map@[tgt as int] == Some(x));
                                    }
                                }
                            }
                            vcnt = vcnt + 1;
                            changed = true;
                        }
                    },
                    EntropyConstraint::SingleNeq(_) => {},
                }
                ci = ci + 1;
            }
        }        (var_map, vcnt)
    }

    /// Translates the constraints of the component held in `var_map` to
    /// local indices, numbering mentioned values in discovery order:
    /// returns the local constraints, the value numbering and its size.
    #[verifier::loop_isolation(false)]
    #[verifier::rlimit(60)]
    fn translate_component(&self, var_map: &Vec<Option<usize>>, vcnt: usize) -> (r: (
        Vec<EntropyConstraint>,
        Vec<Option<usize>>,
        usize,
    ))
        requires
            constraints_ok(self.contras@, self.varc, self.k),
            var_map@.len() == self.varc,
            forall|i1: int, i2: int|
                0 <= i1 < i2 < self.varc && (#[trigger] var_map@[i1]) is Some && (
                #[trigger] var_map@[i2]) is Some ==> var_map@[i1] != var_map@[i2],
            forall|i: int| 0 <= i < self.varc ==> ((#[trigger] var_map@[i]) matches Some(x) ==> x
                < vcnt),
            forall|ci: int| 0 <= ci < self.contras@.len() ==> ((#[trigger] self.contras@[ci])
                matches EntropyConstraint::DoubleNeq(a, b) ==> (var_map@[a as int] is Some
                <==> var_map@[b as int] is Some)),
        ensures
            r.1@.len() == self.k,
            r.2 <= self.k,
            forall|i1: int, i2: int|
                0 <= i1 < i2 < self.k && (#[trigger] r.1@[i1]) is Some && (#[trigger] r.1@[i2])
                    is Some ==> r.1@[i1] != r.1@[i2],
            forall|i: int| 0 <= i < self.k ==> ((#[trigger] r.1@[i]) matches Some(x) ==> x < r.2),
            forall|x: usize| x < r.2 ==> #[trigger] maps_to(r.1@, x),
            forall|j: int| 0 <= j < r.0@.len() ==> constraint_ok_int(
                #[trigger] r.0@[j],
                vcnt as int,
                r.2 as int + 1,
            ),
            forall|ci: int| 0 <= ci < self.contras@.len() ==> fwd_ok(
                #[trigger] self.contras@[ci],
                var_map@,
                r.1@,
                r.0@,
            ),
            forall|cj: int| 0 <= cj < r.0@.len() ==> bwd_ok(
                #[trigger] r.0@[cj],
                var_map@,
                r.1@,
                self.contras@,
            ),
            forall|ci: int| 0 <= ci < self.contras@.len() ==> ((#[trigger] self.contras@[ci])
                matches EntropyConstraint::SingleNeq(gvv) ==> (var_map@[gvv.var as int] is Some
                ==> r.1@[gvv.value as int] is Some)),
            forall|v: int|
                0 <= v < self.k && (#[trigger] r.1@[v]) is Some ==> exists|ci: int|
                    0 <= ci < self.contras@.len() && ((#[trigger] self.contras@[ci])
                        matches EntropyConstraint::SingleNeq(gvv) && var_map@[gvv.var as int]
                        is Some && gvv.value == v),
    {
        let k = self.k;
        let ncs = self.contras.len();
        // Translate the constraints of the component to local indices,
        // numbering mentioned values as they are discovered.
        let mut val_map: Vec<Option<usize>> = Vec::new();
        let mut t2: usize = 0;
        while t2 < k
            invariant
                val_map@.len() == t2,
                t2 <= k,
                forall|i: int| 0 <= i < t2 ==> (#[trigger] val_map@[i]) is None,
            decreases k - t2,
        {
            val_map.push(None);
            t2 = t2 + 1;
        }
        proof {
            lemma_count_some_none(val_map@);
        }
        let mut kcnt: usize = 0;
        let mut new_contras: Vec<EntropyConstraint> = Vec::new();
        let mut ci2: usize = 0;
        while ci2 < ncs
            invariant
                val_map@.len() == k,
                kcnt <= k,
                count_some(val_map@) == kcnt,
                ci2 <= ncs,
                ncs == self.contras@.len(),
                forall|i1: int, i2: int|
                    0 <= i1 < i2 < k && (#[trigger] val_map@[i1]) is Some && (
                    #[trigger] val_map@[i2]) is Some ==> val_map@[i1] != val_map@[i2],
                forall|i: int| 0 <= i < k ==> ((#[trigger] val_map@[i]) matches Some(x) ==> x
                    < kcnt),
                forall|x: usize| x < kcnt ==> #[trigger] maps_to(val_map@, x),
                forall|j: int| 0 <= j < new_contras@.len() ==> constraint_ok_int(
                    #[trigger] new_contras@[j],
                    vcnt as int,
                    kcnt as int + 1,
                ),
                forall|ci: int| 0 <= ci < ci2 ==> fwd_ok(
                    #[trigger] self.contras@[ci],
                    var_map@,
                    val_map@,
                    new_contras@,
                ),
                forall|cj: int| 0 <= cj < new_contras@.len() ==> bwd_ok(
                    #[trigger] new_contras@[cj],
                    var_map@,
                    val_map@,
                    self.contras@,
                ),
                forall|ci: int| 0 <= ci < ci2 ==> ((#[trigger] self.contras@[ci])
                    matches EntropyConstraint::SingleNeq(gvv) ==> (var_map@[gvv.var as int]
                    is Some ==> val_map@[gvv.value as int] is Some)),
                forall|v: int|
                    0 <= v < k && (#[trigger] val_map@[v]) is Some ==> exists|ci: int|
                        0 <= ci < ncs && ((#[trigger] self.contras@[ci])
                            matches EntropyConstraint::SingleNeq(gvv)
                            && var_map@[gvv.var as int] is Some && gvv.value == v),
            decreases ncs - ci2,
        {
            let ghost pre_km2 = val_map@;
            let ghost pre_nc2 = new_contras@;
            match self.contras[ci2] {
                EntropyConstraint::DoubleNeq(a, b) => {
                    if var_map[a].is_some() {
                        let la = var_map[a].unwrap();
                        let lb = var_map[b].unwrap();
                        proof {
                            assert(var_map@[a as int] != var_map@[b as int]);
                        }
                        new_contras.push(EntropyConstraint::DoubleNeq(la, lb));
                        proof {
                            assert(new_contras@[new_contras@.len() - 1]
                                == EntropyConstraint::DoubleNeq(la, lb));
                            assert(fwd_ok(
                                self.contras@[ci2 as int],
                                var_map@,
                                val_map@,
                                new_contras@,
                            ));
                            assert(self.contras@[ci2 as int] == EntropyConstraint::DoubleNeq(
                                a,
                                b,
                            ));
                            assert(bwd_ok(
                                new_contras@[new_contras@.len() - 1],
                                var_map@,
                                val_map@,
                                self.contras@,
                            ));
                        }
                    }
                },
                EntropyConstraint::SingleNeq(vv) => {
                    if var_map[vv.var].is_some() {
                        let lv = var_map[vv.var].unwrap();
                        let nv = match val_map[vv.value] {
                            Some(x) => x,
                            None => {
                                let x = kcnt;
                                proof {
                                    lemma_count_some_update(val_map@, vv.value as int, x);
                                }
                                let ghost prevv = val_map@;
                                val_map[vv.value] = Some(x);
                                proof {
                                    lemma_count_some_bound(val_map@);
                                    assert forall|y: usize| y < kcnt + 1 implies #[trigger] maps_to(
                                        val_map@,
                                        y,
                                    ) by {
                                        if y < kcnt {
                                            assert(maps_to(prevv, y));
                                            let i = choose|i: int|
                                                0 <= i < prevv.len() && prevv[i] == Some(y);
                                            assert(val_map@[i] == Some(y));
                                        } else {
                                            assert(val_map@[vv.value as int] == Some(y));
                                        }
                                    }
                                }
                                kcnt = kcnt + 1;
                                x
                            },
                        };
                        new_contras.push(
                            EntropyConstraint::SingleNeq(VarAndValue { var: lv, value: nv }),
                        );
                        proof {
                            assert(new_contras@[new_contras@.len() - 1]
                                == EntropyConstraint::SingleNeq(
                                VarAndValue { var: lv, value: nv },
                            ));
                            assert(val_map@[vv.value as int] == Some(nv));
                            assert(fwd_ok(
                                self.contras@[ci2 as int],
                                var_map@,
                                val_map@,
                                new_contras@,
                            ));
                            assert(self.contras@[ci2 as int] == EntropyConstraint::SingleNeq(
                                vv,
                            ));
                            assert(bwd_ok(
                                new_contras@[new_contras@.len() - 1],
                                var_map@,
                                val_map@,
                                self.contras@,
                            ));
                        }
                    }
                },
            }
            proof {
                assert forall|i: int| 0 <= i < k && pre_km2[i] is Some implies val_map@[i]
                    == pre_km2[i] by {}
                assert forall|ci: int| 0 <= ci < ci2 + 1 implies fwd_ok(
                    #[trigger] self.contras@[ci],
                    var_map@,
                    val_map@,
                    new_contras@,
                ) by {
                    if ci < ci2 {
                        assert(fwd_ok(self.contras@[ci], var_map@, pre_km2, pre_nc2));
                        match self.contras@[ci] {
                            EntropyConstraint::DoubleNeq(a2, b2) => {
                                if var_map@[a2 as int] is Some {
                                    let cj = choose|cj: int|
                                        0 <= cj < pre_nc2.len() && ((#[trigger] pre_nc2[cj])
                                            matches EntropyConstraint::DoubleNeq(la, lb)
                                            && var_map@[a2 as int] == Some(la) && var_map@[b2 as int]
                                            == Some(lb));
                                    assert(new_contras@[cj] == pre_nc2[cj]);
                                }
                            },
                            EntropyConstraint::SingleNeq(vv2) => {
                                if var_map@[vv2.var as int] is Some {
                                    let cj = choose|cj: int|
                                        0 <= cj < pre_nc2.len() && ((#[trigger] pre_nc2[cj])
                                            matches EntropyConstraint::SingleNeq(lvv)
                                            && var_map@[vv2.var as int] == Some(lvv.var)
                                            && pre_km2[vv2.value as int] == Some(lvv.value));
                                    assert(new_contras@[cj] == pre_nc2[cj]);
                                    assert(val_map@[vv2.value as int] == pre_km2[vv2.value as int]);
                                }
                            },
                        }
                    }
                }
                assert forall|cj: int| 0 <= cj < new_contras@.len() implies bwd_ok(
                    #[trigger] new_contras@[cj],
                    var_map@,
                    val_map@,
                    self.contras@,
                ) by {
                    if cj < pre_nc2.len() {
                        assert(new_contras@[cj] == pre_nc2[cj]);
                        assert(bwd_ok(pre_nc2[cj], var_map@, pre_km2, self.contras@));
                        match pre_nc2[cj] {
                            EntropyConstraint::DoubleNeq(la, lb) => {},
                            EntropyConstraint::SingleNeq(lvv) => {
                                let ci = choose|ci: int|
                                    0 <= ci < self.contras@.len() && ((
                                    #[trigger] self.contras@[ci])
                                        matches EntropyConstraint::SingleNeq(gvv)
                                        && var_map@[gvv.var as int] == Some(lvv.var)
                                        && pre_km2[gvv.value as int] == Some(lvv.value));
                                match self.contras@[ci] {
                                    EntropyConstraint::SingleNeq(gvv) => {
                                        assert(val_map@[gvv.value as int] == pre_km2[gvv.value as int]);
                                    },
                                    EntropyConstraint::DoubleNeq(_, _) => {},
                                }
                            },
                        }
                    }
                }
            }
            ci2 = ci2 + 1;
        }        (new_contras, val_map, kcnt)
    }

    /// Inverts the variable and value numberings of one component into a
    /// finished sub-problem: the local-to-global variable map, one
    /// singleton bucket per mentioned value plus the collapsed bucket of
    /// unmentioned values, and the translated constraints.
    #[verifier::loop_isolation(false)]
    #[verifier::rlimit(100)]
    fn build_subproblem(
        &self,
        seed: usize,
        var_map: &Vec<Option<usize>>,
        vcnt: usize,
        val_map: &Vec<Option<usize>>,
        kcnt: usize,
        new_contras: Vec<EntropyConstraint>,
    ) -> (sub: EntropySubProblem)
        requires
            constraints_ok(self.contras@, self.varc, self.k),
            seed < self.varc,
            var_map@.len() == self.varc,
            1 <= vcnt <= self.varc,
            var_map@[seed as int] == Some(0usize),
            forall|i1: int, i2: int|
                0 <= i1 < i2 < self.varc && (#[trigger] var_map@[i1]) is Some && (
                #[trigger] var_map@[i2]) is Some ==> var_map@[i1] != var_map@[i2],
            forall|i: int| 0 <= i < self.varc ==> ((#[trigger] var_map@[i]) matches Some(x) ==> x
                < vcnt),
            forall|x: usize| x < vcnt ==> #[trigger] maps_to(var_map@, x),
            forall|ci: int| 0 <= ci < self.contras@.len() ==> ((#[trigger] self.contras@[ci])
                matches EntropyConstraint::DoubleNeq(a, b) ==> (var_map@[a as int] is Some
                <==> var_map@[b as int] is Some)),
            forall|i: int| 0 <= i < self.varc && (#[trigger] var_map@[i]) is Some ==> connected(
                self.contras@,
                seed,
                (i as usize),
            ),
            val_map@.len() == self.k,
            kcnt <= self.k,
            forall|i1: int, i2: int|
                0 <= i1 < i2 < self.k && (#[trigger] val_map@[i1]) is Some && (
                #[trigger] val_map@[i2]) is Some ==> val_map@[i1] != val_map@[i2],
            forall|i: int| 0 <= i < self.k ==> ((#[trigger] val_map@[i]) matches Some(x) ==> x
                < kcnt),
            forall|x: usize| x < kcnt ==> #[trigger] maps_to(val_map@, x),
            forall|j: int| 0 <= j < new_contras@.len() ==> constraint_ok_int(
                #[trigger] new_contras@[j],
                vcnt as int,
                kcnt as int + 1,
            ),
            forall|ci: int| 0 <= ci < self.contras@.len() ==> fwd_ok(
                #[trigger] self.contras@[ci],
                var_map@,
                val_map@,
                new_contras@,
            ),
            forall|cj: int| 0 <= cj < new_contras@.len() ==> bwd_ok(
                #[trigger] new_contras@[cj],
                var_map@,
                val_map@,
                self.contras@,
            ),
            forall|ci: int| 0 <= ci < self.contras@.len() ==> ((#[trigger] self.contras@[ci])
                matches EntropyConstraint::SingleNeq(gvv) ==> (var_map@[gvv.var as int] is Some
                ==> val_map@[gvv.value as int] is Some)),
            forall|v: int|
                0 <= v < self.k && (#[trigger] val_map@[v]) is Some ==> exists|ci: int|
                    0 <= ci < self.contras@.len() && ((#[trigger] self.contras@[ci])
                        matches EntropyConstraint::SingleNeq(gvv) && var_map@[gvv.var as int]
                        is Some && gvv.value == v),
        ensures
            forall|v: usize| sub.var_map@.contains(v) <==> ((v as int) < self.varc
                && var_map@[v as int] is Some),
            sub_wf(sub, self.varc, self.k),
            edges_respected(sub, self.contras@),
            sub_constraints_faithful(sub, self.contras@),
            sub_connected(sub, self.contras@),
            buckets_characterized(sub, self.contras@),
    {
        let varc = self.varc;
        let k = self.k;
        // Invert the variable numbering into the local-to-global map.
        let mut var_arr: Vec<usize> = Vec::new();
        let mut x1: usize = 0;
        while x1 < vcnt
            invariant
                var_arr@.len() == x1,
                x1 <= vcnt,
                var_map@.len() == varc,
                forall|t: int| 0 <= t < x1 ==> (#[trigger] var_arr@[t]) < varc
                    && var_map@[var_arr@[t] as int] == Some(t as usize),
            decreases vcnt - x1,
        {
            proof {
                assert(maps_to(var_map@, x1));
            }
            let o = find_preimage(&var_map, x1);
            var_arr.push(o);
            x1 = x1 + 1;
        }
        proof {
            assert forall|v: usize| var_arr@.contains(v) <==> ((v as int) < varc
                && var_map@[v as int] is Some) by {
                if var_arr@.contains(v) {
                    let t = choose|t: int| 0 <= t < var_arr@.len() && var_arr@[t] == v;
                    assert(var_map@[v as int] == Some(t as usize));
                }
                if (v as int) < varc && var_map@[v as int] is Some {
                    let x = var_map@[v as int].unwrap();
                    assert(x < vcnt);
                    assert(var_map@[var_arr@[x as int] as int] == Some(x));
                    assert(var_arr@[x as int] == v);
                    assert(var_arr@.contains(var_arr@[x as int]));
                }
            }
        }
        // Invert the value numbering: one singleton bucket per
        // mentioned value, then one bucket of all unmentioned values.
        let mut k_map: Vec<Vec<usize>> = Vec::new();
        let mut x2: usize = 0;
        while x2 < kcnt
            invariant
                k_map@.len() == x2,
                x2 <= kcnt,
                val_map@.len() == k,
                forall|b: int| 0 <= b < x2 ==> (#[trigger] k_map@[b])@.len() == 1
                    && k_map@[b]@[0] < k && val_map@[k_map@[b]@[0] as int] == Some(b as usize),
            decreases kcnt - x2,
        {
            proof {
                assert(maps_to(val_map@, x2));
            }
            let o = find_preimage(&val_map, x2);
            let mut bucket: Vec<usize> = Vec::new();
            bucket.push(o);
            k_map.push(bucket);
            x2 = x2 + 1;
        }
        let mut rest: Vec<usize> = Vec::new();
        let mut v2: usize = 0;
        while v2 < k
            invariant
                v2 <= k,
                val_map@.len() == k,
                forall|t: int| 0 <= t < rest@.len() ==> (#[trigger] rest@[t]) < k
                    && val_map@[rest@[t] as int] is None,
                forall|w: usize| ((w as int) < v2 && val_map@[w as int] is None)
                    ==> rest@.contains(w),
            decreases k - v2,
        {
            let miss = match val_map[v2] {
                None => true,
                Some(_) => false,
            };
            if miss {
                let ghost pre_rest = rest@;
                rest.push(v2);
                proof {
                    assert forall|w: usize| ((w as int) < v2 + 1 && val_map@[w as int]
                        is None) implies rest@.contains(w) by {
                        if (w as int) < v2 {
                            assert(pre_rest.contains(w));
                            let t = choose|t: int| 0 <= t < pre_rest.len() && pre_rest[t] == w;
                            assert(rest@[t] == w);
                            assert(rest@.contains(w));
                        } else {
                            assert(rest@[rest@.len() - 1] == w);
                            assert(rest@.contains(w));
                        }
                    }
                }
            }
            v2 = v2 + 1;
        }
        let ghost grest = rest@;
        k_map.push(rest);
        let ghost gvm = var_map@;
        let ghost gvalm = val_map@;
        let sub = EntropySubProblem { var_map: var_arr, k_map, contras: new_contras };
        proof {
            assert(sub.k_map@.len() == kcnt + 1);
            assert(sub.k_map@[kcnt as int]@ == grest);
            assert forall|i1: int, i2: int|
                0 <= i1 < i2 < sub.var_map@.len() implies sub.var_map@[i1]
                != sub.var_map@[i2] by {
                assert(gvm[sub.var_map@[i1] as int] == Some(i1 as usize));
                assert(gvm[sub.var_map@[i2] as int] == Some(i2 as usize));
            }
            assert forall|b: int, t: int|
                0 <= b < sub.k_map@.len() && 0 <= t < sub.k_map@[b]@.len() implies (
            #[trigger] sub.k_map@[b]@[t]) < k by {
                if b < kcnt {
                } else {
                    assert(b == kcnt as int);
                }
            }
            assert forall|v: usize| v < k implies #[trigger] in_some_bucket(sub.k_map@, v) by {
                if gvalm[v as int] is Some {
                    let x = gvalm[v as int].unwrap();
                    assert(gvalm[v as int] == Some(x));
                    assert(x < kcnt);
                    assert(gvalm[sub.k_map@[x as int]@[0] as int] == Some(x));
                    assert(sub.k_map@[x as int]@[0] == v);
                    assert(sub.k_map@[x as int]@.contains(v));
                } else {
                    assert(grest.contains(v));
                    assert(sub.k_map@[kcnt as int]@.contains(v));
                }
            }
            assert forall|b1: int, b2: int, v: usize|
                #![trigger sub.k_map@[b1]@.contains(v), sub.k_map@[b2]@.contains(v)]
                0 <= b1 < b2 < sub.k_map@.len() implies !(sub.k_map@[b1]@.contains(v)
                && sub.k_map@[b2]@.contains(v)) by {
                if sub.k_map@[b1]@.contains(v) && sub.k_map@[b2]@.contains(v) {
                    let t1 = choose|t: int| 0 <= t < sub.k_map@[b1]@.len() && sub.k_map@[b1]@[t]
                        == v;
                    assert(v == sub.k_map@[b1]@[0]);
                    assert(gvalm[v as int] == Some(b1 as usize));
                    if b2 < kcnt {
                        let t2 = choose|t: int| 0 <= t < sub.k_map@[b2]@.len()
                            && sub.k_map@[b2]@[t] == v;
                        assert(v == sub.k_map@[b2]@[0]);
                        assert(gvalm[v as int] == Some(b2 as usize));
                    } else {
                        let t3 = choose|t: int| 0 <= t < grest.len() && grest[t] == v;
                        assert(gvalm[v as int] is None);
                    }
                }
            }
            assert(sub_wf(sub, varc, k));
            assert forall|ci: int| 0 <= ci < self.contras@.len() implies constraint_translated(
                #[trigger] self.contras@[ci],
                sub,
            ) by {
                assert(fwd_ok(self.contras@[ci], gvm, gvalm, sub.contras@));
                match self.contras@[ci] {
                    EntropyConstraint::DoubleNeq(a, b) => {
                        if sub.var_map@.contains(a) {
                            assert(gvm[a as int] is Some);
                            let cj = choose|cj: int|
                                0 <= cj < sub.contras@.len() && ((#[trigger] sub.contras@[cj])
                                    matches EntropyConstraint::DoubleNeq(la, lb) && gvm[a as int]
                                    == Some(la) && gvm[b as int] == Some(lb));
                            match sub.contras@[cj] {
                                EntropyConstraint::DoubleNeq(la, lb) => {
                                    assert(la < vcnt && lb < vcnt);
                                    assert(gvm[sub.var_map@[la as int] as int] == Some(la));
                                    assert(sub.var_map@[la as int] == a);
                                    assert(gvm[sub.var_map@[lb as int] as int] == Some(lb));
                                    assert(sub.var_map@[lb as int] == b);
                                    assert(pair_translates(sub.contras@[cj], sub, a, b));
                                },
                                EntropyConstraint::SingleNeq(_) => {},
                            }
                        }
                    },
                    EntropyConstraint::SingleNeq(vv) => {
                        if sub.var_map@.contains(vv.var) {
                            assert(gvm[vv.var as int] is Some);
                            let cj = choose|cj: int|
                                0 <= cj < sub.contras@.len() && ((#[trigger] sub.contras@[cj])
                                    matches EntropyConstraint::SingleNeq(lvv) && gvm[vv.var as int]
                                    == Some(lvv.var) && gvalm[vv.value as int] == Some(
                                    lvv.value,
                                ));
                            match sub.contras@[cj] {
                                EntropyConstraint::SingleNeq(lvv) => {
                                    assert(lvv.var < vcnt);
                                    assert(gvm[sub.var_map@[lvv.var as int] as int] == Some(
                                        lvv.var,
                                    ));
                                    assert(sub.var_map@[lvv.var as int] == vv.var);
                                    assert(lvv.value < kcnt);
                                    assert(gvalm[sub.k_map@[lvv.value as int]@[0] as int]
                                        == Some(lvv.value));
                                    assert(sub.k_map@[lvv.value as int]@[0] == vv.value);
                                    assert(sub.k_map@[lvv.value as int]@.contains(vv.value));
                                    assert(unary_translates(sub.contras@[cj], sub, vv));
                                },
                                EntropyConstraint::DoubleNeq(_, _) => {},
                            }
                        }
                    },
                }
            }
            assert forall|cj: int| 0 <= cj < sub.contras@.len() implies constraint_original(
                #[trigger] sub.contras@[cj],
                sub,
                self.contras@,
            ) by {
                assert(bwd_ok(sub.contras@[cj], gvm, gvalm, self.contras@));
                match sub.contras@[cj] {
                    EntropyConstraint::DoubleNeq(la, lb) => {
                        let ci = choose|ci: int|
                            0 <= ci < self.contras@.len() && ((#[trigger] self.contras@[ci])
                                matches EntropyConstraint::DoubleNeq(a, b) && gvm[a as int]
                                == Some(la) && gvm[b as int] == Some(lb));
                        match self.contras@[ci] {
                            EntropyConstraint::DoubleNeq(a, b) => {
                                assert(la < vcnt && lb < vcnt);
                                assert(gvm[sub.var_map@[la as int] as int] == Some(la));
                                assert(sub.var_map@[la as int] == a);
                                assert(gvm[sub.var_map@[lb as int] as int] == Some(lb));
                                assert(sub.var_map@[lb as int] == b);
                                assert(pair_translates(sub.contras@[cj], sub, a, b));
                            },
                            EntropyConstraint::SingleNeq(_) => {},
                        }
                    },
                    EntropyConstraint::SingleNeq(lvv) => {
                        let ci = choose|ci: int|
                            0 <= ci < self.contras@.len() && ((#[trigger] self.contras@[ci])
                                matches EntropyConstraint::SingleNeq(gvv) && gvm[gvv.var as int]
                                == Some(lvv.var) && gvalm[gvv.value as int] == Some(lvv.value));
                        match self.contras@[ci] {
                            EntropyConstraint::SingleNeq(gvv) => {
                                assert(lvv.var < vcnt);
                                assert(gvm[sub.var_map@[lvv.var as int] as int] == Some(
                                    lvv.var,
                                ));
                                assert(sub.var_map@[lvv.var as int] == gvv.var);
                                assert(lvv.value < kcnt);
                                assert(gvalm[sub.k_map@[lvv.value as int]@[0] as int] == Some(
                                    lvv.value,
                                ));
                                assert(sub.k_map@[lvv.value as int]@[0] == gvv.value);
                                assert(sub.k_map@[lvv.value as int]@.contains(gvv.value));
                                assert(unary_translates(sub.contras@[cj], sub, gvv));
                            },
                            EntropyConstraint::DoubleNeq(_, _) => {},
                        }
                    },
                }
            }
            assert(sub_constraints_faithful(sub, self.contras@));
            assert forall|i1: int, i2: int|
                #![trigger sub.var_map@[i1], sub.var_map@[i2]]
                0 <= i1 < sub.var_map@.len() && 0 <= i2 < sub.var_map@.len() implies connected(
                self.contras@,
                sub.var_map@[i1],
                sub.var_map@[i2],
            ) by {
                let v1 = sub.var_map@[i1];
                let v2 = sub.var_map@[i2];
                assert(gvm[v1 as int] == Some(i1 as usize));
                assert(gvm[v2 as int] == Some(i2 as usize));
                assert(connected(self.contras@, seed, v1));
                assert(connected(self.contras@, seed, v2));
                let n1 = choose|n: nat| connected_in(self.contras@, seed, v1, n);
                let n2 = choose|n: nat| connected_in(self.contras@, seed, v2, n);
                lemma_connected_sym(self.contras@, seed, v1, n1);
                lemma_connected_trans(self.contras@, v1, seed, v2, n1, n2);
                assert(connected_in(self.contras@, v1, v2, (n1 + n2) as nat));
            }
            assert(sub_connected(sub, self.contras@));
            assert forall|b: int| 0 <= b < sub.k_map@.len() - 1 implies (
            #[trigger] sub.k_map@[b])@.len() == 1 && value_mentioned(
                sub,
                self.contras@,
                sub.k_map@[b]@[0],
            ) by {
                let e = sub.k_map@[b]@[0];
                assert(gvalm[e as int] == Some(b as usize));
                let ci = choose|ci: int|
                    0 <= ci < self.contras@.len() && ((#[trigger] self.contras@[ci])
                        matches EntropyConstraint::SingleNeq(gvv) && gvm[gvv.var as int] is Some
                        && gvv.value == e);
                match self.contras@[ci] {
                    EntropyConstraint::SingleNeq(gvv) => {
                        assert(sub.var_map@.contains(gvv.var));
                        assert(value_mentioned(sub, self.contras@, e));
                    },
                    EntropyConstraint::DoubleNeq(_, _) => {},
                }
            }
            assert forall|t: int|
                0 <= t < sub.k_map@[sub.k_map@.len() - 1]@.len() implies !value_mentioned(
                sub,
                self.contras@,
                (#[trigger] sub.k_map@[sub.k_map@.len() - 1]@[t]),
            ) by {
                let v = sub.k_map@[sub.k_map@.len() - 1]@[t];
                assert(sub.k_map@[sub.k_map@.len() - 1]@ == grest);
                assert(gvalm[v as int] is None);
                if value_mentioned(sub, self.contras@, v) {
                    let ci = choose|ci: int|
                        0 <= ci < self.contras@.len() && ((#[trigger] self.contras@[ci])
                            matches EntropyConstraint::SingleNeq(gvv) && sub.var_map@.contains(
                            gvv.var,
                        ) && gvv.value == v);
                    match self.contras@[ci] {
                        EntropyConstraint::SingleNeq(gvv) => {
                            assert(gvm[gvv.var as int] is Some);
                            assert(gvalm[gvv.value as int] is Some);
                            assert(false);
                        },
                        EntropyConstraint::DoubleNeq(_, _) => {},
                    }
                }
            }
            assert(buckets_characterized(sub, self.contras@));
            assert(edges_respected(sub, self.contras@)) by {
                assert forall|ci: int| 0 <= ci < self.contras@.len() implies ((
                #[trigger] self.contras@[ci]) matches EntropyConstraint::DoubleNeq(a, b) ==> (
                sub.var_map@.contains(a) <==> sub.var_map@.contains(b))) by {
                    match self.contras@[ci] {
                        EntropyConstraint::DoubleNeq(a, b) => {
                            assert(var_map@[a as int] is Some <==> var_map@[b as int] is Some);
                        },
                        EntropyConstraint::SingleNeq(_) => {},
                    }
                }
            }
        }        sub
    }

    /// Splits the problem into independent sub-problems: one per connected
    /// component of the variable graph whose edges are the pairwise
    /// constraints.
    ///
    /// Every variable lands in exactly one sub-problem; the two ends of a
    /// pairwise constraint always land in the same one; and each
    /// sub-problem is well-formed: distinct globals in its variable map,
    /// value buckets partitioning the global value range, and local
    /// constraints in range for its local sizes.
    #[verifier::loop_isolation(false)]
    #[verifier::rlimit(100)]
    pub fn separate(&self) -> (r: Vec<EntropySubProblem>)
        requires
            constraints_ok(self.contras@, self.varc, self.k),
        ensures
            forall|v: usize| v < self.varc ==> #[trigger] in_some_sub(r@, v),
            forall|s1: int, s2: int, v: usize|
                #![trigger r@[s1].var_map@.contains(v), r@[s2].var_map@.contains(v)]
                0 <= s1 < s2 < r@.len() ==> !(r@[s1].var_map@.contains(v)
                    && r@[s2].var_map@.contains(v)),
            forall|s: int| 0 <= s < r@.len() ==> sub_wf(#[trigger] r@[s], self.varc, self.k),
            forall|s: int| 0 <= s < r@.len() ==> edges_respected(#[trigger] r@[s], self.contras@),
            forall|s: int| 0 <= s < r@.len() ==> sub_constraints_faithful(
                #[trigger] r@[s],
                self.contras@,
            ),
            forall|s: int| 0 <= s < r@.len() ==> sub_connected(#[trigger] r@[s], self.contras@),
            forall|s: int| 0 <= s < r@.len() ==> buckets_characterized(
                #[trigger] r@[s],
                self.contras@,
            ),
    {
        let varc = self.varc;
        let k = self.k;
        let ncs = self.contras.len();
        let mut assigned: Vec<bool> = Vec::new();
        let mut t0: usize = 0;
        while t0 < varc
            invariant
                assigned@.len() == t0,
                t0 <= varc,
                forall|i: int| 0 <= i < t0 ==> !(#[trigger] assigned@[i]),
            decreases varc - t0,
        {
            assigned.push(false);
            t0 = t0 + 1;
        }
        let mut result: Vec<EntropySubProblem> = Vec::new();
        let mut seed: usize = 0;
        while seed < varc
            invariant
                assigned@.len() == varc,
                seed <= varc,
                forall|i: int| 0 <= i < seed ==> (#[trigger] assigned@[i]),
                forall|v: usize| (v as int) < varc ==> (assigned@[v as int] <==> in_some_sub(
                    result@,
                    v,
                )),
                forall|s1: int, s2: int, v: usize|
                    #![trigger result@[s1].var_map@.contains(v), result@[s2].var_map@.contains(v)]
                    0 <= s1 < s2 < result@.len() ==> !(result@[s1].var_map@.contains(v)
                        && result@[s2].var_map@.contains(v)),
                forall|s: int| 0 <= s < result@.len() ==> sub_wf(#[trigger] result@[s], varc, k),
                forall|s: int| 0 <= s < result@.len() ==> edges_respected(
                    #[trigger] result@[s],
                    self.contras@,
                ),
                forall|s: int| 0 <= s < result@.len() ==> sub_constraints_faithful(
                    #[trigger] result@[s],
                    self.contras@,
                ),
                forall|s: int| 0 <= s < result@.len() ==> sub_connected(
                    #[trigger] result@[s],
                    self.contras@,
                ),
                forall|s: int| 0 <= s < result@.len() ==> buckets_characterized(
                    #[trigger] result@[s],
                    self.contras@,
                ),
                forall|ci: int| 0 <= ci < self.contras@.len() ==> ((#[trigger] self.contras@[ci])
                    matches EntropyConstraint::DoubleNeq(a, b) ==> assigned@[a as int]
                    == assigned@[b as int]),
            decreases varc - seed,
        {
            if assigned[seed] {
                seed = seed + 1;
                continue;
            }
            let grown = self.grow_component(seed, &assigned);
            let (var_map, vcnt) = grown;
            let translated = self.translate_component(&var_map, vcnt);
            let (new_contras, val_map, kcnt) = translated;
            // Mark the component as handled.
            let ghost pre_assigned = assigned@;
            let mut v1: usize = 0;
            while v1 < varc
                invariant
                    assigned@.len() == varc,
                    v1 <= varc,
                    forall|i: int| 0 <= i < v1 ==> assigned@[i] == (pre_assigned[i] || var_map@[i]
                        is Some),
                    forall|i: int| v1 <= i < varc ==> assigned@[i] == pre_assigned[i],
                decreases varc - v1,
            {
                if var_map[v1].is_some() {
                    assigned[v1] = true;
                }
                v1 = v1 + 1;
            }
            let ghost gvm = var_map@;
            let sub = self.build_subproblem(seed, &var_map, vcnt, &val_map, kcnt, new_contras);
            let ghost pre_result = result@;
            result.push(sub);
            proof {
                assert forall|v: usize| (v as int) < varc implies (assigned@[v as int]
                    <==> in_some_sub(result@, v)) by {
                    if assigned@[v as int] {
                        if pre_assigned[v as int] {
                            let s = choose|s: int|
                                0 <= s < pre_result.len() && (#[trigger] pre_result[s]).var_map@.contains(
                                    v,
                                );
                            assert(result@[s].var_map@.contains(v));
                        } else {
                            assert(var_map@[v as int] is Some);
                            assert(result@[result@.len() - 1].var_map@.contains(v));
                        }
                    }
                    if in_some_sub(result@, v) {
                        let s = choose|s: int|
                            0 <= s < result@.len() && (#[trigger] result@[s]).var_map@.contains(v);
                        if s < pre_result.len() {
                            assert(pre_result[s].var_map@.contains(v));
                            assert(in_some_sub(pre_result, v));
                        } else {
                            assert(var_map@[v as int] is Some);
                        }
                    }
                }
                assert forall|s: int| 0 <= s < result@.len() implies sub_wf(
                    #[trigger] result@[s],
                    varc,
                    k,
                ) by {
                    if s < pre_result.len() {
                        assert(result@[s] == pre_result[s]);
                    } else {
                        assert(result@[s] == sub);
                    }
                }
                assert forall|s: int| 0 <= s < result@.len() implies edges_respected(
                    #[trigger] result@[s],
                    self.contras@,
                ) by {
                    if s < pre_result.len() {
                        assert(result@[s] == pre_result[s]);
                    } else {
                        assert(result@[s] == sub);
                    }
                }
                assert forall|s: int| 0 <= s < result@.len() implies sub_constraints_faithful(
                    #[trigger] result@[s],
                    self.contras@,
                ) by {
                    if s < pre_result.len() {
                        assert(result@[s] == pre_result[s]);
                    } else {
                        assert(result@[s] == sub);
                    }
                }
                assert forall|s1: int, s2: int, v: usize|
                    #![trigger result@[s1].var_map@.contains(v), result@[s2].var_map@.contains(v)]
                    0 <= s1 < s2 < result@.len() implies !(result@[s1].var_map@.contains(v)
                    && result@[s2].var_map@.contains(v)) by {
                    if result@[s1].var_map@.contains(v) && result@[s2].var_map@.contains(v) {
                        if s2 < pre_result.len() {
                            assert(pre_result[s1].var_map@.contains(v));
                            assert(pre_result[s2].var_map@.contains(v));
                        } else {
                            assert(result@[s2] == sub);
                            assert(gvm[v as int] is Some);
                            assert((v as int) < varc);
                            assert(!pre_assigned[v as int]);
                            assert(result@[s1] == pre_result[s1]);
                            assert(in_some_sub(pre_result, v));
                            assert(pre_assigned[v as int]);
                        }
                    }
                }
                assert forall|ci: int| 0 <= ci < self.contras@.len() implies ((
                #[trigger] self.contras@[ci]) matches EntropyConstraint::DoubleNeq(a, b)
                    ==> assigned@[a as int] == assigned@[b as int]) by {
                    match self.contras@[ci] {
                        EntropyConstraint::DoubleNeq(a, b) => {
                            assert(pre_assigned[a as int] == pre_assigned[b as int]);
                            assert(gvm[a as int] is Some <==> gvm[b as int] is Some);
                            assert(assigned@[a as int] == (pre_assigned[a as int] || gvm[a as int]
                                is Some));
                            assert(assigned@[b as int] == (pre_assigned[b as int] || gvm[b as int]
                                is Some));
                        },
                        EntropyConstraint::SingleNeq(_) => {},
                    }
                }
                assert forall|i: int| 0 <= i < seed + 1 implies assigned@[i] by {
                    if i < seed {
                        assert(pre_assigned[i]);
                        assert(assigned@[i] == (pre_assigned[i] || gvm[i] is Some));
                    } else {
                        assert(gvm[seed as int] == Some(0usize));
                        assert(assigned@[i] == (pre_assigned[i] || gvm[i] is Some));
                    }
                }
            }
            seed = seed + 1;
        }
        result
    }
}

impl VarAndValue {
    /// Builds the iterator over all pairs `(var, value)` with
    /// `var_start <= var < var_end` and `0 <= value < ksize`.
    ///
    /// An empty variable range is allowed with any `ksize`; a non-empty one
    /// needs a non-empty value domain for the lexicographic successor to be
    /// defined.
    pub fn enumerate(var_start: usize, var_end: usize, ksize: usize) -> (r: VarValIter)
        requires
            var_start <= var_end,
            var_start < var_end ==> ksize > 0,
        ensures
            r.wf(),
            r.current == (VarAndValue { var: var_start, value: 0usize }),
            r.end == (VarAndValue { var: var_end, value: ksize }),
    {
        VarValIter {
            current: VarAndValue { var: var_start, value: 0 },
            end: VarAndValue { var: var_end, value: ksize },
        }
    }
}

} // verus!
