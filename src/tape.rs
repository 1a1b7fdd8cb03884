use vstd::prelude::*;

verus! {

/// What the backward pass sees of one recorded operation: the ids it read, in
/// order, and the id it produced.
pub type Record = (Seq<usize>, usize);

/// One recorded operation.
pub struct Entry {
    pub parents: Vec<usize>,
    pub result: usize,
}

impl View for Entry {
    type V = Record;

    open spec fn view(&self) -> Record {
        (self.parents@, self.result)
    }
}

/// One accumulation of the backward pass: the gradient held for `result` goes
/// through the local rule of entry `entry` for the parent in position `slot`,
/// and the contribution is added into the gradient held for `parent`.
#[derive(Clone, Copy, Debug, PartialEq, Eq, Structural)]
pub struct Step {
    pub entry: usize,
    pub slot: usize,
    pub parent: usize,
    pub result: usize,
}

/// The ids that hold a gradient once the entries from `k` on have been visited
/// in reverse order, starting from the seed alone. An entry whose result holds
/// no gradient at its turn is skipped.
pub open spec fn live_from(t: Seq<Record>, seed: usize, k: int) -> Set<usize>
    decreases t.len() - k,
{
    if k >= t.len() || k < 0 {
        set![seed]
    } else {
        let s = live_from(t, seed, k + 1);
        if s.contains(t[k].1) {
            s + t[k].0.to_set()
        } else {
            s
        }
    }
}

/// The accumulation that entry `k` makes for its parent in position `j`.
pub open spec fn step_at(t: Seq<Record>, k: int, j: int) -> Step {
    Step { entry: k as usize, slot: j as usize, parent: t[k].0[j], result: t[k].1 }
}

/// The accumulations that entry `k` contributes, one per parent, in parent order.
pub open spec fn steps_of(t: Seq<Record>, k: int) -> Seq<Step> {
    Seq::new(t[k].0.len(), |j: int| step_at(t, k, j))
}

/// The accumulations made while visiting the entries from the last one down to
/// `k`, in the order they are made.
pub open spec fn plan_from(t: Seq<Record>, seed: usize, k: int) -> Seq<Step>
    decreases t.len() - k,
{
    if k >= t.len() || k < 0 {
        seq![]
    } else {
        let rest = plan_from(t, seed, k + 1);
        if live_from(t, seed, k + 1).contains(t[k].1) {
            rest + steps_of(t, k)
        } else {
            rest
        }
    }
}

/// The whole backward pass seeded at `seed`.
pub open spec fn plan(t: Seq<Record>, seed: usize) -> Seq<Step> {
    plan_from(t, seed, 0)
}

/// Whether `id` receives any gradient from a backward pass seeded at `seed`;
/// an id that receives none has the zero gradient.
pub open spec fn has_gradient(t: Seq<Record>, seed: usize, id: usize) -> bool {
    live_from(t, seed, 0).contains(id)
}

/// Every id that an entry reads was produced by an earlier entry, if by any:
/// no entry reads what it or a later entry produces.
pub open spec fn causal(t: Seq<Record>) -> bool {
    forall|i: int, j: int|
        0 <= i < t.len() && 0 <= j < t.len() && #[trigger] t[i].0.contains(t[j].1) ==> j < i
}

/// What any tape's view satisfies: its entries and their parent lists have
/// lengths that fit in `usize`.
pub open spec fn fits(t: Seq<Record>) -> bool {
    &&& t.len() <= usize::MAX
    &&& forall|i: int| 0 <= i < t.len() ==> (#[trigger] t[i]).0.len() <= usize::MAX
}

/// `s` is the accumulation of a visited entry from `k` on.
pub open spec fn visited_step(t: Seq<Record>, seed: usize, k: int, s: Step) -> bool {
    &&& k <= s.entry < t.len()
    &&& s.slot < t[s.entry as int].0.len()
    &&& s == step_at(t, s.entry as int, s.slot as int)
    &&& live_from(t, seed, s.entry + 1).contains(t[s.entry as int].1)
}

/// `a` is made before `b`: later entries first, and within one entry in parent order.
pub open spec fn made_before(a: Step, b: Step) -> bool {
    a.entry > b.entry || (a.entry == b.entry && a.slot < b.slot)
}

proof fn lemma_plan_shape(t: Seq<Record>, seed: usize, k: int)
    requires
        0 <= k <= t.len(),
        fits(t),
    ensures
        forall|p: int|
            0 <= p < plan_from(t, seed, k).len() ==> visited_step(
                t,
                seed,
                k,
                #[trigger] plan_from(t, seed, k)[p],
            ),
        forall|p: int, q: int|
            0 <= p < q < plan_from(t, seed, k).len() ==> made_before(
                #[trigger] plan_from(t, seed, k)[p],
                #[trigger] plan_from(t, seed, k)[q],
            ),
        forall|i: int, j: int|
            k <= i < t.len() && 0 <= j < t[i].0.len() && live_from(t, seed, i + 1).contains(t[i].1)
                ==> plan_from(t, seed, k).contains(#[trigger] step_at(t, i, j)),
    decreases t.len() - k,
{
    if k < t.len() {
        lemma_plan_shape(t, seed, k + 1);
        let rest = plan_from(t, seed, k + 1);
        let ps = plan_from(t, seed, k);
        if live_from(t, seed, k + 1).contains(t[k].1) {
            let mine = steps_of(t, k);
            assert(ps == rest + mine);
            assert forall|p: int| 0 <= p < ps.len() implies visited_step(t, seed, k, #[trigger] ps[p]) by {
                if p < rest.len() {
                    assert(ps[p] == rest[p]);
                    assert(visited_step(t, seed, k + 1, rest[p]));
                } else {
                    let j = p - rest.len();
                    assert(ps[p] == mine[j]);
                    assert(mine[j] == step_at(t, k, j));
                    assert(mine[j].entry as int == k);
                    assert(mine[j].slot as int == j);
                }
            }
            assert forall|p: int, q: int| 0 <= p < q < ps.len() implies made_before(
                #[trigger] ps[p],
                #[trigger] ps[q],
            ) by {
                if q < rest.len() {
                    assert(ps[p] == rest[p] && ps[q] == rest[q]);
                } else if p < rest.len() {
                    assert(ps[p] == rest[p] && ps[q] == mine[q - rest.len()]);
                    assert(visited_step(t, seed, k + 1, rest[p]));
                    assert(mine[q - rest.len()].entry as int == k);
                } else {
                    assert(ps[p] == mine[p - rest.len()] && ps[q] == mine[q - rest.len()]);
                    assert(mine[p - rest.len()].entry == mine[q - rest.len()].entry);
                    assert(mine[p - rest.len()].slot as int == p - rest.len());
                    assert(mine[q - rest.len()].slot as int == q - rest.len());
                }
            }
            assert forall|i: int, j: int|
                k <= i < t.len() && 0 <= j < t[i].0.len() && live_from(t, seed, i + 1).contains(
                    t[i].1,
                ) implies ps.contains(#[trigger] step_at(t, i, j)) by {
                if i == k {
                    assert(ps[rest.len() + j] == mine[j]);
                } else {
                    let p = choose|p: int| 0 <= p < rest.len() && rest[p] == step_at(t, i, j);
                    assert(ps[p] == rest[p]);
                }
            }
        }
    }
}

/// Reverse-mode order: on a causal tape, every contribution into an id is made
/// before any accumulation reads that id's gradient, so each gradient is complete
/// when it is passed on.
pub proof fn lemma_writes_before_reads(t: Seq<Record>, seed: usize)
    requires
        causal(t),
        fits(t),
    ensures
        forall|p: int, q: int|
            0 <= p < plan(t, seed).len() && 0 <= q < plan(t, seed).len() && (#[trigger] plan(
                t,
                seed,
            )[q]).parent == (#[trigger] plan(t, seed)[p]).result ==> q < p,
{
    lemma_plan_shape(t, seed, 0);
    let ps = plan(t, seed);
    assert forall|p: int, q: int|
        0 <= p < ps.len() && 0 <= q < ps.len() && (#[trigger] ps[q]).parent == (
        #[trigger] ps[p]).result implies q < p by {
        assert(visited_step(t, seed, 0, ps[p]));
        assert(visited_step(t, seed, 0, ps[q]));
        let i = ps[q].entry as int;
        let e = ps[p].entry as int;
        assert(t[i].0[ps[q].slot as int] == t[e].1);
        assert(t[i].0.contains(t[e].1));
        assert(e < i);
        if q > p {
            assert(made_before(ps[p], ps[q]));
        }
    }
}

/// Fan-in: the contributions into `x` are one for each visited entry and each
/// position in which that entry reads `x`, none of them made twice; the gradient
/// of `x` is their sum.
pub proof fn lemma_fan_in(t: Seq<Record>, seed: usize, x: usize)
    requires
        fits(t),
    ensures
        forall|i: int, j: int|
            0 <= i < t.len() && 0 <= j < t[i].0.len() && t[i].0[j] == x ==> (plan(
                t,
                seed,
            ).contains(#[trigger] step_at(t, i, j)) <==> live_from(t, seed, i + 1).contains(
                t[i].1,
            )),
        forall|p: int|
            0 <= p < plan(t, seed).len() && (#[trigger] plan(t, seed)[p]).parent == x ==> {
                let s = plan(t, seed)[p];
                &&& s.entry < t.len()
                &&& s.slot < t[s.entry as int].0.len()
                &&& t[s.entry as int].0[s.slot as int] == x
                &&& s == step_at(t, s.entry as int, s.slot as int)
            },
        forall|p: int, q: int|
            0 <= p < q < plan(t, seed).len() ==> #[trigger] plan(t, seed)[p] != #[trigger] plan(
                t,
                seed,
            )[q],
{
    lemma_plan_shape(t, seed, 0);
    let ps = plan(t, seed);
    assert forall|i: int, j: int|
        0 <= i < t.len() && 0 <= j < t[i].0.len() && t[i].0[j] == x && ps.contains(
            #[trigger] step_at(t, i, j),
        ) implies live_from(t, seed, i + 1).contains(t[i].1) by {
        let p = choose|p: int| 0 <= p < ps.len() && ps[p] == step_at(t, i, j);
        assert(visited_step(t, seed, 0, ps[p]));
    }
    assert forall|p: int| 0 <= p < ps.len() && (#[trigger] ps[p]).parent == x implies {
        let s = ps[p];
        &&& s.entry < t.len()
        &&& s.slot < t[s.entry as int].0.len()
        &&& t[s.entry as int].0[s.slot as int] == x
        &&& s == step_at(t, s.entry as int, s.slot as int)
    } by {
        assert(visited_step(t, seed, 0, ps[p]));
    }
    assert forall|p: int, q: int| 0 <= p < q < ps.len() implies #[trigger] ps[p] != #[trigger] ps[q] by {
        assert(made_before(ps[p], ps[q]));
    }
}

proof fn lemma_live_ids(t: Seq<Record>, seed: usize, k: int, id: usize)
    requires
        0 <= k <= t.len(),
        live_from(t, seed, k).contains(id),
    ensures
        id == seed || exists|i: int| k <= i < t.len() && #[trigger] t[i].0.contains(id),
    decreases t.len() - k,
{
    if k < t.len() {
        if live_from(t, seed, k + 1).contains(id) {
            lemma_live_ids(t, seed, k + 1, id);
        } else {
            assert(t[k].0.contains(id));
        }
    }
}

/// Zero gradient: an id that is not the seed and that no entry reads receives
/// no gradient and no contribution, so its gradient is all zeros.
pub proof fn lemma_unrelated_id(t: Seq<Record>, seed: usize, id: usize)
    requires
        id != seed,
        forall|i: int| 0 <= i < t.len() ==> !(#[trigger] t[i].0.contains(id)),
        fits(t),
    ensures
        !has_gradient(t, seed, id),
        forall|p: int| 0 <= p < plan(t, seed).len() ==> (#[trigger] plan(t, seed)[p]).parent != id,
{
    if has_gradient(t, seed, id) {
        lemma_live_ids(t, seed, 0, id);
    }
    lemma_plan_shape(t, seed, 0);
    let ps = plan(t, seed);
    assert forall|p: int| 0 <= p < ps.len() implies (#[trigger] ps[p]).parent != id by {
        assert(visited_step(t, seed, 0, ps[p]));
        let i = ps[p].entry as int;
        if ps[p].parent == id {
            assert(t[i].0[ps[p].slot as int] == id);
            assert(t[i].0.contains(id));
        }
    }
}

/// Chain rule: for `mid = f(x)` then `y = g(mid)`, the pass seeded at `y` first
/// passes `y`'s gradient through `g` into `mid`, then `mid`'s through `f` into `x`.
pub proof fn lemma_chain(x: usize, mid: usize, y: usize)
    ensures
        plan(seq![(seq![x], mid), (seq![mid], y)], y) == seq![
            Step { entry: 1, slot: 0, parent: mid, result: y },
            Step { entry: 0, slot: 0, parent: x, result: mid },
        ],
{
    let t = seq![(seq![x], mid), (seq![mid], y)];
    assert(live_from(t, y, 2) == set![y]);
    assert(live_from(t, y, 1).contains(mid)) by {
        assert(t[1].0.to_set().contains(mid)) by {
            assert(t[1].0[0] == mid);
        }
    }
    assert(plan_from(t, y, 2) =~= seq![]);
    assert(steps_of(t, 1) =~= seq![Step { entry: 1, slot: 0, parent: mid, result: y }]);
    assert(steps_of(t, 0) =~= seq![Step { entry: 0, slot: 0, parent: x, result: mid }]);
    assert(plan_from(t, y, 1) =~= seq![Step { entry: 1, slot: 0, parent: mid, result: y }]);
    assert(plan_from(t, y, 0) =~= seq![
        Step { entry: 1, slot: 0, parent: mid, result: y },
        Step { entry: 0, slot: 0, parent: x, result: mid },
    ]);
}

/// An append-only log of operations, replayed backward on demand.
pub struct GradientTape {
    entries: Vec<Entry>,
}

impl View for GradientTape {
    type V = Seq<Record>;

    closed spec fn view(&self) -> Seq<Record> {
        self.entries@.map_values(|e: Entry| e@)
    }
}

proof fn lemma_push_contains(s: Seq<usize>, v: usize)
    ensures
        forall|x: usize| #[trigger] s.push(v).contains(x) <==> (s.contains(x) || x == v),
{
    assert forall|x: usize| #[trigger] s.push(v).contains(x) <==> (s.contains(x) || x == v) by {
        if s.push(v).contains(x) {
            let i = choose|i: int| 0 <= i < s.push(v).len() && s.push(v)[i] == x;
            if i < s.len() {
                assert(s[i] == x);
            }
        }
        if s.contains(x) {
            let i = choose|i: int| 0 <= i < s.len() && s[i] == x;
            assert(s.push(v)[i] == x);
        }
        if x == v {
            assert(s.push(v)[s.len() as int] == x);
        }
    }
}

fn contains_id(ids: &Vec<usize>, id: usize) -> (r: bool)
    ensures
        r == ids@.contains(id),
{
    let mut i: usize = 0;
    while i < ids.len()
        invariant
            i <= ids@.len(),
            forall|j: int| 0 <= j < i ==> ids@[j] != id,
        decreases ids@.len() - i,
    {
        if ids[i] == id {
            return true;
        }
        i = i + 1;
    }
    false
}

impl GradientTape {
    #[verifier::type_invariant]
    spec fn inv(self) -> bool {
        fits(self@)
    }

    /// An empty tape.
    pub fn new() -> (r: GradientTape)
        ensures
            r@ == Seq::<Record>::empty(),
            fits(r@),
    {
        let r = GradientTape { entries: Vec::new() };
        assert(r@ =~= Seq::<Record>::empty());
        r
    }

    /// Appends an entry; any ids are accepted.
    pub fn record(&mut self, parents: Vec<usize>, result: usize)
        ensures
            final(self)@ == old(self)@.push((parents@, result)),
            fits(final(self)@),
    {
        proof {
            use_type_invariant(&*self);
        }
        let n = parents.len();
        let mut entries: Vec<Entry> = Vec::new();
        std::mem::swap(&mut entries, &mut self.entries);
        entries.push(Entry { parents, result });
        let total = entries.len();
        let ghost v = entries@.map_values(|e: Entry| e@);
        assert(v =~= old(self)@.push((parents@, result)));
        assert forall|i: int| 0 <= i < v.len() implies (#[trigger] v[i]).0.len() <= usize::MAX by {
            if i < v.len() - 1 {
                assert(v[i] == old(self)@[i]);
            }
        }
        self.entries = entries;
    }

    /// Number of recorded entries.
    pub fn len(&self) -> (r: usize)
        ensures
            r == self@.len(),
            fits(self@),
    {
        proof {
            use_type_invariant(self);
        }
        self.entries.len()
    }

    /// The entry recorded in position `k`.
    pub fn entry(&self, k: usize) -> (r: &Entry)
        requires
            k < self@.len(),
        ensures
            r@ == self@[k as int],
    {
        &self.entries[k]
    }

    /// The accumulations of a backward pass seeded at `seed`, in the order they
    /// must be made: entries are visited last-recorded first, and an entry whose
    /// result holds no gradient yet is skipped.
    pub fn backward_plan(&self, seed: usize) -> (r: Vec<Step>)
        ensures
            r@ == plan(self@, seed),
            fits(self@),
    {
        proof {
            use_type_invariant(self);
        }
        let ghost t = self@;
        let mut live: Vec<usize> = vec![seed];
        let mut steps: Vec<Step> = Vec::new();
        let mut k: usize = self.entries.len();
        assert(live@.to_set() =~= live_from(t, seed, k as int));
        while k > 0
            invariant
                k <= self.entries@.len(),
                t == self@,
                t.len() == self.entries@.len(),
                forall|x: usize| live@.contains(x) <==> live_from(t, seed, k as int).contains(x),
                steps@ == plan_from(t, seed, k as int),
            decreases k,
        {
            k = k - 1;
            let e = &self.entries[k];
            assert(t[k as int] == e@);
            if contains_id(&live, e.result) {
                let mut j: usize = 0;
                while j < e.parents.len()
                    invariant
                        k < t.len(),
                        t[k as int] == e@,
                        j <= e.parents@.len(),
                        live_from(t, seed, k + 1).contains(e.result),
                        forall|x: usize|
                            live@.contains(x) <==> (live_from(t, seed, k + 1).contains(x)
                                || e.parents@.take(j as int).contains(x)),
                        steps@ == plan_from(t, seed, k + 1) + steps_of(t, k as int).take(j as int),
                    decreases e.parents@.len() - j,
                {
                    let p = e.parents[j];
                    let ghost before = live@;
                    steps.push(Step { entry: k, slot: j, parent: p, result: e.result });
                    if !contains_id(&live, p) {
                        live.push(p);
                    }
                    proof {
                        lemma_push_contains(before, p);
                        lemma_push_contains(e.parents@.take(j as int), p);
                        let s = steps_of(t, k as int);
                        assert(s.take(j as int + 1) =~= s.take(j as int).push(s[j as int]));
                        assert(e.parents@.take(j as int + 1) =~= e.parents@.take(j as int).push(p));
                    }
                    j = j + 1;
                }
                proof {
                    assert(e.parents@.take(j as int) =~= e.parents@);
                    assert(steps_of(t, k as int).take(j as int) =~= steps_of(t, k as int));
                }
            }
        }
        steps
    }

    /// Whether `id` receives a gradient from a backward pass seeded at `seed`;
    /// when it does not, its gradient is all zeros.
    pub fn has_gradient(&self, seed: usize, id: usize) -> (r: bool)
        ensures
            r == has_gradient(self@, seed, id),
            fits(self@),
    {
        proof {
            use_type_invariant(self);
        }
        let ghost t = self@;
        let mut live: Vec<usize> = vec![seed];
        let mut k: usize = self.entries.len();
        while k > 0
            invariant
                k <= self.entries@.len(),
                t == self@,
                t.len() == self.entries@.len(),
                forall|x: usize| live@.contains(x) <==> live_from(t, seed, k as int).contains(x),
            decreases k,
        {
            k = k - 1;
            let e = &self.entries[k];
            assert(t[k as int] == e@);
            if contains_id(&live, e.result) {
                let mut j: usize = 0;
                while j < e.parents.len()
                    invariant
                        k < t.len(),
                        t[k as int] == e@,
                        j <= e.parents@.len(),
                        live_from(t, seed, k + 1).contains(e.result),
                        forall|x: usize|
                            live@.contains(x) <==> (live_from(t, seed, k + 1).contains(x)
                                || e.parents@.take(j as int).contains(x)),
                    decreases e.parents@.len() - j,
                {
                    let p = e.parents[j];
                    let ghost before = live@;
                    if !contains_id(&live, p) {
                        live.push(p);
                    }
                    proof {
                        lemma_push_contains(before, p);
                        lemma_push_contains(e.parents@.take(j as int), p);
                    }
                    assert(e.parents@.take(j as int + 1) =~= e.parents@.take(j as int).push(p));
                    j = j + 1;
                }
                assert(e.parents@.take(j as int) =~= e.parents@);
            }
        }
        contains_id(&live, id)
    }
}

} // verus!
