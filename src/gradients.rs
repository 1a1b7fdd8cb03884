use vstd::prelude::*;
use crate::tape::{live_from, plan, plan_from, steps_of, GradientTape, Record, Step};

verus! {

/// Accumulated gradients, one array per id.
pub struct Gradients<T> {
    ids: Vec<usize>,
    grads: Vec<Vec<T>>,
}

impl<T: Copy> Gradients<T> {
    /// The ids that hold a gradient.
    pub closed spec fn keys(&self) -> Set<usize> {
        self.ids@.to_set()
    }

    /// The gradient held for `id`, if `id` is among the keys.
    pub closed spec fn held(&self, id: usize) -> Seq<T> {
        self.grads@[choose|i: int| 0 <= i < self.ids@.len() && self.ids@[i] == id]@
    }

    pub closed spec fn wf(&self) -> bool {
        &&& self.ids@.len() == self.grads@.len()
        &&& forall|i: int, j: int|
            0 <= i < j < self.ids@.len() ==> #[trigger] self.ids@[i] != #[trigger] self.ids@[j]
    }

    proof fn lemma_held_at(&self, i: int)
        requires
            self.wf(),
            0 <= i < self.ids@.len(),
        ensures
            self.keys().contains(self.ids@[i]),
            self.held(self.ids@[i]) == self.grads@[i]@,
    {
        let id = self.ids@[i];
        assert(self.ids@.contains(id));
        let c = choose|c: int| 0 <= c < self.ids@.len() && self.ids@[c] == id;
        if c != i {
            if c < i {
                assert(self.ids@[c] != self.ids@[i]);
            } else {
                assert(self.ids@[i] != self.ids@[c]);
            }
        }
    }

    /// Only `id` holds a gradient, `gradient`.
    pub fn seeded(id: usize, gradient: Vec<T>) -> (r: Gradients<T>)
        ensures
            r.wf(),
            r.keys() == set![id],
            r.held(id) == gradient@,
    {
        let r = Gradients { ids: vec![id], grads: vec![gradient] };
        proof {
            r.lemma_held_at(0);
            assert(r.keys() =~= set![id]);
        }
        r
    }

    /// No gradient held yet.
    pub fn new() -> (r: Gradients<T>)
        ensures
            r.wf(),
            r.keys() == Set::<usize>::empty(),
    {
        let r = Gradients { ids: Vec::new(), grads: Vec::new() };
        assert(r.keys() =~= Set::<usize>::empty());
        r
    }

    fn position(&self, id: usize) -> (r: Option<usize>)
        requires
            self.wf(),
        ensures
            r is None <==> !self.keys().contains(id),
            r matches Some(i) ==> i < self.ids@.len() && self.ids@[i as int] == id,
    {
        let mut i: usize = 0;
        while i < self.ids.len()
            invariant
                i <= self.ids@.len(),
                forall|j: int| 0 <= j < i ==> self.ids@[j] != id,
            decreases self.ids@.len() - i,
        {
            if self.ids[i] == id {
                return Some(i);
            }
            i = i + 1;
        }
        None
    }

    /// Adds `contribution` elementwise into the gradient held for `id`, which
    /// starts as `zero` everywhere when `id` holds none yet: each element becomes
    /// `combine(held, contribution)`.
    pub fn accumulate<F: Fn(T, T) -> T>(&mut self, id: usize, contribution: &Vec<T>, zero: T, combine: &F)
        requires
            old(self).wf(),
            old(self).keys().contains(id) ==> old(self).held(id).len() == contribution@.len(),
            forall|x: T, y: T| combine.requires((x, y)),
        ensures
            final(self).wf(),
            final(self).keys() == old(self).keys().insert(id),
            forall|k: usize| k != id && old(self).keys().contains(k) ==> #[trigger] final(self).held(k)
                == old(self).held(k),
            final(self).held(id).len() == contribution@.len(),
            forall|i: int|
                0 <= i < contribution@.len() ==> combine.ensures(
                    (
                        if old(self).keys().contains(id) {
                            old(self).held(id)[i]
                        } else {
                            zero
                        },
                        contribution@[i],
                    ),
                    #[trigger] final(self).held(id)[i],
                ),
    {
        let pos = self.position(id);
        let ghost before: Seq<T> = if old(self).keys().contains(id) {
            old(self).held(id)
        } else {
            Seq::new(contribution@.len(), |i: int| zero)
        };
        let mut base: Vec<T> = Vec::new();
        match pos {
            Some(p) => {
                proof {
                    self.lemma_held_at(p as int);
                }
                std::mem::swap(&mut base, &mut self.grads[p]);
            },
            None => {
                let mut k: usize = 0;
                while k < contribution.len()
                    invariant
                        k <= contribution@.len(),
                        base@ == Seq::new(k as nat, |i: int| zero),
                    decreases contribution@.len() - k,
                {
                    base.push(zero);
                    k = k + 1;
                    assert(base@ =~= Seq::new(k as nat, |i: int| zero));
                }
            },
        }
        assert(base@ == before);
        let n = contribution.len();
        let mut sum: Vec<T> = Vec::with_capacity(n);
        let mut i: usize = 0;
        while i < n
            invariant
                i <= n,
                n == contribution@.len(),
                base@ == before,
                before.len() == n,
                sum@.len() == i,
                forall|x: T, y: T| combine.requires((x, y)),
                forall|j: int|
                    0 <= j < i ==> combine.ensures((before[j], contribution@[j]), #[trigger] sum@[j]),
            decreases n - i,
        {
            let v = combine(base[i], contribution[i]);
            sum.push(v);
            i = i + 1;
        }
        match pos {
            Some(p) => {
                self.grads.set(p, sum);
                assert(self.ids@ == old(self).ids@);
                proof {
                    assert forall|k: usize| k != id && old(self).keys().contains(k) implies #[trigger] self.held(k)
                        == old(self).held(k) by {
                        let c = choose|c: int| 0 <= c < self.ids@.len() && self.ids@[c] == k;
                        old(self).lemma_held_at(c);
                        self.lemma_held_at(c);
                    }
                }
                proof {
                    self.lemma_held_at(p as int);
                }
                assert(self.keys() =~= old(self).keys().insert(id));
            },
            None => {
                self.ids.push(id);
                self.grads.push(sum);
                let last = self.ids.len() - 1;
                proof {
                    assert(self.ids@ == old(self).ids@.push(id));
                    assert forall|a: int, b: int| 0 <= a < b < self.ids@.len() implies #[trigger] self.ids@[a]
                        != #[trigger] self.ids@[b] by {
                        if b == last {
                            assert(old(self).ids@.contains(self.ids@[a]));
                        } else {
                            assert(old(self).ids@[a] != old(self).ids@[b]);
                        }
                    }
                    assert forall|k: usize| k != id && old(self).keys().contains(k) implies #[trigger] self.held(k)
                        == old(self).held(k) by {
                        let c = choose|c: int| 0 <= c < old(self).ids@.len() && old(self).ids@[c] == k;
                        old(self).lemma_held_at(c);
                        assert(self.ids@[c] == k);
                        self.lemma_held_at(c);
                    }
                    self.lemma_held_at(last as int);
                    assert forall|x: usize| self.ids@.contains(x) <==> old(self).ids@.push(id).contains(x) by {}
                    vstd::seq_lib::lemma_seq_contains_after_push(old(self).ids@, id, id);
                    assert(self.keys() =~= old(self).keys().insert(id)) by {
                        assert forall|x: usize| self.keys().contains(x) <==> old(self).keys().insert(id).contains(x) by {
                            vstd::seq_lib::lemma_seq_contains_after_push(old(self).ids@, id, x);
                        }
                    }
                }
            },
        }
    }

    /// The gradient for `id`: the one held, or `n` zeros when `id` holds none.
    pub fn gradient_for(&self, id: usize, zero: T, n: usize) -> (r: Vec<T>)
        requires
            self.wf(),
        ensures
            self.keys().contains(id) ==> r@ == self.held(id),
            !self.keys().contains(id) ==> r@ == Seq::new(n as nat, |i: int| zero),
    {
        let mut out: Vec<T> = Vec::new();
        match self.position(id) {
            Some(p) => {
                proof {
                    self.lemma_held_at(p as int);
                }
                let g = &self.grads[p];
                let mut i: usize = 0;
                while i < g.len()
                    invariant
                        i <= g@.len(),
                        out@ == g@.take(i as int),
                    decreases g@.len() - i,
                {
                    out.push(g[i]);
                    i = i + 1;
                    assert(out@ =~= g@.take(i as int));
                }
                assert(g@.take(i as int) =~= g@);
            },
            None => {
                let mut i: usize = 0;
                while i < n
                    invariant
                        i <= n,
                        out@ == Seq::new(i as nat, |k: int| zero),
                    decreases n - i,
                {
                    out.push(zero);
                    i = i + 1;
                    assert(out@ =~= Seq::new(i as nat, |k: int| zero));
                }
            },
        }
        out
    }
}

/// The gradient `grads` gives `id`: the one held, or `n` copies of `zero`.
pub open spec fn held_or_zeros<T: Copy>(grads: Gradients<T>, id: usize, zero: T, n: nat) -> Seq<T> {
    if grads.keys().contains(id) {
        grads.held(id)
    } else {
        Seq::new(n, |i: int| zero)
    }
}

/// `after` is `before` once accumulation `s` is made: the gradient of `s.result`
/// (zeros if none) goes through `rule`, and the contribution is combined
/// elementwise into the gradient of `s.parent` (zeros if none).
pub open spec fn step_taken<T: Copy, R: Fn(Step, &Vec<T>) -> Vec<T>, F: Fn(T, T) -> T>(
    before: Gradients<T>,
    after: Gradients<T>,
    s: Step,
    zero: T,
    n: nat,
    rule: R,
    combine: F,
) -> bool {
    exists|g: Vec<T>, c: Vec<T>|
        {
            &&& g@ == held_or_zeros(before, s.result, zero, n)
            &&& #[trigger] rule.ensures((s, &g), c)
            &&& after.wf()
            &&& after.keys() == before.keys().insert(s.parent)
            &&& forall|k: usize|
                k != s.parent && before.keys().contains(k) ==> #[trigger] after.held(k) == before.held(
                    k,
                )
            &&& after.held(s.parent).len() == c@.len()
            &&& forall|i: int|
                0 <= i < c@.len() ==> combine.ensures(
                    (held_or_zeros(before, s.parent, zero, c@.len())[i], c@[i]),
                    #[trigger] after.held(s.parent)[i],
                )
        }
}

/// The seed and the parents of the first `i` accumulations of `ps`.
pub open spec fn reached(ps: Seq<Step>, seed: usize, i: int) -> Set<usize> {
    set![seed] + Set::new(|x: usize| exists|q: int| 0 <= q < i && #[trigger] ps[q].parent == x)
}

proof fn lemma_reached_is_live(t: Seq<Record>, seed: usize, k: int)
    requires
        0 <= k <= t.len(),
    ensures
        reached(plan_from(t, seed, k), seed, plan_from(t, seed, k).len() as int) == live_from(t, seed, k),
    decreases t.len() - k,
{
    let ps = plan_from(t, seed, k);
    if k == t.len() {
        assert(reached(ps, seed, 0) =~= set![seed]);
    } else {
        lemma_reached_is_live(t, seed, k + 1);
        let rest = plan_from(t, seed, k + 1);
        if live_from(t, seed, k + 1).contains(t[k].1) {
            let mine = steps_of(t, k);
            assert(ps == rest + mine);
            assert forall|x: usize|
                reached(ps, seed, ps.len() as int).contains(x) <==> live_from(t, seed, k).contains(x) by {
                if reached(ps, seed, ps.len() as int).contains(x) && x != seed {
                    let q = choose|q: int| 0 <= q < ps.len() && #[trigger] ps[q].parent == x;
                    if q < rest.len() {
                        assert(rest[q].parent == x);
                        assert(reached(rest, seed, rest.len() as int).contains(x));
                    } else {
                        assert(mine[q - rest.len()].parent == x);
                        assert(t[k].0[q - rest.len()] == x);
                        assert(t[k].0.contains(x));
                    }
                }
                if live_from(t, seed, k).contains(x) && x != seed {
                    if live_from(t, seed, k + 1).contains(x) {
                        assert(reached(rest, seed, rest.len() as int).contains(x));
                        let q = choose|q: int| 0 <= q < rest.len() && #[trigger] rest[q].parent == x;
                        assert(ps[q] == rest[q]);
                    } else {
                        assert(t[k].0.to_set().contains(x));
                        let j = choose|j: int| 0 <= j < t[k].0.len() && t[k].0[j] == x;
                        assert(ps[rest.len() + j] == mine[j]);
                        assert(ps[rest.len() + j].parent == x);
                    }
                }
            }
            assert(reached(ps, seed, ps.len() as int) =~= live_from(t, seed, k));
        }
    }
}

/// Runs the backward pass of `tape` seeded at `seed` with `seed_gradient`: the
/// accumulations of `tape.backward_plan(seed)` are made in order, each adding
/// `rule(step, gradient held for step.result)` into the gradient of `step.parent`
/// through `combine`. Exactly the ids that receive a gradient hold one.
pub fn backward<T: Copy, R: Fn(Step, &Vec<T>) -> Vec<T>, F: Fn(T, T) -> T>(
    tape: &GradientTape,
    seed: usize,
    seed_gradient: Vec<T>,
    zero: T,
    rule: R,
    combine: F,
) -> (r: Gradients<T>)
    requires
        forall|s: Step, g: &Vec<T>| rule.requires((s, g)),
        forall|s: Step, g: &Vec<T>, c: Vec<T>| rule.ensures((s, g), c) ==> c@.len() == g@.len(),
        forall|x: T, y: T| combine.requires((x, y)),
    ensures
        r.wf(),
        r.keys() == live_from(tape@, seed, 0),
        forall|id: usize| r.keys().contains(id) ==> #[trigger] r.held(id).len() == seed_gradient@.len(),
        exists|states: Seq<Gradients<T>>|
            {
                &&& #[trigger] states.len() == plan(tape@, seed).len() + 1
                &&& states[0].keys() == set![seed]
                &&& states[0].held(seed) == seed_gradient@
                &&& states.last() == r
                &&& forall|j: int|
                    0 <= j < plan(tape@, seed).len() ==> step_taken(
                        states[j],
                        states[j + 1],
                        #[trigger] plan(tape@, seed)[j],
                        zero,
                        seed_gradient@.len(),
                        rule,
                        combine,
                    )
            },
{
    let ghost seed_view = seed_gradient@;
    let steps = tape.backward_plan(seed);
    let n = seed_gradient.len();
    let mut grads = Gradients::seeded(seed, seed_gradient);
    let ghost mut states: Seq<Gradients<T>> = seq![grads];
    let mut i: usize = 0;
    assert(reached(steps@, seed, 0) =~= set![seed]);
    while i < steps.len()
        invariant
            i <= steps@.len(),
            steps@ == plan(tape@, seed),
            grads.wf(),
            grads.keys() == reached(steps@, seed, i as int),
            forall|id: usize| grads.keys().contains(id) ==> #[trigger] grads.held(id).len() == n,
            forall|s: Step, g: &Vec<T>| rule.requires((s, g)),
            forall|s: Step, g: &Vec<T>, c: Vec<T>| rule.ensures((s, g), c) ==> c@.len() == g@.len(),
            forall|x: T, y: T| combine.requires((x, y)),
            n == seed_view.len(),
            states.len() == i + 1,
            states[0].keys() == set![seed],
            states[0].held(seed) == seed_view,
            states[i as int] == grads,
            forall|j: int|
                0 <= j < i ==> step_taken(
                    states[j],
                    states[j + 1],
                    #[trigger] steps@[j],
                    zero,
                    n as nat,
                    rule,
                    combine,
                ),
        decreases steps@.len() - i,
    {
        let s = steps[i];
        let ghost before = grads;
        let g = grads.gradient_for(s.result, zero, n);
        let c = rule(s, &g);
        grads.accumulate(s.parent, &c, zero, &combine);
        proof {
            assert(g@ == held_or_zeros(before, s.result, zero, n as nat));
            assert forall|i: int| 0 <= i < c@.len() implies combine.ensures(
                (held_or_zeros(before, s.parent, zero, c@.len())[i], c@[i]),
                #[trigger] grads.held(s.parent)[i],
            ) by {}
            assert(step_taken(before, grads, s, zero, n as nat, rule, combine));
            states = states.push(grads);
            assert forall|x: usize| reached(steps@, seed, i + 1).contains(x) <==> reached(
                steps@,
                seed,
                i as int,
            ).insert(s.parent).contains(x) by {
                if x != seed && x != s.parent && reached(steps@, seed, i + 1).contains(x) {
                    let q = choose|q: int| 0 <= q < i + 1 && #[trigger] steps@[q].parent == x;
                    assert(q < i);
                }
                if x == s.parent {
                    assert(steps@[i as int].parent == x);
                }
            }
            assert(reached(steps@, seed, i + 1) =~= reached(steps@, seed, i as int).insert(s.parent));
        }
        i = i + 1;
    }
    proof {
        lemma_reached_is_live(tape@, seed, 0);
        assert(states.len() == plan(tape@, seed).len() + 1);
    }
    grads
}

} // verus!
