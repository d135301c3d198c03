//! Enumeration of feasible contiguous runs and selection of the best one.
//!
//! The traversal keeps an explicit stack of pending branches. Each branch
//! holds a partial knapsack and the suffix of the clock sequence that is
//! still to be considered. One step pops a branch, yields its partial
//! knapsack and pushes up to three follow-up branches, so the whole
//! enumeration is the sequence obtained by draining the stack.

use core::cmp::Ordering;
use vstd::prelude::*;

use crate::{can_add, lemma_weight_sum_nonneg, value_sum, Clock, Knapsack};

verus! {

/// A pending branch of the traversal, as specification data: the items of
/// the partial knapsack and the index where the remaining suffix starts.
pub struct FrameModel {
    /// Items of the partial knapsack of this branch.
    pub partial: Seq<Clock>,
    /// Index into the full clock sequence where the remaining suffix starts.
    pub rest: int,
}

/// The first index at or after `from` whose clock alone fits `cap`, if any.
pub open spec fn find_fit(items: Seq<Clock>, from: int, cap: int) -> Option<int>
    decreases items.len() - from,
{
    if from < 0 || from >= items.len() {
        None
    } else if items[from].weight <= cap {
        Some(from)
    } else {
        find_fit(items, from + 1, cap)
    }
}

/// What `find_fit` finds: the first fitting index at or after `from`.
pub proof fn lemma_find_fit_props(items: Seq<Clock>, from: int, cap: int)
    requires
        0 <= from,
    ensures
        match find_fit(items, from, cap) {
            Some(j) => {
                &&& from <= j < items.len()
                &&& items[j].weight <= cap
                &&& forall|i: int| from <= i < j ==> items[i].weight > cap
            },
            None => forall|i: int| from <= i < items.len() ==> items[i].weight > cap,
        },
    decreases items.len() - from,
{
    if from < items.len() && items[from].weight > cap {
        lemma_find_fit_props(items, from + 1, cap);
    }
}

/// Geometric weight of a branch measure: 4 to the n-th power.
pub open spec fn pow4(n: nat) -> nat
    decreases n,
{
    if n == 0 {
        1
    } else {
        4 * pow4((n - 1) as nat)
    }
}

/// Powers of four are at least one.
proof fn lemma_pow4_pos(n: nat)
    ensures
        pow4(n) >= 1,
    decreases n,
{
    if n > 0 {
        lemma_pow4_pos((n - 1) as nat);
    }
}

/// Powers of four grow with the exponent.
proof fn lemma_pow4_mono(m: nat, n: nat)
    requires
        m <= n,
    ensures
        pow4(m) <= pow4(n),
    decreases n,
{
    if m < n {
        lemma_pow4_mono(m, (n - 1) as nat);
        lemma_pow4_pos((n - 1) as nat);
    }
}

/// Measure of one branch; larger when more of the suffix remains.
pub open spec fn frame_measure(items_len: int, f: FrameModel) -> nat {
    pow4((items_len - f.rest + 1) as nat)
}

/// Combined measure of a stack of branches; it falls on every step.
pub open spec fn stack_measure(items_len: int, stack: Seq<FrameModel>) -> nat
    decreases stack.len(),
{
    if stack.len() == 0 {
        0
    } else {
        stack_measure(items_len, stack.drop_last()) + frame_measure(items_len, stack.last())
    }
}

/// Pushing one branch adds its measure to the stack's measure.
proof fn lemma_stack_measure_push(items_len: int, stack: Seq<FrameModel>, f: FrameModel)
    ensures
        stack_measure(items_len, stack.push(f)) == stack_measure(items_len, stack)
            + frame_measure(items_len, f),
{
    assert(stack.push(f).drop_last() =~= stack);
}

/// One step of the traversal: pop the top branch; if its suffix is
/// non-empty with head `a`, push the branch that extends the current run
/// with `a`, then the branch that starts a fresh run at `a` (both only when
/// the current run extended by `a` still fits), then the branch that starts
/// a fresh run at the first fitting clock after `a`, if one exists.
pub open spec fn step_stack(items: Seq<Clock>, cap: int, stack: Seq<FrameModel>) -> Seq<FrameModel>
    recommends
        stack.len() > 0,
{
    let top = stack.last();
    let base = stack.drop_last();
    if !(0 <= top.rest < items.len()) {
        base
    } else {
        let a = items[top.rest];
        let extended = if can_add(top.partial, a, cap) {
            base.push(FrameModel { partial: top.partial.push(a), rest: top.rest + 1 }).push(
                FrameModel { partial: seq![a], rest: top.rest + 1 },
            )
        } else {
            base
        };
        match find_fit(items, top.rest + 1, cap) {
            Some(j) => extended.push(FrameModel { partial: seq![items[j]], rest: j + 1 }),
            None => extended,
        }
    }
}

/// The measure strictly falls at every step of the traversal, so draining
/// the stack terminates: the enumeration is finite for every input.
pub proof fn lemma_step_decreases(items: Seq<Clock>, cap: int, stack: Seq<FrameModel>)
    requires
        stack.len() > 0,
    ensures
        stack_measure(items.len() as int, step_stack(items, cap, stack)) < stack_measure(
            items.len() as int,
            stack,
        ),
{
    let len = items.len() as int;
    let top = stack.last();
    let base = stack.drop_last();
    assert(stack_measure(len, stack) == stack_measure(len, base) + frame_measure(len, top));
    lemma_pow4_pos((len - top.rest + 1) as nat);
    if 0 <= top.rest < len {
        let a = items[top.rest];
        let e = (len - top.rest + 1) as nat;
        assert(e >= 2);
        let extended = if can_add(top.partial, a, cap) {
            base.push(FrameModel { partial: top.partial.push(a), rest: top.rest + 1 }).push(
                FrameModel { partial: seq![a], rest: top.rest + 1 },
            )
        } else {
            base
        };
        if can_add(top.partial, a, cap) {
            lemma_stack_measure_push(
                len,
                base,
                FrameModel { partial: top.partial.push(a), rest: top.rest + 1 },
            );
            lemma_stack_measure_push(
                len,
                base.push(FrameModel { partial: top.partial.push(a), rest: top.rest + 1 }),
                FrameModel { partial: seq![a], rest: top.rest + 1 },
            );
        }
        assert(stack_measure(len, extended) <= stack_measure(len, base) + 2 * pow4(
            (e - 1) as nat,
        ));
        match find_fit(items, top.rest + 1, cap) {
            Some(j) => {
                lemma_find_fit_props(items, top.rest + 1, cap);
                lemma_stack_measure_push(
                    len,
                    extended,
                    FrameModel { partial: seq![items[j]], rest: j + 1 },
                );
                lemma_pow4_mono((len - j) as nat, (e - 1) as nat);
            },
            None => {},
        }
        assert(pow4(e) == 4 * pow4((e - 1) as nat));
        lemma_pow4_pos((e - 1) as nat);
    }
}

/// Every partial knapsack yielded while the traversal drains `stack`, in
/// the order the traversal yields them.
pub open spec fn yielded_from(items: Seq<Clock>, cap: int, stack: Seq<FrameModel>) -> Seq<
    Seq<Clock>,
>
    decreases stack_measure(items.len() as int, stack),
    via yielded_from_decreases
{
    if stack.len() == 0 {
        Seq::empty()
    } else {
        seq![stack.last().partial] + yielded_from(items, cap, step_stack(items, cap, stack))
    }
}

#[via_fn]
proof fn yielded_from_decreases(items: Seq<Clock>, cap: int, stack: Seq<FrameModel>) {
    if stack.len() > 0 {
        lemma_step_decreases(items, cap, stack);
    }
}

/// The initial stack: one branch holding a singleton knapsack at the first
/// clock that alone fits the capacity, or no branch at all when none fits.
pub open spec fn init_stack(items: Seq<Clock>, cap: int) -> Seq<FrameModel> {
    match find_fit(items, 0, cap) {
        Some(j) => seq![FrameModel { partial: seq![items[j]], rest: j + 1 }],
        None => Seq::empty(),
    }
}

/// The full enumeration of an ordered clock sequence under a capacity: the
/// items of every yielded knapsack, in order of yielding.
pub open spec fn enumeration(items: Seq<Clock>, cap: int) -> Seq<Seq<Clock>> {
    yielded_from(items, cap, init_stack(items, cap))
}

/// Law: the enumeration of an empty clock sequence is empty, for every
/// capacity, including zero and negative capacities.
pub proof fn enumeration_of_empty_input(items: Seq<Clock>, cap: int)
    requires
        items.len() == 0,
    ensures
        enumeration(items, cap).len() == 0,
{
}

/// Law: when every single clock already outweighs the capacity, the
/// enumeration is empty.
pub proof fn enumeration_without_fitting_clock(items: Seq<Clock>, cap: int)
    requires
        forall|i: int| 0 <= i < items.len() ==> items[i].weight > cap,
    ensures
        enumeration(items, cap).len() == 0,
{
    lemma_find_fit_props(items, 0, cap);
}

/// Whether `entries[i]` has maximal total price among `entries`, and is the
/// last entry with that price: the tie-break rule of the optimizer.
pub open spec fn is_last_best(entries: Seq<Seq<Clock>>, i: int) -> bool {
    &&& 0 <= i < entries.len()
    &&& forall|j: int| 0 <= j < entries.len() ==> value_sum(entries[j]) <= value_sum(entries[i])
    &&& forall|j: int| i < j < entries.len() ==> value_sum(entries[j]) < value_sum(entries[i])
}

/// A knapsack holding exactly one clock that alone fits the capacity.
fn singleton_knapsack(clock: Clock, max_weight: i64) -> (r: Knapsack)
    requires
        clock.weight as int <= max_weight as int,
    ensures
        r.items() == seq![clock],
        r.cap() == max_weight as int,
{
    let e = Knapsack::empty(max_weight);
    match e.try_add_clock(clock) {
        Ok(k) => {
            proof {
                assert(Seq::<Clock>::empty().push(clock) =~= seq![clock]);
            }
            k
        },
        Err(_) => unreached(),
    }
}

/// One pending branch of the traversal: a partial knapsack, and the index
/// into the full clock sequence where the remaining suffix starts.
struct Frame {
    partial: Knapsack,
    rest: usize,
}

/// The specification view of a work stack.
spec fn frames_model(frames: Seq<Frame>) -> Seq<FrameModel> {
    frames.map(|i: int, f: Frame| FrameModel { partial: f.partial.items(), rest: f.rest as int })
}

/// A stateful, single-pass, non-restartable generator of every feasible
/// contiguous-run knapsack of an ordered clock sequence.
pub struct SolutionIter {
    clocks: Vec<Clock>,
    max_weight: i64,
    stack: Vec<Frame>,
}

impl SolutionIter {
    /// The full ordered clock sequence being enumerated.
    pub closed spec fn items(self) -> Seq<Clock> {
        self.clocks@
    }

    /// The capacity every yielded knapsack is bounded by.
    pub closed spec fn cap(self) -> int {
        self.max_weight as int
    }

    /// The pending branches, bottom of the work stack first.
    pub closed spec fn branches(self) -> Seq<FrameModel> {
        frames_model(self.stack@)
    }

    #[verifier::type_invariant]
    spec fn wf(self) -> bool {
        forall|i: int|
            0 <= i < self.stack@.len() ==> {
                &&& (#[trigger] self.stack@[i]).partial.cap() == self.max_weight as int
                &&& self.stack@[i].rest <= self.clocks@.len()
            }
    }

    /// The first index at or after `from` whose clock alone fits
    /// `max_weight`, or `None` when no such clock exists.
    pub fn find_valid_clock_index(clocks: &Vec<Clock>, from: usize, max_weight: i64) -> (r: Option<
        usize,
    >)
        ensures
            match r {
                Some(j) => from <= j < clocks@.len() && find_fit(
                    clocks@,
                    from as int,
                    max_weight as int,
                ) == Some(j as int),
                None => find_fit(clocks@, from as int, max_weight as int) is None,
            },
    {
        let n: usize = clocks.len();
        let mut j: usize = from;
        while j < n
            invariant
                from <= j,
                n == clocks@.len(),
                find_fit(clocks@, from as int, max_weight as int) == find_fit(
                    clocks@,
                    j as int,
                    max_weight as int,
                ),
            decreases n - j,
        {
            if clocks[j].weight as i128 <= max_weight as i128 {
                return Some(j);
            }
            j = j + 1;
        }
        None
    }

    /// Yields the next feasible knapsack of the traversal, or `None` once
    /// the work stack is exhausted; an exhausted iterator stays exhausted.
    pub fn next(&mut self) -> (r: Option<Knapsack>)
        ensures
            final(self).items() == old(self).items(),
            final(self).cap() == old(self).cap(),
            old(self).branches().len() == 0 ==> r is None && final(self).branches() == old(
                self,
            ).branches(),
            old(self).branches().len() > 0 ==> {
                &&& r matches Some(k) && k.items() == old(self).branches().last().partial
                    && k.cap() == old(self).cap()
                &&& final(self).branches() == step_stack(
                    old(self).items(),
                    old(self).cap(),
                    old(self).branches(),
                )
            },
    {
        proof {
            use_type_invariant(&*self);
        }
        let ghost gitems = self.clocks@;
        let ghost gcap = self.max_weight as int;
        let ghost gstack = self.branches();
        let mut stack: Vec<Frame> = Vec::new();
        std::mem::swap(&mut stack, &mut self.stack);
        let r = match stack.pop() {
            None => {
                proof {
                    assert(gstack =~= frames_model(stack@));
                }
                None
            },
            Some(top) => {
                proof {
                    assert(gstack.last() == (FrameModel {
                        partial: top.partial.items(),
                        rest: top.rest as int,
                    }));
                    assert(frames_model(stack@) =~= gstack.drop_last());
                }
                let clock_count: usize = self.clocks.len();
                if top.rest < clock_count {
                    let a = self.clocks[top.rest];
                    match top.partial.try_add_clock(a) {
                        Ok(updated) => {
                            proof {
                                lemma_weight_sum_nonneg(top.partial.items());
                            }
                            let ghost before = frames_model(stack@);
                            stack.push(Frame { partial: updated, rest: top.rest + 1 });
                            proof {
                                assert(frames_model(stack@) =~= before.push(
                                    FrameModel {
                                        partial: top.partial.items().push(a),
                                        rest: top.rest as int + 1,
                                    },
                                ));
                            }
                            let single = singleton_knapsack(a, self.max_weight);
                            let ghost before2 = frames_model(stack@);
                            stack.push(Frame { partial: single, rest: top.rest + 1 });
                            proof {
                                assert(frames_model(stack@) =~= before2.push(
                                    FrameModel { partial: seq![a], rest: top.rest as int + 1 },
                                ));
                            }
                        },
                        Err(_) => {},
                    }
                    match Self::find_valid_clock_index(
                        &self.clocks,
                        top.rest + 1,
                        self.max_weight,
                    ) {
                        Some(j) => {
                            proof {
                                lemma_find_fit_props(gitems, top.rest as int + 1, gcap);
                            }
                            let single = singleton_knapsack(self.clocks[j], self.max_weight);
                            let ghost before3 = frames_model(stack@);
                            proof {
                                assert(j < clock_count);
                            }
                            stack.push(Frame { partial: single, rest: j + 1 });
                            proof {
                                assert(frames_model(stack@) =~= before3.push(
                                    FrameModel {
                                        partial: seq![gitems[j as int]],
                                        rest: j as int + 1,
                                    },
                                ));
                            }
                        },
                        None => {},
                    }
                    proof {
                        assert(frames_model(stack@) =~= step_stack(gitems, gcap, gstack));
                    }
                } else {
                    proof {
                        assert(frames_model(stack@) =~= step_stack(gitems, gcap, gstack));
                    }
                }
                Some(top.partial)
            },
        };
        std::mem::swap(&mut stack, &mut self.stack);
        r
    }
}

/// The optimizer context: a read-only view of an ordered clock sequence and
/// a capacity.
pub struct Problem {
    clocks: Vec<Clock>,
    max_weight: i64,
}

impl Problem {
    /// The ordered clock sequence of this problem.
    pub closed spec fn items(self) -> Seq<Clock> {
        self.clocks@
    }

    /// The capacity of this problem.
    pub closed spec fn cap(self) -> int {
        self.max_weight as int
    }

    /// Builds a problem from an ordered clock sequence and a capacity.
    pub fn new(clocks: Vec<Clock>, max_weight: i64) -> (r: Problem)
        ensures
            r.items() == clocks@,
            r.cap() == max_weight as int,
    {
        Problem { clocks, max_weight }
    }

    /// A fresh traversal of this problem's feasible contiguous runs.
    pub fn iter(&self) -> (r: SolutionIter)
        ensures
            r.items() == self.items(),
            r.cap() == self.cap(),
            r.branches() == init_stack(self.items(), self.cap()),
    {
        let mut stack: Vec<Frame> = Vec::new();
        let clock_count: usize = self.clocks.len();
        match SolutionIter::find_valid_clock_index(&self.clocks, 0, self.max_weight) {
            Some(j) => {
                proof {
                    lemma_find_fit_props(self.clocks@, 0, self.max_weight as int);
                    assert(j < clock_count);
                }
                let single = singleton_knapsack(self.clocks[j], self.max_weight);
                stack.push(Frame { partial: single, rest: j + 1 });
            },
            None => {},
        }
        let clocks = self.clocks.clone();
        proof {
            assert(clocks@ =~= self.clocks@);
        }
        let r = SolutionIter { clocks, max_weight: self.max_weight, stack };
        proof {
            assert(r.branches() =~= init_stack(self.items(), self.cap()));
        }
        r
    }

    /// Drains a fresh traversal and collects every yielded knapsack, in the
    /// order the traversal yields them.
    pub fn get_all_combinations(&self) -> (r: Vec<Knapsack>)
        ensures
            r@.len() == enumeration(self.items(), self.cap()).len(),
            forall|i: int|
                0 <= i < r@.len() ==> {
                    &&& (#[trigger] r@[i]).items() == enumeration(self.items(), self.cap())[i]
                    &&& r@[i].cap() == self.cap()
                },
    {
        let ghost full = enumeration(self.items(), self.cap());
        let mut it = self.iter();
        let mut result: Vec<Knapsack> = Vec::new();
        loop
            invariant
                it.items() == self.items(),
                it.cap() == self.cap(),
                result@.len() <= full.len(),
                full == enumeration(self.items(), self.cap()),
                yielded_from(self.items(), self.cap(), it.branches()) == full.skip(
                    result@.len() as int,
                ),
                forall|i: int|
                    0 <= i < result@.len() ==> {
                        &&& (#[trigger] result@[i]).items() == full[i]
                        &&& result@[i].cap() == self.cap()
                    },
            ensures
                it.branches().len() == 0,
                result@.len() == full.len(),
                forall|i: int|
                    0 <= i < result@.len() ==> {
                        &&& (#[trigger] result@[i]).items() == full[i]
                        &&& result@[i].cap() == self.cap()
                    },
            decreases stack_measure(self.items().len() as int, it.branches()),
        {
            let ghost pre = it.branches();
            let ghost n = result@.len() as int;
            match it.next() {
                Some(k) => {
                    proof {
                        lemma_step_decreases(self.items(), self.cap(), pre);
                        let rem = yielded_from(self.items(), self.cap(), it.branches());
                        assert(full.skip(n) == seq![k.items()] + rem);
                        assert(full[n] == full.skip(n)[0]);
                        assert forall|i: int| 0 <= i < rem.len() implies rem[i] == full[n + 1
                            + i] by {
                            assert(rem[i] == full.skip(n)[i + 1]);
                        }
                        assert(rem =~= full.skip(n + 1));
                    }
                    result.push(k);
                },
                None => {
                    proof {
                        assert(full.skip(n).len() == 0);
                        assert(full.len() == n);
                    }
                    break ;
                },
            }
        }
        result
    }

    /// Compares two knapsacks by their cumulative monetary value.
    pub fn cmp(first: &Knapsack, second: &Knapsack) -> (r: Ordering)
        ensures
            r is Less <==> value_sum(first.items()) < value_sum(second.items()),
            r is Equal <==> value_sum(first.items()) == value_sum(second.items()),
            r is Greater <==> value_sum(first.items()) > value_sum(second.items()),
    {
        let a = first.get_value();
        let b = second.get_value();
        if a < b {
            Ordering::Less
        } else if a == b {
            Ordering::Equal
        } else {
            Ordering::Greater
        }
    }

    /// Drains a fresh traversal and returns the knapsack with the greatest
    /// total price, or `None` exactly when the traversal yields nothing.
    /// Among several equally valuable knapsacks, the last one yielded wins.
    pub fn get_best_knapsack(&self) -> (r: Option<Knapsack>)
        ensures
            r is Some <==> enumeration(self.items(), self.cap()).len() > 0,
            r matches Some(k) ==> exists|i: int|
                #[trigger] is_last_best(enumeration(self.items(), self.cap()), i) && k.items()
                    == enumeration(self.items(), self.cap())[i] && k.cap() == self.cap(),
    {
        let ghost full = enumeration(self.items(), self.cap());
        let mut it = self.iter();
        let mut best: Option<Knapsack> = None;
        let ghost mut best_idx: int = 0;
        let ghost mut n: int = 0;
        loop
            invariant
                it.items() == self.items(),
                it.cap() == self.cap(),
                0 <= n <= full.len(),
                full == enumeration(self.items(), self.cap()),
                yielded_from(self.items(), self.cap(), it.branches()) == full.skip(n),
                n == 0 ==> best is None,
                n > 0 ==> {
                    &&& best matches Some(b)
                    &&& 0 <= best_idx < n
                    &&& b.items() == full[best_idx]
                    &&& b.cap() == self.cap()
                    &&& forall|j: int| 0 <= j < n ==> value_sum(full[j]) <= value_sum(
                        full[best_idx],
                    )
                    &&& forall|j: int| best_idx < j < n ==> value_sum(full[j]) < value_sum(
                        full[best_idx],
                    )
                },
            ensures
                n == full.len(),
                n == 0 ==> best is None,
                n > 0 ==> {
                    &&& best matches Some(b)
                    &&& 0 <= best_idx < n
                    &&& b.items() == full[best_idx]
                    &&& b.cap() == self.cap()
                    &&& forall|j: int| 0 <= j < n ==> value_sum(full[j]) <= value_sum(
                        full[best_idx],
                    )
                    &&& forall|j: int| best_idx < j < n ==> value_sum(full[j]) < value_sum(
                        full[best_idx],
                    )
                },
            decreases stack_measure(self.items().len() as int, it.branches()),
        {
            let ghost pre = it.branches();
            match it.next() {
                Some(k) => {
                    proof {
                        lemma_step_decreases(self.items(), self.cap(), pre);
                        let rem = yielded_from(self.items(), self.cap(), it.branches());
                        assert(full.skip(n) == seq![k.items()] + rem);
                        assert(full[n] == full.skip(n)[0]);
                        assert forall|i: int| 0 <= i < rem.len() implies rem[i] == full[n + 1
                            + i] by {
                            assert(rem[i] == full.skip(n)[i + 1]);
                        }
                        assert(rem =~= full.skip(n + 1));
                    }
                    let replace: bool = match &best {
                        None => true,
                        Some(b) => k.get_value() >= b.get_value(),
                    };
                    if replace {
                        best = Some(k);
                        proof {
                            best_idx = n;
                        }
                    }
                    proof {
                        n = n + 1;
                    }
                },
                None => {
                    proof {
                        assert(full.skip(n).len() == 0);
                    }
                    break ;
                },
            }
        }
        proof {
            if n > 0 {
                assert(is_last_best(full, best_idx));
            }
        }
        best
    }
}

} // verus!
