//! An exhaustive solver for a 0/1-knapsack style problem on exact
//! fixed-point quantities.
//!
//! A [`Clock`] is a weight/price pair; a [`Knapsack`] is an immutable,
//! capacity-bounded collection of clocks that guards the invariant
//! "total weight never exceeds the capacity". The [`problem`] module
//! enumerates feasible contiguous runs of an ordered clock sequence and
//! picks the most valuable one.
//!
//! Weights and prices are exact decimal quantities held as fixed-point
//! integer units; callers pick the scale and convert at the boundary.

use vstd::prelude::*;

pub mod problem;

verus! {

/// A weight/price pair, the atomic unit being selected.
///
/// Both quantities are non-negative fixed-point units.
#[derive(Clone, Copy, PartialEq, Eq, Structural, Hash, Debug)]
pub struct Clock {
    /// Weight of this clock, in fixed-point units.
    pub weight: u64,
    /// Price of this clock, in fixed-point units.
    pub price: u64,
}

impl Clock {
    /// Builds a clock from its weight and price.
    pub fn new(weight: u64, price: u64) -> (r: Clock)
        ensures
            r == (Clock { weight, price }),
    {
        Clock { weight, price }
    }
}

/// Errors raised by knapsack operations.
#[derive(Clone, Copy, Debug)]
pub enum AppError {
    /// Adding the clock would push the total weight over the capacity.
    KnapsackFullError,
}

/// Total weight of a sequence of clocks.
pub open spec fn weight_sum(s: Seq<Clock>) -> int
    decreases s.len(),
{
    if s.len() == 0 {
        0
    } else {
        weight_sum(s.drop_last()) + s.last().weight
    }
}

/// Total price of a sequence of clocks.
pub open spec fn value_sum(s: Seq<Clock>) -> int
    decreases s.len(),
{
    if s.len() == 0 {
        0
    } else {
        value_sum(s.drop_last()) + s.last().price
    }
}

/// Whether `clock` still fits when a knapsack holding `held` has capacity `cap`.
pub open spec fn can_add(held: Seq<Clock>, clock: Clock, cap: int) -> bool {
    weight_sum(held) + clock.weight <= cap
}

/// Appending one clock adds its weight to the total.
pub proof fn lemma_weight_sum_push(s: Seq<Clock>, c: Clock)
    ensures
        weight_sum(s.push(c)) == weight_sum(s) + c.weight,
{
    assert(s.push(c).drop_last() =~= s);
}

/// Appending one clock adds its price to the total.
pub proof fn lemma_value_sum_push(s: Seq<Clock>, c: Clock)
    ensures
        value_sum(s.push(c)) == value_sum(s) + c.price,
{
    assert(s.push(c).drop_last() =~= s);
}

/// Weights are non-negative, so the total weight is non-negative.
pub proof fn lemma_weight_sum_nonneg(s: Seq<Clock>)
    ensures
        weight_sum(s) >= 0,
    decreases s.len(),
{
    if s.len() > 0 {
        lemma_weight_sum_nonneg(s.drop_last());
    }
}

/// Weights are non-negative, so a prefix never outweighs the whole sequence.
pub proof fn lemma_weight_sum_prefix(s: Seq<Clock>, i: int)
    requires
        0 <= i <= s.len(),
    ensures
        weight_sum(s.take(i)) <= weight_sum(s),
    decreases s.len(),
{
    if i == s.len() {
        assert(s.take(i) =~= s);
    } else {
        assert(s.take(i) =~= s.drop_last().take(i));
        lemma_weight_sum_prefix(s.drop_last(), i);
    }
}

/// The total price of `s` is at most one maximal price per element.
pub proof fn lemma_value_sum_bound(s: Seq<Clock>)
    ensures
        0 <= value_sum(s) <= s.len() * (u64::MAX as int),
    decreases s.len(),
{
    if s.len() > 0 {
        lemma_value_sum_bound(s.drop_last());
    }
}

/// An immutable, capacity-bounded collection of clocks.
///
/// Every live knapsack satisfies the weight invariant: either it is empty,
/// or the total weight of its contents is at most its capacity. A knapsack
/// is never mutated in place; operations return a fresh knapsack or fail.
#[derive(PartialEq, Eq, Hash, Debug)]
pub struct Knapsack {
    contents: Vec<Clock>,
    capacity: i64,
    total_weight: u64,
}

impl Knapsack {
    /// The clocks held, in insertion order.
    pub closed spec fn items(self) -> Seq<Clock> {
        self.contents@
    }

    /// The fixed capacity, in the same fixed-point units as the weights.
    pub closed spec fn cap(self) -> int {
        self.capacity as int
    }

    #[verifier::type_invariant]
    spec fn wf(self) -> bool {
        &&& self.total_weight as int == weight_sum(self.contents@)
        &&& self.contents@.len() > 0 ==> weight_sum(self.contents@) <= self.capacity as int
    }

    /// A knapsack with no clocks and the given capacity.
    ///
    /// Always succeeds; the capacity is stored as given, including zero and
    /// negative capacities (to which no clock of positive weight can ever
    /// be added).
    pub fn empty(max_weight: i64) -> (r: Knapsack)
        ensures
            r.items() == Seq::<Clock>::empty(),
            r.cap() == max_weight as int,
    {
        let r = Knapsack { contents: Vec::new(), capacity: max_weight, total_weight: 0 };
        proof {
            assert(r.contents@ =~= Seq::<Clock>::empty());
        }
        r
    }

    /// Folds `clocks` left to right into an initially empty knapsack of
    /// capacity `max_weight`, failing atomically: if any single add fails,
    /// the whole call fails and no partial knapsack is returned.
    ///
    /// Since weights are non-negative, the fold succeeds exactly when the
    /// whole sequence fits (or is empty).
    pub fn from_clocks(clocks: &[Clock], max_weight: i64) -> (r: Result<Knapsack, AppError>)
        ensures
            r is Ok <==> (clocks@.len() == 0 || weight_sum(clocks@) <= max_weight as int),
            r matches Ok(k) ==> k.items() == clocks@ && k.cap() == max_weight as int,
            r matches Err(e) ==> e is KnapsackFullError,
    {
        let mut k = Knapsack::empty(max_weight);
        let n: usize = clocks.len();
        let mut i: usize = 0;
        while i < n
            invariant
                0 <= i <= n,
                n == clocks@.len(),
                k.items() == clocks@.take(i as int),
                k.cap() == max_weight as int,
            decreases n - i,
        {
            match k.try_add_clock(clocks[i]) {
                Ok(k2) => {
                    proof {
                        assert(clocks@.take(i as int).push(clocks@[i as int]) =~= clocks@.take(
                            i as int + 1,
                        ));
                    }
                    k = k2;
                },
                Err(e) => {
                    proof {
                        lemma_weight_sum_push(clocks@.take(i as int), clocks@[i as int]);
                        assert(clocks@.take(i as int).push(clocks@[i as int]) =~= clocks@.take(
                            i as int + 1,
                        ));
                        lemma_weight_sum_prefix(clocks@, i as int + 1);
                    }
                    return Err(e);
                },
            }
            i = i + 1;
        }
        proof {
            assert(clocks@.take(n as int) =~= clocks@);
            if clocks@.len() > 0 {
                use_type_invariant(&k);
            }
        }
        Ok(k)
    }

    /// The clocks held, in insertion order.
    pub fn get_contents(&self) -> (r: &[Clock])
        ensures
            r@ == self.items(),
    {
        self.contents.as_slice()
    }

    /// Returns a new knapsack equal to `self` plus `clock` if the combined
    /// weight still fits the capacity; fails with `KnapsackFullError`
    /// otherwise. `self` is never changed.
    pub fn try_add_clock(&self, clock: Clock) -> (r: Result<Knapsack, AppError>)
        ensures
            r is Ok <==> can_add(self.items(), clock, self.cap()),
            r matches Ok(k) ==> {
                &&& k.items() == self.items().push(clock)
                &&& k.cap() == self.cap()
                &&& value_sum(k.items()) == value_sum(self.items()) + clock.price
            },
            r matches Err(e) ==> e is KnapsackFullError,
    {
        proof {
            use_type_invariant(self);
        }
        let new_total: i128 = self.total_weight as i128 + clock.weight as i128;
        if new_total <= self.capacity as i128 {
            let mut new_contents = self.contents.clone();
            proof {
                assert(new_contents@ =~= self.contents@);
            }
            new_contents.push(clock);
            proof {
                lemma_weight_sum_push(self.contents@, clock);
                lemma_value_sum_push(self.contents@, clock);
            }
            let r = Knapsack {
                contents: new_contents,
                capacity: self.capacity,
                total_weight: self.total_weight + clock.weight,
            };
            Ok(r)
        } else {
            Err(AppError::KnapsackFullError)
        }
    }

    /// A copy of this knapsack with the same contents and capacity.
    pub(crate) fn duplicate(&self) -> (r: Knapsack)
        ensures
            r.items() == self.items(),
            r.cap() == self.cap(),
    {
        proof {
            use_type_invariant(self);
        }
        let new_contents = self.contents.clone();
        proof {
            assert(new_contents@ =~= self.contents@);
        }
        Knapsack {
            contents: new_contents,
            capacity: self.capacity,
            total_weight: self.total_weight,
        }
    }

    /// Whether the knapsack holds no clocks.
    pub fn is_empty(&self) -> (r: bool)
        ensures
            r <==> self.items().len() == 0,
    {
        self.contents.len() == 0
    }

    /// Whether the knapsack holds at least one clock.
    pub fn non_empty(&self) -> (r: bool)
        ensures
            r <==> self.items().len() > 0,
    {
        !self.is_empty()
    }

    /// The total price of all held clocks; zero for an empty knapsack.
    pub fn get_value(&self) -> (r: u128)
        ensures
            r == value_sum(self.items()),
    {
        let mut acc: u128 = 0;
        let mut i: usize = 0;
        let n: usize = self.contents.len();
        while i < n
            invariant
                0 <= i <= n,
                n == self.contents@.len(),
                acc == value_sum(self.contents@.take(i as int)),
            decreases n - i,
        {
            proof {
                lemma_value_sum_bound(self.contents@.take(i as int));
                lemma_value_sum_push(self.contents@.take(i as int), self.contents@[i as int]);
                assert(self.contents@.take(i as int).push(self.contents@[i as int])
                    =~= self.contents@.take(i as int + 1));
            }
            acc = acc + self.contents[i].price as u128;
            i = i + 1;
        }
        proof {
            assert(self.contents@.take(n as int) =~= self.contents@);
        }
        acc
    }
}

/// Law: every live knapsack keeps its total weight within its capacity. The
/// one exception is an empty knapsack of negative capacity, whose total
/// weight of zero exceeds the stored capacity without any clock being held.
pub fn knapsack_weight_invariant(k: &Knapsack)
    ensures
        k.cap() >= 0 || k.items().len() > 0 ==> weight_sum(k.items()) <= k.cap(),
{
    proof {
        use_type_invariant(k);
    }
}

/// Law: a left-to-right fold of adds fails at some prefix exactly when the
/// whole sequence is infeasible, so a failed fold can never leave a partial
/// knapsack behind.
pub proof fn from_clocks_atomicity(clocks: Seq<Clock>, cap: int)
    ensures
        (exists|i: int| 0 <= i <= clocks.len() && weight_sum(clocks.take(i)) > cap) <==> weight_sum(
            clocks,
        ) > cap,
{
    if exists|i: int| 0 <= i <= clocks.len() && weight_sum(clocks.take(i)) > cap {
        let i = choose|i: int| 0 <= i <= clocks.len() && weight_sum(clocks.take(i)) > cap;
        lemma_weight_sum_prefix(clocks, i);
    }
    if weight_sum(clocks) > cap {
        assert(clocks.take(clocks.len() as int) =~= clocks);
    }
}

} // verus!
