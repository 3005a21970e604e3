//! Placement of market drops on the months of a simulation.
//!
//! Every drop class asks for a number of occurrences. Each occurrence is one
//! random draw of a month; the draws are made class by class, in the order the
//! classes are given, and a month that is drawn again is taken over by the
//! later draw.

use crate::random::draw_month;
use rand::thread_rng;
use std::collections::HashMap;
use vstd::prelude::*;

verus! {

broadcast use vstd::std_specs::hash::group_hash_axioms;

/// One draw: the month it landed on and the index of the drop class it was
/// made for.
#[derive(Clone, Copy, Debug)]
pub struct Draw {
    pub month: u64,
    pub class: usize,
}

/// The month-to-class map that a sequence of draws leaves behind: each draw
/// claims its month, overwriting whatever claimed it before.
pub open spec fn assigned(draws: Seq<Draw>) -> Map<u64, usize>
    decreases draws.len(),
{
    if draws.len() == 0 {
        Map::empty()
    } else {
        assigned(draws.drop_last()).insert(draws.last().month, draws.last().class)
    }
}

/// The classes of a sequence of draws, in draw order.
pub open spec fn classes_of(draws: Seq<Draw>) -> Seq<usize> {
    Seq::new(draws.len(), |i: int| draws[i].class)
}

/// The order in which classes are drawn for: class 0 as often as it occurs,
/// then class 1, and so on.
pub open spec fn class_order(occurrences: Seq<u64>) -> Seq<usize>
    decreases occurrences.len(),
{
    if occurrences.len() == 0 {
        Seq::empty()
    } else {
        class_order(occurrences.drop_last()) + Seq::new(
            occurrences.last() as nat,
            |i: int| (occurrences.len() - 1) as usize,
        )
    }
}

/// `draws` is a possible outcome of sampling for `occurrences` over a horizon
/// of `months` months: the right number of draws per class, in class order,
/// every month inside the horizon.
pub open spec fn is_sample(draws: Seq<Draw>, occurrences: Seq<u64>, months: u64) -> bool {
    &&& classes_of(draws) == class_order(occurrences)
    &&& forall|i: int| 0 <= i < draws.len() ==> (#[trigger] draws[i]).month < months
}

/// Which drop class, if any, strikes each month of the horizon.
pub struct DropAssignment {
    months: u64,
    slots: HashMap<u64, usize>,
}

impl View for DropAssignment {
    type V = Map<u64, usize>;

    closed spec fn view(&self) -> Map<u64, usize> {
        self.slots@
    }
}

impl DropAssignment {
    /// Length of the horizon, in months.
    pub closed spec fn horizon(&self) -> u64 {
        self.months
    }

    /// Every struck month lies inside the horizon.
    pub open spec fn wf(&self) -> bool {
        forall|m: u64| self@.contains_key(m) ==> m < self.horizon()
    }

    /// An assignment over `months` months in which no month is struck.
    pub fn new(months: u64) -> (a: Self)
        ensures
            a@ == Map::<u64, usize>::empty(),
            a.horizon() == months,
            a.wf(),
    {
        DropAssignment { months, slots: HashMap::new() }
    }

    /// Length of the horizon, in months.
    pub fn months(&self) -> (n: u64)
        ensures
            n == self.horizon(),
    {
        self.months
    }

    /// Lets `class` strike `month`, replacing whatever struck it before.
    pub fn record(&mut self, month: u64, class: usize)
        requires
            old(self).wf(),
            month < old(self).horizon(),
        ensures
            final(self)@ == old(self)@.insert(month, class),
            final(self).horizon() == old(self).horizon(),
            final(self).wf(),
    {
        self.slots.insert(month, class);
        proof {
            assert forall|m: u64| self@.contains_key(m) implies m < self.horizon() by {
                if m != month {
                    assert(old(self)@.contains_key(m));
                }
            }
        }
    }

    /// The class that strikes `month`, or `None` for a month of plain growth.
    pub fn class_at(&self, month: u64) -> (class: Option<usize>)
        ensures
            class == (if self@.contains_key(month) {
                Some(self@[month])
            } else {
                None
            }),
    {
        match self.slots.get(&month) {
            Some(c) => Some(*c),
            None => None,
        }
    }

    /// Number of months that are struck by a drop.
    pub fn struck_months(&self) -> (n: usize)
        ensures
            n == self@.dom().len(),
    {
        self.slots.len()
    }
}

/// Replays a scripted sequence of draws over a horizon of `months` months.
/// The result is `None` exactly when some draw lies outside the horizon;
/// otherwise it is the assignment the draws leave behind.
pub fn from_draws(months: u64, draws: &Vec<Draw>) -> (r: Option<DropAssignment>)
    ensures
        r is Some <==> forall|i: int| 0 <= i < draws@.len() ==> (#[trigger] draws@[i]).month < months,
        r matches Some(a) ==> a@ == assigned(draws@) && a.horizon() == months && a.wf(),
{
    let mut a = DropAssignment::new(months);
    let mut i: usize = 0;
    while i < draws.len()
        invariant
            i <= draws.len(),
            a.horizon() == months,
            a.wf(),
            a@ == assigned(draws@.take(i as int)),
            forall|j: int| 0 <= j < i ==> (#[trigger] draws@[j]).month < months,
        decreases draws.len() - i,
    {
        let d = draws[i];
        if d.month >= months {
            return None;
        }
        a.record(d.month, d.class);
        proof {
            assert(draws@.take(i + 1).drop_last() =~= draws@.take(i as int));
        }
        i += 1;
    }
    proof {
        assert(draws@.take(i as int) =~= draws@);
    }
    Some(a)
}

/// Samples a month for every occurrence of every drop class, class by class,
/// and returns the assignment the draws leave behind.
///
/// A month can only be drawn from a horizon that has one, so a horizon of no
/// months is admitted only together with no occurrences.
///
/// Whatever months are drawn, the result is the assignment of some sample for
/// `occurrences`; in particular every struck month lies inside the horizon,
/// every striking class asked for at least one occurrence, and with no
/// occurrences at all no month is struck.
pub fn place_drops(occurrences: &Vec<u64>, months: u64) -> (a: DropAssignment)
    requires
        months > 0 || forall|k: int| 0 <= k < occurrences@.len() ==> occurrences@[k] == 0,
    ensures
        a.horizon() == months,
        a.wf(),
        exists|draws: Seq<Draw>| #[trigger] is_sample(draws, occurrences@, months) && a@ == assigned(draws),
        forall|m: u64| #[trigger]
            a@.contains_key(m) ==> a@[m] < occurrences@.len() && occurrences@[a@[m] as int] > 0,
        (forall|k: int| 0 <= k < occurrences@.len() ==> occurrences@[k] == 0) ==> a@
            == Map::<u64, usize>::empty(),
{
    let mut a = DropAssignment::new(months);
    let ghost mut draws: Seq<Draw> = Seq::empty();
    let mut k: usize = 0;
    while k < occurrences.len()
        invariant
            k <= occurrences.len(),
            months > 0 || forall|k: int| 0 <= k < occurrences@.len() ==> occurrences@[k] == 0,
            a.horizon() == months,
            a.wf(),
            a@ == assigned(draws),
            classes_of(draws) == class_order(occurrences@.take(k as int)),
            forall|i: int| 0 <= i < draws.len() ==> (#[trigger] draws[i]).month < months,
            forall|m: u64| #[trigger]
                a@.contains_key(m) ==> a@[m] < k && occurrences@[a@[m] as int] > 0,
            (forall|i: int| 0 <= i < k ==> occurrences@[i] == 0) ==> draws.len() == 0,
        decreases occurrences.len() - k,
    {
        let mut rng = thread_rng();
        let count = occurrences[k];
        let ghost before = draws;
        let mut j: u64 = 0;
        while j < count
            invariant
                k < occurrences.len(),
                count == occurrences@[k as int],
                j <= count,
                months > 0 || forall|k: int| 0 <= k < occurrences@.len() ==> occurrences@[k] == 0,
                a.horizon() == months,
                a.wf(),
                a@ == assigned(draws),
                classes_of(draws) == class_order(occurrences@.take(k as int)) + Seq::new(
                    j as nat,
                    |i: int| k,
                ),
                forall|i: int| 0 <= i < draws.len() ==> (#[trigger] draws[i]).month < months,
                forall|m: u64| #[trigger]
                    a@.contains_key(m) ==> a@[m] <= k && occurrences@[a@[m] as int] > 0,
                j == 0 ==> draws == before,
            decreases count - j,
        {
            let month = draw_month(&mut rng, months);
            a.record(month, k);
            proof {
                let d = Draw { month, class: k };
                assert(draws.push(d).drop_last() =~= draws);
                assert(classes_of(draws.push(d)) =~= classes_of(draws).push(k));
                assert(Seq::new(j as nat, |i: int| k).push(k) =~= Seq::new(
                    (j + 1) as nat,
                    |i: int| k,
                ));
                assert(classes_of(draws.push(d)) =~= class_order(occurrences@.take(k as int))
                    + Seq::new((j + 1) as nat, |i: int| k));
                draws = draws.push(d);
            }
            j += 1;
        }
        proof {
            let next = occurrences@.take(k + 1);
            assert(next.drop_last() =~= occurrences@.take(k as int));
            assert(Seq::new(next.last() as nat, |i: int| (next.len() - 1) as usize) =~= Seq::new(
                j as nat,
                |i: int| k,
            ));
        }
        k += 1;
    }
    proof {
        assert(occurrences@.take(k as int) =~= occurrences@);
        assert(is_sample(draws, occurrences@, months));
    }
    a
}

/// Total number of draws that `occurrences` asks for.
pub open spec fn total_occurrences(occurrences: Seq<u64>) -> nat
    decreases occurrences.len(),
{
    if occurrences.len() == 0 {
        0
    } else {
        total_occurrences(occurrences.drop_last()) + occurrences.last() as nat
    }
}

/// A month is struck exactly when some draw landed on it.
pub proof fn lemma_struck_iff_drawn(draws: Seq<Draw>, month: u64)
    ensures
        assigned(draws).contains_key(month) <==> exists|i: int|
            0 <= i < draws.len() && (#[trigger] draws[i]).month == month,
    decreases draws.len(),
{
    if draws.len() > 0 {
        let rest = draws.drop_last();
        lemma_struck_iff_drawn(rest, month);
        if assigned(draws).contains_key(month) {
            if draws.last().month == month {
                assert(draws[draws.len() - 1].month == month);
            } else {
                let i = choose|i: int| 0 <= i < rest.len() && (#[trigger] rest[i]).month == month;
                assert(draws[i].month == month);
            }
        }
        if exists|i: int| 0 <= i < draws.len() && (#[trigger] draws[i]).month == month {
            let i = choose|i: int| 0 <= i < draws.len() && (#[trigger] draws[i]).month == month;
            if i < rest.len() {
                assert(rest[i].month == month);
            }
        }
    }
}

/// The last writer wins: a draw that no later draw repeats decides the class
/// of its month.
pub proof fn lemma_last_draw_wins(draws: Seq<Draw>, i: int)
    requires
        0 <= i < draws.len(),
        forall|j: int| i < j < draws.len() ==> (#[trigger] draws[j]).month != draws[i].month,
    ensures
        assigned(draws).contains_key(draws[i].month),
        assigned(draws)[draws[i].month] == draws[i].class,
    decreases draws.len(),
{
    if i < draws.len() - 1 {
        let rest = draws.drop_last();
        assert(draws[draws.len() - 1].month != draws[i].month);
        assert forall|j: int| i < j < rest.len() implies (#[trigger] rest[j]).month
            != rest[i].month by {
            assert(draws[j].month != draws[i].month);
        }
        lemma_last_draw_wins(rest, i);
    }
}

/// A sample holds one draw per requested occurrence.
pub proof fn lemma_class_order_len(occurrences: Seq<u64>)
    ensures
        class_order(occurrences).len() == total_occurrences(occurrences),
    decreases occurrences.len(),
{
    if occurrences.len() > 0 {
        lemma_class_order_len(occurrences.drop_last());
    }
}

/// The struck months are finitely many, and no more than there were draws.
pub proof fn lemma_struck_at_most_draws(draws: Seq<Draw>)
    ensures
        assigned(draws).dom().finite(),
        assigned(draws).dom().len() <= draws.len(),
    decreases draws.len(),
{
    if draws.len() > 0 {
        lemma_struck_at_most_draws(draws.drop_last());
        assert(assigned(draws).dom() =~= assigned(draws.drop_last()).dom().insert(
            draws.last().month,
        ));
    }
}

/// Every month struck by a sample lies inside the horizon, and the class that
/// strikes it is one that the sample drew for.
pub proof fn lemma_sample_in_range(draws: Seq<Draw>, occurrences: Seq<u64>, months: u64, month: u64)
    requires
        is_sample(draws, occurrences, months),
        assigned(draws).contains_key(month),
    ensures
        month < months,
        exists|i: int|
            0 <= i < draws.len() && (#[trigger] draws[i]).month == month && draws[i].class
                == assigned(draws)[month],
{
    lemma_struck_by_some_draw(draws, month);
}

/// The class that strikes a month is the class of one of the draws on it.
pub proof fn lemma_struck_by_some_draw(draws: Seq<Draw>, month: u64)
    requires
        assigned(draws).contains_key(month),
    ensures
        exists|i: int|
            0 <= i < draws.len() && (#[trigger] draws[i]).month == month && draws[i].class
                == assigned(draws)[month],
    decreases draws.len(),
{
    if draws.len() > 0 {
        let rest = draws.drop_last();
        if draws.last().month == month {
            assert(draws[draws.len() - 1].month == month);
        } else {
            lemma_struck_by_some_draw(rest, month);
            let i = choose|i: int|
                0 <= i < rest.len() && (#[trigger] rest[i]).month == month && rest[i].class
                    == assigned(rest)[month];
            assert(draws[i].month == month);
        }
    }
}

/// A finite set of months below `bound` has at most `bound` members.
pub proof fn lemma_months_below_bound(months: Set<u64>, bound: u64)
    requires
        months.finite(),
        forall|m: u64| months.contains(m) ==> m < bound,
    ensures
        months.len() <= bound,
    decreases bound,
{
    if bound == 0 {
        assert(months =~= Set::<u64>::empty());
    } else {
        let top = (bound - 1) as u64;
        lemma_months_below_bound(months.remove(top), top);
    }
}

/// A sample strikes no more months than it holds draws, and no more than the
/// horizon has.
pub proof fn lemma_struck_count_bound(draws: Seq<Draw>, occurrences: Seq<u64>, months: u64)
    requires
        is_sample(draws, occurrences, months),
    ensures
        assigned(draws).dom().finite(),
        assigned(draws).dom().len() <= total_occurrences(occurrences),
        assigned(draws).dom().len() <= months,
{
    lemma_struck_at_most_draws(draws);
    lemma_class_order_len(occurrences);
    assert(classes_of(draws).len() == draws.len());
    assert forall|m: u64| assigned(draws).dom().contains(m) implies m < months by {
        lemma_sample_in_range(draws, occurrences, months, m);
    }
    lemma_months_below_bound(assigned(draws).dom(), months);
}

/// Without drop classes nothing is left to chance: the only sample is the
/// empty one, and it strikes no month.
pub proof fn lemma_no_classes_no_drops(draws: Seq<Draw>, months: u64)
    requires
        is_sample(draws, Seq::<u64>::empty(), months),
    ensures
        draws.len() == 0,
        assigned(draws) == Map::<u64, usize>::empty(),
{
    assert(classes_of(draws).len() == draws.len());
}

} // verus!
