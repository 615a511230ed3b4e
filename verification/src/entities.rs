//! The kinds of living things in the simulation and their census.
use vstd::prelude::*;

verus! {

/// What an entity of the simulation is.
#[derive(Clone, Copy, Debug, PartialEq, Eq, Structural)]
pub enum Kind {
    Food,
    Organism,
    Predator,
}

/// How many entities of kind `k` the sequence `s` holds.
pub open spec fn count_of(s: Seq<Kind>, k: Kind) -> nat
    decreases s.len(),
{
    if s.len() == 0 {
        0
    } else {
        count_of(s.drop_last(), k) + if s.last() == k {
            1nat
        } else {
            0nat
        }
    }
}

/// Population counts of one frame.
#[derive(Clone, Copy, Debug, PartialEq, Eq, Structural)]
pub struct Census {
    pub organisms: u32,
    pub predators: u32,
    pub food: u32,
}

/// Counts the organisms, predators and food among `kinds`.
pub fn census(kinds: &Vec<Kind>) -> (c: Census)
    requires
        kinds@.len() <= u32::MAX,
    ensures
        c.organisms == count_of(kinds@, Kind::Organism),
        c.predators == count_of(kinds@, Kind::Predator),
        c.food == count_of(kinds@, Kind::Food),
        c.organisms == kinds@.to_multiset().count(Kind::Organism),
        c.predators == kinds@.to_multiset().count(Kind::Predator),
        c.food == kinds@.to_multiset().count(Kind::Food),
{
    let mut c = Census { organisms: 0, predators: 0, food: 0 };
    let mut i: usize = 0;
    while i < kinds.len()
        invariant
            i <= kinds@.len(),
            kinds@.len() <= u32::MAX,
            c.organisms == count_of(kinds@.take(i as int), Kind::Organism),
            c.predators == count_of(kinds@.take(i as int), Kind::Predator),
            c.food == count_of(kinds@.take(i as int), Kind::Food),
        decreases kinds.len() - i,
    {
        let ghost t = kinds@.take(i as int);
        proof {
            assert(kinds@.take(i + 1).drop_last() =~= t);
            law_census_total(t);
        }
        match kinds[i] {
            Kind::Organism => c.organisms = c.organisms + 1,
            Kind::Predator => c.predators = c.predators + 1,
            Kind::Food => c.food = c.food + 1,
        }
        i = i + 1;
    }
    proof {
        assert(kinds@.take(i as int) =~= kinds@);
        law_count_is_multiplicity(kinds@, Kind::Organism);
        law_count_is_multiplicity(kinds@, Kind::Predator);
        law_count_is_multiplicity(kinds@, Kind::Food);
    }
    c
}

/// Every entity has exactly one kind, so the three counts add up to the
/// number of entities.
pub proof fn law_census_total(s: Seq<Kind>)
    ensures
        count_of(s, Kind::Organism) + count_of(s, Kind::Predator) + count_of(s, Kind::Food)
            == s.len(),
    decreases s.len(),
{
    if s.len() > 0 {
        law_census_total(s.drop_last());
    }
}

} // verus!

verus! {

/// Each count is the number of times the kind occurs among the entities,
/// whatever their order.
pub proof fn law_count_is_multiplicity(s: Seq<Kind>, k: Kind)
    ensures
        count_of(s, k) == s.to_multiset().count(k),
    decreases s.len(),
{
    broadcast use vstd::seq_lib::group_to_multiset_ensures;
    broadcast use vstd::multiset::group_multiset_axioms;

    if s.len() == 0 {
        assert(s.to_multiset().len() == 0);
        assert(s.to_multiset() =~= vstd::multiset::Multiset::<Kind>::empty());
    } else {
        let t = s.drop_last();
        law_count_is_multiplicity(t, k);
        assert(t.push(s.last()) =~= s);
        assert(s.to_multiset() =~= t.to_multiset().insert(s.last()));
    }
}

} // verus!
