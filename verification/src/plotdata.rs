//! Axis ranges of the population report: one chart of organisms and
//! predators over time, then one panel per population.
use vstd::prelude::*;

verus! {

/// The largest element of `s` (zero for an empty sequence).
pub open spec fn max_of(s: Seq<u32>) -> u32
    decreases s.len(),
{
    if s.len() == 0 {
        0
    } else {
        let m = max_of(s.drop_last());
        if s.len() == 1 || s.last() > m {
            s.last()
        } else {
            m
        }
    }
}

/// Ranges `0..x_end` and `0..y_end` of one chart's axes.
#[derive(Clone, Copy, Debug, PartialEq, Eq, Structural)]
pub struct ChartAxes {
    pub x_end: u32,
    pub y_end: u32,
}

/// Axes of the whole report.
#[derive(Clone, Copy, Debug, PartialEq, Eq, Structural)]
pub struct PlotAxes {
    /// Organisms and predators together.
    pub population: ChartAxes,
    pub organisms: ChartAxes,
    pub predators: ChartAxes,
    pub food: ChartAxes,
}

/// The largest sample of a non-empty series.
fn largest(v: &Vec<u32>) -> (m: u32)
    requires
        v@.len() > 0,
    ensures
        m == max_of(v@),
{
    let mut m = v[0];
    let mut i: usize = 1;
    proof {
        assert(v@.take(1).drop_last() =~= Seq::<u32>::empty());
    }
    while i < v.len()
        invariant
            1 <= i <= v@.len(),
            m == max_of(v@.take(i as int)),
        decreases v.len() - i,
    {
        proof {
            assert(v@.take(i + 1).drop_last() =~= v@.take(i as int));
        }
        if v[i] > m {
            m = v[i];
        }
        i = i + 1;
    }
    proof {
        assert(v@.take(i as int) =~= v@);
    }
    m
}

/// The horizontal axis of a series: one step per sample, plus one.
pub open spec fn x_end_of(s: Seq<u32>) -> u32 {
    ((s.len() as u32) + 1) as u32
}

/// Axes of the population report for the organism, predator and food
/// series (one sample per second). The combined chart spans one above the
/// largest organism or predator count; each panel spans up to the largest
/// count of its own series.
pub fn plot_axes(organisms: &Vec<u32>, predators: &Vec<u32>, food: &Vec<u32>) -> (axes: PlotAxes)
    requires
        organisms@.len() > 0,
        predators@.len() > 0,
        food@.len() > 0,
        (organisms@.len() as u32) < u32::MAX,
        (predators@.len() as u32) < u32::MAX,
        (food@.len() as u32) < u32::MAX,
        max_of(organisms@) < u32::MAX,
        max_of(predators@) < u32::MAX,
    ensures
        axes.population.x_end == x_end_of(organisms@),
        organisms@.len() < u32::MAX ==> axes.population.x_end == organisms@.len() + 1,
        organisms@.len() < u32::MAX ==> axes.organisms.x_end == organisms@.len() + 1,
        predators@.len() < u32::MAX ==> axes.predators.x_end == predators@.len() + 1,
        food@.len() < u32::MAX ==> axes.food.x_end == food@.len() + 1,
        axes.population.y_end == (if max_of(organisms@) >= max_of(predators@) {
            max_of(organisms@)
        } else {
            max_of(predators@)
        }) + 1,
        axes.organisms == (ChartAxes { x_end: x_end_of(organisms@), y_end: max_of(organisms@) }),
        axes.predators == (ChartAxes { x_end: x_end_of(predators@), y_end: max_of(predators@) }),
        axes.food == (ChartAxes { x_end: x_end_of(food@), y_end: max_of(food@) }),
{
    proof {
        law_x_end_counts_samples(organisms@);
        law_x_end_counts_samples(predators@);
        law_x_end_counts_samples(food@);
    }
    let top_organisms = largest(organisms);
    let top_predators = largest(predators);
    let top_food = largest(food);
    let top = if top_organisms >= top_predators {
        top_organisms
    } else {
        top_predators
    };
    PlotAxes {
        population: ChartAxes { x_end: organisms.len() as u32 + 1, y_end: top + 1 },
        organisms: ChartAxes { x_end: organisms.len() as u32 + 1, y_end: top_organisms },
        predators: ChartAxes { x_end: predators.len() as u32 + 1, y_end: top_predators },
        food: ChartAxes { x_end: food.len() as u32 + 1, y_end: top_food },
    }
}

/// A chart's horizontal axis spans one more than the number of samples,
/// whatever their values.
pub proof fn law_x_end_counts_samples(s: Seq<u32>)
    ensures
        s.len() < u32::MAX ==> x_end_of(s) == s.len() + 1,
{
}

/// The largest element of a non-empty series occurs in it and is at least
/// every element.
pub proof fn law_max_of_is_largest(s: Seq<u32>)
    requires
        s.len() > 0,
    ensures
        s.contains(max_of(s)),
        forall|i: int| 0 <= i < s.len() ==> s[i] <= max_of(s),
    decreases s.len(),
{
    if s.len() > 1 {
        let t = s.drop_last();
        law_max_of_is_largest(t);
        let j = choose|j: int| 0 <= j < t.len() && t[j] == max_of(t);
        assert(s[j] == t[j]);
        assert forall|i: int| 0 <= i < s.len() implies s[i] <= max_of(s) by {
            if i < t.len() {
                assert(s[i] == t[i]);
            }
        }
    } else {
        assert(s[0] == s.last());
    }
}

} // verus!
