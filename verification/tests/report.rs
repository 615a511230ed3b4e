use ecosystem::entities::{census, Census, Kind};
use ecosystem::plotdata::{plot_axes, ChartAxes};

#[test]
fn census_counts_each_kind() {
    let kinds = vec![
        Kind::Organism,
        Kind::Food,
        Kind::Food,
        Kind::Predator,
        Kind::Organism,
        Kind::Food,
    ];
    assert_eq!(census(&kinds), Census { organisms: 2, predators: 1, food: 3 });
    assert_eq!(census(&Vec::new()), Census { organisms: 0, predators: 0, food: 0 });
}

#[test]
fn plot_axes_follow_the_series() {
    let organisms = vec![6, 9, 4];
    let predators = vec![2, 3, 12, 1];
    let food = vec![50, 41];
    let axes = plot_axes(&organisms, &predators, &food);
    assert_eq!(axes.population, ChartAxes { x_end: 4, y_end: 13 });
    assert_eq!(axes.organisms, ChartAxes { x_end: 4, y_end: 9 });
    assert_eq!(axes.predators, ChartAxes { x_end: 5, y_end: 12 });
    assert_eq!(axes.food, ChartAxes { x_end: 3, y_end: 50 });
}

#[test]
fn plot_axes_of_single_samples() {
    let axes = plot_axes(&vec![6], &vec![2], &vec![50]);
    assert_eq!(axes.population, ChartAxes { x_end: 2, y_end: 7 });
    assert_eq!(axes.organisms, ChartAxes { x_end: 2, y_end: 6 });
    assert_eq!(axes.predators, ChartAxes { x_end: 2, y_end: 2 });
    assert_eq!(axes.food, ChartAxes { x_end: 2, y_end: 50 });
}
