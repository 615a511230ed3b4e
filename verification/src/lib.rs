//! Verified core of a predator–prey ecosystem simulation: the quadtree that
//! finds candidate neighbours, the population census, and the axes of the
//! population report.
pub mod entities;
pub mod plotdata;
pub mod quadtree;
