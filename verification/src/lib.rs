//! Poisson-disk sampling of the unit cube on a lattice of whole numbers.
//!
//! A Poisson-disk set is a set of points no two of which are nearer to each
//! other than a diameter, and to which no further point can be added. The
//! sampler of this crate finds one by throwing darts at the cells of a grid
//! and dividing the cells again and again, as Gamito and Maddock describe
//! in "Accurate multidimensional Poisson-disk sampling".
//!
//! All positions are whole numbers of lattice steps. A top-level cell of the
//! grid is `2^53` steps wide, and the disks' diameter is its diagonal, so
//! that the squared diameter, and with it every comparison of distances, is
//! exact. The resolution, the number of steps to the unit length, stands
//! for the radius: the finer the lattice, the smaller the disks.
//!
//! What is proved of the sampler stands in the contracts of
//! [`builder::PoissonGen::generate`] and [`builder::PoissonGen::fill`].

pub mod point;
pub mod radix;
pub mod index;
pub mod combination;
pub mod inplace;
pub mod grid;
pub mod sample;
pub mod distance;
pub mod bounds;
pub mod random;
pub mod ring;
pub mod separation;
pub mod state;
pub mod generator;
pub mod cover;
pub mod builder;

pub use builder::{Outcome, PoissonDisk, PoissonGen};
pub use combination::{each_combination, CombiIter};
pub use distance::{is_valid, sqdist};
pub use grid::Grid;
pub use index::{decode, encode, get_parent};
pub use inplace::Inplace;
pub use point::{Point, VecLike};
pub use random::choose_random_sample;
pub use ring::is_disk_free;
pub use sample::Sample;
