//! Topological data analysis: simplicial complexes, filtrations, persistence
//! diagrams, cellular sheaves and graph Laplacians, with verified contracts.

pub mod components;
pub mod filtration;
pub mod gf2;
pub mod laplacian;
pub mod persistence;
pub mod sheaf;
pub mod simplicial;

pub use simplicial::SimplicialComplex;
pub use persistence::{PersistenceDiagram, PersistencePair};
pub use filtration::{FeatureKind, Filtration, PersistenceEvent};
pub use sheaf::CellularSheaf;
pub use laplacian::SheafLaplacian;
