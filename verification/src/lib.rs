//! Combinatorial simplicial complexes of dimension up to three, with oriented
//! simplices, incidence rings and a Delaunay tetrahedralization.
//!
//! A mesh holds vertices, directed edges, oriented triangles and oriented
//! tetrahedra, each with a payload. Around every vertex, edge and triangle
//! the simplices of the next dimension that have it form a ring, so that
//! stepping from a simplex to what lies next to it takes constant time.
//!
//! - [`ids`]: identifiers of simplices; [`simplex`]: canonical forms and
//!   faces, as mathematics on tuples of vertex numbers.
//! - [`view`]: what a mesh holds, its invariants, and the elementary changes
//!   that keep them; [`laws`]: what follows for every mesh.
//! - [`table`]: hash tables on the Fowler-Noll-Vo function; [`key`],
//!   [`ring`], [`mesh`]: the stores and the link tables.
//! - [`grow`], [`prune`], [`purge`], [`bulk`], [`convert`]: adding, removing
//!   and converting.
//! - [`query`], [`star`], [`walker`]: incidence queries and walkers.
//! - [`tetrahedralize`]: the Bowyer-Watson algorithm with ghost tetrahedra.

pub mod ids;
pub mod simplex;
pub mod view;
pub mod laws;
pub mod key;
pub mod table;
pub mod ring;
pub mod mesh;
pub mod grow;
pub mod prune;
pub mod purge;
pub mod bulk;
pub mod convert;
pub mod query;
pub mod star;
pub mod walker;
pub mod tetrahedralize;
