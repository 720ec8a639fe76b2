pub mod bigint;
pub mod completeness_laws;
pub mod convolution;
pub mod euclid;
pub mod felt;
pub mod inverse;
pub mod keygen;
pub mod keygen_laws;
pub mod ntru;
pub mod ntru_laws;
pub mod polynomial;
pub mod ring;
pub mod size;
pub mod transform_laws;
