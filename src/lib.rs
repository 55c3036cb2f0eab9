//! Reading the dependency manifests that CMake writes as `compiler_depend.make`.

pub mod compiler_depend;
pub mod laws;
pub mod wildcards;
