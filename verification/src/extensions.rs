//! Markers for the instruction-set extensions whose chips feed this
//! memory subsystem. The extension wiring itself — chip inventories over
//! the prover backend — carries no memory logic and lives with the
//! prover; the markers identify the extensions a segment was run with.

use vstd::prelude::*;

verus! {

/// Marker for the base RV32IM instruction set's prover extension.
pub struct Rv32ImHipProverExt;

/// Marker for the native field-arithmetic instruction set's prover
/// extension.
pub struct NativeHipProverExt;

} // verus!
