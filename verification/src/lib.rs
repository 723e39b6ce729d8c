//! Generator of stack-machine programs for arithmetic in the Mersenne-31
//! field. Each public function builds an instruction sequence; its contract
//! states exactly what executing that sequence does to any starting stack.

pub mod m31;
pub mod naf;
pub mod vm;
pub mod windowed;
