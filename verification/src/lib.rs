//! A field-element multiplexer ("case/switch") gadget for arithmetic-circuit
//! based proof systems.
//!
//! Given a runtime selector value and an ordered list of (key, value) clauses
//! plus a default, the gadget appends to a rank-one constraint system a
//! sub-circuit whose output is the value of the clause whose key equals the
//! selector, or the default if no key matches.
//!
//! The field is modelled as the residues `0 <= x < p` of a caller-chosen
//! modulus `p`; the accumulator-product match technique is correct only when
//! that modulus has no zero divisors (an integral domain, i.e. a prime), which
//! is a precondition on the chosen field, not an implementation detail.

pub mod case;
pub mod field;
pub mod laws;
pub mod r1cs;
