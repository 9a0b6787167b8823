//! Exception-vector table model.
//!
//! The kernel installs one handler per documented hardware exception vector
//! before any other code runs, and never uninstalls any: the table is armed
//! once and stays armed. Every handler's decision is the same — capture the
//! hardware-pushed error code where the vector has one, and halt with a
//! diagnostic identifying the vector. The outcome type has no resuming
//! variant, so the fail-stop policy is visible at the type level; the
//! register writes that load the table, and the halt itself, are hardware
//! work outside this model.

use vstd::prelude::*;

verus! {

/// The documented exception vectors the table installs a handler for:
/// divide error, debug, non-maskable interrupt, breakpoint, overflow,
/// bound range, invalid opcode, device not available, double fault,
/// invalid TSS, segment not present, stack-segment fault, general
/// protection, page fault, x87 floating point, alignment check, machine
/// check, SIMD floating point, virtualization, control protection,
/// hypervisor injection, VMM communication, and security exception.
pub open spec fn is_fault_vector(v: u8) -> bool {
    ||| v == 0
    ||| v == 1
    ||| v == 2
    ||| v == 3
    ||| v == 4
    ||| v == 5
    ||| v == 6
    ||| v == 7
    ||| v == 8
    ||| v == 10
    ||| v == 11
    ||| v == 12
    ||| v == 13
    ||| v == 14
    ||| v == 16
    ||| v == 17
    ||| v == 18
    ||| v == 19
    ||| v == 20
    ||| v == 21
    ||| v == 28
    ||| v == 29
    ||| v == 30
}

/// The vectors for which the hardware pushes an error code onto the stack.
pub open spec fn vector_pushes_error_code(v: u8) -> bool {
    ||| v == 8
    ||| v == 10
    ||| v == 11
    ||| v == 12
    ||| v == 13
    ||| v == 14
    ||| v == 17
    ||| v == 21
    ||| v == 29
    ||| v == 30
}

/// The vectors from which the hardware guarantees no safe resumption —
/// double fault and machine check — whose handlers never return even at
/// the type level.
pub open spec fn is_abort_vector(v: u8) -> bool {
    v == 8 || v == 18
}

/// Whether the table has a handler installed for `v`.
pub fn vector_has_handler(v: u8) -> (r: bool)
    ensures
        r == is_fault_vector(v),
{
    v == 0 || v == 1 || v == 2 || v == 3 || v == 4 || v == 5 || v == 6 || v == 7 || v == 8
        || v == 10 || v == 11 || v == 12 || v == 13 || v == 14 || v == 16 || v == 17 || v == 18
        || v == 19 || v == 20 || v == 21 || v == 28 || v == 29 || v == 30
}

/// Whether `v`'s handler receives a hardware-pushed error code.
pub fn pushes_error_code(v: u8) -> (r: bool)
    ensures
        r == vector_pushes_error_code(v),
{
    v == 8 || v == 10 || v == 11 || v == 12 || v == 13 || v == 14 || v == 17 || v == 21
        || v == 29 || v == 30
}

/// Whether `v`'s handler is non-returning by hardware guarantee.
pub fn is_abort(v: u8) -> (r: bool)
    ensures
        r == is_abort_vector(v),
{
    v == 8 || v == 18
}

/// What a handler reports before the system halts: the faulting vector,
/// and the hardware's error code exactly when the vector pushes one.
pub struct FaultDiagnostic {
    pub vector: u8,
    pub error_code: Option<u64>,
}

/// The one possible effect of any installed handler: a deterministic halt
/// carrying a diagnostic. There is no variant that resumes.
pub enum FaultOutcome {
    Halt(FaultDiagnostic),
}

/// The decision every handler takes for its vector.
pub open spec fn handler_outcome(vector: u8, error_code: u64) -> FaultOutcome {
    FaultOutcome::Halt(
        FaultDiagnostic {
            vector: vector,
            error_code: if vector_pushes_error_code(vector) {
                Some(error_code)
            } else {
                None
            },
        },
    )
}

/// Turns a trap into its handler's decision. `error_code` is whatever the
/// hardware pushed; it is kept exactly for the vectors that push one.
pub fn handle_fault(vector: u8, error_code: u64) -> (r: FaultOutcome)
    requires
        is_fault_vector(vector),
    ensures
        r == handler_outcome(vector, error_code),
{
    if pushes_error_code(vector) {
        FaultOutcome::Halt(FaultDiagnostic { vector, error_code: Some(error_code) })
    } else {
        FaultOutcome::Halt(FaultDiagnostic { vector, error_code: None })
    }
}

/// Law: no fault is ignored or resumed. Every documented vector's handler
/// halts — the only outcome there is — with a diagnostic naming exactly
/// that vector, and carries the hardware's error code exactly when the
/// vector pushes one.
pub proof fn lemma_every_fault_halts(vector: u8, error_code: u64)
    requires
        is_fault_vector(vector),
    ensures
        handler_outcome(vector, error_code) matches FaultOutcome::Halt(d) && d.vector == vector
            && (d.error_code is Some <==> vector_pushes_error_code(vector)),
{
}

} // verus!
