//! The trap frame and the dispatch decision. The assembly stub saves all
//! 31 general-purpose registers into this frame (stack pointer first, so
//! the fields can be addressed positionally) and hands it to the
//! language-level handler; the handler looks at `scause` and either
//! treats the trap as an environment call from user mode or declares it
//! fatal. Reading the CSRs and executing `sret` happen outside the
//! library; the decision is made here.

use vstd::prelude::*;

verus! {

/// The exception code of an environment call from U-mode.
pub const ECALL_SCAUSE_CODE: u64 = 8;

/// The registers the trap stub saves, in their ABI-fixed order.
#[derive(Clone, Copy, Debug)]
pub struct TrapFrame {
    pub sp: u64,
    pub a0: u64,
    pub a1: u64,
    pub a2: u64,
    pub a3: u64,
    pub a4: u64,
    pub a5: u64,
    pub a6: u64,
    pub a7: u64,
    pub t0: u64,
    pub t1: u64,
    pub t2: u64,
    pub t3: u64,
    pub t4: u64,
    pub t5: u64,
    pub s0: u64,
    pub s1: u64,
    pub s2: u64,
    pub s3: u64,
    pub s4: u64,
    pub s5: u64,
    pub s6: u64,
    pub s7: u64,
    pub s8: u64,
    pub s9: u64,
    pub s10: u64,
    pub s11: u64,
    pub ra: u64,
    pub tp: u64,
    pub gp: u64,
    pub t6: u64,
}

/// True when every register of `b` other than `a0` — the slot syscall
/// return values are written to — holds the same value as in `a`: what
/// the restore path needs so the user program resumes undisturbed.
pub open spec fn same_except_a0(a: TrapFrame, b: TrapFrame) -> bool {
    &&& b.sp == a.sp
    &&& b.a1 == a.a1 && b.a2 == a.a2 && b.a3 == a.a3 && b.a4 == a.a4 && b.a5 == a.a5 && b.a6
        == a.a6 && b.a7 == a.a7
    &&& b.t0 == a.t0 && b.t1 == a.t1 && b.t2 == a.t2 && b.t3 == a.t3 && b.t4 == a.t4 && b.t5
        == a.t5 && b.t6 == a.t6
    &&& b.s0 == a.s0 && b.s1 == a.s1 && b.s2 == a.s2 && b.s3 == a.s3 && b.s4 == a.s4 && b.s5
        == a.s5 && b.s6 == a.s6 && b.s7 == a.s7 && b.s8 == a.s8 && b.s9 == a.s9 && b.s10 == a.s10
        && b.s11 == a.s11
    &&& b.ra == a.ra && b.tp == a.tp && b.gp == a.gp
}

impl TrapFrame {
    /// A frame with every register zero, the shape of a freshly built
    /// user context before the entry point and stack are filled in.
    pub fn zeroed() -> (r: TrapFrame)
        ensures
            r.sp == 0,
            r.a0 == 0 && r.a1 == 0 && r.a2 == 0 && r.a3 == 0 && r.a4 == 0 && r.a5 == 0 && r.a6
                == 0 && r.a7 == 0,
            r.t0 == 0 && r.t1 == 0 && r.t2 == 0 && r.t3 == 0 && r.t4 == 0 && r.t5 == 0 && r.t6
                == 0,
            r.s0 == 0 && r.s1 == 0 && r.s2 == 0 && r.s3 == 0 && r.s4 == 0 && r.s5 == 0 && r.s6
                == 0 && r.s7 == 0 && r.s8 == 0 && r.s9 == 0 && r.s10 == 0 && r.s11 == 0,
            r.ra == 0 && r.tp == 0 && r.gp == 0,
    {
        TrapFrame {
            sp: 0, a0: 0, a1: 0, a2: 0, a3: 0, a4: 0, a5: 0, a6: 0, a7: 0,
            t0: 0, t1: 0, t2: 0, t3: 0, t4: 0, t5: 0,
            s0: 0, s1: 0, s2: 0, s3: 0, s4: 0, s5: 0, s6: 0, s7: 0, s8: 0, s9: 0, s10: 0, s11: 0,
            ra: 0, tp: 0, gp: 0, t6: 0,
        }
    }
}

/// The trap handler's dispatch decision: only a synchronous exception
/// whose cause code is the environment-call-from-U-mode code is a
/// system call; every other trap is fatal and shuts the machine down.
pub fn is_syscall_trap(is_exception: bool, code: u64) -> (r: bool)
    ensures
        r <==> (is_exception && code == ECALL_SCAUSE_CODE),
{
    is_exception && code == ECALL_SCAUSE_CODE
}

} // verus!
