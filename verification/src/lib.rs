//! Forth-style compiler and disassembler for the LiveCTF stack VM.
use vstd::prelude::*;

pub mod op;
pub mod text;
pub mod lexer;
pub mod fmt;
pub mod names;
pub mod encode;
pub mod model;
pub mod compiler;
pub mod disasm;
pub mod laws;

pub use compiler::Compiler;
pub use lexer::{parse_number, tokenize};
pub use model::DictEntry;

verus! {

/// First of the do/loop scratch slots: each nesting level keeps its index
/// at `DO_LOOP_BASE + 8 * depth` and its limit 4 bytes above.
pub const DO_LOOP_BASE: u32 = 0x7FD0;
/// How deeply `do` loops may nest within one word.
pub const DO_LOOP_MAX_DEPTH: usize = 4;
/// Where the prolog helper stashes the body's return address.
pub const PROLOG_SCRATCH_ADDR: u32 = 0x7FC8;
/// Where the current return-stack pointer lives.
pub const RSP_STORAGE_ADDR: u32 = 0x7FCC;
/// The return-stack pointer when the return stack is empty.
pub const RETSTACK_INITIAL: u32 = 0x7FC8;
/// Address of the shared prolog helper.
pub const PROLOG_HELPER_ADDR: u16 = 18;
/// Address of the shared epilog helper.
pub const EPILOG_HELPER_ADDR: u16 = 50;
/// Length of each word's prolog thunk.
pub const PROLOG_LEN: usize = 6;
/// Length of each word's epilog thunk.
pub const EPILOG_LEN: usize = 6;
/// Length of the bootstrap plus both helpers; user code starts here.
pub const PREAMBLE_LEN: usize = 70;
/// Highest legal end of code and data: the return stack grows down toward
/// this address at run time.
pub const MAX_CODE_END: usize = 0x7000;

/// The stack words every program gets: `swap nip tuck rot -rot 2dup 2drop`.
/// They keep temporaries in the scratch cells at `0x7FF0..0x7FFC`.
pub const PRELUDE: &'static str = "\\ Stack words built on the scratch cells at 0x7FF0..0x7FFC.
: swap  ( a b -- b a )      0x7FF0 ! 0x7FF4 ! 0x7FF0 @ 0x7FF4 @ ;
: nip   ( a b -- b )        0x7FF0 ! drop 0x7FF0 @ ;
: tuck  ( a b -- b a b )    swap over ;
: rot   ( a b c -- b c a )  0x7FF0 ! 0x7FF4 ! 0x7FF8 ! 0x7FF4 @ 0x7FF0 @ 0x7FF8 @ ;
: -rot  ( a b c -- c a b )  rot rot ;
: 2dup  ( a b -- a b a b )  over over ;
: 2drop ( a b -- )          drop drop ;
";


/// What compiling a whole program gives: the bytecode or an error message,
/// or `None` where the compiler cannot go on (see [`model::Outcome::Aborted`]).
/// The prelude is compiled first, then `src`, then the program is finalized.
pub open spec fn program_result(src: Seq<char>) -> Option<Result<Seq<u8>, Seq<char>>> {
    let (m1, o1) = model::initial_model().compile_source(PRELUDE@);
    match o1 {
        model::Outcome::Aborted => None,
        model::Outcome::Failed(e) => Some(Err("prelude: "@ + e)),
        model::Outcome::Done => {
            let (m2, o2) = m1.compile_source(src);
            match o2 {
                model::Outcome::Aborted => None,
                model::Outcome::Failed(e) => Some(Err(e)),
                model::Outcome::Done => {
                    let (m3, o3) = m2.finalize();
                    match o3 {
                        model::Outcome::Failed(e) => Some(Err(e)),
                        _ => Some(Ok(m3.code)),
                    }
                },
            }
        },
    }
}

/// Whether a program result agrees with the whole-program outcome `r`.
pub open spec fn program_matches(
    r: Option<Result<Seq<u8>, Seq<char>>>,
    res: Option<Result<Vec<u8>, String>>,
) -> bool {
    match (r, res) {
        (None, None) => true,
        (Some(Ok(code)), Some(Ok(b))) => b@ == code,
        (Some(Err(e)), Some(Err(m))) => m@ == e,
        _ => false,
    }
}

/// Compiles the prelude and `src` and finalizes, as [`compile_program`]
/// does, for every `src`: `None` where the compiler cannot go on (see
/// [`model::Outcome::Aborted`]).
pub fn try_compile_program(src: &str) -> (res: Option<Result<Vec<u8>, String>>)
    ensures
        program_matches(program_result(src@), res),
{
    let mut c = compiler::Compiler::new();
    match c.try_compile(PRELUDE) {
        Some(Ok(())) => {},
        Some(Err(e)) => {
            let mut msg = text::string_from("prelude: ");
            text::append_str(&mut msg, e.as_str());
            return Some(Err(msg));
        },
        None => {
            return None;
        },
    }
    match c.try_compile(src) {
        Some(Ok(())) => {},
        Some(Err(e)) => {
            return Some(Err(e));
        },
        None => {
            return None;
        },
    }
    match c.finalize() {
        Ok(()) => {},
        Err(e) => {
            return Some(Err(e));
        },
    }
    Some(Ok(c.into_bytes()))
}

/// Compiles the prelude and `src` and finalizes: the whole program's
/// bytecode, or the first error.
pub fn compile_program(src: &str) -> (res: Result<Vec<u8>, String>)
    requires
        program_result(src@) is Some,
    ensures
        program_matches(program_result(src@), Some(res)),
{
    match try_compile_program(src) {
        Some(r) => r,
        None => {
            proof {
                assert(false);
            }
            Err(text::string_from(""))
        },
    }
}

} // verus!
