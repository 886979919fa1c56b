//! Granularity transforms: every break shifted one rung up or down.
use vstd::prelude::*;
use crate::utf8::{bytes_of, bytes_of_str, lemma_ascii_substitution, string_of_bytes};

verus! {

/// A byte one rung up: line to scroll, scroll to section, ... shelf to library.
pub open spec fn expand_byte(b: u8) -> u8 {
    if b == 0x0A {
        0x17
    } else if b == 0x17 {
        0x18
    } else if b == 0x18 {
        0x19
    } else if b == 0x19 {
        0x1A
    } else if b == 0x1A {
        0x1C
    } else if b == 0x1C {
        0x1D
    } else if b == 0x1D {
        0x1E
    } else if b == 0x1E {
        0x1F
    } else if b == 0x1F {
        0x01
    } else {
        b
    }
}

/// A byte one rung down: library to shelf, ... section to scroll, scroll to line.
pub open spec fn contract_byte(b: u8) -> u8 {
    if b == 0x01 {
        0x1F
    } else if b == 0x1F {
        0x1E
    } else if b == 0x1E {
        0x1D
    } else if b == 0x1D {
        0x1C
    } else if b == 0x1C {
        0x1A
    } else if b == 0x1A {
        0x19
    } else if b == 0x19 {
        0x18
    } else if b == 0x18 {
        0x17
    } else if b == 0x17 {
        0x0A
    } else {
        b
    }
}

/// Each byte of `b` shifted one rung up.
pub open spec fn expand_spec(b: Seq<u8>) -> Seq<u8> {
    Seq::new(b.len(), |i: int| expand_byte(b[i]))
}

/// Each byte of `b` shifted one rung down.
pub open spec fn contract_spec(b: Seq<u8>) -> Seq<u8> {
    Seq::new(b.len(), |i: int| contract_byte(b[i]))
}

/// Maps every byte of `phext` one rung up or down.
fn remap(phext: &str, up: bool) -> (r: String)
    ensures
        bytes_of(r@) == if up {
            expand_spec(bytes_of(phext@))
        } else {
            contract_spec(bytes_of(phext@))
        },
{
    let buffer = bytes_of_str(phext);
    let ghost b = buffer@;
    let ghost target = if up {
        expand_spec(b)
    } else {
        contract_spec(b)
    };
    let max = buffer.len();
    let mut out: Vec<u8> = Vec::new();
    let mut p: usize = 0;
    while p < max
        invariant
            p <= max == b.len(),
            b == buffer@,
            target == (if up {
                expand_spec(b)
            } else {
                contract_spec(b)
            }),
            out@ == target.take(p as int),
        decreases max - p,
    {
        let x = buffer[p];
        let y = if up {
            match x {
                0x0A => 0x17,
                0x17 => 0x18,
                0x18 => 0x19,
                0x19 => 0x1A,
                0x1A => 0x1C,
                0x1C => 0x1D,
                0x1D => 0x1E,
                0x1E => 0x1F,
                0x1F => 0x01,
                _ => x,
            }
        } else {
            match x {
                0x01 => 0x1F,
                0x1F => 0x1E,
                0x1E => 0x1D,
                0x1D => 0x1C,
                0x1C => 0x1A,
                0x1A => 0x19,
                0x19 => 0x18,
                0x18 => 0x17,
                0x17 => 0x0A,
                _ => x,
            }
        };
        out.push(y);
        p += 1;
        assert(out@ =~= target.take(p as int));
    }
    proof {
        assert(out@ =~= target);
        lemma_ascii_substitution(b, target);
    }
    string_of_bytes(out)
}

/// Shifts every break one rung up; a library break stays a library break.
pub fn expand(phext: &str) -> (r: String)
    ensures
        bytes_of(r@) == expand_spec(bytes_of(phext@)),
{
    remap(phext, true)
}

/// Shifts every break one rung down; a scroll break becomes a line break and a line break
/// stays a line break.
pub fn contract(phext: &str) -> (r: String)
    ensures
        bytes_of(r@) == contract_spec(bytes_of(phext@)),
{
    remap(phext, false)
}

} // verus!
