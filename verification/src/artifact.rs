//! Built-in contract artifact: the minimal EVM constructor bytecode that the
//! deployment front end submits when no compiled artifact is supplied.

use vstd::prelude::*;

verus! {

/// The exact bytes of the built-in minimal constructor bytecode.
pub open spec fn minimal_bytecode() -> Seq<u8> {
    seq![0x60u8, 0x80u8, 0x60u8, 0x40u8, 0x52u8]
}

/// Returns the built-in minimal constructor bytecode.
pub fn load_contract_bytecode() -> (r: Vec<u8>)
    ensures
        r@ == minimal_bytecode(),
{
    let mut v: Vec<u8> = Vec::new();
    v.push(0x60);
    v.push(0x80);
    v.push(0x60);
    v.push(0x40);
    v.push(0x52);
    proof {
        assert(v@ =~= minimal_bytecode());
    }
    v
}

} // verus!
