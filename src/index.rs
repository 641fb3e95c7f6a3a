use vstd::prelude::*;
use std::collections::HashMap;

verus! {

broadcast use vstd::std_specs::hash::group_hash_axioms;

/// One disassembled instruction of the program image.
pub struct Instruction {
    pub address: u64,
    pub mnemonic: String,
    pub op_str: String,
    /// Encoded length in bytes.
    pub len: u64,
}

/// The program image as a map from address to the instruction there.
pub struct InsnIndex {
    map: HashMap<u64, Instruction>,
}

impl View for InsnIndex {
    type V = Map<u64, Instruction>;

    closed spec fn view(&self) -> Map<u64, Instruction> {
        self.map@
    }
}

impl InsnIndex {
    /// An index with no instruction.
    pub fn new() -> (r: InsnIndex)
        ensures
            r@ == Map::<u64, Instruction>::empty(),
    {
        InsnIndex { map: HashMap::new() }
    }

    /// Files `insn` under its own address, in place of any instruction there.
    pub fn insert(&mut self, insn: Instruction)
        ensures
            final(self)@ == old(self)@.insert(insn.address, insn),
    {
        let a = insn.address;
        self.map.insert(a, insn);
    }

    /// The instruction at `address`, if the image has one there.
    pub fn get(&self, address: u64) -> (r: Option<&Instruction>)
        ensures
            r.is_some() == self@.contains_key(address),
            r.is_some() ==> *r.unwrap() == self@[address],
    {
        self.map.get(&address)
    }

    /// Number of instructions in the index.
    pub fn len(&self) -> (r: usize)
        ensures
            r == self@.len(),
    {
        self.map.len()
    }
}

} // verus!
