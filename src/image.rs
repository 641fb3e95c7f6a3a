use vstd::prelude::*;
use capstone::Capstone;
use capstone::arch::{BuildsCapstone, BuildsCapstoneExtraMode};
use capstone::arch::riscv::{ArchMode, ArchExtraMode};
use object::{Object, ObjectSection};
use crate::index::{Instruction, InsnIndex};

verus! {

/// Why a program image gave no instruction index.
#[derive(Debug, Clone, Copy, PartialEq, Eq, Structural)]
pub enum ImageError {
    /// The bytes are no object file that `object` can read.
    Unparsable,
    /// The file is not built for 64-bit RISC-V.
    NotRiscV64,
    /// The file has no readable `.text` section.
    NoTextSection,
    /// The disassembler could not be set up or failed on the code.
    Disassembly,
}

/// An instruction as plain values: address, mnemonic, operand text, length.
pub open spec fn insn_view(i: Instruction) -> (u64, Seq<char>, Seq<char>, u64) {
    (i.address, i.mnemonic@, i.op_str@, i.len)
}

/// Whether `object` reads `image` as an object file.
pub uninterp spec fn object_parses(image: Seq<u8>) -> bool;

/// Whether `object` reports the architecture of `image` as 64-bit RISC-V.
pub uninterp spec fn object_is_riscv64(image: Seq<u8>) -> bool;

/// The entry address that `object` reads from `image`.
pub uninterp spec fn object_entry(image: Seq<u8>) -> u64;

/// The contents of the `.text` section that `object` reads from `image`.
pub uninterp spec fn object_text(image: Seq<u8>) -> Option<Seq<u8>>;

/// The instructions that capstone (64-bit RISC-V, compressed extension)
/// decodes from `code` placed at `base`, as plain values.
pub uninterp spec fn capstone_disassembly(code: Seq<u8>, base: u64) -> Option<
    Seq<(u64, Seq<char>, Seq<char>, u64)>,
>;

/// Relies on object::File::parse: whether the bytes parse as an object file.
#[verifier::external_body]
fn parse_ok(image: &[u8]) -> (r: bool)
    ensures
        r == object_parses(image@),
{
    object::File::parse(image).is_ok()
}

/// Relies on object::Object::architecture, on a file that object::File::parse read.
#[verifier::external_body]
fn is_riscv64(image: &[u8]) -> (r: bool)
    requires
        object_parses(image@),
    ensures
        r == object_is_riscv64(image@),
{
    match object::File::parse(image) {
        Ok(f) => f.architecture() == object::Architecture::Riscv64,
        Err(_) => false,
    }
}

/// Relies on object::Object::entry, on a file that object::File::parse read.
#[verifier::external_body]
fn entry_point(image: &[u8]) -> (r: u64)
    requires
        object_parses(image@),
    ensures
        r == object_entry(image@),
{
    match object::File::parse(image) {
        Ok(f) => f.entry(),
        Err(_) => 0,
    }
}

/// Relies on object::Object::section_by_name and object::ObjectSection::data:
/// the bytes of the `.text` section, where there is one and it can be read.
#[verifier::external_body]
fn text_section(image: &[u8]) -> (r: Option<Vec<u8>>)
    requires
        object_parses(image@),
    ensures
        r.is_some() == object_text(image@).is_some(),
        r.is_some() ==> r.unwrap()@ == object_text(image@).unwrap(),
{
    let f = object::File::parse(image).ok()?;
    let section = f.section_by_name(".text")?;
    section.data().ok().map(|d| d.to_vec())
}

/// Relies on capstone::Capstone::disasm_all, with a disassembler for 64-bit
/// RISC-V with compressed instructions: the instructions decoded from `code`
/// placed at `base`.
#[verifier::external_body]
fn disassemble(code: &[u8], base: u64) -> (r: Option<Vec<Instruction>>)
    ensures
        r.is_some() == capstone_disassembly(code@, base).is_some(),
        r.is_some() ==> r.unwrap()@.map_values(|i: Instruction| insn_view(i))
            == capstone_disassembly(code@, base).unwrap(),
{
    let cs = Capstone::new().riscv().mode(ArchMode::RiscV64).extra_mode(
        [ArchExtraMode::RiscVC].iter().copied(),
    ).detail(true).build().ok()?;
    let insns = cs.disasm_all(code, base).ok()?;
    Some(insns.iter().map(|i| Instruction {
        address: i.address(),
        mnemonic: String::from(i.mnemonic().unwrap_or("")),
        op_str: String::from(i.op_str().unwrap_or("")),
        len: i.len() as u64,
    }).collect())
}

/// Instructions filed by address: each address maps to the last instruction
/// of `s` that has it.
pub open spec fn index_model(s: Seq<(u64, Seq<char>, Seq<char>, u64)>) -> Map<
    u64,
    (u64, Seq<char>, Seq<char>, u64),
>
    decreases s.len(),
{
    if s.len() == 0 {
        Map::empty()
    } else {
        let later = index_model(s.drop_first());
        if later.contains_key(s[0].0) {
            later
        } else {
            later.insert(s[0].0, s[0])
        }
    }
}

/// Files every instruction of `insns` under its address; where two share an
/// address, the later one stays.
pub fn build_index(insns: Vec<Instruction>) -> (r: InsnIndex)
    ensures
        r@.map_values(|i: Instruction| insn_view(i)) == index_model(
            insns@.map_values(|i: Instruction| insn_view(i)),
        ),
{
    let ghost all = insns@;
    let ghost vs = all.map_values(|i: Instruction| insn_view(i));
    let ghost n = all.len() as int;
    let mut index = InsnIndex::new();
    let mut rest = insns;
    proof {
        assert(vs.subrange(n, n) =~= Seq::empty());
        assert(index@.map_values(|i: Instruction| insn_view(i)) =~= Map::empty());
    }
    while rest.len() > 0
        invariant
            rest@.len() <= n == all.len(),
            vs == all.map_values(|i: Instruction| insn_view(i)),
            rest@ == all.take(rest@.len() as int),
            index@.map_values(|i: Instruction| insn_view(i)) == index_model(
                vs.subrange(rest@.len() as int, n),
            ),
        decreases rest@.len(),
    {
        let ghost r = rest@.len() as int;
        let insn = rest.pop().unwrap();
        let ghost before = index@;
        proof {
            assert(insn == all[r - 1]);
            assert(rest@ =~= all.take(r - 1));
            assert(vs.subrange(r - 1, n).drop_first() =~= vs.subrange(r, n));
            assert(vs.subrange(r - 1, n)[0] == insn_view(insn));
        }
        if index.get(insn.address).is_none() {
            index.insert(insn);
            proof {
                assert(index@.map_values(|i: Instruction| insn_view(i)) =~= before.map_values(
                    |i: Instruction| insn_view(i),
                ).insert(insn.address, insn_view(insn)));
            }
        }
    }
    proof {
        assert(vs.subrange(0, n) =~= vs);
    }
    index
}

/// The instruction index of an executable image: the `.text` section
/// disassembled as if it started at the entry address.
pub fn load_image(image: &[u8]) -> (r: Result<InsnIndex, ImageError>)
    ensures
        !object_parses(image@) ==> r == Err::<InsnIndex, ImageError>(ImageError::Unparsable),
        object_parses(image@) && !object_is_riscv64(image@) ==> r == Err::<InsnIndex, ImageError>(
            ImageError::NotRiscV64,
        ),
        object_parses(image@) && object_is_riscv64(image@) && object_text(image@).is_none() ==> r
            == Err::<InsnIndex, ImageError>(ImageError::NoTextSection),
        object_parses(image@) && object_is_riscv64(image@) && object_text(image@).is_some() ==> ({
            let d = capstone_disassembly(object_text(image@).unwrap(), object_entry(image@));
            &&& d.is_none() ==> r == Err::<InsnIndex, ImageError>(ImageError::Disassembly)
            &&& d.is_some() ==> r.is_ok() && r.unwrap()@.map_values(|i: Instruction| insn_view(i))
                == index_model(d.unwrap())
        }),
{
    if !parse_ok(image) {
        return Err(ImageError::Unparsable);
    }
    if !is_riscv64(image) {
        return Err(ImageError::NotRiscV64);
    }
    let text = match text_section(image) {
        Some(t) => t,
        None => {
            return Err(ImageError::NoTextSection);
        },
    };
    let entry = entry_point(image);
    match disassemble(text.as_slice(), entry) {
        Some(insns) => Ok(build_index(insns)),
        None => Err(ImageError::Disassembly),
    }
}

} // verus!
