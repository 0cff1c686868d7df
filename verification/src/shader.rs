//! Shader modules as words.

use vstd::prelude::*;

use crate::compute;
use crate::compute::EngineError;

verus! {

/// First word of every SPIR-V module.
pub const SPIRV_MAGIC: u32 = 0x0723_0203;

/// Word `i` of `bytes`, its least significant byte first where `little`.
pub open spec fn word_at(bytes: Seq<u8>, i: int, little: bool) -> u32 {
    let a = bytes[4 * i] as int;
    let b = bytes[4 * i + 1] as int;
    let c = bytes[4 * i + 2] as int;
    let d = bytes[4 * i + 3] as int;
    if little {
        (a + 0x100 * b + 0x1_0000 * c + 0x100_0000 * d) as u32
    } else {
        (d + 0x100 * c + 0x1_0000 * b + 0x100_0000 * a) as u32
    }
}

/// All words of `bytes`.
pub open spec fn words(bytes: Seq<u8>, little: bool) -> Seq<u32> {
    Seq::new((bytes.len() / 4) as nat, |i: int| word_at(bytes, i, little))
}

/// `bytes` are whole words and start with the magic number in that byte order.
pub open spec fn is_module(bytes: Seq<u8>, little: bool) -> bool {
    bytes.len() % 4 == 0 && bytes.len() > 0 && word_at(bytes, 0, little) == SPIRV_MAGIC
}

/// What `std` reports of a failed read.
#[verifier::external_type_specification]
#[verifier::external_body]
pub struct ExIoError(std::io::Error);

/// `ash::util::read_spv` over a byte slice: the module's words, from whichever
/// byte order puts the magic number first; an error when the length is no multiple
/// of four, or neither order does.
#[verifier::external_body]
fn read_spv(bytes: &[u8]) -> (r: Result<Vec<u32>, std::io::Error>)
    ensures
        match r {
            Ok(w) => (is_module(bytes@, true) && w@ == words(bytes@, true)) || (is_module(
                bytes@,
                false,
            ) && w@ == words(bytes@, false)),
            Err(_) => !is_module(bytes@, true) && !is_module(bytes@, false),
        },
{
    ash::util::read_spv(&mut std::io::Cursor::new(bytes))
}

/// A name without a NUL character.
pub open spec fn is_entry_name(name: Seq<char>) -> bool {
    forall|i: int| 0 <= i < name.len() ==> #[trigger] name[i] != '\0'
}

/// The words of a kind's module.
pub fn shader_words(spirv: &[u8]) -> (r: Result<Vec<u32>, EngineError>)
    ensures
        !is_module(spirv@, true) && !is_module(spirv@, false) ==> compute::refused_part(
            r,
            "spirv"@,
        ),
        is_module(spirv@, true) ==> (r matches Ok(w) && w@ == words(spirv@, true)),
        is_module(spirv@, false) ==> (r matches Ok(w) && w@ == words(spirv@, false)),
{
    proof {
        law_one_byte_order(spirv@);
    }
    match read_spv(spirv) {
        Ok(w) => Ok(w),
        Err(_) => Err(EngineError::Invalid("spirv")),
    }
}

/// The entry point can be named.
pub fn entry_name(entry: &str) -> (r: Result<(), EngineError>)
    ensures
        is_entry_name(entry@) ==> r is Ok,
        !is_entry_name(entry@) ==> compute::refused_part(r, "entry"@),
{
    let n: usize = entry.unicode_len();
    let mut i: usize = 0;
    while i < n
        invariant
            n == entry@.len(),
            i <= n,
            forall|k: int| 0 <= k < i ==> #[trigger] entry@[k] != '\0',
        decreases n - i,
    {
        if entry.get_char(i) == '\0' {
            return Err(EngineError::Invalid("entry"));
        }
        i = i + 1;
    }
    Ok(())
}

/// A module has the magic number in one byte order only.
pub proof fn law_one_byte_order(bytes: Seq<u8>)
    ensures
        !(is_module(bytes, true) && is_module(bytes, false)),
{
}

/// A module is known by its first four bytes, in the one order or the other, and is made of
/// whole words.
pub proof fn law_a_module_starts_with_its_magic(bytes: Seq<u8>, little: bool)
    ensures
        is_module(bytes, little) <==> {
            &&& bytes.len() >= 4
            &&& bytes.len() % 4 == 0
            &&& bytes[0] == if little { 0x03u8 } else { 0x07u8 }
            &&& bytes[1] == if little { 0x02u8 } else { 0x23u8 }
            &&& bytes[2] == if little { 0x23u8 } else { 0x02u8 }
            &&& bytes[3] == if little { 0x07u8 } else { 0x03u8 }
        },
{
}

} // verus!
