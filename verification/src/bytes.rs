//! Words as the machine lays them out in memory.

use vstd::prelude::*;

verus! {

/// Byte `k` of `w`, counted from the least significant.
pub open spec fn byte_of(w: u32, k: int) -> u8 {
    if k == 0 {
        (w % 0x100) as u8
    } else if k == 1 {
        ((w / 0x100) % 0x100) as u8
    } else if k == 2 {
        ((w / 0x1_0000) % 0x100) as u8
    } else {
        (w / 0x100_0000) as u8
    }
}

/// The bytes of `words` in memory; the least significant byte of each word comes
/// first where `little`, last otherwise.
pub open spec fn laid_out(words: Seq<u32>, little: bool) -> Seq<u8> {
    Seq::new(
        4 * words.len(),
        |i: int|
            byte_of(
                words[i / 4],
                if little {
                    i % 4
                } else {
                    3 - i % 4
                },
            ),
    )
}

/// The bytes of `words` in memory, in one of the two byte orders that machines
/// have; the machine decides which.
pub open spec fn in_memory(words: Seq<u32>, bytes: Seq<u8>) -> bool {
    bytes == laid_out(words, true) || bytes == laid_out(words, false)
}

/// `bytemuck::cast_slice` from words to bytes: the same memory, byte by byte. Which
/// byte of a word comes first is the machine's byte order. Never panics: bytes
/// need no alignment and every word is four of them.
#[verifier::external_body]
fn cast_words(words: &[u32]) -> (bytes: &[u8])
    ensures
        in_memory(words@, bytes@),
{
    bytemuck::cast_slice(words)
}

/// A copy of the bytes of `words` in memory.
pub fn words_to_bytes(words: &[u32]) -> (bytes: Vec<u8>)
    ensures
        in_memory(words@, bytes@),
{
    let view = cast_words(words);
    let mut bytes: Vec<u8> = Vec::new();
    let mut i: usize = 0;
    while i < view.len()
        invariant
            i <= view@.len(),
            bytes@ == view@.take(i as int),
        decreases view.len() - i,
    {
        bytes.push(view[i]);
        i = i + 1;
        proof {
            assert(bytes@ =~= view@.take(i as int));
        }
    }
    proof {
        assert(view@.take(i as int) =~= view@);
    }
    bytes
}

/// The word that a machine reads at byte `at`; `little` where the first byte is the least
/// significant.
#[verifier::opaque]
pub open spec fn word_at(bytes: Seq<u8>, at: int, little: bool) -> int {
    if little {
        bytes[at] + 0x100 * bytes[at + 1] + 0x1_0000 * bytes[at + 2] + 0x100_0000 * bytes[at + 3]
    } else {
        bytes[at + 3] + 0x100 * bytes[at + 2] + 0x1_0000 * bytes[at + 1] + 0x100_0000 * bytes[at]
    }
}

/// Read word by word in one byte order, `bytes` gives `words`.
pub open spec fn reads_as(bytes: Seq<u8>, words: Seq<u32>, little: bool) -> bool {
    &&& bytes.len() == 4 * words.len()
    &&& forall|k: int|
        0 <= k < words.len() ==> #[trigger] words[k] == word_at(bytes, 4 * k, little)
}

/// Words written to memory are read back from it, by the machine that wrote them.
pub proof fn law_memory_reads_back(words: Seq<u32>, bytes: Seq<u8>)
    requires
        in_memory(words, bytes),
    ensures
        reads_as(bytes, words, true) || reads_as(bytes, words, false),
{
    reveal(word_at);
    let little = bytes == laid_out(words, true);
    assert forall|k: int| 0 <= k < words.len() implies #[trigger] words[k] == word_at(
        bytes,
        4 * k,
        little,
    ) by {
        let w = words[k];
        assert((4 * k) / 4 == k && (4 * k + 1) / 4 == k && (4 * k + 2) / 4 == k && (4 * k + 3) / 4
            == k);
        assert((4 * k) % 4 == 0 && (4 * k + 1) % 4 == 1 && (4 * k + 2) % 4 == 2 && (4 * k + 3) % 4
            == 3);
        assert(w == byte_of(w, 0) + 0x100 * byte_of(w, 1) + 0x1_0000 * byte_of(w, 2) + 0x100_0000
            * byte_of(w, 3));
    }
    assert(reads_as(bytes, words, little));
}

} // verus!
