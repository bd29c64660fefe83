//! References to the static dictionary: a distance beyond the window
//! stands for a word of the dictionary and a transform of it.
//!
//! The words and the list of transforms are tables that the format fixes.
//! They are handed to the decoder as values; what this module holds is how
//! a reference is taken apart, how a word is found, and what a transform
//! does to it.

use vstd::prelude::*;
use crate::bits::{exp2, lemma_exp2_monotone, lemma_exp2_table, lemma_exp2_values};
use crate::complex::power_of_two;
use crate::error::DecompressorError;

verus! {

/// What a transform does to the word itself.
#[derive(Debug, Clone, Copy, PartialEq, Eq, Structural)]
pub enum TransformKind {
    /// The word as it is.
    Identity,
    /// The first letter of the word as a capital.
    UppercaseFirst,
    /// Every letter of the word as a capital.
    UppercaseAll,
    /// The word without its first bytes, as many as the number says.
    OmitFirst(u8),
    /// The word without its last bytes, as many as the number says.
    OmitLast(u8),
}

/// A transform: the bytes that come before the word, what happens to the
/// word, and the bytes that come after it.
#[derive(Debug, PartialEq)]
pub struct Transform {
    pub prefix: Vec<u8>,
    pub kind: TransformKind,
    pub suffix: Vec<u8>,
}

/// The number of bits of a word's index, for each word length from 0 to
/// 24. No word is shorter than 4 bytes.
pub open spec fn index_bits() -> Seq<u8> {
    seq![0u8, 0, 0, 0, 10, 10, 11, 11, 10, 10, 10, 10, 10, 9, 9, 8, 7, 7, 8, 7, 7, 6, 6, 5, 5]
}

/// The least length of a word.
pub const MIN_WORD_LENGTH: u32 = 4;

/// The greatest length of a word.
pub const MAX_WORD_LENGTH: u32 = 24;

/// The place in the dictionary where the words of `length` bytes start:
/// behind the words of every smaller length, of which there are two to the
/// power of their index bits each.
pub open spec fn words_offset(length: nat) -> nat
    decreases length,
{
    if length <= 4 {
        0
    } else {
        (words_offset((length - 1) as nat) + (length - 1) * exp2(
            index_bits()[length - 1] as nat,
        )) as nat
    }
}

/// What the letter at `i` and the bytes behind it become when the letter
/// is made a capital, and how many bytes the letter takes. A byte below
/// 192 is a letter of one byte, and changes if it lies between `a` and
/// `z`. A byte below 224 starts a letter of two bytes, of which the second
/// changes; any other byte starts a letter of three, of which the third
/// changes. A byte that the word does not have does not change.
pub open spec fn upper_step(word: Seq<u8>, i: int) -> (Seq<u8>, int) {
    if word[i] < 192 {
        if 97 <= word[i] <= 122 {
            (word.update(i, word[i] ^ 32), 1)
        } else {
            (word, 1)
        }
    } else if word[i] < 224 {
        if i + 1 < word.len() {
            (word.update(i + 1, word[i + 1] ^ 32), 2)
        } else {
            (word, 2)
        }
    } else {
        if i + 2 < word.len() {
            (word.update(i + 2, word[i + 2] ^ 5), 3)
        } else {
            (word, 3)
        }
    }
}

/// The word with its first letter as a capital.
pub open spec fn uppercase_first(word: Seq<u8>) -> Seq<u8> {
    if word.len() == 0 {
        word
    } else {
        upper_step(word, 0).0
    }
}

/// The word with every letter from byte `i` on as a capital.
pub open spec fn uppercase_all(word: Seq<u8>, i: int) -> Seq<u8>
    decreases word.len() - i,
{
    if i < 0 || i >= word.len() {
        word
    } else {
        proof {
            assert(upper_step(word, i).0.len() == word.len());
            assert(upper_step(word, i).1 >= 1);
        }
        let next = i + upper_step(word, i).1;
        uppercase_all(
            upper_step(word, i).0,
            if next > word.len() {
                word.len() as int
            } else {
                next
            },
        )
    }
}

/// What a transform's kind makes of the word.
pub open spec fn changed_word(word: Seq<u8>, kind: TransformKind) -> Seq<u8> {
    match kind {
        TransformKind::Identity => word,
        TransformKind::UppercaseFirst => uppercase_first(word),
        TransformKind::UppercaseAll => uppercase_all(word, 0),
        TransformKind::OmitFirst(n) => if n as nat >= word.len() {
            Seq::empty()
        } else {
            word.skip(n as int)
        },
        TransformKind::OmitLast(n) => if n as nat >= word.len() {
            Seq::empty()
        } else {
            word.take(word.len() - n)
        },
    }
}

/// What a transform makes of the word.
pub open spec fn transformed(word: Seq<u8>, transform: Transform) -> Seq<u8> {
    transform.prefix@ + changed_word(word, transform.kind) + transform.suffix@
}

/// The bytes that a reference to the dictionary stands for. `word_id` is
/// how far the distance lies beyond the greatest distance into the window,
/// less 1. Its lowest bits, as many as the word length has index bits, are
/// the index of the word, and the bits above them the number of the
/// transform. The word length lies between 4 and 24, and the word and the
/// transform exist.
pub open spec fn dictionary_word(words: Seq<u8>, transforms: Seq<Transform>, copy_length: u32, word_id: nat) -> Result<
    Seq<u8>,
    DecompressorError,
> {
    if copy_length < MIN_WORD_LENGTH || copy_length > MAX_WORD_LENGTH {
        Err(DecompressorError::InvalidDictionaryRef)
    } else {
        let n_words = exp2(index_bits()[copy_length as int] as nat);
        let index = word_id % n_words;
        let transform = word_id / n_words;
        let start = words_offset(copy_length as nat) + index * copy_length;
        if transform >= transforms.len() || start + copy_length > words.len() {
            Err(DecompressorError::InvalidDictionaryRef)
        } else {
            Ok(transformed(words.subrange(start as int, start + copy_length), transforms[transform as int]))
        }
    }
}

/// The static dictionary and the list of transforms.
pub struct Dictionary {
    words: Vec<u8>,
    transforms: Vec<Transform>,
    bits: Vec<u8>,
    offsets: Vec<usize>,
}

/// Makes the letter at `i` a capital and gives the number of bytes that
/// the letter takes.
fn to_upper_at(word: &mut Vec<u8>, i: usize) -> (step: usize)
    requires
        i < old(word)@.len(),
    ensures
        final(word)@ == upper_step(old(word)@, i as int).0,
        step == upper_step(old(word)@, i as int).1,
        final(word)@.len() == old(word)@.len(),
        1 <= step <= 3,
{
    let first = word[i];
    let left = word.len() - i;
    if first < 192 {
        if 97 <= first && first <= 122 {
            word.set(i, first ^ 32);
        }
        1
    } else if first < 224 {
        if left > 1 {
            let b = word[i + 1];
            word.set(i + 1, b ^ 32);
        }
        2
    } else {
        if left > 2 {
            let b = word[i + 2];
            word.set(i + 2, b ^ 5);
        }
        3
    }
}

/// Appends the bytes of `from` from `start` up to `end`.
fn push_range(out: &mut Vec<u8>, from: &Vec<u8>, start: usize, end: usize)
    requires
        start <= end <= from@.len(),
    ensures
        final(out)@ == old(out)@ + from@.subrange(start as int, end as int),
{
    let mut k: usize = start;
    assert(out@ =~= old(out)@ + from@.subrange(start as int, k as int));
    while k < end
        invariant
            start <= k <= end <= from@.len(),
            out@ == old(out)@ + from@.subrange(start as int, k as int),
        decreases end - k,
    {
        out.push(from[k]);
        k = k + 1;
        assert(out@ =~= old(out)@ + from@.subrange(start as int, k as int));
    }
}

/// Applies a transform to the word that stands in `words` from `start` on
/// and is `length` bytes long.
pub fn apply_transform(words: &Vec<u8>, start: usize, length: usize, transform: &Transform) -> (out: Vec<u8>)
    requires
        start + length <= words@.len(),
    ensures
        out@ == transformed(words@.subrange(start as int, start + length), *transform),
{
    let ghost word = words@.subrange(start as int, start + length);
    let total = words.len();
    let mut out: Vec<u8> = Vec::new();
    push_range(&mut out, &transform.prefix, 0, transform.prefix.len());
    assert(out@ =~= transform.prefix@);
    let mut changed: Vec<u8> = Vec::new();
    match transform.kind {
        TransformKind::Identity => {
            push_range(&mut changed, words, start, start + length);
        },
        TransformKind::UppercaseFirst => {
            push_range(&mut changed, words, start, start + length);
            if length > 0 {
                let _ = to_upper_at(&mut changed, 0);
            }
        },
        TransformKind::UppercaseAll => {
            push_range(&mut changed, words, start, start + length);
            assert(changed@ =~= word);
            let mut i: usize = 0;
            while i < changed.len()
                invariant
                    changed@.len() == length,
                    i <= length,
                    uppercase_all(word, 0) == uppercase_all(changed@, i as int),
                decreases changed@.len() - i,
            {
                let step = to_upper_at(&mut changed, i);
                i = if step >= length - i {
                    length
                } else {
                    i + step
                };
            }
        },
        TransformKind::OmitFirst(n) => {
            if (n as usize) < length {
                push_range(&mut changed, words, start + n as usize, start + length);
                assert(changed@ =~= word.skip(n as int));
            }
        },
        TransformKind::OmitLast(n) => {
            if (n as usize) < length {
                push_range(&mut changed, words, start, start + length - n as usize);
                assert(changed@ =~= word.take(length - n));
            }
        },
    }
    assert(changed@ =~= changed_word(word, transform.kind));
    let n = changed.len();
    push_range(&mut out, &changed, 0, n);
    push_range(&mut out, &transform.suffix, 0, transform.suffix.len());
    assert(out@ =~= transformed(word, *transform));
    out
}

impl Dictionary {
    /// The words of the dictionary, one behind the other.
    pub closed spec fn words(&self) -> Seq<u8> {
        self.words@
    }

    /// The list of transforms.
    pub closed spec fn transforms(&self) -> Seq<Transform> {
        self.transforms@
    }

    /// The tables of index bits and of offsets are those of the format.
    pub closed spec fn wf(&self) -> bool {
        &&& self.bits@ == index_bits()
        &&& self.offsets@.len() == 25
        &&& forall|l: int| 0 <= l <= 24 ==> #[trigger] self.offsets@[l] == words_offset(l as nat)
    }

    /// A dictionary of the words `words` and the transforms `transforms`.
    pub fn new(words: Vec<u8>, transforms: Vec<Transform>) -> (dictionary: Dictionary)
        ensures
            dictionary.wf(),
            dictionary.words() == words@,
            dictionary.transforms() == transforms@,
    {
        let mut bits: Vec<u8> = Vec::new();
        bits.push(0);
        bits.push(0);
        bits.push(0);
        bits.push(0);
        bits.push(10);
        bits.push(10);
        bits.push(11);
        bits.push(11);
        bits.push(10);
        bits.push(10);
        bits.push(10);
        bits.push(10);
        bits.push(10);
        bits.push(9);
        bits.push(9);
        bits.push(8);
        bits.push(7);
        bits.push(7);
        bits.push(8);
        bits.push(7);
        bits.push(7);
        bits.push(6);
        bits.push(6);
        bits.push(5);
        bits.push(5);
        assert(bits@ =~= index_bits());
        let mut offsets: Vec<usize> = Vec::new();
        offsets.push(0);
        offsets.push(0);
        offsets.push(0);
        offsets.push(0);
        offsets.push(0);
        let mut l: usize = 5;
        while l <= 24
            invariant
                5 <= l <= 25,
                bits@ == index_bits(),
                offsets@.len() == l,
                forall|j: int| 0 <= j < l ==> #[trigger] offsets@[j] == words_offset(j as nat),
                offsets@[l - 1] <= (l - 1) * 0x1_0000,
            decreases 25 - l,
        {
            let width = bits[l - 1];
            let count = power_of_two(width);
            proof {
                lemma_exp2_monotone(width as nat, 11);
                lemma_exp2_2048();
            }
            assert((l - 1) * count <= 0x1_0000) by (nonlinear_arith)
                requires
                    l <= 25,
                    count <= 2048,
            ;
            let next = offsets[l - 1] + (l - 1) * count as usize;
            offsets.push(next);
            l = l + 1;
        }
        Dictionary { words, transforms, bits, offsets }
    }

    /// Gives the bytes that a reference to the dictionary stands for.
    pub fn lookup(&self, copy_length: u32, word_id: u32) -> (r: Result<Vec<u8>, DecompressorError>)
        requires
            self.wf(),
        ensures
            match dictionary_word(self.words(), self.transforms(), copy_length, word_id as nat) {
                Ok(word) => r is Ok && r->Ok_0@ == word,
                Err(e) => r matches Err(x) && x == e,
            },
    {
        if copy_length < MIN_WORD_LENGTH || copy_length > MAX_WORD_LENGTH {
            return Err(DecompressorError::InvalidDictionaryRef);
        }
        let length = copy_length as usize;
        let width = self.bits[length];
        let n_words = power_of_two(width);
        let index = (word_id % n_words) as usize;
        let transform = (word_id / n_words) as usize;
        proof {
            lemma_exp2_monotone(width as nat, 11);
            lemma_exp2_2048();
            lemma_words_offset_bound(length as nat);
        }
        assert(index * length <= 2048 * 24) by (nonlinear_arith)
            requires
                index < 2048,
                length <= 24,
        ;
        let start = self.offsets[length] + index * length;
        if transform >= self.transforms.len() || start + length > self.words.len() {
            return Err(DecompressorError::InvalidDictionaryRef);
        }
        Ok(apply_transform(&self.words, start, length, &self.transforms[transform]))
    }
}

/// Two to the power of 11.
pub proof fn lemma_exp2_2048()
    ensures
        exp2(11) == 2048,
{
    lemma_exp2_table();
    assert(exp2(11) == 8 * exp2(8)) by {
        reveal_with_fuel(exp2, 4);
    }
}

/// The words of a length start within the first 122784 bytes.
pub proof fn lemma_words_offset_bound(length: nat)
    requires
        length <= 24,
    ensures
        words_offset(length) <= length * 0x1_0000,
    decreases length,
{
    if length > 4 {
        lemma_words_offset_bound((length - 1) as nat);
        let width = index_bits()[length - 1] as nat;
        lemma_exp2_monotone(width, 11);
        lemma_exp2_2048();
        let count = exp2(width);
        assert((length - 1) * count <= 0x1_0000) by (nonlinear_arith)
            requires
                length <= 25,
                count <= 2048,
        ;
    }
}

} // verus!
