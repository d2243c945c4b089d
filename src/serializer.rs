use vstd::prelude::*;
use vstd::string::StringSliceAdditionalSpecFns;

verus! {

/// Why a value could not be written as words.
#[derive(Clone, Copy, Debug, PartialEq, Eq, Structural)]
pub enum SerError {
    /// A sequence or map without a known length.
    NotSupported,
    /// A length that does not fit in a word.
    TooLong,
}

/// The little-endian word of bytes `4 * i ..` of `b`, padded with zeros past its end.
pub open spec fn padded_word(b: Seq<u8>, i: int) -> u32 {
    let at = |k: int| if 4 * i + k < b.len() { b[4 * i + k] as u32 } else { 0u32 };
    at(0) | (at(1) << 8) | (at(2) << 16) | (at(3) << 24)
}

/// The bytes `b` as little-endian words, the last one padded with zeros.
pub open spec fn padded_words(b: Seq<u8>) -> Seq<u32> {
    Seq::new(((b.len() + 3) / 4) as nat, |i: int| padded_word(b, i))
}

/// A writer for streams that prefer words.
pub trait WordWrite {
    /// The words written so far.
    spec fn words(&self) -> Seq<u32>;

    /// Writes the given words.
    fn write_words(&mut self, words: &[u32]) -> (r: Result<(), SerError>)
        ensures
            r.is_ok() ==> final(self).words() == old(self).words() + words@,
    ;

    /// Writes the given bytes, padded with zeros up to the next word boundary.
    fn write_padded_bytes(&mut self, bytes: &[u8]) -> (r: Result<(), SerError>)
        ensures
            r.is_ok() ==> final(self).words() == old(self).words() + padded_words(bytes@),
    ;
}

impl WordWrite for Vec<u32> {
    open spec fn words(&self) -> Seq<u32> {
        self@
    }

    fn write_words(&mut self, words: &[u32]) -> (r: Result<(), SerError>) {
        let mut i: usize = 0;
        while i < words.len()
            invariant
                i <= words.len(),
                self@ == old(self)@ + words@.take(i as int),
            decreases words.len() - i,
        {
            self.push(words[i]);
            proof {
                assert(words@.take(i + 1) == words@.take(i as int).push(words@[i as int]));
            }
            i += 1;
        }
        assert(words@.take(words.len() as int) == words@);
        Ok(())
    }

    fn write_padded_bytes(&mut self, bytes: &[u8]) -> (r: Result<(), SerError>) {
        let n = (bytes.len() / 4) + if bytes.len() % 4 != 0 {
            1usize
        } else {
            0usize
        };
        let mut i: usize = 0;
        while i < n
            invariant
                i <= n,
                n == (bytes@.len() + 3) / 4,
                self@ == old(self)@ + padded_words(bytes@).take(i as int),
            decreases n - i,
        {
            let w = padded_word_at(bytes, i);
            self.push(w);
            proof {
                assert(padded_words(bytes@).take(i + 1) == padded_words(bytes@).take(i as int).push(
                    w,
                ));
            }
            i += 1;
        }
        assert(padded_words(bytes@).take(n as int) == padded_words(bytes@));
        Ok(())
    }
}

/// Word `i` of `bytes` in little-endian order, padded with zeros.
fn padded_word_at(bytes: &[u8], i: usize) -> (r: u32)
    requires
        i < (bytes@.len() + 3) / 4,
    ensures
        r == padded_word(bytes@, i as int),
{
    let mut w: u32 = 0;
    let mut k: usize = 0;
    let mut parts: [u32; 4] = [0u32; 4];
    let blen = bytes.len();
    proof {
        let ii = i as int;
        let n = blen as int;
        assert(4 * ii < n) by (nonlinear_arith)
            requires
                ii < (n + 3) / 4,
                ii >= 0,
        ;
    }
    let base = 4 * i;
    while k < 4
        invariant
            k <= 4,
            base == 4 * i,
            base < bytes@.len(),
            forall|j: int| k <= j < 4 ==> parts[j] == 0,
            forall|j: int|
                0 <= j < k ==> parts[j] == if 4 * i + j < bytes@.len() {
                    bytes@[4 * i + j] as u32
                } else {
                    0u32
                },
        decreases 4 - k,
    {
        if k < bytes.len() - base {
            parts[k] = bytes[base + k] as u32;
        }
        k += 1;
    }
    w = parts[0] | (parts[1] << 8) | (parts[2] << 16) | (parts[3] << 24);
    w
}

/// Writes values to a word stream.
pub struct Serializer<W: WordWrite> {
    pub stream: W,
}

impl<W: WordWrite> Serializer<W> {
    /// A serializer that writes to `stream`.
    pub fn new(stream: W) -> (r: Self)
        ensures
            r.stream == stream,
    {
        Serializer { stream }
    }

    /// The words written so far.
    pub open spec fn words(&self) -> Seq<u32> {
        self.stream.words()
    }

    /// One word.
    pub fn serialize_u32(&mut self, v: u32) -> (r: Result<(), SerError>)
        ensures
            r.is_ok() ==> final(self).words() == old(self).words().push(v),
    {
        let one: [u32; 1] = [v];
        let r = self.stream.write_words(one.as_slice());
        proof {
            assert(one@ == seq![v]);
            assert(old(self).words() + seq![v] == old(self).words().push(v));
        }
        r
    }

    pub fn serialize_bool(&mut self, v: bool) -> (r: Result<(), SerError>)
        ensures
            r.is_ok() ==> final(self).words() == old(self).words().push(if v { 1u32 } else { 0u32 }),
    {
        self.serialize_u32(if v { 1 } else { 0 })
    }

    pub fn serialize_u8(&mut self, v: u8) -> (r: Result<(), SerError>)
        ensures
            r.is_ok() ==> final(self).words() == old(self).words().push(v as u32),
    {
        self.serialize_u32(v as u32)
    }

    pub fn serialize_u16(&mut self, v: u16) -> (r: Result<(), SerError>)
        ensures
            r.is_ok() ==> final(self).words() == old(self).words().push(v as u32),
    {
        self.serialize_u32(v as u32)
    }

    pub fn serialize_i8(&mut self, v: i8) -> (r: Result<(), SerError>)
        ensures
            r.is_ok() ==> final(self).words() == old(self).words().push(v as i32 as u32),
    {
        self.serialize_i32(v as i32)
    }

    pub fn serialize_i16(&mut self, v: i16) -> (r: Result<(), SerError>)
        ensures
            r.is_ok() ==> final(self).words() == old(self).words().push(v as i32 as u32),
    {
        self.serialize_i32(v as i32)
    }

    pub fn serialize_i32(&mut self, v: i32) -> (r: Result<(), SerError>)
        ensures
            r.is_ok() ==> final(self).words() == old(self).words().push(v as u32),
    {
        self.serialize_u32(v as u32)
    }

    /// Two words, low then high.
    pub fn serialize_u64(&mut self, v: u64) -> (r: Result<(), SerError>)
        ensures
            r.is_ok() ==> final(self).words() == old(self).words().push(
                (v & 0xFFFF_FFFF) as u32,
            ).push(((v >> 32) & 0xFFFF_FFFF) as u32),
    {
        match self.serialize_u32((v & 0xFFFF_FFFF) as u32) {
            Ok(()) => {},
            Err(e) => {
                return Err(e);
            },
        }
        self.serialize_u32(((v >> 32) & 0xFFFF_FFFF) as u32)
    }

    pub fn serialize_i64(&mut self, v: i64) -> (r: Result<(), SerError>)
        ensures
            r.is_ok() ==> final(self).words() == old(self).words().push(
                ((v as u64) & 0xFFFF_FFFF) as u32,
            ).push((((v as u64) >> 32) & 0xFFFF_FFFF) as u32),
    {
        self.serialize_u64(v as u64)
    }

    /// Four words, least significant first.
    pub fn serialize_u128(&mut self, v: u128) -> (r: Result<(), SerError>)
        ensures
            r.is_ok() ==> final(self).words() == old(self).words() + seq![
                v as u32,
                (v >> 32) as u32,
                (v >> 64) as u32,
                (v >> 96) as u32,
            ],
    {
        let four: [u32; 4] = [v as u32, (v >> 32) as u32, (v >> 64) as u32, (v >> 96) as u32];
        let r = self.stream.write_words(four.as_slice());
        proof {
            assert(four@ =~= seq![v as u32, (v >> 32) as u32, (v >> 64) as u32, (v >> 96) as u32]);
        }
        r
    }

    pub fn serialize_i128(&mut self, v: i128) -> (r: Result<(), SerError>)
        ensures
            r.is_ok() ==> final(self).words() == old(self).words() + seq![
                (v as u128) as u32,
                ((v as u128) >> 32) as u32,
                ((v as u128) >> 64) as u32,
                ((v as u128) >> 96) as u32,
            ],
    {
        self.serialize_u128(v as u128)
    }

    pub fn serialize_char(&mut self, v: char) -> (r: Result<(), SerError>)
        ensures
            r.is_ok() ==> final(self).words() == old(self).words().push(v as u32),
    {
        self.serialize_u32(v as u32)
    }

    /// The length in bytes, then the bytes padded to words.
    pub fn serialize_bytes(&mut self, v: &[u8]) -> (r: Result<(), SerError>)
        ensures
            v@.len() > u32::MAX ==> r == Err::<(), SerError>(SerError::TooLong),
            r.is_ok() ==> final(self).words() == old(self).words().push(v@.len() as u32)
                + padded_words(v@),
    {
        if v.len() > u32::MAX as usize {
            return Err(SerError::TooLong);
        }
        match self.serialize_u32(v.len() as u32) {
            Ok(()) => {},
            Err(e) => {
                return Err(e);
            },
        }
        self.stream.write_padded_bytes(v)
    }

    /// The UTF-8 bytes of `v`, as `serialize_bytes` writes them.
    pub fn serialize_str(&mut self, v: &str) -> (r: Result<(), SerError>)
        ensures
            v.spec_bytes().len() > u32::MAX ==> r == Err::<(), SerError>(SerError::TooLong),
            r.is_ok() ==> final(self).words() == old(self).words().push(
                v.spec_bytes().len() as u32,
            ) + padded_words(v.spec_bytes()),
    {
        self.serialize_bytes(v.as_bytes())
    }

    /// `None` is the word 0.
    pub fn serialize_none(&mut self) -> (r: Result<(), SerError>)
        ensures
            r.is_ok() ==> final(self).words() == old(self).words().push(0),
    {
        self.serialize_u32(0)
    }

    /// `Some` is the word 1, then the value.
    pub fn serialize_some_tag(&mut self) -> (r: Result<(), SerError>)
        ensures
            r.is_ok() ==> final(self).words() == old(self).words().push(1),
    {
        self.serialize_u32(1)
    }

    /// A unit variant, or the tag of a variant with fields, is its index.
    pub fn serialize_variant_index(&mut self, variant_index: u32) -> (r: Result<(), SerError>)
        ensures
            r.is_ok() ==> final(self).words() == old(self).words().push(variant_index),
    {
        self.serialize_u32(variant_index)
    }

    /// A sequence or map starts with its length, which must be known and fit in a word.
    pub fn serialize_len(&mut self, len: Option<usize>) -> (r: Result<(), SerError>)
        ensures
            len.is_none() ==> r == Err::<(), SerError>(SerError::NotSupported),
            len.is_some() && len.unwrap() > u32::MAX ==> r == Err::<(), SerError>(SerError::TooLong),
            r.is_ok() ==> len.is_some() && final(self).words() == old(self).words().push(
                len.unwrap() as u32,
            ),
    {
        match len {
            Some(val) => {
                if val > u32::MAX as usize {
                    return Err(SerError::TooLong);
                }
                self.serialize_u32(val as u32)
            },
            None => Err(SerError::NotSupported),
        }
    }
}

} // verus!
