//! A named blob of bytes and its binary form.
use vstd::prelude::*;
use vstd::string::StringSliceAdditionalSpecFns;
use vstd::utf8::encode_utf8;

verus! {

/// The unsigned LEB128 encoding of `n`: seven bits per byte, low bits first,
/// the high bit set on every byte but the last.
pub open spec fn leb128(n: nat) -> Seq<u8>
    decreases n,
{
    if n < 128 {
        seq![n as u8]
    } else {
        seq![((n % 128) + 128) as u8] + leb128(n / 128)
    }
}

/// Every encoding is at least one byte; one of a 32-bit value takes at most five.
pub proof fn lemma_leb128_len(n: nat)
    requires
        n <= u32::MAX,
    ensures
        1 <= leb128(n).len() <= 5,
{
    reveal_with_fuel(leb128, 6);
    assert(n / 128 / 128 / 128 / 128 < 128);
}

/// Number of bytes that the LEB128 encoding of `n` takes.
pub fn encoding_size(n: u32) -> (r: usize)
    ensures
        r as nat == leb128(n as nat).len(),
        1 <= r <= 5,
{
    proof {
        lemma_leb128_len(n as nat);
    }
    let mut v: u32 = n;
    let mut size: usize = 1;
    while v >= 128
        invariant
            1 <= size,
            (size - 1) as nat + leb128(v as nat).len() == leb128(n as nat).len(),
            leb128(n as nat).len() <= 5,
        decreases v,
    {
        assert(leb128(v as nat) == seq![((v % 128) + 128) as u8] + leb128((v / 128) as nat));
        v = v / 128;
        size = size + 1;
    }
    size
}

/// Appends the LEB128 encoding of `n` to `sink`.
pub fn write_leb128(n: u32, sink: &mut Vec<u8>)
    ensures
        final(sink)@ == old(sink)@ + leb128(n as nat),
{
    let mut v: u32 = n;
    while v >= 128
        invariant
            sink@ + leb128(v as nat) == old(sink)@ + leb128(n as nat),
        decreases v,
    {
        let byte: u8 = ((v % 128) + 128) as u8;
        assert(leb128(v as nat) == seq![byte] + leb128((v / 128) as nat));
        sink.push(byte);
        v = v / 128;
    }
    sink.push(v as u8);
}

/// A custom section holding arbitrary data under a name.
#[derive(Clone, Debug)]
pub struct CustomSection {
    /// The name of this custom section.
    pub name: String,
    /// This custom section's data.
    pub data: Vec<u8>,
}

/// The section id under which every custom section is filed.
pub const CUSTOM_SECTION_ID: u8 = 0;

impl CustomSection {
    /// The section's body as bytes: the section's size, then its name with its
    /// own length prefix, then the data verbatim.
    pub open spec fn encoded(&self) -> Seq<u8> {
        let name_bytes = encode_utf8(self.name@);
        leb128(leb128(name_bytes.len()).len() + name_bytes.len() + self.data@.len())
            + leb128(name_bytes.len()) + name_bytes + self.data@
    }

    /// Appends the encoding of this section to `sink`.
    pub fn encode(&self, sink: &mut Vec<u8>)
        requires
            leb128(encode_utf8(self.name@).len()).len() + encode_utf8(self.name@).len() + self.data@.len()
                <= u32::MAX,
        ensures
            final(sink)@ == old(sink)@ + self.encoded(),
    {
        let name: &str = self.name.as_str();
        let name_len: usize = name.len();
        let encoded_name_len: usize = encoding_size(name_len as u32);
        let total: usize = encoded_name_len + name_len + self.data.len();
        write_leb128(total as u32, sink);
        write_leb128(name_len as u32, sink);
        let bytes: &[u8] = name.as_bytes();
        let mut i: usize = 0;
        while i < bytes.len()
            invariant
                bytes@ == name.spec_bytes(),
                sink@ == old(sink)@ + leb128(total as nat) + leb128(name_len as nat)
                    + bytes@.subrange(0, i as int),
                i <= bytes@.len(),
            decreases bytes@.len() - i,
        {
            sink.push(bytes[i]);
            i = i + 1;
            assert(bytes@.subrange(0, i as int) == bytes@.subrange(0, i - 1) + seq![bytes@[i - 1]]);
        }
        let mut j: usize = 0;
        while j < self.data.len()
            invariant
                bytes@ == name.spec_bytes(),
                sink@ == old(sink)@ + leb128(total as nat) + leb128(name_len as nat)
                    + bytes@ + self.data@.subrange(0, j as int),
                j <= self.data@.len(),
            decreases self.data@.len() - j,
        {
            sink.push(self.data[j]);
            j = j + 1;
            assert(self.data@.subrange(0, j as int) == self.data@.subrange(0, j - 1) + seq![self.data@[j - 1]]);
        }
        assert(bytes@.subrange(0, bytes@.len() as int) == bytes@);
        assert(self.data@.subrange(0, self.data@.len() as int) == self.data@);
    }

    /// The id of the section kind: custom sections are filed under zero.
    pub fn id(&self) -> (r: u8)
        ensures
            r == CUSTOM_SECTION_ID,
    {
        CUSTOM_SECTION_ID
    }
}

} // verus!
