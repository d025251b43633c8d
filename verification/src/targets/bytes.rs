//! Bytes on the way out, and the integer encodings the formats share.

use vstd::prelude::*;

verus! {

/// `value` as `count` bytes, the least significant first.
pub open spec fn little_endian(value: nat, count: nat) -> Seq<u8>
    decreases count,
{
    if count == 0 {
        Seq::empty()
    } else {
        seq![(value % 256) as u8] + little_endian(value / 256, (count - 1) as nat)
    }
}

/// The number that bytes in little-endian order stand for.
pub open spec fn from_little_endian(bytes: Seq<u8>) -> nat
    decreases bytes.len(),
{
    if bytes.len() == 0 {
        0
    } else {
        bytes[0] as nat + 256 * from_little_endian(bytes.drop_first())
    }
}

/// Seven bits a byte, low first, with the high bit set while more follow.
pub open spec fn unsigned_leb(value: nat) -> Seq<u8>
    decreases value,
{
    if value < 128 {
        seq![value as u8]
    } else {
        seq![(value % 128 + 128) as u8] + unsigned_leb(value / 128)
    }
}

/// The same for a signed integer: a byte is the last once the bits left over
/// agree with the sign bit it carries.
pub open spec fn signed_leb(value: int) -> Seq<u8>
    decreases (if value < 0 { -value } else { value }),
{
    let low = value % 128;
    let rest = value / 128;
    if (rest == 0 && low < 64) || (rest == -1 && low >= 64) {
        seq![low as u8]
    } else {
        seq![(low + 128) as u8] + signed_leb(rest)
    }
}

/// What an unsigned integer at the front of `bytes` reads as, and how many
/// bytes it takes.
pub open spec fn read_unsigned(bytes: Seq<u8>) -> Option<(nat, nat)>
    decreases bytes.len(),
{
    if bytes.len() == 0 {
        None
    } else if bytes[0] < 128 {
        Some((bytes[0] as nat, 1))
    } else {
        match read_unsigned(bytes.drop_first()) {
            Some((rest, taken)) => Some(((bytes[0] - 128 + 128 * rest) as nat, taken + 1)),
            None => None,
        }
    }
}

/// What a signed integer at the front of `bytes` reads as, and how many bytes
/// it takes.
pub open spec fn read_signed(bytes: Seq<u8>) -> Option<(int, nat)>
    decreases bytes.len(),
{
    if bytes.len() == 0 {
        None
    } else if bytes[0] < 64 {
        Some((bytes[0] as int, 1))
    } else if bytes[0] < 128 {
        Some((bytes[0] - 128, 1))
    } else {
        match read_signed(bytes.drop_first()) {
            Some((rest, taken)) => Some((bytes[0] - 128 + 128 * rest, taken + 1)),
            None => None,
        }
    }
}

/// `body` behind its length.
pub open spec fn sized(body: Seq<u8>) -> Seq<u8> {
    unsigned_leb(body.len()) + body
}

/// A wasm section, or nothing where its body is empty.
pub open spec fn section(id: u8, body: Seq<u8>) -> Seq<u8> {
    if body.len() == 0 {
        Seq::empty()
    } else {
        seq![id] + sized(body)
    }
}

/// Reading an unsigned integer back gives the number that was written, and
/// stops where its bytes do, whatever follows.
pub proof fn unsigned_leb_reads_back(value: nat, rest: Seq<u8>)
    ensures
        read_unsigned(unsigned_leb(value) + rest) == Some((value, unsigned_leb(value).len())),
    decreases value,
{
    let bytes = unsigned_leb(value) + rest;
    if value >= 128 {
        unsigned_leb_reads_back(value / 128, rest);
        assert(bytes.drop_first() =~= unsigned_leb(value / 128) + rest);
    }
}

/// Reading a signed integer back gives the number that was written, and
/// stops where its bytes do, whatever follows.
pub proof fn signed_leb_reads_back(value: int, rest: Seq<u8>)
    ensures
        read_signed(signed_leb(value) + rest) == Some((value, signed_leb(value).len())),
    decreases (if value < 0 { -value } else { value }),
{
    let bytes = signed_leb(value) + rest;
    let low = value % 128;
    let more = value / 128;
    if !((more == 0 && low < 64) || (more == -1 && low >= 64)) {
        signed_leb_reads_back(more, rest);
        assert(bytes.drop_first() =~= signed_leb(more) + rest);
    }
}

/// A number written in as many little-endian bytes as it needs reads back as
/// itself.
pub proof fn little_endian_reads_back(value: nat, count: nat)
    requires
        value < vstd::arithmetic::power::pow(256, count),
    ensures
        little_endian(value, count).len() == count,
        from_little_endian(little_endian(value, count)) == value,
    decreases count,
{
    vstd::arithmetic::power::lemma_pow0(256);
    if count > 0 {
        let one_less = (count - 1) as nat;
        reveal(vstd::arithmetic::power::pow);
        assert(vstd::arithmetic::power::pow(256, count) == 256 * vstd::arithmetic::power::pow(256, one_less));
        little_endian_reads_back(value / 256, one_less);
        assert(little_endian(value, count).drop_first() =~= little_endian(value / 256, one_less));
    }
}

/// An encoded integer takes at least one byte.
pub proof fn unsigned_leb_is_never_empty(value: nat)
    ensures
        unsigned_leb(value).len() > 0,
{
}

/// However many bytes are asked for, that many come.
pub proof fn little_endian_length(value: nat, count: nat)
    ensures
        little_endian(value, count).len() == count,
    decreases count,
{
    if count > 0 {
        little_endian_length(value / 256, (count - 1) as nat);
    }
}

/// Every format holds its lengths and indices in 32 bits.
pub fn len32(len: usize) -> (narrow: u32)
    requires
        len <= u32::MAX,
    ensures
        narrow == len,
{
    len as u32
}

/// A run of bytes being written.
#[derive(Debug)]
pub struct Bytes(Vec<u8>);

impl View for Bytes {
    type V = Seq<u8>;

    closed spec fn view(&self) -> Seq<u8> {
        self.0@
    }
}

impl Default for Bytes {
    fn default() -> (bytes: Self)
        ensures
            bytes@ == Seq::<u8>::empty(),
    {
        Bytes(Vec::new())
    }
}

impl Bytes {
    pub fn finish(self) -> (bytes: Vec<u8>)
        ensures
            bytes@ == self@,
    {
        self.0
    }

    pub fn byte(&mut self, value: u8)
        ensures
            final(self)@ == old(self)@.push(value),
    {
        self.0.push(value);
    }

    pub fn bytes(&mut self, value: &[u8])
        ensures
            final(self)@ == old(self)@ + value@,
    {
        self.0.extend_from_slice(value);
        assert(self@ =~= old(self)@ + value@);
    }

    /// The low `count` bytes of `value`, the least significant first.
    fn little_endian(&mut self, value: u64, count: usize)
        ensures
            final(self)@ == old(self)@ + little_endian(value as nat, count as nat),
    {
        let mut value: u64 = value;
        let mut left: usize = count;
        let ghost whole = old(self)@ + little_endian(value as nat, count as nat);
        while left > 0
            invariant
                self@ + little_endian(value as nat, left as nat) == whole,
            decreases left,
        {
            let ghost before = self@;
            self.byte((value % 256) as u8);
            left = left - 1;
            assert(before + little_endian(value as nat, (left + 1) as nat) =~= self@ + little_endian(
                (value / 256) as nat,
                left as nat,
            ));
            value = value / 256;
        }
        assert(self@ =~= whole);
    }

    pub fn le16(&mut self, value: u16)
        ensures
            final(self)@ == old(self)@ + little_endian(value as nat, 2),
    {
        self.little_endian(value as u64, 2);
    }

    pub fn le32(&mut self, value: u32)
        ensures
            final(self)@ == old(self)@ + little_endian(value as nat, 4),
    {
        self.little_endian(value as u64, 4);
    }

    pub fn le64(&mut self, value: u64)
        ensures
            final(self)@ == old(self)@ + little_endian(value as nat, 8),
    {
        self.little_endian(value, 8);
    }

    pub fn uleb(&mut self, value: u32)
        ensures
            final(self)@ == old(self)@ + unsigned_leb(value as nat),
    {
        let mut value: u32 = value;
        let ghost whole = old(self)@ + unsigned_leb(value as nat);
        while value >= 0x80
            invariant
                self@ + unsigned_leb(value as nat) == whole,
            decreases value,
        {
            let ghost before = self@;
            self.byte((value % 128 + 128) as u8);
            assert(before + unsigned_leb(value as nat) =~= self@ + unsigned_leb((value / 128) as nat));
            value = value / 128;
        }
        self.byte(value as u8);
        assert(self@ =~= whole);
    }

    /// A byte is the last only once the bits left over agree with the sign
    /// bit it just wrote.
    pub fn sleb(&mut self, value: i32)
        ensures
            final(self)@ == old(self)@ + signed_leb(value as int),
    {
        let mut value: i32 = value;
        let ghost whole = old(self)@ + signed_leb(value as int);
        loop
            invariant_except_break
                self@ + signed_leb(value as int) == whole,
            ensures
                self@ == whole,
            decreases (if value < 0 { -value } else { value as int }),
        {
            let ghost before = self@;
            let byte: u8 = (value & 0x7F) as u8;
            let rest: i32 = value >> 7;
            assert(0 <= (value & 0x7F) < 128 && value == rest * 128 + (value & 0x7F)) by (bit_vector)
                requires
                    rest == value >> 7,
            ;
            if (rest == 0 && byte < 0x40) || (rest == -1 && byte >= 0x40) {
                self.byte(byte);
                assert(self@ =~= whole);
                break;
            }
            self.byte(byte + 0x80);
            assert(before + signed_leb(value as int) =~= self@ + signed_leb(rest as int));
            value = rest;
        }
    }

    pub fn name(&mut self, text: &str)
        requires
            vstd::utf8::encode_utf8(text@).len() <= u32::MAX,
        ensures
            final(self)@ == old(self)@ + sized(vstd::utf8::encode_utf8(text@)),
    {
        self.put_sized(text.as_bytes());
    }

    /// `body`, prefixed by its length.
    pub fn put_sized(&mut self, body: &[u8])
        requires
            body@.len() <= u32::MAX,
        ensures
            final(self)@ == old(self)@ + sized(body@),
    {
        self.uleb(len32(body.len()));
        self.bytes(body);
        assert(self@ =~= old(self)@ + sized(body@));
    }

    /// Whatever `build` writes, prefixed by its length.
    pub fn sized<F: FnOnce(&mut Bytes)>(&mut self, build: F)
        requires
            forall|out: &mut Bytes| out@ == Seq::<u8>::empty() ==> #[trigger] build.requires((out,)),
            forall|out: &mut Bytes|
                out@ == Seq::<u8>::empty() && #[trigger] build.ensures((out,), ()) ==> final(out)@.len()
                    <= u32::MAX,
        ensures
            exists|out: &mut Bytes|
                out@ == Seq::<u8>::empty() && #[trigger] build.ensures((out,), ()) && final(self)@ == old(
                    self,
                )@ + sized(final(out)@),
    {
        let mut body = Bytes(Vec::new());
        assert(body@ =~= Seq::empty());
        build(&mut body);
        self.put_sized(body.0.as_slice());
    }

    /// A section whose body is `body`. An empty one is left out entirely.
    pub fn put_section(&mut self, id: u8, body: &[u8])
        requires
            body@.len() <= u32::MAX,
        ensures
            final(self)@ == old(self)@ + section(id, body@),
    {
        if body.len() > 0 {
            self.byte(id);
            self.put_sized(body);
        }
        assert(self@ =~= old(self)@ + section(id, body@));
    }

    /// A wasm section. One that would come out empty is left out entirely.
    pub fn section<F: FnOnce(&mut Bytes)>(&mut self, id: u8, build: F)
        requires
            forall|out: &mut Bytes| out@ == Seq::<u8>::empty() ==> #[trigger] build.requires((out,)),
            forall|out: &mut Bytes|
                out@ == Seq::<u8>::empty() && #[trigger] build.ensures((out,), ()) ==> final(out)@.len()
                    <= u32::MAX,
        ensures
            exists|out: &mut Bytes|
                out@ == Seq::<u8>::empty() && #[trigger] build.ensures((out,), ()) && final(self)@ == old(
                    self,
                )@ + section(id, final(out)@),
    {
        let mut body = Bytes(Vec::new());
        assert(body@ =~= Seq::empty());
        build(&mut body);
        self.put_section(id, body.0.as_slice());
    }
}

} // verus!
