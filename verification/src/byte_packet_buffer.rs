//! The fixed-capacity packet buffer: a 512-byte arena with a movable
//! cursor, bounds-checked reads and writes, absolute peek and patch, and
//! the domain-name wire codec with compression-pointer resolution.

use vstd::prelude::*;
use vstd::string::StringSliceAdditionalSpecFns;

use crate::dns_error::DnsError;

verus! {

/// Big-endian value of two bytes.
pub open spec fn be16(b0: u8, b1: u8) -> u16 {
    (b0 as int * 256 + b1 as int) as u16
}

/// Big-endian value of four bytes.
pub open spec fn be32(b0: u8, b1: u8, b2: u8, b3: u8) -> u32 {
    (b0 as int * 0x1000000 + b1 as int * 0x10000 + b2 as int * 256 + b3 as int) as u32
}

/// The two big-endian bytes of a 16-bit value.
pub open spec fn u16_bytes(v: u16) -> Seq<u8> {
    seq![(v / 256) as u8, (v % 256) as u8]
}

/// The four big-endian bytes of a 32-bit value.
pub open spec fn u32_bytes(v: u32) -> Seq<u8> {
    seq![
        (v / 0x1000000) as u8,
        ((v / 0x10000) % 256) as u8,
        ((v / 256) % 256) as u8,
        (v % 256) as u8,
    ]
}

/// `s` with the `w.len()` bytes starting at `at` replaced by `w`.
pub open spec fn spliced(s: Seq<u8>, at: int, w: Seq<u8>) -> Seq<u8> {
    Seq::new(
        s.len(),
        |i: int|
            if at <= i < at + w.len() {
                w[i - at]
            } else {
                s[i]
            },
    )
}

/// Two consecutive splices act as one splice of the concatenation.
pub proof fn lemma_spliced_concat(s: Seq<u8>, at: int, w1: Seq<u8>, w2: Seq<u8>)
    ensures
        spliced(spliced(s, at, w1), at + w1.len(), w2) == spliced(s, at, w1 + w2),
{
    assert(spliced(spliced(s, at, w1), at + w1.len(), w2) =~= spliced(s, at, w1 + w2));
}

/// Patching the two placeholder bytes between `head` and `pl` with the
/// payload length turns the buffer into one splice of the finished
/// record bytes.
pub proof fn lemma_patch_len(buf0: Seq<u8>, p: int, head: Seq<u8>, pl: Seq<u8>, buf1: Seq<u8>)
    requires
        buf0.len() == 512,
        0 <= p,
        p + head.len() + 2 + pl.len() <= 512,
        buf1 == spliced(buf0, p, head + seq![0u8, 0u8] + pl),
    ensures
        spliced(buf1, p + head.len(), u16_bytes(pl.len() as u16)) == spliced(
            buf0,
            p,
            head + u16_bytes(pl.len() as u16) + pl,
        ),
{
    assert(spliced(buf1, p + head.len(), u16_bytes(pl.len() as u16)) =~= spliced(
        buf0,
        p,
        head + u16_bytes(pl.len() as u16) + pl,
    ));
}

pub proof fn lemma_be16_of_u16_bytes(v: u16)
    ensures
        be16(u16_bytes(v)[0], u16_bytes(v)[1]) == v,
{
}

pub proof fn lemma_be32_of_u32_bytes(v: u32)
    ensures
        be32(u32_bytes(v)[0], u32_bytes(v)[1], u32_bytes(v)[2], u32_bytes(v)[3]) == v,
{
}

/// How many compression-pointer jumps one name may follow before the
/// decoder rejects the chain as malformed.  Bounding the chain defends
/// against pointer cycles in hostile input.
pub const MAX_JUMPS: usize = 64;

/// ASCII case folding of one byte: letters `A`..`Z` map to `a`..`z`,
/// every other byte is unchanged.
pub open spec fn lower_byte(b: u8) -> u8 {
    if 65 <= b && b <= 90 {
        (b + 32) as u8
    } else {
        b
    }
}

/// The character a wire byte decodes to.
pub open spec fn byte_char(b: u8) -> char {
    b as char
}

/// Joins two dotted-name fragments, inserting a `.` only between two
/// non-empty fragments.
pub open spec fn name_join(a: Seq<char>, b: Seq<char>) -> Seq<char> {
    if a.len() == 0 {
        b
    } else if b.len() == 0 {
        a
    } else {
        a + seq!['.'] + b
    }
}

/// Outcome of reading a domain name from wire bytes: the lowercased
/// dotted name, or the failure class.
pub enum QnameParse {
    Name(Seq<char>),
    OutOfBounds,
    TooManyJumps,
}

/// The domain name encoded in `buf` starting at `p`, following at most
/// `budget` compression jumps.  Labels are case-folded to lowercase and
/// joined with dots; a zero length byte ends the name.
pub open spec fn parse_qname_at(buf: Seq<u8>, p: int, budget: nat) -> QnameParse
    decreases budget, 512 - p,
{
    if !(0 <= p && p < 512 && buf.len() == 512) {
        QnameParse::OutOfBounds
    } else {
        let len = buf[p];
        if len >= 0xC0 {
            if budget == 0 {
                QnameParse::TooManyJumps
            } else if p + 1 >= 512 {
                QnameParse::OutOfBounds
            } else {
                parse_qname_at(
                    buf,
                    (len - 0xC0) as int * 256 + buf[p + 1] as int,
                    (budget - 1) as nat,
                )
            }
        } else if len == 0 {
            QnameParse::Name(Seq::empty())
        } else if p + 1 + len > 512 {
            QnameParse::OutOfBounds
        } else {
            let label = Seq::new(len as nat, |i: int| byte_char(lower_byte(buf[p + 1 + i])));
            match parse_qname_at(buf, p + 1 + len, budget) {
                QnameParse::Name(rest) => QnameParse::Name(name_join(label, rest)),
                e => e,
            }
        }
    }
}

/// Where the cursor sits after reading the name at `p`: just past the
/// first compression pointer, or just past the terminating zero byte.
/// Meaningful only when the parse succeeds.
pub open spec fn qname_end_at(buf: Seq<u8>, p: int) -> int
    decreases 512 - p,
{
    if !(0 <= p && p < 512 && buf.len() == 512) {
        p
    } else {
        let len = buf[p];
        if len >= 0xC0 {
            p + 2
        } else if len == 0 {
            p + 1
        } else if p + 1 + len > 512 {
            p + 1 + len
        } else {
            qname_end_at(buf, p + 1 + len)
        }
    }
}

/// Prepends an already-read fragment to a parse outcome.
pub open spec fn combine_qname(acc: Seq<char>, q: QnameParse) -> QnameParse {
    match q {
        QnameParse::Name(rest) => QnameParse::Name(name_join(acc, rest)),
        _ => q,
    }
}

pub proof fn lemma_name_join_assoc(a: Seq<char>, b: Seq<char>, c: Seq<char>)
    requires
        b.len() > 0,
    ensures
        name_join(a, name_join(b, c)) == name_join(name_join(a, b), c),
{
    if a.len() == 0 {
    } else if c.len() == 0 {
    } else {
        assert(name_join(a, name_join(b, c)) =~= name_join(name_join(a, b), c));
    }
}

/// Index of the first `.` byte at or after `from`, or the length of `s`
/// when none follows.
pub open spec fn find_dot(s: Seq<u8>, from: nat) -> nat
    recommends
        from <= s.len(),
    decreases s.len() - from,
{
    if from >= s.len() {
        s.len()
    } else if s[from as int] == 46 {
        from
    } else {
        find_dot(s, from + 1)
    }
}

pub proof fn lemma_find_dot(s: Seq<u8>, from: nat)
    requires
        from <= s.len(),
    ensures
        from <= find_dot(s, from) <= s.len(),
        find_dot(s, from) < s.len() ==> s[find_dot(s, from) as int] == 46,
        forall|j: int| from <= j < find_dot(s, from) ==> s[j] != 46,
    decreases s.len() - from,
{
    if from >= s.len() {
    } else if s[from as int] == 46 {
    } else {
        lemma_find_dot(s, from + 1);
    }
}

/// The wire encoding of the dotted name held in `s` from position
/// `from` on: every non-empty label as a length byte followed by its
/// raw bytes, closed by a zero byte.  `None` exactly when some label is
/// longer than 63 bytes.  No compression is ever emitted.
pub open spec fn qname_wire_from(s: Seq<u8>, from: nat) -> Option<Seq<u8>>
    recommends
        from <= s.len(),
    decreases s.len() - from,
    via qname_wire_from_decreases
{
    let e = find_dot(s, from);
    if e - from > 63 {
        None
    } else {
        let head: Seq<u8> = if e == from {
            Seq::empty()
        } else {
            seq![(e - from) as u8] + s.subrange(from as int, e as int)
        };
        if e >= s.len() {
            Some(head + seq![0u8])
        } else {
            match qname_wire_from(s, e + 1) {
                None => None,
                Some(w) => Some(head + w),
            }
        }
    }
}

#[via_fn]
proof fn qname_wire_from_decreases(s: Seq<u8>, from: nat) {
    if from <= s.len() {
        lemma_find_dot(s, from);
    }
}

/// The full wire encoding of a dotted name.
pub open spec fn qname_wire(s: Seq<u8>) -> Option<Seq<u8>> {
    qname_wire_from(s, 0)
}

/// The characters a run of wire bytes decodes to, one per byte.
pub open spec fn chars_of(b: Seq<u8>) -> Seq<char> {
    Seq::new(b.len(), |i: int| byte_char(b[i]))
}

/// A name the encoder can reproduce exactly: ASCII with no uppercase
/// letters (the decoder case-folds), no leading, trailing or doubled
/// dot (the encoder drops empty labels).
pub open spec fn wf_name(name: Seq<char>) -> bool {
    (forall|i: int|
        0 <= i < name.len() ==> ((#[trigger] name[i]) as u32) < 128 && !(65 <= name[i] as u32
            <= 90)) && (name.len() > 0 ==> name[0] != '.' && name[name.len() - 1] != '.') && (
    forall|i: int| 0 < i < name.len() ==> !((#[trigger] name[i]) == '.' && name[i - 1] == '.'))
}

/// Decoding inverts encoding, label by label: wherever a buffer holds
/// the wire bytes of a suffix of a well-formed name's byte form, the
/// name parser reads back exactly that suffix's characters and leaves
/// the cursor right after the terminator.
pub proof fn lemma_wire_parses(
    s: Seq<u8>,
    from: nat,
    buf: Seq<u8>,
    at: int,
    w: Seq<u8>,
    budget: nat,
)
    requires
        from <= s.len(),
        forall|i: int| from <= i < s.len() ==> (#[trigger] s[i]) < 128 && !(65 <= s[i] <= 90),
        from < s.len() ==> s[from as int] != 46 && s[s.len() - 1] != 46,
        forall|i: int| from < i < s.len() ==> !((#[trigger] s[i]) == 46 && s[i - 1] == 46),
        qname_wire_from(s, from) == Some(w),
        buf.len() == 512,
        0 <= at,
        at + w.len() <= 512,
        buf.subrange(at, at + w.len()) == w,
    ensures
        parse_qname_at(buf, at, budget) == QnameParse::Name(chars_of(s.skip(from as int))),
        qname_end_at(buf, at) == at + w.len(),
    decreases s.len() - from,
{
    lemma_find_dot(s, from);
    let e = find_dot(s, from);
    assert(forall|i: int| 0 <= i < w.len() ==> buf[at + i] == #[trigger] w[i]) by {
        assert(forall|i: int|
            0 <= i < w.len() ==> #[trigger] w[i] == buf.subrange(at, at + w.len())[i]);
    }
    if from >= s.len() {
        assert(w =~= seq![0u8]);
        assert(w[0] == 0);
        assert(buf[at] == 0);
        assert(chars_of(s.skip(from as int)) =~= Seq::<char>::empty());
    } else {
        assert(e > from) by {
            assert(s[from as int] != 46);
        }
        let len = (e - from) as int;
        let head = seq![(e - from) as u8] + s.subrange(from as int, e as int);
        assert(0 < len <= 63);
        if e >= s.len() {
            assert(w == head + seq![0u8]);
        } else {
            assert(w == head + qname_wire_from(s, e + 1)->Some_0);
        }
        assert(w[0] == len as u8);
        assert(buf[at] == len);
        assert forall|j: int| 0 <= j < len implies buf[at + 1 + j] == #[trigger] s[from + j] by {
            assert(w[1 + j] == s[from + j]);
            assert(buf[at + (1 + j)] == w[1 + j]);
        }
        let label = Seq::new(len as nat, |i: int| byte_char(lower_byte(buf[at + 1 + i])));
        assert forall|j: int| 0 <= j < len implies #[trigger] label[j] == byte_char(
            s[from + j],
        ) by {
            assert(lower_byte(s[from + j]) == s[from + j]);
        }
        if e >= s.len() {
            assert(w[1 + len] == 0);
            assert(buf[at + (1 + len)] == 0);
            assert(parse_qname_at(buf, at + 1 + len, budget) == QnameParse::Name(
                Seq::<char>::empty(),
            ));
            assert(name_join(label, Seq::empty()) == label);
            assert(label =~= chars_of(s.skip(from as int)));
            assert(qname_end_at(buf, at + 1 + len) == at + 1 + len + 1);
        } else {
            assert(s[e as int] == 46);
            assert(e + 1 < s.len()) by {
                assert(s[s.len() - 1] != 46);
            }
            let w2 = qname_wire_from(s, e + 1)->Some_0;
            assert(buf.subrange(at + 1 + len, at + 1 + len + w2.len()) =~= w2) by {
                assert(forall|i: int|
                    0 <= i < w2.len() ==> #[trigger] w2[i] == w[1 + len + i]);
                assert forall|i: int| 0 <= i < w2.len() implies buf.subrange(
                    at + 1 + len,
                    at + 1 + len + w2.len(),
                )[i] == w2[i] by {
                    assert(buf[at + (1 + len + i)] == w[1 + len + i]);
                }
            }
            assert(s[e as int + 1] != 46);
            lemma_wire_parses(s, e + 1, buf, at + 1 + len, w2, budget);
            let rest = chars_of(s.skip(e as int + 1));
            assert(rest.len() > 0);
            assert(label.len() > 0);
            assert(name_join(label, rest) == label + seq!['.'] + rest);
            assert(byte_char(46) == '.');
            assert(label + seq!['.'] + rest =~= chars_of(s.skip(from as int)));
        }
    }
}

/// The UTF-8 bytes of an ASCII character sequence: one byte per
/// character, holding its code point.
pub proof fn lemma_ascii_encode(name: Seq<char>)
    requires
        forall|i: int| 0 <= i < name.len() ==> ((#[trigger] name[i]) as u32) < 128,
    ensures
        vstd::utf8::encode_utf8(name).len() == name.len(),
        forall|i: int|
            0 <= i < name.len() ==> (vstd::utf8::encode_utf8(name)[i] as u32) == ((
            #[trigger] name[i]) as u32),
    decreases name.len(),
{
    if name.len() > 0 {
        let c = name[0] as u32;
        assert(vstd::utf8::has_width_1_encoding(c));
        assert(vstd::utf8::leading_byte_width_1(c) == (c & 0x7F) as u8);
        assert(c & 0x7F == c) by (bit_vector)
            requires
                c < 128,
        ;
        assert((vstd::utf8::leading_byte_width_1(c) as u32) == c);
        assert(vstd::utf8::encode_scalar(c) == seq![vstd::utf8::leading_byte_width_1(c)]);
        lemma_ascii_encode(name.drop_first());
        assert(vstd::utf8::encode_utf8(name) =~= seq![vstd::utf8::leading_byte_width_1(c)]
            + vstd::utf8::encode_utf8(name.drop_first()));
        assert forall|i: int| 0 <= i < name.len() implies (vstd::utf8::encode_utf8(name)[i]
            as u32) == ((#[trigger] name[i]) as u32) by {
            if i > 0 {
                assert(name.drop_first()[i - 1] == name[i]);
                assert(vstd::utf8::encode_utf8(name)[i] == vstd::utf8::encode_utf8(
                    name.drop_first(),
                )[i - 1]);
            }
        }
    }
}

/// Decoding inverts encoding for names: the wire form of a well-formed
/// name, read back from any position it occupies in a packet, yields
/// the same characters, whatever the decoder's jump budget.
pub proof fn lemma_qname_round_trip(name: Seq<char>, buf: Seq<u8>, at: int, budget: nat)
    requires
        wf_name(name),
        qname_wire(vstd::utf8::encode_utf8(name)) is Some,
        buf.len() == 512,
        0 <= at,
        at + qname_wire(vstd::utf8::encode_utf8(name))->Some_0.len() <= 512,
        buf.subrange(at, at + qname_wire(vstd::utf8::encode_utf8(name))->Some_0.len())
            == qname_wire(vstd::utf8::encode_utf8(name))->Some_0,
    ensures
        parse_qname_at(buf, at, budget) == QnameParse::Name(name),
        qname_end_at(buf, at) == at + qname_wire(vstd::utf8::encode_utf8(name))->Some_0.len(),
{
    let s = vstd::utf8::encode_utf8(name);
    lemma_ascii_encode(name);
    assert(forall|i: int| 0 <= i < s.len() ==> (#[trigger] s[i]) < 128 && !(65 <= s[i] <= 90)) by {
        assert(forall|i: int|
            0 <= i < name.len() ==> ((#[trigger] name[i]) as u32) < 128 && !(65 <= name[i] as u32
                <= 90));
        assert(forall|i: int| 0 <= i < s.len() ==> (#[trigger] s[i] as u32) == (name[i] as u32));
    }
    assert(('.' as u32) == 46);
    assert forall|i: int| 0 <= i < name.len() implies ((#[trigger] name[i]) == '.' <==> (
    name[i] as u32) == 46) by {
        vstd::utf8::char_u32_cast(name[i], name[i] as u32);
        vstd::utf8::char_u32_cast('.', 46);
    }
    assert forall|i: int| 0 <= i < s.len() implies ((#[trigger] s[i]) == 46 <==> name[i]
        == '.') by {
        assert((s[i] as u32) == (name[i] as u32));
    }
    if s.len() > 0 {
        assert(s[0] != 46);
        assert(s[s.len() - 1] != 46);
    }
    assert(forall|i: int| 0 < i < s.len() ==> !((#[trigger] s[i]) == 46 && s[i - 1] == 46));
    let w = qname_wire(s)->Some_0;
    lemma_wire_parses(s, 0, buf, at, w, budget);
    assert(chars_of(s.skip(0)) =~= name) by {
        assert(s.skip(0) =~= s);
        assert forall|i: int| 0 <= i < name.len() implies chars_of(s)[i] == #[trigger] name[i] by {
            let u: u32 = s[i] as u32;
            assert(u == name[i] as u32);
            vstd::utf8::char_u32_cast(name[i], u);
            assert((u as char) == name[i]);
            assert(byte_char(s[i]) == (u as char));
        }
    }
}

/// Relies on `String::push`: appends exactly one character to the string.
#[verifier::external_body]
fn push_char(s: &mut String, c: char)
    ensures
        final(s)@ == old(s)@.push(c),
{
    s.push(c);
}

/// A fixed 512-byte buffer holding one DNS packet, together with the
/// cursor position used by sequential reads and writes.
pub struct BytePacketBuffer {
    pub buf: Vec<u8>,
    pub pos: usize,
}

impl BytePacketBuffer {
    /// The buffer always owns exactly 512 bytes, the historical
    /// UDP-safe DNS message size.
    pub open spec fn wf(&self) -> bool {
        self.buf@.len() == 512
    }

    /// Creates a zero-filled buffer with the cursor at the start.
    pub fn new() -> (r: BytePacketBuffer)
        ensures
            r.wf(),
            r.pos == 0,
            r.buf@ == Seq::new(512, |i: int| 0u8),
    {
        let b = BytePacketBuffer { buf: vec![0u8; 512], pos: 0 };
        proof {
            assert(b.buf@ =~= Seq::new(512, |i: int| 0u8));
        }
        b
    }

    /// Current cursor position.
    pub fn pos(&self) -> (r: usize)
        ensures
            r == self.pos,
    {
        self.pos
    }

    /// Moves the cursor forward by `steps`.
    pub fn step(&mut self, steps: usize) -> (r: Result<(), DnsError>)
        requires
            old(self).pos + steps <= usize::MAX,
        ensures
            final(self).buf@ == old(self).buf@,
            final(self).pos == old(self).pos + steps,
            r is Ok,
    {
        self.pos += steps;
        Ok(())
    }

    /// Moves the cursor to the absolute position `pos`.
    pub fn seek(&mut self, pos: usize) -> (r: Result<(), DnsError>)
        ensures
            final(self).buf@ == old(self).buf@,
            final(self).pos == pos,
            r is Ok,
    {
        self.pos = pos;
        Ok(())
    }

    /// Reads the byte under the cursor and advances the cursor; fails
    /// with `BufferBounds` exactly when the cursor is at or past the end.
    pub fn read(&mut self) -> (r: Result<u8, DnsError>)
        requires
            old(self).wf(),
        ensures
            final(self).wf(),
            final(self).buf@ == old(self).buf@,
            old(self).pos < 512 ==> r == Ok::<u8, DnsError>(old(self).buf@[old(self).pos as int])
                && final(self).pos == old(self).pos + 1,
            old(self).pos >= 512 ==> r == Err::<u8, DnsError>(DnsError::BufferBounds)
                && final(self).pos == old(self).pos,
    {
        if self.pos >= 512 {
            return Err(DnsError::BufferBounds);
        }
        let res = self.buf[self.pos];
        self.pos += 1;
        Ok(res)
    }

    /// Reads two bytes as a big-endian 16-bit value.
    pub fn read_u16(&mut self) -> (r: Result<u16, DnsError>)
        requires
            old(self).wf(),
        ensures
            final(self).wf(),
            final(self).buf@ == old(self).buf@,
            old(self).pos + 2 <= 512 ==> r == Ok::<u16, DnsError>(
                be16(old(self).buf@[old(self).pos as int], old(self).buf@[old(self).pos + 1]),
            ) && final(self).pos == old(self).pos + 2,
            old(self).pos + 2 > 512 ==> r == Err::<u16, DnsError>(DnsError::BufferBounds),
    {
        let hi = self.read()?;
        let lo = self.read()?;
        Ok(hi as u16 * 256 + lo as u16)
    }

    /// Reads four bytes as a big-endian 32-bit value.
    pub fn read_u32(&mut self) -> (r: Result<u32, DnsError>)
        requires
            old(self).wf(),
        ensures
            final(self).wf(),
            final(self).buf@ == old(self).buf@,
            old(self).pos + 4 <= 512 ==> r == Ok::<u32, DnsError>(
                be32(
                    old(self).buf@[old(self).pos as int],
                    old(self).buf@[old(self).pos + 1],
                    old(self).buf@[old(self).pos + 2],
                    old(self).buf@[old(self).pos + 3],
                ),
            ) && final(self).pos == old(self).pos + 4,
            old(self).pos + 4 > 512 ==> r == Err::<u32, DnsError>(DnsError::BufferBounds),
    {
        let b0 = self.read()?;
        let b1 = self.read()?;
        let b2 = self.read()?;
        let b3 = self.read()?;
        Ok(b0 as u32 * 0x1000000 + b1 as u32 * 0x10000 + b2 as u32 * 256 + b3 as u32)
    }

    /// Writes one byte at the cursor and advances it; fails with
    /// `BufferBounds` exactly when the cursor is at or past the end.
    fn write(&mut self, val: u8) -> (r: Result<(), DnsError>)
        requires
            old(self).wf(),
        ensures
            final(self).wf(),
            old(self).pos < 512 ==> r is Ok
                && final(self).buf@ == old(self).buf@.update(old(self).pos as int, val)
                && final(self).pos == old(self).pos + 1,
            old(self).pos >= 512 ==> r == Err::<(), DnsError>(DnsError::BufferBounds)
                && final(self).buf@ == old(self).buf@
                && final(self).pos == old(self).pos,
    {
        if self.pos >= 512 {
            return Err(DnsError::BufferBounds);
        }
        self.buf[self.pos] = val;
        self.pos += 1;
        Ok(())
    }

    /// Writes one byte at the cursor.
    pub fn write_u8(&mut self, val: u8) -> (r: Result<(), DnsError>)
        requires
            old(self).wf(),
        ensures
            final(self).wf(),
            old(self).pos < 512 ==> r is Ok
                && final(self).buf@ == spliced(old(self).buf@, old(self).pos as int, seq![val])
                && final(self).pos == old(self).pos + 1,
            old(self).pos >= 512 ==> r == Err::<(), DnsError>(DnsError::BufferBounds)
                && final(self).buf@ == old(self).buf@
                && final(self).pos == old(self).pos,
    {
        let ghost pre = self.buf@;
        let ghost p = self.pos as int;
        self.write(val)?;
        proof {
            if p < 512 {
                assert(pre.update(p, val) =~= spliced(pre, p, seq![val]));
            }
        }
        Ok(())
    }

    /// Writes a 16-bit value as two big-endian bytes.
    pub fn write_u16(&mut self, val: u16) -> (r: Result<(), DnsError>)
        requires
            old(self).wf(),
        ensures
            final(self).wf(),
            old(self).pos + 2 <= 512 ==> r is Ok
                && final(self).buf@ == spliced(old(self).buf@, old(self).pos as int, u16_bytes(val))
                && final(self).pos == old(self).pos + 2,
            old(self).pos + 2 > 512 ==> r == Err::<(), DnsError>(DnsError::BufferBounds)
                && final(self).buf@ == old(self).buf@,
    {
        let ghost pre = self.buf@;
        let ghost p = self.pos as int;
        if self.pos >= 511 {
            // Even when `pos == 511` the second byte would not fit; refuse
            // before touching the buffer so a failed write changes nothing.
            return Err(DnsError::BufferBounds);
        }
        self.write((val / 256) as u8)?;
        self.write((val % 256) as u8)?;
        proof {
            assert(self.buf@ =~= spliced(pre, p, u16_bytes(val)));
        }
        Ok(())
    }

    /// Writes a 32-bit value as four big-endian bytes.
    pub fn write_u32(&mut self, val: u32) -> (r: Result<(), DnsError>)
        requires
            old(self).wf(),
        ensures
            final(self).wf(),
            old(self).pos + 4 <= 512 ==> r is Ok
                && final(self).buf@ == spliced(old(self).buf@, old(self).pos as int, u32_bytes(val))
                && final(self).pos == old(self).pos + 4,
            old(self).pos + 4 > 512 ==> r == Err::<(), DnsError>(DnsError::BufferBounds)
                && final(self).buf@ == old(self).buf@,
    {
        let ghost pre = self.buf@;
        let ghost p = self.pos as int;
        if self.pos >= 509 {
            return Err(DnsError::BufferBounds);
        }
        self.write((val / 0x1000000) as u8)?;
        self.write(((val / 0x10000) % 256) as u8)?;
        self.write(((val / 256) % 256) as u8)?;
        self.write((val % 256) as u8)?;
        proof {
            assert(self.buf@ =~= spliced(pre, p, u32_bytes(val)));
        }
        Ok(())
    }

    /// Overwrites one byte at an absolute position, leaving the cursor
    /// where it was.
    fn set(&mut self, pos: usize, val: u8) -> (r: Result<(), DnsError>)
        requires
            old(self).wf(),
        ensures
            final(self).wf(),
            final(self).pos == old(self).pos,
            pos < 512 ==> r is Ok && final(self).buf@ == old(self).buf@.update(pos as int, val),
            pos >= 512 ==> r == Err::<(), DnsError>(DnsError::BufferBounds)
                && final(self).buf@ == old(self).buf@,
    {
        if pos >= 512 {
            return Err(DnsError::BufferBounds);
        }
        self.buf[pos] = val;
        Ok(())
    }

    /// Patches a 16-bit big-endian value in place at an absolute
    /// position; used to backfill a length field once its payload has
    /// been written.  The cursor does not move.
    pub fn set_u16(&mut self, pos: usize, val: u16) -> (r: Result<(), DnsError>)
        requires
            old(self).wf(),
        ensures
            final(self).wf(),
            final(self).pos == old(self).pos,
            pos + 2 <= 512 ==> r is Ok
                && final(self).buf@ == spliced(old(self).buf@, pos as int, u16_bytes(val)),
            pos + 2 > 512 ==> r == Err::<(), DnsError>(DnsError::BufferBounds)
                && final(self).buf@ == old(self).buf@,
    {
        let ghost pre = self.buf@;
        if pos >= 511 {
            return Err(DnsError::BufferBounds);
        }
        self.set(pos, (val / 256) as u8)?;
        self.set(pos + 1, (val % 256) as u8)?;
        proof {
            assert(self.buf@ =~= spliced(pre, pos as int, u16_bytes(val)));
        }
        Ok(())
    }

    /// Reads the byte at an absolute position without moving the cursor.
    pub fn get(&self, pos: usize) -> (r: Result<u8, DnsError>)
        requires
            self.wf(),
        ensures
            pos < 512 ==> r == Ok::<u8, DnsError>(self.buf@[pos as int]),
            pos >= 512 ==> r == Err::<u8, DnsError>(DnsError::BufferBounds),
    {
        if pos >= 512 {
            return Err(DnsError::BufferBounds);
        }
        Ok(self.buf[pos])
    }

    /// Borrows `len` bytes starting at `start` without moving the cursor;
    /// fails with `BufferBounds` exactly when the range would run past
    /// the packet capacity.
    pub fn get_range(&self, start: usize, len: usize) -> (r: Result<&[u8], DnsError>)
        requires
            self.wf(),
        ensures
            start + len <= 512 ==> r is Ok
                && r->Ok_0@ == self.buf@.subrange(start as int, start + len),
            start + len > 512 ==> r == Err::<&[u8], DnsError>(DnsError::BufferBounds),
    {
        if len > 512 || start > 512 - len {
            return Err(DnsError::BufferBounds);
        }
        Ok(vstd::slice::slice_subrange(self.buf.as_slice(), start, start + len))
    }

    /// Reads a domain name at the cursor, appending the lowercased
    /// dotted form to `outstr`.  Compression pointers are followed, the
    /// cursor ends just past the name's on-wire bytes (two bytes after
    /// the first pointer, or after the terminating zero), and a pointer
    /// chain longer than `MAX_JUMPS` is rejected as malformed.
    pub fn read_qname(&mut self, outstr: &mut String) -> (r: Result<(), DnsError>)
        requires
            old(self).wf(),
        ensures
            final(self).wf(),
            final(self).buf@ == old(self).buf@,
            match parse_qname_at(old(self).buf@, old(self).pos as int, MAX_JUMPS as nat) {
                QnameParse::Name(n) => r is Ok && final(outstr)@ == old(outstr)@ + n
                    && final(self).pos == qname_end_at(old(self).buf@, old(self).pos as int),
                QnameParse::OutOfBounds => r == Err::<(), DnsError>(DnsError::BufferBounds),
                QnameParse::TooManyJumps => r == Err::<(), DnsError>(DnsError::MalformedMessage),
            },
    {
        let ghost buf0 = self.buf@;
        let ghost pos0 = self.pos as int;
        let ghost out0 = outstr@;
        let mut pos: usize = self.pos;
        let mut jumped = false;
        let mut jumps: usize = 0;
        let mut wrote = false;
        let ghost mut acc: Seq<char> = Seq::empty();

        loop
            invariant_except_break
                !jumped ==> qname_end_at(buf0, pos0) == qname_end_at(buf0, pos as int),
                parse_qname_at(buf0, pos0, MAX_JUMPS as nat) == combine_qname(
                    acc,
                    parse_qname_at(buf0, pos as int, (MAX_JUMPS - jumps) as nat),
                ),
            invariant
                buf0 == old(self).buf@,
                pos0 == old(self).pos as int,
                out0 == old(outstr)@,
                self.wf(),
                self.buf@ == buf0,
                jumps <= MAX_JUMPS,
                outstr@ == out0 + acc,
                wrote <==> acc.len() > 0,
                !jumped ==> self.pos as int == pos0,
                jumped ==> self.pos as int == qname_end_at(buf0, pos0),
            ensures
                parse_qname_at(buf0, pos0, MAX_JUMPS as nat) == QnameParse::Name(acc),
                outstr@ == out0 + acc,
                self.wf(),
                self.buf@ == buf0,
                jumped ==> self.pos as int == qname_end_at(buf0, pos0),
                !jumped ==> self.pos as int == pos0 && qname_end_at(buf0, pos0) == pos as int,
            decreases MAX_JUMPS - jumps, 512 - pos,
        {
            let len = self.get(pos)?;
            if len >= 0xC0 {
                if jumps >= MAX_JUMPS {
                    return Err(DnsError::MalformedMessage);
                }
                if !jumped {
                    self.seek(pos + 2)?;
                }
                let b2 = self.get(pos + 1)?;
                let target = (len as usize - 0xC0) * 256 + b2 as usize;
                proof {
                    assert(parse_qname_at(buf0, pos as int, (MAX_JUMPS - jumps) as nat)
                        == parse_qname_at(buf0, target as int, (MAX_JUMPS - (jumps + 1)) as nat));
                }
                pos = target;
                jumps += 1;
                jumped = true;
            } else {
                let ghost p_lab = pos as int;
                pos += 1;
                if len == 0 {
                    proof {
                        assert(parse_qname_at(buf0, p_lab, (MAX_JUMPS - jumps) as nat)
                            == QnameParse::Name(Seq::<char>::empty()));
                        assert(name_join(acc, Seq::<char>::empty()) == acc);
                    }
                    break;
                }
                if wrote {
                    push_char(outstr, '.');
                }
                let ghost sep: Seq<char> = if wrote {
                    seq!['.']
                } else {
                    Seq::empty()
                };
                proof {
                    assert(outstr@ =~= out0 + acc + sep);
                }
                let lab = self.get_range(pos, len as usize)?;
                let ghost label = Seq::new(
                    len as nat,
                    |i: int| byte_char(lower_byte(buf0[p_lab + 1 + i])),
                );
                let ghost outbase = outstr@;
                let mut j: usize = 0;
                while j < lab.len()
                    invariant
                        buf0.len() == 512,
                        0 <= p_lab,
                        p_lab + 1 + len <= 512,
                        lab@ == buf0.subrange(p_lab + 1, p_lab + 1 + len),
                        lab@.len() == len,
                        j <= lab@.len(),
                        label == Seq::new(
                            len as nat,
                            |i: int| byte_char(lower_byte(buf0[p_lab + 1 + i])),
                        ),
                        outstr@ == outbase + label.take(j as int),
                    decreases lab@.len() - j,
                {
                    let b = lab[j];
                    let lb = if b >= 65 && b <= 90 {
                        b + 32
                    } else {
                        b
                    };
                    push_char(outstr, lb as char);
                    j += 1;
                    proof {
                        assert(outstr@ =~= outbase + label.take(j as int));
                    }
                }
                proof {
                    assert(label.take(len as int) =~= label);
                    assert(name_join(acc, label) =~= acc + sep + label);
                    let rest_parse = parse_qname_at(
                        buf0,
                        p_lab + 1 + len,
                        (MAX_JUMPS - jumps) as nat,
                    );
                    assert(parse_qname_at(buf0, p_lab, (MAX_JUMPS - jumps) as nat)
                        == combine_qname(label, rest_parse));
                    if rest_parse is Name {
                        lemma_name_join_assoc(acc, label, rest_parse->Name_0);
                    }
                    acc = name_join(acc, label);
                    assert(outstr@ =~= out0 + acc);
                }
                wrote = true;
                pos += len as usize;
            }
        }
        if !jumped {
            self.seek(pos)?;
        }
        Ok(())
    }

    /// Writes `data` verbatim at the cursor; fails with `BufferBounds`
    /// exactly when the bytes would not fit, and then changes nothing.
    pub fn write_bytes(&mut self, data: &[u8]) -> (r: Result<(), DnsError>)
        requires
            old(self).wf(),
        ensures
            final(self).wf(),
            old(self).pos + data@.len() <= 512 ==> r is Ok
                && final(self).buf@ == spliced(old(self).buf@, old(self).pos as int, data@)
                && final(self).pos == old(self).pos + data@.len(),
            old(self).pos + data@.len() > 512 ==> r == Err::<(), DnsError>(DnsError::BufferBounds)
                && final(self).buf@ == old(self).buf@
                && final(self).pos == old(self).pos,
    {
        if data.len() > 512 || self.pos > 512 - data.len() {
            return Err(DnsError::BufferBounds);
        }
        let ghost pre = self.buf@;
        let ghost p0 = self.pos as int;
        let mut i: usize = 0;
        while i < data.len()
            invariant
                pre == old(self).buf@,
                p0 == old(self).pos as int,
                self.wf(),
                data@.len() <= 512,
                0 <= p0,
                p0 + data@.len() <= 512,
                i <= data@.len(),
                self.pos as int == p0 + i,
                forall|k: int| 0 <= k < p0 ==> self.buf@[k] == pre[k],
                forall|k: int| p0 <= k < p0 + i ==> self.buf@[k] == data@[k - p0],
                forall|k: int| p0 + i <= k < 512 ==> self.buf@[k] == pre[k],
            decreases data@.len() - i,
        {
            self.write(data[i])?;
            i += 1;
        }
        proof {
            assert(self.buf@ =~= spliced(pre, p0, data@));
        }
        Ok(())
    }

    /// Writes a domain name at the cursor in uncompressed wire form:
    /// each non-empty dot-separated label as its length byte followed by
    /// its raw bytes, closed by a zero byte.  A label longer than 63
    /// bytes is rejected with `LabelTooLong`; on any failure the buffer
    /// is left unchanged.
    pub fn write_qname(&mut self, qname: &str) -> (r: Result<(), DnsError>)
        requires
            old(self).wf(),
        ensures
            final(self).wf(),
            match qname_wire(qname.spec_bytes()) {
                Some(w) => (old(self).pos + w.len() <= 512 ==> r is Ok
                    && final(self).buf@ == spliced(old(self).buf@, old(self).pos as int, w)
                    && final(self).pos == old(self).pos + w.len()) && (old(self).pos + w.len()
                    > 512 ==> r == Err::<(), DnsError>(DnsError::BufferBounds)
                    && final(self).buf@ == old(self).buf@
                    && final(self).pos == old(self).pos),
                None => r == Err::<(), DnsError>(DnsError::LabelTooLong)
                    && final(self).buf@ == old(self).buf@
                    && final(self).pos == old(self).pos,
            },
    {
        let w = match name_wire(qname.as_bytes()) {
            Ok(v) => v,
            Err(e) => {
                return Err(e);
            },
        };
        self.write_bytes(w.as_slice())
    }
}

/// Copies a byte slice into a fresh vector.
pub(crate) fn bytes_to_vec(s: &[u8]) -> (r: Vec<u8>)
    ensures
        r@ == s@,
{
    let mut out: Vec<u8> = Vec::new();
    let mut i: usize = 0;
    while i < s.len()
        invariant
            i <= s@.len(),
            out@ == s@.take(i as int),
        decreases s@.len() - i,
    {
        out.push(s[i]);
        i += 1;
        proof {
            assert(out@ =~= s@.take(i as int));
        }
    }
    proof {
        assert(s@.take(s@.len() as int) =~= s@);
    }
    out
}

/// Appends the two big-endian bytes of a 16-bit value.
pub(crate) fn push_u16(v: &mut Vec<u8>, val: u16)
    ensures
        final(v)@ == old(v)@ + u16_bytes(val),
{
    v.push((val / 256) as u8);
    v.push((val % 256) as u8);
    proof {
        assert(v@ =~= old(v)@ + u16_bytes(val));
    }
}

/// Appends the four big-endian bytes of a 32-bit value.
pub(crate) fn push_u32(v: &mut Vec<u8>, val: u32)
    ensures
        final(v)@ == old(v)@ + u32_bytes(val),
{
    v.push((val / 0x1000000) as u8);
    v.push(((val / 0x10000) % 256) as u8);
    v.push(((val / 256) % 256) as u8);
    v.push((val % 256) as u8);
    proof {
        assert(v@ =~= old(v)@ + u32_bytes(val));
    }
}

/// Builds the uncompressed wire form of a dotted name given as raw
/// bytes; rejects any label longer than 63 bytes.
pub(crate) fn name_wire(bytes: &[u8]) -> (r: Result<Vec<u8>, DnsError>)
    ensures
        match qname_wire(bytes@) {
            Some(w) => r is Ok && r->Ok_0@ == w,
            None => r == Err::<Vec<u8>, DnsError>(DnsError::LabelTooLong),
        },
{
    let n = bytes.len();
    let mut out: Vec<u8> = Vec::new();
    let mut start: usize = 0;
    loop
        invariant
            n == bytes@.len(),
            start <= n,
            match qname_wire_from(bytes@, start as nat) {
                Some(w2) => qname_wire(bytes@) == Some(out@ + w2),
                None => qname_wire(bytes@) is None,
            },
        decreases n - start,
    {
        let ghost acc0 = out@;
        let mut end = start;
        while end < n && bytes[end] != 46
            invariant
                n == bytes@.len(),
                start <= end <= n,
                find_dot(bytes@, start as nat) == find_dot(bytes@, end as nat),
            decreases n - end,
        {
            end += 1;
        }
        proof {
            assert(find_dot(bytes@, end as nat) == end as nat);
            lemma_find_dot(bytes@, start as nat);
        }
        let lab_len = end - start;
        if lab_len > 63 {
            return Err(DnsError::LabelTooLong);
        }
        let ghost head: Seq<u8> = if end == start {
            Seq::empty()
        } else {
            seq![(end - start) as u8] + bytes@.subrange(start as int, end as int)
        };
        if lab_len > 0 {
            out.push(lab_len as u8);
            let ghost mid = out@;
            let mut j = start;
            while j < end
                invariant
                    n == bytes@.len(),
                    start <= j <= end <= n,
                    mid == acc0.push((end - start) as u8),
                    out@ == mid + bytes@.subrange(start as int, j as int),
                decreases end - j,
            {
                out.push(bytes[j]);
                j += 1;
                proof {
                    assert(out@ =~= mid + bytes@.subrange(start as int, j as int));
                }
            }
            proof {
                assert(out@ =~= acc0 + head);
            }
        }
        if end == n {
            out.push(0);
            proof {
                assert(qname_wire_from(bytes@, start as nat) == Some(head + seq![0u8]));
                assert(out@ =~= acc0 + (head + seq![0u8]));
            }
            return Ok(out);
        }
        proof {
            let e1 = (end + 1) as nat;
            match qname_wire_from(bytes@, e1) {
                Some(w2) => {
                    assert(qname_wire_from(bytes@, start as nat) == Some(head + w2));
                    assert(acc0 + (head + w2) =~= (acc0 + head) + w2);
                },
                None => {
                    assert(qname_wire_from(bytes@, start as nat) is None);
                },
            }
        }
        start = end + 1;
    }
}

} // verus!
