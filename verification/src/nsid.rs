//! The Name Server Identifier (NSID) option from EDNS.
//!
//! The option's payload is an opaque sequence of octets chosen by the name
//! server.  This module holds the fixed-layout encode and decode of the
//! option: a parser cursor that can fail with a "buffer too short"
//! condition, and a builder that appends `code, length, payload` with the
//! two header fields in big-endian byte order.

use vstd::prelude::*;

verus! {

/// The code the NSID option is registered under.
pub const OPTION_CODE_NSID: u16 = 3;

/// An attempt was made to read or write beyond the end of a buffer.
#[derive(Debug)]
pub struct ShortBuf;

/// The big-endian encoding of a 16-bit value.
pub open spec fn u16_be(v: u16) -> Seq<u8> {
    seq![(v / 256) as u8, (v % 256) as u8]
}

/// The upper-case hexadecimal digit for a value below 16.
pub open spec fn hex_char(d: int) -> char {
    if d == 0 {
        '0'
    } else if d == 1 {
        '1'
    } else if d == 2 {
        '2'
    } else if d == 3 {
        '3'
    } else if d == 4 {
        '4'
    } else if d == 5 {
        '5'
    } else if d == 6 {
        '6'
    } else if d == 7 {
        '7'
    } else if d == 8 {
        '8'
    } else if d == 9 {
        '9'
    } else if d == 10 {
        'A'
    } else if d == 11 {
        'B'
    } else if d == 12 {
        'C'
    } else if d == 13 {
        'D'
    } else if d == 14 {
        'E'
    } else {
        'F'
    }
}

/// The two hexadecimal digits of one octet, high digit first.
pub open spec fn hex_pair(b: u8) -> Seq<char> {
    seq![hex_char(b as int / 16), hex_char(b as int % 16)]
}

/// The hexadecimal text form of a byte sequence: two digits per octet.
pub open spec fn hex_of(s: Seq<u8>) -> Seq<char>
    decreases s.len(),
{
    if s.len() == 0 {
        Seq::empty()
    } else {
        hex_pair(s[0]) + hex_of(s.drop_first())
    }
}

/// Appending one byte appends its two digits.
proof fn lemma_hex_of_push(s: Seq<u8>, x: u8)
    ensures
        hex_of(s.push(x)) == hex_of(s) + hex_pair(x),
    decreases s.len(),
{
    if s.len() == 0 {
        assert(s.push(x)[0] == x);
        assert(s.push(x).drop_first() =~= Seq::<u8>::empty());
        assert(hex_of(s.push(x)) == hex_pair(x) + hex_of(Seq::<u8>::empty()));
        assert(hex_pair(x) + Seq::<char>::empty() =~= hex_pair(x));
        assert(hex_of(s) + hex_pair(x) =~= hex_pair(x));
    } else {
        lemma_hex_of_push(s.drop_first(), x);
        assert(s.push(x)[0] == s[0]);
        assert(s.push(x).drop_first() =~= s.drop_first().push(x));
        assert(hex_of(s.push(x)) == hex_pair(s[0]) + hex_of(s.drop_first().push(x)));
        assert(hex_of(s) == hex_pair(s[0]) + hex_of(s.drop_first()));
        assert(hex_pair(s[0]) + (hex_of(s.drop_first()) + hex_pair(x)) =~= (hex_pair(s[0]) + hex_of(
            s.drop_first(),
        )) + hex_pair(x));
    }
}

/// The one-character string holding the hexadecimal digit for `d`.
fn hex_digit_str(d: u8) -> (r: &'static str)
    requires
        d < 16,
    ensures
        r@ == seq![hex_char(d as int)],
{
    if d == 0 {
        proof {
            reveal_strlit("0");
        }
        "0"
    } else if d == 1 {
        proof {
            reveal_strlit("1");
        }
        "1"
    } else if d == 2 {
        proof {
            reveal_strlit("2");
        }
        "2"
    } else if d == 3 {
        proof {
            reveal_strlit("3");
        }
        "3"
    } else if d == 4 {
        proof {
            reveal_strlit("4");
        }
        "4"
    } else if d == 5 {
        proof {
            reveal_strlit("5");
        }
        "5"
    } else if d == 6 {
        proof {
            reveal_strlit("6");
        }
        "6"
    } else if d == 7 {
        proof {
            reveal_strlit("7");
        }
        "7"
    } else if d == 8 {
        proof {
            reveal_strlit("8");
        }
        "8"
    } else if d == 9 {
        proof {
            reveal_strlit("9");
        }
        "9"
    } else if d == 10 {
        proof {
            reveal_strlit("A");
        }
        "A"
    } else if d == 11 {
        proof {
            reveal_strlit("B");
        }
        "B"
    } else if d == 12 {
        proof {
            reveal_strlit("C");
        }
        "C"
    } else if d == 13 {
        proof {
            reveal_strlit("D");
        }
        "D"
    } else if d == 14 {
        proof {
            reveal_strlit("E");
        }
        "E"
    } else {
        proof {
            reveal_strlit("F");
        }
        "F"
    }
}

/// A cursor over a byte buffer from which protocol elements are parsed.
pub struct Parser {
    data: Vec<u8>,
    pos: usize,
}

impl Parser {
    /// The whole underlying buffer.
    pub closed spec fn bytes(&self) -> Seq<u8> {
        self.data@
    }

    /// How far the cursor has advanced.
    pub closed spec fn position(&self) -> int {
        self.pos as int
    }

    /// The cursor never points past the end of the buffer.
    pub open spec fn wf(&self) -> bool {
        0 <= self.position() <= self.bytes().len()
    }

    /// Creates a parser at the start of `data`.
    pub fn new(data: Vec<u8>) -> (r: Self)
        ensures
            r.wf(),
            r.bytes() == data@,
            r.position() == 0,
    {
        Parser { data, pos: 0 }
    }

    /// The number of bytes not yet consumed.
    pub fn remaining(&self) -> (r: usize)
        requires
            self.wf(),
        ensures
            r == self.bytes().len() - self.position(),
    {
        self.data.len() - self.pos
    }

    /// Consumes and returns the next `len` bytes.
    ///
    /// Fails with [`ShortBuf`], leaving the cursor where it was, exactly
    /// when fewer than `len` bytes remain.
    pub fn parse_bytes(&mut self, len: usize) -> (r: Result<Vec<u8>, ShortBuf>)
        requires
            old(self).wf(),
        ensures
            final(self).wf(),
            final(self).bytes() == old(self).bytes(),
            match r {
                Ok(v) => {
                    &&& old(self).bytes().len() - old(self).position() >= len
                    &&& v@ == old(self).bytes().subrange(
                        old(self).position(),
                        old(self).position() + len,
                    )
                    &&& final(self).position() == old(self).position() + len
                },
                Err(_) => {
                    &&& old(self).bytes().len() - old(self).position() < len
                    &&& final(self).position() == old(self).position()
                },
            },
    {
        if self.data.len() - self.pos < len {
            return Err(ShortBuf);
        }
        let end: usize = self.pos + len;
        let mut out: Vec<u8> = Vec::new();
        let mut j: usize = self.pos;
        while j < end
            invariant
                self == old(self),
                self.pos <= j <= end,
                end <= self.data@.len(),
                end == self.pos + len,
                out@ == self.data@.subrange(self.pos as int, j as int),
            decreases end - j,
        {
            out.push(self.data[j]);
            j = j + 1;
            proof {
                assert(out@ =~= self.data@.subrange(self.pos as int, j as int));
            }
        }
        self.pos = end;
        Ok(out)
    }
}

/// Builds the options section of a message into a buffer of a fixed size
/// limit, one option at a time.
pub struct OptBuilder {
    buf: Vec<u8>,
    limit: usize,
}

impl OptBuilder {
    /// What has been written so far.
    pub closed spec fn bytes(&self) -> Seq<u8> {
        self.buf@
    }

    /// The size limit the buffer was created with.
    pub closed spec fn limit_spec(&self) -> int {
        self.limit as int
    }

    /// The builder never grows beyond its limit.
    pub open spec fn wf(&self) -> bool {
        self.bytes().len() <= self.limit_spec()
    }

    /// Borrows what has been written so far.
    pub fn as_bytes(&self) -> (r: &Vec<u8>)
        ensures
            r@ == self.bytes(),
    {
        &self.buf
    }

    /// Creates an empty builder that will hold at most `limit` bytes.
    pub fn new(limit: usize) -> (r: Self)
        ensures
            r.wf(),
            r.bytes() == Seq::<u8>::empty(),
            r.limit_spec() == limit,
    {
        OptBuilder { buf: Vec::new(), limit }
    }

    /// Appends one option: its code, the payload length, both big-endian,
    /// then the payload itself.
    ///
    /// Fails with [`ShortBuf`], leaving the buffer untouched, exactly when
    /// the four header bytes plus the payload would exceed the limit.
    pub fn append_option(&mut self, code: u16, data: &[u8]) -> (r: Result<(), ShortBuf>)
        requires
            old(self).wf(),
            data@.len() <= 0xFFFF,
        ensures
            final(self).wf(),
            final(self).limit_spec() == old(self).limit_spec(),
            match r {
                Ok(_) => {
                    &&& old(self).bytes().len() + 4 + data@.len() <= old(self).limit_spec()
                    &&& final(self).bytes() == old(self).bytes() + u16_be(code) + u16_be(
                        data@.len() as u16,
                    ) + data@
                },
                Err(_) => {
                    &&& old(self).bytes().len() + 4 + data@.len() > old(self).limit_spec()
                    &&& final(self).bytes() == old(self).bytes()
                },
            },
    {
        let used = self.buf.len();
        if self.limit - used < 4 || data.len() > self.limit - used - 4 {
            return Err(ShortBuf);
        }
        let len16 = data.len() as u16;
        self.buf.push((code / 256) as u8);
        self.buf.push((code % 256) as u8);
        self.buf.push((len16 / 256) as u8);
        self.buf.push((len16 % 256) as u8);
        proof {
            assert(self.buf@ =~= old(self).bytes() + u16_be(code) + u16_be(len16));
        }
        let ghost header = self.buf@;
        let mut i: usize = 0;
        while i < data.len()
            invariant
                i <= data@.len(),
                self.buf@ == header + data@.subrange(0, i as int),
                self.limit == old(self).limit,
                header.len() + data@.len() <= self.limit,
            decreases data@.len() - i,
        {
            self.buf.push(data[i]);
            i = i + 1;
            proof {
                assert(self.buf@ =~= header + data@.subrange(0, i as int));
            }
        }
        proof {
            assert(data@.subrange(0, data@.len() as int) =~= data@);
        }
        Ok(())
    }
}

/// The Name Server Identifier (NSID) option.
#[derive(Clone, Debug, Eq, Hash, Ord, PartialEq, PartialOrd)]
pub struct Nsid {
    bytes: Vec<u8>,
}

impl Nsid {
    /// The option's payload.
    pub closed spec fn octets(&self) -> Seq<u8> {
        self.bytes@
    }

    /// Borrows the option's payload.
    pub fn as_bytes(&self) -> (r: &Vec<u8>)
        ensures
            r@ == self.octets(),
    {
        &self.bytes
    }

    /// Wraps a payload.
    pub fn new(bytes: Vec<u8>) -> (r: Self)
        ensures
            r.octets() == bytes@,
    {
        Nsid { bytes }
    }

    /// Appends an NSID option carrying `data` to the builder.
    ///
    /// The payload's length must fit the option's 16-bit length field.
    pub fn push(builder: &mut OptBuilder, data: &[u8]) -> (r: Result<(), ShortBuf>)
        requires
            old(builder).wf(),
            data@.len() <= 0xFFFF,
        ensures
            final(builder).wf(),
            final(builder).limit_spec() == old(builder).limit_spec(),
            match r {
                Ok(_) => {
                    &&& old(builder).bytes().len() + 4 + data@.len() <= old(builder).limit_spec()
                    &&& final(builder).bytes() == old(builder).bytes() + u16_be(OPTION_CODE_NSID)
                        + u16_be(data@.len() as u16) + data@
                },
                Err(_) => {
                    &&& old(builder).bytes().len() + 4 + data@.len() > old(builder).limit_spec()
                    &&& final(builder).bytes() == old(builder).bytes()
                },
            },
    {
        builder.append_option(OPTION_CODE_NSID, data)
    }

    /// The option code this option is composed under.
    pub fn code(&self) -> (r: u16)
        ensures
            r == OPTION_CODE_NSID,
    {
        OPTION_CODE_NSID
    }

    /// Parses an option body of `len` bytes from the cursor.
    ///
    /// An option code other than NSID's is not for this type and yields
    /// `Ok(None)` with the cursor untouched.  Otherwise the next `len`
    /// bytes become the payload, or [`ShortBuf`] is returned, exactly when
    /// fewer than `len` bytes remain.
    pub fn parse(code: u16, len: usize, parser: &mut Parser) -> (r: Result<Option<Nsid>, ShortBuf>)
        requires
            old(parser).wf(),
        ensures
            final(parser).wf(),
            final(parser).bytes() == old(parser).bytes(),
            code != OPTION_CODE_NSID ==> r == Ok::<Option<Nsid>, ShortBuf>(None)
                && final(parser).position() == old(parser).position(),
            code == OPTION_CODE_NSID ==> match r {
                Ok(opt) => {
                    &&& old(parser).bytes().len() - old(parser).position() >= len
                    &&& final(parser).position() == old(parser).position() + len
                    &&& opt matches Some(n) && n.octets() == old(parser).bytes().subrange(
                        old(parser).position(),
                        old(parser).position() + len,
                    )
                },
                Err(_) => {
                    &&& old(parser).bytes().len() - old(parser).position() < len
                    &&& final(parser).position() == old(parser).position()
                },
            },
    {
        if code != OPTION_CODE_NSID {
            return Ok(None);
        }
        match parser.parse_bytes(len) {
            Ok(bytes) => Ok(Some(Nsid::new(bytes))),
            Err(e) => Err(e),
        }
    }

    /// The payload as text: two upper-case hexadecimal digits per octet,
    /// the form user interfaces read and write the option in.
    pub fn to_hex(&self) -> (r: String)
        ensures
            r@ == hex_of(self.octets()),
    {
        let mut out = String::new();
        let mut i: usize = 0;
        while i < self.bytes.len()
            invariant
                i <= self.bytes@.len(),
                out@ == hex_of(self.bytes@.subrange(0, i as int)),
            decreases self.bytes@.len() - i,
        {
            let b = self.bytes[i];
            out.append(hex_digit_str(b / 16));
            out.append(hex_digit_str(b % 16));
            i = i + 1;
            proof {
                let prefix = self.bytes@.subrange(0, i - 1);
                lemma_hex_of_push(prefix, b);
                assert(prefix.push(b) =~= self.bytes@.subrange(0, i as int));
                assert(seq![hex_char(b as int / 16)] + seq![hex_char(b as int % 16)] =~= hex_pair(
                    b,
                ));
                assert((hex_of(prefix) + seq![hex_char(b as int / 16)]) + seq![
                    hex_char(b as int % 16),
                ] =~= hex_of(prefix) + hex_pair(b));
            }
        }
        proof {
            assert(self.bytes@.subrange(0, self.bytes@.len() as int) =~= self.bytes@);
        }
        out
    }

    /// The number of bytes the option's body composes to.
    pub fn compose_len(&self) -> (r: usize)
        ensures
            r == self.octets().len(),
    {
        self.bytes.len()
    }

    /// Appends the option's body to a buffer.
    pub fn compose(&self, buf: &mut Vec<u8>)
        requires
            self.octets().len() < 0xFFFF,
            old(buf)@.len() + self.octets().len() <= usize::MAX,
        ensures
            final(buf)@ == old(buf)@ + self.octets(),
    {
        let mut i: usize = 0;
        while i < self.bytes.len()
            invariant
                i <= self.bytes@.len(),
                old(buf)@.len() + self.bytes@.len() <= usize::MAX,
                buf@ == old(buf)@ + self.bytes@.subrange(0, i as int),
            decreases self.bytes@.len() - i,
        {
            buf.push(self.bytes[i]);
            i = i + 1;
            proof {
                assert(buf@ =~= old(buf)@ + self.bytes@.subrange(0, i as int));
            }
        }
        proof {
            assert(self.bytes@.subrange(0, self.bytes@.len() as int) =~= self.bytes@);
        }
    }
}

} // verus!
