//! Identifier generation: renders entropy bytes handed in by the caller as
//! short fixed-width lowercase hexadecimal tokens, eight bytes per token.

use crate::strutil::push_char;
use vstd::prelude::*;

verus! {

/// The lowercase hexadecimal digit for a value below sixteen.
pub open spec fn hex_digit(n: u8) -> char
    recommends
        n < 16,
{
    if n == 0 {
        '0'
    } else if n == 1 {
        '1'
    } else if n == 2 {
        '2'
    } else if n == 3 {
        '3'
    } else if n == 4 {
        '4'
    } else if n == 5 {
        '5'
    } else if n == 6 {
        '6'
    } else if n == 7 {
        '7'
    } else if n == 8 {
        '8'
    } else if n == 9 {
        '9'
    } else if n == 10 {
        'a'
    } else if n == 11 {
        'b'
    } else if n == 12 {
        'c'
    } else if n == 13 {
        'd'
    } else if n == 14 {
        'e'
    } else {
        'f'
    }
}

/// The two hexadecimal digits of one byte, low nibble first.
pub open spec fn byte_hex(b: u8) -> Seq<char> {
    seq![hex_digit(b % 16), hex_digit(b / 16)]
}

/// The hexadecimal rendering of a byte sequence, two digits per byte.
pub open spec fn id_chars(bs: Seq<u8>) -> Seq<char>
    decreases bs.len(),
{
    if bs.len() == 0 {
        Seq::empty()
    } else {
        id_chars(bs.drop_last()) + byte_hex(bs.last())
    }
}

/// The lowercase hexadecimal digit character for a value below sixteen.
pub fn hex_char(n: u8) -> (c: char)
    requires
        n < 16,
    ensures
        c == hex_digit(n),
{
    if n == 0 {
        '0'
    } else if n == 1 {
        '1'
    } else if n == 2 {
        '2'
    } else if n == 3 {
        '3'
    } else if n == 4 {
        '4'
    } else if n == 5 {
        '5'
    } else if n == 6 {
        '6'
    } else if n == 7 {
        '7'
    } else if n == 8 {
        '8'
    } else if n == 9 {
        '9'
    } else if n == 10 {
        'a'
    } else if n == 11 {
        'b'
    } else if n == 12 {
        'c'
    } else if n == 13 {
        'd'
    } else if n == 14 {
        'e'
    } else {
        'f'
    }
}

/// A supply of fresh identifiers, drawn from entropy bytes provided at
/// construction.  Eight bytes of entropy yield one sixteen-digit token.
pub struct IdGen {
    bytes: Vec<u8>,
    pos: usize,
}

impl IdGen {
    /// The generator's cursor lies within its byte store.
    pub closed spec fn wf(&self) -> bool {
        self.pos <= self.bytes@.len()
    }

    /// The entropy bytes not yet consumed.
    pub closed spec fn remaining(&self) -> Seq<u8> {
        self.bytes@.skip(self.pos as int)
    }

    /// A generator over the given entropy bytes.
    pub fn new(entropy: Vec<u8>) -> (g: IdGen)
        ensures
            g.wf(),
            g.remaining() == entropy@,
    {
        let g = IdGen { bytes: entropy, pos: 0 };
        proof {
            assert(g.remaining() =~= g.bytes@);
        }
        g
    }

    /// How many entropy bytes are still available.
    pub fn remaining_len(&self) -> (n: usize)
        requires
            self.wf(),
        ensures
            n == self.remaining().len(),
    {
        self.bytes.len() - self.pos
    }

    /// Draws the next eight entropy bytes and renders them as a sixteen-digit
    /// lowercase hexadecimal token, low nibble of each byte first.
    pub fn fresh_id(&mut self) -> (id: String)
        requires
            old(self).wf(),
            old(self).remaining().len() >= 8,
        ensures
            final(self).wf(),
            final(self).remaining() == old(self).remaining().skip(8),
            id@ == id_chars(old(self).remaining().take(8)),
    {
        let mut id = String::new();
        let mut i: usize = 0;
        while i < 8
            invariant
                self.wf(),
                *self == *old(self),
                old(self).remaining().len() >= 8,
                i <= 8,
                id@ == id_chars(old(self).remaining().take(i as int)),
            decreases 8 - i,
        {
            let blen = self.bytes.len();
            proof {
                assert(self.bytes@.skip(self.pos as int).len() == self.bytes@.len() - self.pos);
                assert(self.pos + i < blen);
            }
            let b = self.bytes[self.pos + i];
            assert(b == old(self).remaining()[i as int]);
            push_char(&mut id, hex_char(b % 16));
            push_char(&mut id, hex_char(b / 16));
            proof {
                let r = old(self).remaining();
                assert(r.take(i + 1).drop_last() =~= r.take(i as int));
                assert(r.take(i + 1).last() == b);
                assert(id@ =~= id_chars(r.take(i as int)) + byte_hex(b));
            }
            i = i + 1;
        }
        let blen = self.bytes.len();
        proof {
            assert(self.bytes@.skip(self.pos as int).len() == self.bytes@.len() - self.pos);
            assert(self.pos + 8 <= blen);
        }
        self.pos = self.pos + 8;
        proof {
            assert(final(self).remaining() =~= old(self).remaining().skip(8));
        }
        id
    }
}

} // verus!
