//! The character stream buffer: committed consumption plus unbounded-offset
//! lookahead over a character source.  Its view is the sequence of
//! characters not yet consumed.

use vstd::prelude::*;

verus! {

/// A cursor over a character source.  `read` consumes, `lookahead` peeks at
/// any offset, `skip` discards; characters are observed strictly in source
/// order and consumed characters never reappear.
pub struct LexStream {
    chars: Vec<char>,
    pos: usize,
}

impl View for LexStream {
    type V = Seq<char>;

    /// The characters still to be read, in order.
    closed spec fn view(&self) -> Seq<char> {
        self.chars@.skip(self.pos as int)
    }
}

impl LexStream {
    #[verifier::type_invariant]
    spec fn wf(self) -> bool {
        self.pos <= self.chars.len()
    }

    /// A stream positioned at the first of the given characters.
    pub fn new(chars: Vec<char>) -> (s: Self)
        ensures
            s@ == chars@,
    {
        let s = LexStream { chars, pos: 0 };
        proof {
            assert(s@ =~= s.chars@);
        }
        s
    }

    /// Consume and return the next character; end of input is `None`.
    pub fn read(&mut self) -> (c: Option<char>)
        ensures
            old(self)@.len() > 0 ==> c == Some(old(self)@[0]) && final(self)@ == old(self)@.skip(1),
            old(self)@.len() == 0 ==> c == None::<char> && final(self)@ == old(self)@,
    {
        proof {
            use_type_invariant(&*self);
        }
        if self.pos < self.chars.len() {
            let ch = self.chars[self.pos];
            self.pos = self.pos + 1;
            proof {
                assert(self@ =~= old(self)@.skip(1));
            }
            Some(ch)
        } else {
            None
        }
    }

    /// Discard the next `count` characters (all of them when fewer remain).
    pub fn skip(&mut self, count: usize)
        ensures
            count <= old(self)@.len() ==> final(self)@ == old(self)@.skip(count as int),
            count > old(self)@.len() ==> final(self)@ == Seq::<char>::empty(),
    {
        proof {
            use_type_invariant(&*self);
        }
        let rem = self.chars.len() - self.pos;
        if count < rem {
            self.pos = self.pos + count;
            proof {
                assert(self@ =~= old(self)@.skip(count as int));
            }
        } else {
            self.pos = self.chars.len();
            proof {
                assert(self@ =~= old(self)@.skip(old(self)@.len() as int));
                if count <= old(self)@.len() {
                    assert(self@ =~= old(self)@.skip(count as int));
                } else {
                    assert(self@ =~= Seq::<char>::empty());
                }
            }
        }
    }

    /// The character at offset `offset` from the read position (0 is the
    /// next character), without consuming anything.
    pub fn lookahead(&mut self, offset: usize) -> (c: Option<char>)
        ensures
            final(self)@ == old(self)@,
            offset < old(self)@.len() ==> c == Some(old(self)@[offset as int]),
            offset >= old(self)@.len() ==> c == None::<char>,
    {
        proof {
            use_type_invariant(&*self);
        }
        if offset < self.chars.len() - self.pos {
            Some(self.chars[self.pos + offset])
        } else {
            None
        }
    }
}

} // verus!
