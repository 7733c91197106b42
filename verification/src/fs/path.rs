use vstd::prelude::*;

use crate::utils::{byte_from, find_byte, lemma_byte_from};
use vstd::string::StringSliceAdditionalSpecFns;
use vstd::utf8::{
    encode_utf8_valid_utf8, is_char_boundary, is_char_boundary_iff_not_is_continuation_byte,
    is_char_boundary_start_end_of_seq, valid_utf8, valid_utf8_split,
};

verus! {

/// The byte `/`, which separates the components of a path.
pub const SEPARATOR: u8 = 0x2F;

/// The pieces of `b` between its `/` bytes, in order (one piece when there is none).
pub open spec fn split_seq(b: Seq<u8>) -> Seq<Seq<u8>>
    decreases b.len(),
{
    let e = byte_from(b, 0, SEPARATOR);
    if e >= b.len() {
        seq![b]
    } else {
        proof {
            lemma_byte_from(b, 0, SEPARATOR);
        }
        seq![b.subrange(0, e)] + split_seq(b.subrange(e + 1, b.len() as int))
    }
}

/// A path: `/`-separated names.
#[derive(Clone, Copy, Debug)]
pub struct Path<'a> {
    inner: &'a str,
}

/// The bytes of a `str` are valid UTF-8.
proof fn lemma_str_utf8(s: &str)
    ensures
        valid_utf8(s.spec_bytes()),
{
    encode_utf8_valid_utf8(s@);
}

/// `s` split at `e`, the index of a `/` byte: the part before, and the part after the `/`.
pub(crate) fn split_around(s: &str, e: usize) -> (r: (&str, &str))
    requires
        e < s.spec_bytes().len(),
        s.spec_bytes()[e as int] == SEPARATOR,
    ensures
        r.0.spec_bytes() == s.spec_bytes().subrange(0, e as int),
        r.1.spec_bytes() == s.spec_bytes().subrange(e + 1, s.spec_bytes().len() as int),
{
    let ghost b = s.spec_bytes();
    proof {
        lemma_str_utf8(s);
        is_char_boundary_iff_not_is_continuation_byte(b, e as int);
    }
    let (head, tail) = s.split_at(e);
    let ghost t = tail.spec_bytes();
    proof {
        lemma_str_utf8(tail);
        assert(t[0] == SEPARATOR);
        reveal_with_fuel(is_char_boundary, 2);
        assert(is_char_boundary(t, 1));
    }
    let (_, rest) = tail.split_at(1);
    (head, rest)
}

impl<'a> Path<'a> {
    pub closed spec fn view(&self) -> Seq<u8> {
        self.inner.spec_bytes()
    }

    pub fn new(s: &'a str) -> (r: Self)
        ensures
            r@ == s.spec_bytes(),
    {
        Path { inner: s }
    }

    pub fn as_str(&self) -> (r: &'a str)
        ensures
            r.spec_bytes() == self@,
    {
        self.inner
    }

    /// Whether the path starts with `/`.
    pub fn is_absolute(&self) -> (r: bool)
        ensures
            r == (self@.len() > 0 && self@[0] == SEPARATOR),
    {
        let b = self.inner.as_bytes();
        b.len() > 0 && b[0] == SEPARATOR
    }

    /// The names between the `/` of the path, in order; an absolute path starts with an empty one.
    pub fn components(&self) -> (r: Vec<&'a str>)
        ensures
            r@.map_values(|c: &str| c.spec_bytes()) == split_seq(self@),
    {
        let mut parts: Vec<&'a str> = Vec::new();
        let mut rest: &'a str = self.inner;
        loop
            invariant
                parts@.map_values(|c: &str| c.spec_bytes()) + split_seq(rest.spec_bytes()) == split_seq(self@),
            decreases rest.spec_bytes().len(),
        {
            let b = rest.as_bytes();
            let e = find_byte(b, 0, SEPARATOR);
            proof {
                lemma_byte_from(b@, 0, SEPARATOR);
            }
            if e >= b.len() {
                let ghost before = parts@;
                parts.push(rest);
                proof {
                    assert(parts@.map_values(|c: &str| c.spec_bytes()) =~= before.map_values(|c: &str| c.spec_bytes())
                        + split_seq(rest.spec_bytes()));
                }
                return parts;
            }
            let (head, tail) = split_around(rest, e);
            let ghost before = parts@;
            parts.push(head);
            proof {
                assert(parts@.map_values(|c: &str| c.spec_bytes()) =~= before.map_values(|c: &str| c.spec_bytes())
                    + seq![head.spec_bytes()]);
            }
            rest = tail;
        }
    }

    /// The last component of the path, if it is not empty.
    pub fn file_name(&self) -> (r: Option<&'a str>)
        ensures
            ({
                let last = split_seq(self@).last();
                &&& last.len() == 0 ==> r is None
                &&& last.len() > 0 ==> (r matches Some(n) && n.spec_bytes() == last)
            }),
    {
        let parts = self.components();
        proof {
            lemma_split_nonempty(self@);
            assert(parts@.len() == split_seq(self@).len());
            assert(parts@.map_values(|c: &str| c.spec_bytes())[parts@.len() - 1] == parts@.last().spec_bytes());
        }
        let last = parts[parts.len() - 1];
        proof {
            assert(last == parts@.last());
            assert(last.spec_bytes() == split_seq(self@).last());
        }
        let n = last.as_bytes().len();
        if n == 0 {
            None
        } else {
            Some(last)
        }
    }
}

/// A split has at least one piece.
proof fn lemma_split_nonempty(b: Seq<u8>)
    ensures
        split_seq(b).len() >= 1,
    decreases b.len(),
{
    let e = byte_from(b, 0, SEPARATOR);
    if e < b.len() {
        lemma_byte_from(b, 0, SEPARATOR);
        lemma_split_nonempty(b.subrange(e + 1, b.len() as int));
    }
}

} // verus!
