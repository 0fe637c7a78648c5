use vstd::prelude::*;

verus! {

pub open spec fn min(a: int, b: int) -> int {
    if a <= b {
        a
    } else {
        b
    }
}

/// The bytes forwarded from successive reads `reads` when `remaining` body
/// bytes are still owed: of each read, as much as is still owed.
pub open spec fn relay_fixed(remaining: int, reads: Seq<Seq<u8>>) -> Seq<u8>
    decreases reads.len(),
{
    if reads.len() == 0 {
        Seq::empty()
    } else {
        let t = min(remaining, reads[0].len() as int);
        reads[0].take(t) + relay_fixed(remaining - t, reads.drop_first())
    }
}

pub open spec fn views(reads: Seq<Vec<u8>>) -> Seq<Seq<u8>> {
    reads.map_values(|r: Vec<u8>| r@)
}

/// A `ContentLength` body: how many of its bytes are still to be forwarded.
pub struct BodyCursor {
    pub remaining: u64,
}

impl BodyCursor {
    pub fn new(length: u64) -> (r: BodyCursor)
        ensures
            r.remaining == length,
    {
        BodyCursor { remaining: length }
    }

    pub fn is_done(&self) -> (r: bool)
        ensures
            r == (self.remaining == 0),
    {
        self.remaining == 0
    }

    /// Forwards to `out` the part of `input` that still belongs to the body and
    /// returns its length; the rest of `input` belongs to the next message.
    pub fn forward(&mut self, input: &[u8], out: &mut Vec<u8>) -> (used: usize)
        ensures
            used == min(old(self).remaining as int, input.len() as int),
            final(self).remaining == old(self).remaining - used,
            final(out)@ == old(out)@ + input@.take(used as int),
    {
        let used: usize = if (input.len() as u64) <= self.remaining {
            input.len()
        } else {
            self.remaining as usize
        };
        let mut i: usize = 0;
        while i < used
            invariant
                used <= input.len(),
                i <= used,
                out@ == old(out)@ + input@.take(i as int),
            decreases used - i,
        {
            out.push(input[i]);
            assert(input@.take(i + 1) =~= input@.take(i as int).push(input@[i as int]));
            i = i + 1;
        }
        self.remaining = self.remaining - used as u64;
        used
    }
}

/// Forwards a body of `length` bytes that arrives in the partial reads `reads`.
pub fn relay_content_length(length: u64, reads: &Vec<Vec<u8>>) -> (r: Vec<u8>)
    ensures
        r@ == relay_fixed(length as int, views(reads@)),
{
    let mut cursor = BodyCursor::new(length);
    let mut out: Vec<u8> = Vec::new();
    let ghost rs = views(reads@);
    let mut i: usize = 0;
    assert(rs.subrange(0, rs.len() as int) =~= rs);
    assert(out@ + relay_fixed(length as int, rs) =~= relay_fixed(length as int, rs));
    while i < reads.len()
        invariant
            i <= reads.len(),
            rs == views(reads@),
            out@ + relay_fixed(cursor.remaining as int, rs.subrange(i as int, rs.len() as int))
                == relay_fixed(length as int, rs),
        decreases reads.len() - i,
    {
        let ghost before = out@;
        let ghost rem = cursor.remaining as int;
        let ghost tail = rs.subrange(i as int, rs.len() as int);
        assert(tail.drop_first() =~= rs.subrange(i + 1, rs.len() as int));
        assert(tail[0] == reads@[i as int]@);
        cursor.forward(reads[i].as_slice(), &mut out);
        assert(out@ + relay_fixed(cursor.remaining as int, tail.drop_first()) =~= before
            + relay_fixed(rem, tail));
        i = i + 1;
    }
    assert(rs.subrange(i as int, rs.len() as int) =~= Seq::<Seq<u8>>::empty());
    assert(out@ + Seq::<u8>::empty() =~= out@);
    out
}

/// However a body of `length` bytes is split over reads, exactly the first
/// `length` bytes of what arrived (or all of it, if less arrived) are forwarded.
pub proof fn lemma_fixed_length_exact(length: nat, reads: Seq<Seq<u8>>)
    ensures
        relay_fixed(length as int, reads) == reads.flatten().take(
            min(length as int, reads.flatten().len() as int),
        ),
    decreases reads.len(),
{
    if reads.len() > 0 {
        let r0 = reads[0];
        let rest = reads.drop_first();
        let t = min(length as int, r0.len() as int);
        lemma_fixed_length_exact((length - t) as nat, rest);
        assert(reads.flatten() == r0 + rest.flatten());
        assert(relay_fixed(length as int, reads) =~= reads.flatten().take(
            min(length as int, reads.flatten().len() as int),
        ));
    } else {
        assert(reads.flatten() =~= Seq::<u8>::empty());
    }
}

} // verus!
