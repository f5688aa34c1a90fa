//! Reading and writing lists of wire handles as bytes.
//!
//! A number is written as eight little-endian bytes; a list of wires as
//! its length followed by the index of each wire.

use crate::target::Target;
use vstd::bytes::{
    lemma_auto_spec_u64_to_from_le_bytes, spec_u64_from_le_bytes, spec_u64_to_le_bytes,
    u64_from_le_bytes, u64_to_le_bytes,
};
use vstd::prelude::*;
use vstd::slice::slice_subrange;

verus! {

/// Why bytes could not be read back.
#[derive(Clone, Copy, Debug, PartialEq, Eq, Structural)]
pub enum IoError {
    /// The bytes end before the value does.
    UnexpectedEnd,
    /// A number does not fit the machine's word.
    Overflow,
}

/// The outcome of reading or writing bytes.
pub type IoResult<T> = Result<T, IoError>;

/// The bytes of a number.
pub open spec fn usize_bytes(n: usize) -> Seq<u8> {
    spec_u64_to_le_bytes(n as u64)
}

/// The bytes of the indices of `ts`, one after another.
pub open spec fn targets_bytes(ts: Seq<Target>) -> Seq<u8>
    decreases ts.len(),
{
    if ts.len() == 0 {
        Seq::empty()
    } else {
        targets_bytes(ts.drop_last()) + usize_bytes(ts.last().index)
    }
}

/// The bytes of a list of wires: its length, then its indices.
pub open spec fn target_vec_bytes(ts: Seq<Target>) -> Seq<u8> {
    usize_bytes(ts.len() as usize) + targets_bytes(ts)
}

/// The number that `bytes` start with.
pub open spec fn parsed_usize(bytes: Seq<u8>) -> Result<usize, IoError> {
    if bytes.len() < 8 {
        Err(IoError::UnexpectedEnd)
    } else if spec_u64_from_le_bytes(bytes.take(8)) > usize::MAX {
        Err(IoError::Overflow)
    } else {
        Ok(spec_u64_from_le_bytes(bytes.take(8)) as usize)
    }
}

/// The `count` wires that `bytes` start with. The first number that
/// cannot be read decides the error.
pub open spec fn parsed_targets(bytes: Seq<u8>, count: nat) -> Result<Seq<Target>, IoError>
    decreases count,
{
    if count == 0 {
        Ok(Seq::empty())
    } else {
        match parsed_targets(bytes, (count - 1) as nat) {
            Err(e) => Err(e),
            Ok(front) => match parsed_usize(bytes.skip(8 * (count - 1))) {
                Err(e) => Err(e),
                Ok(index) => Ok(front.push(Target { index })),
            },
        }
    }
}

/// The list of wires that `bytes` start with.
pub open spec fn parsed_target_vec(bytes: Seq<u8>) -> Result<Seq<Target>, IoError> {
    match parsed_usize(bytes) {
        Err(e) => Err(e),
        Ok(count) => parsed_targets(bytes.skip(8), count as nat),
    }
}

/// The number of bytes that a list of `count` wires takes.
pub open spec fn target_vec_len(count: nat) -> nat {
    8 + 8 * count
}

/// Once a wire cannot be read, no longer list can.
pub proof fn lemma_parse_error_persists(bytes: Seq<u8>, short: nat, long: nat)
    requires
        short <= long,
        parsed_targets(bytes, short) is Err,
    ensures
        parsed_targets(bytes, long) == parsed_targets(bytes, short),
    decreases long,
{
    if short < long {
        lemma_parse_error_persists(bytes, short, (long - 1) as nat);
    }
}

/// The bytes of `n` wires are `8 * n` bytes.
pub proof fn lemma_targets_bytes_len(ts: Seq<Target>)
    ensures
        targets_bytes(ts).len() == 8 * ts.len(),
    decreases ts.len(),
{
    lemma_auto_spec_u64_to_from_le_bytes();
    if ts.len() > 0 {
        lemma_targets_bytes_len(ts.drop_last());
    }
}

/// A number is read back from its bytes, whatever follows them.
pub proof fn lemma_usize_round_trip(n: usize, rest: Seq<u8>)
    ensures
        parsed_usize(usize_bytes(n) + rest) == Ok::<usize, IoError>(n),
        (usize_bytes(n) + rest).skip(8) == rest,
        usize_bytes(n).len() == 8,
{
    lemma_auto_spec_u64_to_from_le_bytes();
    let bytes = usize_bytes(n) + rest;
    assert(bytes.take(8) =~= usize_bytes(n));
    assert(bytes.skip(8) =~= rest);
}

/// Wires are read back from their bytes, whatever follows them.
pub proof fn lemma_targets_round_trip(ts: Seq<Target>, rest: Seq<u8>)
    ensures
        parsed_targets(targets_bytes(ts) + rest, ts.len()) == Ok::<Seq<Target>, IoError>(ts),
    decreases ts.len(),
{
    if ts.len() > 0 {
        let front = ts.drop_last();
        let last = usize_bytes(ts.last().index);
        let bytes = targets_bytes(ts) + rest;
        lemma_targets_round_trip(front, last + rest);
        assert(bytes =~= targets_bytes(front) + (last + rest));
        lemma_targets_bytes_len(front);
        assert(bytes.skip(8 * (ts.len() - 1)) =~= last + rest);
        lemma_usize_round_trip(ts.last().index, rest);
        assert(front.push(Target { index: ts.last().index }) =~= ts);
        assert(parsed_targets(bytes, (ts.len() - 1) as nat) == Ok::<Seq<Target>, IoError>(front));
        assert(parsed_usize(bytes.skip(8 * (ts.len() - 1))) == Ok::<usize, IoError>(ts.last().index));
    } else {
        assert(ts =~= Seq::<Target>::empty());
    }
}

/// A list of wires is read back from its bytes, whatever follows them:
/// reading undoes writing.
pub proof fn lemma_target_vec_round_trip(ts: Seq<Target>, rest: Seq<u8>)
    requires
        ts.len() <= usize::MAX,
    ensures
        parsed_target_vec(target_vec_bytes(ts) + rest) == Ok::<Seq<Target>, IoError>(ts),
        (target_vec_bytes(ts) + rest).skip(target_vec_len(ts.len()) as int) == rest,
        target_vec_bytes(ts).len() == target_vec_len(ts.len()),
{
    let bytes = target_vec_bytes(ts) + rest;
    let body = targets_bytes(ts) + rest;
    assert(bytes =~= usize_bytes(ts.len() as usize) + body);
    lemma_usize_round_trip(ts.len() as usize, body);
    lemma_targets_round_trip(ts, rest);
    lemma_targets_bytes_len(ts);
    assert(bytes.skip(target_vec_len(ts.len()) as int) =~= rest);
}

/// Appends the bytes of a number to `dst`.
pub fn write_usize(dst: &mut Vec<u8>, n: usize)
    ensures
        final(dst)@ == old(dst)@ + usize_bytes(n),
{
    let mut bytes = u64_to_le_bytes(n as u64);
    dst.append(&mut bytes);
}

/// Appends the bytes of a list of wires to `dst`. Writing to memory
/// cannot fail.
pub fn write_target_vec(dst: &mut Vec<u8>, ts: &[Target]) -> (r: Result<(), IoError>)
    ensures
        r is Ok,
        final(dst)@ == old(dst)@ + target_vec_bytes(ts@),
{
    write_usize(dst, ts.len());
    let mut i: usize = 0;
    assert(ts@.take(0).len() == 0);
    while i < ts.len()
        invariant
            i <= ts.len(),
            dst@ == old(dst)@ + usize_bytes(ts@.len() as usize) + targets_bytes(ts@.take(i as int)),
        decreases ts.len() - i,
    {
        write_usize(dst, ts[i].index);
        proof {
            assert(ts@.take(i + 1).drop_last() =~= ts@.take(i as int));
            assert(dst@ =~= old(dst)@ + usize_bytes(ts@.len() as usize) + targets_bytes(
                ts@.take(i + 1),
            ));
        }
        i = i + 1;
    }
    proof {
        assert(ts@.take(ts.len() as int) =~= ts@);
        assert(dst@ =~= old(dst)@ + target_vec_bytes(ts@));
    }
    Ok(())
}

/// Bytes being read, with the position reached.
pub struct Buffer {
    bytes: Vec<u8>,
    position: usize,
}

impl View for Buffer {
    type V = Seq<u8>;

    /// The bytes not yet read.
    closed spec fn view(&self) -> Seq<u8> {
        self.bytes@.skip(self.position as int)
    }
}

impl Buffer {
    /// The position lies within the bytes.
    pub closed spec fn wf(&self) -> bool {
        self.position <= self.bytes@.len()
    }

    /// A buffer that starts reading `bytes` at their beginning.
    pub fn new(bytes: Vec<u8>) -> (r: Self)
        ensures
            r.wf(),
            r@ == bytes@,
    {
        let r = Buffer { bytes, position: 0 };
        assert(r@ =~= bytes@);
        r
    }

    /// The number of bytes not yet read.
    pub fn remaining(&self) -> (r: usize)
        requires
            self.wf(),
        ensures
            r == self@.len(),
    {
        self.bytes.len() - self.position
    }

    /// Reads a number, and moves past it. A failed read moves nothing.
    pub fn read_usize(&mut self) -> (r: Result<usize, IoError>)
        requires
            old(self).wf(),
        ensures
            final(self).wf(),
            r == parsed_usize(old(self)@),
            r is Ok ==> final(self)@ == old(self)@.skip(8),
            r is Err ==> final(self)@ == old(self)@,
    {
        if self.bytes.len() - self.position < 8 {
            return Err(IoError::UnexpectedEnd);
        }
        let chunk = slice_subrange(self.bytes.as_slice(), self.position, self.position + 8);
        let value: u64 = u64_from_le_bytes(chunk);
        proof {
            assert(chunk@ =~= self@.take(8));
        }
        if value > usize::MAX as u64 {
            return Err(IoError::Overflow);
        }
        self.position = self.position + 8;
        proof {
            assert(self@ =~= old(self)@.skip(8));
        }
        Ok(value as usize)
    }

    /// Reads a list of wires, and moves past it. After a failed read the
    /// position is somewhere within the list.
    pub fn read_target_vec(&mut self) -> (r: Result<Vec<Target>, IoError>)
        requires
            old(self).wf(),
        ensures
            final(self).wf(),
            match r {
                Ok(ts) => {
                    &&& parsed_target_vec(old(self)@) == Ok::<Seq<Target>, IoError>(ts@)
                    &&& target_vec_len(ts@.len()) <= old(self)@.len()
                    &&& final(self)@ == old(self)@.skip(target_vec_len(ts@.len()) as int)
                },
                Err(e) => parsed_target_vec(old(self)@) == Err::<Seq<Target>, IoError>(e),
            },
    {
        let count = match self.read_usize() {
            Ok(count) => count,
            Err(e) => {
                return Err(e);
            },
        };
        let ghost body = self@;
        let mut ts: Vec<Target> = Vec::new();
        let mut i: usize = 0;
        while i < count
            invariant
                i <= count,
                self.wf(),
                old(self)@.len() >= 8,
                parsed_usize(old(self)@) == Ok::<usize, IoError>(count),
                body == old(self)@.skip(8),
                8 * i <= body.len(),
                ts@.len() == i,
                parsed_targets(body, i as nat) == Ok::<Seq<Target>, IoError>(ts@),
                self@ == body.skip(8 * i),
            decreases count - i,
        {
            match self.read_usize() {
                Ok(index) => {
                    ts.push(Target { index });
                    proof {
                        assert(body.skip(8 * i).len() >= 8);
                        assert(self@ =~= body.skip(8 * (i + 1)));
                    }
                },
                Err(e) => {
                    proof {
                        assert(parsed_targets(body, (i + 1) as nat) == Err::<Seq<Target>, IoError>(e));
                        lemma_parse_error_persists(body, (i + 1) as nat, count as nat);
                    }
                    return Err(e);
                },
            }
            i = i + 1;
        }
        proof {
            assert(self@ =~= old(self)@.skip(target_vec_len(ts@.len()) as int));
        }
        Ok(ts)
    }
}

} // verus!
