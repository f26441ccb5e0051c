use vstd::prelude::*;

verus! {

/// A positioned read or write that the system may carry out in parts: `len`
/// bytes from position `offset` of a file on, of which `done` are done.
#[derive(Clone, Copy, Debug, PartialEq, Eq, Structural)]
pub struct Transfer {
    pub offset: u64,
    pub len: usize,
    pub done: usize,
}

/// The system transferred nothing though something was left.
#[derive(Clone, Copy, Debug, PartialEq, Eq, Structural)]
pub struct Short;

impl Transfer {
    /// No more is done than asked for, and every position can be written down.
    pub open spec fn wf(self) -> bool {
        &&& self.done <= self.len
        &&& self.offset + self.len <= u64::MAX
    }

    /// A transfer of which nothing is done.
    pub fn new(offset: u64, len: usize) -> (t: Transfer)
        requires
            offset + len <= u64::MAX,
        ensures
            t.wf(),
            t == (Transfer { offset, len, done: 0 }),
    {
        Transfer { offset, len, done: 0 }
    }

    /// What to ask the system for next: the part of the buffer from the first
    /// value on, at the position that is the second. Nothing when all is done.
    pub fn next(&self) -> (r: Option<(usize, u64)>)
        requires
            self.wf(),
        ensures
            r == (if self.done == self.len {
                None::<(usize, u64)>
            } else {
                Some((self.done, (self.offset + self.done) as u64))
            }),
    {
        if self.done < self.len {
            Some((self.done, self.offset + self.done as u64))
        } else {
            None
        }
    }

    /// Takes note of `n` transferred bytes.
    pub fn advance(&mut self, n: usize) -> (r: Result<(), Short>)
        requires
            old(self).wf(),
            n <= old(self).len - old(self).done,
        ensures
            final(self).wf(),
            *final(self) == (Transfer { done: (old(self).done + n) as usize, ..*old(self) }),
            forall|t: Transfer, parts: Seq<usize>|
                *old(self) == #[trigger] advanced(t, parts) ==> *final(self) == advanced(
                    t,
                    parts.push(n),
                ),
            r == (if n == 0 {
                Err::<(), Short>(Short)
            } else {
                Ok::<(), Short>(())
            }),
    {
        proof {
            assert forall|t: Transfer, parts: Seq<usize>|
                *old(self) == #[trigger] advanced(t, parts) implies (Transfer {
                done: (old(self).done + n) as usize,
                ..*old(self)
            }) == advanced(t, parts.push(n)) by {
                assert(parts.push(n).drop_last() =~= parts);
            }
        }
        if n == 0 {
            return Err(Short);
        }
        self.done += n;
        Ok(())
    }
}

/// A transfer after parts of the given sizes, one call of `advance` for each.
pub open spec fn advanced(t: Transfer, parts: Seq<usize>) -> Transfer
    decreases parts.len(),
{
    if parts.len() == 0 {
        t
    } else {
        let before = advanced(t, parts.drop_last());
        Transfer { done: (before.done + parts.last()) as usize, ..before }
    }
}

/// Every part is one that the system may answer with: not empty, and no larger
/// than what was left.
pub open spec fn answers(t: Transfer, parts: Seq<usize>) -> bool {
    forall|i: int|
        #![trigger parts[i]]
        0 <= i < parts.len() ==> 0 < parts[i] <= t.len - advanced(t, parts.take(i)).done
}

/// A transfer stays well formed, and ends: whatever the sizes of the parts, there
/// are no more of them than bytes.
pub proof fn law_transfer_ends(t: Transfer, parts: Seq<usize>)
    requires
        t.wf(),
        answers(t, parts),
    ensures
        advanced(t, parts).wf(),
        advanced(t, parts).offset == t.offset,
        advanced(t, parts).len == t.len,
        t.done + parts.len() <= advanced(t, parts).done <= t.len,
    decreases parts.len(),
{
    if parts.len() > 0 {
        let before = parts.drop_last();
        let last = parts.len() - 1;
        assert forall|i: int| #![trigger before[i]] 0 <= i < before.len() implies 0 < before[i]
            <= t.len - advanced(t, before.take(i)).done by {
            assert(before.take(i) =~= parts.take(i));
            assert(before[i] == parts[i]);
        }
        law_transfer_ends(t, before);
        assert(parts.take(last) =~= before);
        assert(0 < parts[last] <= t.len - advanced(t, parts.take(last)).done);
    }
}

/// The parts cover the buffer: every byte between what was done at the start and
/// what is done after the parts lies in one of them, and was asked for there. Part
/// `i` was asked for from byte `advanced(t, parts.take(i)).done` of the buffer on,
/// which is what `next` says.
pub proof fn law_parts_cover(t: Transfer, parts: Seq<usize>, b: int)
    requires
        t.wf(),
        answers(t, parts),
        t.done <= b < advanced(t, parts).done,
    ensures
        exists|i: int|
            #![trigger parts[i]]
            0 <= i < parts.len() && advanced(t, parts.take(i)).done <= b < advanced(
                t,
                parts.take(i),
            ).done + parts[i],
    decreases parts.len(),
{
    let before = parts.drop_last();
    let last = parts.len() - 1;
    assert(parts.take(last) =~= before);
    assert forall|i: int| #![trigger before[i]] 0 <= i < before.len() implies 0 < before[i]
        <= t.len - advanced(t, before.take(i)).done by {
        assert(before.take(i) =~= parts.take(i));
        assert(before[i] == parts[i]);
    }
    law_transfer_ends(t, before);
    assert(0 < parts[last] <= t.len - advanced(t, parts.take(last)).done);
    if b < advanced(t, before).done {
        law_parts_cover(t, before, b);
        let i = choose|i: int|
            #![trigger before[i]]
            0 <= i < before.len() && advanced(t, before.take(i)).done <= b < advanced(
                t,
                before.take(i),
            ).done + before[i];
        assert(before.take(i) =~= parts.take(i));
        assert(before[i] == parts[i]);
    }
}

} // verus!
