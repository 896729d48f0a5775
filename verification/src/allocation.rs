//! Which data blocks are in use.

use vstd::prelude::*;
use crate::error::{Error, ErrorKind};

verus! {

/// The data blocks from `first` on, and whether each is in use.
pub struct AllocView {
    pub first: u64,
    pub owned: Seq<bool>,
}

/// The lowest index from `from` on that is free; the length where none is.
pub open spec fn next_free(owned: Seq<bool>, from: int) -> int
    decreases owned.len() - from,
{
    if from >= owned.len() {
        owned.len() as int
    } else if !owned[from] {
        from
    } else {
        next_free(owned, from + 1)
    }
}

/// `count` free blocks lie at `at`.
pub open spec fn free_run(owned: Seq<bool>, at: int, count: int) -> bool {
    at + count <= owned.len() && forall|i: int| at <= i < at + count ==> !#[trigger] owned[i]
}

/// The lowest index from `from` on at which `count` free blocks lie, if there is one.
pub open spec fn next_run(owned: Seq<bool>, from: int, count: int) -> Option<int>
    decreases owned.len() - from,
{
    if from >= owned.len() {
        None
    } else if free_run(owned, from, count) {
        Some(from)
    } else {
        next_run(owned, from + 1, count)
    }
}

/// The number of blocks in use.
pub open spec fn owned_count(owned: Seq<bool>) -> nat
    decreases owned.len(),
{
    if owned.len() == 0 {
        0
    } else {
        owned_count(owned.drop_last()) + if owned.last() {
            1nat
        } else {
            0nat
        }
    }
}

impl AllocView {
    /// Every block has a number.
    pub open spec fn wf(self) -> bool {
        self.first + self.owned.len() <= u64::MAX
    }

    /// `block` is a data block.
    pub open spec fn covers(self, block: u64) -> bool {
        self.first <= block < self.first + self.owned.len()
    }

    /// `block` is a data block in use.
    pub open spec fn owns(self, block: u64) -> bool {
        self.covers(block) && self.owned[block - self.first]
    }

    /// `block` marked as used or as free.
    pub open spec fn marking(self, block: u64, used: bool) -> AllocView {
        AllocView { owned: self.owned.update(block - self.first, used), ..self }
    }

    /// The lowest free block taken, if one is free.
    pub open spec fn taking_one(self) -> Option<(AllocView, u64)> {
        let i = next_free(self.owned, 0);
        if i < self.owned.len() {
            let block = (self.first + i) as u64;
            Some((self.marking(block, true), block))
        } else {
            None
        }
    }

    /// The `count` lowest free blocks taken one after the other, if there are as many.
    pub open spec fn taking(self, count: nat) -> Option<(AllocView, Seq<u64>)>
        decreases count,
    {
        if count == 0 {
            Some((self, Seq::empty()))
        } else {
            match self.taking((count - 1) as nat) {
                Some((a, blocks)) => match a.taking_one() {
                    Some((b, block)) => Some((b, blocks.push(block))),
                    None => None,
                },
                None => None,
            }
        }
    }

    /// `count` blocks from `block` on.
    pub open spec fn run_of(block: u64, count: nat) -> Seq<u64> {
        Seq::new(count, |i: int| (block + i) as u64)
    }

    /// The lowest run of `count` free blocks taken, if there is one.
    pub open spec fn taking_run(self, count: nat) -> Option<(AllocView, u64)> {
        match next_run(self.owned, 0, count as int) {
            Some(at) => if count == 0 {
                None
            } else {
                Some(
                    (
                        AllocView {
                            owned: Seq::new(
                                self.owned.len(),
                                |i: int| self.owned[i] || at <= i < at + count,
                            ),
                            ..self
                        },
                        (self.first + at) as u64,
                    ),
                )
            },
            None => None,
        }
    }

    /// The blocks of the list released one after the other, if each is in use when it is its turn.
    pub open spec fn releasing(self, blocks: Seq<u64>) -> Option<AllocView>
        decreases blocks.len(),
    {
        if blocks.len() == 0 {
            Some(self)
        } else {
            match self.releasing(blocks.drop_last()) {
                Some(a) => if a.owns(blocks.last()) {
                    Some(a.marking(blocks.last(), false))
                } else {
                    None
                },
                None => None,
            }
        }
    }
}

pub proof fn lemma_next_free(owned: Seq<bool>, from: int)
    requires
        0 <= from <= owned.len(),
    ensures
        from <= next_free(owned, from) <= owned.len(),
        next_free(owned, from) < owned.len() ==> !owned[next_free(owned, from)],
        forall|i: int| from <= i < next_free(owned, from) ==> #[trigger] owned[i],
    decreases owned.len() - from,
{
    if from < owned.len() && owned[from] {
        lemma_next_free(owned, from + 1);
    }
}

pub proof fn lemma_next_run(owned: Seq<bool>, from: int, count: int)
    requires
        0 <= from,
    ensures
        match next_run(owned, from, count) {
            Some(at) => {
                &&& from <= at < owned.len()
                &&& free_run(owned, at, count)
                &&& forall|i: int| from <= i < at ==> !#[trigger] free_run(owned, i, count)
            },
            None => forall|i: int|
                from <= i < owned.len() ==> !#[trigger] free_run(owned, i, count),
        },
    decreases owned.len() - from,
{
    if from < owned.len() && !free_run(owned, from, count) {
        lemma_next_run(owned, from + 1, count);
    }
}

/// A block that is taken was free, is in use afterwards, and no other block changes; no lower
/// block was free.
pub proof fn law_taking_one(a: AllocView)
    requires
        a.wf(),
    ensures
        match a.taking_one() {
            Some((b, block)) => {
                &&& b.wf()
                &&& b.first == a.first
                &&& b.owned.len() == a.owned.len()
                &&& a.covers(block) && !a.owns(block)
                &&& b.owns(block)
                &&& forall|other: u64|
                    other != block ==> #[trigger] b.owns(other) == a.owns(other)
                &&& forall|other: u64|
                    a.covers(other) && other < block ==> #[trigger] a.owns(other)
            },
            None => forall|block: u64| a.covers(block) ==> #[trigger] a.owns(block),
        },
{
    lemma_next_free(a.owned, 0);
}

/// Blocks that are taken together were all free, are distinct, and are in use afterwards.
pub proof fn law_taking(a: AllocView, count: nat)
    requires
        a.wf(),
    ensures
        a.taking(count) matches Some((b, blocks)) ==> {
            &&& b.wf()
            &&& b.first == a.first
            &&& b.owned.len() == a.owned.len()
            &&& blocks.len() == count
            &&& forall|i: int|
                0 <= i < blocks.len() ==> a.covers(#[trigger] blocks[i]) && !a.owns(blocks[i])
                    && b.owns(blocks[i])
            &&& blocks.no_duplicates()
            &&& forall|block: u64|
                #[trigger] b.owns(block) == (a.owns(block) || blocks.contains(block))
        },
    decreases count,
{
    if count > 0 {
        law_taking(a, (count - 1) as nat);
        if let Some((mid, front)) = a.taking((count - 1) as nat) {
            law_taking_one(mid);
            if let Some((b, block)) = mid.taking_one() {
                let blocks = front.push(block);
                assert(blocks.no_duplicates()) by {
                    assert(!front.contains(block)) by {
                        if front.contains(block) {
                            assert(mid.owns(block));
                        }
                    }
                }
                assert forall|other: u64| #[trigger]
                    b.owns(other) == (a.owns(other) || blocks.contains(other)) by {
                    if blocks.contains(other) && other != block {
                        let i = choose|i: int| 0 <= i < blocks.len() && blocks[i] == other;
                        assert(front[i] == other);
                        assert(front.contains(other));
                    }
                    if front.contains(other) {
                        let i = choose|i: int| 0 <= i < front.len() && front[i] == other;
                        assert(blocks[i] == other);
                    }
                    assert(blocks[front.len() as int] == block);
                }
                assert forall|i: int| 0 <= i < blocks.len() implies a.covers(#[trigger] blocks[i])
                    && !a.owns(blocks[i]) && b.owns(blocks[i]) by {
                    if i < front.len() {
                        assert(blocks[i] == front[i]);
                        assert(mid.owns(front[i]));
                        assert(blocks.contains(blocks[i]));
                    } else {
                        assert(!mid.owns(block));
                    }
                }
            }
        }
    }
}

/// A run that is taken was free and is in use afterwards; no other block changes, and no lower
/// run of that length was free.
pub proof fn law_taking_run(a: AllocView, count: nat)
    requires
        a.wf(),
        count > 0,
    ensures
        match a.taking_run(count) {
            Some((b, block)) => {
                &&& b.wf()
                &&& b.first == a.first
                &&& b.owned.len() == a.owned.len()
                &&& a.first <= block && block + count <= a.first + a.owned.len()
                &&& forall|other: u64|
                    block <= other < block + count ==> !#[trigger] a.owns(other) && b.owns(other)
                &&& forall|other: u64|
                    !(block <= other < block + count) ==> #[trigger] b.owns(other) == a.owns(other)
                &&& forall|at: int|
                    0 <= at < block - a.first ==> !#[trigger] free_run(a.owned, at, count as int)
            },
            None => forall|at: int|
                0 <= at < a.owned.len() ==> !#[trigger] free_run(a.owned, at, count as int),
        },
{
    lemma_next_run(a.owned, 0, count as int);
}

/// Blocks that are released were in use, no longer are, and no other block changes.
pub proof fn law_releasing(a: AllocView, blocks: Seq<u64>)
    requires
        a.wf(),
    ensures
        a.releasing(blocks) matches Some(b) ==> {
            &&& b.wf()
            &&& b.first == a.first
            &&& b.owned.len() == a.owned.len()
            &&& blocks.no_duplicates()
            &&& forall|i: int| 0 <= i < blocks.len() ==> a.owns(#[trigger] blocks[i])
            &&& forall|block: u64|
                #[trigger] b.owns(block) == (a.owns(block) && !blocks.contains(block))
        },
        blocks.no_duplicates() && (forall|i: int|
            0 <= i < blocks.len() ==> a.owns(#[trigger] blocks[i])) ==> a.releasing(
            blocks,
        ) is Some,
    decreases blocks.len(),
{
    if blocks.len() > 0 {
        let front = blocks.drop_last();
        let last = blocks.last();
        law_releasing(a, front);
        if blocks.no_duplicates() && (forall|i: int|
            0 <= i < blocks.len() ==> a.owns(#[trigger] blocks[i])) {
            assert(forall|i: int| 0 <= i < front.len() ==> front[i] == blocks[i]);
            assert(a.owns(blocks[blocks.len() - 1]));
            assert(!front.contains(last));
        }
        if let Some(b) = a.releasing(blocks) {
            let mid = a.releasing(front)->Some_0;
            assert(mid.owns(last));
            assert(!front.contains(last));
            assert(front.push(last) =~= blocks);
            assert forall|i: int| 0 <= i < blocks.len() implies a.owns(#[trigger] blocks[i]) by {
                if i < front.len() {
                    assert(front[i] == blocks[i]);
                }
            }
            assert forall|block: u64| #[trigger]
                b.owns(block) == (a.owns(block) && !blocks.contains(block)) by {
                if blocks.contains(block) && block != last {
                    let i = choose|i: int| 0 <= i < blocks.len() && blocks[i] == block;
                    assert(front[i] == block);
                }
                if front.contains(block) {
                    let i = choose|i: int| 0 <= i < front.len() && front[i] == block;
                    assert(blocks[i] == block);
                }
                assert(blocks[blocks.len() - 1] == last);
                assert(mid.owns(block) == (a.owns(block) && !front.contains(block)));
            }
        }
    }
}

pub proof fn lemma_owned_count(owned: Seq<bool>)
    ensures
        owned_count(owned) <= owned.len(),
    decreases owned.len(),
{
    if owned.len() > 0 {
        lemma_owned_count(owned.drop_last());
    }
}

/// The allocation state of the data blocks.
#[derive(Debug, PartialEq, Eq)]
pub struct BlockAllocator {
    /// The first data block.
    pub first: u64,
    /// For each data block in turn, whether it is in use.
    pub owned: Vec<bool>,
}

impl View for BlockAllocator {
    type V = AllocView;

    open spec fn view(&self) -> AllocView {
        AllocView { first: self.first, owned: self.owned@ }
    }
}

fn refused(message: &'static str) -> (e: Error)
    ensures
        e.kind == ErrorKind::InvalidInput,
        e.message == message,
{
    Error::new(ErrorKind::InvalidInput, message)
}

impl BlockAllocator {
    /// Checks that every block has a number.
    pub fn validate(&self) -> (r: Result<(), Error>)
        ensures
            match r {
                Ok(_) => self@.wf(),
                Err(e) => !self@.wf() && e.kind == ErrorKind::InvalidInput,
            },
    {
        if self.owned.len() as u64 <= u64::MAX - self.first {
            Ok(())
        } else {
            Err(refused("allocator range overflows block address space"))
        }
    }

    /// Whether a data block is in use; other blocks are refused.
    pub fn is_owned(&self, block: u64) -> (r: Result<bool, Error>)
        ensures
            match r {
                Ok(b) => self@.covers(block) && b == self@.owns(block),
                Err(e) => !self@.covers(block) && e.kind == ErrorKind::InvalidInput,
            },
    {
        if block < self.first || block - self.first >= self.owned.len() as u64 {
            return Err(refused("block is outside the data region"));
        }
        Ok(self.owned[(block - self.first) as usize])
    }

    /// Takes the lowest free block.
    pub fn allocate(&mut self) -> (r: Result<u64, Error>)
        requires
            old(self)@.wf(),
        ensures
            final(self)@.wf(),
            match r {
                Ok(block) => old(self)@.taking_one() == Some((final(self)@, block)),
                Err(e) => {
                    &&& old(self)@.taking_one() is None
                    &&& e.kind == ErrorKind::InvalidInput
                    &&& final(self)@ == old(self)@
                },
            },
    {
        let mut i: usize = 0;
        while i < self.owned.len() && self.owned[i]
            invariant
                i <= self.owned@.len(),
                *self == *old(self),
                next_free(self.owned@, 0) == next_free(self.owned@, i as int),
            decreases self.owned@.len() - i,
        {
            i += 1;
        }
        if i == self.owned.len() {
            return Err(refused("no free data block"));
        }
        let block: u64 = self.first + i as u64;
        self.owned[i] = true;
        assert(self@.owned == old(self)@.marking(block, true).owned);
        Ok(block)
    }

    /// Takes the lowest free blocks one after the other. Where there are too few, nothing is
    /// promised of the allocator.
    pub fn allocate_many(&mut self, count: usize) -> (r: Result<Vec<u64>, Error>)
        requires
            old(self)@.wf(),
        ensures
            final(self)@.wf(),
            match r {
                Ok(blocks) => old(self)@.taking(count as nat) == Some((final(self)@, blocks@)),
                Err(e) => old(self)@.taking(count as nat) is None && e.kind
                    == ErrorKind::InvalidInput,
            },
    {
        let mut blocks: Vec<u64> = Vec::new();
        let mut i: usize = 0;
        assert(blocks@ =~= Seq::<u64>::empty());
        while i < count
            invariant
                i <= count,
                self@.wf(),
                old(self)@.taking(i as nat) == Some((self@, blocks@)),
            decreases count - i,
        {
            match self.allocate() {
                Ok(block) => blocks.push(block),
                Err(e) => {
                    proof {
                        lemma_taking_fails(old(self)@, (i + 1) as nat, count as nat);
                    }
                    return Err(e);
                },
            }
            i += 1;
        }
        Ok(blocks)
    }

    /// Takes the lowest run of `count` free blocks and returns its first block.
    pub fn allocate_contiguous(&mut self, count: u64) -> (r: Result<u64, Error>)
        requires
            old(self)@.wf(),
        ensures
            final(self)@.wf(),
            match r {
                Ok(block) => {
                    &&& old(self)@.taking_run(count as nat) == Some((final(self)@, block))
                    &&& block + count <= u64::MAX
                },
                Err(e) => {
                    &&& old(self)@.taking_run(count as nat) is None
                    &&& e.kind == ErrorKind::InvalidInput
                    &&& final(self)@ == old(self)@
                },
            },
    {
        if count == 0 {
            return Err(refused("contiguous allocation requires at least one block"));
        }
        let mut at: usize = 0;
        while at < self.owned.len()
            invariant
                count > 0,
                at <= self.owned@.len(),
                *self == *old(self),
                self@.wf(),
                next_run(self.owned@, 0, count as int) == next_run(
                    self.owned@,
                    at as int,
                    count as int,
                ),
            decreases self.owned@.len() - at,
        {
            if self.is_free_run(at, count) {
                let block: u64 = self.first + at as u64;
                let end: usize = at + count as usize;
                let mut i: usize = at;
                while i < end
                    invariant
                        at <= i <= end <= self.owned@.len(),
                        end == at + count,
                        self.first == old(self).first,
                        self.owned@.len() == old(self).owned@.len(),
                        forall|k: int|
                            0 <= k < self.owned@.len() ==> #[trigger] self.owned@[k] == (old(
                                self,
                            ).owned@[k] || at <= k < i),
                    decreases end - i,
                {
                    self.owned[i] = true;
                    i += 1;
                }
                assert(self@.owned =~= old(self)@.taking_run(count as nat)->Some_0.0.owned);
                return Ok(block);
            }
            at += 1;
        }
        Err(refused("no sufficiently large contiguous free run"))
    }

    fn is_free_run(&self, at: usize, count: u64) -> (b: bool)
        requires
            at < self.owned@.len(),
        ensures
            b == free_run(self.owned@, at as int, count as int),
    {
        if count > (self.owned.len() - at) as u64 {
            return false;
        }
        let end: usize = at + count as usize;
        let mut i: usize = at;
        while i < end
            invariant
                at <= i <= end <= self.owned@.len(),
                end == at + count,
                forall|k: int| at <= k < i ==> !#[trigger] self.owned@[k],
            decreases end - i,
        {
            if self.owned[i] {
                return false;
            }
            i += 1;
        }
        true
    }

    /// Releases a block that is in use; any other is refused.
    pub fn free(&mut self, block: u64) -> (r: Result<(), Error>)
        ensures
            match r {
                Ok(_) => old(self)@.owns(block) && final(self)@ == old(self)@.marking(block, false),
                Err(e) => {
                    &&& !old(self)@.owns(block)
                    &&& e.kind == ErrorKind::InvalidInput
                    &&& final(self)@ == old(self)@
                },
            },
    {
        if !self.is_owned(block)? {
            return Err(refused("block is not allocated"));
        }
        assert(self.owned.len() == self.owned@.len());
        self.owned[(block - self.first) as usize] = false;
        assert(self@.owned == old(self)@.marking(block, false).owned);
        Ok(())
    }

    /// Releases blocks one after the other. Where one of them is not in use, nothing is promised
    /// of the allocator.
    pub fn free_all(&mut self, blocks: &[u64]) -> (r: Result<(), Error>)
        requires
            old(self)@.wf(),
        ensures
            final(self)@.wf(),
            match r {
                Ok(_) => old(self)@.releasing(blocks@) == Some(final(self)@),
                Err(e) => old(self)@.releasing(blocks@) is None && e.kind
                    == ErrorKind::InvalidInput,
            },
    {
        let mut i: usize = 0;
        while i < blocks.len()
            invariant
                i <= blocks@.len(),
                self@.wf(),
                old(self)@.releasing(blocks@.subrange(0, i as int)) == Some(self@),
            decreases blocks@.len() - i,
        {
            proof {
                let next = blocks@.subrange(0, i + 1);
                assert(next.drop_last() =~= blocks@.subrange(0, i as int));
                assert(next.last() == blocks@[i as int]);
            }
            match self.free(blocks[i]) {
                Ok(_) => {},
                Err(e) => {
                    proof {
                        lemma_releasing_fails(old(self)@, blocks@, i + 1);
                    }
                    return Err(e);
                },
            }
            i += 1;
        }
        assert(blocks@.subrange(0, blocks@.len() as int) =~= blocks@);
        Ok(())
    }

    /// The number of blocks in use.
    pub fn allocated_blocks(&self) -> (n: u64)
        ensures
            n == owned_count(self@.owned),
            n <= self@.owned.len(),
    {
        let mut n: u64 = 0;
        let mut i: usize = 0;
        while i < self.owned.len()
            invariant
                i <= self.owned@.len(),
                n == owned_count(self.owned@.subrange(0, i as int)),
                n <= i,
            decreases self.owned@.len() - i,
        {
            proof {
                let next = self.owned@.subrange(0, i + 1);
                assert(next.drop_last() =~= self.owned@.subrange(0, i as int));
            }
            if self.owned[i] {
                n += 1;
            }
            i += 1;
        }
        assert(self.owned@.subrange(0, self.owned@.len() as int) =~= self.owned@);
        n
    }

    /// The number of free blocks.
    pub fn free_blocks(&self) -> (n: u64)
        ensures
            n == self@.owned.len() - owned_count(self@.owned),
    {
        self.owned.len() as u64 - self.allocated_blocks()
    }
}

proof fn lemma_taking_fails(a: AllocView, k: nat, count: nat)
    requires
        k <= count,
        a.taking(k) is None,
    ensures
        a.taking(count) is None,
    decreases count,
{
    if k < count {
        lemma_taking_fails(a, k, (count - 1) as nat);
    }
}

proof fn lemma_releasing_fails(a: AllocView, blocks: Seq<u64>, k: int)
    requires
        0 <= k <= blocks.len(),
        a.releasing(blocks.subrange(0, k)) is None,
    ensures
        a.releasing(blocks) is None,
    decreases blocks.len(),
{
    if k == blocks.len() {
        assert(blocks.subrange(0, k) =~= blocks);
    } else {
        assert(blocks.drop_last().subrange(0, k) =~= blocks.subrange(0, k));
        lemma_releasing_fails(a, blocks.drop_last(), k);
    }
}

} // verus!
