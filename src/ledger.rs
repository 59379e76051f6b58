use vstd::prelude::*;
use crate::align::{is_pow2, is_power_of_two, is_aligned};

verus! {

/// One live allocation: where it starts, and the size and alignment it was
/// requested with.
#[derive(Debug, Clone, Copy, PartialEq, Eq, Structural)]
pub struct Block {
    pub addr: usize,
    pub size: usize,
    pub align: usize,
}

/// A request that breaks the allocation contract.
#[derive(Debug, Clone, Copy, PartialEq, Eq, Structural)]
pub enum ContractError {
    /// The alignment is not a power of two.
    BadAlign,
    /// The address is not a multiple of the alignment.
    Misaligned,
    /// The region runs past the end of the address space.
    Wraps,
    /// The region shares bytes with a live allocation.
    Overlaps,
    /// No live allocation starts at the address.
    Unknown,
    /// The live allocation at the address has another size or alignment.
    Mismatch,
}

/// Bytes that a block claims: its size, and at least its first address, so
/// that two live blocks never start at one address.
pub open spec fn span(size: usize) -> int {
    if size == 0 {
        1
    } else {
        size as int
    }
}

/// One past the last address that the block claims.
pub open spec fn end(b: Block) -> int {
    b.addr + span(b.size)
}

pub open spec fn overlaps(a: Block, b: Block) -> bool {
    a.addr < end(b) && b.addr < end(a)
}

pub open spec fn block_valid(b: Block) -> bool {
    &&& is_pow2(b.align as nat)
    &&& b.addr % b.align == 0
    &&& end(b) <= usize::MAX + 1
}

/// Every live block is valid, and no two of them share an address.
pub open spec fn live_valid(live: Seq<Block>) -> bool {
    &&& forall|i: int| 0 <= i < live.len() ==> block_valid(#[trigger] live[i])
    &&& forall|i: int, j: int|
        0 <= i < live.len() && 0 <= j < live.len() && i != j ==> !overlaps(
            #[trigger] live[i],
            #[trigger] live[j],
        )
}

pub open spec fn overlaps_live(live: Seq<Block>, b: Block) -> bool {
    exists|i: int| 0 <= i < live.len() && overlaps(#[trigger] live[i], b)
}

pub open spec fn starts_at(live: Seq<Block>, addr: usize) -> bool {
    exists|i: int| 0 <= i < live.len() && (#[trigger] live[i]).addr == addr
}

/// Whether a new allocation `b` may join the live ones, and if not, the first
/// rule that it breaks.
pub open spec fn admission(live: Seq<Block>, b: Block) -> Result<(), ContractError> {
    if !is_pow2(b.align as nat) {
        Err(ContractError::BadAlign)
    } else if b.addr % b.align != 0 {
        Err(ContractError::Misaligned)
    } else if end(b) > usize::MAX + 1 {
        Err(ContractError::Wraps)
    } else if overlaps_live(live, b) {
        Err(ContractError::Overlaps)
    } else {
        Ok(())
    }
}

/// Whether `b` names a live allocation exactly, as a release or a resize must.
pub open spec fn return_check(live: Seq<Block>, b: Block) -> Result<(), ContractError> {
    if !starts_at(live, b.addr) {
        Err(ContractError::Unknown)
    } else if !live.contains(b) {
        Err(ContractError::Mismatch)
    } else {
        Ok(())
    }
}

/// The position of the live block that starts at `addr`, where there is one.
pub open spec fn slot(live: Seq<Block>, addr: usize) -> int {
    choose|i: int| 0 <= i < live.len() && (#[trigger] live[i]).addr == addr
}

/// The live blocks but the one that starts at `addr`.
pub open spec fn without(live: Seq<Block>, addr: usize) -> Seq<Block> {
    live.remove(slot(live, addr))
}

/// Two live blocks never start at one address.
pub proof fn lemma_unique_start(live: Seq<Block>, i: int, j: int)
    requires
        live_valid(live),
        0 <= i < live.len(),
        0 <= j < live.len(),
        live[i].addr == live[j].addr,
    ensures
        i == j,
{
    if i != j {
        assert(!overlaps(live[i], live[j]));
    }
}

proof fn lemma_slot(live: Seq<Block>, k: int)
    requires
        live_valid(live),
        0 <= k < live.len(),
    ensures
        slot(live, live[k].addr) == k,
{
    let addr = live[k].addr;
    assert(exists|i: int| 0 <= i < live.len() && (#[trigger] live[i]).addr == addr);
    lemma_unique_start(live, k, slot(live, addr));
}

proof fn lemma_remove_valid(live: Seq<Block>, k: int)
    requires
        live_valid(live),
        0 <= k < live.len(),
    ensures
        live_valid(live.remove(k)),
        forall|i: int| 0 <= i < live.remove(k).len() ==> !overlaps(#[trigger] live.remove(k)[i], live[k]),
{
    let r = live.remove(k);
    assert forall|i: int| 0 <= i < r.len() implies block_valid(#[trigger] r[i]) && !overlaps(r[i], live[k]) by {
        if i < k {
            assert(r[i] == live[i]);
        } else {
            assert(r[i] == live[i + 1]);
        }
    }
    assert forall|i: int, j: int|
        0 <= i < r.len() && 0 <= j < r.len() && i != j implies !overlaps(
            #[trigger] r[i],
            #[trigger] r[j],
        ) by {
        let ii = if i < k { i } else { i + 1 };
        let jj = if j < k { j } else { j + 1 };
        assert(r[i] == live[ii]);
        assert(r[j] == live[jj]);
    }
}

/// A block that the ledger admits is aligned as asked and shares no byte
/// with any live block, and every live block stays apart from every other.
pub proof fn lemma_admitted_block_apart(live: Seq<Block>, b: Block)
    requires
        live_valid(live),
        admission(live, b) is Ok,
    ensures
        b.addr % b.align == 0,
        forall|i: int| 0 <= i < live.len() ==> !overlaps(#[trigger] live[i], b),
        live_valid(live.push(b)),
{
    let r = live.push(b);
    assert forall|i: int| 0 <= i < r.len() implies block_valid(#[trigger] r[i]) by {
        if i < live.len() {
            assert(r[i] == live[i]);
        }
    }
    assert forall|i: int, j: int|
        0 <= i < r.len() && 0 <= j < r.len() && i != j implies !overlaps(
            #[trigger] r[i],
            #[trigger] r[j],
        ) by {
        if i < live.len() {
            assert(r[i] == live[i]);
        }
        if j < live.len() {
            assert(r[j] == live[j]);
        }
    }
}

/// Returning an allocation frees its place for good: the same request is
/// then admitted again, and the number of live blocks is what it was before
/// the release.
pub proof fn lemma_release_then_reuse(live: Seq<Block>, b: Block)
    requires
        live_valid(live),
        return_check(live, b) is Ok,
    ensures
        live_valid(without(live, b.addr)),
        admission(without(live, b.addr), b) is Ok,
        without(live, b.addr).push(b).len() == live.len(),
{
    let k = choose|k: int| 0 <= k < live.len() && live[k] == b;
    assert(live[k] == b);
    lemma_slot(live, k);
    lemma_remove_valid(live, k);
    let w = without(live, b.addr);
    assert(!overlaps_live(w, b));
}

/// What a resize of `old` into `new` is judged to be.
pub open spec fn resize_check(live: Seq<Block>, old: Block, new: Block) -> Result<(), ContractError> {
    match return_check(live, old) {
        Err(e) => Err(e),
        Ok(()) => admission(without(live, old.addr), new),
    }
}

/// Whether two blocks share an address, computed without overflow.
fn overlap(a: Block, b: Block) -> (r: bool)
    ensures
        r == overlaps(a, b),
{
    let a_span: u128 = if a.size == 0 { 1 } else { a.size as u128 };
    let b_span: u128 = if b.size == 0 { 1 } else { b.size as u128 };
    (a.addr as u128) < (b.addr as u128) + b_span && (b.addr as u128) < (a.addr as u128) + a_span
}

/// Bookkeeping of the live allocations of one heap.
pub struct Ledger {
    live: Vec<Block>,
}

impl View for Ledger {
    type V = Seq<Block>;

    closed spec fn view(&self) -> Seq<Block> {
        self.live@
    }
}

impl Ledger {
    pub open spec fn wf(&self) -> bool {
        live_valid(self@)
    }

    /// A ledger with no live allocation.
    pub fn new() -> (r: Ledger)
        ensures
            r.wf(),
            r@ == Seq::<Block>::empty(),
    {
        Ledger { live: Vec::new() }
    }

    /// How many allocations are live.
    pub fn len(&self) -> (r: usize)
        ensures
            r == self@.len(),
    {
        self.live.len()
    }

    /// Judges a new allocation without recording it.
    pub fn check_record(&self, addr: usize, size: usize, align: usize) -> (r: Result<(), ContractError>)
        ensures
            r == admission(self@, (Block { addr, size, align })),
    {
        if !is_power_of_two(align) {
            return Err(ContractError::BadAlign);
        }
        if !is_aligned(addr, align) {
            return Err(ContractError::Misaligned);
        }
        let span: u128 = if size == 0 { 1 } else { size as u128 };
        if (addr as u128) + span > (usize::MAX as u128) + 1 {
            return Err(ContractError::Wraps);
        }
        let b = Block { addr, size, align };
        let mut i: usize = 0;
        while i < self.live.len()
            invariant
                i <= self@.len(),
                b == (Block { addr, size, align }),
                is_pow2(align as nat),
                addr % align == 0,
                end(b) <= usize::MAX + 1,
                forall|k: int| 0 <= k < i ==> !overlaps(#[trigger] self@[k], b),
            decreases self@.len() - i,
        {
            if overlap(self.live[i], b) {
                assert(overlaps(self@[i as int], b));
                return Err(ContractError::Overlaps);
            }
            i = i + 1;
        }
        Ok(())
    }

    /// Records a new allocation where the contract allows it.
    pub fn record(&mut self, addr: usize, size: usize, align: usize) -> (r: Result<(), ContractError>)
        requires
            old(self).wf(),
        ensures
            final(self).wf(),
            r == admission(old(self)@, (Block { addr, size, align })),
            r is Ok ==> final(self)@ == old(self)@.push((Block { addr, size, align })),
            r is Err ==> final(self)@ == old(self)@,
    {
        let r = self.check_record(addr, size, align);
        if r.is_ok() {
            proof {
                lemma_admitted_block_apart(self@, Block { addr, size, align });
            }
            self.live.push(Block { addr, size, align });
        }
        r
    }

    fn find(&self, addr: usize) -> (r: Option<usize>)
        ensures
            r matches Some(k) ==> k < self@.len() && self@[k as int].addr == addr,
            r is None ==> !starts_at(self@, addr),
    {
        let mut i: usize = 0;
        while i < self.live.len()
            invariant
                i <= self@.len(),
                forall|k: int| 0 <= k < i ==> (#[trigger] self@[k]).addr != addr,
            decreases self@.len() - i,
        {
            if self.live[i].addr == addr {
                return Some(i);
            }
            i = i + 1;
        }
        None
    }

    fn locate(&self, addr: usize, size: usize, align: usize) -> (r: Result<usize, ContractError>)
        requires
            self.wf(),
        ensures
            r.is_ok() == (return_check(self@, (Block { addr, size, align })) is Ok),
            r matches Err(e) ==> return_check(self@, (Block { addr, size, align })) == Err::<(), ContractError>(e),
            r matches Ok(k) ==> k < self@.len() && self@[k as int] == (Block { addr, size, align })
                && slot(self@, addr) == k,
    {
        let b = Block { addr, size, align };
        match self.find(addr) {
            None => Err(ContractError::Unknown),
            Some(k) => {
                proof {
                    lemma_slot(self@, k as int);
                }
                let found = self.live[k];
                if found.size == size && found.align == align {
                    Ok(k)
                } else {
                    proof {
                        if self@.contains(b) {
                            let j = choose|j: int| 0 <= j < self@.len() && self@[j] == b;
                            lemma_unique_start(self@, j, k as int);
                        }
                    }
                    Err(ContractError::Mismatch)
                }
            },
        }
    }

    /// Judges a release or a resize of an allocation without changing anything.
    pub fn check_release(&self, addr: usize, size: usize, align: usize) -> (r: Result<(), ContractError>)
        requires
            self.wf(),
        ensures
            r == return_check(self@, (Block { addr, size, align })),
    {
        match self.locate(addr, size, align) {
            Ok(_) => Ok(()),
            Err(e) => Err(e),
        }
    }

    /// Forgets an allocation that is returned with the size and alignment it
    /// was made with.
    pub fn release(&mut self, addr: usize, size: usize, align: usize) -> (r: Result<(), ContractError>)
        requires
            old(self).wf(),
        ensures
            final(self).wf(),
            r == return_check(old(self)@, (Block { addr, size, align })),
            r is Ok ==> final(self)@ == without(old(self)@, addr),
            r is Err ==> final(self)@ == old(self)@,
    {
        match self.locate(addr, size, align) {
            Ok(k) => {
                proof {
                    lemma_remove_valid(self@, k as int);
                }
                self.live.remove(k);
                Ok(())
            },
            Err(e) => Err(e),
        }
    }

    /// Moves an allocation that a resize has replaced: the block at `addr`,
    /// returned with its size and alignment, gives way to one of `new_size`
    /// bytes at `new_addr` with the same alignment.
    pub fn resize(
        &mut self,
        addr: usize,
        old_size: usize,
        align: usize,
        new_addr: usize,
        new_size: usize,
    ) -> (r: Result<(), ContractError>)
        requires
            old(self).wf(),
        ensures
            final(self).wf(),
            r == resize_check(
                old(self)@,
                (Block { addr, size: old_size, align }),
                (Block { addr: new_addr, size: new_size, align }),
            ),
            r is Ok ==> final(self)@ == without(old(self)@, addr).push(
                (Block { addr: new_addr, size: new_size, align }),
            ),
            r is Err ==> final(self)@ == old(self)@,
    {
        let k = match self.locate(addr, old_size, align) {
            Ok(k) => k,
            Err(e) => {
                return Err(e);
            },
        };
        let ghost before = self@;
        proof {
            lemma_remove_valid(self@, k as int);
        }
        let gone = self.live.remove(k);
        let r = self.record(new_addr, new_size, align);
        if r.is_err() {
            self.live.insert(k, gone);
            assert(self@ =~= before);
        }
        r
    }

    /// Takes note of what the engine answered to an allocation request:
    /// address zero, its sign of exhaustion, changes nothing; any other
    /// address is recorded as a new live allocation.
    pub fn after_allocate(&mut self, size: usize, align: usize, addr: usize) -> (r: Result<(), ContractError>)
        requires
            old(self).wf(),
        ensures
            final(self).wf(),
            addr == 0 ==> r is Ok && final(self)@ == old(self)@,
            addr != 0 ==> r == admission(old(self)@, (Block { addr, size, align })),
            addr != 0 && r is Ok ==> final(self)@ == old(self)@.push((Block { addr, size, align })),
            r is Err ==> final(self)@ == old(self)@,
    {
        if addr == 0 {
            Ok(())
        } else {
            self.record(addr, size, align)
        }
    }

    /// Takes note of what the engine answered to a resize: address zero
    /// leaves the old allocation live and untouched; any other address
    /// replaces it.
    pub fn after_resize(
        &mut self,
        addr: usize,
        old_size: usize,
        align: usize,
        new_addr: usize,
        new_size: usize,
    ) -> (r: Result<(), ContractError>)
        requires
            old(self).wf(),
        ensures
            final(self).wf(),
            new_addr == 0 ==> r == return_check(old(self)@, (Block { addr, size: old_size, align })),
            new_addr == 0 ==> final(self)@ == old(self)@,
            new_addr != 0 ==> r == resize_check(
                old(self)@,
                (Block { addr, size: old_size, align }),
                (Block { addr: new_addr, size: new_size, align }),
            ),
            new_addr != 0 && r is Ok ==> final(self)@ == without(old(self)@, addr).push(
                (Block { addr: new_addr, size: new_size, align }),
            ),
            r is Err ==> final(self)@ == old(self)@,
    {
        if new_addr == 0 {
            self.check_release(addr, old_size, align)
        } else {
            self.resize(addr, old_size, align, new_addr, new_size)
        }
    }
}

} // verus!
