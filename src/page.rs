//! Page-aligned, zero-initialised byte blocks.
use aligned_box::AlignedBox;
use vstd::prelude::*;

verus! {

/// Size of one page in bytes.
pub const PAGE_SIZE: usize = 4096;

#[verifier::external_type_specification]
#[verifier::external_body]
#[verifier::reject_recursive_types(T)]
pub struct ExAlignedBox<T: ?Sized>(AlignedBox<T>);

/// The bytes that an aligned box of bytes holds, lowest address first.
pub uninterp spec fn box_bytes(b: AlignedBox<[u8]>) -> Seq<u8>;

/// Relies on `AlignedBox::<[u8]>::slice_from_default`: on success, `n`
/// bytes, each `u8::default()` (zero), at an address aligned to `PAGE_SIZE`;
/// a request for zero elements is refused.
#[verifier::external_body]
fn allocate_zeroed(n: usize) -> (r: Option<AlignedBox<[u8]>>)
    ensures
        r matches Some(b) ==> box_bytes(b) == Seq::new(n as nat, |i: int| 0u8),
        n == 0 ==> r is None,
{
    AlignedBox::<[u8]>::slice_from_default(PAGE_SIZE, n).ok()
}

/// Relies on `<[u8]>::as_ptr` through `AlignedBox`'s `Deref`: the start
/// address of the block, which, as for every Rust allocation, does not wrap
/// around the address space.
#[verifier::external_body]
fn box_address(b: &AlignedBox<[u8]>) -> (r: usize)
    ensures
        r + box_bytes(*b).len() <= usize::MAX,
{
    b.as_ptr() as usize
}

/// Relies on `<[u8]>::len` through `AlignedBox`'s `Deref`.
#[verifier::external_body]
fn box_len(b: &AlignedBox<[u8]>) -> (r: usize)
    ensures
        r == box_bytes(*b).len(),
{
    b.len()
}

/// Relies on slice indexing through `AlignedBox`'s `Deref`.
#[verifier::external_body]
fn box_get(b: &AlignedBox<[u8]>, i: usize) -> (r: u8)
    requires
        i < box_bytes(*b).len(),
    ensures
        r == box_bytes(*b)[i as int],
{
    b[i]
}

/// Relies on slice indexing through `AlignedBox`'s `DerefMut`: one byte
/// changes, the rest of the block stays.
#[verifier::external_body]
fn box_set(b: &mut AlignedBox<[u8]>, i: usize, v: u8)
    requires
        i < box_bytes(*old(b)).len(),
    ensures
        box_bytes(*final(b)) == box_bytes(*old(b)).update(i as int, v),
{
    b[i] = v;
}

/// Relies on `AlignedBox`'s `Deref` to `[u8]`: a view of the whole block.
#[verifier::external_body]
fn box_slice(b: &AlignedBox<[u8]>) -> (r: &[u8])
    ensures
        r@ == box_bytes(*b),
{
    b
}

/// An exclusively owned, page-aligned byte block of fixed size.
pub struct Pages {
    mem: AlignedBox<[u8]>,
    base: usize,
}

impl Pages {
    /// The block's contents.
    pub closed spec fn view(self) -> Seq<u8> {
        box_bytes(self.mem)
    }

    /// The block's start address.
    pub closed spec fn addr(self) -> usize {
        self.base
    }

    /// The block starts at a non-null page boundary and its addresses fit
    /// in `usize`.
    pub open spec fn wf(self) -> bool {
        &&& self.addr() != 0
        &&& self.addr() % PAGE_SIZE == 0
        &&& self.addr() + self@.len() <= usize::MAX
    }

    /// Allocates `num_pages` zeroed pages. `None` when the size does not fit
    /// in `usize`, when no pages are asked for, or when the allocator refuses
    /// or hands out a block that is not page-aligned.
    pub fn new(num_pages: usize) -> (r: Option<Pages>)
        ensures
            r matches Some(p) ==> p.wf() && p@ == Seq::new(
                (num_pages * PAGE_SIZE) as nat,
                |i: int| 0u8,
            ),
            num_pages == 0 || num_pages * PAGE_SIZE > usize::MAX ==> r is None,
    {
        if num_pages > usize::MAX / PAGE_SIZE {
            return None;
        }
        match allocate_zeroed(num_pages * PAGE_SIZE) {
            Some(mem) => {
                let base = box_address(&mem);
                Self::from_block(mem, base)
            },
            None => None,
        }
    }

    /// Takes a freshly allocated block whose start address is `base`. `None`
    /// when that address is null or not on a page boundary.
    fn from_block(mem: AlignedBox<[u8]>, base: usize) -> (r: Option<Pages>)
        requires
            base + box_bytes(mem).len() <= usize::MAX,
        ensures
            (r is Some) == (base != 0 && base % PAGE_SIZE == 0),
            r matches Some(p) ==> p@ == box_bytes(mem) && p.addr() == base && p.wf(),
    {
        if base == 0 || base % PAGE_SIZE != 0 {
            None
        } else {
            Some(Pages { mem, base })
        }
    }

    /// The whole block.
    pub fn as_slice(&self) -> (r: &[u8])
        ensures
            r@ == self@,
    {
        box_slice(&self.mem)
    }

    /// Size of the block in bytes.
    pub fn num_bytes(&self) -> (r: usize)
        ensures
            r == self@.len(),
    {
        box_len(&self.mem)
    }

    /// Size of the block in whole pages.
    pub fn num_pages(&self) -> (r: usize)
        ensures
            r == self@.len() / PAGE_SIZE as nat,
    {
        box_len(&self.mem) / PAGE_SIZE
    }

    /// Start address of the block.
    pub fn as_ptr(&self) -> (r: usize)
        ensures
            r == self.addr(),
    {
        self.base
    }

    /// Start address of the block, for writing through.
    pub fn as_mut_ptr(&mut self) -> (r: usize)
        ensures
            r == old(self).addr(),
            *final(self) == *old(self),
    {
        self.base
    }

    /// Reads the byte at offset `i`.
    pub fn read(&self, i: usize) -> (r: u8)
        requires
            i < self@.len(),
        ensures
            r == self@[i as int],
    {
        box_get(&self.mem, i)
    }

    /// Writes the byte at offset `i`.
    pub fn write(&mut self, i: usize, v: u8)
        requires
            i < old(self)@.len(),
        ensures
            final(self)@ == old(self)@.update(i as int, v),
            final(self).addr() == old(self).addr(),
    {
        box_set(&mut self.mem, i, v)
    }
}

} // verus!
