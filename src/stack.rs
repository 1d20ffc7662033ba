//! The downward-growing initial process stack.
use crate::page::{Pages, PAGE_SIZE};
use vstd::arithmetic::div_mod::{lemma_fundamental_div_mod, lemma_mod_multiples_basic};
use vstd::layout::layout_for_type_is_valid;
use vstd::prelude::*;
use vstd::string::StringSliceAdditionalSpecFns;

verus! {

/// Byte `k` (0 = least significant) of `v`.
pub open spec fn byte_of(v: u64, k: int) -> u8 {
    ((v >> (8 * k) as u64) & 0xff) as u8
}

/// The little-endian byte image of a sequence of 64-bit words.
pub open spec fn words_bytes(ws: Seq<u64>) -> Seq<u8> {
    Seq::new(8 * ws.len(), |i: int| byte_of(ws[i / 8], i % 8))
}

/// The 64-bit little-endian word stored at byte offset `at` of `b`.
pub open spec fn word_at(b: Seq<u8>, at: int) -> u64 {
    (b[at] as u64) | ((b[at + 1] as u64) << 8u64) | ((b[at + 2] as u64) << 16u64) | ((b[
        at + 3
    ] as u64) << 24u64) | ((b[at + 4] as u64) << 32u64) | ((b[at + 5] as u64) << 40u64) | ((b[
        at + 6
    ] as u64) << 48u64) | ((b[at + 7] as u64) << 56u64)
}

/// The `n` words stored from byte offset `at` of `b` upward.
pub open spec fn words_at(b: Seq<u8>, at: int, n: nat) -> Seq<u64> {
    Seq::new(n, |i: int| word_at(b, at + 8 * i))
}

/// `b` with `d` written over it from offset `at`.
pub open spec fn splice(b: Seq<u8>, at: int, d: Seq<u8>) -> Seq<u8> {
    Seq::new(b.len(), |i: int| if at <= i < at + d.len() { d[i - at] } else { b[i] })
}

proof fn lemma_low_byte(x: u64)
    ensures
        (x & 0xff) < 256,
{
    assert((x & 0xff) < 256) by (bit_vector);
}

/// A word read back from its own little-endian bytes is the word itself.
pub proof fn lemma_word_round_trip(v: u64)
    ensures
        word_at(words_bytes(seq![v]), 0) == v,
{
    let b = words_bytes(seq![v]);
    assert(b[0] == byte_of(v, 0) && b[1] == byte_of(v, 1) && b[2] == byte_of(v, 2) && b[3]
        == byte_of(v, 3) && b[4] == byte_of(v, 4) && b[5] == byte_of(v, 5) && b[6] == byte_of(v, 6)
        && b[7] == byte_of(v, 7));
    assert(v == (v & 0xff) | (((v >> 8u64) & 0xff) << 8u64) | (((v >> 16u64) & 0xff) << 16u64)
        | (((v >> 24u64) & 0xff) << 24u64) | (((v >> 32u64) & 0xff) << 32u64) | (((v >> 40u64)
        & 0xff) << 40u64) | (((v >> 48u64) & 0xff) << 48u64) | (((v >> 56u64) & 0xff) << 56u64))
        by (bit_vector);
    assert(v >> 0u64 == v) by (bit_vector);
    lemma_low_byte(v);
    lemma_low_byte(v >> 8u64);
    lemma_low_byte(v >> 16u64);
    lemma_low_byte(v >> 24u64);
    lemma_low_byte(v >> 32u64);
    lemma_low_byte(v >> 40u64);
    lemma_low_byte(v >> 48u64);
    lemma_low_byte(v >> 56u64);
}

/// Words pushed as one slice read back, from the position they were pushed
/// at upward, in the order they were given; the bytes of the block outside them
/// are not touched.
pub proof fn lemma_push_slice_read_back(b: Seq<u8>, at: int, ws: Seq<u64>)
    requires
        0 <= at,
        at + 8 * ws.len() <= b.len(),
    ensures
        words_at(splice(b, at, words_bytes(ws)), at, ws.len()) == ws,
        forall|i: int|
            0 <= i < b.len() && !(at <= i < at + 8 * ws.len()) ==> splice(
                b,
                at,
                words_bytes(ws),
            )[i] == b[i],
{
    let s = splice(b, at, words_bytes(ws));
    assert forall|i: int| 0 <= i < ws.len() implies #[trigger] words_at(s, at, ws.len())[i]
        == ws[i] by {
        lemma_word_round_trip(ws[i]);
        let one = words_bytes(seq![ws[i]]);
        assert forall|k: int| 0 <= k < 8 implies s[at + 8 * i + k] == one[k] by {
            assert((8 * i + k) / 8 == i) by (nonlinear_arith)
                requires
                    0 <= k < 8,
            ;
            assert((8 * i + k) % 8 == k) by (nonlinear_arith)
                requires
                    0 <= k < 8,
            ;
        }
        assert(s[at + 8 * i] == one[0]);
        assert(s[at + 8 * i + 1] == one[1]);
        assert(s[at + 8 * i + 2] == one[2]);
        assert(s[at + 8 * i + 3] == one[3]);
        assert(s[at + 8 * i + 4] == one[4]);
        assert(s[at + 8 * i + 5] == one[5]);
        assert(s[at + 8 * i + 6] == one[6]);
        assert(s[at + 8 * i + 7] == one[7]);
    }
    assert(words_at(s, at, ws.len()) =~= ws);
}

/// Encodes words as their little-endian bytes.
pub fn encode_words(ws: &[u64]) -> (r: Vec<u8>)
    requires
        8 * ws@.len() <= usize::MAX,
    ensures
        r@ == words_bytes(ws@),
{
    let mut r: Vec<u8> = Vec::new();
    let mut i: usize = 0;
    while i < ws.len()
        invariant
            i <= ws@.len(),
            8 * ws@.len() <= usize::MAX,
            r@.len() == 8 * i,
            forall|j: int| 0 <= j < 8 * i ==> #[trigger] r@[j] == byte_of(ws@[j / 8], j % 8),
        decreases ws@.len() - i,
    {
        let w = ws[i];
        let mut k: u64 = 0;
        while k < 8
            invariant
                i < ws@.len(),
                w == ws@[i as int],
                k <= 8,
                r@.len() == 8 * i + k,
                forall|j: int| 0 <= j < 8 * i + k ==> #[trigger] r@[j] == byte_of(ws@[j / 8], j % 8),
            decreases 8 - k,
        {
            let b: u8 = ((w >> (8 * k)) & 0xff) as u8;
            proof {
                let j = 8 * i + k;
                assert(j / 8 == i && j % 8 == k) by (nonlinear_arith)
                    requires
                        j == 8 * i + k,
                        k < 8,
                ;
            }
            r.push(b);
            k = k + 1;
        }
        i = i + 1;
    }
    assert(r@ =~= words_bytes(ws@));
    r
}

/// A process stack under construction: a page block and a cursor into it
/// that starts at the top and only moves down.
pub struct Stack {
    /// The block the stack lives in.
    pub stack: Pages,
    /// The cursor: offset of the lowest byte in use.
    pub sp: usize,
    /// Start address of the block.
    pub base: usize,
}

impl Stack {
    /// The cursor lies within the block, and `base` is the block's start
    /// address.
    pub open spec fn wf(&self) -> bool {
        &&& self.sp <= self.stack@.len()
        &&& self.stack.wf()
        &&& self.base == self.stack.addr()
    }

    /// A stack of `size` zeroed pages with the cursor at the top. `None` when
    /// the size is zero or does not fit in `usize`, or when the allocator
    /// refuses.
    pub fn new(size: usize) -> (r: Option<Stack>)
        ensures
            r matches Some(s) ==> {
                &&& s.wf()
                &&& s.sp == size * PAGE_SIZE
                &&& s.stack@ == Seq::new((size * PAGE_SIZE) as nat, |i: int| 0u8)
            },
            size == 0 || size * PAGE_SIZE > usize::MAX ==> r is None,
    {
        match Pages::new(size) {
            Some(stack) => {
                let base = stack.as_ptr();
                let sp = stack.num_bytes();
                Some(Stack { stack, sp, base })
            },
            None => None,
        }
    }

    /// Moves the cursor down to the nearest multiple of `align`.
    pub fn align_to(&mut self, align: usize)
        requires
            old(self).wf(),
            align > 0,
        ensures
            final(self).wf(),
            final(self).sp == old(self).sp - old(self).sp % align,
            final(self).sp % align == 0,
            final(self).sp <= old(self).sp,
            final(self).stack@ == old(self).stack@,
            final(self).base == old(self).base,
    {
        proof {
            let sp = self.sp as int;
            let a = align as int;
            lemma_fundamental_div_mod(sp, a);
            lemma_mod_multiples_basic(sp / a, a);
            assert(sp - sp % a == (sp / a) * a) by (nonlinear_arith)
                requires
                    sp == a * (sp / a) + sp % a,
            ;
        }
        self.sp = self.sp - self.sp % align;
    }

    /// Checks that the cursor is a multiple of `align`; a misaligned
    /// cursor is ruled out by the precondition.
    pub fn assert_aligned(&self, align: usize)
        requires
            align > 0,
            self.sp % align == 0,
    {
    }

    /// Checks that the cursor is aligned for a value of type `T`; a
    /// misaligned cursor is ruled out by the precondition.
    pub fn assert_aligned_to<T>(&self)
        requires
            self.sp as nat % vstd::layout::align_of::<T>() == 0,
    {
        layout_for_type_is_valid::<T>();
        self.assert_aligned(core::mem::align_of::<T>());
    }

    /// Reserves `len` bytes below the cursor and returns the new cursor.
    pub fn alloc_bytes(&mut self, len: usize) -> (r: usize)
        requires
            old(self).wf(),
            len <= old(self).sp,
        ensures
            final(self).wf(),
            final(self).sp == old(self).sp - len,
            r == final(self).sp,
            final(self).stack@ == old(self).stack@,
            final(self).base == old(self).base,
    {
        self.sp = self.sp - len;
        self.sp
    }

    /// Pushes `data`: the cursor moves down by its length and the bytes are
    /// written upward from there.
    pub fn push_bytes(&mut self, data: &[u8])
        requires
            old(self).wf(),
            data@.len() <= old(self).sp,
        ensures
            final(self).wf(),
            final(self).sp == old(self).sp - data@.len(),
            final(self).stack@ == splice(old(self).stack@, final(self).sp as int, data@),
            final(self).base == old(self).base,
    {
        let ghost before = self.stack@;
        let at = self.alloc_bytes(data.len());
        let mut i: usize = 0;
        while i < data.len()
            invariant
                self.wf(),
                self.sp == at,
                self.base == old(self).base,
                at + data@.len() <= before.len(),
                i <= data@.len(),
                self.stack@ == splice(before, at as int, data@.subrange(0, i as int)),
            decreases data@.len() - i,
        {
            self.stack.write(at + i, data[i]);
            assert(self.stack@ =~= splice(before, at as int, data@.subrange(0, i + 1)));
            i = i + 1;
        }
        assert(data@.subrange(0, data@.len() as int) =~= data@);
    }

    /// Address of the byte at the cursor.
    pub fn sp_addr(&self) -> (r: usize)
        requires
            self.wf(),
        ensures
            r == self.base + self.sp,
    {
        self.base + self.sp
    }

    /// Pushes `s` followed by a NUL byte and returns the address of the
    /// string's first byte, which is the new cursor's address.
    pub fn push_str(&mut self, s: &str) -> (r: usize)
        requires
            old(self).wf(),
            s.spec_bytes().len() + 1 <= old(self).sp,
        ensures
            final(self).wf(),
            final(self).sp == old(self).sp - (s.spec_bytes().len() + 1),
            r == final(self).base + final(self).sp,
            final(self).stack@ == splice(
                old(self).stack@,
                final(self).sp as int,
                s.spec_bytes().push(0u8),
            ),
            final(self).base == old(self).base,
    {
        let ghost before = self.stack@;
        let nul: [u8; 1] = [0u8];
        self.push_bytes(nul.as_slice());
        self.push_bytes(s.as_bytes());
        assert(self.stack@ =~= splice(before, self.sp as int, s.spec_bytes().push(0u8)));
        self.sp_addr()
    }

    /// Pushes 64-bit words; the first ends up at the lowest address. The
    /// cursor must be word-aligned.
    pub fn push_slice(&mut self, slice: &[u64])
        requires
            old(self).wf(),
            old(self).sp % 8 == 0,
            8 * slice@.len() <= old(self).sp,
        ensures
            final(self).wf(),
            final(self).sp == old(self).sp - 8 * slice@.len(),
            final(self).sp % 8 == 0,
            final(self).stack@ == splice(
                old(self).stack@,
                final(self).sp as int,
                words_bytes(slice@),
            ),
            final(self).base == old(self).base,
    {
        let ghost sp0 = self.sp as int;
        let ghost n = slice@.len() as int;
        let bytes = encode_words(slice);
        self.push_bytes(bytes.as_slice());
        assert((sp0 - 8 * n) % 8 == 0) by (nonlinear_arith)
            requires
                sp0 % 8 == 0,
                8 * n <= sp0,
        ;
    }

    /// Pushes one 64-bit word. The cursor must be word-aligned.
    pub fn push_value(&mut self, value: u64)
        requires
            old(self).wf(),
            old(self).sp % 8 == 0,
            8 <= old(self).sp,
        ensures
            final(self).wf(),
            final(self).sp == old(self).sp - 8,
            final(self).stack@ == splice(
                old(self).stack@,
                final(self).sp as int,
                words_bytes(seq![value]),
            ),
            final(self).base == old(self).base,
    {
        let one: [u64; 1] = [value];
        proof {
            assert(one@ =~= seq![value]);
        }
        self.push_slice(one.as_slice());
    }

    /// Reads the 64-bit little-endian word at byte offset `at`.
    pub fn read_word(&self, at: usize) -> (r: u64)
        requires
            self.wf(),
            at + 8 <= self.stack@.len(),
        ensures
            r == word_at(self.stack@, at as int),
    {
        (self.stack.read(at) as u64) | ((self.stack.read(at + 1) as u64) << 8u64) | ((
        self.stack.read(at + 2) as u64) << 16u64) | ((self.stack.read(at + 3) as u64) << 24u64)
            | ((self.stack.read(at + 4) as u64) << 32u64) | ((self.stack.read(at + 5) as u64)
            << 40u64) | ((self.stack.read(at + 6) as u64) << 48u64) | ((self.stack.read(at + 7)
            as u64) << 56u64)
    }
}

/// Pairs laid out as words, key before value.
pub open spec fn pairs_words(ps: Seq<(u64, u64)>) -> Seq<u64> {
    Seq::new(2 * ps.len(), |i: int| if i % 2 == 0 { ps[i / 2].0 } else { ps[i / 2].1 })
}

/// The words of an initial process stack from its stack pointer upward:
/// the argument count, the argument pointers and a null, the environment
/// pointers and a null, then the auxiliary vector.
pub open spec fn initial_stack_words(argv: Seq<u64>, envp: Seq<u64>, auxv: Seq<(u64, u64)>) -> Seq<u64> {
    seq![argv.len() as u64] + argv + seq![0u64] + envp + seq![0u64] + pairs_words(auxv)
}

/// Words read from a region depend only on the bytes of that region.
proof fn lemma_words_frame(b1: Seq<u8>, b2: Seq<u8>, at: int, n: nat)
    requires
        forall|i: int| at <= i < at + 8 * n ==> b1[i] == b2[i],
    ensures
        words_at(b1, at, n) == words_at(b2, at, n),
{
    assert forall|t: int| 0 <= t < n implies #[trigger] words_at(b1, at, n)[t] == words_at(b2, at, n)[t] by {
        assert(b1[at + 8 * t] == b2[at + 8 * t]);
        assert(b1[at + 8 * t + 1] == b2[at + 8 * t + 1]);
        assert(b1[at + 8 * t + 2] == b2[at + 8 * t + 2]);
        assert(b1[at + 8 * t + 3] == b2[at + 8 * t + 3]);
        assert(b1[at + 8 * t + 4] == b2[at + 8 * t + 4]);
        assert(b1[at + 8 * t + 5] == b2[at + 8 * t + 5]);
        assert(b1[at + 8 * t + 6] == b2[at + 8 * t + 6]);
        assert(b1[at + 8 * t + 7] == b2[at + 8 * t + 7]);
    }
    assert(words_at(b1, at, n) =~= words_at(b2, at, n));
}

/// Words read from two adjacent regions are the words of their union.
proof fn lemma_words_concat(b: Seq<u8>, at: int, n: nat, m: nat)
    ensures
        words_at(b, at, n + m) == words_at(b, at, n) + words_at(b, at + 8 * n, m),
{
    assert forall|t: int| n <= t < n + m implies #[trigger] words_at(b, at, n + m)[t] == words_at(b, at + 8 * n, m)[t - n] by {
        assert(at + 8 * t == at + 8 * n + 8 * (t - n));
    }
    assert(words_at(b, at, n + m) =~= words_at(b, at, n) + words_at(b, at + 8 * n, m));
}

/// Four word tables pushed one below the other read back, from the last
/// one up, as their concatenation.
proof fn lemma_tables_layout(
    s0: Seq<u8>,
    s1: Seq<u8>,
    s2: Seq<u8>,
    s3: Seq<u8>,
    s4: Seq<u8>,
    sp0: int,
    sp1: int,
    sp2: int,
    sp3: int,
    sp4: int,
    aw: Seq<u64>,
    ew: Seq<u64>,
    rw: Seq<u64>,
    argc: u64,
)
    requires
        0 <= sp4,
        sp0 <= s0.len(),
        sp1 == sp0 - 8 * aw.len(),
        sp2 == sp1 - 8 * ew.len(),
        sp3 == sp2 - 8 * rw.len(),
        sp4 == sp3 - 8,
        s1 == splice(s0, sp1, words_bytes(aw)),
        s2 == splice(s1, sp2, words_bytes(ew)),
        s3 == splice(s2, sp3, words_bytes(rw)),
        s4 == splice(s3, sp4, words_bytes(seq![argc])),
    ensures
        words_at(s4, sp4, 1 + rw.len() + ew.len() + aw.len()) == seq![argc] + rw + ew + aw,
        forall|i: int| sp0 <= i < s0.len() ==> #[trigger] s4[i] == s0[i],
{
    lemma_push_slice_read_back(s0, sp1, aw);
    lemma_push_slice_read_back(s1, sp2, ew);
    lemma_push_slice_read_back(s2, sp3, rw);
    lemma_push_slice_read_back(s3, sp4, seq![argc]);
    lemma_words_frame(s4, s3, sp3, rw.len());
    lemma_words_frame(s4, s2, sp2, ew.len());
    lemma_words_frame(s4, s1, sp1, aw.len());
    lemma_words_concat(s4, sp4, 1, rw.len());
    lemma_words_concat(s4, sp4, 1 + rw.len(), ew.len());
    lemma_words_concat(s4, sp4, 1 + rw.len() + ew.len(), aw.len());
    assert(words_at(s4, sp4, 1) == seq![argc]);
}

/// Lays pairs out as words, key before value.
pub fn pairs_to_words(ps: &[(u64, u64)]) -> (r: Vec<u64>)
    ensures
        r@ == pairs_words(ps@),
{
    let mut r: Vec<u64> = Vec::new();
    let mut i: usize = 0;
    while i < ps.len()
        invariant
            i <= ps@.len(),
            r@ =~= pairs_words(ps@.subrange(0, i as int)),
        decreases ps@.len() - i,
    {
        r.push(ps[i].0);
        r.push(ps[i].1);
        assert(r@ =~= pairs_words(ps@.subrange(0, i + 1)));
        i = i + 1;
    }
    assert(ps@.subrange(0, ps@.len() as int) =~= ps@);
    r
}

/// The words followed by a null word.
pub fn null_terminated(ws: &[u64]) -> (r: Vec<u64>)
    ensures
        r@ == ws@.push(0u64),
{
    let mut r: Vec<u64> = Vec::new();
    let mut i: usize = 0;
    while i < ws.len()
        invariant
            i <= ws@.len(),
            r@ =~= ws@.subrange(0, i as int),
        decreases ws@.len() - i,
    {
        r.push(ws[i]);
        i = i + 1;
    }
    r.push(0u64);
    assert(r@ =~= ws@.push(0u64));
    r
}

/// Bytes that the strings take on the stack, each with its terminator.
pub open spec fn strs_size(strs: Seq<&str>) -> nat
    decreases strs.len(),
{
    if strs.len() == 0 {
        0
    } else {
        strs_size(strs.drop_last()) + strs.last().spec_bytes().len() + 1
    }
}

/// A prefix of the strings takes no more room than all of them.
proof fn lemma_strs_size_prefix(strs: Seq<&str>, n: int)
    requires
        0 <= n <= strs.len(),
    ensures
        strs_size(strs.subrange(0, n)) <= strs_size(strs),
    decreases strs.len(),
{
    if n < strs.len() {
        assert(strs.subrange(0, n) =~= strs.drop_last().subrange(0, n));
        lemma_strs_size_prefix(strs.drop_last(), n);
    } else {
        assert(strs.subrange(0, n) =~= strs);
    }
}

impl Stack {
    /// Pushes each string with its NUL terminator, first string first, and
    /// returns their addresses. Each string, with its terminator, stays
    /// where its address points.
    pub fn push_strs(&mut self, strs: &[&str]) -> (r: Vec<u64>)
        requires
            old(self).wf(),
            strs_size(strs@) <= old(self).sp,
        ensures
            final(self).wf(),
            final(self).sp == old(self).sp - strs_size(strs@),
            final(self).base == old(self).base,
            final(self).stack@.len() == old(self).stack@.len(),
            forall|i: int|
                0 <= i < old(self).stack@.len() && !(final(self).sp <= i < old(self).sp)
                    ==> #[trigger] final(self).stack@[i] == old(self).stack@[i],
            r@.len() == strs@.len(),
            forall|i: int|
                0 <= i < r@.len() ==> #[trigger] r@[i] == final(self).base + old(self).sp
                    - strs_size(strs@.subrange(0, i + 1)) && r@[i] != 0,
            forall|i: int, k: int|
                0 <= i < r@.len() && 0 <= k <= strs@[i].spec_bytes().len()
                    ==> #[trigger] final(self).stack@[r@[i] - final(self).base + k]
                    == #[trigger] strs@[i].spec_bytes().push(0u8)[k],
    {
        let mut ptrs: Vec<u64> = Vec::new();
        let mut i: usize = 0;
        assert(strs@.subrange(0, 0) =~= Seq::<&str>::empty());
        while i < strs.len()
            invariant
                self.wf(),
                self.base == old(self).base,
                self.stack@.len() == old(self).stack@.len(),
                forall|q: int|
                    0 <= q < old(self).stack@.len() && !(self.sp <= q < old(self).sp)
                        ==> #[trigger] self.stack@[q] == old(self).stack@[q],
                strs_size(strs@) <= old(self).sp,
                old(self).sp <= self.stack@.len(),
                i <= strs@.len(),
                self.sp == old(self).sp - strs_size(strs@.subrange(0, i as int)),
                ptrs@.len() == i,
                forall|j: int|
                    0 <= j < i ==> #[trigger] ptrs@[j] == self.base + old(self).sp - strs_size(
                        strs@.subrange(0, j + 1),
                    ) && ptrs@[j] != 0 && ptrs@[j] >= self.base + self.sp && ptrs@[j] - self.base
                        + strs@[j].spec_bytes().len() + 1 <= old(self).sp,
                forall|j: int, k: int|
                    0 <= j < i && 0 <= k <= strs@[j].spec_bytes().len() ==> #[trigger] self.stack@[ptrs@[j]
                        - self.base + k] == #[trigger] strs@[j].spec_bytes().push(0u8)[k],
            decreases strs@.len() - i,
        {
            let s: &str = strs[i];
            proof {
                assert(strs@.subrange(0, i + 1).drop_last() =~= strs@.subrange(0, i as int));
                lemma_strs_size_prefix(strs@, i + 1);
            }
            let ghost before = self.stack@;
            let ghost sp_before = self.sp;
            let p = self.push_str(s);
            ptrs.push(p as u64);
            proof {
                assert forall|j: int, k: int|
                    0 <= j < i + 1 && 0 <= k <= strs@[j].spec_bytes().len() implies #[trigger] self.stack@[ptrs@[j]
                        - self.base + k] == #[trigger] strs@[j].spec_bytes().push(0u8)[k] by {
                    if j < i {
                        assert(ptrs@[j] - self.base + k >= sp_before);
                        assert(self.stack@[ptrs@[j] - self.base + k] == before[ptrs@[j] - self.base + k]);
                    }
                }
            }
            i = i + 1;
        }
        assert(strs@.subrange(0, strs@.len() as int) =~= strs@);
        ptrs
    }

    /// Pushes the pointer tables and the auxiliary vector of an initial
    /// process stack below the strings they point to: aligns the cursor to a
    /// word, then pushes the auxiliary vector, the environment pointers and
    /// a null, the argument pointers and a null, and the argument count, so
    /// that the cursor ends at the argument count.
    pub fn push_tables(&mut self, argv: &[u64], envp: &[u64], auxv: &[(u64, u64)])
        requires
            old(self).wf(),
            8 * (3 + argv@.len() + envp@.len() + 2 * auxv@.len()) + 7 <= old(self).sp,
        ensures
            final(self).wf(),
            final(self).sp % 8 == 0,
            final(self).base == old(self).base,
            words_at(
                final(self).stack@,
                final(self).sp as int,
                3 + argv@.len() + envp@.len() + 2 * auxv@.len(),
            ) == initial_stack_words(argv@, envp@, auxv@),
            forall|i: int| final(self).sp + 8 * (3 + argv@.len() + envp@.len() + 2 * auxv@.len()) <= i < old(self).stack@.len() ==> #[trigger] final(self).stack@[i] == old(self).stack@[i],
    {
        self.align_to(8);
        let ghost s0 = self.stack@;
        let ghost sp0 = self.sp as int;
        let aux_words = pairs_to_words(auxv);
        let env_words = null_terminated(envp);
        let arg_words = null_terminated(argv);
        let ghost aw = aux_words@;
        let ghost ew = env_words@;
        let ghost rw = arg_words@;
        self.push_slice(aux_words.as_slice());
        let ghost s1 = self.stack@;
        let ghost sp1 = self.sp as int;
        self.push_slice(env_words.as_slice());
        let ghost s2 = self.stack@;
        let ghost sp2 = self.sp as int;
        self.push_slice(arg_words.as_slice());
        let ghost s3 = self.stack@;
        let ghost sp3 = self.sp as int;
        self.push_value(argv.len() as u64);
        let ghost s4 = self.stack@;
        let ghost sp4 = self.sp as int;
        proof {
            lemma_tables_layout(s0, s1, s2, s3, s4, sp0, sp1, sp2, sp3, sp4, aw, ew, rw, argv@.len() as u64);
            assert(initial_stack_words(argv@, envp@, auxv@) =~= seq![argv@.len() as u64] + rw + ew + aw);
            assert(3 + argv@.len() + envp@.len() + 2 * auxv@.len() == 1 + rw.len() + ew.len() + aw.len());
        }
    }
}

/// Read upward from the stack pointer, an initial stack holds the argument
/// count, that many non-null argument pointers, a null, the non-null
/// environment pointers, a null, and the auxiliary pairs, the last of which
/// is the terminating `(0, 0)` where the vector ends with it.
pub proof fn lemma_initial_stack_shape(argv: Seq<u64>, envp: Seq<u64>, auxv: Seq<(u64, u64)>)
    requires
        argv.len() <= u64::MAX,
        forall|i: int| 0 <= i < argv.len() ==> #[trigger] argv[i] != 0,
        forall|i: int| 0 <= i < envp.len() ==> #[trigger] envp[i] != 0,
    ensures
        ({
            let w = initial_stack_words(argv, envp, auxv);
            let a = argv.len() as int;
            let e = envp.len() as int;
            &&& w.len() == 3 + a + e + 2 * auxv.len()
            &&& w[0] == a
            &&& forall|i: int| 1 <= i <= a ==> #[trigger] w[i] != 0
            &&& w[a + 1] == 0
            &&& forall|i: int| a + 2 <= i < a + 2 + e ==> #[trigger] w[i] != 0
            &&& w[a + 2 + e] == 0
            &&& forall|j: int|
                0 <= j < auxv.len() ==> w[a + 3 + e + 2 * j] == (#[trigger] auxv[j]).0 && w[a
                    + 4 + e + 2 * j] == auxv[j].1
            &&& auxv.len() > 0 && auxv.last() == (0u64, 0u64) ==> w[w.len() - 2] == 0 && w[w.len()
                - 1] == 0
        }),
{
    let w = initial_stack_words(argv, envp, auxv);
    let a = argv.len() as int;
    let e = envp.len() as int;
    let pw = pairs_words(auxv);
    assert forall|i: int| 1 <= i <= a implies #[trigger] w[i] != 0 by {
        assert(w[i] == argv[i - 1]);
    }
    assert forall|i: int| a + 2 <= i < a + 2 + e implies #[trigger] w[i] != 0 by {
        assert(w[i] == envp[i - a - 2]);
    }
    assert forall|j: int| 0 <= j < auxv.len() implies w[a + 3 + e + 2 * j] == (#[trigger] auxv[j]).0
        && w[a + 4 + e + 2 * j] == auxv[j].1 by {
        assert(w[a + 3 + e + 2 * j] == pw[2 * j]);
        assert(w[a + 4 + e + 2 * j] == pw[2 * j + 1]);
        assert((2 * j) / 2 == j && (2 * j) % 2 == 0);
        assert((2 * j + 1) / 2 == j && (2 * j + 1) % 2 == 1);
    }
    if auxv.len() > 0 {
        let j = auxv.len() - 1;
        assert(w[a + 3 + e + 2 * j] == auxv[j].0 && w[a + 4 + e + 2 * j] == auxv[j].1);
    }
}

/// Pushing, one below the other from a word-aligned cursor `sp0`, the
/// auxiliary pairs, the environment pointers with a null, the argument
/// pointers with a null, and the argument count, leaves at the final cursor
/// the words of an initial process stack, in that order read upward.
pub proof fn lemma_pushed_stack_layout(
    s0: Seq<u8>,
    s1: Seq<u8>,
    s2: Seq<u8>,
    s3: Seq<u8>,
    s4: Seq<u8>,
    sp0: int,
    sp4: int,
    argv: Seq<u64>,
    envp: Seq<u64>,
    auxv: Seq<(u64, u64)>,
)
    requires
        argv.len() <= u64::MAX,
        sp0 <= s0.len(),
        sp4 == sp0 - 8 * (3 + argv.len() + envp.len() + 2 * auxv.len()),
        0 <= sp4,
        s1 == splice(s0, sp0 - 8 * (2 * auxv.len()), words_bytes(pairs_words(auxv))),
        s2 == splice(
            s1,
            sp0 - 8 * (2 * auxv.len() + envp.len() + 1),
            words_bytes(envp.push(0u64)),
        ),
        s3 == splice(
            s2,
            sp0 - 8 * (2 * auxv.len() + envp.len() + argv.len() + 2),
            words_bytes(argv.push(0u64)),
        ),
        s4 == splice(s3, sp4, words_bytes(seq![argv.len() as u64])),
    ensures
        words_at(s4, sp4, 3 + argv.len() + envp.len() + 2 * auxv.len()) == initial_stack_words(
            argv,
            envp,
            auxv,
        ),
        forall|i: int| sp0 <= i < s0.len() ==> #[trigger] s4[i] == s0[i],
{
    let aw = pairs_words(auxv);
    let ew = envp.push(0u64);
    let rw = argv.push(0u64);
    lemma_tables_layout(
        s0,
        s1,
        s2,
        s3,
        s4,
        sp0,
        sp0 - 8 * aw.len(),
        sp0 - 8 * aw.len() - 8 * ew.len(),
        sp0 - 8 * aw.len() - 8 * ew.len() - 8 * rw.len(),
        sp4,
        aw,
        ew,
        rw,
        argv.len() as u64,
    );
    assert(initial_stack_words(argv, envp, auxv) =~= seq![argv.len() as u64] + rw + ew + aw);
}

} // verus!
