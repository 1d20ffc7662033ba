//! Placing the loadable segments of an ELF executable into one contiguous
//! image, and the values handed to the started program about it.
use crate::page::PAGE_SIZE;
use vstd::prelude::*;

verus! {

/// Program header type of a loadable segment.
pub const PT_LOAD: u32 = 1;

/// Auxiliary vector key: system page size.
pub const AT_PAGESZ: u64 = 6;

/// Auxiliary vector key: base address the image was loaded at.
pub const AT_BASE: u64 = 7;

/// One program header entry, reduced to what loading reads.
#[derive(Clone, Copy, Debug, PartialEq, Eq)]
pub struct Segment {
    pub p_type: u32,
    pub vaddr: u64,
    pub offset: u64,
    pub filesz: u64,
    pub memsz: u64,
}

impl Segment {
    /// The entry that a tuple `(type, vaddr, offset, filesz, memsz)` stands for.
    pub open spec fn from_tuple(t: (u32, u64, u64, u64, u64)) -> Segment {
        Segment { p_type: t.0, vaddr: t.1, offset: t.2, filesz: t.3, memsz: t.4 }
    }

    /// The entry describes a segment to map.
    pub open spec fn is_load(self) -> bool {
        self.p_type == PT_LOAD
    }
}

/// The entry point and program header table of an executable.
pub struct ProgramHeaders {
    pub entry: u64,
    pub segments: Vec<Segment>,
}

/// Why an executable cannot be loaded.
#[derive(Clone, Copy, Debug, PartialEq, Eq)]
pub enum LoadError {
    /// The ELF header or program header table could not be parsed.
    Malformed,
    /// No program header entry is loadable.
    NoLoadableSegment,
    /// A loadable segment's address range, or the span of all of them,
    /// does not fit in the address space.
    AddressOverflow,
    /// A loadable segment holds more file bytes than memory bytes.
    SizeMismatch,
    /// A loadable segment's file bytes lie beyond the end of the file.
    Truncated,
}

/// The entry point and program headers that the ELF parser finds in `data`,
/// or `None` where it rejects the data.
pub uninterp spec fn elf_program_headers(data: Seq<u8>) -> Option<(u64, Seq<(u32, u64, u64, u64, u64)>)>;

/// Relies on `elf::ElfBytes::<LittleEndian>::minimal_parse` for the file
/// header and program header table, read through `ElfBytes::segments`; a
/// file without a program header table has no segments.
#[verifier::external_body]
fn parse_program_headers(data: &[u8]) -> (r: Option<ProgramHeaders>)
    ensures
        match elf_program_headers(data@) {
            None => r is None,
            Some(h) => r matches Some(p) && p.entry == h.0 && p.segments@ == h.1.map_values(
                |t: (u32, u64, u64, u64, u64)| Segment::from_tuple(t),
            ),
        },
{
    let file = elf::ElfBytes::<elf::endian::LittleEndian>::minimal_parse(data).ok()?;
    let segments = match file.segments() {
        Some(table) => table.iter().map(|p| Segment {
            p_type: p.p_type,
            vaddr: p.p_vaddr,
            offset: p.p_offset,
            filesz: p.p_filesz,
            memsz: p.p_memsz,
        }).collect(),
        None => Vec::new(),
    };
    Some(ProgramHeaders { entry: file.ehdr.e_entry, segments })
}

/// Parses the ELF header and program header table of `data`.
pub fn read_program_headers(data: &[u8]) -> (r: Result<ProgramHeaders, LoadError>)
    ensures
        match elf_program_headers(data@) {
            None => r == Err::<ProgramHeaders, LoadError>(LoadError::Malformed),
            Some(h) => r matches Ok(p) && p.entry == h.0 && p.segments@ == h.1.map_values(
                |t: (u32, u64, u64, u64, u64)| Segment::from_tuple(t),
            ),
        },
{
    match parse_program_headers(data) {
        Some(p) => Ok(p),
        None => Err(LoadError::Malformed),
    }
}

/// `a` rounded down to a page boundary.
pub open spec fn page_floor(a: int) -> int {
    a / PAGE_SIZE as int * PAGE_SIZE as int
}

/// `a` rounded up to a page boundary.
pub open spec fn page_ceil(a: int) -> int {
    (a + PAGE_SIZE - 1) / PAGE_SIZE as int * PAGE_SIZE as int
}

/// End address of a segment in memory.
pub open spec fn seg_end(s: Segment) -> int {
    s.vaddr + s.memsz
}

/// Some entry is loadable.
pub open spec fn has_load(segs: Seq<Segment>) -> bool {
    exists|i: int| 0 <= i < segs.len() && (#[trigger] segs[i]).is_load()
}

/// Segment `i` is loadable and starts lowest among the loadable ones.
pub open spec fn is_lowest(segs: Seq<Segment>, i: int) -> bool {
    &&& 0 <= i < segs.len()
    &&& segs[i].is_load()
    &&& forall|j: int| 0 <= j < segs.len() && (#[trigger] segs[j]).is_load() ==> segs[i].vaddr <= segs[j].vaddr
}

/// Segment `i` is loadable and ends highest among the loadable ones.
pub open spec fn is_highest(segs: Seq<Segment>, i: int) -> bool {
    &&& 0 <= i < segs.len()
    &&& segs[i].is_load()
    &&& forall|j: int| 0 <= j < segs.len() && (#[trigger] segs[j]).is_load() ==> seg_end(segs[j]) <= seg_end(segs[i])
}

/// Some loadable segment ends past the address space.
pub open spec fn has_overflow(segs: Seq<Segment>) -> bool {
    exists|i: int| 0 <= i < segs.len() && (#[trigger] segs[i]).is_load() && seg_end(segs[i]) > u64::MAX
}

/// The page-aligned address range covering all loadable segments.
#[derive(Clone, Copy, Debug, PartialEq, Eq)]
pub struct LoadSpan {
    pub addr_min: u64,
    pub addr_max: u64,
}

impl LoadSpan {
    /// Size of the region to map.
    pub open spec fn size(self) -> int {
        self.addr_max - self.addr_min
    }

    /// The span is page-aligned and covers every loadable segment.
    pub open spec fn covers(self, segs: Seq<Segment>) -> bool {
        &&& self.addr_min <= self.addr_max
        &&& self.addr_min % PAGE_SIZE as u64 == 0
        &&& self.addr_max % PAGE_SIZE as u64 == 0
        &&& forall|j: int| 0 <= j < segs.len() && (#[trigger] segs[j]).is_load() ==> {
            &&& self.addr_min <= segs[j].vaddr
            &&& seg_end(segs[j]) <= self.addr_max
        }
    }

    /// Number of bytes in the region to map.
    pub fn size_bytes(&self) -> (r: u64)
        requires
            self.addr_min <= self.addr_max,
        ensures
            r == self.size(),
    {
        self.addr_max - self.addr_min
    }
}

/// The page-aligned span of all loadable segments: from the lowest start
/// rounded down to the highest end rounded up.
pub fn compute_span(segs: &[Segment]) -> (r: Result<LoadSpan, LoadError>)
    ensures
        !has_load(segs@) ==> r == Err::<LoadSpan, LoadError>(LoadError::NoLoadableSegment),
        has_load(segs@) && has_overflow(segs@) ==> r == Err::<LoadSpan, LoadError>(
            LoadError::AddressOverflow,
        ),
        has_load(segs@) && !has_overflow(segs@) ==> match r {
            Ok(span) => exists|i: int, k: int|
                is_lowest(segs@, i) && is_highest(segs@, k) && span.addr_min == page_floor(
                    segs@[i].vaddr as int,
                ) && span.addr_max == page_ceil(seg_end(segs@[k])),
            Err(e) => e == LoadError::AddressOverflow && exists|k: int|
                is_highest(segs@, k) && page_ceil(seg_end(segs@[k])) > u64::MAX,
        },
        r matches Ok(span) ==> span.covers(segs@),
{
    let mut lo: u64 = u64::MAX;
    let mut hi: u64 = 0;
    let mut found = false;
    let ghost mut lo_i: int = 0;
    let ghost mut hi_i: int = 0;
    let mut i: usize = 0;
    while i < segs.len()
        invariant
            i <= segs@.len(),
            found <==> exists|j: int| 0 <= j < i && (#[trigger] segs@[j]).is_load(),
            found ==> 0 <= lo_i < i && segs@[lo_i].is_load() && segs@[lo_i].vaddr == lo,
            found ==> 0 <= hi_i < i && segs@[hi_i].is_load() && seg_end(segs@[hi_i]) == hi,
            forall|j: int| 0 <= j < i && (#[trigger] segs@[j]).is_load() ==> lo <= segs@[j].vaddr && seg_end(segs@[j]) <= hi,
        decreases segs@.len() - i,
    {
        let s = segs[i];
        if s.p_type == PT_LOAD {
            if s.memsz > u64::MAX - s.vaddr {
                return Err(LoadError::AddressOverflow);
            }
            if !found || s.vaddr < lo {
                lo = s.vaddr;
                proof { lo_i = i as int; }
            }
            if !found || s.vaddr + s.memsz > hi {
                hi = s.vaddr + s.memsz;
                proof { hi_i = i as int; }
            }
            found = true;
        }
        i = i + 1;
    }
    if !found {
        return Err(LoadError::NoLoadableSegment);
    }
    if hi > u64::MAX - (PAGE_SIZE as u64 - 1) {
        proof {
            assert(is_highest(segs@, hi_i));
            let h = hi as int;
            assert(page_ceil(h) > u64::MAX) by (nonlinear_arith)
                requires h > 0xffff_ffff_ffff_ffff - 4095;
        }
        return Err(LoadError::AddressOverflow);
    }
    let addr_min = lo / PAGE_SIZE as u64 * PAGE_SIZE as u64;
    let addr_max = (hi + (PAGE_SIZE as u64 - 1)) / PAGE_SIZE as u64 * PAGE_SIZE as u64;
    proof {
        assert(is_lowest(segs@, lo_i));
        assert(is_highest(segs@, hi_i));
        assert(addr_min <= lo) by (nonlinear_arith)
            requires addr_min == lo / 4096 * 4096;
        assert(hi <= addr_max) by (nonlinear_arith)
            requires addr_max == (hi + 4095) / 4096 * 4096;
        assert(addr_min % 4096 == 0) by (nonlinear_arith)
            requires addr_min == lo / 4096 * 4096;
        assert(addr_max % 4096 == 0) by (nonlinear_arith)
            requires addr_max == (hi + 4095) / 4096 * 4096;
    }
    Ok(LoadSpan { addr_min, addr_max })
}

/// The byte at offset `p` of the image once the first `n` entries of `segs`
/// have been placed at their addresses less `base`: the last loadable one
/// among them whose memory range holds `p` decides it, from the file within
/// its file size and zero past it; no such segment leaves it zero.
pub open spec fn image_byte(file: Seq<u8>, segs: Seq<Segment>, n: nat, base: u64, p: int) -> u8
    decreases n,
{
    if n == 0 {
        0
    } else {
        let s = segs[n - 1];
        let o = s.vaddr - base;
        if s.is_load() && o <= p < o + s.memsz {
            if p < o + s.filesz {
                file[s.offset + (p - o)]
            } else {
                0
            }
        } else {
            image_byte(file, segs, (n - 1) as nat, base, p)
        }
    }
}

/// The image of all loadable segments over the span.
pub open spec fn image_bytes(file: Seq<u8>, segs: Seq<Segment>, span: LoadSpan) -> Seq<u8> {
    Seq::new(span.size() as nat, |p: int| image_byte(file, segs, segs.len(), span.addr_min, p))
}

/// Some loadable segment holds more file bytes than memory bytes.
pub open spec fn has_size_mismatch(segs: Seq<Segment>) -> bool {
    exists|i: int| 0 <= i < segs.len() && (#[trigger] segs[i]).is_load() && segs[i].filesz > segs[i].memsz
}

/// Some loadable segment's file bytes run past `len`.
pub open spec fn has_truncation(segs: Seq<Segment>, len: nat) -> bool {
    exists|i: int| 0 <= i < segs.len() && (#[trigger] segs[i]).is_load() && segs[i].offset + segs[i].filesz > len
}

/// Lays the loadable segments of `file` out over `span`: each segment's file
/// bytes at its address less the span's start, followed by zeros up to its
/// memory size; everything else zero. Segments are placed in table order.
pub fn build_image(file: &[u8], segs: &[Segment], span: &LoadSpan) -> (r: Result<Vec<u8>, LoadError>)
    requires
        span.covers(segs@),
        span.size() <= usize::MAX,
    ensures
        has_size_mismatch(segs@) ==> r == Err::<Vec<u8>, LoadError>(LoadError::SizeMismatch),
        !has_size_mismatch(segs@) && has_truncation(segs@, file@.len()) ==> r == Err::<
            Vec<u8>,
            LoadError,
        >(LoadError::Truncated),
        !has_size_mismatch(segs@) && !has_truncation(segs@, file@.len()) ==> (r matches Ok(img)
            && img@ == image_bytes(file@, segs@, *span)),
{
    let mut i: usize = 0;
    while i < segs.len()
        invariant
            i <= segs@.len(),
            forall|j: int| 0 <= j < i && (#[trigger] segs@[j]).is_load() ==> segs@[j].filesz <= segs@[j].memsz,
        decreases segs@.len() - i,
    {
        if segs[i].p_type == PT_LOAD && segs[i].filesz > segs[i].memsz {
            return Err(LoadError::SizeMismatch);
        }
        i = i + 1;
    }
    let mut i: usize = 0;
    while i < segs.len()
        invariant
            i <= segs@.len(),
            !has_size_mismatch(segs@),
            forall|j: int| 0 <= j < i && (#[trigger] segs@[j]).is_load() ==> segs@[j].offset + segs@[j].filesz <= file@.len(),
        decreases segs@.len() - i,
    {
        let s = segs[i];
        if s.p_type == PT_LOAD && (s.offset > file.len() as u64 || s.filesz > file.len() as u64 - s.offset) {
            return Err(LoadError::Truncated);
        }
        i = i + 1;
    }
    let size = span.size_bytes() as usize;
    let mut img: Vec<u8> = Vec::new();
    while img.len() < size
        invariant
            img@.len() <= size,
            forall|p: int| 0 <= p < img@.len() ==> #[trigger] img@[p] == 0,
        decreases size - img@.len(),
    {
        img.push(0u8);
    }
    let ghost fl = file@;
    let ghost sg = segs@;
    let flen = file.len();
    let base = span.addr_min;
    let mut k: usize = 0;
    while k < segs.len()
        invariant
            k <= sg.len(),
            sg == segs@,
            fl == file@,
            flen == fl.len(),
            base == span.addr_min,
            span.covers(sg),
            size == span.size(),
            !has_size_mismatch(sg),
            !has_truncation(sg, fl.len()),
            img@.len() == size,
            forall|p: int| 0 <= p < size ==> #[trigger] img@[p] == image_byte(fl, sg, k as nat, base, p),
        decreases sg.len() - k,
    {
        let s = segs[k];
        if s.p_type == PT_LOAD {
            assert(sg[k as int].is_load());
            assert(!(s.offset + s.filesz > fl.len()));
            assert(!(s.filesz > s.memsz));
            assert(base <= s.vaddr && seg_end(s) <= span.addr_max);
            let o = (s.vaddr - base) as usize;
            let fsz = s.filesz as usize;
            let msz = s.memsz as usize;
            let off = s.offset as usize;
            let mut j: usize = 0;
            while j < fsz
                invariant
                    k < sg.len(),
                    s == sg[k as int],
                    s.is_load(),
                    o == s.vaddr - base,
                    fsz == s.filesz,
                    msz == s.memsz,
                    off == s.offset,
                    fsz <= msz,
                    o + msz <= size,
                    off + fsz <= fl.len(),
                    fl == file@,
                    flen == fl.len(),
                    j <= fsz,
                    img@.len() == size,
                    forall|p: int| 0 <= p < size ==> #[trigger] img@[p] == if o <= p < o + j {
                        fl[off + (p - o)]
                    } else {
                        image_byte(fl, sg, k as nat, base, p)
                    },
                decreases fsz - j,
            {
                img.set(o + j, file[off + j]);
                j = j + 1;
            }
            while j < msz
                invariant
                    k < sg.len(),
                    s == sg[k as int],
                    s.is_load(),
                    o == s.vaddr - base,
                    fsz == s.filesz,
                    msz == s.memsz,
                    off == s.offset,
                    fsz <= j <= msz,
                    o + msz <= size,
                    img@.len() == size,
                    forall|p: int| 0 <= p < size ==> #[trigger] img@[p] == if o <= p < o + fsz {
                        fl[off + (p - o)]
                    } else if o + fsz <= p < o + j {
                        0
                    } else {
                        image_byte(fl, sg, k as nat, base, p)
                    },
                decreases msz - j,
            {
                img.set(o + j, 0u8);
                j = j + 1;
            }
        }
        assert forall|p: int| 0 <= p < size implies #[trigger] img@[p] == image_byte(fl, sg, (k + 1) as nat, base, p) by {}
        k = k + 1;
    }
    assert(img@ =~= image_bytes(file@, segs@, *span));
    Ok(img)
}

/// An executable laid out for mapping: its entry point (a link-time
/// address), the page-aligned span it occupies, and the bytes of that span.
pub struct LoadedImage {
    pub entry: u64,
    pub span: LoadSpan,
    pub image: Vec<u8>,
}

/// The program headers that `data` parses to, as entries.
pub open spec fn parsed_segments(data: Seq<u8>) -> Seq<Segment> {
    elf_program_headers(data).unwrap().1.map_values(
        |t: (u32, u64, u64, u64, u64)| Segment::from_tuple(t),
    )
}

/// `span` is the page-aligned span of the loadable entries of `segs`.
pub open spec fn is_span_of(segs: Seq<Segment>, span: LoadSpan) -> bool {
    exists|i: int, k: int|
        is_lowest(segs, i) && is_highest(segs, k) && span.addr_min == page_floor(
            segs[i].vaddr as int,
        ) && span.addr_max == page_ceil(seg_end(segs[k]))
}

/// The span of `segs` reaches past the address space.
pub open spec fn span_overflows(segs: Seq<Segment>) -> bool {
    has_overflow(segs) || exists|k: int|
        is_highest(segs, k) && page_ceil(seg_end(segs[k])) > u64::MAX
}

/// Lays out the executable held in `data`: parses its program headers, takes
/// the page-aligned span of its loadable segments and fills that span with
/// their bytes. Fails on a malformed file, on a file with no loadable
/// segment, on a span that does not fit the address space, and on segments
/// whose sizes disagree or whose bytes are not all in the file.
pub fn load_pie_elf(data: &[u8]) -> (r: Result<LoadedImage, LoadError>)
    ensures
        elf_program_headers(data@) is None ==> r == Err::<LoadedImage, LoadError>(LoadError::Malformed),
        elf_program_headers(data@) is Some ==> {
            let segs = parsed_segments(data@);
            &&& !has_load(segs) ==> r == Err::<LoadedImage, LoadError>(LoadError::NoLoadableSegment)
            &&& has_load(segs) && span_overflows(segs) ==> r == Err::<LoadedImage, LoadError>(LoadError::AddressOverflow)
            &&& has_load(segs) && !span_overflows(segs) ==> match r {
                Ok(img) => {
                    &&& img.entry == elf_program_headers(data@).unwrap().0
                    &&& is_span_of(segs, img.span)
                    &&& img.span.covers(segs)
                    &&& img.image@ == image_bytes(data@, segs, img.span)
                    &&& !has_size_mismatch(segs)
                    &&& !has_truncation(segs, data@.len())
                },
                Err(e) => {
                    ||| e == LoadError::AddressOverflow && exists|span: LoadSpan| is_span_of(segs, span) && span.size() > usize::MAX
                    ||| e == LoadError::SizeMismatch && has_size_mismatch(segs)
                    ||| e == LoadError::Truncated && !has_size_mismatch(segs) && has_truncation(segs, data@.len())
                },
            }
        },
{
    let headers = read_program_headers(data)?;
    let span = match compute_span(headers.segments.as_slice()) {
        Ok(span) => span,
        Err(e) => return Err(e),
    };
    if span.size_bytes() > usize::MAX as u64 {
        assert(is_span_of(parsed_segments(data@), span));
        return Err(LoadError::AddressOverflow);
    }
    let image = match build_image(data, headers.segments.as_slice(), &span) {
        Ok(image) => image,
        Err(e) => return Err(e),
    };
    Ok(LoadedImage { entry: headers.entry, span, image })
}

/// Runtime address minus link-time address, modulo 2^64.
pub open spec fn bias_of(mapped_base: u64, addr_min: u64) -> u64 {
    ((mapped_base - addr_min) % 0x1_0000_0000_0000_0000) as u64
}

/// The auxiliary vector for a load bias.
pub open spec fn auxv_entries(bias: u64) -> Seq<(u64, u64)> {
    seq![(AT_PAGESZ, PAGE_SIZE as u64), (AT_BASE, bias), (0u64, 0u64)]
}

/// The load bias of an image mapped at `mapped_base`: the offset from each
/// link-time address to its runtime address, modulo 2^64.
pub fn load_bias(mapped_base: u64, span: &LoadSpan) -> (r: u64)
    ensures
        r == bias_of(mapped_base, span.addr_min),
{
    mapped_base.wrapping_sub(span.addr_min)
}

/// The auxiliary vector handed to the started program: the page size and
/// the load bias, then the terminating pair.
pub fn auxiliary_vector(bias: u64) -> (r: Vec<(u64, u64)>)
    ensures
        r@ == auxv_entries(bias),
{
    let r = vec![(AT_PAGESZ, PAGE_SIZE as u64), (AT_BASE, bias), (0u64, 0u64)];
    proof {
        assert(r@ =~= seq![(AT_PAGESZ, PAGE_SIZE as u64), (AT_BASE, bias), (0u64, 0u64)]);
    }
    r
}

/// The memory ranges of the loadable entries do not overlap.
pub open spec fn disjoint_loads(segs: Seq<Segment>) -> bool {
    forall|a: int, b: int|
        0 <= a < segs.len() && 0 <= b < segs.len() && a != b && (#[trigger] segs[a]).is_load()
            && (#[trigger] segs[b]).is_load() ==> seg_end(segs[a]) <= segs[b].vaddr || seg_end(
            segs[b],
        ) <= segs[a].vaddr
}

/// Placing entries after `i` that do not cover `p` leaves the byte at `p` as
/// segment `i` and those before it made it.
proof fn lemma_later_entries_miss(file: Seq<u8>, segs: Seq<Segment>, n: nat, base: u64, p: int, i: int)
    requires
        0 <= i < n <= segs.len(),
        forall|j: int|
            i < j < n && (#[trigger] segs[j]).is_load() ==> !(segs[j].vaddr - base <= p < seg_end(segs[j]) - base),
    ensures
        image_byte(file, segs, n, base, p) == image_byte(file, segs, (i + 1) as nat, base, p),
    decreases n,
{
    if n > i + 1 {
        assert(segs[n - 1].is_load() ==> !(segs[n - 1].vaddr - base <= p < seg_end(segs[n - 1]) - base));
        lemma_later_entries_miss(file, segs, (n - 1) as nat, base, p, i);
    }
}

/// Where loadable segments do not overlap, each one's mapped range holds
/// its file bytes from its file offset, then zeros up to its memory size.
pub proof fn lemma_segment_contents(file: Seq<u8>, segs: Seq<Segment>, span: LoadSpan, i: int)
    requires
        span.covers(segs),
        disjoint_loads(segs),
        0 <= i < segs.len(),
        segs[i].is_load(),
        !has_size_mismatch(segs),
        !has_truncation(segs, file.len()),
    ensures
        forall|q: int|
            0 <= q < segs[i].filesz ==> #[trigger] image_bytes(file, segs, span)[segs[i].vaddr
                - span.addr_min + q] == file[segs[i].offset + q],
        forall|q: int|
            segs[i].filesz <= q < segs[i].memsz ==> #[trigger] image_bytes(file, segs, span)[
            segs[i].vaddr - span.addr_min + q] == 0,
{
    let s = segs[i];
    assert(!(s.filesz > s.memsz));
    assert(!(s.offset + s.filesz > file.len()));
    assert forall|q: int| 0 <= q < s.memsz implies #[trigger] image_bytes(file, segs, span)[s.vaddr - span.addr_min + q]
        == if q < s.filesz { file[s.offset + q] } else { 0 } by {
        let p = s.vaddr - span.addr_min + q;
        assert forall|j: int| i < j < segs.len() && (#[trigger] segs[j]).is_load() implies !(segs[j].vaddr - span.addr_min <= p < seg_end(segs[j]) - span.addr_min) by {
            assert(segs[i].is_load() && segs[j].is_load() && i != j);
        }
        lemma_later_entries_miss(file, segs, segs.len(), span.addr_min, p, i);
    }
}

/// The image of an executable is as large as the span from its lowest
/// loadable address rounded down to its highest end rounded up.
pub proof fn lemma_image_size(file: Seq<u8>, segs: Seq<Segment>, span: LoadSpan, i: int, k: int)
    requires
        is_span_of(segs, span),
        is_lowest(segs, i),
        is_highest(segs, k),
    ensures
        image_bytes(file, segs, span).len() == page_ceil(seg_end(segs[k])) - page_floor(segs[i].vaddr as int),
{
    let (i2, k2) = choose|i2: int, k2: int|
        is_lowest(segs, i2) && is_highest(segs, k2) && span.addr_min == page_floor(
            segs[i2].vaddr as int,
        ) && span.addr_max == page_ceil(seg_end(segs[k2]));
    assert(segs[i].vaddr == segs[i2].vaddr);
    assert(seg_end(segs[k]) == seg_end(segs[k2]));
}

/// The load bias carries the span's start to the mapped base, and the
/// auxiliary vector built from it reports exactly that bias under
/// `AT_BASE`, with the page size before it and the terminating pair last.
pub proof fn lemma_bias_reported(mapped_base: u64, span: LoadSpan)
    ensures
        (span.addr_min + bias_of(mapped_base, span.addr_min)) % 0x1_0000_0000_0000_0000
            == mapped_base,
        span.addr_min <= mapped_base ==> bias_of(mapped_base, span.addr_min) == mapped_base
            - span.addr_min,
        auxv_entries(bias_of(mapped_base, span.addr_min))[1] == (
            AT_BASE,
            bias_of(mapped_base, span.addr_min),
        ),
        auxv_entries(bias_of(mapped_base, span.addr_min))[0] == (AT_PAGESZ, PAGE_SIZE as u64),
        auxv_entries(bias_of(mapped_base, span.addr_min)).last() == (0u64, 0u64),
{
}

} // verus!
