use elfloader::loader::{
    auxiliary_vector, build_image, compute_span, load_bias, load_pie_elf, read_program_headers,
    LoadError, LoadSpan, Segment, AT_BASE, AT_PAGESZ, PT_LOAD,
};

const PT_NOTE: u32 = 4;

/// A 64-bit little-endian ELF file: header, program headers, then `payload`
/// from offset 0x200 on.
fn elf_file(entry: u64, phdrs: &[(u32, u64, u64, u64, u64)], payload: &[u8]) -> Vec<u8> {
    let mut f = vec![0u8; 0x200];
    f[0..4].copy_from_slice(&[0x7f, b'E', b'L', b'F']);
    f[4] = 2;
    f[5] = 1;
    f[6] = 1;
    f[16..18].copy_from_slice(&3u16.to_le_bytes());
    f[18..20].copy_from_slice(&0x3eu16.to_le_bytes());
    f[20..24].copy_from_slice(&1u32.to_le_bytes());
    f[24..32].copy_from_slice(&entry.to_le_bytes());
    let phoff: u64 = if phdrs.is_empty() { 0 } else { 64 };
    f[32..40].copy_from_slice(&phoff.to_le_bytes());
    f[52..54].copy_from_slice(&64u16.to_le_bytes());
    f[54..56].copy_from_slice(&56u16.to_le_bytes());
    f[56..58].copy_from_slice(&(phdrs.len() as u16).to_le_bytes());
    f[58..60].copy_from_slice(&64u16.to_le_bytes());
    for (i, (t, vaddr, offset, filesz, memsz)) in phdrs.iter().enumerate() {
        let b = 64 + 56 * i;
        f[b..b + 4].copy_from_slice(&t.to_le_bytes());
        f[b + 4..b + 8].copy_from_slice(&7u32.to_le_bytes());
        f[b + 8..b + 16].copy_from_slice(&offset.to_le_bytes());
        f[b + 16..b + 24].copy_from_slice(&vaddr.to_le_bytes());
        f[b + 24..b + 32].copy_from_slice(&vaddr.to_le_bytes());
        f[b + 32..b + 40].copy_from_slice(&filesz.to_le_bytes());
        f[b + 40..b + 48].copy_from_slice(&memsz.to_le_bytes());
        f[b + 48..b + 56].copy_from_slice(&4096u64.to_le_bytes());
    }
    f.extend_from_slice(payload);
    f
}

fn seg(p_type: u32, vaddr: u64, offset: u64, filesz: u64, memsz: u64) -> Segment {
    Segment { p_type, vaddr, offset, filesz, memsz }
}

#[test]
fn parses_entry_and_headers() {
    let f = elf_file(0x1040, &[(PT_LOAD, 0x1000, 0x200, 4, 8), (PT_NOTE, 0, 0, 0, 0)], &[1, 2, 3, 4]);
    let h = read_program_headers(&f).unwrap();
    assert_eq!(h.entry, 0x1040);
    assert_eq!(h.segments, vec![seg(PT_LOAD, 0x1000, 0x200, 4, 8), seg(PT_NOTE, 0, 0, 0, 0)]);
}

#[test]
fn garbage_is_malformed() {
    assert_eq!(read_program_headers(&[1, 2, 3]).err(), Some(LoadError::Malformed));
    assert_eq!(load_pie_elf(&[0u8; 100]).err(), Some(LoadError::Malformed));
}

#[test]
fn no_loadable_segment_is_format_error() {
    let f = elf_file(0x1000, &[], &[]);
    assert_eq!(load_pie_elf(&f).err(), Some(LoadError::NoLoadableSegment));
    let f = elf_file(0x1000, &[(PT_NOTE, 0x1000, 0x200, 4, 4)], &[1, 2, 3, 4]);
    assert_eq!(load_pie_elf(&f).err(), Some(LoadError::NoLoadableSegment));
}

#[test]
fn single_segment_is_placed_and_padded() {
    let payload = [0xaa, 0xbb, 0xcc, 0xdd];
    let f = elf_file(0x1234, &[(PT_LOAD, 0x1010, 0x200, 4, 0x20)], &payload);
    let img = load_pie_elf(&f).unwrap();
    assert_eq!(img.entry, 0x1234);
    assert_eq!(img.span, LoadSpan { addr_min: 0x1000, addr_max: 0x2000 });
    assert_eq!(img.image.len(), 0x1000);
    assert_eq!(&img.image[0x10..0x14], &payload);
    assert!(img.image[0x14..0x30].iter().all(|b| *b == 0));
    assert!(img.image[..0x10].iter().all(|b| *b == 0));
}

#[test]
fn span_rounds_to_pages() {
    let segs = [seg(PT_LOAD, 0x1234, 0, 0, 0x10), seg(PT_NOTE, 0, 0, 0, 0x9000), seg(PT_LOAD, 0x3000, 0, 0, 0x2001)];
    let span = compute_span(&segs).unwrap();
    assert_eq!(span, LoadSpan { addr_min: 0x1000, addr_max: 0x6000 });
    assert_eq!(span.size_bytes(), 0x5000);
    let aligned = [seg(PT_LOAD, 0, 0, 0, 0x1000)];
    assert_eq!(compute_span(&aligned).unwrap(), LoadSpan { addr_min: 0, addr_max: 0x1000 });
}

#[test]
fn span_errors() {
    assert_eq!(compute_span(&[]).err(), Some(LoadError::NoLoadableSegment));
    assert_eq!(compute_span(&[seg(PT_LOAD, u64::MAX, 0, 0, 2)]).err(), Some(LoadError::AddressOverflow));
    assert_eq!(compute_span(&[seg(PT_LOAD, u64::MAX - 10, 0, 0, 2)]).err(), Some(LoadError::AddressOverflow));
}

#[test]
fn two_segments_keep_their_offsets() {
    let payload = [1, 2, 3, 4, 5, 6, 7, 8];
    let f = elf_file(0, &[(PT_LOAD, 0, 0x200, 4, 4), (PT_LOAD, 0x2008, 0x204, 4, 0x10)], &payload);
    let img = load_pie_elf(&f).unwrap();
    assert_eq!(img.span, LoadSpan { addr_min: 0, addr_max: 0x3000 });
    assert_eq!(&img.image[0..4], &[1, 2, 3, 4]);
    assert_eq!(&img.image[0x2008..0x200c], &[5, 6, 7, 8]);
    assert!(img.image[0x200c..0x2018].iter().all(|b| *b == 0));
}

#[test]
fn later_segment_overrides_overlap() {
    let file = [1u8, 2, 3, 4, 9, 9];
    let segs = [seg(PT_LOAD, 0, 0, 4, 4), seg(PT_LOAD, 2, 4, 2, 2)];
    let span = LoadSpan { addr_min: 0, addr_max: 4096 };
    let img = build_image(&file, &segs, &span).unwrap();
    assert_eq!(&img[0..5], &[1, 2, 9, 9, 0]);
}

#[test]
fn size_mismatch_is_reported() {
    let f = elf_file(0, &[(PT_LOAD, 0, 0x200, 8, 4)], &[0; 8]);
    assert_eq!(load_pie_elf(&f).err(), Some(LoadError::SizeMismatch));
}

#[test]
fn truncated_segment_is_reported() {
    let f = elf_file(0, &[(PT_LOAD, 0, 0x200, 16, 16)], &[0; 8]);
    assert_eq!(load_pie_elf(&f).err(), Some(LoadError::Truncated));
    let segs = [seg(PT_LOAD, 0, u64::MAX, 2, 2)];
    let span = LoadSpan { addr_min: 0, addr_max: 4096 };
    assert_eq!(build_image(&[0u8; 4], &segs, &span).err(), Some(LoadError::Truncated));
}

#[test]
fn load_bias_is_base_minus_min() {
    let span = LoadSpan { addr_min: 0x1000, addr_max: 0x3000 };
    assert_eq!(load_bias(0x7f00_0000_0000, &span), 0x7eff_ffff_f000);
    assert_eq!(load_bias(0x1000, &span), 0);
    assert_eq!(load_bias(0, &span), 0u64.wrapping_sub(0x1000));
}

#[test]
fn auxiliary_vector_carries_bias() {
    let bias = 0x7f12_3456_7000;
    assert_eq!(auxiliary_vector(bias), vec![(AT_PAGESZ, 4096), (AT_BASE, bias), (0, 0)]);
}

#[test]
fn loaded_bias_and_auxv_agree() {
    let f = elf_file(0x1100, &[(PT_LOAD, 0x1000, 0x200, 2, 2)], &[0x90, 0xc3]);
    let img = load_pie_elf(&f).unwrap();
    let mapped: u64 = 0x7f55_0000_0000;
    let bias = load_bias(mapped, &img.span);
    assert_eq!(bias, mapped - 0x1000);
    assert_eq!(img.span.addr_min + bias, mapped);
    assert_eq!(img.entry + bias, mapped + 0x100);
    assert_eq!(auxiliary_vector(bias)[1], (AT_BASE, bias));
}
