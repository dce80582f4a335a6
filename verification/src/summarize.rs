//! The decoded, read-only facade of one ELF image: identification data,
//! sections, segments, and — for dynamically linked images — the needed
//! libraries and the dynamic symbol interface.

use crate::bytes::{cstr_at, has_nul, read_cstr, read_word, word};
use crate::text::{utf8_to_string, utf8_to_string_lossy};
use vstd::arithmetic::div_mod::lemma_fundamental_div_mod;
use vstd::arithmetic::mul::{lemma_mul_inequality, lemma_mul_is_commutative, lemma_mul_nonnegative};
use vstd::prelude::*;
use vstd::string::StringExecFns;
use vstd::string::StrSliceExecFns;
use vstd::utf8::{decode_utf8, valid_utf8};

verus! {

/// Byte order of an ELF image, determined by its identification bytes.
#[derive(Copy, Clone, PartialEq, Eq, Structural, Debug)]
pub enum Endianness {
    Little,
    Big,
}

/// A fault met while decoding a byte buffer as an ELF image.
#[derive(Copy, Clone, PartialEq, Eq, Structural, Debug)]
pub enum WalkError {
    /// The buffer is not an ELF image: bad magic, an unknown class or data
    /// encoding, or a buffer shorter than the file header.
    NotElf,
    /// A table recorded in the headers reaches outside the buffer, or a
    /// string offset of the dynamic section is invalid.
    MalformedImage,
    /// A dynamic section exists but no section is named `.dynstr`.
    MissingExpectedDynstrSection,
    /// A dynamic section exists but no section is named `.dynsym`.
    MissingExpectedDynsymSection,
    /// A needed-library name is not valid UTF-8.
    NeededNameNotUtf8,
}

/// A (possibly) versioned symbol. Version decoding is deferred: the decoder
/// always leaves `version` absent, but the slot stays in the key so that
/// later work is purely additive.
#[derive(Debug, PartialEq, Eq)]
pub struct VersionedSymbol {
    pub name: String,
    pub version: Option<String>,
}

/// Mathematical value of a [`VersionedSymbol`].
#[verifier::ext_equal]
pub ghost struct VersionedSymbolModel {
    pub name: Seq<char>,
    pub version: Option<Seq<char>>,
}

impl View for VersionedSymbol {
    type V = VersionedSymbolModel;

    open spec fn view(&self) -> VersionedSymbolModel {
        VersionedSymbolModel {
            name: self.name@,
            version: match self.version {
                Option::Some(v) => Option::Some(v@),
                Option::None => Option::None,
            },
        }
    }
}

impl VersionedSymbol {
    /// A copy whose value equals this symbol's value.
    pub fn duplicate(&self) -> (r: VersionedSymbol)
        ensures
            r@ == self@,
    {
        VersionedSymbol {
            name: self.name.clone(),
            version: match &self.version {
                Option::Some(v) => Option::Some(v.clone()),
                Option::None => Option::None,
            },
        }
    }
}

/// Classification of a dynamic symbol, from the type half of `st_info`.
#[derive(Copy, Clone, PartialEq, Eq, Structural, Debug)]
pub enum SymbolType {
    Func,
    Object,
    Common,
    NoType,
    File,
    Unknown,
}

/// The symbol type encoded by the low four bits of `st_info`.
pub open spec fn spec_symbol_type(ty: u8) -> SymbolType {
    if ty == 2 {
        SymbolType::Func
    } else if ty == 1 {
        SymbolType::Object
    } else if ty == 5 {
        SymbolType::Common
    } else if ty == 0 {
        SymbolType::NoType
    } else if ty == 4 {
        SymbolType::File
    } else {
        SymbolType::Unknown
    }
}

impl SymbolType {
    pub fn new(ty: u8) -> (r: Self)
        ensures
            r == spec_symbol_type(ty),
    {
        match ty {
            2 => SymbolType::Func,
            1 => SymbolType::Object,
            5 => SymbolType::Common,
            0 => SymbolType::NoType,
            4 => SymbolType::File,
            _ => SymbolType::Unknown,
        }
    }
}

/// Binding of a dynamic symbol, from the binding half of `st_info`.
#[derive(Copy, Clone, PartialEq, Eq, Structural, Debug)]
pub enum SymbolBinding {
    Local,
    Global,
    Weak,
    Unknown,
}

/// The symbol binding encoded by the high four bits of `st_info`.
pub open spec fn spec_symbol_binding(b: u8) -> SymbolBinding {
    if b == 0 {
        SymbolBinding::Local
    } else if b == 2 {
        SymbolBinding::Weak
    } else if b == 1 {
        SymbolBinding::Global
    } else {
        SymbolBinding::Unknown
    }
}

impl SymbolBinding {
    pub fn new(b: u8) -> (r: Self)
        ensures
            r == spec_symbol_binding(b),
    {
        match b {
            0 => SymbolBinding::Local,
            2 => SymbolBinding::Weak,
            1 => SymbolBinding::Global,
            _ => SymbolBinding::Unknown,
        }
    }
}

/// A reference to an external dynamic symbol in a binary.
#[derive(Debug)]
pub struct DynamicSymbolReference {
    pub symbol: VersionedSymbol,
    pub type_: SymbolType,
    pub binding: SymbolBinding,
}

/// Mathematical value of a [`DynamicSymbolReference`].
#[verifier::ext_equal]
pub ghost struct DynamicSymbolReferenceModel {
    pub symbol: VersionedSymbolModel,
    pub type_: SymbolType,
    pub binding: SymbolBinding,
}

impl View for DynamicSymbolReference {
    type V = DynamicSymbolReferenceModel;

    open spec fn view(&self) -> DynamicSymbolReferenceModel {
        DynamicSymbolReferenceModel { symbol: self.symbol@, type_: self.type_, binding: self.binding }
    }
}

/// A dynamic symbol provided by this binary.
#[derive(Debug)]
pub struct ExportedDynamicSymbol {
    pub symbol: VersionedSymbol,
    pub type_: SymbolType,
    pub binding: SymbolBinding,
    pub size: u64,
    pub address: u64,
}

/// Mathematical value of an [`ExportedDynamicSymbol`].
#[verifier::ext_equal]
pub ghost struct ExportedDynamicSymbolModel {
    pub symbol: VersionedSymbolModel,
    pub type_: SymbolType,
    pub binding: SymbolBinding,
    pub size: u64,
    pub address: u64,
}

impl View for ExportedDynamicSymbol {
    type V = ExportedDynamicSymbolModel;

    open spec fn view(&self) -> ExportedDynamicSymbolModel {
        ExportedDynamicSymbolModel {
            symbol: self.symbol@,
            type_: self.type_,
            binding: self.binding,
            size: self.size,
            address: self.address,
        }
    }
}

/// Information summarizing the interface of a dynamically-linked binary.
#[derive(Debug)]
pub struct DynamicData {
    /// Dynamic symbols that this binary references.
    pub dynamic_symbol_refs: Vec<DynamicSymbolReference>,
    /// Dynamic symbols provided by this binary.
    pub provided_dynamic_symbols: Vec<ExportedDynamicSymbol>,
    /// The names of libraries that this binary pulls in as dynamic
    /// dependencies, in the order of their `DT_NEEDED` entries.
    pub deps: Vec<String>,
}

/// Mathematical value of a [`DynamicData`].
#[verifier::ext_equal]
pub ghost struct DynamicDataModel {
    pub dynamic_symbol_refs: Seq<DynamicSymbolReferenceModel>,
    pub provided_dynamic_symbols: Seq<ExportedDynamicSymbolModel>,
    pub deps: Seq<Seq<char>>,
}

impl View for DynamicData {
    type V = DynamicDataModel;

    open spec fn view(&self) -> DynamicDataModel {
        DynamicDataModel {
            dynamic_symbol_refs: self.dynamic_symbol_refs@.map_values(
                |r: DynamicSymbolReference| r@,
            ),
            provided_dynamic_symbols: self.provided_dynamic_symbols@.map_values(
                |e: ExportedDynamicSymbol| e@,
            ),
            deps: self.deps@.map_values(|d: String| d@),
        }
    }
}

/// Whether the image participates in dynamic linking.
#[derive(Debug)]
pub enum BinaryType {
    Static,
    Dynamic(DynamicData),
}

/// Mathematical value of a [`BinaryType`].
#[verifier::ext_equal]
pub ghost enum BinaryTypeModel {
    Static,
    Dynamic(DynamicDataModel),
}

impl View for BinaryType {
    type V = BinaryTypeModel;

    open spec fn view(&self) -> BinaryTypeModel {
        match self {
            BinaryType::Static => BinaryTypeModel::Static,
            BinaryType::Dynamic(d) => BinaryTypeModel::Dynamic(d@),
        }
    }
}

/// One section header, with its name resolved from the section-header
/// string table.
#[derive(Debug)]
pub struct Section {
    pub name: String,
    pub address: u64,
    pub alignment: u64,
    pub offset: u64,
    pub size: u64,
    pub type_: u32,
    pub flags: u64,
}

/// Mathematical value of a [`Section`].
#[verifier::ext_equal]
pub ghost struct SectionModel {
    pub name: Seq<char>,
    pub address: u64,
    pub alignment: u64,
    pub offset: u64,
    pub size: u64,
    pub type_: u32,
    pub flags: u64,
}

impl View for Section {
    type V = SectionModel;

    open spec fn view(&self) -> SectionModel {
        SectionModel {
            name: self.name@,
            address: self.address,
            alignment: self.alignment,
            offset: self.offset,
            size: self.size,
            type_: self.type_,
            flags: self.flags,
        }
    }
}

/// One program header.
#[derive(Copy, Clone, PartialEq, Eq, Structural, Debug)]
pub struct Segment {
    pub type_: u32,
    pub flags: u32,
    pub offset: u64,
    pub vaddr: u64,
    pub paddr: u64,
    pub file_size: u64,
    pub mem_size: u64,
    pub alignment: u64,
}

/// An ELF image decoded from a byte buffer; all strings are owned, so the
/// summary outlives the buffer it came from.
#[derive(Debug)]
pub struct ElfSummary {
    pub endianness: Endianness,
    pub bit_size: usize,
    pub filename: String,
    pub binary_type: BinaryType,
    pub sections: Vec<Section>,
    pub segments: Vec<Segment>,
}

/// Mathematical value of an [`ElfSummary`].
#[verifier::ext_equal]
pub ghost struct ElfSummaryModel {
    pub endianness: Endianness,
    pub bit_size: int,
    pub filename: Seq<char>,
    pub binary_type: BinaryTypeModel,
    pub sections: Seq<SectionModel>,
    pub segments: Seq<Segment>,
}

impl View for ElfSummary {
    type V = ElfSummaryModel;

    open spec fn view(&self) -> ElfSummaryModel {
        ElfSummaryModel {
            endianness: self.endianness,
            bit_size: self.bit_size as int,
            filename: self.filename@,
            binary_type: self.binary_type@,
            sections: self.sections@.map_values(|s: Section| s@),
            segments: self.segments@,
        }
    }
}

/// The needed-library names of a summary: those of its dynamic data, or
/// none for a static image.
pub open spec fn spec_needed(s: ElfSummaryModel) -> Seq<Seq<char>> {
    match s.binary_type {
        BinaryTypeModel::Static => Seq::empty(),
        BinaryTypeModel::Dynamic(d) => d.deps,
    }
}

// ------------------------------------------------------------------
// The byte-level model of an ELF image. Every field below is defined
// directly as the value of named bytes of the buffer, so the decoder's
// contract pins each output to the file format.
// ------------------------------------------------------------------
/// The identification bytes parse: ELF magic, a known class and a known
/// data encoding.
pub open spec fn spec_ident_ok(b: Seq<u8>) -> bool {
    &&& b.len() >= 16
    &&& b[0] == 0x7f
    &&& b[1] == 0x45
    &&& b[2] == 0x4c
    &&& b[3] == 0x46
    &&& (b[4] == 1 || b[4] == 2)
    &&& (b[5] == 1 || b[5] == 2)
}

/// Class byte: 64-bit when 2, 32-bit when 1.
pub open spec fn spec_is_64(b: Seq<u8>) -> bool {
    b[4] == 2
}

/// Data-encoding byte: little-endian when 1, big-endian when 2.
pub open spec fn spec_endianness(b: Seq<u8>) -> Endianness {
    if b[5] == 1 {
        Endianness::Little
    } else {
        Endianness::Big
    }
}

/// Size of the file header for the image's class.
pub open spec fn spec_header_len(b: Seq<u8>) -> int {
    if spec_is_64(b) {
        64
    } else {
        52
    }
}

/// The buffer is an ELF image whose file header is fully present.
pub open spec fn spec_wf_header(b: Seq<u8>) -> bool {
    spec_ident_ok(b) && b.len() >= spec_header_len(b)
}

/// Section-header table file offset (`e_shoff`).
pub open spec fn spec_shoff(b: Seq<u8>) -> int {
    if spec_is_64(b) {
        word(b, 0x28, 8, spec_endianness(b))
    } else {
        word(b, 0x20, 4, spec_endianness(b))
    }
}

/// Number of section headers (`e_shnum`).
pub open spec fn spec_shnum(b: Seq<u8>) -> int {
    if spec_is_64(b) {
        word(b, 0x3c, 2, spec_endianness(b))
    } else {
        word(b, 0x30, 2, spec_endianness(b))
    }
}

/// Index of the section-header string table (`e_shstrndx`).
pub open spec fn spec_shstrndx(b: Seq<u8>) -> int {
    if spec_is_64(b) {
        word(b, 0x3e, 2, spec_endianness(b))
    } else {
        word(b, 0x32, 2, spec_endianness(b))
    }
}

/// Program-header table file offset (`e_phoff`).
pub open spec fn spec_phoff(b: Seq<u8>) -> int {
    if spec_is_64(b) {
        word(b, 0x20, 8, spec_endianness(b))
    } else {
        word(b, 0x1c, 4, spec_endianness(b))
    }
}

/// Number of program headers (`e_phnum`).
pub open spec fn spec_phnum(b: Seq<u8>) -> int {
    if spec_is_64(b) {
        word(b, 0x38, 2, spec_endianness(b))
    } else {
        word(b, 0x2c, 2, spec_endianness(b))
    }
}

/// Stride of one section header for the image's class.
pub open spec fn spec_sh_entsize(b: Seq<u8>) -> int {
    if spec_is_64(b) {
        64
    } else {
        40
    }
}

/// Stride of one program header for the image's class.
pub open spec fn spec_ph_entsize(b: Seq<u8>) -> int {
    if spec_is_64(b) {
        56
    } else {
        32
    }
}

/// The whole section-header table lies inside the buffer.
pub open spec fn spec_sections_in_bounds(b: Seq<u8>) -> bool {
    spec_shoff(b) + spec_shnum(b) * spec_sh_entsize(b) <= b.len()
}

/// The whole program-header table lies inside the buffer.
pub open spec fn spec_segments_in_bounds(b: Seq<u8>) -> bool {
    spec_phoff(b) + spec_phnum(b) * spec_ph_entsize(b) <= b.len()
}

/// File offset of section header `i`.
pub open spec fn spec_sec_base(b: Seq<u8>, i: int) -> int {
    spec_shoff(b) + i * spec_sh_entsize(b)
}

/// `sh_name` of section `i`: an offset into the section-header string table.
pub open spec fn spec_sec_name_off(b: Seq<u8>, i: int) -> int {
    word(b, spec_sec_base(b, i), 4, spec_endianness(b))
}

/// `sh_type` of section `i`.
pub open spec fn spec_sec_type(b: Seq<u8>, i: int) -> int {
    word(b, spec_sec_base(b, i) + 4, 4, spec_endianness(b))
}

/// `sh_flags` of section `i`.
pub open spec fn spec_sec_flags(b: Seq<u8>, i: int) -> int {
    if spec_is_64(b) {
        word(b, spec_sec_base(b, i) + 8, 8, spec_endianness(b))
    } else {
        word(b, spec_sec_base(b, i) + 8, 4, spec_endianness(b))
    }
}

/// `sh_addr` of section `i`.
pub open spec fn spec_sec_addr(b: Seq<u8>, i: int) -> int {
    if spec_is_64(b) {
        word(b, spec_sec_base(b, i) + 16, 8, spec_endianness(b))
    } else {
        word(b, spec_sec_base(b, i) + 12, 4, spec_endianness(b))
    }
}

/// `sh_offset` of section `i`.
pub open spec fn spec_sec_offset(b: Seq<u8>, i: int) -> int {
    if spec_is_64(b) {
        word(b, spec_sec_base(b, i) + 24, 8, spec_endianness(b))
    } else {
        word(b, spec_sec_base(b, i) + 16, 4, spec_endianness(b))
    }
}

/// `sh_size` of section `i`.
pub open spec fn spec_sec_size(b: Seq<u8>, i: int) -> int {
    if spec_is_64(b) {
        word(b, spec_sec_base(b, i) + 32, 8, spec_endianness(b))
    } else {
        word(b, spec_sec_base(b, i) + 20, 4, spec_endianness(b))
    }
}

/// `sh_addralign` of section `i`.
pub open spec fn spec_sec_addralign(b: Seq<u8>, i: int) -> int {
    if spec_is_64(b) {
        word(b, spec_sec_base(b, i) + 48, 8, spec_endianness(b))
    } else {
        word(b, spec_sec_base(b, i) + 32, 4, spec_endianness(b))
    }
}

/// File offset of the section-header string table.
pub open spec fn spec_str_off(b: Seq<u8>) -> int {
    spec_sec_offset(b, spec_shstrndx(b))
}

/// Size of the section-header string table.
pub open spec fn spec_str_size(b: Seq<u8>) -> int {
    spec_sec_size(b, spec_shstrndx(b))
}

/// The section-header string table is addressable: either there are no
/// sections at all, or `e_shstrndx` names a section whose data lies inside
/// the buffer.
pub open spec fn spec_strtab_in_bounds(b: Seq<u8>) -> bool {
    spec_shnum(b) == 0 || (spec_shstrndx(b) < spec_shnum(b) && spec_str_off(b) + spec_str_size(b)
        <= b.len())
}

/// All header tables the decoder walks lie inside the buffer.
pub open spec fn spec_tables_in_bounds(b: Seq<u8>) -> bool {
    spec_sections_in_bounds(b) && spec_strtab_in_bounds(b) && spec_segments_in_bounds(b)
}

/// The NUL-terminated byte string at offset `noff` of the section-header
/// string table, or `None` when the offset or the terminator is missing.
pub open spec fn spec_shstr_at(b: Seq<u8>, noff: int) -> Option<Seq<u8>> {
    if spec_shnum(b) != 0 && 0 <= noff <= spec_str_size(b) && has_nul(
        b,
        spec_str_off(b) + noff,
        spec_str_off(b) + spec_str_size(b),
    ) {
        Some(cstr_at(b, spec_str_off(b) + noff, spec_str_off(b) + spec_str_size(b)))
    } else {
        None
    }
}

/// Name bytes of section `i`.
pub open spec fn spec_sec_name_bytes(b: Seq<u8>, i: int) -> Option<Seq<u8>> {
    spec_shstr_at(b, spec_sec_name_off(b, i))
}

/// Displayed name of section `i`: its name bytes decoded leniently, or a
/// fixed placeholder when the name cannot be read.
pub open spec fn spec_sec_name_chars(b: Seq<u8>, i: int) -> Seq<char> {
    match spec_sec_name_bytes(b, i) {
        Some(bs) => crate::text::lossy_utf8(bs),
        None => "<Unknown>"@,
    }
}

/// The decoded model of section `i`.
pub open spec fn spec_sec_model(b: Seq<u8>, i: int) -> SectionModel {
    SectionModel {
        name: spec_sec_name_chars(b, i),
        address: spec_sec_addr(b, i) as u64,
        alignment: spec_sec_addralign(b, i) as u64,
        offset: spec_sec_offset(b, i) as u64,
        size: spec_sec_size(b, i) as u64,
        type_: spec_sec_type(b, i) as u32,
        flags: spec_sec_flags(b, i) as u64,
    }
}

/// The decoded model of the whole section table.
pub open spec fn spec_sections(b: Seq<u8>) -> Seq<SectionModel> {
    Seq::new(spec_shnum(b) as nat, |i: int| spec_sec_model(b, i))
}

/// File offset of program header `i`.
pub open spec fn spec_seg_base(b: Seq<u8>, i: int) -> int {
    spec_phoff(b) + i * spec_ph_entsize(b)
}

/// The decoded model of program header `i`.
pub open spec fn spec_seg_model(b: Seq<u8>, i: int) -> Segment {
    let base = spec_seg_base(b, i);
    let e = spec_endianness(b);
    if spec_is_64(b) {
        Segment {
            type_: word(b, base, 4, e) as u32,
            flags: word(b, base + 4, 4, e) as u32,
            offset: word(b, base + 8, 8, e) as u64,
            vaddr: word(b, base + 16, 8, e) as u64,
            paddr: word(b, base + 24, 8, e) as u64,
            file_size: word(b, base + 32, 8, e) as u64,
            mem_size: word(b, base + 40, 8, e) as u64,
            alignment: word(b, base + 48, 8, e) as u64,
        }
    } else {
        Segment {
            type_: word(b, base, 4, e) as u32,
            flags: word(b, base + 24, 4, e) as u32,
            offset: word(b, base + 4, 4, e) as u64,
            vaddr: word(b, base + 8, 4, e) as u64,
            paddr: word(b, base + 12, 4, e) as u64,
            file_size: word(b, base + 16, 4, e) as u64,
            mem_size: word(b, base + 20, 4, e) as u64,
            alignment: word(b, base + 28, 4, e) as u64,
        }
    }
}

/// The decoded model of the whole program-header table.
pub open spec fn spec_segments(b: Seq<u8>) -> Seq<Segment> {
    Seq::new(spec_phnum(b) as nat, |i: int| spec_seg_model(b, i))
}

/// The first section at or after `i` whose `sh_type` is `SHT_DYNAMIC`.
pub open spec fn spec_dyn_sec_from(b: Seq<u8>, i: int) -> Option<int>
    decreases spec_shnum(b) - i,
{
    if i < 0 || i >= spec_shnum(b) {
        None
    } else if spec_sec_type(b, i) == 6 {
        Some(i)
    } else {
        spec_dyn_sec_from(b, i + 1)
    }
}

/// The dynamic section: the first section of type `SHT_DYNAMIC`.
pub open spec fn spec_dyn_sec(b: Seq<u8>) -> Option<int> {
    spec_dyn_sec_from(b, 0)
}

/// The name bytes of `.dynstr`.
pub open spec fn spec_dynstr_name() -> Seq<u8> {
    seq![0x2eu8, 0x64u8, 0x79u8, 0x6eu8, 0x73u8, 0x74u8, 0x72u8]
}

/// The name bytes of `.dynsym`.
pub open spec fn spec_dynsym_name() -> Seq<u8> {
    seq![0x2eu8, 0x64u8, 0x79u8, 0x6eu8, 0x73u8, 0x79u8, 0x6du8]
}

/// The first section at or after `i` whose name bytes equal `nm`.
pub open spec fn spec_find_sec_from(b: Seq<u8>, nm: Seq<u8>, i: int) -> Option<int>
    decreases spec_shnum(b) - i,
{
    if i < 0 || i >= spec_shnum(b) {
        None
    } else if spec_sec_name_bytes(b, i) == Some(nm) {
        Some(i)
    } else {
        spec_find_sec_from(b, nm, i + 1)
    }
}

/// The first section named `nm`.
pub open spec fn spec_find_sec(b: Seq<u8>, nm: Seq<u8>) -> Option<int> {
    spec_find_sec_from(b, nm, 0)
}

/// Stride of one dynamic-section entry for the image's class.
pub open spec fn spec_dyn_entsize(b: Seq<u8>) -> int {
    if spec_is_64(b) {
        16
    } else {
        8
    }
}

/// Number of entries of the dynamic section (its size over its stride).
pub open spec fn spec_dyn_count(b: Seq<u8>) -> int {
    spec_sec_size(b, spec_dyn_sec(b).unwrap()) / spec_dyn_entsize(b)
}

/// `d_tag` of dynamic entry `j`.
pub open spec fn spec_dyn_tag(b: Seq<u8>, j: int) -> int {
    let base = spec_sec_offset(b, spec_dyn_sec(b).unwrap()) + j * spec_dyn_entsize(b);
    word(b, base, spec_dyn_entsize(b) / 2, spec_endianness(b))
}

/// `d_val` of dynamic entry `j`.
pub open spec fn spec_dyn_val(b: Seq<u8>, j: int) -> int {
    let base = spec_sec_offset(b, spec_dyn_sec(b).unwrap()) + j * spec_dyn_entsize(b);
    word(b, base + spec_dyn_entsize(b) / 2, spec_dyn_entsize(b) / 2, spec_endianness(b))
}

/// File offset of the `.dynstr` data.
pub open spec fn spec_dynstr_off(b: Seq<u8>) -> int {
    spec_sec_offset(b, spec_find_sec(b, spec_dynstr_name()).unwrap())
}

/// Size of the `.dynstr` data.
pub open spec fn spec_dynstr_size(b: Seq<u8>) -> int {
    spec_sec_size(b, spec_find_sec(b, spec_dynstr_name()).unwrap())
}

/// The NUL-terminated byte string at offset `o` of `.dynstr`, or `None`
/// when the offset or the terminator is missing.
pub open spec fn spec_dynstr_at(b: Seq<u8>, o: int) -> Option<Seq<u8>> {
    if 0 <= o <= spec_dynstr_size(b) && has_nul(
        b,
        spec_dynstr_off(b) + o,
        spec_dynstr_off(b) + spec_dynstr_size(b),
    ) {
        Some(cstr_at(b, spec_dynstr_off(b) + o, spec_dynstr_off(b) + spec_dynstr_size(b)))
    } else {
        None
    }
}

/// The needed-library names of dynamic entries at or after `j`, in entry
/// order: every `DT_NEEDED` entry is resolved through `.dynstr` and decoded
/// as strict UTF-8. An unreadable string offset or an invalid encoding at
/// the first offending entry decides the error.
pub open spec fn spec_needed_from(b: Seq<u8>, j: int) -> Result<Seq<Seq<char>>, WalkError>
    decreases spec_dyn_count(b) - j,
{
    if j < 0 || j >= spec_dyn_count(b) {
        Ok(Seq::empty())
    } else if spec_dyn_tag(b, j) != 1 {
        spec_needed_from(b, j + 1)
    } else {
        match spec_dynstr_at(b, spec_dyn_val(b, j)) {
            None => Err(WalkError::MalformedImage),
            Some(bs) => if !valid_utf8(bs) {
                Err(WalkError::NeededNameNotUtf8)
            } else {
                match spec_needed_from(b, j + 1) {
                    Ok(rest) => Ok(seq![decode_utf8(bs)] + rest),
                    Err(e) => Err(e),
                }
            },
        }
    }
}

/// Index of the `.dynsym` section.
pub open spec fn spec_dynsym_sec(b: Seq<u8>) -> Option<int> {
    spec_find_sec(b, spec_dynsym_name())
}

/// Stride of one dynamic-symbol entry for the image's class.
pub open spec fn spec_sym_entsize(b: Seq<u8>) -> int {
    if spec_is_64(b) {
        24
    } else {
        16
    }
}

/// File offset of the `.dynsym` data.
pub open spec fn spec_dynsym_off(b: Seq<u8>) -> int {
    spec_sec_offset(b, spec_dynsym_sec(b).unwrap())
}

/// Number of dynamic-symbol entries (section size over stride).
pub open spec fn spec_sym_count(b: Seq<u8>) -> int {
    spec_sec_size(b, spec_dynsym_sec(b).unwrap()) / spec_sym_entsize(b)
}

/// File offset of symbol entry `k`.
pub open spec fn spec_sym_base(b: Seq<u8>, k: int) -> int {
    spec_dynsym_off(b) + k * spec_sym_entsize(b)
}

/// `st_name` of symbol `k`.
pub open spec fn spec_sym_name_off(b: Seq<u8>, k: int) -> int {
    word(b, spec_sym_base(b, k), 4, spec_endianness(b))
}

/// `st_info` of symbol `k`.
pub open spec fn spec_sym_info(b: Seq<u8>, k: int) -> int {
    if spec_is_64(b) {
        word(b, spec_sym_base(b, k) + 4, 1, spec_endianness(b))
    } else {
        word(b, spec_sym_base(b, k) + 12, 1, spec_endianness(b))
    }
}

/// `st_shndx` of symbol `k`.
pub open spec fn spec_sym_shndx(b: Seq<u8>, k: int) -> int {
    if spec_is_64(b) {
        word(b, spec_sym_base(b, k) + 6, 2, spec_endianness(b))
    } else {
        word(b, spec_sym_base(b, k) + 14, 2, spec_endianness(b))
    }
}

/// `st_value` of symbol `k`.
pub open spec fn spec_sym_value(b: Seq<u8>, k: int) -> int {
    if spec_is_64(b) {
        word(b, spec_sym_base(b, k) + 8, 8, spec_endianness(b))
    } else {
        word(b, spec_sym_base(b, k) + 4, 4, spec_endianness(b))
    }
}

/// `st_size` of symbol `k`.
pub open spec fn spec_sym_size(b: Seq<u8>, k: int) -> int {
    if spec_is_64(b) {
        word(b, spec_sym_base(b, k) + 16, 8, spec_endianness(b))
    } else {
        word(b, spec_sym_base(b, k) + 8, 4, spec_endianness(b))
    }
}

/// Name of symbol `k`: its `.dynstr` bytes decoded leniently, or a fixed,
/// non-empty sentinel when the string cannot be read.
pub open spec fn spec_sym_name_chars(b: Seq<u8>, k: int) -> Seq<char> {
    match spec_dynstr_at(b, spec_sym_name_off(b, k)) {
        Some(bs) => crate::text::lossy_utf8(bs),
        None => "<Error>"@,
    }
}

/// The symbol identity of entry `k`; version decoding is deferred, so the
/// version is always absent.
pub open spec fn spec_sym_symbol(b: Seq<u8>, k: int) -> VersionedSymbolModel {
    VersionedSymbolModel { name: spec_sym_name_chars(b, k), version: None }
}

/// Whether symbol entry `k` is kept: the null entry at index zero and
/// entries with empty names are omitted.
pub open spec fn spec_sym_kept(b: Seq<u8>, k: int) -> bool {
    k >= 1 && spec_sym_name_chars(b, k).len() > 0
}

/// Whether symbol entry `k` is undefined (imported): its defining section
/// index is the undefined section.
pub open spec fn spec_sym_undef(b: Seq<u8>, k: int) -> bool {
    spec_sym_shndx(b, k) == 0
}

/// The import model of symbol entry `k`.
pub open spec fn spec_import_model(b: Seq<u8>, k: int) -> DynamicSymbolReferenceModel {
    DynamicSymbolReferenceModel {
        symbol: spec_sym_symbol(b, k),
        type_: spec_symbol_type((spec_sym_info(b, k) % 16) as u8),
        binding: spec_symbol_binding((spec_sym_info(b, k) / 16) as u8),
    }
}

/// The export model of symbol entry `k`.
pub open spec fn spec_export_model(b: Seq<u8>, k: int) -> ExportedDynamicSymbolModel {
    ExportedDynamicSymbolModel {
        symbol: spec_sym_symbol(b, k),
        type_: spec_symbol_type((spec_sym_info(b, k) % 16) as u8),
        binding: spec_symbol_binding((spec_sym_info(b, k) / 16) as u8),
        size: spec_sym_size(b, k) as u64,
        address: spec_sym_value(b, k) as u64,
    }
}

/// The imported symbols among the first `k` symbol entries, in table order.
pub open spec fn spec_imports_upto(b: Seq<u8>, k: int) -> Seq<DynamicSymbolReferenceModel>
    decreases k,
{
    if k <= 0 {
        Seq::empty()
    } else if spec_sym_kept(b, k - 1) && spec_sym_undef(b, k - 1) {
        spec_imports_upto(b, k - 1) + seq![spec_import_model(b, k - 1)]
    } else {
        spec_imports_upto(b, k - 1)
    }
}

/// The exported symbols among the first `k` symbol entries, in table order.
pub open spec fn spec_exports_upto(b: Seq<u8>, k: int) -> Seq<ExportedDynamicSymbolModel>
    decreases k,
{
    if k <= 0 {
        Seq::empty()
    } else if spec_sym_kept(b, k - 1) && !spec_sym_undef(b, k - 1) {
        spec_exports_upto(b, k - 1) + seq![spec_export_model(b, k - 1)]
    } else {
        spec_exports_upto(b, k - 1)
    }
}

/// The link variant of the image: static when no dynamic section exists,
/// otherwise the decoded dynamic interface or the fault met decoding it.
pub open spec fn spec_binary_type(b: Seq<u8>) -> Result<BinaryTypeModel, WalkError> {
    match spec_dyn_sec(b) {
        None => Ok(BinaryTypeModel::Static),
        Some(d) => if !(spec_sec_offset(b, d) + spec_sec_size(b, d) <= b.len()) {
            Err(WalkError::MalformedImage)
        } else {
            match spec_find_sec(b, spec_dynstr_name()) {
                None => Err(WalkError::MissingExpectedDynstrSection),
                Some(ds) => if !(spec_sec_offset(b, ds) + spec_sec_size(b, ds) <= b.len()) {
                    Err(WalkError::MalformedImage)
                } else {
                    match spec_needed_from(b, 0) {
                        Err(e) => Err(e),
                        Ok(needed) => match spec_dynsym_sec(b) {
                            None => Err(WalkError::MissingExpectedDynsymSection),
                            Some(sy) => if !(spec_dynsym_off(b) + spec_sec_size(b, sy)
                                <= b.len()) {
                                Err(WalkError::MalformedImage)
                            } else {
                                Ok(
                                    BinaryTypeModel::Dynamic(
                                        DynamicDataModel {
                                            dynamic_symbol_refs: spec_imports_upto(
                                                b,
                                                spec_sym_count(b),
                                            ),
                                            provided_dynamic_symbols: spec_exports_upto(
                                                b,
                                                spec_sym_count(b),
                                            ),
                                            deps: needed,
                                        },
                                    ),
                                )
                            },
                        },
                    }
                },
            }
        },
    }
}

/// The decoded model of a whole buffer: the summary an ELF image denotes,
/// or the fault that stops decoding. Pointer width and byte order come from
/// the identification bytes alone.
pub open spec fn spec_summarize(b: Seq<u8>, path: Seq<char>) -> Result<ElfSummaryModel, WalkError> {
    if !spec_wf_header(b) {
        Err(WalkError::NotElf)
    } else if !spec_tables_in_bounds(b) {
        Err(WalkError::MalformedImage)
    } else {
        match spec_binary_type(b) {
            Err(e) => Err(e),
            Ok(bt) => Ok(
                ElfSummaryModel {
                    endianness: spec_endianness(b),
                    bit_size: if spec_is_64(b) {
                        64
                    } else {
                        32
                    },
                    filename: path,
                    binary_type: bt,
                    sections: spec_sections(b),
                    segments: spec_segments(b),
                },
            ),
        }
    }
}

// ------------------------------------------------------------------
// Decoding is determined by logical content, not by encoding. Two
// buffers that carry the same dynamic entries and symbol records —
// whatever their byte order or pointer width — decode to the same
// needed list and the same symbol interface.
// ------------------------------------------------------------------
/// Two buffers whose dynamic sections carry the same entries: equal entry
/// counts and tags, and, for every `DT_NEEDED` entry, equal name bytes.
pub open spec fn spec_same_dynamic_entries(b1: Seq<u8>, b2: Seq<u8>) -> bool {
    &&& spec_dyn_count(b1) == spec_dyn_count(b2)
    &&& forall|i: int|
        0 <= i < spec_dyn_count(b1) ==> spec_dyn_tag(b1, i) == spec_dyn_tag(b2, i)
    &&& forall|i: int|
        0 <= i < spec_dyn_count(b1) && spec_dyn_tag(b1, i) == 1 ==> spec_dynstr_at(
            b1,
            spec_dyn_val(b1, i),
        ) == spec_dynstr_at(b2, spec_dyn_val(b2, i))
}

/// Two buffers whose dynamic symbol tables carry the same records: equal
/// counts, and per record equal name bytes, `st_info` and `st_shndx`.
pub open spec fn spec_same_symbol_records(b1: Seq<u8>, b2: Seq<u8>) -> bool {
    &&& spec_sym_count(b1) == spec_sym_count(b2)
    &&& forall|k: int|
        0 <= k < spec_sym_count(b1) ==> spec_dynstr_at(b1, spec_sym_name_off(b1, k))
            == spec_dynstr_at(b2, spec_sym_name_off(b2, k))
    &&& forall|k: int|
        0 <= k < spec_sym_count(b1) ==> spec_sym_info(b1, k) == spec_sym_info(b2, k)
    &&& forall|k: int|
        0 <= k < spec_sym_count(b1) ==> spec_sym_shndx(b1, k) == spec_sym_shndx(b2, k)
}

/// Equal dynamic entries decode to the same needed list — names and
/// faults alike — whatever the byte order or pointer width.
pub proof fn lemma_needed_same(b1: Seq<u8>, b2: Seq<u8>, j: int)
    requires
        spec_same_dynamic_entries(b1, b2),
        0 <= j,
    ensures
        spec_needed_from(b1, j) == spec_needed_from(b2, j),
    decreases spec_dyn_count(b1) - j,
{
    if j < spec_dyn_count(b1) {
        lemma_needed_same(b1, b2, j + 1);
    }
}

/// Equal symbol records decode to the same imports and to exports with
/// the same symbols, whatever the byte order or pointer width.
pub proof fn lemma_symbols_same(b1: Seq<u8>, b2: Seq<u8>, k: int)
    requires
        spec_same_symbol_records(b1, b2),
        0 <= k <= spec_sym_count(b1),
    ensures
        spec_imports_upto(b1, k) == spec_imports_upto(b2, k),
        spec_exports_upto(b1, k).map_values(|x: ExportedDynamicSymbolModel| x.symbol)
            == spec_exports_upto(b2, k).map_values(|x: ExportedDynamicSymbolModel| x.symbol),
        spec_exports_upto(b1, k).len() == spec_exports_upto(b2, k).len(),
    decreases k,
{
    if k <= 0 {
        assert(spec_imports_upto(b1, k) =~= spec_imports_upto(b2, k));
        assert(spec_exports_upto(b1, k).map_values(|x: ExportedDynamicSymbolModel| x.symbol)
            =~= spec_exports_upto(b2, k).map_values(|x: ExportedDynamicSymbolModel| x.symbol));
    } else {
        lemma_symbols_same(b1, b2, k - 1);
        assert(spec_sym_name_chars(b1, k - 1) == spec_sym_name_chars(b2, k - 1));
        assert(spec_sym_kept(b1, k - 1) == spec_sym_kept(b2, k - 1));
        assert(spec_sym_undef(b1, k - 1) == spec_sym_undef(b2, k - 1));
        if spec_sym_kept(b1, k - 1) && spec_sym_undef(b1, k - 1) {
            assert(spec_import_model(b1, k - 1) =~= spec_import_model(b2, k - 1));
            assert(spec_imports_upto(b1, k) =~= spec_imports_upto(b2, k));
        } else {
            assert(spec_imports_upto(b1, k) =~= spec_imports_upto(b2, k));
        }
        let f = |x: ExportedDynamicSymbolModel| x.symbol;
        if spec_sym_kept(b1, k - 1) && !spec_sym_undef(b1, k - 1) {
            assert(spec_export_model(b1, k - 1).symbol =~= spec_export_model(b2, k - 1).symbol);
            assert(spec_exports_upto(b1, k).map_values(f) =~= spec_exports_upto(b1, k - 1)
                .map_values(f) + seq![spec_export_model(b1, k - 1).symbol]);
            assert(spec_exports_upto(b2, k).map_values(f) =~= spec_exports_upto(b2, k - 1)
                .map_values(f) + seq![spec_export_model(b2, k - 1).symbol]);
            assert(spec_exports_upto(b1, k).map_values(f) =~= spec_exports_upto(b2, k).map_values(
                f,
            ));
        } else {
            assert(spec_exports_upto(b1, k).map_values(f) =~= spec_exports_upto(b2, k).map_values(
                f,
            ));
        }
    }
}

/// The dynamic interface of an image is a function of its logical content
/// alone: buffers with the same dynamic entries and the same symbol
/// records — for instance one image re-encoded with the other byte order,
/// or with the other pointer width — yield the same needed list, the same
/// import sequence and the same export symbols.
pub proof fn lemma_interface_from_content(b1: Seq<u8>, b2: Seq<u8>)
    requires
        spec_same_dynamic_entries(b1, b2),
        spec_same_symbol_records(b1, b2),
    ensures
        spec_needed_from(b1, 0) == spec_needed_from(b2, 0),
        spec_imports_upto(b1, spec_sym_count(b1)) == spec_imports_upto(b2, spec_sym_count(b2)),
        spec_exports_upto(b1, spec_sym_count(b1)).map_values(
            |x: ExportedDynamicSymbolModel| x.symbol,
        ) == spec_exports_upto(b2, spec_sym_count(b2)).map_values(
            |x: ExportedDynamicSymbolModel| x.symbol,
        ),
{
    lemma_needed_same(b1, b2, 0);
    if spec_sym_count(b1) >= 0 {
        lemma_symbols_same(b1, b2, spec_sym_count(b1));
    } else {
        assert(spec_imports_upto(b1, spec_sym_count(b1)) =~= spec_imports_upto(
            b2,
            spec_sym_count(b2),
        ));
        assert(spec_exports_upto(b1, spec_sym_count(b1)).map_values(
            |x: ExportedDynamicSymbolModel| x.symbol,
        ) =~= spec_exports_upto(b2, spec_sym_count(b2)).map_values(
            |x: ExportedDynamicSymbolModel| x.symbol,
        ));
    }
}

// ------------------------------------------------------------------
// The executable decoder.
// ------------------------------------------------------------------
/// Header data shared by the decoding passes, validated against the buffer.
struct Layout {
    is64: bool,
    e: Endianness,
    shoff: usize,
    shnum: usize,
    phoff: usize,
    phnum: usize,
    str_off: usize,
    str_size: usize,
}

impl Layout {
    /// The fields agree with the header words of `b`, whose tables lie in
    /// bounds.
    spec fn wf(self, b: Seq<u8>) -> bool {
        &&& spec_wf_header(b)
        &&& spec_tables_in_bounds(b)
        &&& self.is64 == spec_is_64(b)
        &&& self.e == spec_endianness(b)
        &&& self.shoff == spec_shoff(b)
        &&& self.shnum == spec_shnum(b)
        &&& self.phoff == spec_phoff(b)
        &&& self.phnum == spec_phnum(b)
        &&& if spec_shnum(b) == 0 {
            self.str_off == 0 && self.str_size == 0
        } else {
            self.str_off == spec_str_off(b) && self.str_size == spec_str_size(b)
        }
    }
}

/// The raw header words of one section.
struct RawSec {
    name_off: u64,
    type_: u64,
    flags: u64,
    addr: u64,
    offset: u64,
    size: u64,
    addralign: u64,
}

/// Section header `i` lies inside the buffer.
proof fn lemma_sec_slot(b: Seq<u8>, i: int)
    requires
        spec_wf_header(b),
        spec_sections_in_bounds(b),
        0 <= i < spec_shnum(b),
    ensures
        0 <= spec_sec_base(b, i),
        spec_sec_base(b, i) + spec_sh_entsize(b) <= b.len(),
{
    crate::bytes::lemma_word_bound(b, 0x20, 4, spec_endianness(b));
    crate::bytes::lemma_word_bound(b, 0x28, 8, spec_endianness(b));
    lemma_mul_nonnegative(i, spec_sh_entsize(b));
    lemma_mul_inequality(i + 1, spec_shnum(b), spec_sh_entsize(b));
    assert((i + 1) * spec_sh_entsize(b) == i * spec_sh_entsize(b) + spec_sh_entsize(b))
        by (nonlinear_arith);
}

/// Program header `i` lies inside the buffer.
proof fn lemma_seg_slot(b: Seq<u8>, i: int)
    requires
        spec_wf_header(b),
        spec_segments_in_bounds(b),
        0 <= i < spec_phnum(b),
    ensures
        0 <= spec_seg_base(b, i),
        spec_seg_base(b, i) + spec_ph_entsize(b) <= b.len(),
{
    crate::bytes::lemma_word_bound(b, 0x1c, 4, spec_endianness(b));
    crate::bytes::lemma_word_bound(b, 0x20, 8, spec_endianness(b));
    lemma_mul_nonnegative(i, spec_ph_entsize(b));
    lemma_mul_inequality(i + 1, spec_phnum(b), spec_ph_entsize(b));
    assert((i + 1) * spec_ph_entsize(b) == i * spec_ph_entsize(b) + spec_ph_entsize(b))
        by (nonlinear_arith);
}

/// Reads the raw header words of section `i`.
fn read_section_fields(b: &Vec<u8>, is64: bool, e: Endianness, shoff: usize, i: usize) -> (r:
    RawSec)
    requires
        spec_wf_header(b@),
        spec_sections_in_bounds(b@),
        is64 == spec_is_64(b@),
        e == spec_endianness(b@),
        shoff == spec_shoff(b@),
        (i as int) < spec_shnum(b@),
    ensures
        r.name_off as int == spec_sec_name_off(b@, i as int),
        r.type_ as int == spec_sec_type(b@, i as int),
        r.flags as int == spec_sec_flags(b@, i as int),
        r.addr as int == spec_sec_addr(b@, i as int),
        r.offset as int == spec_sec_offset(b@, i as int),
        r.size as int == spec_sec_size(b@, i as int),
        r.addralign as int == spec_sec_addralign(b@, i as int),
{
    proof {
        lemma_sec_slot(b@, i as int);
    }
    let blen: usize = b.len();
    let entsz: usize = if is64 {
        64
    } else {
        40
    };
    let base: usize = shoff + i * entsz;
    let name_off = read_word(b, base, 4, e);
    let type_ = read_word(b, base + 4, 4, e);
    if is64 {
        RawSec {
            name_off,
            type_,
            flags: read_word(b, base + 8, 8, e),
            addr: read_word(b, base + 16, 8, e),
            offset: read_word(b, base + 24, 8, e),
            size: read_word(b, base + 32, 8, e),
            addralign: read_word(b, base + 48, 8, e),
        }
    } else {
        RawSec {
            name_off,
            type_,
            flags: read_word(b, base + 8, 4, e),
            addr: read_word(b, base + 12, 4, e),
            offset: read_word(b, base + 16, 4, e),
            size: read_word(b, base + 20, 4, e),
            addralign: read_word(b, base + 32, 4, e),
        }
    }
}

/// Decodes program header `i`.
fn parse_segment(b: &Vec<u8>, l: &Layout, i: usize) -> (s: Segment)
    requires
        l.wf(b@),
        (i as int) < spec_phnum(b@),
    ensures
        s == spec_seg_model(b@, i as int),
{
    proof {
        lemma_seg_slot(b@, i as int);
        crate::bytes::lemma_word_bound(b@, spec_seg_base(b@, i as int), 4, spec_endianness(b@));
        crate::bytes::lemma_word_bound(
            b@,
            spec_seg_base(b@, i as int) + 4,
            4,
            spec_endianness(b@),
        );
        crate::bytes::lemma_word_bound(
            b@,
            spec_seg_base(b@, i as int) + 24,
            4,
            spec_endianness(b@),
        );
        crate::bytes::lemma_pow256_values();
    }
    let blen: usize = b.len();
    let entsz: usize = if l.is64 {
        56
    } else {
        32
    };
    let base: usize = l.phoff + i * entsz;
    if l.is64 {
        Segment {
            type_: read_word(b, base, 4, l.e) as u32,
            flags: read_word(b, base + 4, 4, l.e) as u32,
            offset: read_word(b, base + 8, 8, l.e),
            vaddr: read_word(b, base + 16, 8, l.e),
            paddr: read_word(b, base + 24, 8, l.e),
            file_size: read_word(b, base + 32, 8, l.e),
            mem_size: read_word(b, base + 40, 8, l.e),
            alignment: read_word(b, base + 48, 8, l.e),
        }
    } else {
        Segment {
            type_: read_word(b, base, 4, l.e) as u32,
            flags: read_word(b, base + 24, 4, l.e) as u32,
            offset: read_word(b, base + 4, 4, l.e),
            vaddr: read_word(b, base + 8, 4, l.e),
            paddr: read_word(b, base + 12, 4, l.e),
            file_size: read_word(b, base + 16, 4, l.e),
            mem_size: read_word(b, base + 20, 4, l.e),
            alignment: read_word(b, base + 28, 4, l.e),
        }
    }
}

/// Compares two byte vectors for equality.
fn bytes_eq(a: &Vec<u8>, c: &Vec<u8>) -> (r: bool)
    ensures
        r == (a@ == c@),
{
    if a.len() != c.len() {
        return false;
    }
    let mut i: usize = 0;
    while i < a.len()
        invariant
            i <= a@.len(),
            a@.len() == c@.len(),
            forall|j: int| 0 <= j < i ==> a@[j] == c@[j],
        decreases a@.len() - i,
    {
        if a[i] != c[i] {
            return false;
        }
        i = i + 1;
    }
    proof {
        assert(a@ =~= c@);
    }
    true
}

/// Decodes section `i` into its summary form, resolving its name through
/// the section-header string table.
fn parse_section(b: &Vec<u8>, l: &Layout, i: usize) -> (s: Section)
    requires
        l.wf(b@),
        (i as int) < spec_shnum(b@),
    ensures
        s@ == spec_sec_model(b@, i as int),
{
    let f = read_section_fields(b, l.is64, l.e, l.shoff, i);
    proof {
        crate::bytes::lemma_word_bound(
            b@,
            spec_sec_base(b@, i as int) + 4,
            4,
            spec_endianness(b@),
        );
        crate::bytes::lemma_pow256_values();
    }
    let blen: usize = b.len();
    assert(l.str_off + l.str_size <= blen);
    let name: String = if f.name_off <= l.str_size as u64 {
        let noff = f.name_off as usize;
        match read_cstr(b, l.str_off + noff, l.str_off + l.str_size) {
            Some(v) => utf8_to_string_lossy(&v),
            None => String::from_str("<Unknown>"),
        }
    } else {
        String::from_str("<Unknown>")
    };
    assert(name@ == spec_sec_name_chars(b@, i as int));
    let s = Section {
        name,
        address: f.addr,
        alignment: f.addralign,
        offset: f.offset,
        size: f.size,
        type_: f.type_ as u32,
        flags: f.flags,
    };
    assert(s@ =~= spec_sec_model(b@, i as int));
    s
}

/// Finds the first section of type `SHT_DYNAMIC`.
fn find_dynamic_section(b: &Vec<u8>, l: &Layout) -> (r: Option<usize>)
    requires
        l.wf(b@),
    ensures
        match r {
            Some(i) => spec_dyn_sec(b@) == Some(i as int) && (i as int) < spec_shnum(b@),
            None => spec_dyn_sec(b@) is None,
        },
{
    let mut i: usize = 0;
    while i < l.shnum
        invariant
            l.wf(b@),
            i <= l.shnum,
            spec_dyn_sec(b@) == spec_dyn_sec_from(b@, i as int),
        decreases l.shnum - i,
    {
        let f = read_section_fields(b, l.is64, l.e, l.shoff, i);
        if f.type_ == 6 {
            return Some(i);
        }
        i = i + 1;
    }
    None
}

/// Whether section `i`'s name bytes equal `pat`.
fn section_name_is(b: &Vec<u8>, l: &Layout, i: usize, pat: &Vec<u8>) -> (r: bool)
    requires
        l.wf(b@),
        (i as int) < spec_shnum(b@),
    ensures
        r == (spec_sec_name_bytes(b@, i as int) == Some(pat@)),
{
    let f = read_section_fields(b, l.is64, l.e, l.shoff, i);
    if f.name_off > l.str_size as u64 {
        return false;
    }
    let blen: usize = b.len();
    assert(l.str_off + l.str_size <= blen);
    let noff = f.name_off as usize;
    match read_cstr(b, l.str_off + noff, l.str_off + l.str_size) {
        None => false,
        Some(v) => bytes_eq(&v, pat),
    }
}

/// Entry `j` of a table of `size / entsz` entries lies inside the table.
proof fn lemma_entry_bounds(size: int, entsz: int, j: int)
    requires
        entsz > 0,
        0 <= j < size / entsz,
    ensures
        0 <= j * entsz,
        (j + 1) * entsz <= size,
{
    lemma_mul_nonnegative(j, entsz);
    lemma_fundamental_div_mod(size, entsz);
    lemma_mul_inequality(j + 1, size / entsz, entsz);
    lemma_mul_is_commutative(entsz, size / entsz);
}

/// Parses the identification bytes and the file header, and checks that
/// every table the decoder will walk lies inside the buffer.
fn parse_layout(b: &Vec<u8>) -> (r: Result<Layout, WalkError>)
    ensures
        r is Ok <==> spec_wf_header(b@) && spec_tables_in_bounds(b@),
        r matches Ok(l) ==> l.wf(b@),
        r matches Err(e) ==> e == if !spec_wf_header(b@) {
            WalkError::NotElf
        } else {
            WalkError::MalformedImage
        },
{
    let n = b.len();
    if n < 16 {
        return Err(WalkError::NotElf);
    }
    if !(b[0] == 0x7f && b[1] == 0x45 && b[2] == 0x4c && b[3] == 0x46) {
        return Err(WalkError::NotElf);
    }
    let cls = b[4];
    let dat = b[5];
    if !(cls == 1 || cls == 2) || !(dat == 1 || dat == 2) {
        return Err(WalkError::NotElf);
    }
    let is64 = cls == 2;
    let e = if dat == 1 {
        Endianness::Little
    } else {
        Endianness::Big
    };
    let hlen: usize = if is64 {
        64
    } else {
        52
    };
    if n < hlen {
        return Err(WalkError::NotElf);
    }
    assert(spec_wf_header(b@));
    proof {
        crate::bytes::lemma_pow256_values();
        if spec_is_64(b@) {
            crate::bytes::lemma_word_bound(b@, 0x3c, 2, spec_endianness(b@));
            crate::bytes::lemma_word_bound(b@, 0x3e, 2, spec_endianness(b@));
            crate::bytes::lemma_word_bound(b@, 0x38, 2, spec_endianness(b@));
        } else {
            crate::bytes::lemma_word_bound(b@, 0x30, 2, spec_endianness(b@));
            crate::bytes::lemma_word_bound(b@, 0x32, 2, spec_endianness(b@));
            crate::bytes::lemma_word_bound(b@, 0x2c, 2, spec_endianness(b@));
        }
    }
    let shoff64 = if is64 {
        read_word(b, 0x28, 8, e)
    } else {
        read_word(b, 0x20, 4, e)
    };
    let shnum64 = if is64 {
        read_word(b, 0x3c, 2, e)
    } else {
        read_word(b, 0x30, 2, e)
    };
    let shstrndx64 = if is64 {
        read_word(b, 0x3e, 2, e)
    } else {
        read_word(b, 0x32, 2, e)
    };
    let phoff64 = if is64 {
        read_word(b, 0x20, 8, e)
    } else {
        read_word(b, 0x1c, 4, e)
    };
    let phnum64 = if is64 {
        read_word(b, 0x38, 2, e)
    } else {
        read_word(b, 0x2c, 2, e)
    };
    let shentsz: u64 = if is64 {
        64
    } else {
        40
    };
    let phentsz: u64 = if is64 {
        56
    } else {
        32
    };
    proof {
        vstd::arithmetic::mul::lemma_mul_upper_bound(shnum64 as int, 65536, shentsz as int, 64);
        vstd::arithmetic::mul::lemma_mul_upper_bound(phnum64 as int, 65536, phentsz as int, 64);
    }
    if (shoff64 as u128) + (shnum64 as u128) * (shentsz as u128) > (n as u128) {
        return Err(WalkError::MalformedImage);
    }
    if (phoff64 as u128) + (phnum64 as u128) * (phentsz as u128) > (n as u128) {
        return Err(WalkError::MalformedImage);
    }
    assert(spec_sections_in_bounds(b@));
    assert(spec_segments_in_bounds(b@));
    let str_pair: (usize, usize) = if shnum64 == 0 {
        (0, 0)
    } else {
        if shstrndx64 >= shnum64 {
            return Err(WalkError::MalformedImage);
        }
        let sf = read_section_fields(b, is64, e, shoff64 as usize, shstrndx64 as usize);
        if (sf.offset as u128) + (sf.size as u128) > (n as u128) {
            return Err(WalkError::MalformedImage);
        }
        (sf.offset as usize, sf.size as usize)
    };
    assert(spec_strtab_in_bounds(b@));
    Ok(
        Layout {
            is64,
            e,
            shoff: shoff64 as usize,
            shnum: shnum64 as usize,
            phoff: phoff64 as usize,
            phnum: phnum64 as usize,
            str_off: str_pair.0,
            str_size: str_pair.1,
        },
    )
}

/// Decodes the link variant: finds the dynamic section, the dynamic string
/// table and the dynamic symbol table, extracts the `DT_NEEDED` names in
/// entry order, and splits the symbols into imports and exports.
#[verifier::loop_isolation(false)]
#[verifier::rlimit(100)]
fn analyze_dependencies(b: &Vec<u8>, l: &Layout) -> (r: Result<BinaryType, WalkError>)
    requires
        l.wf(b@),
    ensures
        r is Ok <==> spec_binary_type(b@) is Ok,
        r matches Ok(bt) ==> Ok::<BinaryTypeModel, WalkError>(bt@) == spec_binary_type(b@),
        r matches Err(e) ==> Err::<BinaryTypeModel, WalkError>(e) == spec_binary_type(b@),
{
    let blen = b.len();
    let d = match find_dynamic_section(b, l) {
        None => {
            return Ok(BinaryType::Static);
        },
        Some(d) => d,
    };
    let df = read_section_fields(b, l.is64, l.e, l.shoff, d);
    if (df.offset as u128) + (df.size as u128) > (blen as u128) {
        return Err(WalkError::MalformedImage);
    }
    let mut dynstr_pat: Vec<u8> = Vec::new();
    dynstr_pat.push(0x2e);
    dynstr_pat.push(0x64);
    dynstr_pat.push(0x79);
    dynstr_pat.push(0x6e);
    dynstr_pat.push(0x73);
    dynstr_pat.push(0x74);
    dynstr_pat.push(0x72);
    assert(dynstr_pat@ =~= spec_dynstr_name());
    let ds = match find_section_named(b, l, &dynstr_pat) {
        None => {
            return Err(WalkError::MissingExpectedDynstrSection);
        },
        Some(i) => i,
    };
    let dsf = read_section_fields(b, l.is64, l.e, l.shoff, ds);
    if (dsf.offset as u128) + (dsf.size as u128) > (blen as u128) {
        return Err(WalkError::MalformedImage);
    }
    let ds_off = dsf.offset as usize;
    let ds_size = dsf.size as usize;
    assert(ds_off as int == spec_dynstr_off(b@) && ds_size as int == spec_dynstr_size(b@));
    let entsz: u64 = if l.is64 {
        16
    } else {
        8
    };
    let half: usize = if l.is64 {
        8
    } else {
        4
    };
    let count: u64 = df.size / entsz;
    assert(count as int == spec_dyn_count(b@));
    let dyn_off = df.offset as usize;
    let mut deps: Vec<String> = Vec::new();
    let mut j: u64 = 0;
    let mut base: usize = dyn_off;
    while j < count
        invariant
            j <= count,
            base as int == dyn_off + j * (entsz as int),
            match spec_needed_from(b@, j as int) {
                Ok(rest) => spec_needed_from(b@, 0) == Ok::<Seq<Seq<char>>, WalkError>(
                    deps@.map_values(|s: String| s@) + rest,
                ),
                Err(er) => spec_needed_from(b@, 0) == Err::<Seq<Seq<char>>, WalkError>(er),
            },
        decreases count - j,
    {
        proof {
            lemma_entry_bounds(df.size as int, entsz as int, j as int);
            assert((j + 1) * (entsz as int) == j * (entsz as int) + entsz) by (nonlinear_arith);
        }
        let tag = read_word(b, base, half, l.e);
        assert(tag as int == spec_dyn_tag(b@, j as int));
        if tag == 1 {
            let off64 = read_word(b, base + half, half, l.e);
            assert(off64 as int == spec_dyn_val(b@, j as int));
            if off64 > ds_size as u64 {
                assert(spec_dynstr_at(b@, spec_dyn_val(b@, j as int)) is None);
                return Err(WalkError::MalformedImage);
            }
            let off = off64 as usize;
            match read_cstr(b, ds_off + off, ds_off + ds_size) {
                None => {
                    return Err(WalkError::MalformedImage);
                },
                Some(v) => match utf8_to_string(&v) {
                    None => {
                        return Err(WalkError::NeededNameNotUtf8);
                    },
                    Some(s) => {
                        let ghost old_names = deps@.map_values(|s: String| s@);
                        deps.push(s);
                        proof {
                            assert(deps@.map_values(|s: String| s@) =~= old_names + seq![
                                decode_utf8(cstr_at(b@, ds_off + off, ds_off + ds_size)),
                            ]);
                            if spec_needed_from(b@, j + 1) is Ok {
                                let rest = spec_needed_from(b@, j + 1)->Ok_0;
                                assert(old_names + (seq![
                                    decode_utf8(cstr_at(b@, ds_off + off, ds_off + ds_size)),
                                ] + rest) =~= (old_names + seq![
                                    decode_utf8(cstr_at(b@, ds_off + off, ds_off + ds_size)),
                                ]) + rest);
                            }
                        }
                    },
                },
            }
        }
        j = j + 1;
        base = base + (half + half);
    }
    assert(j == count);
    let ghost needed_names = deps@.map_values(|s: String| s@);
    proof {
        assert(needed_names + Seq::<Seq<char>>::empty() =~= needed_names);
        assert(spec_needed_from(b@, 0) == Ok::<Seq<Seq<char>>, WalkError>(needed_names));
    }
    let mut dynsym_pat: Vec<u8> = Vec::new();
    dynsym_pat.push(0x2e);
    dynsym_pat.push(0x64);
    dynsym_pat.push(0x79);
    dynsym_pat.push(0x6e);
    dynsym_pat.push(0x73);
    dynsym_pat.push(0x79);
    dynsym_pat.push(0x6d);
    assert(dynsym_pat@ =~= spec_dynsym_name());
    let sy = match find_section_named(b, l, &dynsym_pat) {
        None => {
            return Err(WalkError::MissingExpectedDynsymSection);
        },
        Some(i) => i,
    };
    let syf = read_section_fields(b, l.is64, l.e, l.shoff, sy);
    if (syf.offset as u128) + (syf.size as u128) > (blen as u128) {
        return Err(WalkError::MalformedImage);
    }
    let sy_off = syf.offset as usize;
    let symsz: u64 = if l.is64 {
        24
    } else {
        16
    };
    let scount: u64 = syf.size / symsz;
    assert(scount as int == spec_sym_count(b@));
    let mut refs: Vec<DynamicSymbolReference> = Vec::new();
    let mut exports: Vec<ExportedDynamicSymbol> = Vec::new();
    let mut k: u64 = 0;
    let mut sbase: usize = sy_off;
    while k < scount
        invariant
            k <= scount,
            sbase as int == sy_off + k * (symsz as int),
            refs@.map_values(|x: DynamicSymbolReference| x@) == spec_imports_upto(b@, k as int),
            exports@.map_values(|x: ExportedDynamicSymbol| x@) == spec_exports_upto(
                b@,
                k as int,
            ),
        decreases scount - k,
    {
        proof {
            lemma_entry_bounds(syf.size as int, symsz as int, k as int);
            assert((k + 1) * (symsz as int) == k * (symsz as int) + symsz) by (nonlinear_arith);
            crate::bytes::lemma_word_bound(
                b@,
                spec_sym_base(b@, k as int) + if spec_is_64(b@) {
                    4int
                } else {
                    12int
                },
                1,
                spec_endianness(b@),
            );
            crate::bytes::lemma_pow256_values();
        }
        let name_off = read_word(b, sbase, 4, l.e);
        let info = if l.is64 {
            read_word(b, sbase + 4, 1, l.e)
        } else {
            read_word(b, sbase + 12, 1, l.e)
        };
        let shndx = if l.is64 {
            read_word(b, sbase + 6, 2, l.e)
        } else {
            read_word(b, sbase + 14, 2, l.e)
        };
        let value = if l.is64 {
            read_word(b, sbase + 8, 8, l.e)
        } else {
            read_word(b, sbase + 4, 4, l.e)
        };
        let size = if l.is64 {
            read_word(b, sbase + 16, 8, l.e)
        } else {
            read_word(b, sbase + 8, 4, l.e)
        };
        assert(info < 256);
        let name: String = if name_off <= ds_size as u64 {
            match read_cstr(b, ds_off + name_off as usize, ds_off + ds_size) {
                Some(v) => utf8_to_string_lossy(&v),
                None => String::from_str("<Error>"),
            }
        } else {
            String::from_str("<Error>")
        };
        assert(name@ == spec_sym_name_chars(b@, k as int));
        if k >= 1 && !name.as_str().is_empty() {
            assert(spec_sym_kept(b@, k as int));
            let info8 = info as u8;
            let ty = SymbolType::new(info8 % 16);
            let bind = SymbolBinding::new(info8 / 16);
            let sym = VersionedSymbol { name, version: None };
            if shndx == 0 {
                let ghost old_map = refs@.map_values(|x: DynamicSymbolReference| x@);
                refs.push(DynamicSymbolReference { symbol: sym, type_: ty, binding: bind });
                proof {
                    assert(refs@.map_values(|x: DynamicSymbolReference| x@) =~= old_map + seq![
                        spec_import_model(b@, k as int),
                    ]);
                }
            } else {
                let ghost old_map = exports@.map_values(|x: ExportedDynamicSymbol| x@);
                exports.push(
                    ExportedDynamicSymbol {
                        symbol: sym,
                        type_: ty,
                        binding: bind,
                        size,
                        address: value,
                    },
                );
                proof {
                    assert(exports@.map_values(|x: ExportedDynamicSymbol| x@) =~= old_map + seq![
                        spec_export_model(b@, k as int),
                    ]);
                }
            }
        } else {
            assert(!spec_sym_kept(b@, k as int));
        }
        k = k + 1;
        sbase = sbase + (symsz as usize);
    }
    let data = DynamicData {
        dynamic_symbol_refs: refs,
        provided_dynamic_symbols: exports,
        deps,
    };
    let bt = BinaryType::Dynamic(data);
    proof {
        assert(bt@ =~= BinaryTypeModel::Dynamic(
            DynamicDataModel {
                dynamic_symbol_refs: spec_imports_upto(b@, spec_sym_count(b@)),
                provided_dynamic_symbols: spec_exports_upto(b@, spec_sym_count(b@)),
                deps: needed_names,
            },
        ));
    }
    Ok(bt)
}

/// Assembles the summary of a validated buffer: its identification data,
/// link variant, sections and segments.
#[verifier::loop_isolation(false)]
fn summarize_elf(b: &Vec<u8>, l: &Layout, filename: String) -> (r: Result<ElfSummary, WalkError>)
    requires
        l.wf(b@),
    ensures
        r is Ok <==> spec_summarize(b@, filename@) is Ok,
        r matches Ok(s) ==> Ok::<ElfSummaryModel, WalkError>(s@) == spec_summarize(b@, filename@),
        r matches Err(e) ==> Err::<ElfSummaryModel, WalkError>(e) == spec_summarize(b@, filename@),
{
    let bt = match analyze_dependencies(b, l) {
        Err(e) => {
            return Err(e);
        },
        Ok(bt) => bt,
    };
    let mut sections: Vec<Section> = Vec::new();
    let mut i: usize = 0;
    while i < l.shnum
        invariant
            i <= l.shnum,
            sections@.map_values(|s: Section| s@) == spec_sections(b@).subrange(0, i as int),
        decreases l.shnum - i,
    {
        let ghost old_map = sections@.map_values(|s: Section| s@);
        let sec = parse_section(b, l, i);
        sections.push(sec);
        proof {
            assert(sections@.map_values(|s: Section| s@) =~= spec_sections(b@).subrange(
                0,
                i + 1,
            ));
        }
        i = i + 1;
    }
    assert(sections@.map_values(|s: Section| s@) =~= spec_sections(b@));
    let mut segments: Vec<Segment> = Vec::new();
    let mut p: usize = 0;
    while p < l.phnum
        invariant
            p <= l.phnum,
            segments@ == spec_segments(b@).subrange(0, p as int),
        decreases l.phnum - p,
    {
        let seg = parse_segment(b, l, p);
        segments.push(seg);
        proof {
            assert(segments@ =~= spec_segments(b@).subrange(0, p + 1));
        }
        p = p + 1;
    }
    assert(segments@ =~= spec_segments(b@));
    let s = ElfSummary {
        endianness: l.e,
        bit_size: if l.is64 {
            64
        } else {
            32
        },
        filename,
        binary_type: bt,
        sections,
        segments,
    };
    proof {
        assert(Ok::<ElfSummaryModel, WalkError>(s@) == spec_summarize(b@, filename@)) by {
            assert(s@ =~= spec_summarize(b@, filename@)->Ok_0);
        }
    }
    Ok(s)
}

/// Decodes a byte buffer as an ELF image. The summary, or each fault, is
/// pinned to the byte-level model of the format; pointer width and byte
/// order come from the identification bytes alone.
pub fn summarize_bytes(bytes: &Vec<u8>, filename: String) -> (r: Result<ElfSummary, WalkError>)
    ensures
        r is Ok <==> spec_summarize(bytes@, filename@) is Ok,
        r matches Ok(s) ==> Ok::<ElfSummaryModel, WalkError>(s@) == spec_summarize(
            bytes@,
            filename@,
        ),
        r matches Err(e) ==> Err::<ElfSummaryModel, WalkError>(e) == spec_summarize(
            bytes@,
            filename@,
        ),
{
    match parse_layout(bytes) {
        Err(e) => Err(e),
        Ok(l) => summarize_elf(bytes, &l, filename),
    }
}

/// Finds the first section whose name bytes equal `pat`.
fn find_section_named(b: &Vec<u8>, l: &Layout, pat: &Vec<u8>) -> (r: Option<usize>)
    requires
        l.wf(b@),
    ensures
        match r {
            Some(i) => spec_find_sec(b@, pat@) == Some(i as int) && (i as int) < spec_shnum(b@),
            None => spec_find_sec(b@, pat@) is None,
        },
{
    let mut i: usize = 0;
    while i < l.shnum
        invariant
            l.wf(b@),
            i <= l.shnum,
            spec_find_sec(b@, pat@) == spec_find_sec_from(b@, pat@, i as int),
        decreases l.shnum - i,
    {
        if section_name_is(b, l, i, pat) {
            return Some(i);
        }
        i = i + 1;
    }
    None
}

} // verus!
