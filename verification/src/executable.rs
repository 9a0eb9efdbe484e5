//! Executable files: the code sections and symbols found in an ELF or PE file, and
//! the choices that the command line makes about them.
use crate::cli::{Arguments};
use crate::decoder::{resp_views, ParseResponse, ParseResponseView};
use crate::format::{same_formatting, InstructionFormatting};
use crate::text::{chars_of, contains, digits, digits_of, parse_unsigned, replace_all, replace_chars, seq_contains, string_of};
use vstd::prelude::*;

verus! {

// ---------------------------------------------------------------------------
// What is read of an object file
// ---------------------------------------------------------------------------

/// The kind of object file that a sequence of bytes holds.
#[derive(Clone, Copy, Debug, PartialEq, Eq, Structural)]
pub enum ObjectClass {
    Elf,
    Pe,
    Other,
}

/// A symbol of an ELF file: its name's offset in the string table, the name found
/// there (if any), and its value.
#[derive(Debug)]
pub struct ElfSymbol {
    pub name: Option<String>,
    pub name_offset: usize,
    pub value: u64,
}

/// A section header of an ELF file.
#[derive(Debug)]
pub struct ElfSection {
    pub name: Option<String>,
    pub flags: u64,
    pub addr: u64,
    pub offset: u64,
    pub size: u64,
}

/// What the decoder reads of an ELF file.
#[derive(Debug)]
pub struct ElfFacts {
    pub is_64: bool,
    pub entry: u64,
    pub syms: Vec<ElfSymbol>,
    pub sections: Vec<ElfSection>,
}

/// A section table entry of a PE file.
#[derive(Debug)]
pub struct PeSection {
    pub real_name: Option<String>,
    pub characteristics: u32,
    pub virtual_address: u32,
    pub virtual_size: u32,
    pub size_of_raw_data: u32,
    pub pointer_to_raw_data: u32,
}

/// What the decoder reads of a PE file.
#[derive(Debug)]
pub struct PeFacts {
    pub is_64: bool,
    pub entry: u32,
    pub image_base: u64,
    pub sections: Vec<PeSection>,
}

/// The text of an optional string.
pub open spec fn opt_text(s: Option<String>) -> Option<Seq<char>> {
    match s {
        Some(t) => Some(t@),
        None => None,
    }
}

/// The abstract value of an `ElfSymbol`.
pub ghost struct ElfSymbolView {
    pub name: Option<Seq<char>>,
    pub name_offset: usize,
    pub value: u64,
}

/// The abstract value of an `ElfSection`.
pub ghost struct ElfSectionView {
    pub name: Option<Seq<char>>,
    pub flags: u64,
    pub addr: u64,
    pub offset: u64,
    pub size: u64,
}

/// The abstract value of an `ElfFacts`.
pub ghost struct ElfFactsView {
    pub is_64: bool,
    pub entry: u64,
    pub syms: Seq<ElfSymbolView>,
    pub sections: Seq<ElfSectionView>,
}

/// The abstract value of a `PeSection`.
pub ghost struct PeSectionView {
    pub real_name: Option<Seq<char>>,
    pub characteristics: u32,
    pub virtual_address: u32,
    pub virtual_size: u32,
    pub size_of_raw_data: u32,
    pub pointer_to_raw_data: u32,
}

/// The abstract value of a `PeFacts`.
pub ghost struct PeFactsView {
    pub is_64: bool,
    pub entry: u32,
    pub image_base: u64,
    pub sections: Seq<PeSectionView>,
}

impl View for ElfSymbol {
    type V = ElfSymbolView;

    open spec fn view(&self) -> ElfSymbolView {
        ElfSymbolView { name: opt_text(self.name), name_offset: self.name_offset, value: self.value }
    }
}

impl View for ElfSection {
    type V = ElfSectionView;

    open spec fn view(&self) -> ElfSectionView {
        ElfSectionView {
            name: opt_text(self.name),
            flags: self.flags,
            addr: self.addr,
            offset: self.offset,
            size: self.size,
        }
    }
}

impl View for ElfFacts {
    type V = ElfFactsView;

    open spec fn view(&self) -> ElfFactsView {
        ElfFactsView {
            is_64: self.is_64,
            entry: self.entry,
            syms: self.syms@.map_values(|s: ElfSymbol| s@),
            sections: self.sections@.map_values(|s: ElfSection| s@),
        }
    }
}

impl View for PeSection {
    type V = PeSectionView;

    open spec fn view(&self) -> PeSectionView {
        PeSectionView {
            real_name: opt_text(self.real_name),
            characteristics: self.characteristics,
            virtual_address: self.virtual_address,
            virtual_size: self.virtual_size,
            size_of_raw_data: self.size_of_raw_data,
            pointer_to_raw_data: self.pointer_to_raw_data,
        }
    }
}

impl View for PeFacts {
    type V = PeFactsView;

    open spec fn view(&self) -> PeFactsView {
        PeFactsView {
            is_64: self.is_64,
            entry: self.entry,
            image_base: self.image_base,
            sections: self.sections@.map_values(|s: PeSection| s@),
        }
    }
}

/// What `goblin::Object::parse` makes of the bytes: an ELF file, a PE file, or
/// anything else (including bytes that it cannot parse).
pub uninterp spec fn object_class_of(bytes: Seq<u8>) -> ObjectClass;

/// What `goblin::elf::Elf::parse` finds in the bytes of an ELF file.
pub uninterp spec fn elf_facts_of(bytes: Seq<u8>) -> ElfFactsView;

/// What `goblin::pe::PE::parse` finds in the bytes of a PE file.
pub uninterp spec fn pe_facts_of(bytes: Seq<u8>) -> PeFactsView;

/// `goblin::Object::parse`, telling its results apart: `Elf` and `Pe` for those
/// objects, `Other` for any other object and for an error. The result is named
/// `object_class_of`.
#[verifier::external_body]
fn object_class(bytes: &[u8]) -> (r: ObjectClass)
    ensures
        r == object_class_of(bytes@),
{
    match goblin::Object::parse(bytes) {
        Ok(goblin::Object::Elf(_)) => ObjectClass::Elf,
        Ok(goblin::Object::PE(_)) => ObjectClass::Pe,
        _ => ObjectClass::Other,
    }
}

/// `goblin::elf::Elf::parse`, with what is read of the result: the class, the entry
/// point, each symbol (name looked up with `Strtab::get_at`) and each section header
/// (name looked up in the section-header string table). `Object::parse` gives an ELF
/// object exactly by `Elf::parse` succeeding, which the `requires` asks. The result is
/// named `elf_facts_of`.
#[verifier::external_body]
fn elf_facts(bytes: &[u8]) -> (r: ElfFacts)
    requires
        object_class_of(bytes@) == ObjectClass::Elf,
    ensures
        r@ == elf_facts_of(bytes@),
{
    let e = goblin::elf::Elf::parse(bytes).unwrap();
    let syms = e.syms.iter().map(|s| ElfSymbol { name: e.strtab.get_at(s.st_name).map(String::from), name_offset: s.st_name, value: s.st_value });
    let secs = e.section_headers.iter().map(|h| ElfSection { name: e.shdr_strtab.get_at(h.sh_name).map(String::from), flags: h.sh_flags, addr: h.sh_addr, offset: h.sh_offset, size: h.sh_size });
    ElfFacts { is_64: e.is_64, entry: e.entry, syms: syms.collect(), sections: secs.collect() }
}

/// `goblin::pe::PE::parse`, with what is read of the result: the class, the entry
/// point, the image base and each section table entry. `Object::parse` gives a PE
/// object exactly by `PE::parse` succeeding, which the `requires` asks. The result is
/// named `pe_facts_of`.
#[verifier::external_body]
fn pe_facts(bytes: &[u8]) -> (r: PeFacts)
    requires
        object_class_of(bytes@) == ObjectClass::Pe,
    ensures
        r@ == pe_facts_of(bytes@),
{
    let p = goblin::pe::PE::parse(bytes).unwrap();
    let secs = p.sections.iter().map(|s| PeSection { real_name: s.real_name.clone(), characteristics: s.characteristics, virtual_address: s.virtual_address, virtual_size: s.virtual_size, size_of_raw_data: s.size_of_raw_data, pointer_to_raw_data: s.pointer_to_raw_data });
    PeFacts { is_64: p.is_64, entry: p.entry, image_base: p.image_base, sections: secs.collect() }
}

// ---------------------------------------------------------------------------
// Sections, symbols and executables
// ---------------------------------------------------------------------------

/// A region of code: where it lies in the file, the address it is loaded at, and the
/// instructions decoded from it.
#[derive(Debug)]
pub struct Section {
    pub name: String,
    pub offset: usize,
    pub size: usize,
    pub addr: u64,
    pub disassembled: Vec<ParseResponse>,
}

/// The abstract value of a `Section`.
pub ghost struct SectionView {
    pub name: Seq<char>,
    pub offset: usize,
    pub size: usize,
    pub addr: u64,
    pub disassembled: Seq<ParseResponseView>,
}

impl View for Section {
    type V = SectionView;

    open spec fn view(&self) -> SectionView {
        SectionView {
            name: self.name@,
            offset: self.offset,
            size: self.size,
            addr: self.addr,
            disassembled: resp_views(self.disassembled@),
        }
    }
}

/// A named value from the symbol table.
#[derive(Debug)]
pub struct Symbol {
    pub name: String,
    pub value: u64,
}

/// The abstract value of a `Symbol`.
pub ghost struct SymbolView {
    pub name: Seq<char>,
    pub value: u64,
}

impl View for Symbol {
    type V = SymbolView;

    open spec fn view(&self) -> SymbolView {
        SymbolView { name: self.name@, value: self.value }
    }
}

/// A file to decode: its path, its code sections, its symbols, the index of the
/// section that holds the entry point, and whether it is 64-bit code.
#[derive(Debug)]
pub struct Executable {
    pub path: String,
    pub code: Vec<Section>,
    pub syms: Vec<Symbol>,
    pub entry: usize,
    pub is_64: bool,
}

/// The abstract value of an `Executable`.
pub ghost struct ExecutableView {
    pub path: Seq<char>,
    pub code: Seq<SectionView>,
    pub syms: Seq<SymbolView>,
    pub entry: usize,
    pub is_64: bool,
}

/// The abstract values of a sequence of sections.
pub open spec fn section_views(v: Seq<Section>) -> Seq<SectionView> {
    v.map_values(|s: Section| s@)
}

/// The abstract values of a sequence of symbols.
pub open spec fn symbol_views(v: Seq<Symbol>) -> Seq<SymbolView> {
    v.map_values(|s: Symbol| s@)
}

impl View for Executable {
    type V = ExecutableView;

    open spec fn view(&self) -> ExecutableView {
        ExecutableView {
            path: self.path@,
            code: section_views(self.code@),
            syms: symbol_views(self.syms@),
            entry: self.entry,
            is_64: self.is_64,
        }
    }
}

impl Clone for Section {
    fn clone(&self) -> (r: Self)
        ensures
            r@ == self@,
    {
        let d = self.disassembled.clone();
        assert(resp_views(d@) =~= resp_views(self.disassembled@));
        Section {
            name: self.name.clone(),
            offset: self.offset,
            size: self.size,
            addr: self.addr,
            disassembled: d,
        }
    }
}

impl Clone for Symbol {
    fn clone(&self) -> (r: Self)
        ensures
            r@ == self@,
    {
        Symbol { name: self.name.clone(), value: self.value }
    }
}

impl Clone for Executable {
    fn clone(&self) -> (r: Self)
        ensures
            r@ == self@,
    {
        let code = self.code.clone();
        assert(section_views(code@) =~= section_views(self.code@));
        let syms = self.syms.clone();
        assert(symbol_views(syms@) =~= symbol_views(self.syms@));
        Executable { path: self.path.clone(), code, syms, entry: self.entry, is_64: self.is_64 }
    }
}

/// The name of the one section of a file that is not read as an object file.
pub open spec fn arbitrary_name() -> Seq<char> {
    "arbitrary"@
}

/// A section with nothing decoded yet.
pub open spec fn fresh_section(name: Seq<char>, offset: usize, size: usize, addr: u64) -> SectionView {
    SectionView { name, offset, size, addr, disassembled: Seq::empty() }
}

// ---- ELF ----

/// `SectionHeader::is_executable` of goblin: the section is allocated and executable
/// (`SHF_ALLOC` and `SHF_EXECINSTR` in the low 32 bits of the flags).
pub open spec fn elf_executable(flags: u64) -> bool {
    (flags as u32) & 2u32 == 2u32 && (flags as u32) & 4u32 == 4u32
}

/// The code section made from an ELF section header.
pub open spec fn elf_section(s: ElfSectionView) -> SectionView {
    fresh_section(s.name.unwrap(), s.offset as usize, s.size as usize, s.addr)
}

/// The code sections of an ELF file: its executable sections, in order.
pub open spec fn elf_code(secs: Seq<ElfSectionView>) -> Seq<SectionView>
    decreases secs.len(),
{
    if secs.len() == 0 {
        Seq::empty()
    } else if elf_executable(secs.last().flags) {
        elf_code(secs.drop_last()).push(elf_section(secs.last()))
    } else {
        elf_code(secs.drop_last())
    }
}

/// The index among the code sections of the last executable section whose addresses
/// (end included) hold the entry point; 0 where none does.
pub open spec fn elf_entry(entry: u64, secs: Seq<ElfSectionView>) -> nat
    decreases secs.len(),
{
    if secs.len() == 0 {
        0
    } else {
        let s = secs.last();
        if elf_executable(s.flags) && s.addr <= entry && entry <= s.addr + s.size {
            elf_code(secs.drop_last()).len()
        } else {
            elf_entry(entry, secs.drop_last())
        }
    }
}

/// The symbols of an ELF file: those with a name offset other than 0, named by the
/// string table (an empty name where it has none).
pub open spec fn elf_symbols(syms: Seq<ElfSymbolView>) -> Seq<SymbolView>
    decreases syms.len(),
{
    if syms.len() == 0 {
        Seq::empty()
    } else {
        let prev = elf_symbols(syms.drop_last());
        let s = syms.last();
        if s.name_offset != 0 {
            prev.push(
                SymbolView {
                    name: match s.name {
                        Some(n) => n,
                        None => Seq::empty(),
                    },
                    value: s.value,
                },
            )
        } else {
            prev
        }
    }
}

/// Every executable section of an ELF file has a name, and its end address fits in
/// 64 bits.
pub open spec fn elf_readable(f: ElfFactsView) -> bool {
    forall|i: int|
        0 <= i < f.sections.len() && elf_executable(#[trigger] f.sections[i].flags) ==> f.sections[i].name
            is Some && f.sections[i].addr + f.sections[i].size <= u64::MAX
}

/// The entry section found is one of the code sections (or 0 where there is none).
pub proof fn lemma_elf_entry_in_code(entry: u64, secs: Seq<ElfSectionView>)
    ensures
        elf_entry(entry, secs) == 0 || elf_entry(entry, secs) < elf_code(secs).len(),
        elf_code(secs).len() <= secs.len(),
    decreases secs.len(),
{
    if secs.len() > 0 {
        lemma_elf_entry_in_code(entry, secs.drop_last());
    }
}

/// The executable made from an ELF file.
pub open spec fn elf_executable_view(path: Seq<char>, f: ElfFactsView) -> ExecutableView {
    ExecutableView {
        path,
        code: elf_code(f.sections),
        syms: elf_symbols(f.syms),
        entry: elf_entry(f.entry, f.sections) as usize,
        is_64: f.is_64,
    }
}

// ---- PE ----

/// The section holds code (`IMAGE_SCN_CNT_CODE`).
pub open spec fn pe_executable(characteristics: u32) -> bool {
    characteristics & 0x20u32 == 0x20u32
}

/// The code section made from a PE section table entry: its raw data starts at the file
/// offset `pointer_to_raw_data` and is `size_of_raw_data` bytes long.
pub open spec fn pe_section(s: PeSectionView, base: u64) -> SectionView {
    fresh_section(
        s.real_name.unwrap(),
        s.pointer_to_raw_data as usize,
        s.size_of_raw_data as usize,
        (s.virtual_address + base) as u64,
    )
}

/// The code sections of a PE file: its sections that hold code, in order.
pub open spec fn pe_code(secs: Seq<PeSectionView>, base: u64) -> Seq<SectionView>
    decreases secs.len(),
{
    if secs.len() == 0 {
        Seq::empty()
    } else if pe_executable(secs.last().characteristics) {
        pe_code(secs.drop_last(), base).push(pe_section(secs.last(), base))
    } else {
        pe_code(secs.drop_last(), base)
    }
}

/// The index among the code sections of the last one whose relative addresses (end
/// included) hold the entry point; 0 where none does.
pub open spec fn pe_entry(entry: u32, secs: Seq<PeSectionView>, base: u64) -> nat
    decreases secs.len(),
{
    if secs.len() == 0 {
        0
    } else {
        let s = secs.last();
        if pe_executable(s.characteristics) && s.virtual_address <= entry && entry
            <= s.virtual_address + s.virtual_size {
            pe_code(secs.drop_last(), base).len()
        } else {
            pe_entry(entry, secs.drop_last(), base)
        }
    }
}

/// Every section of a PE file that holds code has a name, its end address fits in 32
/// bits, and its load address in 64.
pub open spec fn pe_readable(f: PeFactsView) -> bool {
    forall|i: int|
        0 <= i < f.sections.len() && pe_executable(#[trigger] f.sections[i].characteristics)
            ==> f.sections[i].real_name is Some && f.sections[i].virtual_address
            + f.sections[i].virtual_size <= u32::MAX && f.sections[i].virtual_address
            + f.image_base <= u64::MAX
}

/// The entry section found is one of the code sections (or 0 where there is none).
pub proof fn lemma_pe_entry_in_code(entry: u32, secs: Seq<PeSectionView>, base: u64)
    ensures
        pe_entry(entry, secs, base) == 0 || pe_entry(entry, secs, base) < pe_code(secs, base).len(),
        pe_code(secs, base).len() <= secs.len(),
    decreases secs.len(),
{
    if secs.len() > 0 {
        lemma_pe_entry_in_code(entry, secs.drop_last(), base);
    }
}

/// The executable made from a PE file.
pub open spec fn pe_executable_view(path: Seq<char>, f: PeFactsView) -> ExecutableView {
    ExecutableView {
        path,
        code: pe_code(f.sections, f.image_base),
        syms: Seq::empty(),
        entry: pe_entry(f.entry, f.sections, f.image_base) as usize,
        is_64: f.is_64,
    }
}

/// The executable made from a file that is neither: one section, `arbitrary`, that is
/// empty until the command line says where the code is.
pub open spec fn other_executable_view(path: Seq<char>) -> ExecutableView {
    ExecutableView {
        path,
        code: seq![fresh_section(arbitrary_name(), 0, 0, 0)],
        syms: Seq::empty(),
        entry: 0,
        is_64: true,
    }
}

fn arbitrary_section(offset: usize, size: usize) -> (r: Section)
    ensures
        r@ == fresh_section(arbitrary_name(), offset, size, 0),
{
    let d: Vec<ParseResponse> = Vec::new();
    assert(resp_views(d@) =~= Seq::<ParseResponseView>::empty());
    Section { name: String::from_str("arbitrary"), offset, size, addr: 0, disassembled: d }
}

impl Section {
    /// The code section made from an executable ELF section header.
    pub fn from_elf(elf: &ElfSection, name: String) -> (r: Self)
        ensures
            r@ == fresh_section(name@, elf.offset as usize, elf.size as usize, elf.addr),
    {
        let d: Vec<ParseResponse> = Vec::new();
        assert(resp_views(d@) =~= Seq::<ParseResponseView>::empty());
        Section {
            name,
            offset: elf.offset as usize,
            size: elf.size as usize,
            addr: elf.addr,
            disassembled: d,
        }
    }

    /// The code section made from a PE section table entry (see `pe_section`).
    pub fn from_pe(pe: &PeSection, base: u64) -> (r: Self)
        requires
            pe@.real_name is Some,
            pe.virtual_address + base <= u64::MAX,
        ensures
            r@ == pe_section(pe@, base),
    {
        let name = match &pe.real_name {
            Some(n) => n.clone(),
            None => String::new(),
        };
        let d: Vec<ParseResponse> = Vec::new();
        assert(resp_views(d@) =~= Seq::<ParseResponseView>::empty());
        Section {
            name,
            offset: pe.pointer_to_raw_data as usize,
            size: pe.size_of_raw_data as usize,
            addr: pe.virtual_address as u64 + base,
            disassembled: d,
        }
    }

    /// The address of the byte at `rvaddr` within the section.
    pub fn abs_addr(&self, rvaddr: u64) -> (r: u64)
        requires
            self.addr + rvaddr <= u64::MAX,
        ensures
            r == self.addr + rvaddr,
    {
        self.addr + rvaddr
    }
}

/// The upper-case hexadecimal numeral of a value (`{:X}`).
pub open spec fn hex_text(v: u64) -> Seq<char> {
    digits(v as nat, 16, true)
}

/// `val` with the first symbol whose value, in upper-case hexadecimal, occurs in it
/// replaced by its name wherever it occurs; `val` itself where none occurs.
pub open spec fn symbol_replaced(syms: Seq<SymbolView>, val: Seq<char>) -> Seq<char>
    decreases syms.len(),
{
    if syms.len() == 0 {
        val
    } else if contains(val, hex_text(syms[0].value)) {
        replace_all(val, hex_text(syms[0].value), syms[0].name)
    } else {
        symbol_replaced(syms.drop_first(), val)
    }
}

impl Symbol {
    /// The same name and value.
    pub fn same_as(&self, other: &Symbol) -> (r: bool)
        ensures
            r == (self@ == other@),
    {
        let a = chars_of(self.name.as_str());
        let b = chars_of(other.name.as_str());
        let mut same = a.len() == b.len();
        let mut i: usize = 0;
        while same && i < a.len()
            invariant
                i <= a@.len(),
                same ==> a@.len() == b@.len() && a@.take(i as int) == b@.take(i as int),
                !same ==> a@ != b@,
            decreases a.len() - i,
        {
            if a[i] != b[i] {
                assert(a@[i as int] != b@[i as int]);
                same = false;
            } else {
                assert(a@.take(i + 1) == a@.take(i as int).push(a@[i as int]));
                assert(b@.take(i + 1) == b@.take(i as int).push(b@[i as int]));
            }
            i = i + 1;
        }
        if same {
            assert(a@ == a@.take(a@.len() as int));
            assert(b@ == b@.take(b@.len() as int));
        }
        same && self.value == other.value
    }

    /// `text` is a hexadecimal numeral (as `u64::from_str_radix` reads one) of the
    /// symbol's value.
    pub fn matches_hex(&self, text: &String) -> (r: bool)
        ensures
            r == (parse_unsigned(text@, 16, u64::MAX as nat) == Some(self.value as nat)),
    {
        let t = chars_of(text.as_str());
        match crate::text::parse_unsigned_of(t.as_slice(), 16, u64::MAX) {
            Some(v) => v == self.value,
            None => false,
        }
    }
}

impl Executable {
    /// The executable read from an ELF file's facts (see `elf_executable_view`).
    pub fn from_elf_facts(path: String, f: ElfFacts) -> (r: Self)
        requires
            elf_readable(f@),
        ensures
            r@ == elf_executable_view(path@, f@),
    {
        let mut syms: Vec<Symbol> = Vec::new();
        let mut i: usize = 0;
        while i < f.syms.len()
            invariant
                i <= f.syms@.len(),
                symbol_views(syms@) == elf_symbols(f@.syms.take(i as int)),
            decreases f.syms.len() - i,
        {
            let ghost prev = syms@;
            assert(f@.syms.take(i + 1).drop_last() == f@.syms.take(i as int));
            assert(f@.syms.take(i + 1).last() == f.syms@[i as int]@);
            let s = &f.syms[i];
            if s.name_offset != 0 {
                let name = match &s.name {
                    Some(n) => n.clone(),
                    None => String::new(),
                };
                syms.push(Symbol { name, value: s.value });
                assert(symbol_views(syms@) =~= symbol_views(prev).push(syms@.last()@));
            }
            i = i + 1;
        }
        assert(f@.syms.take(f@.syms.len() as int) == f@.syms);
        let mut code: Vec<Section> = Vec::new();
        let mut entry: usize = 0;
        let mut j: usize = 0;
        while j < f.sections.len()
            invariant
                j <= f.sections@.len(),
                elf_readable(f@),
                section_views(code@) == elf_code(f@.sections.take(j as int)),
                entry as nat == elf_entry(f.entry, f@.sections.take(j as int)),
                code@.len() <= j,
            decreases f.sections.len() - j,
        {
            let ghost prev = code@;
            let ghost t = f@.sections.take(j + 1);
            assert(t.drop_last() == f@.sections.take(j as int));
            assert(t.last() == f.sections@[j as int]@);
            let sec = &f.sections[j];
            let exec = (sec.flags as u32) & 2u32 == 2u32 && (sec.flags as u32) & 4u32 == 4u32;
            if exec {
                assert(f@.sections[j as int].flags == sec.flags);
                assert(elf_executable(f@.sections[j as int].flags));
                if f.entry >= sec.addr && f.entry <= sec.addr + sec.size {
                    entry = code.len();
                }
                let name = match &sec.name {
                    Some(n) => n.clone(),
                    None => String::new(),
                };
                code.push(Section::from_elf(sec, name));
                assert(section_views(code@) =~= section_views(prev).push(code@.last()@));
            }
            j = j + 1;
        }
        assert(f@.sections.take(f@.sections.len() as int) == f@.sections);
        Executable { path, code, syms, entry, is_64: f.is_64 }
    }

    /// The executable read from a PE file's facts (see `pe_executable_view`).
    pub fn from_pe_facts(path: String, f: PeFacts) -> (r: Self)
        requires
            pe_readable(f@),
        ensures
            r@ == pe_executable_view(path@, f@),
    {
        let mut code: Vec<Section> = Vec::new();
        let mut entry: usize = 0;
        let mut j: usize = 0;
        while j < f.sections.len()
            invariant
                j <= f.sections@.len(),
                pe_readable(f@),
                section_views(code@) == pe_code(f@.sections.take(j as int), f.image_base),
                entry as nat == pe_entry(f.entry, f@.sections.take(j as int), f.image_base),
                code@.len() <= j,
            decreases f.sections.len() - j,
        {
            let ghost prev = code@;
            let ghost t = f@.sections.take(j + 1);
            assert(t.drop_last() == f@.sections.take(j as int));
            assert(t.last() == f.sections@[j as int]@);
            let sec = &f.sections[j];
            if sec.characteristics & 0x20 == 0x20 {
                assert(f@.sections[j as int].characteristics == sec.characteristics);
                assert(pe_executable(f@.sections[j as int].characteristics));
                if f.entry >= sec.virtual_address && f.entry <= sec.virtual_address + sec.virtual_size {
                    entry = code.len();
                }
                code.push(Section::from_pe(sec, f.image_base));
                assert(section_views(code@) =~= section_views(prev).push(code@.last()@));
            }
            j = j + 1;
        }
        assert(f@.sections.take(f@.sections.len() as int) == f@.sections);
        let syms: Vec<Symbol> = Vec::new();
        assert(symbol_views(syms@) =~= Seq::<SymbolView>::empty());
        Executable { path, code, syms, entry, is_64: f.is_64 }
    }

    /// The executable for a file that is neither ELF nor PE (see `other_executable_view`).
    pub fn from_other(path: String) -> (r: Self)
        ensures
            r@ == other_executable_view(path@),
    {
        let mut code: Vec<Section> = Vec::new();
        code.push(arbitrary_section(0, 0));
        assert(section_views(code@) =~= seq![fresh_section(arbitrary_name(), 0, 0, 0)]);
        let syms: Vec<Symbol> = Vec::new();
        assert(symbol_views(syms@) =~= Seq::<SymbolView>::empty());
        Executable { path, code, syms, entry: 0, is_64: true }
    }

    /// The executable read from the contents `bytes` of the file at `path`: its code
    /// sections, symbols and entry section as an ELF or PE file, or one `arbitrary`
    /// section for any other file; `None` where a code section of the file has no
    /// name or its addresses do not fit.
    pub fn from_bytes(path: String, bytes: &[u8]) -> (r: Option<Self>)
        ensures
            match object_class_of(bytes@) {
                ObjectClass::Elf => if elf_readable(elf_facts_of(bytes@)) {
                    r matches Some(e) && e@ == elf_executable_view(path@, elf_facts_of(bytes@))
                } else {
                    r is None
                },
                ObjectClass::Pe => if pe_readable(pe_facts_of(bytes@)) {
                    r matches Some(e) && e@ == pe_executable_view(path@, pe_facts_of(bytes@))
                } else {
                    r is None
                },
                ObjectClass::Other => r matches Some(e) && e@ == other_executable_view(path@),
            },
    {
        match object_class(bytes) {
            ObjectClass::Elf => {
                let f = elf_facts(bytes);
                if elf_readable_exec(&f) {
                    Some(Self::from_elf_facts(path, f))
                } else {
                    None
                }
            },
            ObjectClass::Pe => {
                let f = pe_facts(bytes);
                if pe_readable_exec(&f) {
                    Some(Self::from_pe_facts(path, f))
                } else {
                    None
                }
            },
            ObjectClass::Other => Some(Self::from_other(path)),
        }
    }

    /// `val` with the first symbol whose value occurs in it, in upper-case
    /// hexadecimal, replaced by its name (see `symbol_replaced`).
    pub fn replace_symbol(&self, val: String) -> (r: String)
        ensures
            r@ == symbol_replaced(symbol_views(self.syms@), val@),
    {
        let v = chars_of(val.as_str());
        let mut i: usize = 0;
        assert(symbol_views(self.syms@).skip(0) == symbol_views(self.syms@));
        while i < self.syms.len()
            invariant
                i <= self.syms@.len(),
                v@ == val@,
                symbol_replaced(symbol_views(self.syms@), val@) == symbol_replaced(
                    symbol_views(self.syms@).skip(i as int),
                    val@,
                ),
            decreases self.syms.len() - i,
        {
            let ghost rest = symbol_views(self.syms@).skip(i as int);
            assert(rest[0] == self.syms@[i as int]@);
            assert(rest.drop_first() == symbol_views(self.syms@).skip(i + 1));
            let symstr = digits_of(self.syms[i].value, 16, true);
            if seq_contains(v.as_slice(), symstr.as_slice()) {
                let name = chars_of(self.syms[i].name.as_str());
                proof {
                    crate::text::lemma_digits_nonempty(self.syms@[i as int].value as nat, 16, true);
                }
                let out = replace_chars(v.as_slice(), symstr.as_slice(), name.as_slice());
                return string_of(out.as_slice());
            }
            i = i + 1;
        }
        val
    }
}

fn elf_readable_exec(f: &ElfFacts) -> (r: bool)
    ensures
        r == elf_readable(f@),
{
    let mut i: usize = 0;
    while i < f.sections.len()
        invariant
            i <= f.sections@.len(),
            forall|k: int|
                0 <= k < i && elf_executable(#[trigger] f@.sections[k].flags) ==> f@.sections[k].name
                    is Some && f@.sections[k].addr + f@.sections[k].size <= u64::MAX,
        decreases f.sections.len() - i,
    {
        let sec = &f.sections[i];
        assert(f@.sections[i as int] == sec@);
        let exec = (sec.flags as u32) & 2u32 == 2u32 && (sec.flags as u32) & 4u32 == 4u32;
        if exec {
            if sec.name.is_none() || sec.size > u64::MAX - sec.addr {
                assert(elf_executable(f@.sections[i as int].flags));
                return false;
            }
        }
        i = i + 1;
    }
    true
}

fn pe_readable_exec(f: &PeFacts) -> (r: bool)
    ensures
        r == pe_readable(f@),
{
    let mut i: usize = 0;
    while i < f.sections.len()
        invariant
            i <= f.sections@.len(),
            forall|k: int|
                0 <= k < i && pe_executable(#[trigger] f@.sections[k].characteristics)
                    ==> f@.sections[k].real_name is Some && f@.sections[k].virtual_address
                    + f@.sections[k].virtual_size <= u32::MAX && f@.sections[k].virtual_address
                    + f@.image_base <= u64::MAX,
        decreases f.sections.len() - i,
    {
        let sec = &f.sections[i];
        assert(f@.sections[i as int] == sec@);
        if sec.characteristics & 0x20 == 0x20 {
            if sec.real_name.is_none() || sec.virtual_size > u32::MAX - sec.virtual_address
                || f.image_base > u64::MAX - sec.virtual_address as u64 {
                assert(pe_executable(f@.sections[i as int].characteristics));
                return false;
            }
        }
        i = i + 1;
    }
    true
}

// ---------------------------------------------------------------------------
// The command line's say
// ---------------------------------------------------------------------------

/// The executable is the one `arbitrary` section of a file that is neither ELF nor PE.
pub open spec fn is_arbitrary(e: ExecutableView) -> bool {
    e.code.len() == 1 && e.code[0].name == arbitrary_name()
}

/// The command line decides where the code is: where `no-infer` is set, or the file
/// was not read as an object file.
pub open spec fn code_from_options(e: ExecutableView, opts: &Arguments) -> bool {
    opts.switch_of("no-infer"@) == Some(true) || is_arbitrary(e)
}

impl Executable {
    /// Where the command line decides where the code is (see `code_from_options`), the
    /// code is one `arbitrary` section at the `offset` and of the size `max` that it
    /// gives, and it is 64-bit code where its `size` is 64; otherwise nothing changes.
    pub fn resolve_opts(&mut self, opts: &mut Arguments)
        requires
            old(opts).wf(),
            old(opts).switch_of("no-infer"@) is Some,
            code_from_options(old(self)@, old(opts)) ==> {
                &&& old(opts).number_of("offset"@) is Some
                &&& old(opts).number_of("max"@) is Some
                &&& old(opts).number_of("size"@) is Some
            },
        ensures
            *final(opts) == *old(opts),
            code_from_options(old(self)@, old(opts)) ==> final(self)@ == (ExecutableView {
                code: seq![
                    fresh_section(
                        arbitrary_name(),
                        old(opts).number_of("offset"@).unwrap() as usize,
                        old(opts).number_of("max"@).unwrap() as usize,
                        0,
                    ),
                ],
                is_64: old(opts).number_of("size"@).unwrap() == 64,
                ..old(self)@
            }),
            !code_from_options(old(self)@, old(opts)) ==> *final(self) == *old(self),
    {
        let arbitrary = self.code.len() == 1 && crate::text::str_eq(
            self.code[0].name.as_str(),
            "arbitrary",
        );
        assert(arbitrary == is_arbitrary(self@)) by {
            if self.code@.len() == 1 {
                assert(self@.code[0] == self.code@[0]@);
            }
        }
        if opts.switch_value("no-infer") || arbitrary {
            let offset = opts.number_value("offset");
            let max = opts.number_value("max");
            let mut code: Vec<Section> = Vec::new();
            code.push(arbitrary_section(offset, max));
            assert(section_views(code@) =~= seq![fresh_section(arbitrary_name(), offset, max, 0)]);
            self.code = code;
            self.is_64 = opts.number_value("size") == 64;
        }
    }
}

impl Executable {
    /// Whether the command line says all that `resolve_opts` reads of it: whether
    /// `no-infer` is set and, where the command line decides where the code is, the
    /// numbers `offset`, `max` and `size`.
    pub fn can_resolve(&self, opts: &Arguments) -> (r: bool)
        requires
            opts.wf(),
        ensures
            r == (opts.switch_of("no-infer"@) is Some && (code_from_options(self@, opts) ==> {
                &&& opts.number_of("offset"@) is Some
                &&& opts.number_of("max"@) is Some
                &&& opts.number_of("size"@) is Some
            })),
    {
        if !opts.has_switch("no-infer") {
            return false;
        }
        let arbitrary = self.code.len() == 1 && crate::text::str_eq(
            self.code[0].name.as_str(),
            "arbitrary",
        );
        assert(arbitrary == is_arbitrary(self@)) by {
            if self.code@.len() == 1 {
                assert(self@.code[0] == self.code@[0]@);
            }
        }
        if opts.switch_value("no-infer") || arbitrary {
            opts.has_number("offset") && opts.has_number("max") && opts.has_number("size")
        } else {
            true
        }
    }
}

/// The settings of the interactive mode.
#[derive(Debug)]
pub struct InterOptions {
    pub tree: String,
    pub output: String,
    pub format: String,
    pub arch: String,
}

/// The state of the interactive mode: the file, the settings and the formatting.
#[derive(Debug)]
pub struct InterContext {
    pub source: Executable,
    pub opts: InterOptions,
    pub format: InstructionFormatting,
}

impl InterContext {
    /// The state of the interactive mode: a copy of the file, the `tree`, `output`,
    /// `format` and `arch` texts of the command line, and a copy of the formatting.
    pub fn build(exe: &Executable, opts: &mut Arguments, format: &InstructionFormatting) -> (r: Self)
        requires
            old(opts).wf(),
            old(opts).text_of("tree"@) is Some,
            old(opts).text_of("output"@) is Some,
            old(opts).text_of("format"@) is Some,
            old(opts).text_of("arch"@) is Some,
        ensures
            *final(opts) == *old(opts),
            r.source@ == exe@,
            r.opts.tree@ == old(opts).text_of("tree"@).unwrap(),
            r.opts.output@ == old(opts).text_of("output"@).unwrap(),
            r.opts.format@ == old(opts).text_of("format"@).unwrap(),
            r.opts.arch@ == old(opts).text_of("arch"@).unwrap(),
            same_formatting(&r.format, format),
    {
        InterContext {
            source: exe.clone(),
            opts: InterOptions {
                tree: opts.text_value("tree").clone(),
                output: opts.text_value("output").clone(),
                format: opts.text_value("format").clone(),
                arch: opts.text_value("arch").clone(),
            },
            format: format.clone(),
        }
    }
}

} // verus!
