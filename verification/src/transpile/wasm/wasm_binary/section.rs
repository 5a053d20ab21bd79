//! The sections of a WebAssembly module, each written as its id, its size and its payload.

use vstd::prelude::*;
use super::code::FunctionBody;
use super::leb128::{WriteLeb128, signed_leb128, unsigned_leb128};
use super::type_::{Type, type_bytes};

verus! {

pub enum Section {
    Type(TypeSection),
    Import(ImportSection),
    Function(FunctionSection),
    Memory(MemorySection),
    Export(ExportSection),
    Code(CodeSection),
}

pub struct TypeSection {
    types: Vec<Type>,
}

pub struct ImportSection {
    pub import_entries: Vec<ImportEntry>,
}

pub struct ImportEntry {
    module_str: String,
    field_str: String,
    import_type: ImportType,
}

enum ImportType {
    Function { type_: u32 },
}

#[derive(Debug, Clone, Copy, PartialEq, Eq, Structural)]
pub enum ExternalKind {
    Function,
    Memory,
}

pub struct FunctionSection {
    types: Vec<u32>,
}

pub struct MemorySection {
    entries: Vec<MemoryType>,
}

pub struct MemoryType {
    pub limits: ResizableLimits,
}

pub struct ResizableLimits {
    pub initial: u32,
    pub maximum: Option<u32>,
}

pub struct ExportSection {
    entries: Vec<ExportEntry>,
}

pub struct ExportEntry {
    pub field: String,
    pub kind: ExternalKind,
    pub index: u32,
}

pub struct CodeSection {
    function_bodies: Vec<FunctionBody>,
}

impl View for TypeSection {
    type V = Seq<Type>;

    closed spec fn view(&self) -> Seq<Type> {
        self.types@
    }
}

impl View for FunctionSection {
    type V = Seq<u32>;

    closed spec fn view(&self) -> Seq<u32> {
        self.types@
    }
}

impl View for MemorySection {
    type V = Seq<MemoryType>;

    closed spec fn view(&self) -> Seq<MemoryType> {
        self.entries@
    }
}

impl View for ExportSection {
    type V = Seq<ExportEntry>;

    closed spec fn view(&self) -> Seq<ExportEntry> {
        self.entries@
    }
}

impl View for CodeSection {
    type V = Seq<FunctionBody>;

    closed spec fn view(&self) -> Seq<FunctionBody> {
        self.function_bodies@
    }
}

/// The bytes of a text in UTF-8.
pub open spec fn text_bytes(s: Seq<char>) -> Seq<u8> {
    vstd::utf8::encode_utf8(s)
}

/// A count or length as the format writes it: cut to `u32`, in signed LEB128.
pub open spec fn count_bytes(n: int) -> Seq<u8> {
    signed_leb128((n as u32) as int)
}

/// A text as its length in bytes and its bytes.
pub open spec fn name_bytes(s: Seq<char>) -> Seq<u8> {
    count_bytes(text_bytes(s).len() as int) + text_bytes(s)
}

pub open spec fn kind_byte(k: ExternalKind) -> u8 {
    match k {
        ExternalKind::Function => 0,
        ExternalKind::Memory => 2,
    }
}

pub open spec fn types_bytes(ts: Seq<Type>) -> Seq<u8>
    decreases ts.len(),
{
    if ts.len() == 0 { Seq::empty() } else { types_bytes(ts.drop_last()) + type_bytes(ts.last()) }
}

pub closed spec fn import_entry_bytes(e: ImportEntry) -> Seq<u8> {
    name_bytes(e.module_str@) + name_bytes(e.field_str@) + match e.import_type {
        ImportType::Function { type_ } => seq![0u8] + signed_leb128(type_ as int),
    }
}

/// A type pushed last is written last, after the ones before it.
pub proof fn lemma_types_bytes_push(ts: Seq<Type>, ty: Type)
    ensures
        types_bytes(ts.push(ty)) == types_bytes(ts) + type_bytes(ty),
{
    assert(ts.push(ty).drop_last() =~= ts);
}

pub open spec fn import_entries_bytes(es: Seq<ImportEntry>) -> Seq<u8>
    decreases es.len(),
{
    if es.len() == 0 { Seq::empty() } else { import_entries_bytes(es.drop_last()) + import_entry_bytes(es.last()) }
}

pub open spec fn indices_bytes(xs: Seq<u32>) -> Seq<u8>
    decreases xs.len(),
{
    if xs.len() == 0 { Seq::empty() } else { indices_bytes(xs.drop_last()) + signed_leb128(xs.last() as int) }
}

/// Limits: whether there is a maximum, the initial size, and the maximum if any.
pub open spec fn limits_bytes(l: ResizableLimits) -> Seq<u8> {
    unsigned_leb128(if l.maximum is Some { 1 } else { 0 }) + signed_leb128(l.initial as int)
        + match l.maximum {
            Some(m) => signed_leb128(m as int),
            None => Seq::empty(),
        }
}

/// The encoding of limits starts with a flag byte that is 1 exactly when a maximum follows
/// the initial size, and 0 when only the initial size is written.
pub proof fn lemma_limits_flag(l: ResizableLimits)
    ensures
        limits_bytes(l).len() >= 2,
        limits_bytes(l)[0] == (if l.maximum is Some { 1u8 } else { 0u8 }),
        l.maximum is None ==> limits_bytes(l).skip(1) == signed_leb128(l.initial as int),
        l.maximum matches Some(m) ==> limits_bytes(l).skip(1) == signed_leb128(l.initial as int) + signed_leb128(m as int),
{
    let f: nat = if l.maximum is Some { 1 } else { 0 };
    assert(unsigned_leb128(f) == seq![f as u8]);
    let init = signed_leb128(l.initial as int);
    assert(init.len() >= 1);
    match l.maximum {
        Some(m) => {
            assert(limits_bytes(l) == seq![f as u8] + init + signed_leb128(m as int));
            assert(limits_bytes(l).skip(1) =~= init + signed_leb128(m as int));
        },
        None => {
            assert(limits_bytes(l) =~= seq![f as u8] + init);
            assert(limits_bytes(l).skip(1) =~= init);
        },
    }
}

pub open spec fn memory_types_bytes(ms: Seq<MemoryType>) -> Seq<u8>
    decreases ms.len(),
{
    if ms.len() == 0 { Seq::empty() } else { memory_types_bytes(ms.drop_last()) + limits_bytes(ms.last().limits) }
}

pub open spec fn export_entry_bytes(e: ExportEntry) -> Seq<u8> {
    name_bytes(e.field@) + seq![kind_byte(e.kind)] + signed_leb128(e.index as int)
}

pub open spec fn export_entries_bytes(es: Seq<ExportEntry>) -> Seq<u8>
    decreases es.len(),
{
    if es.len() == 0 { Seq::empty() } else { export_entries_bytes(es.drop_last()) + export_entry_bytes(es.last()) }
}

pub open spec fn bodies_bytes(bs: Seq<FunctionBody>) -> Seq<u8>
    decreases bs.len(),
{
    if bs.len() == 0 { Seq::empty() } else { bodies_bytes(bs.drop_last()) + bs.last().bytes@ }
}

/// A type section: the number of types, then each type in the order they were pushed.
pub open spec fn type_section_bytes(s: TypeSection) -> Seq<u8> {
    count_bytes(s@.len() as int) + types_bytes(s@)
}

pub open spec fn import_section_bytes(s: ImportSection) -> Seq<u8> {
    count_bytes(s.import_entries@.len() as int) + import_entries_bytes(s.import_entries@)
}

pub open spec fn function_section_bytes(s: FunctionSection) -> Seq<u8> {
    count_bytes(s@.len() as int) + indices_bytes(s@)
}

pub open spec fn memory_section_bytes(s: MemorySection) -> Seq<u8> {
    count_bytes(s@.len() as int) + memory_types_bytes(s@)
}

pub open spec fn export_section_bytes(s: ExportSection) -> Seq<u8> {
    count_bytes(s@.len() as int) + export_entries_bytes(s@)
}

pub open spec fn code_section_bytes(s: CodeSection) -> Seq<u8> {
    count_bytes(s@.len() as int) + bodies_bytes(s@)
}

pub open spec fn section_id_of(s: Section) -> u8 {
    match s {
        Section::Type(_) => 1,
        Section::Import(_) => 2,
        Section::Function(_) => 3,
        Section::Memory(_) => 5,
        Section::Export(_) => 7,
        Section::Code(_) => 10,
    }
}

pub open spec fn payload_bytes(s: Section) -> Seq<u8> {
    match s {
        Section::Type(t) => type_section_bytes(t),
        Section::Import(i) => import_section_bytes(i),
        Section::Function(f) => function_section_bytes(f),
        Section::Memory(m) => memory_section_bytes(m),
        Section::Export(e) => export_section_bytes(e),
        Section::Code(c) => code_section_bytes(c),
    }
}

/// A section: its id, the size of its payload, and the payload.
pub open spec fn section_bytes(s: Section) -> Seq<u8> {
    unsigned_leb128(section_id_of(s) as nat) + count_bytes(payload_bytes(s).len() as int) + payload_bytes(s)
}

/// A section starts with the byte that names its kind (1 for types, 2 for imports, 3 for
/// functions, 5 for memories, 7 for exports, 10 for code), followed by the size of its payload
/// and the payload itself.
pub proof fn lemma_section_layout(s: Section)
    ensures
        section_bytes(s)[0] == match s {
            Section::Type(_) => 1u8,
            Section::Import(_) => 2u8,
            Section::Function(_) => 3u8,
            Section::Memory(_) => 5u8,
            Section::Export(_) => 7u8,
            Section::Code(_) => 10u8,
        },
        section_bytes(s) == seq![section_bytes(s)[0]] + count_bytes(payload_bytes(s).len() as int) + payload_bytes(s),
{
    let id = section_id_of(s);
    assert(unsigned_leb128(id as nat) == seq![id]);
    assert(section_bytes(s) =~= seq![id] + count_bytes(payload_bytes(s).len() as int) + payload_bytes(s));
}

fn write_count(w: &mut Vec<u8>, n: usize)
    ensures
        final(w)@ == old(w)@ + count_bytes(n as int),
{
    let count = n as u32;
    count.write_leb128(w);
}

fn write_all(w: &mut Vec<u8>, bytes: &[u8])
    ensures
        final(w)@ == old(w)@ + bytes@,
{
    let ghost start = w@;
    let mut i: usize = 0;
    while i < bytes.len()
        invariant
            i <= bytes@.len(),
            w@ == start + bytes@.take(i as int),
        decreases bytes@.len() - i,
    {
        w.push(bytes[i]);
        i = i + 1;
        assert(w@ =~= start + bytes@.take(i as int));
    }
    assert(bytes@.take(bytes@.len() as int) =~= bytes@);
}

fn write_name(w: &mut Vec<u8>, s: &String)
    ensures
        final(w)@ == old(w)@ + name_bytes(s@),
{
    let text = s.as_str();
    let bytes = text.as_bytes();
    let n = bytes.len();
    assert(bytes@ == text_bytes(s@));
    assert(n == bytes@.len());
    write_count(w, n);
    write_all(w, bytes);
}

impl Section {
    fn section_id(&self) -> (r: u8)
        ensures
            r == section_id_of(*self),
    {
        match self {
            Section::Type(_) => 1,
            Section::Import(_) => 2,
            Section::Function(_) => 3,
            Section::Memory(_) => 5,
            Section::Export(_) => 7,
            Section::Code(_) => 10,
        }
    }

    pub fn write(&self, w: &mut Vec<u8>)
        ensures
            final(w)@ == old(w)@ + section_bytes(*self),
    {
        let section_id = self.section_id();
        section_id.write_leb128(w);
        let mut payload: Vec<u8> = Vec::new();
        match self {
            Section::Type(type_section) => type_section.write(&mut payload),
            Section::Import(import_section) => import_section.write(&mut payload),
            Section::Function(function_section) => function_section.write(&mut payload),
            Section::Memory(memory_section) => memory_section.write(&mut payload),
            Section::Export(export_section) => export_section.write(&mut payload),
            Section::Code(code_section) => code_section.write(&mut payload),
        }
        assert(payload@ =~= payload_bytes(*self));
        write_count(w, payload.len());
        write_all(w, payload.as_slice());
        assert(w@ =~= old(w)@ + section_bytes(*self));
    }
}

impl TypeSection {
    pub fn new() -> (r: Self)
        ensures
            r@.len() == 0,
    {
        Self { types: Vec::new() }
    }

    /// Adds a type; returns its index.
    pub fn push(&mut self, ty: Type) -> (r: usize)
        requires
            old(self)@.len() < usize::MAX,
        ensures
            final(self)@ == old(self)@.push(ty),
            r == old(self)@.len(),
    {
        self.types.push(ty);
        self.types.len() - 1
    }

    pub fn write(&self, w: &mut Vec<u8>)
        ensures
            final(w)@ == old(w)@ + type_section_bytes(*self),
    {
        write_count(w, self.types.len());
        let ghost mid = w@;
        let mut i: usize = 0;
        assert(self.types@.take(0) =~= Seq::<Type>::empty());
        assert(mid + types_bytes(self.types@.take(0)) =~= mid);
        while i < self.types.len()
            invariant
                i <= self.types@.len(),
                w@ == mid + types_bytes(self.types@.take(i as int)),
            decreases self.types@.len() - i,
        {
            self.types[i].write(w);
            proof {
                assert(self.types@.take(i + 1).drop_last() =~= self.types@.take(i as int));
                assert(self.types@.take(i + 1).last() == self.types@[i as int]);
            }
            i = i + 1;
            assert(w@ =~= mid + types_bytes(self.types@.take(i as int)));
        }
        assert(self.types@.take(self.types@.len() as int) =~= self.types@);
        assert(w@ =~= old(w)@ + type_section_bytes(*self));
    }
}

impl ImportSection {
    pub fn new() -> (r: Self)
        ensures
            r.import_entries@.len() == 0,
    {
        Self { import_entries: Vec::new() }
    }

    pub fn push(&mut self, entry: ImportEntry)
        ensures
            final(self).import_entries@ == old(self).import_entries@.push(entry),
    {
        self.import_entries.push(entry);
    }

    fn write(&self, w: &mut Vec<u8>)
        ensures
            final(w)@ == old(w)@ + import_section_bytes(*self),
    {
        write_count(w, self.import_entries.len());
        let ghost mid = w@;
        let mut i: usize = 0;
        assert(self.import_entries@.take(0) =~= Seq::<ImportEntry>::empty());
        assert(mid + import_entries_bytes(self.import_entries@.take(0)) =~= mid);
        while i < self.import_entries.len()
            invariant
                i <= self.import_entries@.len(),
                w@ == mid + import_entries_bytes(self.import_entries@.take(i as int)),
            decreases self.import_entries@.len() - i,
        {
            self.import_entries[i].write(w);
            proof {
                assert(self.import_entries@.take(i + 1).drop_last() =~= self.import_entries@.take(i as int));
                assert(self.import_entries@.take(i + 1).last() == self.import_entries@[i as int]);
            }
            i = i + 1;
            assert(w@ =~= mid + import_entries_bytes(self.import_entries@.take(i as int)));
        }
        assert(self.import_entries@.take(self.import_entries@.len() as int) =~= self.import_entries@);
    }
}

impl ImportEntry {
    /// The import of a function of the given type from `module`, under the name `field`.
    pub fn function(module: String, field: String, index: u32) -> (r: Self)
        ensures
            import_entry_bytes(r) == name_bytes(module@) + name_bytes(field@) + seq![0u8] + signed_leb128(index as int),
    {
        let r = Self { module_str: module, field_str: field, import_type: ImportType::Function { type_: index } };
        assert(import_entry_bytes(r) =~= name_bytes(module@) + name_bytes(field@) + seq![0u8] + signed_leb128(index as int));
        r
    }

    fn write(&self, w: &mut Vec<u8>)
        ensures
            final(w)@ == old(w)@ + import_entry_bytes(*self),
    {
        write_name(w, &self.module_str);
        write_name(w, &self.field_str);
        self.import_type.write(w);
        assert(w@ =~= old(w)@ + import_entry_bytes(*self));
    }
}

impl ImportType {
    fn kind(&self) -> (r: ExternalKind)
        ensures
            r == ExternalKind::Function,
    {
        match self {
            ImportType::Function { .. } => ExternalKind::Function,
        }
    }

    fn write(&self, w: &mut Vec<u8>)
        ensures
            final(w)@ == old(w)@ + match *self {
                ImportType::Function { type_ } => seq![0u8] + signed_leb128(type_ as int),
            },
    {
        let import_kind = self.kind().as_byte();
        w.push(import_kind);
        match self {
            ImportType::Function { type_ } => type_.write_leb128(w),
        }
        assert(w@ =~= old(w)@ + match *self {
            ImportType::Function { type_ } => seq![0u8] + signed_leb128(type_ as int),
        });
    }
}

impl ExternalKind {
    /// The byte that stands for the kind.
    pub fn as_byte(&self) -> (r: u8)
        ensures
            r == kind_byte(*self),
    {
        match self {
            ExternalKind::Function => 0,
            ExternalKind::Memory => 2,
        }
    }
}

impl FunctionSection {
    pub fn new() -> (r: Self)
        ensures
            r@.len() == 0,
    {
        Self { types: Vec::new() }
    }

    /// Adds the type index of a function; returns the function's index.
    pub fn push(&mut self, index: u32) -> (r: usize)
        requires
            old(self)@.len() < usize::MAX,
        ensures
            final(self)@ == old(self)@.push(index),
            r == old(self)@.len(),
    {
        self.types.push(index);
        self.types.len() - 1
    }

    fn write(&self, w: &mut Vec<u8>)
        ensures
            final(w)@ == old(w)@ + function_section_bytes(*self),
    {
        write_count(w, self.types.len());
        let ghost mid = w@;
        let mut i: usize = 0;
        assert(self.types@.take(0) =~= Seq::<u32>::empty());
        assert(mid + indices_bytes(self.types@.take(0)) =~= mid);
        while i < self.types.len()
            invariant
                i <= self.types@.len(),
                w@ == mid + indices_bytes(self.types@.take(i as int)),
            decreases self.types@.len() - i,
        {
            self.types[i].write_leb128(w);
            proof {
                assert(self.types@.take(i + 1).drop_last() =~= self.types@.take(i as int));
                assert(self.types@.take(i + 1).last() == self.types@[i as int]);
            }
            i = i + 1;
            assert(w@ =~= mid + indices_bytes(self.types@.take(i as int)));
        }
        assert(self.types@.take(self.types@.len() as int) =~= self.types@);
        assert(w@ =~= old(w)@ + function_section_bytes(*self));
    }
}

impl MemorySection {
    pub fn new() -> (r: Self)
        ensures
            r@.len() == 0,
    {
        Self { entries: Vec::new() }
    }

    /// Adds a memory; returns its index.
    pub fn push(&mut self, memory_type: MemoryType) -> (r: usize)
        requires
            old(self)@.len() < usize::MAX,
        ensures
            final(self)@ == old(self)@.push(memory_type),
            r == old(self)@.len(),
    {
        self.entries.push(memory_type);
        self.entries.len() - 1
    }

    fn write(&self, w: &mut Vec<u8>)
        ensures
            final(w)@ == old(w)@ + memory_section_bytes(*self),
    {
        write_count(w, self.entries.len());
        let ghost mid = w@;
        let mut i: usize = 0;
        assert(self.entries@.take(0) =~= Seq::<MemoryType>::empty());
        assert(mid + memory_types_bytes(self.entries@.take(0)) =~= mid);
        while i < self.entries.len()
            invariant
                i <= self.entries@.len(),
                w@ == mid + memory_types_bytes(self.entries@.take(i as int)),
            decreases self.entries@.len() - i,
        {
            self.entries[i].write(w);
            proof {
                assert(self.entries@.take(i + 1).drop_last() =~= self.entries@.take(i as int));
                assert(self.entries@.take(i + 1).last() == self.entries@[i as int]);
            }
            i = i + 1;
            assert(w@ =~= mid + memory_types_bytes(self.entries@.take(i as int)));
        }
        assert(self.entries@.take(self.entries@.len() as int) =~= self.entries@);
        assert(w@ =~= old(w)@ + memory_section_bytes(*self));
    }
}

impl MemoryType {
    fn write(&self, w: &mut Vec<u8>)
        ensures
            final(w)@ == old(w)@ + limits_bytes(self.limits),
    {
        self.limits.write(w)
    }
}

impl ResizableLimits {
    fn write(&self, w: &mut Vec<u8>)
        ensures
            final(w)@ == old(w)@ + limits_bytes(*self),
    {
        let flags = self.maximum.is_some();
        flags.write_leb128(w);
        self.initial.write_leb128(w);
        if let Some(maximum) = &self.maximum {
            maximum.write_leb128(w);
        }
        assert(w@ =~= old(w)@ + limits_bytes(*self));
    }
}

impl ExportSection {
    pub fn new() -> (r: Self)
        ensures
            r@.len() == 0,
    {
        Self { entries: Vec::new() }
    }

    pub fn push(&mut self, entry: ExportEntry)
        ensures
            final(self)@ == old(self)@.push(entry),
    {
        self.entries.push(entry)
    }

    fn write(&self, w: &mut Vec<u8>)
        ensures
            final(w)@ == old(w)@ + export_section_bytes(*self),
    {
        write_count(w, self.entries.len());
        let ghost mid = w@;
        let mut i: usize = 0;
        assert(self.entries@.take(0) =~= Seq::<ExportEntry>::empty());
        assert(mid + export_entries_bytes(self.entries@.take(0)) =~= mid);
        while i < self.entries.len()
            invariant
                i <= self.entries@.len(),
                w@ == mid + export_entries_bytes(self.entries@.take(i as int)),
            decreases self.entries@.len() - i,
        {
            self.entries[i].write(w);
            proof {
                assert(self.entries@.take(i + 1).drop_last() =~= self.entries@.take(i as int));
                assert(self.entries@.take(i + 1).last() == self.entries@[i as int]);
            }
            i = i + 1;
            assert(w@ =~= mid + export_entries_bytes(self.entries@.take(i as int)));
        }
        assert(self.entries@.take(self.entries@.len() as int) =~= self.entries@);
        assert(w@ =~= old(w)@ + export_section_bytes(*self));
    }
}

impl ExportEntry {
    fn write(&self, w: &mut Vec<u8>)
        ensures
            final(w)@ == old(w)@ + export_entry_bytes(*self),
    {
        write_name(w, &self.field);
        w.push(self.kind.as_byte());
        self.index.write_leb128(w);
        assert(w@ =~= old(w)@ + export_entry_bytes(*self));
    }
}

impl CodeSection {
    pub fn new() -> (r: Self)
        ensures
            r@.len() == 0,
    {
        Self { function_bodies: Vec::new() }
    }

    pub fn push(&mut self, function_body: FunctionBody)
        ensures
            final(self)@ == old(self)@.push(function_body),
    {
        self.function_bodies.push(function_body)
    }

    fn write(&self, w: &mut Vec<u8>)
        ensures
            final(w)@ == old(w)@ + code_section_bytes(*self),
    {
        write_count(w, self.function_bodies.len());
        let ghost mid = w@;
        let mut i: usize = 0;
        assert(self.function_bodies@.take(0) =~= Seq::<FunctionBody>::empty());
        assert(mid + bodies_bytes(self.function_bodies@.take(0)) =~= mid);
        while i < self.function_bodies.len()
            invariant
                i <= self.function_bodies@.len(),
                w@ == mid + bodies_bytes(self.function_bodies@.take(i as int)),
            decreases self.function_bodies@.len() - i,
        {
            self.function_bodies[i].write(w);
            proof {
                assert(self.function_bodies@.take(i + 1).drop_last() =~= self.function_bodies@.take(i as int));
                assert(self.function_bodies@.take(i + 1).last() == self.function_bodies@[i as int]);
            }
            i = i + 1;
            assert(w@ =~= mid + bodies_bytes(self.function_bodies@.take(i as int)));
        }
        assert(self.function_bodies@.take(self.function_bodies@.len() as int) =~= self.function_bodies@);
        assert(w@ =~= old(w)@ + code_section_bytes(*self));
    }
}

} // verus!
