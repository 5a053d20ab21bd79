use bf::transpile::wasm::wasm_binary::code::FunctionBody;
use bf::transpile::wasm::wasm_binary::leb128::{write_signed, write_unsigned, WriteLeb128};
use bf::transpile::wasm::wasm_binary::section::{
    CodeSection, ExportEntry, ExportSection, ExternalKind, FunctionSection, ImportEntry, ImportSection, MemorySection,
    MemoryType, ResizableLimits, Section, TypeSection,
};
use bf::transpile::wasm::wasm_binary::type_::{FuncSignature, Type, ValueType};

fn bytes(f: impl FnOnce(&mut Vec<u8>)) -> Vec<u8> {
    let mut w = Vec::new();
    f(&mut w);
    w
}

#[test]
fn unsigned_leb128_of_known_values() {
    assert_eq!(bytes(|w| write_unsigned(w, 0)), vec![0x00]);
    assert_eq!(bytes(|w| write_unsigned(w, 127)), vec![0x7f]);
    assert_eq!(bytes(|w| write_unsigned(w, 128)), vec![0x80, 0x01]);
    assert_eq!(bytes(|w| write_unsigned(w, 624485)), vec![0xe5, 0x8e, 0x26]);
}

#[test]
fn signed_leb128_of_known_values() {
    assert_eq!(bytes(|w| write_signed(w, 0)), vec![0x00]);
    assert_eq!(bytes(|w| write_signed(w, 63)), vec![0x3f]);
    assert_eq!(bytes(|w| write_signed(w, 64)), vec![0xc0, 0x00]);
    assert_eq!(bytes(|w| write_signed(w, -1)), vec![0x7f]);
    assert_eq!(bytes(|w| write_signed(w, -64)), vec![0x40]);
    assert_eq!(bytes(|w| write_signed(w, -65)), vec![0xbf, 0x7f]);
    assert_eq!(bytes(|w| write_signed(w, -123456)), vec![0xc0, 0xbb, 0x78]);
    assert_eq!(bytes(|w| write_signed(w, i64::MIN)), vec![0x80, 0x80, 0x80, 0x80, 0x80, 0x80, 0x80, 0x80, 0x80, 0x7f]);
}

#[test]
fn leb128_by_type() {
    assert_eq!(bytes(|w| true.write_leb128(w)), vec![1]);
    assert_eq!(bytes(|w| false.write_leb128(w)), vec![0]);
    assert_eq!(bytes(|w| (-1i8).write_leb128(w)), vec![0x7f]);
    assert_eq!(bytes(|w| 200u8.write_leb128(w)), vec![0xc8, 0x01]);
    assert_eq!(bytes(|w| 128u32.write_leb128(w)), vec![0x80, 0x01]);
    assert_eq!(bytes(|w| (-0x20i32).write_leb128(w)), vec![0x60]);
}

#[test]
fn types_are_written_by_code() {
    assert_eq!(bytes(|w| ValueType::I32.write(w)), vec![0x7f]);
    assert_eq!(bytes(|w| ValueType::Void.write(w)), vec![0x40]);
    let signature = FuncSignature { params: vec![ValueType::I32], result: None };
    assert_eq!(bytes(|w| signature.write(w)), vec![0x60, 0x01, 0x7f, 0x00]);
    let with_result = Type::Func(FuncSignature { params: vec![], result: Some(ValueType::I32) });
    assert_eq!(bytes(|w| with_result.write(w)), vec![0x60, 0x00, 0x01, 0x7f]);
}

#[test]
fn sections_carry_id_size_and_payload() {
    let mut types = TypeSection::new();
    assert_eq!(types.push(Type::Func(FuncSignature { params: vec![ValueType::I32], result: None })), 0);
    assert_eq!(bytes(|w| Section::Type(types).write(w)), vec![1, 5, 1, 0x60, 0x01, 0x7f, 0x00]);

    let mut imports = ImportSection::new();
    imports.push(ImportEntry::function("env".to_string(), "putchar".to_string(), 0));
    let mut expected = vec![2, 15, 1, 3];
    expected.extend_from_slice(b"env");
    expected.push(7);
    expected.extend_from_slice(b"putchar");
    expected.extend_from_slice(&[0, 0]);
    assert_eq!(bytes(|w| Section::Import(imports).write(w)), expected);

    let mut functions = FunctionSection::new();
    assert_eq!(functions.push(0), 0);
    assert_eq!(functions.push(1), 1);
    assert_eq!(bytes(|w| Section::Function(functions).write(w)), vec![3, 3, 2, 0, 1]);

    let mut memories = MemorySection::new();
    memories.push(MemoryType { limits: ResizableLimits { initial: 1, maximum: Some(2) } });
    assert_eq!(bytes(|w| Section::Memory(memories).write(w)), vec![5, 4, 1, 1, 1, 2]);

    let mut exports = ExportSection::new();
    exports.push(ExportEntry { field: "main".to_string(), kind: ExternalKind::Function, index: 1 });
    exports.push(ExportEntry { field: "m".to_string(), kind: ExternalKind::Memory, index: 0 });
    let mut expected = vec![7, 12, 2, 4];
    expected.extend_from_slice(b"main");
    expected.extend_from_slice(&[0, 1, 1]);
    expected.extend_from_slice(b"m");
    expected.extend_from_slice(&[2, 0]);
    assert_eq!(bytes(|w| Section::Export(exports).write(w)), expected);

    let mut code = CodeSection::new();
    code.push(FunctionBody { bytes: vec![2, 0, 0x0b] });
    assert_eq!(bytes(|w| Section::Code(code).write(w)), vec![10, 4, 1, 2, 0, 0x0b]);
}

#[test]
fn type_section_writes_types_in_push_order() {
    let mut section = TypeSection::new();
    assert_eq!(section.push(Type::Value(ValueType::I32)), 0);
    assert_eq!(section.push(Type::Value(ValueType::Void)), 1);
    let mut w = Vec::new();
    section.write(&mut w);
    let mut expected = vec![2u8];
    Type::Value(ValueType::I32).write(&mut expected);
    Type::Value(ValueType::Void).write(&mut expected);
    assert_eq!(w, expected);
}
