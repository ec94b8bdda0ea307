use stackscope::ege::dwarf_cfi::fde_offsets_of;
use stackscope::ege::cfg_builder::{
    DecodedInsn, call_targets, known_call_count, operand_call_target, parse_radix16_u64, wire_calls,
};
use stackscope::ege::dwarf_cfi::{apply_call_frame_info, apply_frame_size, fde_address, frame_size_from_cfa};
use stackscope::ege::elf_parser::{ElfSymbol, EgeError, build_symbol_graph, count_function_symbols, load_elf};
use stackscope::sdt::abstract_interpreter::WcsdEngine;
use stackscope::types::ExecutionGraph;
use object::write::{Object, Symbol, SymbolSection};
use object::{Architecture, BinaryFormat, Endianness, SectionKind, SymbolFlags, SymbolKind, SymbolScope};

fn sym(is_text: bool, address: u64, name: Option<&str>, size: u64) -> ElfSymbol {
    ElfSymbol { is_text, address, name: name.map(|n| n.to_string()), size }
}

#[test]
fn symbols_become_functions() {
    let syms = vec![
        sym(true, 0x8001, Some("main"), 12),
        sym(false, 0x9000, Some("data"), 4),
        sym(true, 0, Some("undefined"), 0),
        sym(true, 0x8010, None, 8),
        sym(true, 0x8020, Some("alias"), 2),
        sym(true, 0x8021, Some("alias2"), 6),
    ];
    assert_eq!(count_function_symbols(&syms), 4);
    let eg = build_symbol_graph(&syms);
    assert_eq!(eg.graph.node_count(), 4);
    assert_eq!(eg.graph.edge_count(), 0);
    let main = &eg.graph[petgraph::graph::NodeIndex::new(0)];
    assert_eq!(main.physical_address, 0x8000);
    assert_eq!(main.symbol_name, "main");
    assert_eq!(main.symbol_size_bytes, 12);
    assert_eq!(main.physical_frame_size_bytes, 0);
    assert_eq!(eg.graph[petgraph::graph::NodeIndex::new(1)].symbol_name, "<stripped>");
    assert_eq!(eg.address_map.get(&0x8000), Some(&0));
    assert_eq!(eg.address_map.get(&0x8010), Some(&1));
    // The later symbol at an address wins the address map.
    assert_eq!(eg.address_map.get(&0x8020), Some(&3));
    assert_eq!(eg.address_map.len(), 3);
}

#[test]
fn frame_size_is_the_deepest_cfa_offset() {
    assert_eq!(frame_size_from_cfa(&vec![]), 0);
    assert_eq!(frame_size_from_cfa(&vec![Some(0), Some(8), None, Some(24), Some(16)]), 24);
    assert_eq!(frame_size_from_cfa(&vec![Some(-8), None]), 0);
}

#[test]
fn fde_addresses_are_32_bit_and_even() {
    assert_eq!(fde_address(0x8001), 0x8000);
    assert_eq!(fde_address(0x1_0000_8003), 0x8002);
    assert_eq!(fde_address(0x8000), 0x8000);
}

#[test]
fn frame_size_goes_to_the_known_function() {
    let mut eg = build_symbol_graph(&vec![sym(true, 0x8000, Some("main"), 4)]);
    apply_frame_size(&mut eg, 0x8000, 40);
    apply_frame_size(&mut eg, 0x9000, 80);
    assert_eq!(eg.graph[petgraph::graph::NodeIndex::new(0)].physical_frame_size_bytes, 40);
}

#[test]
fn call_operands_are_read_as_hex() {
    assert_eq!(operand_call_target(b"#0x8028"), Some(0x8028));
    assert_eq!(operand_call_target(b"#0x8029"), Some(0x8028));
    assert_eq!(operand_call_target(b"##0x0x1F"), Some(0x1e));
    assert_eq!(operand_call_target(b"+ff"), Some(0xfe));
    assert_eq!(operand_call_target(b"#0x"), None);
    assert_eq!(operand_call_target(b""), None);
    assert_eq!(operand_call_target(b"r3"), None);
    assert_eq!(operand_call_target(b"#-0x10"), None);
    assert_eq!(operand_call_target(b"#0xffffffffffffffff"), Some(0xffff_ffff_ffff_fffe));
    assert_eq!(operand_call_target(b"#0x10000000000000000"), None);
}

fn insn(m: &str, op: Option<&str>) -> DecodedInsn {
    DecodedInsn { mnemonic: Some(m.as_bytes().to_vec()), op_str: op.map(|o| o.as_bytes().to_vec()) }
}

#[test]
fn only_bl_and_blx_are_calls() {
    let insns = vec![
        insn("push", Some("{r7, lr}")),
        insn("bl", Some("#0x8028")),
        insn("b", Some("#0x8040")),
        insn("blx", Some("#0x8101")),
        insn("blx", Some("r3")),
        DecodedInsn { mnemonic: None, op_str: Some(b"#0x10".to_vec()) },
        insn("bl", None),
        insn("pop", Some("{r7, pc}")),
    ];
    assert_eq!(call_targets(&insns), vec![0x8028, 0x8100]);
}

#[test]
fn calls_to_known_functions_become_edges() {
    let mut eg = build_symbol_graph(&vec![sym(true, 0x8000, Some("main"), 4), sym(true, 0x8010, Some("f"), 4)]);
    wire_calls(&mut eg, 0, &vec![0x8010, 0x7000, 0x8000]);
    assert_eq!(eg.graph.edge_count(), 2);
    let r = WcsdEngine::analyze(&eg, 0, 10);
    assert!(r.is_unbounded);
}

fn uleb(mut v: u64, out: &mut Vec<u8>) {
    loop {
        let b = (v & 0x7f) as u8;
        v >>= 7;
        if v == 0 {
            out.push(b);
            break;
        }
        out.push(b | 0x80);
    }
}

fn entry(body: Vec<u8>) -> Vec<u8> {
    let mut body = body;
    while body.len() % 8 != 0 {
        body.push(0); // DW_CFA_nop
    }
    let mut e = (body.len() as u32).to_le_bytes().to_vec();
    e.extend(body);
    e
}

fn cie() -> Vec<u8> {
    let mut b = 0xffff_ffffu32.to_le_bytes().to_vec();
    b.extend([1, 0, 2, 0x7c, 14, 0x0c, 13, 0]);
    entry(b)
}

fn fde(address: u64, offsets: &[u64]) -> Vec<u8> {
    let mut b = 0u32.to_le_bytes().to_vec();
    b.extend(address.to_le_bytes());
    b.extend(16u64.to_le_bytes());
    for &o in offsets {
        b.push(0x41); // DW_CFA_advance_loc 1
        b.push(0x0e); // DW_CFA_def_cfa_offset
        uleb(o, &mut b);
    }
    entry(b)
}

fn debug_frame(fdes: &[(u64, &[u64])]) -> Vec<u8> {
    let mut s = cie();
    for (a, o) in fdes {
        s.extend(fde(*a, o));
    }
    s
}

#[test]
fn call_frame_info_sets_frame_sizes() {
    let mut eg = build_symbol_graph(&vec![sym(true, 0x8000, Some("main"), 4), sym(true, 0x8010, Some("f"), 4)]);
    let section = debug_frame(&[(0x8001, &[8, 24, 16]), (0x8010, &[40]), (0x9000, &[64])]);
    assert!(apply_call_frame_info(&section, true, 8, &mut eg).is_ok());
    assert_eq!(eg.graph[petgraph::graph::NodeIndex::new(0)].physical_frame_size_bytes, 24);
    assert_eq!(eg.graph[petgraph::graph::NodeIndex::new(1)].physical_frame_size_bytes, 40);
}

#[test]
fn broken_call_frame_info_is_a_dwarf_error() {
    let mut eg = build_symbol_graph(&vec![sym(true, 0x8000, Some("main"), 4)]);
    let mut section = debug_frame(&[(0x8000, &[8])]);
    section.extend([0xff, 0x00, 0x00, 0x00, 0x01]);
    match apply_call_frame_info(&section, true, 8, &mut eg) {
        Err(EgeError::DwarfParse(_)) => {}
        other => panic!("expected a DWARF error, got {:?}", other),
    }
}

#[test]
fn garbage_is_not_an_elf_image() {
    match load_elf(b"definitely not an ELF file") {
        Err(EgeError::ObjectParse(_)) => {}
        other => panic!("expected a parse error, got {:?}", other.map(|_| ())),
    }
}

/// A Thumb `bl` from `from` to `to`, as two little-endian halfwords.
fn thumb_bl(from: u64, to: u64) -> [u8; 4] {
    let off = (to as i64 - (from as i64 + 4)) as u32;
    let s = (off >> 24) & 1;
    let i1 = (off >> 23) & 1;
    let i2 = (off >> 22) & 1;
    let j1 = (!(i1 ^ s)) & 1;
    let j2 = (!(i2 ^ s)) & 1;
    let hi: u16 = (0xf000 | (s << 10) | ((off >> 12) & 0x3ff)) as u16;
    let lo: u16 = (0xd000 | (j1 << 13) | (j2 << 11) | ((off >> 1) & 0x7ff)) as u16;
    let h = hi.to_le_bytes();
    let l = lo.to_le_bytes();
    [h[0], h[1], l[0], l[1]]
}

fn firmware(recursive: bool) -> Vec<u8> {
    // 0x00: two nops; main at 0x04, function_a at 0x10, function_b at 0x18, function_c at 0x1c.
    let mut code: Vec<u8> = vec![0x00, 0xbf, 0x00, 0xbf];
    code.extend([0x00, 0xb5]); // push {lr}
    code.extend(thumb_bl(0x06, 0x10));
    code.extend(thumb_bl(0x0a, 0x18));
    code.extend([0x00, 0xbd]); // pop {pc}
    code.extend([0x00, 0xb5]); // function_a: push {lr}
    code.extend(thumb_bl(0x12, if recursive { 0x10 } else { 0x1c }));
    code.extend([0x00, 0xbd]);
    code.extend([0x70, 0x47, 0x00, 0xbf]); // function_b: bx lr
    code.extend([0x70, 0x47, 0x00, 0xbf]); // function_c: bx lr
    let mut obj = Object::new(BinaryFormat::Elf, Architecture::Arm, Endianness::Little);
    let text = obj.add_section(Vec::new(), b".text".to_vec(), SectionKind::Text);
    obj.append_section_data(text, &code, 4);
    for (name, value, size) in [("main", 0x05u64, 12u64), ("function_a", 0x11, 8), ("function_b", 0x19, 4), ("function_c", 0x1d, 4)] {
        obj.add_symbol(Symbol {
            name: name.as_bytes().to_vec(),
            value,
            size,
            kind: SymbolKind::Text,
            scope: SymbolScope::Linkage,
            weak: false,
            section: SymbolSection::Section(text),
            flags: SymbolFlags::None,
        });
    }
    let cfi = debug_frame(&[(0x05, &[8]), (0x11, &[8, 16]), (0x19, &[]), (0x1d, &[32])]);
    let frames = obj.add_section(Vec::new(), b".debug_frame".to_vec(), SectionKind::Debug);
    obj.append_section_data(frames, &cfi, 8);
    obj.write().unwrap()
}

#[test]
fn acyclic_firmware_is_analyzed_end_to_end() {
    let eg = load_elf(&firmware(false)).expect("the image loads");
    assert_eq!(eg.graph.node_count(), 4);
    assert_eq!(eg.graph.edge_count(), 3);
    let main = *eg.address_map.get(&0x04).expect("main is known");
    let r = WcsdEngine::analyze(&eg, main, 512);
    assert!(!r.is_unbounded);
    assert!(!r.budget_exceeded);
    assert_eq!(r.max_depth_bytes, 56);
    assert_eq!(r.critical_path, vec!["main", "function_a", "function_c"]);
}

#[test]
fn recursive_firmware_is_unbounded_end_to_end() {
    let eg = load_elf(&firmware(true)).expect("the image loads");
    let main = *eg.address_map.get(&0x04).expect("main is known");
    let r = WcsdEngine::analyze(&eg, main, 100);
    assert!(r.is_unbounded);
    assert!(r.budget_exceeded);
    assert_eq!(r.critical_path, vec!["main", "function_a"]);
    let cycles = stackscope::sdt::cycle_detector::CycleDetector::detect_cycles(&eg);
    assert_eq!(cycles.len(), 1);
    assert_eq!(cycles[0].symbols, vec!["function_a"]);
}

#[test]
fn image_without_text_is_unsupported() {
    let obj = Object::new(BinaryFormat::Elf, Architecture::Arm, Endianness::Little);
    let bytes = obj.write().unwrap();
    let mut eg = ExecutionGraph::new();
    assert_eq!(
        stackscope::ege::cfg_builder::build_cfg(&bytes, &mut eg),
        Err("No .text section found".to_string())
    );
    match load_elf(&bytes) {
        Err(EgeError::UnsupportedArchitecture(m)) => assert_eq!(m, "No .text section found"),
        other => panic!("expected an unsupported architecture error, got {:?}", other.map(|_| ())),
    }
}

#[test]
fn hex_is_parsed_like_from_str_radix() {
    for s in ["0", "+1f", "DEADbeef", "ffffffffffffffff", "+", "", "-1", "1g", "10000000000000000", "0x10"] {
        assert_eq!(parse_radix16_u64(s.as_bytes(), 0), u64::from_str_radix(s, 16).ok(), "{}", s);
    }
    assert_eq!(parse_radix16_u64(b"##ff", 2), Some(0xff));
}

#[test]
fn frame_sizes_come_from_the_elf_debug_frame() {
    let bytes = firmware(false);
    let symbols = vec![sym(true, 0x05, Some("main"), 12), sym(true, 0x11, Some("function_a"), 8)];
    let mut eg = build_symbol_graph(&symbols);
    assert!(stackscope::ege::dwarf_cfi::extract_frame_sizes(&bytes, &mut eg).is_ok());
    assert_eq!(eg.graph[petgraph::graph::NodeIndex::new(0)].physical_frame_size_bytes, 8);
    assert_eq!(eg.graph[petgraph::graph::NodeIndex::new(1)].physical_frame_size_bytes, 16);
}

/// An image with one text symbol, the given `.text` bytes and, when given, `.debug_frame` bytes.
fn image(code: &[u8], frames: Option<&[u8]>) -> Vec<u8> {
    let mut obj = Object::new(BinaryFormat::Elf, Architecture::Arm, Endianness::Little);
    let text = obj.add_section(Vec::new(), b".text".to_vec(), SectionKind::Text);
    obj.append_section_data(text, code, 4);
    obj.add_symbol(Symbol {
        name: b"main".to_vec(),
        value: 1,
        size: code.len() as u64,
        kind: SymbolKind::Text,
        scope: SymbolScope::Linkage,
        weak: false,
        section: SymbolSection::Section(text),
        flags: SymbolFlags::None,
    });
    if let Some(frames) = frames {
        let section = obj.add_section(Vec::new(), b".debug_frame".to_vec(), SectionKind::Debug);
        obj.append_section_data(section, frames, 8);
    }
    obj.write().unwrap()
}

#[test]
fn broken_debug_frame_is_a_dwarf_error() {
    let bytes = image(&[0x70, 0x47, 0x00, 0xbf], Some(&[0xff, 0xff, 0xff]));
    assert!(matches!(load_elf(&bytes), Err(EgeError::DwarfParse(_))));
}

#[test]
fn image_without_debug_frame_loads_without_frames() {
    let bytes = image(&[0x70, 0x47, 0x00, 0xbf], None);
    let eg = load_elf(&bytes).expect("the image loads");
    assert_eq!(eg.graph.node_count(), 1);
    assert_eq!(eg.graph.edge_count(), 0);
    assert_eq!(eg.graph[petgraph::graph::NodeIndex::new(0)].physical_frame_size_bytes, 0);
}

#[test]
fn unparsable_image_is_an_object_error() {
    assert!(matches!(load_elf(&[0u8, 1, 2, 3]), Err(EgeError::ObjectParse(_))));
}

#[test]
fn common_information_entries_are_passed_over() {
    assert_eq!(fde_offsets_of(&vec![(0, false), (16, true), (40, false), (52, true)]), vec![16, 52]);
    assert_eq!(fde_offsets_of(&vec![(0, false)]), Vec::<usize>::new());
}

#[test]
fn loaded_graph_can_be_cloned() {
    let eg = load_elf(&firmware(false)).expect("the image loads");
    let copy = eg.clone();
    assert_eq!(copy.graph.node_count(), eg.graph.node_count());
    assert_eq!(copy.graph.edge_count(), eg.graph.edge_count());
    assert_eq!(copy.address_map, eg.address_map);
}

#[test]
fn only_known_call_targets_are_counted() {
    let eg = build_symbol_graph(&vec![sym(true, 0x8000, Some("main"), 4), sym(true, 0x8010, Some("f"), 4)]);
    assert_eq!(known_call_count(&eg, 0, &vec![0x8010, 0x7000, 0x8000, 0x8010]), 3);
    assert_eq!(known_call_count(&eg, 0, &vec![0x7000]), 0);
}

#[test]
fn loading_the_same_image_twice_gives_the_same_graph() {
    let bytes = firmware(false);
    let a = load_elf(&bytes).expect("the image loads");
    let b = load_elf(&bytes).expect("the image loads");
    assert_eq!(a.address_map, b.address_map);
    assert_eq!(a.graph.node_count(), b.graph.node_count());
    for i in 0..a.graph.node_count() {
        let (x, y) = (&a.graph[petgraph::graph::NodeIndex::new(i)], &b.graph[petgraph::graph::NodeIndex::new(i)]);
        assert_eq!(x.physical_address, y.physical_address);
        assert_eq!(x.symbol_name, y.symbol_name);
        assert_eq!(x.physical_frame_size_bytes, y.physical_frame_size_bytes);
        assert_eq!(x.symbol_size_bytes, y.symbol_size_bytes);
    }
    let edges = |g: &ExecutionGraph| -> Vec<(usize, usize)> {
        g.graph.raw_edges().iter().map(|e| (e.source().index(), e.target().index())).collect()
    };
    assert_eq!(edges(&a), edges(&b));
    assert_eq!(edges(&a), vec![(0, 1), (0, 2), (1, 3)]);
}
