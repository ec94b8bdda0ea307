//! Reading the functions of an ELF image into an execution graph.
use crate::ege::cfg_builder::{
    lemma_edges_overflow_models, lemma_text_call_edges_models, text_call_edges, text_edges_overflow, text_readable,
};
use crate::ege::dwarf_cfi::{frame_info_fails, frame_info_unreadable, framed_nodes, lemma_framed_nodes_models};
use crate::types::{ExecutionGraph, WcfgNode, graph_add_node, node_model, same_functions, same_models};
use object::{Object, ObjectSection, ObjectSymbol, SymbolKind};
use std::collections::HashMap;
use vstd::prelude::*;

verus! {

broadcast use vstd::std_specs::hash::group_hash_axioms;

/// The error type of the `object` crate, carried through opaquely.
#[verifier::external_type_specification]
#[verifier::external_body]
pub struct ExObjectError(object::Error);

/// The error type of the `gimli` crate, carried through opaquely.
#[verifier::external_type_specification]
#[verifier::external_body]
pub struct ExGimliError(gimli::Error);

/// Errors while reading an ELF image.
#[derive(Debug)]
pub enum EgeError {
    /// The ELF file could not be parsed.
    ObjectParse(object::Error),
    /// The DWARF call frame information could not be parsed.
    DwarfParse(gimli::Error),
    /// The code could not be disassembled; the message says why.
    UnsupportedArchitecture(String),
    /// The image has more functions than an execution graph can index.
    NodeLimit,
}

/// A symbol of an ELF image, as the `object` crate reads it.
#[derive(Debug, Clone)]
pub struct ElfSymbol {
    /// The symbol is for executable code.
    pub is_text: bool,
    /// The symbol's address.
    pub address: u64,
    /// The symbol's name, when it has a readable one.
    pub name: Option<String>,
    /// The symbol's size in bytes.
    pub size: u64,
}

/// The symbols of the object file held by `data`, in symbol table order, or `None` when
/// `object::File::parse` refuses the data.
pub uninterp spec fn spec_elf_symbols(data: Seq<u8>) -> Option<Seq<ElfSymbol>>;

/// A symbol table read as success or failure, the error value left out.
pub open spec fn symbols_read(r: Result<Vec<ElfSymbol>, object::Error>) -> Option<Seq<ElfSymbol>> {
    match r {
        Ok(v) => Some(v@),
        Err(_) => None,
    }
}

/// `object::File::parse` on `data`, then `Object::symbols`, each symbol taken by its kind (text or
/// not), address, name (when `ObjectSymbol::name` succeeds) and size.
#[verifier::external_body]
pub(crate) fn elf_symbols(data: &[u8]) -> (r: Result<Vec<ElfSymbol>, object::Error>)
    ensures
        symbols_read(r) == spec_elf_symbols(data@),
{
    let file = object::File::parse(data)?;
    Ok(file.symbols().map(|s| ElfSymbol {
        is_text: s.kind() == SymbolKind::Text,
        address: s.address(),
        name: s.name().ok().map(|n| n.to_string()),
        size: s.size(),
    }).collect())
}

/// For the object file held by `data` and a section name: `None` when the file does not parse;
/// otherwise `None` when no section has that name, or the section's address and its uncompressed
/// bytes (`None` when they cannot be read).
pub uninterp spec fn spec_elf_section(data: Seq<u8>, name: Seq<char>) -> Option<Option<(u64, Option<Seq<u8>>)>>;

/// A section lookup read as plain values, error values left out.
pub open spec fn section_read(r: Result<Option<(u64, Result<Vec<u8>, object::Error>)>, object::Error>) -> Option<
    Option<(u64, Option<Seq<u8>>)>,
> {
    match r {
        Err(_) => None,
        Ok(None) => Some(None),
        Ok(Some((address, Ok(bytes)))) => Some(Some((address, Some(bytes@)))),
        Ok(Some((address, Err(_)))) => Some(Some((address, None))),
    }
}

/// `object::File::parse` on `data`, then `Object::section_by_name`, the section taken by its
/// address and its `uncompressed_data`.
#[verifier::external_body]
pub(crate) fn elf_section(data: &[u8], name: &str) -> (r: Result<
    Option<(u64, Result<Vec<u8>, object::Error>)>,
    object::Error,
>)
    ensures
        section_read(r) == spec_elf_section(data@, name@),
{
    let file = object::File::parse(data)?;
    Ok(file.section_by_name(name).map(|s| (s.address(), s.uncompressed_data().map(|d| d.to_vec()))))
}

/// Whether the object file held by `data` is little endian, or `None` when it does not parse.
pub uninterp spec fn spec_elf_little_endian(data: Seq<u8>) -> Option<bool>;

/// `object::File::parse` on `data`, then `Object::is_little_endian`.
#[verifier::external_body]
pub(crate) fn elf_little_endian(data: &[u8]) -> (r: Result<bool, object::Error>)
    ensures
        match r {
            Ok(b) => spec_elf_little_endian(data@) == Some(b),
            Err(_) => spec_elf_little_endian(data@) is None,
        },
{
    Ok(object::File::parse(data)?.is_little_endian())
}

/// The text of an `object::Error` (its `Display`); nothing is stated of it.
#[verifier::external_body]
pub(crate) fn object_error_message(e: &object::Error) -> String {
    e.to_string()
}

/// The symbols that become functions are exactly the text symbols at a nonzero address, in order,
/// whatever their size.
pub proof fn law_kept_symbols_are_text_symbols(syms: Seq<ElfSymbol>)
    ensures
        kept_symbols(syms) == syms.filter(|s: ElfSymbol| s.is_text && s.address != 0),
    decreases syms.len(),
{
    reveal_with_fuel(Seq::filter, 1);
    if syms.len() > 0 {
        law_kept_symbols_are_text_symbols(syms.drop_last());
    }
}

/// The symbols that become functions: text symbols at a nonzero address, in order.
pub open spec fn kept_symbols(syms: Seq<ElfSymbol>) -> Seq<ElfSymbol>
    decreases syms.len(),
{
    if syms.len() == 0 {
        Seq::empty()
    } else {
        let rest = kept_symbols(syms.drop_last());
        if syms.last().is_text && syms.last().address != 0 {
            rest.push(syms.last())
        } else {
            rest
        }
    }
}

/// The name a function takes from its symbol.
pub open spec fn symbol_name_view(s: ElfSymbol) -> Seq<char> {
    match s.name {
        Some(n) => n@,
        None => "<stripped>"@,
    }
}

/// Node `n` is the function of symbol `s`: the Thumb bit of the address cleared, the symbol's
/// name and size, and no frame size yet.
pub open spec fn node_of_symbol(n: WcfgNode, s: ElfSymbol) -> bool {
    &&& n.physical_address == s.address & !1u64
    &&& n.symbol_name@ == symbol_name_view(s)
    &&& n.physical_frame_size_bytes == 0
    &&& n.symbol_size_bytes == s.size as usize
}

/// A function keeps its symbol's address with only the Thumb bit (bit 0) cleared: the address is
/// even and differs from the symbol's by that bit alone.
pub proof fn law_function_address(n: WcfgNode, s: ElfSymbol)
    requires
        node_of_symbol(n, s) || node_named_by_symbol(n, s),
    ensures
        n.physical_address % 2 == 0,
        n.physical_address + s.address % 2 == s.address,
{
    let a = s.address;
    assert((a & !1u64) % 2 == 0 && (a & !1u64) + a % 2 == a) by (bit_vector);
}

/// Each address mapped to the last node at that address.
pub open spec fn address_index(nodes: Seq<WcfgNode>) -> Map<u64, usize>
    decreases nodes.len(),
{
    if nodes.len() == 0 {
        Map::empty()
    } else {
        address_index(nodes.drop_last()).insert(nodes.last().physical_address, (nodes.len() - 1) as usize)
    }
}

/// The address map knows exactly the functions' addresses, and sends each to the last function at
/// that address.
pub proof fn law_address_index_is_last_function(nodes: Seq<WcfgNode>, a: u64)
    requires
        nodes.len() <= usize::MAX,
    ensures
        address_index(nodes).contains_key(a) <==> exists|i: int| 0 <= i < nodes.len() && #[trigger] nodes[i].physical_address == a,
        address_index(nodes).contains_key(a) ==> {
            let i = address_index(nodes)[a] as int;
            &&& 0 <= i < nodes.len()
            &&& nodes[i].physical_address == a
            &&& forall|j: int| i < j < nodes.len() ==> #[trigger] nodes[j].physical_address != a
        },
    decreases nodes.len(),
{
    if nodes.len() > 0 {
        let rest = nodes.drop_last();
        law_address_index_is_last_function(rest, a);
        assert forall|j: int| 0 <= j < rest.len() implies rest[j] == nodes[j] by {}
        if exists|i: int| 0 <= i < nodes.len() && #[trigger] nodes[i].physical_address == a {
            let i = choose|i: int| 0 <= i < nodes.len() && #[trigger] nodes[i].physical_address == a;
            if i < rest.len() {
                assert(rest[i].physical_address == a);
            }
        }
        if address_index(rest).contains_key(a) {
            let i = address_index(rest)[a] as int;
            assert(nodes[i] == rest[i]);
        }
    }
}

/// The address index sends every address to a node at that address.
pub proof fn lemma_address_index(nodes: Seq<WcfgNode>)
    requires
        nodes.len() <= usize::MAX,
    ensures
        forall|a: u64|
            #[trigger] address_index(nodes).contains_key(a) ==> address_index(nodes)[a] < nodes.len()
                && nodes[address_index(nodes)[a] as int].physical_address == a,
    decreases nodes.len(),
{
    if nodes.len() > 0 {
        let rest = nodes.drop_last();
        lemma_address_index(rest);
        assert forall|a: u64| #[trigger] address_index(nodes).contains_key(a) implies address_index(nodes)[a] < nodes.len()
            && nodes[address_index(nodes)[a] as int].physical_address == a by {
            if a != nodes.last().physical_address {
                assert(address_index(rest).contains_key(a));
                assert(nodes[address_index(rest)[a] as int] == rest[address_index(rest)[a] as int]);
            }
        }
    }
}

/// Builds the functions of a symbol table: one node per text symbol at a nonzero address, in
/// order, and the address map sending each address to the last function at it.
pub fn build_symbol_graph(symbols: &Vec<ElfSymbol>) -> (eg: ExecutionGraph)
    requires
        kept_symbols(symbols@).len() <= u32::MAX,
    ensures
        eg.wf(),
        eg.edges().len() == 0,
        eg.nodes().len() == kept_symbols(symbols@).len(),
        forall|i: int| 0 <= i < eg.nodes().len() ==> node_of_symbol(#[trigger] eg.nodes()[i], kept_symbols(symbols@)[i]),
        eg.address_map@ == address_index(eg.nodes()),
        forall|i: int| 0 <= i < eg.nodes().len() ==> (#[trigger] eg.nodes()[i]).physical_address % 2 == 0,
        forall|i: int|
            0 <= i < eg.nodes().len() ==> (#[trigger] eg.nodes()[i]).physical_address + kept_symbols(symbols@)[i].address
                % 2 == kept_symbols(symbols@)[i].address,
        eg.nodes().len() == symbols@.filter(|s: ElfSymbol| s.is_text && s.address != 0).len(),
{
    let mut graph = ExecutionGraph::new();
    let mut i: usize = 0;
    while i < symbols.len()
        invariant
            i <= symbols.len(),
            kept_symbols(symbols@).len() <= u32::MAX,
            graph.edges().len() == 0,
            graph.nodes().len() == kept_symbols(symbols@.take(i as int)).len(),
            forall|k: int|
                0 <= k < graph.nodes().len() ==> node_of_symbol(
                    #[trigger] graph.nodes()[k],
                    kept_symbols(symbols@.take(i as int))[k],
                ),
            graph.address_map@ == address_index(graph.nodes()),
            forall|k: int| 0 <= k < graph.nodes().len() ==> (#[trigger] graph.nodes()[k]).physical_address % 2 == 0,
        decreases symbols.len() - i,
    {
        let symbol = &symbols[i];
        let ghost prefix = symbols@.take(i as int);
        proof {
            assert(symbols@.take(i + 1).drop_last() =~= prefix);
            lemma_kept_prefix_len(symbols@, i as int + 1);
        }
        if symbol.is_text && symbol.address != 0 {
            // The Thumb bit marks the instruction set, not the address.
            let normalized_address = symbol.address & !1u64;
            proof {
                let a = symbol.address;
                assert((a & !1u64) % 2 == 0) by (bit_vector);
            }
            let name = match &symbol.name {
                Some(n) => n.clone(),
                None => "<stripped>".to_owned(),
            };
            let node = WcfgNode {
                physical_address: normalized_address,
                symbol_name: name,
                physical_frame_size_bytes: 0,
                symbol_size_bytes: symbol.size as usize,
            };
            let ghost old_nodes = graph.nodes();
            let node_index = graph_add_node(&mut graph.graph, node);
            graph.address_map.insert(normalized_address, node_index);
            proof {
                assert(graph.nodes().drop_last() =~= old_nodes);
                assert forall|k: int| 0 <= k < graph.nodes().len() implies node_of_symbol(
                    #[trigger] graph.nodes()[k],
                    kept_symbols(symbols@.take(i + 1))[k],
                ) by {
                    if k < old_nodes.len() {
                        assert(graph.nodes()[k] == old_nodes[k]);
                    }
                }
            }
        }
        i += 1;
    }
    proof {
        assert(symbols@.take(i as int) =~= symbols@);
        lemma_address_index(graph.nodes());
        law_kept_symbols_are_text_symbols(symbols@);
        assert forall|k: int| 0 <= k < graph.nodes().len() implies (#[trigger] graph.nodes()[k]).physical_address
            + kept_symbols(symbols@)[k].address % 2 == kept_symbols(symbols@)[k].address by {
            law_function_address(graph.nodes()[k], kept_symbols(symbols@)[k]);
        }
    }
    graph
}

/// The number of symbols that become functions.
pub fn count_function_symbols(symbols: &Vec<ElfSymbol>) -> (count: usize)
    ensures
        count == kept_symbols(symbols@).len(),
{
    let mut count: usize = 0;
    let mut i: usize = 0;
    while i < symbols.len()
        invariant
            i <= symbols.len(),
            count == kept_symbols(symbols@.take(i as int)).len(),
            count <= i,
        decreases symbols.len() - i,
    {
        proof {
            assert(symbols@.take(i + 1).drop_last() =~= symbols@.take(i as int));
        }
        if symbols[i].is_text && symbols[i].address != 0 {
            count += 1;
        }
        i += 1;
    }
    proof {
        assert(symbols@.take(i as int) =~= symbols@);
    }
    count
}

/// A function of the graph keeps the address, name and size of its symbol.
pub open spec fn node_named_by_symbol(n: WcfgNode, s: ElfSymbol) -> bool {
    &&& n.physical_address == s.address & !1u64
    &&& n.symbol_name@ == symbol_name_view(s)
    &&& n.symbol_size_bytes == s.size as usize
}

/// `g` is a well-formed graph of the functions of the symbol table.
pub open spec fn loaded_from_symbols(g: ExecutionGraph, syms: Seq<ElfSymbol>) -> bool {
    &&& g.wf()
    &&& g.nodes().len() == kept_symbols(syms).len()
    &&& forall|i: int| 0 <= i < g.nodes().len() ==> node_named_by_symbol(#[trigger] g.nodes()[i], kept_symbols(syms)[i])
    &&& g.address_map@ == address_index(g.nodes())
}

/// `g` holds the functions of the symbol table `syms` with the frame sizes that the image's
/// `.debug_frame` gives them, and the call edges that the disassembly of its `.text` gives.
pub open spec fn loaded_from_image(binary: Seq<u8>, g: ExecutionGraph, syms: Seq<ElfSymbol>) -> bool {
    &&& exists|nodes: Seq<WcfgNode>|
        nodes.len() == kept_symbols(syms).len() && (forall|i: int|
            0 <= i < nodes.len() ==> node_of_symbol(#[trigger] nodes[i], kept_symbols(syms)[i]))
            && #[trigger] framed_nodes(binary, nodes, address_index(nodes)) == g.nodes()
    &&& text_call_edges(spec_elf_section(binary, ".text"@), g.nodes(), g.address_map@, g.edges())
}

/// `nodes` are the functions of the symbol table `syms`, before frame sizes are given.
pub open spec fn symbol_nodes(nodes: Seq<WcfgNode>, syms: Seq<ElfSymbol>) -> bool {
    &&& nodes.len() == kept_symbols(syms).len()
    &&& forall|i: int| 0 <= i < nodes.len() ==> node_of_symbol(#[trigger] nodes[i], kept_symbols(syms)[i])
}

/// The call edges of the functions of the symbol table `syms`, with the frame sizes that the image
/// `binary` gives them, would take the edge count of a graph past `u32::MAX`.
pub open spec fn loaded_edges_overflow(binary: Seq<u8>, syms: Seq<ElfSymbol>) -> bool {
    exists|nodes: Seq<WcfgNode>|
        symbol_nodes(nodes, syms) && #[trigger] text_edges_overflow(
            spec_elf_section(binary, ".text"@),
            framed_nodes(binary, nodes, address_index(nodes)),
            address_index(nodes),
            0,
        )
}

/// `r` is what loading the image held by `binary` gives: the first failing step decides the error
/// (symbols, function count, frame information, `.text`, edge count); otherwise the graph of its
/// functions, frame sizes and call edges.
pub open spec fn load_outcome(binary: Seq<u8>, r: Result<ExecutionGraph, EgeError>) -> bool {
    match spec_elf_symbols(binary) {
        None => r matches Err(EgeError::ObjectParse(_)),
        Some(syms) => if kept_symbols(syms).len() > u32::MAX {
            r matches Err(EgeError::NodeLimit)
        } else if frame_info_unreadable(binary) {
            r matches Err(EgeError::ObjectParse(_))
        } else if frame_info_fails(binary) {
            r matches Err(EgeError::DwarfParse(_))
        } else if !text_readable(binary) {
            &&& r matches Err(EgeError::UnsupportedArchitecture(_))
            &&& spec_elf_section(binary, ".text"@) == Some(None::<(u64, Option<Seq<u8>>)>) ==> (r matches Err(
                EgeError::UnsupportedArchitecture(m),
            ) && m@ == "No .text section found"@)
        } else if loaded_edges_overflow(binary, syms) {
            r matches Err(EgeError::UnsupportedArchitecture(m)) && m@ == "Too many call edges for the execution graph"@
        } else {
            r matches Ok(g) && loaded_from_symbols(g, syms) && loaded_from_image(binary, g, syms)
        }
    }
}

/// Two sequences of the functions of one symbol table hold the same functions.
proof fn lemma_symbol_nodes_same(a: Seq<WcfgNode>, b: Seq<WcfgNode>, syms: Seq<ElfSymbol>)
    requires
        symbol_nodes(a, syms),
        symbol_nodes(b, syms),
    ensures
        same_models(a, b),
{
    assert forall|i: int| 0 <= i < a.len() implies node_model(#[trigger] a[i]) == node_model(b[i]) by {
        assert(node_of_symbol(a[i], kept_symbols(syms)[i]));
        assert(node_of_symbol(b[i], kept_symbols(syms)[i]));
    }
}

/// The address index depends only on the functions' addresses.
proof fn lemma_address_index_models(a: Seq<WcfgNode>, b: Seq<WcfgNode>)
    requires
        same_models(a, b),
    ensures
        address_index(a) == address_index(b),
    decreases a.len(),
{
    if a.len() > 0 {
        assert(same_models(a.drop_last(), b.drop_last())) by {
            assert forall|i: int| 0 <= i < a.drop_last().len() implies node_model(#[trigger] a.drop_last()[i])
                == node_model(b.drop_last()[i]) by {
                assert(node_model(a[i]) == node_model(b[i]));
            }
        }
        lemma_address_index_models(a.drop_last(), b.drop_last());
        assert(node_model(a[a.len() - 1]) == node_model(b[b.len() - 1]));
    }
}

/// Whether the edges overflow is the same for every sequence of the functions of `syms`.
proof fn lemma_loaded_edges_overflow(binary: Seq<u8>, syms: Seq<ElfSymbol>, nodes: Seq<WcfgNode>)
    requires
        symbol_nodes(nodes, syms),
        nodes.len() <= usize::MAX,
    ensures
        loaded_edges_overflow(binary, syms) == text_edges_overflow(
            spec_elf_section(binary, ".text"@),
            framed_nodes(binary, nodes, address_index(nodes)),
            address_index(nodes),
            0,
        ),
{
    if loaded_edges_overflow(binary, syms) {
        let other = choose|other: Seq<WcfgNode>|
            symbol_nodes(other, syms) && #[trigger] text_edges_overflow(
                spec_elf_section(binary, ".text"@),
                framed_nodes(binary, other, address_index(other)),
                address_index(other),
                0,
            );
        lemma_symbol_nodes_same(other, nodes, syms);
        lemma_address_index_models(other, nodes);
        lemma_address_index(other);
        lemma_framed_nodes_models(binary, other, nodes, address_index(other));
        lemma_edges_overflow_models(
            spec_elf_section(binary, ".text"@),
            framed_nodes(binary, other, address_index(other)),
            framed_nodes(binary, nodes, address_index(nodes)),
            address_index(nodes),
            0,
        );
    }
}

/// Loading is deterministic: two loads of the same bytes fail in the same way or give graphs with
/// the same functions (names compared by their characters), calls and address map.
pub proof fn law_load_is_deterministic(
    binary: Seq<u8>,
    r1: Result<ExecutionGraph, EgeError>,
    r2: Result<ExecutionGraph, EgeError>,
)
    requires
        load_outcome(binary, r1),
        load_outcome(binary, r2),
    ensures
        r1 is Ok <==> r2 is Ok,
        (r1 matches Err(EgeError::ObjectParse(_))) <==> (r2 matches Err(EgeError::ObjectParse(_))),
        (r1 matches Err(EgeError::DwarfParse(_))) <==> (r2 matches Err(EgeError::DwarfParse(_))),
        (r1 matches Err(EgeError::UnsupportedArchitecture(_))) <==> (r2 matches Err(
            EgeError::UnsupportedArchitecture(_),
        )),
        (r1 matches Err(EgeError::NodeLimit)) <==> (r2 matches Err(EgeError::NodeLimit)),
        (r1 is Ok && r2 is Ok) ==> r1->Ok_0.model() == r2->Ok_0.model(),
{
    if let (Ok(g1), Ok(g2)) = (r1, r2) {
        let syms = spec_elf_symbols(binary)->0;
        let n1 = choose|nodes: Seq<WcfgNode>|
            nodes.len() == kept_symbols(syms).len() && (forall|i: int|
                0 <= i < nodes.len() ==> node_of_symbol(#[trigger] nodes[i], kept_symbols(syms)[i]))
                && #[trigger] framed_nodes(binary, nodes, address_index(nodes)) == g1.nodes();
        let n2 = choose|nodes: Seq<WcfgNode>|
            nodes.len() == kept_symbols(syms).len() && (forall|i: int|
                0 <= i < nodes.len() ==> node_of_symbol(#[trigger] nodes[i], kept_symbols(syms)[i]))
                && #[trigger] framed_nodes(binary, nodes, address_index(nodes)) == g2.nodes();
        assert(symbol_nodes(n1, syms) && symbol_nodes(n2, syms));
        lemma_symbol_nodes_same(n1, n2, syms);
        lemma_address_index_models(n1, n2);
        lemma_address_index(n1);
        lemma_framed_nodes_models(binary, n1, n2, address_index(n1));
        assert(same_models(g1.nodes(), g2.nodes()));
        lemma_address_index_models(g1.nodes(), g2.nodes());
        lemma_text_call_edges_models(
            spec_elf_section(binary, ".text"@),
            g1.nodes(),
            g2.nodes(),
            g1.address_map@,
            g1.edges(),
        );
        assert(g1.nodes().map_values(|n: WcfgNode| node_model(n)) =~= g2.nodes().map_values(
            |n: WcfgNode| node_model(n),
        ));
    }
}

/// Load ELF symbols and DWARF geometry into the execution graph: one function per text symbol,
/// frame sizes from `.debug_frame`, call edges from the disassembly of `.text`.
pub fn load_elf(binary: &[u8]) -> (r: Result<ExecutionGraph, EgeError>)
    ensures
        load_outcome(binary@, r),
{
    let symbols = match elf_symbols(binary) {
        Err(e) => return Err(EgeError::ObjectParse(e)),
        Ok(symbols) => symbols,
    };
    if count_function_symbols(&symbols) > u32::MAX as usize {
        return Err(EgeError::NodeLimit);
    }
    // 1. Establish structural topology
    let mut graph = build_symbol_graph(&symbols);
    let ghost nodes0 = graph.nodes();
    let ghost amap0 = graph.address_map@;
    // 2. Project physical stack geometry onto the topology
    match crate::ege::dwarf_cfi::extract_frame_sizes(binary, &mut graph) {
        Err(e) => return Err(e),
        Ok(()) => {},
    }
    let ghost framed = graph.nodes();
    let ghost edges1 = graph.edges();
    // 3. Extract Control Flow Topology via disassembly
    proof {
        lemma_address_index_same_functions(nodes0, framed);
        assert(symbol_nodes(nodes0, symbols@));
        assert(framed_nodes(binary@, nodes0, address_index(nodes0)) == framed);
        lemma_loaded_edges_overflow(binary@, symbols@, nodes0);
    }
    match crate::ege::cfg_builder::build_cfg(binary, &mut graph) {
        Err(e) => {
            return Err(EgeError::UnsupportedArchitecture(e));
        },
        Ok(()) => {},
    }
    proof {
        assert forall|i: int| 0 <= i < graph.nodes().len() implies node_named_by_symbol(
            #[trigger] graph.nodes()[i],
            kept_symbols(symbols@)[i],
        ) by {
            assert(node_of_symbol(nodes0[i], kept_symbols(symbols@)[i]));
        }
        lemma_address_index_same_functions(nodes0, graph.nodes());
        assert(framed_nodes(binary@, nodes0, address_index(nodes0)) == graph.nodes());
        assert(graph.edges().skip(edges1.len() as int) =~= graph.edges());
    }
    Ok(graph)
}

/// The address index depends only on the addresses.
proof fn lemma_address_index_same_functions(a: Seq<WcfgNode>, b: Seq<WcfgNode>)
    requires
        same_functions(a, b),
    ensures
        address_index(a) == address_index(b),
    decreases a.len(),
{
    if a.len() > 0 {
        lemma_address_index_same_functions(a.drop_last(), b.drop_last());
        assert(a.last().physical_address == b.last().physical_address);
    }
}

/// The kept symbols of a prefix are no more than those of the whole table.
proof fn lemma_kept_prefix_len(syms: Seq<ElfSymbol>, n: int)
    requires
        0 <= n <= syms.len(),
    ensures
        kept_symbols(syms.take(n)).len() <= kept_symbols(syms).len(),
    decreases syms.len() - n,
{
    if n < syms.len() {
        lemma_kept_prefix_len(syms, n + 1);
        assert(syms.take(n + 1).drop_last() =~= syms.take(n));
    }
    else {
        assert(syms.take(n) =~= syms);
    }
}

} // verus!
