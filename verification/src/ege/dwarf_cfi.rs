//! Stack frame sizes from the DWARF call frame information of `.debug_frame`.
use crate::ege::elf_parser::{EgeError, elf_little_endian, elf_section, spec_elf_little_endian, spec_elf_section};
use crate::types::{ExecutionGraph, WcfgNode, graph_node, graph_set_node, node_model, same_functions, same_models};
use gimli::{BaseAddresses, CfaRule, CieOrFde, DebugFrame, DebugFrameOffset, RunTimeEndian, UnwindContext, UnwindSection};
use vstd::prelude::*;

verus! {

broadcast use vstd::std_specs::hash::group_hash_axioms;

/// For the bytes of a `.debug_frame` section in the given byte order and target address size: its
/// entries in order, each as its section offset and whether it is a frame description entry (else
/// a common information entry), up to the first entry that does not parse, and whether such an
/// entry stopped the listing.
pub uninterp spec fn spec_cfi_entries(section: Seq<u8>, little_endian: bool, address_size: u8) -> (Seq<(usize, bool)>, bool);

/// gimli's `DebugFrame::new` with `set_address_size`, then `DebugFrame::entries` over the section,
/// walked with `CfiEntriesIter::next` until it ends or fails; each entry is taken by its offset and
/// its kind.
#[verifier::external_body]
fn cfi_entries(section: &[u8], little_endian: bool, address_size: u8) -> (r: (Vec<(usize, bool)>, Option<gimli::Error>))
    ensures
        (r.0@, r.1 is Some) == spec_cfi_entries(section@, little_endian, address_size),
{
    let mut frame = DebugFrame::new(section, if little_endian { RunTimeEndian::Little } else { RunTimeEndian::Big });
    frame.set_address_size(address_size);
    let bases = BaseAddresses::default();
    let mut entries = frame.entries(&bases);
    let mut listed = Vec::new();
    loop {
        match entries.next() {
            Ok(Some(CieOrFde::Fde(partial))) => listed.push((partial.offset(), true)),
            Ok(Some(CieOrFde::Cie(cie))) => listed.push((cie.offset(), false)),
            Ok(None) => return (listed, None),
            Err(e) => return (listed, Some(e)),
        }
    }
}

/// The offsets of the frame description entries among `entries`, in order.
pub open spec fn fde_offsets(entries: Seq<(usize, bool)>) -> Seq<usize>
    decreases entries.len(),
{
    if entries.len() == 0 {
        Seq::empty()
    } else {
        let rest = fde_offsets(entries.drop_last());
        if entries.last().1 {
            rest.push(entries.last().0)
        } else {
            rest
        }
    }
}

/// The scan of a `.debug_frame` section: the offsets of its frame description entries, in order,
/// up to the first entry that does not parse, and whether such an entry stopped the scan.
pub open spec fn spec_cfi_fde_offsets(section: Seq<u8>, little_endian: bool, address_size: u8) -> (Seq<usize>, bool) {
    let scan = spec_cfi_entries(section, little_endian, address_size);
    (fde_offsets(scan.0), scan.1)
}

/// The offsets of the frame description entries among `entries`, in order; common information
/// entries are passed over.
pub fn fde_offsets_of(entries: &Vec<(usize, bool)>) -> (offsets: Vec<usize>)
    ensures
        offsets@ == fde_offsets(entries@),
{
    let mut offsets: Vec<usize> = Vec::new();
    let mut i: usize = 0;
    while i < entries.len()
        invariant
            i <= entries.len(),
            offsets@ == fde_offsets(entries@.take(i as int)),
        decreases entries.len() - i,
    {
        proof {
            assert(entries@.take(i + 1).drop_last() =~= entries@.take(i as int));
        }
        let (offset, is_fde) = entries[i];
        if is_fde {
            offsets.push(offset);
        }
        i += 1;
    }
    proof {
        assert(entries@.take(i as int) =~= entries@);
    }
    offsets
}

/// For the bytes of a `.debug_frame` section, a byte order, a target address size and the offset
/// of a frame description entry: the entry's initial address and the CFA rule of each row of its unwind table (the
/// offset of a register-and-offset rule, `None` for an expression rule), or `None` when the entry
/// or its table does not parse.
pub uninterp spec fn spec_cfi_fde_rows(section: Seq<u8>, little_endian: bool, address_size: u8, offset: usize) -> Option<
    (u64, Seq<Option<i64>>),
>;

/// gimli's `DebugFrame::new` with `set_address_size`, then `UnwindSection::fde_from_offset` (with `cie_from_offset` for the CIE), then
/// `FrameDescriptionEntry::rows` walked with `UnwindTable::next_row`, each row taken by its
/// `cfa()` rule, and `FrameDescriptionEntry::initial_address`.
#[verifier::external_body]
fn cfi_fde_rows(section: &[u8], little_endian: bool, address_size: u8, offset: usize) -> (r: Result<
    (u64, Vec<Option<i64>>),
    gimli::Error,
>)
    ensures
        match r {
            Ok((address, cfa)) => spec_cfi_fde_rows(section@, little_endian, address_size, offset) == Some((address, cfa@)),
            Err(_) => spec_cfi_fde_rows(section@, little_endian, address_size, offset) is None,
        },
{
    let mut frame = DebugFrame::new(section, if little_endian { RunTimeEndian::Little } else { RunTimeEndian::Big });
    frame.set_address_size(address_size);
    let (bases, mut ctx) = (BaseAddresses::default(), UnwindContext::new());
    let fde = frame.fde_from_offset(&bases, DebugFrameOffset(offset), DebugFrame::cie_from_offset)?;
    let mut table = fde.rows(&frame, &bases, &mut ctx)?;
    let mut cfa = Vec::new();
    while let Some(row) = table.next_row()? {
        cfa.push(match row.cfa() {
            CfaRule::RegisterAndOffset { offset, .. } => Some(*offset),
            CfaRule::Expression(_) => None,
        });
    }
    Ok((fde.initial_address(), cfa))
}

/// The largest register-and-offset CFA offset among the rows, or 0 when none is positive.
pub open spec fn cfa_frame_size(cfa: Seq<Option<i64>>) -> int
    decreases cfa.len(),
{
    if cfa.len() == 0 {
        0
    } else {
        let m = cfa_frame_size(cfa.drop_last());
        match cfa.last() {
            Some(o) => if o > m { o as int } else { m },
            None => m,
        }
    }
}

/// A frame size is the largest register-and-offset CFA offset of the rows, or 0 when none is
/// positive: it is at least 0 and at least every such offset, and it is 0 or one of them.
pub proof fn law_cfa_frame_size_is_deepest_offset(cfa: Seq<Option<i64>>)
    ensures
        cfa_frame_size(cfa) >= 0,
        forall|k: int| 0 <= k < cfa.len() && (#[trigger] cfa[k]) is Some ==> cfa[k]->0 <= cfa_frame_size(cfa),
        cfa_frame_size(cfa) == 0 || exists|k: int| 0 <= k < cfa.len() && #[trigger] cfa[k] == Some(cfa_frame_size(cfa) as i64),
        cfa_frame_size(cfa) <= i64::MAX,
    decreases cfa.len(),
{
    if cfa.len() > 0 {
        let rest = cfa.drop_last();
        law_cfa_frame_size_is_deepest_offset(rest);
        assert forall|k: int| 0 <= k < rest.len() implies rest[k] == cfa[k] by {}
        if cfa_frame_size(cfa) != 0 && cfa_frame_size(cfa) == cfa_frame_size(rest) {
            let k = choose|k: int| 0 <= k < rest.len() && #[trigger] rest[k] == Some(cfa_frame_size(rest) as i64);
            assert(cfa[k] == rest[k]);
        }
        if cfa_frame_size(cfa) != cfa_frame_size(rest) {
            assert(cfa[cfa.len() - 1] == Some(cfa_frame_size(cfa) as i64));
        }
    }
}

/// The function address of a frame description entry is its initial address truncated to 32 bits
/// with only the Thumb bit cleared.
pub proof fn law_fde_function_address(initial_address: u64)
    ensures
        fde_function_address(initial_address) % 2 == 0,
        fde_function_address(initial_address) + initial_address % 2 == initial_address % 0x1_0000_0000,
{
    let a = initial_address;
    assert(((a & 0xFFFF_FFFFu64) & !1u64) % 2 == 0 && ((a & 0xFFFF_FFFFu64) & !1u64) + a % 2 == a % 0x1_0000_0000)
        by (bit_vector);
}

/// The function address of a frame description entry: truncated to the 32-bit ARM address space,
/// Thumb bit cleared.
pub open spec fn fde_function_address(initial_address: u64) -> u64 {
    (initial_address & 0xFFFF_FFFFu64) & !1u64
}

/// The nodes after giving the function at `address`, if the address map knows it, the frame size `size`.
pub open spec fn with_frame_size(nodes: Seq<WcfgNode>, amap: Map<u64, usize>, address: u64, size: usize) -> Seq<WcfgNode> {
    if amap.contains_key(address) {
        let old_node = nodes[amap[address] as int];
        nodes.update(
            amap[address] as int,
            WcfgNode {
                physical_address: old_node.physical_address,
                symbol_name: old_node.symbol_name,
                physical_frame_size_bytes: size,
                symbol_size_bytes: old_node.symbol_size_bytes,
            },
        )
    } else {
        nodes
    }
}

/// The nodes after applying, in order, the frame description entries at `offsets`, and whether
/// every entry parsed (the first that does not stops the application).
pub open spec fn frames_applied(
    nodes: Seq<WcfgNode>,
    amap: Map<u64, usize>,
    section: Seq<u8>,
    little_endian: bool,
    address_size: u8,
    offsets: Seq<usize>,
) -> (Seq<WcfgNode>, bool)
    decreases offsets.len(),
{
    if offsets.len() == 0 {
        (nodes, true)
    } else {
        let prev = frames_applied(nodes, amap, section, little_endian, address_size, offsets.drop_last());
        if !prev.1 {
            prev
        } else {
            match spec_cfi_fde_rows(section, little_endian, address_size, offsets.last()) {
                None => (prev.0, false),
                Some((address, cfa)) => (
                    with_frame_size(prev.0, amap, fde_function_address(address), cfa_frame_size(cfa) as usize),
                    true,
                ),
            }
        }
    }
}

/// The frame size of a function from the CFA rules of its unwind rows.
pub fn frame_size_from_cfa(cfa: &Vec<Option<i64>>) -> (size: usize)
    ensures
        size == cfa_frame_size(cfa@) as usize,
{
    let mut max_frame_size: i64 = 0;
    let mut i: usize = 0;
    while i < cfa.len()
        invariant
            i <= cfa.len(),
            max_frame_size == cfa_frame_size(cfa@.take(i as int)),
        decreases cfa.len() - i,
    {
        proof {
            assert(cfa@.take(i + 1).drop_last() =~= cfa@.take(i as int));
        }
        if let Some(offset_value) = cfa[i] {
            if offset_value > max_frame_size {
                max_frame_size = offset_value;
            }
        }
        i += 1;
    }
    proof {
        assert(cfa@.take(i as int) =~= cfa@);
    }
    max_frame_size as usize
}

/// The function address that a frame description entry starting at `initial_address` describes.
pub fn fde_address(initial_address: u64) -> (address: u64)
    ensures
        address == fde_function_address(initial_address),
        address <= 0xFFFF_FFFEu64,
        address % 2 == 0,
{
    proof {
        assert(((initial_address & 0xFFFF_FFFFu64) & !1u64) <= 0xFFFF_FFFEu64) by (bit_vector);
        assert(((initial_address & 0xFFFF_FFFFu64) & !1u64) % 2 == 0) by (bit_vector);
    }
    (initial_address & 0xFFFF_FFFFu64) & !1u64
}

/// Gives the function at `address`, if the address map knows it, the frame size `size`.
pub fn apply_frame_size(graph: &mut ExecutionGraph, address: u64, size: usize)
    requires
        old(graph).wf(),
    ensures
        final(graph).wf(),
        final(graph).nodes() == with_frame_size(old(graph).nodes(), old(graph).address_map@, address, size),
        same_functions(old(graph).nodes(), final(graph).nodes()),
        final(graph).edges() == old(graph).edges(),
        final(graph).address_map@ == old(graph).address_map@,
{
    match graph.address_map.get(&address) {
        Some(idx) => {
            let idx = *idx;
            let node = graph_node(&graph.graph, idx);
            let updated = WcfgNode {
                physical_address: node.physical_address,
                symbol_name: node.symbol_name.clone(),
                physical_frame_size_bytes: size,
                symbol_size_bytes: node.symbol_size_bytes,
            };
            let ghost old_nodes = graph.nodes();
            graph_set_node(&mut graph.graph, idx, updated);
            proof {
                assert forall|a: u64| #[trigger] graph.address_map@.contains_key(a) implies graph.address_map@[a]
                    < graph.nodes().len() && graph.nodes()[graph.address_map@[a] as int].physical_address == a by {
                    if graph.address_map@[a] != idx {
                        assert(graph.nodes()[graph.address_map@[a] as int] == old_nodes[graph.address_map@[a] as int]);
                    }
                }
            }
        },
        None => {},
    }
}

/// Applies the call frame information of a `.debug_frame` section to the graph: each frame
/// description entry, in order, gives the function at its initial address the deepest CFA offset
/// of its unwind rows as frame size.
pub fn apply_call_frame_info(
    section: &[u8],
    little_endian: bool,
    address_size: u8,
    graph: &mut ExecutionGraph,
) -> (r: Result<(), EgeError>)
    requires
        old(graph).wf(),
    ensures
        ({
            let scan = spec_cfi_fde_offsets(section@, little_endian, address_size);
            let applied = frames_applied(
                old(graph).nodes(),
                old(graph).address_map@,
                section@,
                little_endian,
                address_size,
                scan.0,
            );
            &&& final(graph).nodes() == applied.0
            &&& (r is Ok <==> applied.1 && !scan.1)
        }),
        r matches Err(e) ==> e is DwarfParse,
        same_functions(old(graph).nodes(), final(graph).nodes()),
        final(graph).wf(),
        final(graph).edges() == old(graph).edges(),
        final(graph).address_map@ == old(graph).address_map@,
{
    let (entries, stop) = cfi_entries(section, little_endian, address_size);
    let offsets = fde_offsets_of(&entries);
    let ghost amap = graph.address_map@;
    let ghost nodes0 = graph.nodes();
    let mut k: usize = 0;
    while k < offsets.len()
        invariant
            k <= offsets.len(),
            (offsets@, stop is Some) == spec_cfi_fde_offsets(section@, little_endian, address_size),
            graph.wf(),
            graph.address_map@ == amap,
            graph.edges() == old(graph).edges(),
            same_functions(nodes0, graph.nodes()),
            nodes0 == old(graph).nodes(),
            amap == old(graph).address_map@,
            frames_applied(nodes0, amap, section@, little_endian, address_size, offsets@.take(k as int)) == (graph.nodes(), true),
        decreases offsets.len() - k,
    {
        let ghost prefix = offsets@.take(k as int);
        proof {
            assert(offsets@.take(k + 1).drop_last() =~= prefix);
        }
        match cfi_fde_rows(section, little_endian, address_size, offsets[k]) {
            Err(e) => {
                proof {
                    assert(offsets@.take(k + 1).last() == offsets@[k as int]);
                    assert(frames_applied(nodes0, amap, section@, little_endian, address_size, offsets@.take(k + 1)) == (graph.nodes(), false));
                    lemma_frames_applied_stops(nodes0, amap, section@, little_endian, address_size, offsets@, k as int + 1);
                }
                return Err(EgeError::DwarfParse(e));
            },
            Ok((initial_address, cfa)) => {
                proof {
                    assert(offsets@.take(k + 1).last() == offsets@[k as int]);
                }
                let size = frame_size_from_cfa(&cfa);
                apply_frame_size(graph, fde_address(initial_address), size);
            },
        }
        k += 1;
    }
    proof {
        assert(offsets@.take(k as int) =~= offsets@);
    }
    match stop {
        Some(e) => Err(EgeError::DwarfParse(e)),
        None => Ok(()),
    }
}

/// Once an entry fails to parse, longer lists of entries fail too and change nothing more.
proof fn lemma_frames_applied_stops(
    nodes: Seq<WcfgNode>,
    amap: Map<u64, usize>,
    section: Seq<u8>,
    little_endian: bool,
    address_size: u8,
    offsets: Seq<usize>,
    n: int,
)
    requires
        0 < n <= offsets.len(),
        !frames_applied(nodes, amap, section, little_endian, address_size, offsets.take(n)).1,
    ensures
        frames_applied(nodes, amap, section, little_endian, address_size, offsets)
            == frames_applied(nodes, amap, section, little_endian, address_size, offsets.take(n)),
    decreases offsets.len() - n,
{
    if n < offsets.len() {
        assert(offsets.take(n + 1).drop_last() =~= offsets.take(n));
        lemma_frames_applied_stops(nodes, amap, section, little_endian, address_size, offsets, n + 1);
    } else {
        assert(offsets.take(n) =~= offsets);
    }
}

/// The size in bytes of a host pointer, the address size gimli assumes for `.debug_frame`.
pub open spec fn native_address_size() -> u8 {
    (usize::BITS / 8) as u8
}

/// Every frame description entry at `offsets` parses, with its unwind table.
pub open spec fn all_fde_rows_parse(section: Seq<u8>, little_endian: bool, address_size: u8, offsets: Seq<usize>) -> bool {
    forall|k: int| 0 <= k < offsets.len() ==> #[trigger] spec_cfi_fde_rows(section, little_endian, address_size, offsets[k]) is Some
}

/// Applying the entries succeeds exactly when every one of them parses.
proof fn lemma_frames_applied_ok(
    nodes: Seq<WcfgNode>,
    amap: Map<u64, usize>,
    section: Seq<u8>,
    little_endian: bool,
    address_size: u8,
    offsets: Seq<usize>,
)
    ensures
        frames_applied(nodes, amap, section, little_endian, address_size, offsets).1 == all_fde_rows_parse(
            section,
            little_endian,
            address_size,
            offsets,
        ),
    decreases offsets.len(),
{
    if offsets.len() > 0 {
        let rest = offsets.drop_last();
        lemma_frames_applied_ok(nodes, amap, section, little_endian, address_size, rest);
        assert forall|k: int| 0 <= k < rest.len() implies rest[k] == offsets[k] by {}
        if all_fde_rows_parse(section, little_endian, address_size, rest) && spec_cfi_fde_rows(
            section,
            little_endian,
            address_size,
            offsets.last(),
        ) is Some {
            assert forall|k: int| 0 <= k < offsets.len() implies #[trigger] spec_cfi_fde_rows(
                section,
                little_endian,
                address_size,
                offsets[k],
            ) is Some by {
                if k < rest.len() {
                    assert(spec_cfi_fde_rows(section, little_endian, address_size, rest[k]) is Some);
                }
            }
        }
        if all_fde_rows_parse(section, little_endian, address_size, offsets) {
            assert(spec_cfi_fde_rows(section, little_endian, address_size, offsets[offsets.len() - 1]) is Some);
            assert forall|k: int| 0 <= k < rest.len() implies #[trigger] spec_cfi_fde_rows(
                section,
                little_endian,
                address_size,
                rest[k],
            ) is Some by {
                assert(spec_cfi_fde_rows(section, little_endian, address_size, offsets[k]) is Some);
            }
        }
    }
}

/// Giving a frame size keeps two sequences of the same functions the same.
proof fn lemma_with_frame_size_models(
    a: Seq<WcfgNode>,
    b: Seq<WcfgNode>,
    amap: Map<u64, usize>,
    address: u64,
    size: usize,
)
    requires
        same_models(a, b),
        forall|x: u64| #[trigger] amap.contains_key(x) ==> amap[x] < a.len(),
    ensures
        same_models(with_frame_size(a, amap, address, size), with_frame_size(b, amap, address, size)),
{
    if amap.contains_key(address) {
        let j = amap[address] as int;
        let wa = with_frame_size(a, amap, address, size);
        let wb = with_frame_size(b, amap, address, size);
        assert(node_model(a[j]) == node_model(b[j]));
        assert forall|i: int| 0 <= i < wa.len() implies node_model(#[trigger] wa[i]) == node_model(wb[i]) by {
            if i != j {
                assert(node_model(a[i]) == node_model(b[i]));
            }
        }
    }
}

/// Applying the same entries keeps two sequences of the same functions the same.
proof fn lemma_frames_applied_models(
    a: Seq<WcfgNode>,
    b: Seq<WcfgNode>,
    amap: Map<u64, usize>,
    section: Seq<u8>,
    little_endian: bool,
    address_size: u8,
    offsets: Seq<usize>,
)
    requires
        same_models(a, b),
        forall|x: u64| #[trigger] amap.contains_key(x) ==> amap[x] < a.len(),
    ensures
        same_models(
            frames_applied(a, amap, section, little_endian, address_size, offsets).0,
            frames_applied(b, amap, section, little_endian, address_size, offsets).0,
        ),
        frames_applied(a, amap, section, little_endian, address_size, offsets).1 == frames_applied(
            b,
            amap,
            section,
            little_endian,
            address_size,
            offsets,
        ).1,
        frames_applied(a, amap, section, little_endian, address_size, offsets).0.len() == a.len(),
    decreases offsets.len(),
{
    if offsets.len() > 0 {
        let rest = offsets.drop_last();
        lemma_frames_applied_models(a, b, amap, section, little_endian, address_size, rest);
        let pa = frames_applied(a, amap, section, little_endian, address_size, rest);
        let pb = frames_applied(b, amap, section, little_endian, address_size, rest);
        if pa.1 {
            if let Some((address, cfa)) = spec_cfi_fde_rows(section, little_endian, address_size, offsets.last()) {
                lemma_with_frame_size_models(
                    pa.0,
                    pb.0,
                    amap,
                    fde_function_address(address),
                    cfa_frame_size(cfa) as usize,
                );
            }
        }
    }
}

/// Extracting the frame sizes keeps two sequences of the same functions the same.
pub proof fn lemma_framed_nodes_models(binary: Seq<u8>, a: Seq<WcfgNode>, b: Seq<WcfgNode>, amap: Map<u64, usize>)
    requires
        same_models(a, b),
        forall|x: u64| #[trigger] amap.contains_key(x) ==> amap[x] < a.len(),
    ensures
        same_models(framed_nodes(binary, a, amap), framed_nodes(binary, b, amap)),
{
    if let Some(Some((_, Some(bytes)))) = spec_elf_section(binary, ".debug_frame"@) {
        if let Some(little_endian) = spec_elf_little_endian(binary) {
            lemma_frames_applied_models(
                a,
                b,
                amap,
                bytes,
                little_endian,
                native_address_size(),
                spec_cfi_fde_offsets(bytes, little_endian, native_address_size()).0,
            );
        }
    }
}

/// The image held by `binary` cannot be parsed, or its `.debug_frame` section cannot be read.
pub open spec fn frame_info_unreadable(binary: Seq<u8>) -> bool {
    match spec_elf_section(binary, ".debug_frame"@) {
        None => true,
        Some(None) => false,
        Some(Some((_, None))) => true,
        Some(Some((_, Some(_)))) => spec_elf_little_endian(binary) is None,
    }
}

/// The `.debug_frame` section of the image held by `binary` is read, but one of its entries, or
/// the unwind table of one of its frame description entries, does not parse.
pub open spec fn frame_info_fails(binary: Seq<u8>) -> bool {
    match spec_elf_section(binary, ".debug_frame"@) {
        Some(Some((_, Some(bytes)))) => match spec_elf_little_endian(binary) {
            Some(little_endian) => {
                let scan = spec_cfi_fde_offsets(bytes, little_endian, native_address_size());
                scan.1 || !all_fde_rows_parse(bytes, little_endian, native_address_size(), scan.0)
            },
            None => false,
        },
        _ => false,
    }
}

/// The functions after a successful extraction of the frame sizes of the image held by `binary`:
/// unchanged when it has no `.debug_frame` section, else with the frame description entries of
/// that section applied.
pub open spec fn framed_nodes(binary: Seq<u8>, nodes: Seq<WcfgNode>, amap: Map<u64, usize>) -> Seq<WcfgNode> {
    match spec_elf_section(binary, ".debug_frame"@) {
        Some(Some((_, Some(bytes)))) => match spec_elf_little_endian(binary) {
            Some(little_endian) => frames_applied(
                nodes,
                amap,
                bytes,
                little_endian,
                native_address_size(),
                spec_cfi_fde_offsets(bytes, little_endian, native_address_size()).0,
            ).0,
            None => nodes,
        },
        _ => nodes,
    }
}

/// Extract stack frame geometry from DWARF CFI sections.
pub fn extract_frame_sizes(binary: &[u8], graph: &mut ExecutionGraph) -> (r: Result<(), EgeError>)
    requires
        old(graph).wf(),
    ensures
        final(graph).wf(),
        final(graph).edges() == old(graph).edges(),
        final(graph).address_map@ == old(graph).address_map@,
        same_functions(old(graph).nodes(), final(graph).nodes()),
        r is Ok ==> final(graph).nodes() == framed_nodes(binary@, old(graph).nodes(), old(graph).address_map@),
        (r matches Err(EgeError::ObjectParse(_))) <==> frame_info_unreadable(binary@),
        (r matches Err(EgeError::DwarfParse(_))) <==> frame_info_fails(binary@),
        r is Err ==> (r matches Err(EgeError::ObjectParse(_))) || (r matches Err(EgeError::DwarfParse(_))),
        match spec_elf_section(binary@, ".debug_frame"@) {
            None => r matches Err(EgeError::ObjectParse(_)) && final(graph).nodes() == old(graph).nodes(),
            Some(None) => r is Ok && final(graph).nodes() == old(graph).nodes(),
            Some(Some((_, None))) => r matches Err(EgeError::ObjectParse(_)) && final(graph).nodes() == old(graph).nodes(),
            Some(Some((_, Some(bytes)))) => match spec_elf_little_endian(binary@) {
                None => r matches Err(EgeError::ObjectParse(_)) && final(graph).nodes() == old(graph).nodes(),
                Some(little_endian) => {
                    let scan = spec_cfi_fde_offsets(bytes, little_endian, native_address_size());
                    let applied = frames_applied(
                        old(graph).nodes(),
                        old(graph).address_map@,
                        bytes,
                        little_endian,
                        native_address_size(),
                        scan.0,
                    );
                    &&& final(graph).nodes() == applied.0
                    &&& (r is Ok <==> applied.1 && !scan.1)
                    &&& (r matches Err(e) ==> e is DwarfParse)
                },
            },
        },
{
    // 1. Locate the .debug_frame section
    let section_data = match elf_section(binary, ".debug_frame") {
        Err(e) => return Err(EgeError::ObjectParse(e)),
        Ok(None) => return Ok(()),  // No debug frame found, fallback required later
        Ok(Some((_, Err(e)))) => return Err(EgeError::ObjectParse(e)),
        Ok(Some((_, Ok(data)))) => data,
    };
    // Determine target endianness dynamically
    let little_endian = match elf_little_endian(binary) {
        Err(e) => return Err(EgeError::ObjectParse(e)),
        Ok(b) => b,
    };
    // 2. Apply the frame geometry of every frame description entry, with gimli's default
    //    address size: that of the host's pointers.
    let ghost nodes0 = graph.nodes();
    let ghost amap0 = graph.address_map@;
    let r = apply_call_frame_info(section_data.as_slice(), little_endian, (usize::BITS / 8) as u8, graph);
    proof {
        lemma_frames_applied_ok(
            nodes0,
            amap0,
            section_data@,
            little_endian,
            native_address_size(),
            spec_cfi_fde_offsets(section_data@, little_endian, native_address_size()).0,
        );
    }
    r
}

} // verus!
