//! Call edges from the disassembly of each function's machine code.
use crate::ege::elf_parser::{elf_section, object_error_message, spec_elf_section};
use crate::types::{CallType, ExecutionGraph, WcfgEdge, WcfgNode, node_model, same_models, graph_add_edge, graph_edge_count, graph_node, graph_node_count};
use capstone::arch::{self, BuildsCapstone};
use capstone::Capstone;
use vstd::prelude::*;

verus! {

broadcast use vstd::std_specs::hash::group_hash_axioms;

/// A capstone disassembler handle, carried through opaquely.
#[verifier::external_type_specification]
#[verifier::external_body]
pub struct ExCapstone(Capstone);

/// A capstone disassembler for ARM in Thumb mode; `thumb_disassembler` is the only way to make one.
struct ThumbDisassembler {
    cs: Capstone,
}

/// A decoded instruction: its mnemonic and operand text, as bytes, when capstone provides them.
#[derive(Debug, Clone)]
pub struct DecodedInsn {
    pub mnemonic: Option<Vec<u8>>,
    pub op_str: Option<Vec<u8>>,
}

/// Optional bytes as a sequence.
pub open spec fn bytes_view(b: Option<Vec<u8>>) -> Option<Seq<u8>> {
    match b {
        Some(v) => Some(v@),
        None => None,
    }
}

/// A decoded instruction as its mnemonic and operand text.
pub open spec fn insn_view(i: DecodedInsn) -> (Option<Seq<u8>>, Option<Seq<u8>>) {
    (bytes_view(i.mnemonic), bytes_view(i.op_str))
}

/// Decoded instructions as their mnemonics and operand texts.
pub open spec fn insn_views(s: Seq<DecodedInsn>) -> Seq<(Option<Seq<u8>>, Option<Seq<u8>>)> {
    s.map_values(|i: DecodedInsn| insn_view(i))
}

/// The instructions that capstone, in ARM Thumb mode, decodes from `code` placed at `address`, in
/// order, each as its mnemonic and operand text.
pub uninterp spec fn thumb_disassembly(code: Seq<u8>, address: u64) -> Seq<(Option<Seq<u8>>, Option<Seq<u8>>)>;

/// `Capstone::new().arm().mode(Thumb).build()`. It succeeds: capstone's source (`cs_open`, with
/// the ARM architecture built in by default) fails only when its allocation fails, and this library,
/// as vstd does for `Vec`, does not model running out of memory. Its error would carry a message
/// starting with `Capstone init failed: `.
#[verifier::external_body]
fn thumb_disassembler() -> (r: Result<ThumbDisassembler, String>)
    ensures
        r is Ok,
{
    Capstone::new().arm().mode(arch::arm::ArchMode::Thumb).build().map(|cs| ThumbDisassembler { cs }).map_err(
        |e| format!("Capstone init failed: {}", e),
    )
}

/// `Capstone::disasm_all` on `code` placed at `address`, each instruction taken by its `mnemonic()`
/// and `op_str()`: the instructions named `thumb_disassembly`. It succeeds: capstone's source
/// (`cs_disasm`) reports an error only when its allocation fails, which this library does not
/// model (as for `thumb_disassembler`).
#[verifier::external_body]
fn disassemble(d: &ThumbDisassembler, code: &[u8], address: u64) -> (r: Option<Vec<DecodedInsn>>)
    ensures
        r is Some,
        r matches Some(insns) ==> insn_views(insns@) == thumb_disassembly(code@, address),
{
    d.cs.disasm_all(code, address).ok().map(|insns| insns.as_ref().iter().map(|i| DecodedInsn {
        mnemonic: i.mnemonic().map(|m| m.as_bytes().to_vec()),
        op_str: i.op_str().map(|o| o.as_bytes().to_vec()),
    }).collect())
}

/// The value of a hexadecimal digit (`0-9`, `a-f`, `A-F`).
pub open spec fn hex_digit(b: u8) -> Option<int> {
    if 48 <= b <= 57 {
        Some(b - 48)
    } else if 97 <= b <= 102 {
        Some(b - 97 + 10)
    } else if 65 <= b <= 70 {
        Some(b - 65 + 10)
    } else {
        None
    }
}

/// The value of a string of hexadecimal digits, most significant first; `None` if one is not a digit.
pub open spec fn hex_value(d: Seq<u8>) -> Option<int>
    decreases d.len(),
{
    if d.len() == 0 {
        Some(0)
    } else {
        match (hex_value(d.drop_last()), hex_digit(d.last())) {
            (Some(v), Some(x)) => Some(v * 16 + x),
            _ => None,
        }
    }
}

/// `u64::from_str_radix(s, 16)`: an optional `+`, then one or more hexadecimal digits whose value
/// fits in a `u64`.
pub open spec fn radix16_u64(s: Seq<u8>) -> Option<u64> {
    let digits = if s.len() > 0 && s[0] == 43u8 { s.drop_first() } else { s };
    if digits.len() == 0 {
        None
    } else {
        match hex_value(digits) {
            Some(v) => if v <= u64::MAX { Some(v as u64) } else { None },
            None => None,
        }
    }
}

/// `s` with all leading `#` removed.
pub open spec fn trim_hashes(s: Seq<u8>) -> Seq<u8>
    decreases s.len(),
{
    if s.len() > 0 && s[0] == 35u8 {
        trim_hashes(s.drop_first())
    } else {
        s
    }
}

/// `s` with all leading `0x` removed.
pub open spec fn trim_hex_prefixes(s: Seq<u8>) -> Seq<u8>
    decreases s.len(),
{
    if s.len() >= 2 && s[0] == 48u8 && s[1] == 120u8 {
        trim_hex_prefixes(s.subrange(2, s.len() as int))
    } else {
        s
    }
}

/// The mnemonic is `bl` or `blx`.
pub open spec fn is_call_mnemonic(m: Option<Seq<u8>>) -> bool {
    match m {
        Some(v) => v == seq![98u8, 108u8] || v == seq![98u8, 108u8, 120u8],
        None => false,
    }
}

/// The call target of an instruction: for `bl`/`blx` with an operand `#0x<hex>`, the hexadecimal
/// address with the Thumb bit cleared.
pub open spec fn insn_call_target(insn: (Option<Seq<u8>>, Option<Seq<u8>>)) -> Option<u64> {
    if is_call_mnemonic(insn.0) {
        match insn.1 {
            Some(op) => match radix16_u64(trim_hex_prefixes(trim_hashes(op))) {
                Some(t) => Some(t & !1u64),
                None => None,
            },
            None => None,
        }
    } else {
        None
    }
}

/// The call targets of the instructions, in order.
pub open spec fn call_targets_of(insns: Seq<(Option<Seq<u8>>, Option<Seq<u8>>)>) -> Seq<u64>
    decreases insns.len(),
{
    if insns.len() == 0 {
        Seq::empty()
    } else {
        let rest = call_targets_of(insns.drop_last());
        match insn_call_target(insns.last()) {
            Some(t) => rest.push(t),
            None => rest,
        }
    }
}

/// The call edges from `source` to the functions among `targets` that the address map knows, in order.
pub open spec fn call_edges(source: usize, targets: Seq<u64>, amap: Map<u64, usize>) -> Seq<(usize, usize, WcfgEdge)>
    decreases targets.len(),
{
    if targets.len() == 0 {
        Seq::empty()
    } else {
        let rest = call_edges(source, targets.drop_last(), amap);
        if amap.contains_key(targets.last()) {
            rest.push((source, amap[targets.last()], WcfgEdge { call_type: CallType::Direct }))
        } else {
            rest
        }
    }
}

/// Trimming removes exactly the leading `#` characters: what is left is the rest of the operand
/// and does not start with `#`.
pub proof fn law_trim_hashes(s: Seq<u8>)
    ensures
        exists|k: int|
            0 <= k <= s.len() && (forall|j: int| 0 <= j < k ==> s[j] == 35u8) && #[trigger] s.skip(k) == trim_hashes(s),
        !(trim_hashes(s).len() > 0 && trim_hashes(s)[0] == 35u8),
    decreases s.len(),
{
    if s.len() > 0 && s[0] == 35u8 {
        law_trim_hashes(s.drop_first());
        let k = choose|k: int|
            0 <= k <= s.drop_first().len() && (forall|j: int| 0 <= j < k ==> s.drop_first()[j] == 35u8)
                && #[trigger] s.drop_first().skip(k) == trim_hashes(s.drop_first());
        assert(s.skip(k + 1) =~= s.drop_first().skip(k));
        assert forall|j: int| 0 <= j < k + 1 implies s[j] == 35u8 by {
            if j > 0 {
                assert(s[j] == s.drop_first()[j - 1]);
            }
        }
    } else {
        assert(s.skip(0) =~= s);
    }
}

/// Trimming removes exactly the leading `0x` pairs: what is left is the rest of the operand and
/// does not start with `0x`.
pub proof fn law_trim_hex_prefixes(s: Seq<u8>)
    ensures
        exists|k: int|
            0 <= k && 2 * k <= s.len() && (forall|j: int|
                0 <= j < 2 * k ==> #[trigger] s[j] == (if j % 2 == 0 {
                    48u8
                } else {
                    120u8
                })) && #[trigger] s.skip(2 * k) == trim_hex_prefixes(s),
        !(trim_hex_prefixes(s).len() >= 2 && trim_hex_prefixes(s)[0] == 48u8 && trim_hex_prefixes(s)[1] == 120u8),
    decreases s.len(),
{
    if s.len() >= 2 && s[0] == 48u8 && s[1] == 120u8 {
        let t = s.subrange(2, s.len() as int);
        law_trim_hex_prefixes(t);
        let k = choose|k: int|
            0 <= k && 2 * k <= t.len() && (forall|j: int|
                0 <= j < 2 * k ==> #[trigger] t[j] == (if j % 2 == 0 {
                    48u8
                } else {
                    120u8
                })) && #[trigger] t.skip(2 * k) == trim_hex_prefixes(t);
        let k2 = k + 1;
        assert(s.skip(2 * k2) =~= t.skip(2 * k));
        assert(trim_hex_prefixes(s) == trim_hex_prefixes(t));
        assert forall|j: int| 0 <= j < 2 * k2 implies #[trigger] s[j] == (if j % 2 == 0 {
            48u8
        } else {
            120u8
        }) by {
            if j >= 2 {
                assert(s[j] == t[j - 2]);
                assert((j - 2) % 2 == j % 2);
            }
        }
        assert(2 * k2 <= s.len());
    } else {
        let k0: int = 0;
        assert(s.skip(2 * k0) =~= s);
    }
}

/// A call target is the operand's hexadecimal value with only the Thumb bit cleared, and only
/// `bl`/`blx` with an operand have one.
pub proof fn law_insn_call_target(insn: (Option<Seq<u8>>, Option<Seq<u8>>))
    ensures
        insn_call_target(insn) is Some ==> {
            &&& is_call_mnemonic(insn.0)
            &&& insn.1 is Some
            &&& radix16_u64(trim_hex_prefixes(trim_hashes(insn.1->0))) is Some
            &&& insn_call_target(insn)->0 % 2 == 0
            &&& insn_call_target(insn)->0 + radix16_u64(trim_hex_prefixes(trim_hashes(insn.1->0)))->0 % 2
                == radix16_u64(trim_hex_prefixes(trim_hashes(insn.1->0)))->0
        },
        (is_call_mnemonic(insn.0) && insn.1 is Some && radix16_u64(trim_hex_prefixes(trim_hashes(insn.1->0))) is Some)
            ==> insn_call_target(insn) is Some,
{
    if insn_call_target(insn) is Some {
        let v = radix16_u64(trim_hex_prefixes(trim_hashes(insn.1->0)))->0;
        assert((v & !1u64) % 2 == 0 && (v & !1u64) + v % 2 == v) by (bit_vector);
    }
}

/// The call edges from `source` are one direct edge to each known target, in order: unknown
/// targets are passed over.
pub proof fn law_call_edges_known_targets(source: usize, targets: Seq<u64>, amap: Map<u64, usize>)
    ensures
        call_edges(source, targets, amap) == targets.filter(|t: u64| amap.contains_key(t)).map_values(
            |t: u64| (source, amap[t], WcfgEdge { call_type: CallType::Direct }),
        ),
    decreases targets.len(),
{
    reveal_with_fuel(Seq::filter, 1);
    if targets.len() > 0 {
        law_call_edges_known_targets(source, targets.drop_last(), amap);
        let f = |t: u64| (source, amap[t], WcfgEdge { call_type: CallType::Direct });
        let rest = targets.drop_last().filter(|t: u64| amap.contains_key(t));
        if amap.contains_key(targets.last()) {
            assert(rest.push(targets.last()).map_values(f) =~= rest.map_values(f).push(f(targets.last())));
        }
    }
}

/// A digit string's value is never negative.
proof fn lemma_hex_value_nonneg(d: Seq<u8>)
    ensures
        hex_value(d) matches Some(v) ==> v >= 0,
    decreases d.len(),
{
    if d.len() > 0 {
        lemma_hex_value_nonneg(d.drop_last());
    }
}

/// A direct call edge to a function that the address map knows.
pub open spec fn is_known_call(amap: Map<u64, usize>, e: (usize, usize, WcfgEdge)) -> bool {
    &&& e.2 == WcfgEdge { call_type: CallType::Direct }
    &&& exists|a: u64| amap.contains_key(a) && amap[a] == e.1
}

/// A prefix of a digit string has a value no larger than the whole string's.
proof fn lemma_hex_value_prefix(d: Seq<u8>, n: int)
    requires
        0 <= n <= d.len(),
        hex_value(d) is Some,
    ensures
        hex_value(d.take(n)) is Some,
        hex_value(d.take(n))->0 <= hex_value(d)->0,
    decreases d.len() - n,
{
    if n < d.len() {
        lemma_hex_value_prefix(d, n + 1);
        assert(d.take(n + 1).drop_last() =~= d.take(n));
        assert(hex_value(d.take(n + 1)) is Some);
        lemma_hex_value_nonneg(d.take(n));
    } else {
        assert(d.take(n) =~= d);
    }
}

/// Hexadecimal digits have their standard values: `0`-`9` are 0-9, and both `a`-`f` and `A`-`F` are
/// 10-15; no other byte is a digit.
pub proof fn law_hex_digit_values(b: u8)
    ensures
        48 <= b <= 57 ==> hex_digit(b) == Some(b - 48),
        97 <= b <= 102 ==> hex_digit(b) == Some(b - 87),
        65 <= b <= 70 ==> hex_digit(b) == Some(b - 55),
        !(48 <= b <= 57 || 97 <= b <= 102 || 65 <= b <= 70) ==> hex_digit(b) is None,
{
}

/// A one-digit operand is read as that digit's standard value, lowercase and uppercase letters alike.
pub proof fn law_single_hex_digit(b: u8)
    ensures
        48 <= b <= 57 ==> radix16_u64(seq![b]) == Some((b - 48) as u64),
        97 <= b <= 102 ==> radix16_u64(seq![b]) == Some((b - 87) as u64),
        65 <= b <= 70 ==> radix16_u64(seq![b]) == Some((b - 55) as u64),
        !(48 <= b <= 57 || 97 <= b <= 102 || 65 <= b <= 70) ==> radix16_u64(seq![b]) is None,
{
    let s = seq![b];
    assert(s.drop_last() =~= Seq::<u8>::empty());
    assert(s.last() == b);
    if b != 43 {
        assert(hex_value(s) == match (hex_value(s.drop_last()), hex_digit(b)) {
            (Some(v), Some(x)) => Some(v * 16 + x),
            _ => None::<int>,
        });
    } else {
        assert(s.drop_first().len() == 0);
    }
}

/// Appending a hexadecimal digit to an operand without a sign multiplies its value by 16 and adds
/// the digit's standard value, as long as the result fits in a `u64`.
pub proof fn law_hex_append_digit(s: Seq<u8>, b: u8, v: u64)
    requires
        s.len() > 0,
        s[0] != 43u8,
        radix16_u64(s) == Some(v),
        48 <= b <= 57 || 97 <= b <= 102 || 65 <= b <= 70,
    ensures
        ({
            let d: int = if b <= 57 {
                b - 48
            } else if b >= 97 {
                b - 87
            } else {
                b - 55
            };
            v * 16 + d <= u64::MAX ==> radix16_u64(s.push(b)) == Some((v * 16 + d) as u64)
        }),
{
    let t = s.push(b);
    assert(t.drop_last() =~= s);
    assert(t[0] == s[0]);
    lemma_hex_value_nonneg(s);
}

/// A hexadecimal digit's value.
fn hex_digit_value(b: u8) -> (r: Option<u64>)
    ensures
        match hex_digit(b) {
            Some(x) => r == Some(x as u64),
            None => r is None,
        },
        48 <= b <= 57 ==> r == Some((b - 48) as u64),
        97 <= b <= 102 ==> r == Some((b - 87) as u64),
        65 <= b <= 70 ==> r == Some((b - 55) as u64),
{
    if 48 <= b && b <= 57 {
        Some((b - 48) as u64)
    } else if 97 <= b && b <= 102 {
        Some((b - 97 + 10) as u64)
    } else if 65 <= b && b <= 70 {
        Some((b - 65 + 10) as u64)
    } else {
        None
    }
}

/// Parses `s[start..]` as `u64::from_str_radix` with radix 16 does.
pub fn parse_radix16_u64(s: &[u8], start: usize) -> (r: Option<u64>)
    requires
        start <= s@.len(),
    ensures
        r == radix16_u64(s@.skip(start as int)),
{
    let ghost src = s@.skip(start as int);
    let mut i = start;
    if i < s.len() && s[i] == 43u8 {
        i += 1;
    }
    let ghost digits = s@.skip(i as int);
    assert(digits == if src.len() > 0 && src[0] == 43u8 { src.drop_first() } else { src });
    if i == s.len() {
        return None;
    }
    let mut v: u64 = 0;
    let mut k = i;
    while k < s.len()
        invariant
            i <= k <= s@.len(),
            i < s@.len(),
            digits == s@.skip(i as int),
            src == s@.skip(start as int),
            digits == (if src.len() > 0 && src[0] == 43u8 { src.drop_first() } else { src }),
            hex_value(s@.subrange(i as int, k as int)) == Some(v as int),
        decreases s.len() - k,
    {
        let ghost prefix = s@.subrange(i as int, k as int);
        proof {
            assert(s@.subrange(i as int, k + 1).drop_last() =~= prefix);
            assert(s@.subrange(i as int, k + 1).last() == s@[k as int]);
        }
        let x = match hex_digit_value(s[k]) {
            Some(x) => x,
            None => {
                proof {
                    assert(hex_value(s@.subrange(i as int, k + 1)) is None);
                    if hex_value(digits) is Some {
                        assert(digits.take(k + 1 - i) =~= s@.subrange(i as int, k + 1));
                        lemma_hex_value_prefix(digits, k + 1 - i);
                    }
                }
                return None;
            },
        };
        if v > (u64::MAX - x) / 16 {
            proof {
                assert(v * 16 + x > u64::MAX);
                if hex_value(digits) is Some {
                    assert(digits.take(k + 1 - i) =~= s@.subrange(i as int, k + 1));
                    lemma_hex_value_prefix(digits, k + 1 - i);
                }
            }
            return None;
        }
        v = v * 16 + x;
        k += 1;
    }
    proof {
        assert(s@.subrange(i as int, k as int) =~= digits);
    }
    Some(v)
}

/// The call target named by the operand text of a `bl`/`blx`: leading `#` and `0x` removed, the
/// rest read as hexadecimal, the Thumb bit cleared.
pub fn operand_call_target(op: &[u8]) -> (r: Option<u64>)
    ensures
        r == (match radix16_u64(trim_hex_prefixes(trim_hashes(op@))) {
            Some(t) => Some(t & !1u64),
            None => None,
        }),
{
    let mut i: usize = 0;
    assert(op@.skip(0) =~= op@);
    while i < op.len() && op[i] == 35u8
        invariant
            i <= op@.len(),
            trim_hashes(op@) == trim_hashes(op@.skip(i as int)),
        decreases op.len() - i,
    {
        proof {
            assert(op@.skip(i as int).drop_first() =~= op@.skip(i + 1));
        }
        i += 1;
    }
    assert(trim_hashes(op@) == op@.skip(i as int));
    while op.len() - i >= 2 && op[i] == 48u8 && op[i + 1] == 120u8
        invariant
            i <= op@.len(),
            trim_hex_prefixes(trim_hashes(op@)) == trim_hex_prefixes(op@.skip(i as int)),
        decreases op.len() - i,
    {
        proof {
            let t = op@.skip(i as int);
            assert(t.subrange(2, t.len() as int) =~= op@.skip(i + 2));
        }
        i += 2;
    }
    assert(trim_hex_prefixes(trim_hashes(op@)) == op@.skip(i as int));
    match parse_radix16_u64(op, i) {
        Some(target_addr) => Some(target_addr & !1u64),
        None => None,
    }
}

/// Whether the mnemonic is `bl` or `blx`.
fn is_call(m: &Option<Vec<u8>>) -> (r: bool)
    ensures
        r == is_call_mnemonic(bytes_view(*m)),
{
    match m {
        Some(v) => {
            let r = (v.len() == 2 && v[0] == 98u8 && v[1] == 108u8) || (v.len() == 3 && v[0] == 98u8 && v[1]
                == 108u8 && v[2] == 120u8);
            proof {
                if v.len() == 2 && v[0] == 98u8 && v[1] == 108u8 {
                    assert(v@ =~= seq![98u8, 108u8]);
                }
                if v.len() == 3 && v[0] == 98u8 && v[1] == 108u8 && v[2] == 120u8 {
                    assert(v@ =~= seq![98u8, 108u8, 120u8]);
                }
            }
            r
        },
        None => false,
    }
}

/// The call targets of the `bl`/`blx` instructions among `insns`, in order.
pub fn call_targets(insns: &Vec<DecodedInsn>) -> (targets: Vec<u64>)
    ensures
        targets@ == call_targets_of(insn_views(insns@)),
{
    let mut targets: Vec<u64> = Vec::new();
    let mut i: usize = 0;
    while i < insns.len()
        invariant
            i <= insns.len(),
            targets@ == call_targets_of(insn_views(insns@.take(i as int))),
        decreases insns.len() - i,
    {
        proof {
            assert(insn_views(insns@.take(i + 1)).drop_last() =~= insn_views(insns@.take(i as int)));
            assert(insn_views(insns@.take(i + 1)).last() == insn_view(insns@[i as int]));
        }
        let insn = &insns[i];
        if is_call(&insn.mnemonic) {
            if let Some(op_str) = &insn.op_str {
                if let Some(target) = operand_call_target(op_str.as_slice()) {
                    targets.push(target);
                }
            }
        }
        i += 1;
    }
    proof {
        assert(insns@.take(i as int) =~= insns@);
    }
    targets
}

/// The call edges of a prefix of the targets are no more than those of all of them.
proof fn lemma_call_edges_prefix(source: usize, targets: Seq<u64>, amap: Map<u64, usize>, n: int)
    requires
        0 <= n <= targets.len(),
    ensures
        call_edges(source, targets.take(n), amap).len() <= call_edges(source, targets, amap).len(),
        call_edges(source, targets, amap).len() <= targets.len(),
    decreases targets.len() - n,
{
    if n < targets.len() {
        lemma_call_edges_prefix(source, targets, amap, n + 1);
        assert(targets.take(n + 1).drop_last() =~= targets.take(n));
    } else {
        assert(targets.take(n) =~= targets);
        lemma_call_edges_len(source, targets, amap);
    }
}

/// There are no more call edges than targets.
proof fn lemma_call_edges_len(source: usize, targets: Seq<u64>, amap: Map<u64, usize>)
    ensures
        call_edges(source, targets, amap).len() <= targets.len(),
    decreases targets.len(),
{
    if targets.len() > 0 {
        lemma_call_edges_len(source, targets.drop_last(), amap);
    }
}

/// Adds a direct call edge from `source` to each function among `targets` that the address map knows.
pub fn wire_calls(graph: &mut ExecutionGraph, source: usize, targets: &Vec<u64>)
    requires
        old(graph).wf(),
        source < old(graph).nodes().len(),
        old(graph).edges().len() + call_edges(source, targets@, old(graph).address_map@).len() <= u32::MAX,
    ensures
        final(graph).wf(),
        final(graph).nodes() == old(graph).nodes(),
        final(graph).address_map@ == old(graph).address_map@,
        final(graph).edges() == old(graph).edges() + call_edges(source, targets@, old(graph).address_map@),
{
    let ghost amap = graph.address_map@;
    let mut i: usize = 0;
    while i < targets.len()
        invariant
            i <= targets.len(),
            graph.wf(),
            source < graph.nodes().len(),
            graph.nodes() == old(graph).nodes(),
            graph.address_map@ == amap,
            amap == old(graph).address_map@,
            old(graph).edges().len() + call_edges(source, targets@, amap).len() <= u32::MAX,
            graph.edges() == old(graph).edges() + call_edges(source, targets@.take(i as int), amap),
        decreases targets.len() - i,
    {
        proof {
            assert(targets@.take(i + 1).drop_last() =~= targets@.take(i as int));
            assert(targets@.take(i + 1).last() == targets@[i as int]);
            lemma_call_edges_prefix(source, targets@, amap, i + 1);
        }
        let target_addr = targets[i];
        // If the target exists in our graph, wire the edge!
        match graph.address_map.get(&target_addr) {
            Some(target_idx) => {
                let target_idx = *target_idx;
                let ghost old_edges = graph.edges();
                graph_add_edge(&mut graph.graph, source, target_idx, WcfgEdge { call_type: CallType::Direct });
                proof {
                    assert(graph.edges() =~= old(graph).edges() + call_edges(source, targets@.take(i + 1), amap));
                    assert forall|k: int| 0 <= k < graph.edges().len() implies (#[trigger] graph.edges()[k]).0
                        < graph.nodes().len() && graph.edges()[k].1 < graph.nodes().len() by {
                        if k < old_edges.len() {
                            assert(graph.edges()[k] == old_edges[k]);
                        }
                    }
                }
            },
            None => {
                proof {
                    assert(graph.edges() =~= old(graph).edges() + call_edges(source, targets@.take(i + 1), amap));
                }
            },
        }
        i += 1;
    }
    proof {
        assert(targets@.take(i as int) =~= targets@);
    }
}

/// The number of call edges from `source` to the functions among `targets` that the address map
/// knows.
pub fn known_call_count(graph: &ExecutionGraph, source: usize, targets: &Vec<u64>) -> (count: usize)
    ensures
        count == call_edges(source, targets@, graph.address_map@).len(),
{
    let ghost amap = graph.address_map@;
    let mut count: usize = 0;
    let mut i: usize = 0;
    while i < targets.len()
        invariant
            i <= targets.len(),
            amap == graph.address_map@,
            count == call_edges(source, targets@.take(i as int), amap).len(),
            count <= i,
        decreases targets.len() - i,
    {
        proof {
            assert(targets@.take(i + 1).drop_last() =~= targets@.take(i as int));
            assert(targets@.take(i + 1).last() == targets@[i as int]);
        }
        if graph.address_map.contains_key(&targets[i]) {
            count += 1;
        }
        i += 1;
    }
    proof {
        assert(targets@.take(i as int) =~= targets@);
    }
    count
}

/// A copy of `data[start..start + len]`.
fn copy_range(data: &Vec<u8>, start: usize, len: usize) -> (r: Vec<u8>)
    requires
        start + len <= data@.len(),
    ensures
        r@ == data@.subrange(start as int, start + len),
{
    let mut r: Vec<u8> = Vec::new();
    let mut k: usize = 0;
    let data_len = data.len();
    while k < len
        invariant
            k <= len,
            data_len == data@.len(),
            start + len <= data@.len(),
            r@ == data@.subrange(start as int, start + k),
        decreases len - k,
    {
        r.push(data[start + k]);
        proof {
            assert(r@ =~= data@.subrange(start as int, start + k + 1));
        }
        k += 1;
    }
    r
}

/// The machine code of function `n` within the `.text` bytes placed at `text_addr`: from its
/// address, at most its symbol size and no further than the end of `.text`; `None` when it starts
/// outside `.text` or has no size.
pub open spec fn function_code(n: WcfgNode, text_addr: u64, text: Seq<u8>) -> Option<Seq<u8>> {
    if n.physical_address >= text_addr && n.physical_address - text_addr < text.len() && n.symbol_size_bytes != 0 {
        let offset = n.physical_address - text_addr;
        let len = if n.symbol_size_bytes < text.len() - offset {
            n.symbol_size_bytes as int
        } else {
            text.len() - offset
        };
        Some(text.subrange(offset, offset + len))
    } else {
        None
    }
}

/// A function has code exactly when it starts inside `.text` (at its first byte too) and has a
/// nonzero size; its code then starts at its own byte of `.text` and runs for its size, cut at the
/// end of `.text`.
pub proof fn law_function_code(n: WcfgNode, text_addr: u64, text: Seq<u8>)
    ensures
        (function_code(n, text_addr, text) is Some) <==> (text_addr <= n.physical_address && n.physical_address
            < text_addr + text.len() && n.symbol_size_bytes != 0),
        function_code(n, text_addr, text) matches Some(code) ==> {
            let offset = n.physical_address - text_addr;
            &&& code.len() == (if n.symbol_size_bytes < text.len() - offset {
                n.symbol_size_bytes as int
            } else {
                text.len() - offset
            })
            &&& forall|k: int| 0 <= k < code.len() ==> code[k] == text[offset + k]
        },
{
}

/// The call edges of function `source`: one direct edge for each `bl`/`blx` in the Thumb
/// disassembly of its code whose target the address map knows, in order.
pub open spec fn function_call_edges(
    source: usize,
    n: WcfgNode,
    text_addr: u64,
    text: Seq<u8>,
    amap: Map<u64, usize>,
) -> Seq<(usize, usize, WcfgEdge)> {
    match function_code(n, text_addr, text) {
        Some(code) => call_edges(source, call_targets_of(thumb_disassembly(code, n.physical_address)), amap),
        None => Seq::empty(),
    }
}

/// The call edges of the functions `nodes`, function by function.
pub open spec fn cfg_edges(nodes: Seq<WcfgNode>, text_addr: u64, text: Seq<u8>, amap: Map<u64, usize>) -> Seq<
    (usize, usize, WcfgEdge),
>
    decreases nodes.len(),
{
    if nodes.len() == 0 {
        Seq::empty()
    } else {
        cfg_edges(nodes.drop_last(), text_addr, text, amap) + function_call_edges(
            (nodes.len() - 1) as usize,
            nodes.last(),
            text_addr,
            text,
            amap,
        )
    }
}

/// `added` are the call edges of the functions `nodes` found in the `.text` section `text_section`
/// (as `spec_elf_section` reads it).
pub open spec fn text_call_edges(
    text_section: Option<Option<(u64, Option<Seq<u8>>)>>,
    nodes: Seq<WcfgNode>,
    amap: Map<u64, usize>,
    added: Seq<(usize, usize, WcfgEdge)>,
) -> bool {
    match text_section {
        Some(Some((text_addr, Some(text)))) => cfg_edges(nodes, text_addr, text, amap) == added,
        _ => false,
    }
}

/// With `base` edges already in the graph and the call edges of the functions before function `i`
/// added, those of function `i` would take the edge count past `u32::MAX`.
pub open spec fn call_edges_overflow(
    nodes: Seq<WcfgNode>,
    text_addr: u64,
    text: Seq<u8>,
    amap: Map<u64, usize>,
    base: int,
    i: int,
) -> bool {
    &&& 0 <= i < nodes.len()
    &&& function_code(nodes[i], text_addr, text) is Some
    &&& base + cfg_edges(nodes.take(i), text_addr, text, amap).len() + function_call_edges(
        i as usize,
        nodes[i],
        text_addr,
        text,
        amap,
    ).len() > u32::MAX
}

/// Adding the call edges of the functions `nodes` found in the `.text` section `text_section` to a
/// graph of `base` edges takes, at some function, the edge count past `u32::MAX`.
pub open spec fn text_edges_overflow(
    text_section: Option<Option<(u64, Option<Seq<u8>>)>>,
    nodes: Seq<WcfgNode>,
    amap: Map<u64, usize>,
    base: int,
) -> bool {
    match text_section {
        Some(Some((text_addr, Some(text)))) => exists|i: int|
            #[trigger] call_edges_overflow(nodes, text_addr, text, amap, base, i),
        _ => false,
    }
}

/// The edges `added` all leave functions of `nodes` that have code in the `.text` section
/// `text_section` (as `spec_elf_section` reads it); none are added when that section is not read.
pub open spec fn edges_from_code(
    text_section: Option<Option<(u64, Option<Seq<u8>>)>>,
    nodes: Seq<WcfgNode>,
    added: Seq<(usize, usize, WcfgEdge)>,
) -> bool {
    match text_section {
        Some(Some((text_addr, Some(text)))) => forall|k: int|
            0 <= k < added.len() ==> (#[trigger] added[k]).0 < nodes.len() && function_code(
                nodes[added[k].0 as int],
                text_addr,
                text,
            ) is Some,
        _ => added.len() == 0,
    }
}

/// Every call edge leaves `source`.
proof fn lemma_call_edges_source(source: usize, targets: Seq<u64>, amap: Map<u64, usize>)
    ensures
        forall|k: int|
            0 <= k < call_edges(source, targets, amap).len() ==> (#[trigger] call_edges(source, targets, amap)[k]).0
                == source,
    decreases targets.len(),
{
    if targets.len() > 0 {
        lemma_call_edges_source(source, targets.drop_last(), amap);
        let rest = call_edges(source, targets.drop_last(), amap);
        let all = call_edges(source, targets, amap);
        assert forall|k: int| 0 <= k < all.len() implies (#[trigger] all[k]).0 == source by {
            if k < rest.len() {
                assert(all[k] == rest[k]);
            }
        }
    }
}

/// The call edges of the functions leave functions that have code in `.text`.
proof fn lemma_cfg_edges_from_code(nodes: Seq<WcfgNode>, text_addr: u64, text: Seq<u8>, amap: Map<u64, usize>)
    requires
        nodes.len() <= usize::MAX,
    ensures
        forall|k: int|
            0 <= k < cfg_edges(nodes, text_addr, text, amap).len() ==> (#[trigger] cfg_edges(
                nodes,
                text_addr,
                text,
                amap,
            )[k]).0 < nodes.len() && function_code(
                nodes[cfg_edges(nodes, text_addr, text, amap)[k].0 as int],
                text_addr,
                text,
            ) is Some,
    decreases nodes.len(),
{
    if nodes.len() > 0 {
        let prev = nodes.drop_last();
        lemma_cfg_edges_from_code(prev, text_addr, text, amap);
        let rest = cfg_edges(prev, text_addr, text, amap);
        let all = cfg_edges(nodes, text_addr, text, amap);
        let i = (nodes.len() - 1) as usize;
        let step = function_call_edges(i, nodes.last(), text_addr, text, amap);
        if function_code(nodes.last(), text_addr, text) is Some {
            lemma_call_edges_source(
                i,
                call_targets_of(
                    thumb_disassembly(function_code(nodes.last(), text_addr, text)->0, nodes.last().physical_address),
                ),
                amap,
            );
        }
        assert forall|k: int| 0 <= k < all.len() implies (#[trigger] all[k]).0 < nodes.len() && function_code(
            nodes[all[k].0 as int],
            text_addr,
            text,
        ) is Some by {
            if k < rest.len() {
                assert(all[k] == rest[k]);
                assert(nodes[rest[k].0 as int] == prev[rest[k].0 as int]);
            } else {
                assert(all[k] == step[k - rest.len()]);
                assert(nodes[i as int] == nodes.last());
            }
        }
    }
}

/// The call edges of the first `n` functions, added to `edges0`, leave functions with code in `.text`.
proof fn lemma_prefix_edges_from_code(
    nodes: Seq<WcfgNode>,
    text_addr: u64,
    text: Seq<u8>,
    amap: Map<u64, usize>,
    n: int,
    edges0: Seq<(usize, usize, WcfgEdge)>,
    edges: Seq<(usize, usize, WcfgEdge)>,
)
    requires
        0 <= n <= nodes.len(),
        nodes.len() <= usize::MAX,
        edges == edges0 + cfg_edges(nodes.take(n), text_addr, text, amap),
    ensures
        edges_from_code(Some(Some((text_addr, Some(text)))), nodes, edges.skip(edges0.len() as int)),
{
    let prefix = nodes.take(n);
    let added = cfg_edges(prefix, text_addr, text, amap);
    lemma_cfg_edges_from_code(prefix, text_addr, text, amap);
    assert(edges.skip(edges0.len() as int) =~= added);
    assert forall|k: int| 0 <= k < added.len() implies (#[trigger] added[k]).0 < nodes.len() && function_code(
        nodes[added[k].0 as int],
        text_addr,
        text,
    ) is Some by {
        assert(prefix[added[k].0 as int] == nodes[added[k].0 as int]);
    }
    let section: Option<Option<(u64, Option<Seq<u8>>)>> = Some(Some((text_addr, Some(text))));
    assert(section matches Some(Some((a, Some(t)))) && a == text_addr && t == text);
}

/// The call edges depend only on the functions' addresses and sizes.
proof fn lemma_cfg_edges_models(a: Seq<WcfgNode>, b: Seq<WcfgNode>, text_addr: u64, text: Seq<u8>, amap: Map<u64, usize>)
    requires
        same_models(a, b),
    ensures
        cfg_edges(a, text_addr, text, amap) == cfg_edges(b, text_addr, text, amap),
    decreases a.len(),
{
    if a.len() > 0 {
        assert(same_models(a.drop_last(), b.drop_last())) by {
            assert forall|i: int| 0 <= i < a.drop_last().len() implies node_model(#[trigger] a.drop_last()[i])
                == node_model(b.drop_last()[i]) by {
                assert(node_model(a[i]) == node_model(b[i]));
            }
        }
        lemma_cfg_edges_models(a.drop_last(), b.drop_last(), text_addr, text, amap);
        assert(node_model(a[a.len() - 1]) == node_model(b[b.len() - 1]));
    }
}

/// Whether the call edges overflow depends only on the functions' addresses and sizes.
pub proof fn lemma_edges_overflow_models(
    text_section: Option<Option<(u64, Option<Seq<u8>>)>>,
    a: Seq<WcfgNode>,
    b: Seq<WcfgNode>,
    amap: Map<u64, usize>,
    base: int,
)
    requires
        same_models(a, b),
    ensures
        text_edges_overflow(text_section, a, amap, base) == text_edges_overflow(text_section, b, amap, base),
{
    if let Some(Some((text_addr, Some(text)))) = text_section {
        assert forall|i: int| #[trigger] call_edges_overflow(a, text_addr, text, amap, base, i) == call_edges_overflow(
            b,
            text_addr,
            text,
            amap,
            base,
            i,
        ) by {
            if 0 <= i < a.len() {
                assert(same_models(a.take(i), b.take(i))) by {
                    assert forall|j: int| 0 <= j < a.take(i).len() implies node_model(#[trigger] a.take(i)[j])
                        == node_model(b.take(i)[j]) by {
                        assert(node_model(a[j]) == node_model(b[j]));
                    }
                }
                lemma_cfg_edges_models(a.take(i), b.take(i), text_addr, text, amap);
                assert(node_model(a[i]) == node_model(b[i]));
            }
        }
        if text_edges_overflow(text_section, a, amap, base) {
            let i = choose|i: int| #[trigger] call_edges_overflow(a, text_addr, text, amap, base, i);
            assert(call_edges_overflow(b, text_addr, text, amap, base, i));
        }
        if text_edges_overflow(text_section, b, amap, base) {
            let i = choose|i: int| #[trigger] call_edges_overflow(b, text_addr, text, amap, base, i);
            assert(call_edges_overflow(a, text_addr, text, amap, base, i));
        }
    }
}

/// Both node sequences with the same functions have the same call edges in `.text`.
pub proof fn lemma_text_call_edges_models(
    text_section: Option<Option<(u64, Option<Seq<u8>>)>>,
    a: Seq<WcfgNode>,
    b: Seq<WcfgNode>,
    amap: Map<u64, usize>,
    added: Seq<(usize, usize, WcfgEdge)>,
)
    requires
        same_models(a, b),
    ensures
        text_call_edges(text_section, a, amap, added) == text_call_edges(text_section, b, amap, added),
{
    if let Some(Some((text_addr, Some(text)))) = text_section {
        lemma_cfg_edges_models(a, b, text_addr, text, amap);
    }
}

/// The `.text` section of the image held by `binary` is read.
pub open spec fn text_readable(binary: Seq<u8>) -> bool {
    spec_elf_section(binary, ".text"@) matches Some(Some((_, Some(_))))
}

/// Adds the call edges of every function: each function's bytes in `.text` (at most its symbol
/// size) are disassembled as Thumb code, and each `bl`/`blx` to a known function becomes a direct
/// call edge.
pub fn build_cfg(binary: &[u8], graph: &mut ExecutionGraph) -> (r: Result<(), String>)
    requires
        old(graph).wf(),
    ensures
        final(graph).wf(),
        final(graph).nodes() == old(graph).nodes(),
        final(graph).address_map@ == old(graph).address_map@,
        r is Ok <==> text_readable(binary@) && !text_edges_overflow(
            spec_elf_section(binary@, ".text"@),
            old(graph).nodes(),
            old(graph).address_map@,
            old(graph).edges().len() as int,
        ),
        r is Ok ==> text_call_edges(
            spec_elf_section(binary@, ".text"@),
            old(graph).nodes(),
            old(graph).address_map@,
            final(graph).edges().skip(old(graph).edges().len() as int),
        ),
        !text_readable(binary@) ==> final(graph).edges() == old(graph).edges(),
        spec_elf_section(binary@, ".text"@) == Some(None::<(u64, Option<Seq<u8>>)>) ==> (r matches Err(m) && m@
            == "No .text section found"@),
        (text_readable(binary@) && r is Err) ==> (r matches Err(m) && m@ == "Too many call edges for the execution graph"@),
        edges_from_code(
            spec_elf_section(binary@, ".text"@),
            old(graph).nodes(),
            final(graph).edges().skip(old(graph).edges().len() as int),
        ),
        final(graph).edges().len() >= old(graph).edges().len(),
        final(graph).edges().take(old(graph).edges().len() as int) == old(graph).edges(),
        forall|k: int|
            old(graph).edges().len() <= k < final(graph).edges().len() ==> is_known_call(
                old(graph).address_map@,
                #[trigger] final(graph).edges()[k],
            ),
{
    // 1. Initialize Capstone for ARM Thumb mode
    let cs = match thumb_disassembler() {
        Ok(cs) => cs,
        Err(m) => return Err(m),
    };
    // 2. Extract the physical .text section
    let (text_addr, text_data) = match elf_section(binary, ".text") {
        Err(e) => return Err(object_error_message(&e)),
        Ok(None) => return Err("No .text section found".to_owned()),
        Ok(Some((_, Err(e)))) => return Err(object_error_message(&e)),
        Ok(Some((address, Ok(data)))) => (address, data),
    };
    let ghost edges0 = graph.edges();
    let ghost nodes0 = graph.nodes();
    let ghost amap = graph.address_map@;
    let ghost section: Option<Option<(u64, Option<Seq<u8>>)>> = Some(Some((text_addr, Some(text_data@))));
    proof {
        assert(section matches Some(Some((a, Some(t)))) && a == text_addr && t == text_data@);
    }
    let n = graph_node_count(&graph.graph);
    let mut source: usize = 0;
    // 3. Disassemble and look for Call Instructions (BL, BLX)
    while source < n
        invariant
            source <= n,
            n == graph.nodes().len(),
            graph.wf(),
            graph.nodes() == nodes0,
            nodes0 == old(graph).nodes(),
            graph.address_map@ == amap,
            amap == old(graph).address_map@,
            edges0 == old(graph).edges(),
            spec_elf_section(binary@, ".text"@) == section,
            section == Some(Some((text_addr, Some(text_data@)))),
            graph.edges() == edges0 + cfg_edges(nodes0.take(source as int), text_addr, text_data@, amap),
            forall|i: int| 0 <= i < source ==> !#[trigger] call_edges_overflow(nodes0, text_addr, text_data@, amap, edges0.len() as int, i),
            forall|k: int| edges0.len() <= k < graph.edges().len() ==> is_known_call(amap, #[trigger] graph.edges()[k]),
        decreases n - source,
    {
        proof {
            assert(nodes0.take(source + 1).drop_last() =~= nodes0.take(source as int));
            assert(nodes0.take(source + 1).last() == nodes0[source as int]);
            assert(nodes0.take(source as int) == nodes0.take(source as int));
        }
        let node = graph_node(&graph.graph, source);
        let addr = node.physical_address;
        let symbol_size = node.symbol_size_bytes;
        let ghost before = graph.edges();
        let ghost step = function_call_edges(source, nodes0[source as int], text_addr, text_data@, amap);
        // Skip if out of bounds or if we have no size data
        if addr >= text_addr && addr - text_addr < text_data.len() as u64 && symbol_size != 0 {
            let offset = (addr - text_addr) as usize;
            // Constrain disassembly exactly to the symbol size
            let chunk_size = if symbol_size < text_data.len() - offset { symbol_size } else { text_data.len() - offset };
            let chunk = copy_range(&text_data, offset, chunk_size);
            assert(function_code(nodes0[source as int], text_addr, text_data@) == Some(chunk@));
            if let Some(insns) = disassemble(&cs, chunk.as_slice(), addr) {
                let targets = call_targets(&insns);
                assert(call_edges(source, targets@, amap) == step);
                let edge_count = graph_edge_count(&graph.graph);
                let known = known_call_count(graph, source, &targets);
                if known > (u32::MAX as usize) - edge_count {
                    let m = "Too many call edges for the execution graph".to_owned();
                    proof {
                        assert(call_edges_overflow(nodes0, text_addr, text_data@, amap, edges0.len() as int, source as int));
                        assert(section matches Some(Some((a, Some(t)))) && a == text_addr && t == text_data@);
                        assert(text_edges_overflow(section, nodes0, amap, edges0.len() as int));
                        lemma_prefix_edges_from_code(
                            nodes0,
                            text_addr,
                            text_data@,
                            amap,
                            source as int,
                            edges0,
                            graph.edges(),
                        );
                    }
                    return Err(m);
                }
                wire_calls(graph, source, &targets);
                proof {
                    lemma_call_edges_targets(source, targets@, amap);
                    assert forall|k: int| edges0.len() <= k < graph.edges().len() implies is_known_call(
                        amap,
                        #[trigger] graph.edges()[k],
                    ) by {
                        if k < before.len() {
                            assert(graph.edges()[k] == before[k]);
                        } else {
                            assert(graph.edges()[k] == step[k - before.len()]);
                        }
                    }
                }
            }
        } else {
            assert(step == Seq::<(usize, usize, WcfgEdge)>::empty());
        }
        proof {
            assert(graph.edges() =~= before + step);
            assert(cfg_edges(nodes0.take(source + 1), text_addr, text_data@, amap) == cfg_edges(
                nodes0.take(source as int),
                text_addr,
                text_data@,
                amap,
            ) + step);
            assert(graph.edges() =~= edges0 + cfg_edges(nodes0.take(source + 1), text_addr, text_data@, amap));
            assert(!call_edges_overflow(nodes0, text_addr, text_data@, amap, edges0.len() as int, source as int));
        }
        source += 1;
    }
    proof {
        assert(nodes0.take(n as int) =~= nodes0);
        assert(graph.edges().skip(edges0.len() as int) =~= cfg_edges(nodes0, text_addr, text_data@, amap));
        assert(graph.edges().take(edges0.len() as int) =~= edges0);
        assert(text_call_edges(section, nodes0, amap, graph.edges().skip(edges0.len() as int)));
        lemma_prefix_edges_from_code(nodes0, text_addr, text_data@, amap, n as int, edges0, graph.edges());
        assert(!text_edges_overflow(section, nodes0, amap, edges0.len() as int));
    }
    Ok(())
}

/// Every call edge is a direct call to a function the address map knows.
proof fn lemma_call_edges_targets(source: usize, targets: Seq<u64>, amap: Map<u64, usize>)
    ensures
        forall|k: int|
            0 <= k < call_edges(source, targets, amap).len() ==> is_known_call(
                amap,
                #[trigger] call_edges(source, targets, amap)[k],
            ),
    decreases targets.len(),
{
    if targets.len() > 0 {
        lemma_call_edges_targets(source, targets.drop_last(), amap);
        let rest = call_edges(source, targets.drop_last(), amap);
        let all = call_edges(source, targets, amap);
        assert forall|k: int| 0 <= k < all.len() implies is_known_call(amap, #[trigger] all[k]) by {
            if k < rest.len() {
                assert(all[k] == rest[k]);
            } else {
                assert(amap.contains_key(targets.last()));
            }
        }
    }
}

} // verus!
