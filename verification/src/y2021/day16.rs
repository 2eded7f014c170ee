//! Decoder and evaluator for the Buoyancy Interchange Transmission System
//! packet format.
//!
//! An input string is either a bare bit string (characters `0` and `1`) or a
//! hexadecimal string whose digits each expand to four bits.  The bit stream
//! holds one packet: a 3-bit version, a 3-bit type id, and then either a
//! literal value in chained 5-bit groups or a length- or count-delimited
//! sequence of sub-packets.  Operator packets fold their children into a
//! single value as the type id directs.
//!
//! The grammar is written down once, as the spec functions `spec_parse`,
//! `spec_parse_literal`, `spec_parse_by_length` and `spec_parse_by_count`;
//! every executable entry point is proved to return exactly what those
//! functions say, for every input.

use vstd::arithmetic::power2::lemma2_to64;
use vstd::arithmetic::power2::lemma_pow2_unfold;
use vstd::arithmetic::power2::pow2;
use vstd::pervasive::unreached;
use vstd::prelude::*;
use vstd::string::StrSliceExecFns;

verus! {

// ------------------------------------------------------------------
// Errors
// ------------------------------------------------------------------
/// Why a decode failed.
#[derive(Debug, PartialEq, Eq, Structural, Clone, Copy)]
pub enum PacketErrorKind {
    /// The input string holds a character that is neither a bit nor a hex
    /// digit.
    Format,
    /// A bit read ran past the end of the bit sequence.
    OutOfBounds,
    /// The decoded structure violates the grammar: a comparison operator
    /// without exactly two children, an operator without children, or a
    /// length-delimited region that a child overran.
    Malformed,
    /// A literal or an operator result does not fit in 64 bits.
    Overflow,
}

/// Error returned by every decoding entry point.
#[derive(Debug, PartialEq, Eq, Structural, Clone, Copy)]
pub struct PacketParseError {
    pub kind: PacketErrorKind,
}

// ------------------------------------------------------------------
// Bit sequences
// ------------------------------------------------------------------
/// True when every element of `bits` is 0 or 1.
pub open spec fn bits_wf(bits: Seq<u8>) -> bool {
    forall|i: int| 0 <= i < bits.len() ==> bits[i] <= 1
}

/// Big-endian value of a bit sequence.
pub open spec fn bits_val(bits: Seq<u8>) -> nat
    decreases bits.len(),
{
    if bits.len() == 0 {
        0
    } else {
        bits_val(bits.drop_last()) * 2 + bits.last() as nat
    }
}

/// Value of the `n` bits starting at `pos`.
pub open spec fn field_val(bits: Seq<u8>, pos: int, n: int) -> nat {
    bits_val(bits.subrange(pos, pos + n))
}

pub proof fn lemma_bits_val_bound(bits: Seq<u8>)
    requires
        bits_wf(bits),
    ensures
        bits_val(bits) < pow2(bits.len()),
    decreases bits.len(),
{
    if bits.len() == 0 {
        assert(pow2(0) == 1) by {
            lemma2_to64();
        }
    } else {
        lemma_bits_val_bound(bits.drop_last());
        lemma_pow2_unfold(bits.len());
    }
}

/// Reads the `n`-bit field at `pos` as an unsigned integer.
fn take_int_from_bits(bits: &Vec<u8>, pos: usize, n: usize) -> (r: Result<
    (u64, usize),
    PacketParseError,
>)
    requires
        bits_wf(bits@),
        n <= 64,
    ensures
        match r {
            Ok((v, end)) => {
                &&& pos + n <= bits@.len()
                &&& end == pos + n
                &&& v == field_val(bits@, pos as int, n as int)
            },
            Err(e) => e.kind == PacketErrorKind::OutOfBounds && pos + n > bits@.len(),
        },
{
    let len = bits.len();
    if n > len || pos > len - n {
        return Err(PacketParseError { kind: PacketErrorKind::OutOfBounds });
    }
    let mut acc: u64 = 0;
    let mut i: usize = 0;
    proof {
        lemma2_to64();
    }
    while i < n
        invariant
            bits_wf(bits@),
            0 <= i <= n <= 64,
            len == bits@.len(),
            pos + n <= len,
            acc == bits_val(bits@.subrange(pos as int, pos + i)),
            acc < pow2(i as nat),
            pow2(64) == 0x10000000000000000,
        decreases n - i,
    {
        let b = bits[pos + i];
        proof {
            let pre = bits@.subrange(pos as int, pos + i);
            let cur = bits@.subrange(pos as int, pos + i + 1);
            assert(cur.drop_last() =~= pre);
            assert(cur.last() == bits@[pos + i]);
            assert(bits@[pos + i] <= 1);
            lemma_pow2_unfold((i + 1) as nat);
            if i + 1 < 64 {
                vstd::arithmetic::power2::lemma_pow2_strictly_increases((i + 1) as nat, 64nat);
            }
        }
        acc = acc * 2 + (b as u64);
        i = i + 1;
    }
    Ok((acc, pos + n))
}

// ------------------------------------------------------------------
// Input strings: bit strings and hex strings
// ------------------------------------------------------------------
/// True when `c` is `0` or `1`.
pub open spec fn is_bit_char(c: char) -> bool {
    c == '0' || c == '1'
}

/// True when every character of `s` is a bit; the empty string counts.
pub open spec fn is_bin_input(s: Seq<char>) -> bool {
    forall|i: int| 0 <= i < s.len() ==> is_bit_char(s[i])
}

/// True when `c` is a hexadecimal digit, upper or lower case.
pub open spec fn is_hex_char(c: char) -> bool {
    ('0' <= c && c <= '9') || ('A' <= c && c <= 'F') || ('a' <= c && c <= 'f')
}

/// Value of a hexadecimal digit.
pub open spec fn hex_val(c: char) -> nat {
    if '0' <= c && c <= '9' {
        (c as int - '0' as int) as nat
    } else if 'A' <= c && c <= 'F' {
        (c as int - 'A' as int + 10) as nat
    } else {
        (c as int - 'a' as int + 10) as nat
    }
}

/// The four bits of a hexadecimal digit, most significant first.
pub open spec fn nibble(c: char) -> Seq<u8> {
    let v = hex_val(c);
    seq![
        (v / 8 % 2) as u8,
        (v / 4 % 2) as u8,
        (v / 2 % 2) as u8,
        (v % 2) as u8,
    ]
}

/// A bit string's own bits, one per character.
pub open spec fn bin_bits(s: Seq<char>) -> Seq<u8> {
    Seq::new(s.len(), |i: int| if s[i] == '1' { 1u8 } else { 0u8 })
}

/// The bits of a hexadecimal string, four per digit, in input order.
pub open spec fn hex_bits(s: Seq<char>) -> Seq<u8>
    decreases s.len(),
{
    if s.len() == 0 {
        Seq::empty()
    } else {
        hex_bits(s.drop_last()) + nibble(s.last())
    }
}

/// True when the input string can be turned into bits at all: either a bare
/// bit string or a string of hexadecimal digits.
pub open spec fn input_ok(s: Seq<char>) -> bool {
    is_bin_input(s) || forall|i: int| 0 <= i < s.len() ==> is_hex_char(s[i])
}

/// The bit sequence an input string stands for.  A bare bit string is used
/// directly; anything else is read as hexadecimal digits.
pub open spec fn input_bits(s: Seq<char>) -> Seq<u8> {
    if is_bin_input(s) {
        bin_bits(s)
    } else {
        hex_bits(s)
    }
}

// ------------------------------------------------------------------
// The packet model
// ------------------------------------------------------------------
/// What an operator packet does with its children.  The type id 4 marks a
/// literal packet and never appears here.
#[derive(Debug, PartialEq, Eq, Structural, Clone, Copy)]
pub enum OperatorType {
    Sum,
    Product,
    Min,
    Max,
    GreaterThan,
    LessThan,
    EqualTo,
}

/// What kind of packet a decoded `Packet` is.  `Unknown` only occurs in a
/// freshly made packet that nothing was decoded into yet.
#[derive(Debug, PartialEq, Eq, Structural, Clone, Copy)]
pub enum PacketType {
    Unknown,
    Literal,
    Operator(OperatorType),
}

/// The mathematical shape of a decoded packet: its version and either a
/// literal value or an operator applied to child packets.
pub enum PacketModel {
    Literal { version: nat, value: nat },
    Operator { version: nat, op: OperatorType, children: Seq<PacketModel> },
}

/// The operator a non-literal type id stands for.
pub open spec fn op_of(tid: nat) -> OperatorType {
    if tid == 0 {
        OperatorType::Sum
    } else if tid == 1 {
        OperatorType::Product
    } else if tid == 2 {
        OperatorType::Min
    } else if tid == 3 {
        OperatorType::Max
    } else if tid == 5 {
        OperatorType::GreaterThan
    } else if tid == 6 {
        OperatorType::LessThan
    } else {
        OperatorType::EqualTo
    }
}

/// How many children an operator accepts: comparisons take exactly two,
/// every other operator takes at least one.
pub open spec fn arity_ok(op: OperatorType, n: nat) -> bool {
    match op {
        OperatorType::GreaterThan => n == 2,
        OperatorType::LessThan => n == 2,
        OperatorType::EqualTo => n == 2,
        _ => n >= 1,
    }
}

pub open spec fn sum_seq(vals: Seq<nat>) -> nat
    decreases vals.len(),
{
    if vals.len() == 0 {
        0
    } else {
        sum_seq(vals.drop_last()) + vals.last()
    }
}

pub open spec fn prod_seq(vals: Seq<nat>) -> nat
    decreases vals.len(),
{
    if vals.len() == 0 {
        1
    } else {
        prod_seq(vals.drop_last()) * vals.last()
    }
}

pub open spec fn min_seq(vals: Seq<nat>) -> nat
    decreases vals.len(),
{
    if vals.len() <= 1 {
        vals[0]
    } else {
        let rest = min_seq(vals.drop_last());
        if vals.last() < rest {
            vals.last()
        } else {
            rest
        }
    }
}

pub open spec fn max_seq(vals: Seq<nat>) -> nat
    decreases vals.len(),
{
    if vals.len() <= 1 {
        vals[0]
    } else {
        let rest = max_seq(vals.drop_last());
        if vals.last() > rest {
            vals.last()
        } else {
            rest
        }
    }
}

/// The value an operator computes from its children's values.
pub open spec fn eval_op(op: OperatorType, vals: Seq<nat>) -> nat {
    match op {
        OperatorType::Sum => sum_seq(vals),
        OperatorType::Product => prod_seq(vals),
        OperatorType::Min => min_seq(vals),
        OperatorType::Max => max_seq(vals),
        OperatorType::GreaterThan => if vals[0] > vals[1] {
            1
        } else {
            0
        },
        OperatorType::LessThan => if vals[0] < vals[1] {
            1
        } else {
            0
        },
        OperatorType::EqualTo => if vals[0] == vals[1] {
            1
        } else {
            0
        },
    }
}

/// The semantic value of a packet: a literal's own value, or its operator
/// folded over the children's values.
pub open spec fn value_of(p: PacketModel) -> nat
    decreases p,
{
    match p {
        PacketModel::Literal { value, .. } => value,
        PacketModel::Operator { op, children, .. } => eval_op(op, values_of(children)),
    }
}

/// The values of a sequence of packets, in order.
pub open spec fn values_of(s: Seq<PacketModel>) -> Seq<nat>
    decreases s,
{
    if s.len() == 0 {
        Seq::empty()
    } else {
        values_of(s.drop_last()).push(value_of(s.last()))
    }
}

/// The sum of the version numbers of a packet and all its descendants.
pub open spec fn version_sum_of(p: PacketModel) -> nat
    decreases p,
{
    match p {
        PacketModel::Literal { version, .. } => version,
        PacketModel::Operator { version, children, .. } => version + version_sums_of(children),
    }
}

pub open spec fn version_sums_of(s: Seq<PacketModel>) -> nat
    decreases s,
{
    if s.len() == 0 {
        0
    } else {
        version_sum_of(s[0]) + version_sums_of(s.drop_first())
    }
}

// ------------------------------------------------------------------
// The reference parser
// ------------------------------------------------------------------
/// Reads 5-bit literal groups starting at `pos`, on top of the value `acc`
/// accumulated so far: each group's low four bits extend the value, and a
/// leading 0 marks the last group.  Yields the value and the position after
/// the last group.
pub open spec fn spec_parse_literal(bits: Seq<u8>, pos: int, acc: nat) -> Result<
    (nat, int),
    PacketErrorKind,
>
    decreases bits.len() - pos,
{
    if pos + 5 > bits.len() {
        Err(PacketErrorKind::OutOfBounds)
    } else {
        let v = acc * 16 + field_val(bits, pos + 1, 4);
        if bits[pos] == 0 {
            Ok((v, pos + 5))
        } else {
            spec_parse_literal(bits, pos + 5, v)
        }
    }
}

/// Decodes the one packet that starts at `pos`, descendants included.
/// Yields its model and the position just past it; trailing bits are left
/// alone.  Fails with `OutOfBounds` when a field read runs past the end,
/// `Malformed` when the child-count rules are broken or a length-delimited
/// region is overrun, and `Overflow` when a value needs more than 64 bits.
pub open spec fn spec_parse(bits: Seq<u8>, pos: int) -> Result<(PacketModel, int), PacketErrorKind>
    decreases bits.len() - pos, 0int,
{
    if pos + 6 > bits.len() {
        Err(PacketErrorKind::OutOfBounds)
    } else {
        let version = field_val(bits, pos, 3);
        let tid = field_val(bits, pos + 3, 3);
        if tid == 4 {
            match spec_parse_literal(bits, pos + 6, 0) {
                Err(k) => Err(k),
                Ok((v, end)) => if v > u64::MAX {
                    Err(PacketErrorKind::Overflow)
                } else {
                    Ok((PacketModel::Literal { version, value: v }, end))
                },
            }
        } else {
            let op = op_of(tid);
            if pos + 7 > bits.len() {
                Err(PacketErrorKind::OutOfBounds)
            } else if field_val(bits, pos + 6, 1) == 0 {
                if pos + 22 > bits.len() {
                    Err(PacketErrorKind::OutOfBounds)
                } else {
                    let total = field_val(bits, pos + 7, 15);
                    match spec_parse_by_length(bits, pos + 22, pos + 22 + total) {
                        Err(k) => Err(k),
                        Ok((children, end)) => finish_operator(version, op, children, end),
                    }
                }
            } else {
                if pos + 18 > bits.len() {
                    Err(PacketErrorKind::OutOfBounds)
                } else {
                    let count = field_val(bits, pos + 7, 11);
                    match spec_parse_by_count(bits, pos + 18, count) {
                        Err(k) => Err(k),
                        Ok((children, end)) => finish_operator(version, op, children, end),
                    }
                }
            }
        }
    }
}

/// Checks an operator's arity and computes its value.
pub open spec fn finish_operator(
    version: nat,
    op: OperatorType,
    children: Seq<PacketModel>,
    end: int,
) -> Result<(PacketModel, int), PacketErrorKind> {
    if !arity_ok(op, children.len()) {
        Err(PacketErrorKind::Malformed)
    } else if eval_op(op, values_of(children)) > u64::MAX {
        Err(PacketErrorKind::Overflow)
    } else {
        Ok((PacketModel::Operator { version, op, children }, end))
    }
}

/// Decodes packets one after another until the cursor reaches `target`;
/// a child that runs past `target` is malformed.
pub open spec fn spec_parse_by_length(bits: Seq<u8>, pos: int, target: int) -> Result<
    (Seq<PacketModel>, int),
    PacketErrorKind,
>
    decreases bits.len() - pos, 1int,
{
    if pos == target {
        Ok((Seq::empty(), pos))
    } else if pos > target {
        Err(PacketErrorKind::Malformed)
    } else {
        match spec_parse(bits, pos) {
            Err(k) => Err(k),
            Ok((p, end)) => if !(pos < end <= bits.len()) {
                Err(PacketErrorKind::Malformed)
            } else {
                match spec_parse_by_length(bits, end, target) {
                    Err(k) => Err(k),
                    Ok((rest, e2)) => Ok((seq![p] + rest, e2)),
                }
            },
        }
    }
}

/// Decodes exactly `count` packets one after another.
pub open spec fn spec_parse_by_count(bits: Seq<u8>, pos: int, count: nat) -> Result<
    (Seq<PacketModel>, int),
    PacketErrorKind,
>
    decreases bits.len() - pos, 1 + count,
{
    if count == 0 {
        Ok((Seq::empty(), pos))
    } else {
        match spec_parse(bits, pos) {
            Err(k) => Err(k),
            Ok((p, end)) => if !(pos < end <= bits.len()) {
                Err(PacketErrorKind::Malformed)
            } else {
                match spec_parse_by_count(bits, end, (count - 1) as nat) {
                    Err(k) => Err(k),
                    Ok((rest, e2)) => Ok((seq![p] + rest, e2)),
                }
            },
        }
    }
}

/// A successful decode always moves the cursor forward and never past the
/// end, and a length-delimited child list ends exactly at its target.
pub proof fn lemma_spec_parse_advances(bits: Seq<u8>, pos: int)
    ensures
        spec_parse(bits, pos) matches Ok((p, end)) ==> pos < end <= bits.len(),
    decreases bits.len() - pos, 0int,
{
    if pos + 6 <= bits.len() {
        let tid = field_val(bits, pos + 3, 3);
        if tid == 4 {
            lemma_spec_parse_literal_advances(bits, pos + 6, 0);
        } else if pos + 7 <= bits.len() {
            if field_val(bits, pos + 6, 1) == 0 {
                if pos + 22 <= bits.len() {
                    let total = field_val(bits, pos + 7, 15);
                    lemma_spec_parse_by_length_advances(bits, pos + 22, pos + 22 + total);
                }
            } else {
                if pos + 18 <= bits.len() {
                    let count = field_val(bits, pos + 7, 11);
                    lemma_spec_parse_by_count_advances(bits, pos + 18, count);
                }
            }
        }
    }
}

pub proof fn lemma_spec_parse_literal_advances(bits: Seq<u8>, pos: int, acc: nat)
    ensures
        spec_parse_literal(bits, pos, acc) matches Ok((v, end)) ==> pos < end <= bits.len(),
    decreases bits.len() - pos,
{
    if pos + 5 <= bits.len() && bits[pos] != 0 {
        let v = acc * 16 + field_val(bits, pos + 1, 4);
        lemma_spec_parse_literal_advances(bits, pos + 5, v);
    }
}

pub proof fn lemma_spec_parse_by_length_advances(bits: Seq<u8>, pos: int, target: int)
    requires
        pos <= bits.len(),
    ensures
        spec_parse_by_length(bits, pos, target) matches Ok((s, end)) ==> pos <= end <= bits.len()
            && end == target,
    decreases bits.len() - pos, 1int,
{
    if pos < target {
        lemma_spec_parse_advances(bits, pos);
        if let Ok((p, end)) = spec_parse(bits, pos) {
            if pos < end <= bits.len() {
                lemma_spec_parse_by_length_advances(bits, end, target);
            }
        }
    }
}

pub proof fn lemma_spec_parse_by_count_advances(bits: Seq<u8>, pos: int, count: nat)
    requires
        pos <= bits.len(),
    ensures
        spec_parse_by_count(bits, pos, count) matches Ok((s, end)) ==> pos <= end <= bits.len(),
    decreases bits.len() - pos, 1 + count,
{
    if count > 0 {
        lemma_spec_parse_advances(bits, pos);
        if let Ok((p, end)) = spec_parse(bits, pos) {
            if pos < end <= bits.len() {
                lemma_spec_parse_by_count_advances(bits, end, (count - 1) as nat);
            }
        }
    }
}

// ------------------------------------------------------------------
// Decoded packets
// ------------------------------------------------------------------
/// One decoded packet.  `length` is the number of bits the packet and all
/// its descendants consumed; `value` is the semantic value computed during
/// decoding; `packets` holds an operator's children, in decode order.
#[derive(Debug)]
pub struct Packet {
    pub version: u64,
    pub packet_type: PacketType,
    pub length: Option<usize>,
    pub packets: Vec<Packet>,
    pub value: Option<u64>,
}

/// The value inside an `Option<u64>`, or 0 for `None`.
pub open spec fn opt_nat(o: Option<u64>) -> nat {
    match o {
        Some(v) => v as nat,
        None => 0,
    }
}

/// The mathematical shape of a decoded packet.
pub open spec fn pkt_model(p: Packet) -> PacketModel
    decreases p,
{
    match p.packet_type {
        PacketType::Operator(op) => PacketModel::Operator {
            version: p.version as nat,
            op,
            children: pkt_models(p.packets@),
        },
        _ => PacketModel::Literal { version: p.version as nat, value: opt_nat(p.value) },
    }
}

pub open spec fn pkt_models(s: Seq<Packet>) -> Seq<PacketModel>
    decreases s,
{
    if s.len() == 0 {
        Seq::empty()
    } else {
        pkt_models(s.drop_last()).push(pkt_model(s.last()))
    }
}

pub proof fn lemma_pkt_models(s: Seq<Packet>)
    ensures
        pkt_models(s).len() == s.len(),
        forall|i: int| 0 <= i < s.len() ==> pkt_models(s)[i] == pkt_model(s[i]),
    decreases s.len(),
{
    if s.len() > 0 {
        lemma_pkt_models(s.drop_last());
    }
}

/// Well-formedness of a decoded packet: every field the decoder fills is
/// filled, the stored value is the packet's semantic value, and the
/// child-count rules hold throughout the tree.
pub open spec fn wf(p: Packet) -> bool
    decreases p,
{
    &&& p.version <= 7
    &&& p.length is Some
    &&& p.value is Some
    &&& value_of(pkt_model(p)) <= u64::MAX
    &&& opt_nat(p.value) == value_of(pkt_model(p))
    &&& match p.packet_type {
        PacketType::Unknown => false,
        PacketType::Literal => p.packets@.len() == 0,
        PacketType::Operator(op) => arity_ok(op, p.packets@.len()) && wf_all(p.packets@),
    }
}

pub open spec fn wf_all(s: Seq<Packet>) -> bool
    decreases s,
{
    if s.len() == 0 {
        true
    } else {
        wf_all(s.drop_last()) && wf(s.last())
    }
}

pub proof fn lemma_wf_all_index(s: Seq<Packet>, i: int)
    requires
        wf_all(s),
        0 <= i < s.len(),
    ensures
        wf(s[i]),
    decreases s.len(),
{
    if i < s.len() - 1 {
        lemma_wf_all_index(s.drop_last(), i);
    }
}

pub proof fn lemma_wf_all_push(s: Seq<Packet>, p: Packet)
    requires
        wf_all(s),
        wf(p),
    ensures
        wf_all(s.push(p)),
{
    assert(s.push(p).drop_last() =~= s);
}

pub proof fn lemma_values_of(s: Seq<PacketModel>)
    ensures
        values_of(s).len() == s.len(),
        forall|i: int| 0 <= i < s.len() ==> values_of(s)[i] == value_of(s[i]),
    decreases s.len(),
{
    if s.len() > 0 {
        lemma_values_of(s.drop_last());
    }
}

// ------------------------------------------------------------------
// Executable decoding helpers
// ------------------------------------------------------------------
/// Reads the chained 5-bit groups of a literal packet starting at `pos` and
/// assembles their value; the value must fit in 64 bits.
fn parse_literal_value(bits: &Vec<u8>, pos: usize) -> (r: Result<(u64, usize), PacketParseError>)
    requires
        bits_wf(bits@),
        pos <= bits@.len(),
    ensures
        match spec_parse_literal(bits@, pos as int, 0) {
            Ok((v, end)) => if v <= u64::MAX {
                r == Ok::<(u64, usize), PacketParseError>((v as u64, end as usize))
            } else {
                r == Err::<(u64, usize), PacketParseError>(
                    PacketParseError { kind: PacketErrorKind::Overflow },
                )
            },
            Err(k) => r == Err::<(u64, usize), PacketParseError>(PacketParseError { kind: k }),
        },
{
    let len = bits.len();
    let mut cur = pos;
    let mut acc: u64 = 0;
    let mut overflowed = false;
    let ghost mut exact: nat = 0nat;
    loop
        invariant
            bits_wf(bits@),
            pos <= cur <= len,
            len == bits@.len(),
            spec_parse_literal(bits@, pos as int, 0) == spec_parse_literal(
                bits@,
                cur as int,
                exact,
            ),
            !overflowed ==> acc == exact,
            overflowed ==> exact > u64::MAX,
        decreases len - cur,
    {
        if len - cur < 5 {
            return Err(PacketParseError { kind: PacketErrorKind::OutOfBounds });
        }
        let flag = bits[cur];
        let group = match take_int_from_bits(bits, cur + 1, 4) {
            Ok((g, _)) => g,
            Err(_) => unreached(),
        };
        let ghost exact0 = exact;
        proof {
            lemma_bits_val_bound(bits@.subrange(cur + 1, cur + 5));
            lemma2_to64();
            assert(group < 16);
            exact = exact0 * 16 + field_val(bits@, cur + 1, 4);
            assert(spec_parse_literal(bits@, cur as int, exact0) == (if bits@[cur as int] == 0 {
                Ok::<(nat, int), PacketErrorKind>((exact, cur + 5))
            } else {
                spec_parse_literal(bits@, cur + 5, exact)
            }));
        }
        if !overflowed {
            if acc > 0x0fff_ffff_ffff_ffff {
                overflowed = true;
                assert(exact > u64::MAX);
            } else {
                acc = acc * 16 + group;
            }
        } else {
            assert(exact > u64::MAX);
        }
        if flag == 0 {
            if overflowed {
                return Err(PacketParseError { kind: PacketErrorKind::Overflow });
            } else {
                return Ok((acc, cur + 5));
            }
        }
        cur = cur + 5;
    }
}

/// The operator a non-literal type id selects; the counterpart of `op_of`.
fn operator_type_of(tid: u64) -> (r: OperatorType)
    requires
        tid <= 7,
        tid != 4,
    ensures
        r == op_of(tid as nat),
{
    if tid == 0 {
        OperatorType::Sum
    } else if tid == 1 {
        OperatorType::Product
    } else if tid == 2 {
        OperatorType::Min
    } else if tid == 3 {
        OperatorType::Max
    } else if tid == 5 {
        OperatorType::GreaterThan
    } else if tid == 6 {
        OperatorType::LessThan
    } else {
        OperatorType::EqualTo
    }
}

/// Folds an operator's already-decoded children into the packet's value,
/// checking the child-count rules and the 64-bit range.
fn calculate_operation_value(op: OperatorType, packets: &Vec<Packet>) -> (r: Result<
    u64,
    PacketParseError,
>)
    requires
        wf_all(packets@),
    ensures
        ({
            let vals = values_of(pkt_models(packets@));
            if !arity_ok(op, packets@.len()) {
                r == Err::<u64, PacketParseError>(
                    PacketParseError { kind: PacketErrorKind::Malformed },
                )
            } else if eval_op(op, vals) > u64::MAX {
                r == Err::<u64, PacketParseError>(
                    PacketParseError { kind: PacketErrorKind::Overflow },
                )
            } else {
                r == Ok::<u64, PacketParseError>(eval_op(op, vals) as u64)
            }
        }),
{
    let n = packets.len();
    let ghost models = pkt_models(packets@);
    let ghost vals = values_of(models);
    proof {
        lemma_pkt_models(packets@);
        lemma_values_of(models);
    }
    match op {
        OperatorType::GreaterThan | OperatorType::LessThan | OperatorType::EqualTo => {
            if n != 2 {
                return Err(PacketParseError { kind: PacketErrorKind::Malformed });
            }
            proof {
                lemma_wf_all_index(packets@, 0);
                lemma_wf_all_index(packets@, 1);
            }
            let v0 = packets[0].get_value();
            let v1 = packets[1].get_value();
            let hit = match op {
                OperatorType::GreaterThan => v0 > v1,
                OperatorType::LessThan => v0 < v1,
                _ => v0 == v1,
            };
            Ok(if hit {
                1
            } else {
                0
            })
        },
        OperatorType::Sum => {
            if n == 0 {
                return Err(PacketParseError { kind: PacketErrorKind::Malformed });
            }
            let mut acc: u64 = 0;
            let mut overflowed = false;
            let ghost mut exact: nat = 0nat;
            let mut i: usize = 0;
            proof {
                assert(vals.subrange(0, 0) =~= Seq::<nat>::empty());
            }
            while i < n
                invariant
                    wf_all(packets@),
                    0 <= i <= n == packets@.len(),
                    models == pkt_models(packets@),
                    vals == values_of(models),
                    vals.len() == n,
                    exact == sum_seq(vals.subrange(0, i as int)),
                    !overflowed ==> acc == exact,
                    overflowed ==> exact > u64::MAX,
                decreases n - i,
            {
                proof {
                    lemma_wf_all_index(packets@, i as int);
                    lemma_pkt_models(packets@);
                    lemma_values_of(models);
                }
                let v = packets[i].get_value();
                proof {
                    assert(vals.subrange(0, i + 1).drop_last() =~= vals.subrange(0, i as int));
                    assert(vals.subrange(0, i + 1).last() == vals[i as int]);
                    exact = exact + (v as nat);
                }
                if !overflowed {
                    match acc.checked_add(v) {
                        Some(t) => {
                            acc = t;
                        },
                        None => {
                            overflowed = true;
                        },
                    }
                }
                i = i + 1;
            }
            proof {
                assert(vals.subrange(0, n as int) =~= vals);
            }
            if overflowed {
                Err(PacketParseError { kind: PacketErrorKind::Overflow })
            } else {
                Ok(acc)
            }
        },
        OperatorType::Product => {
            if n == 0 {
                return Err(PacketParseError { kind: PacketErrorKind::Malformed });
            }
            let mut acc: u64 = 1;
            let mut overflowed = false;
            let ghost mut exact: nat = 1nat;
            let mut i: usize = 0;
            proof {
                assert(vals.subrange(0, 0) =~= Seq::<nat>::empty());
            }
            while i < n
                invariant
                    wf_all(packets@),
                    0 <= i <= n == packets@.len(),
                    models == pkt_models(packets@),
                    vals == values_of(models),
                    vals.len() == n,
                    exact == prod_seq(vals.subrange(0, i as int)),
                    !overflowed ==> acc == exact,
                    overflowed ==> exact > u64::MAX,
                decreases n - i,
            {
                proof {
                    lemma_wf_all_index(packets@, i as int);
                    lemma_pkt_models(packets@);
                    lemma_values_of(models);
                }
                let v = packets[i].get_value();
                proof {
                    assert(vals.subrange(0, i + 1).drop_last() =~= vals.subrange(0, i as int));
                    assert(vals.subrange(0, i + 1).last() == vals[i as int]);
                }
                if v == 0 {
                    proof {
                        exact = exact * 0;
                    }
                    acc = 0;
                    overflowed = false;
                } else if overflowed {
                    proof {
                        assert(exact * (v as nat) >= exact * 1) by (nonlinear_arith)
                            requires
                                v >= 1,
                                exact >= 0,
                        ;
                        exact = exact * (v as nat);
                    }
                } else {
                    match acc.checked_mul(v) {
                        Some(t) => {
                            proof {
                                exact = exact * (v as nat);
                            }
                            acc = t;
                        },
                        None => {
                            proof {
                                exact = exact * (v as nat);
                            }
                            overflowed = true;
                        },
                    }
                }
                i = i + 1;
            }
            proof {
                assert(vals.subrange(0, n as int) =~= vals);
            }
            if overflowed {
                Err(PacketParseError { kind: PacketErrorKind::Overflow })
            } else {
                Ok(acc)
            }
        },
        OperatorType::Min | OperatorType::Max => {
            if n == 0 {
                return Err(PacketParseError { kind: PacketErrorKind::Malformed });
            }
            let want_min = match op {
                OperatorType::Min => true,
                _ => false,
            };
            proof {
                lemma_wf_all_index(packets@, 0);
                lemma_pkt_models(packets@);
                lemma_values_of(models);
            }
            let mut acc: u64 = packets[0].get_value();
            let mut i: usize = 1;
            proof {
                assert(vals.subrange(0, 1) =~= seq![vals[0]]);
            }
            while i < n
                invariant
                    wf_all(packets@),
                    1 <= i <= n == packets@.len(),
                    models == pkt_models(packets@),
                    vals == values_of(models),
                    vals.len() == n,
                    want_min ==> acc == min_seq(vals.subrange(0, i as int)),
                    !want_min ==> acc == max_seq(vals.subrange(0, i as int)),
                decreases n - i,
            {
                proof {
                    lemma_wf_all_index(packets@, i as int);
                    lemma_pkt_models(packets@);
                    lemma_values_of(models);
                }
                let v = packets[i].get_value();
                proof {
                    assert(vals.subrange(0, i + 1).drop_last() =~= vals.subrange(0, i as int));
                    assert(vals.subrange(0, i + 1).last() == vals[i as int]);
                }
                if want_min {
                    if v < acc {
                        acc = v;
                    }
                } else {
                    if v > acc {
                        acc = v;
                    }
                }
                i = i + 1;
            }
            proof {
                assert(vals.subrange(0, n as int) =~= vals);
            }
            Ok(acc)
        },
    }
}

/// Joins the children already decoded with the outcome of decoding the rest
/// of a child list.
pub open spec fn glue_children(
    prefix: Seq<PacketModel>,
    rest: Result<(Seq<PacketModel>, int), PacketErrorKind>,
) -> Result<(Seq<PacketModel>, int), PacketErrorKind> {
    match rest {
        Ok((s, e)) => Ok((prefix + s, e)),
        Err(k) => Err(k),
    }
}

proof fn lemma_glue_assoc(
    a: Seq<PacketModel>,
    b: Seq<PacketModel>,
    x: Result<(Seq<PacketModel>, int), PacketErrorKind>,
)
    ensures
        glue_children(a, glue_children(b, x)) == glue_children(a + b, x),
{
    match x {
        Ok((s, e)) => {
            assert(a + (b + s) =~= (a + b) + s);
        },
        Err(_) => {
        },
    }
}

proof fn lemma_pkt_models_push(s: Seq<Packet>, p: Packet)
    ensures
        pkt_models(s.push(p)) =~= pkt_models(s) + seq![pkt_model(p)],
{
    assert(s.push(p).drop_last() =~= s);
    assert(s.push(p).last() == p);
}

/// Decodes packets one after another until they have consumed exactly
/// `total` bits; a child that runs past that length is malformed.
fn parse_sub_packets_by_length(bits: &Vec<u8>, pos: usize, total: u64) -> (r: Result<
    (Vec<Packet>, usize),
    PacketParseError,
>)
    requires
        bits_wf(bits@),
        pos <= bits@.len(),
    ensures
        match r {
            Ok((children, end)) => {
                &&& spec_parse_by_length(bits@, pos as int, pos + total) == Ok::<
                    (Seq<PacketModel>, int),
                    PacketErrorKind,
                >((pkt_models(children@), end as int))
                &&& wf_all(children@)
                &&& pos <= end <= bits@.len()
            },
            Err(e) => spec_parse_by_length(bits@, pos as int, pos + total) == Err::<
                (Seq<PacketModel>, int),
                PacketErrorKind,
            >(e.kind),
        },
    decreases bits@.len() - pos, 1int,
{
    let ghost target: int = pos + total;
    let mut children: Vec<Packet> = Vec::new();
    let mut consumed: u64 = 0;
    let mut cur = pos;
    proof {
        assert(pkt_models(children@) =~= Seq::<PacketModel>::empty());
    }
    while consumed < total
        invariant
            bits_wf(bits@),
            pos <= cur <= bits@.len(),
            target == pos + total,
            consumed <= total,
            cur == pos + consumed,
            wf_all(children@),
            glue_children(pkt_models(children@), spec_parse_by_length(bits@, cur as int, target))
                == spec_parse_by_length(bits@, pos as int, target),
        decreases total - consumed,
    {
        match parse_packet(bits, cur) {
            Err(e) => {
                assert(spec_parse_by_length(bits@, cur as int, target) == Err::<
                    (Seq<PacketModel>, int),
                    PacketErrorKind,
                >(e.kind));
                return Err(e);
            },
            Ok((p, end)) => {
                let ghost m = pkt_model(p);
                proof {
                    assert(spec_parse_by_length(bits@, cur as int, target) == glue_children(
                        seq![m],
                        spec_parse_by_length(bits@, end as int, target),
                    ));
                }
                let size = end - cur;
                if (size as u64) > total - consumed {
                    proof {
                        assert(end > target);
                        assert(spec_parse_by_length(bits@, end as int, target) == Err::<
                            (Seq<PacketModel>, int),
                            PacketErrorKind,
                        >(PacketErrorKind::Malformed));
                    }
                    return Err(PacketParseError { kind: PacketErrorKind::Malformed });
                }
                proof {
                    lemma_wf_all_push(children@, p);
                    lemma_pkt_models_push(children@, p);
                    lemma_glue_assoc(
                        pkt_models(children@),
                        seq![m],
                        spec_parse_by_length(bits@, end as int, target),
                    );
                }
                children.push(p);
                consumed = consumed + (size as u64);
                cur = end;
            },
        }
    }
    proof {
        assert(cur == target);
        assert(spec_parse_by_length(bits@, cur as int, target) == Ok::<
            (Seq<PacketModel>, int),
            PacketErrorKind,
        >((Seq::empty(), cur as int)));
        assert(pkt_models(children@) + Seq::<PacketModel>::empty() =~= pkt_models(children@));
    }
    Ok((children, cur))
}

/// Decodes exactly `count` packets one after another.
fn parse_sub_packets_by_count(bits: &Vec<u8>, pos: usize, count: u64) -> (r: Result<
    (Vec<Packet>, usize),
    PacketParseError,
>)
    requires
        bits_wf(bits@),
        pos <= bits@.len(),
    ensures
        match r {
            Ok((children, end)) => {
                &&& spec_parse_by_count(bits@, pos as int, count as nat) == Ok::<
                    (Seq<PacketModel>, int),
                    PacketErrorKind,
                >((pkt_models(children@), end as int))
                &&& wf_all(children@)
                &&& pos <= end <= bits@.len()
            },
            Err(e) => spec_parse_by_count(bits@, pos as int, count as nat) == Err::<
                (Seq<PacketModel>, int),
                PacketErrorKind,
            >(e.kind),
        },
    decreases bits@.len() - pos, 1int,
{
    let mut children: Vec<Packet> = Vec::new();
    let mut left = count;
    let mut cur = pos;
    proof {
        assert(pkt_models(children@) =~= Seq::<PacketModel>::empty());
    }
    while left > 0
        invariant
            bits_wf(bits@),
            pos <= cur <= bits@.len(),
            left <= count,
            wf_all(children@),
            glue_children(
                pkt_models(children@),
                spec_parse_by_count(bits@, cur as int, left as nat),
            ) == spec_parse_by_count(bits@, pos as int, count as nat),
        decreases left,
    {
        match parse_packet(bits, cur) {
            Err(e) => {
                assert(spec_parse_by_count(bits@, cur as int, left as nat) == Err::<
                    (Seq<PacketModel>, int),
                    PacketErrorKind,
                >(e.kind));
                return Err(e);
            },
            Ok((p, end)) => {
                let ghost m = pkt_model(p);
                proof {
                    assert(spec_parse_by_count(bits@, cur as int, left as nat) == glue_children(
                        seq![m],
                        spec_parse_by_count(bits@, end as int, (left - 1) as nat),
                    ));
                    lemma_wf_all_push(children@, p);
                    lemma_pkt_models_push(children@, p);
                    lemma_glue_assoc(
                        pkt_models(children@),
                        seq![m],
                        spec_parse_by_count(bits@, end as int, (left - 1) as nat),
                    );
                }
                children.push(p);
                left = left - 1;
                cur = end;
            },
        }
    }
    proof {
        assert(spec_parse_by_count(bits@, cur as int, 0nat) == Ok::<
            (Seq<PacketModel>, int),
            PacketErrorKind,
        >((Seq::empty(), cur as int)));
        assert(pkt_models(children@) + Seq::<PacketModel>::empty() =~= pkt_models(children@));
    }
    Ok((children, cur))
}

/// Decodes the one packet that starts at `pos`, descendants included, and
/// returns it with the position just past it.  The executable counterpart
/// of `spec_parse`, and proved to agree with it exactly.
fn parse_packet(bits: &Vec<u8>, pos: usize) -> (r: Result<(Packet, usize), PacketParseError>)
    requires
        bits_wf(bits@),
        pos <= bits@.len(),
    ensures
        match r {
            Ok((p, end)) => {
                &&& spec_parse(bits@, pos as int) == Ok::<(PacketModel, int), PacketErrorKind>(
                    (pkt_model(p), end as int),
                )
                &&& wf(p)
                &&& p.length == Some((end - pos) as usize)
                &&& pos < end <= bits@.len()
            },
            Err(e) => spec_parse(bits@, pos as int) == Err::<(PacketModel, int), PacketErrorKind>(
                e.kind,
            ),
        },
    decreases bits@.len() - pos, 0int,
{
    proof {
        lemma2_to64();
        vstd::std_specs::vec::axiom_spec_len(bits);
        assert(bits@.len() <= usize::MAX);
    }
    let version = match take_int_from_bits(bits, pos, 3) {
        Ok((v, _)) => v,
        Err(e) => {
            return Err(e);
        },
    };
    let tid = match take_int_from_bits(bits, pos + 3, 3) {
        Ok((v, _)) => v,
        Err(e) => {
            return Err(e);
        },
    };
    proof {
        lemma_bits_val_bound(bits@.subrange(pos as int, pos + 3));
        lemma_bits_val_bound(bits@.subrange(pos + 3, pos + 6));
        assert(version <= 7);
        assert(tid <= 7);
    }
    if tid == 4 {
        match parse_literal_value(bits, pos + 6) {
            Err(e) => {
                return Err(e);
            },
            Ok((value, end)) => {
                proof {
                    lemma_spec_parse_literal_advances(bits@, pos + 6, 0);
                }
                let p = Packet {
                    version,
                    packet_type: PacketType::Literal,
                    length: Some(end - pos),
                    packets: Vec::new(),
                    value: Some(value),
                };
                proof {
                    assert(p.packets@.len() == 0);
                    assert(pkt_model(p) == PacketModel::Literal {
                        version: version as nat,
                        value: value as nat,
                    });
                }
                return Ok((p, end));
            },
        }
    }
    let op = operator_type_of(tid);
    let ltid = match take_int_from_bits(bits, pos + 6, 1) {
        Ok((v, _)) => v,
        Err(e) => {
            return Err(e);
        },
    };
    if ltid == 0 {
        let total = match take_int_from_bits(bits, pos + 7, 15) {
            Ok((v, _)) => v,
            Err(e) => {
                return Err(e);
            },
        };
        match parse_sub_packets_by_length(bits, pos + 22, total) {
            Err(e) => {
                return Err(e);
            },
            Ok((children, end)) => {
                match calculate_operation_value(op, &children) {
                    Err(e) => {
                        proof {
                            lemma_pkt_models(children@);
                        }
                        return Err(e);
                    },
                    Ok(v) => {
                        proof {
                            lemma_pkt_models(children@);
                        }
                        let p = Packet {
                            version,
                            packet_type: PacketType::Operator(op),
                            length: Some(end - pos),
                            packets: children,
                            value: Some(v),
                        };
                        return Ok((p, end));
                    },
                }
            },
        }
    } else {
        let count = match take_int_from_bits(bits, pos + 7, 11) {
            Ok((v, _)) => v,
            Err(e) => {
                return Err(e);
            },
        };
        match parse_sub_packets_by_count(bits, pos + 18, count) {
            Err(e) => {
                return Err(e);
            },
            Ok((children, end)) => {
                match calculate_operation_value(op, &children) {
                    Err(e) => {
                        proof {
                            lemma_pkt_models(children@);
                        }
                        return Err(e);
                    },
                    Ok(v) => {
                        proof {
                            lemma_pkt_models(children@);
                        }
                        let p = Packet {
                            version,
                            packet_type: PacketType::Operator(op),
                            length: Some(end - pos),
                            packets: children,
                            value: Some(v),
                        };
                        return Ok((p, end));
                    },
                }
            },
        }
    }
}

// ------------------------------------------------------------------
// Input conversion
// ------------------------------------------------------------------
/// True when every character of `s` is `0` or `1`; such a string is used as
/// a bit sequence directly rather than as hex digits.
pub fn is_bin_str(s: &str) -> (r: bool)
    ensures
        r == is_bin_input(s@),
{
    let n = s.unicode_len();
    let mut i: usize = 0;
    while i < n
        invariant
            0 <= i <= n,
            n == s@.len(),
            forall|j: int| 0 <= j < i ==> is_bit_char(s@[j]),
        decreases n - i,
    {
        let c = s.get_char(i);
        if !(c == '0' || c == '1') {
            assert(!is_bit_char(s@[i as int]));
            return false;
        }
        i = i + 1;
    }
    true
}

/// True when every character of `s` is a hexadecimal digit.
fn is_hex_str(s: &str) -> (r: bool)
    ensures
        r == forall|i: int| 0 <= i < s@.len() ==> is_hex_char(s@[i]),
{
    let n = s.unicode_len();
    let mut i: usize = 0;
    while i < n
        invariant
            0 <= i <= n,
            n == s@.len(),
            forall|j: int| 0 <= j < i ==> is_hex_char(s@[j]),
        decreases n - i,
    {
        let c = s.get_char(i);
        let ok = ('0' <= c && c <= '9') || ('A' <= c && c <= 'F') || ('a' <= c && c <= 'f');
        if !ok {
            assert(!is_hex_char(s@[i as int]));
            return false;
        }
        i = i + 1;
    }
    true
}

/// The bits of a bare bit string, one per character.
fn to_bin_bits(s: &str) -> (r: Vec<u8>)
    requires
        is_bin_input(s@),
    ensures
        r@ == bin_bits(s@),
        bits_wf(r@),
{
    let n = s.unicode_len();
    let mut bits: Vec<u8> = Vec::new();
    let mut i: usize = 0;
    while i < n
        invariant
            0 <= i <= n,
            n == s@.len(),
            bits@.len() == i,
            forall|j: int| 0 <= j < i ==> bits@[j] == bin_bits(s@)[j],
        decreases n - i,
    {
        let c = s.get_char(i);
        if c == '1' {
            bits.push(1);
        } else {
            bits.push(0);
        }
        i = i + 1;
    }
    proof {
        assert(bits@ =~= bin_bits(s@));
    }
    bits
}

/// The numeric value of one hexadecimal digit.
fn hex_digit_val(c: char) -> (r: u8)
    requires
        is_hex_char(c),
    ensures
        r == hex_val(c),
        r <= 15,
{
    if '0' <= c && c <= '9' {
        (c as u32 - '0' as u32) as u8
    } else if 'A' <= c && c <= 'F' {
        (c as u32 - 'A' as u32 + 10) as u8
    } else {
        (c as u32 - 'a' as u32 + 10) as u8
    }
}

/// Expands a hexadecimal digit to its four bits, most significant first;
/// the executable counterpart of `nibble`.
fn hex_to_bin(c: char, bits: &mut Vec<u8>)
    requires
        is_hex_char(c),
    ensures
        final(bits)@ == old(bits)@ + nibble(c),
{
    let v = hex_digit_val(c);
    bits.push(v / 8 % 2);
    bits.push(v / 4 % 2);
    bits.push(v / 2 % 2);
    bits.push(v % 2);
    proof {
        assert(bits@ =~= old(bits)@ + nibble(c));
    }
}

/// The bits of a hexadecimal string, four per digit.
fn to_hex_bits(s: &str) -> (r: Vec<u8>)
    requires
        forall|i: int| 0 <= i < s@.len() ==> is_hex_char(s@[i]),
    ensures
        r@ == hex_bits(s@),
        bits_wf(r@),
{
    let n = s.unicode_len();
    let mut bits: Vec<u8> = Vec::new();
    let mut i: usize = 0;
    proof {
        assert(s@.subrange(0, 0) =~= Seq::<char>::empty());
    }
    while i < n
        invariant
            0 <= i <= n,
            n == s@.len(),
            forall|j: int| 0 <= j < n ==> is_hex_char(s@[j]),
            bits@ == hex_bits(s@.subrange(0, i as int)),
            bits_wf(bits@),
        decreases n - i,
    {
        let c = s.get_char(i);
        let ghost before = bits@;
        hex_to_bin(c, &mut bits);
        proof {
            let pre = s@.subrange(0, i as int);
            let cur = s@.subrange(0, i + 1);
            assert(cur.drop_last() =~= pre);
            assert(cur.last() == s@[i as int]);
            assert(bits@ == hex_bits(cur));
        }
        i = i + 1;
    }
    proof {
        assert(s@.subrange(0, n as int) =~= s@);
    }
    bits
}

// ------------------------------------------------------------------
// The bit reader
// ------------------------------------------------------------------
/// A read-only bit sequence with a cursor: bits are taken from the front,
/// most significant first, and the position only ever moves forward.
#[derive(Debug)]
pub struct BitCursor {
    bits: Vec<u8>,
    position: usize,
}

impl BitCursor {
    /// The whole bit sequence, fixed at construction.
    pub closed spec fn bits_seq(self) -> Seq<u8> {
        self.bits@
    }

    /// The index of the next unread bit.
    pub closed spec fn pos(self) -> int {
        self.position as int
    }

    /// Every element is a bit and the cursor is inside the sequence.
    pub closed spec fn wf(self) -> bool {
        bits_wf(self.bits@) && self.position <= self.bits@.len()
    }

    /// Turns an input string into a bit cursor positioned at the start: a
    /// bare bit string is used as is, anything else is read as hexadecimal
    /// digits, four bits each.  A string that is neither is a format error.
    pub fn from_input(s: &str) -> (r: Result<BitCursor, PacketParseError>)
        ensures
            match r {
                Ok(c) => {
                    &&& input_ok(s@)
                    &&& c.wf()
                    &&& c.bits_seq() == input_bits(s@)
                    &&& c.pos() == 0
                },
                Err(e) => !input_ok(s@) && e.kind == PacketErrorKind::Format,
            },
    {
        if is_bin_str(s) {
            let bits = to_bin_bits(s);
            Ok(BitCursor { bits, position: 0 })
        } else if is_hex_str(s) {
            let bits = to_hex_bits(s);
            Ok(BitCursor { bits, position: 0 })
        } else {
            Err(PacketParseError { kind: PacketErrorKind::Format })
        }
    }

    /// How many bits remain unread.
    pub fn remaining(&self) -> (r: usize)
        requires
            self.wf(),
        ensures
            r == self.bits_seq().len() - self.pos(),
    {
        proof {
            vstd::std_specs::vec::axiom_spec_len(&self.bits);
        }
        self.bits.len() - self.position
    }

    /// Reads the next `n` bits as a big-endian unsigned integer and moves
    /// the cursor past them; fails when fewer than `n` bits remain.
    pub fn take(&mut self, n: usize) -> (r: Result<u64, PacketParseError>)
        requires
            old(self).wf(),
            n <= 64,
        ensures
            final(self).wf(),
            final(self).bits_seq() == old(self).bits_seq(),
            match r {
                Ok(v) => {
                    &&& old(self).pos() + n <= old(self).bits_seq().len()
                    &&& final(self).pos() == old(self).pos() + n
                    &&& v == field_val(old(self).bits_seq(), old(self).pos(), n as int)
                },
                Err(e) => {
                    &&& e.kind == PacketErrorKind::OutOfBounds
                    &&& old(self).pos() + n > old(self).bits_seq().len()
                    &&& *final(self) == *old(self)
                },
            },
    {
        match take_int_from_bits(&self.bits, self.position, n) {
            Ok((v, end)) => {
                self.position = end;
                Ok(v)
            },
            Err(e) => Err(e),
        }
    }
}

// ------------------------------------------------------------------
// The public packet interface
// ------------------------------------------------------------------
impl Packet {
    /// A fresh packet that nothing was decoded into yet.
    pub fn new() -> (r: Packet)
        ensures
            r.version == 0,
            r.packet_type == PacketType::Unknown,
            r.length is None,
            r.packets@.len() == 0,
            r.value is None,
    {
        Packet {
            version: 0,
            packet_type: PacketType::Unknown,
            length: None,
            packets: Vec::new(),
            value: None,
        }
    }

    /// Decodes one whole packet from a bare bit string into `self`; any
    /// trailing bits are ignored.  On an error `self` is left as it was.
    pub fn parse(&mut self, bits: &str) -> (r: Result<(), PacketParseError>)
        ensures
            !is_bin_input(bits@) ==> r == Err::<(), PacketParseError>(
                PacketParseError { kind: PacketErrorKind::Format },
            ) && *final(self) == *old(self),
            is_bin_input(bits@) ==> match spec_parse(bin_bits(bits@), 0) {
                Ok((m, end)) => r is Ok && pkt_model(*final(self)) == m && wf(*final(self)),
                Err(k) => r == Err::<(), PacketParseError>(PacketParseError { kind: k })
                    && *final(self) == *old(self),
            },
    {
        if !is_bin_str(bits) {
            return Err(PacketParseError { kind: PacketErrorKind::Format });
        }
        let bv = to_bin_bits(bits);
        match parse_packet(&bv, 0) {
            Ok((p, _)) => {
                *self = p;
                Ok(())
            },
            Err(e) => Err(e),
        }
    }

    /// Decodes exactly one packet at the cursor's position, advancing the
    /// cursor just past it; trailing bits stay unread.
    pub fn decode(cursor: &mut BitCursor) -> (r: Result<Packet, PacketParseError>)
        requires
            old(cursor).wf(),
        ensures
            final(cursor).wf(),
            final(cursor).bits_seq() == old(cursor).bits_seq(),
            match r {
                Ok(p) => spec_parse(old(cursor).bits_seq(), old(cursor).pos()) == Ok::<
                    (PacketModel, int),
                    PacketErrorKind,
                >((pkt_model(p), final(cursor).pos())) && wf(p),
                Err(e) => spec_parse(old(cursor).bits_seq(), old(cursor).pos()) == Err::<
                    (PacketModel, int),
                    PacketErrorKind,
                >(e.kind) && *final(cursor) == *old(cursor),
            },
    {
        match parse_packet(&cursor.bits, cursor.position) {
            Ok((p, end)) => {
                cursor.position = end;
                Ok(p)
            },
            Err(e) => Err(e),
        }
    }

    /// Convenience entry point: builds a cursor from the input string and
    /// decodes the one packet at its start.  A string that is neither a bit
    /// string nor hexadecimal fails with a format error before any decoding.
    pub fn decode_from_string(s: &str) -> (r: Result<Packet, PacketParseError>)
        ensures
            match r {
                Ok(p) => {
                    &&& input_ok(s@)
                    &&& (spec_parse(input_bits(s@), 0) matches Ok((m, end)) && pkt_model(p) == m)
                    &&& wf(p)
                },
                Err(e) => if !input_ok(s@) {
                    e.kind == PacketErrorKind::Format
                } else {
                    spec_parse(input_bits(s@), 0) == Err::<(PacketModel, int), PacketErrorKind>(
                        e.kind,
                    )
                },
            },
    {
        let mut cursor = match BitCursor::from_input(s) {
            Ok(c) => c,
            Err(e) => {
                return Err(e);
            },
        };
        Packet::decode(&mut cursor)
    }

    /// This packet's version plus the version of every packet below it, by
    /// a read-only pre-order walk: the same tree always gives the same sum.
    pub fn version_sum(&self) -> (r: u64)
        requires
            wf(*self),
            version_sum_of(pkt_model(*self)) <= u64::MAX,
        ensures
            r == version_sum_of(pkt_model(*self)),
        decreases *self,
    {
        match self.packet_type {
            PacketType::Operator(_) => {
                let ghost ms = pkt_models(self.packets@);
                let mut acc: u64 = self.version;
                let mut i: usize = 0;
                let n = self.packets.len();
                proof {
                    lemma_pkt_models(self.packets@);
                    assert(ms.subrange(0, n as int) =~= ms);
                }
                while i < n
                    invariant
                        wf(*self),
                        version_sum_of(pkt_model(*self)) <= u64::MAX,
                        self.packet_type is Operator,
                        n == self.packets@.len(),
                        0 <= i <= n,
                        ms == pkt_models(self.packets@),
                        acc + version_sums_of(ms.subrange(i as int, n as int)) == version_sum_of(
                            pkt_model(*self),
                        ),
                    decreases n - i,
                {
                    proof {
                        lemma_wf_all_index(self.packets@, i as int);
                        lemma_pkt_models(self.packets@);
                        assert(ms.subrange(i as int, n as int)[0] == ms[i as int]);
                        assert(ms.subrange(i as int, n as int).drop_first() =~= ms.subrange(
                            i + 1,
                            n as int,
                        ));
                    }
                    let v = self.packets[i].version_sum();
                    acc = acc + v;
                    i = i + 1;
                }
                proof {
                    lemma_pkt_models(self.packets@);
                    assert(ms.subrange(n as int, n as int) =~= Seq::<PacketModel>::empty());
                }
                acc
            },
            _ => self.version,
        }
    }

    /// The packet's semantic value, computed once during decoding.
    pub fn get_value(&self) -> (r: u64)
        requires
            wf(*self),
        ensures
            r == value_of(pkt_model(*self)),
    {
        match self.value {
            Some(v) => v,
            None => unreached(),
        }
    }
}

} // verus!
