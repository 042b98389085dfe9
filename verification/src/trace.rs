//! Kernel trace messages and device topology.

use vstd::prelude::*;
use vstd::string::*;

use crate::abi::word_at;
use crate::text::{decimal_digits, push_decimal, trim_end, trimmed};

verus! {

/// Size of the trace buffer that a traced launch allocates on the device.
pub const TRACE_BUFFER_BYTES: u64 = 0x4_0000;

/// First word of every trace buffer.
pub const TRACE_MAGIC: u32 = 0x7654_3210;

/// The half word whose least significant byte stands at `at`.
pub open spec fn half_at(bytes: Seq<u8>, at: int) -> int {
    bytes[at] + bytes[at + 1] * 0x100
}

/// Whether `bytes` start with a trace header that can be decoded: 64 bytes, the
/// magic word, and a layout version 0.6 or an older 0.x.
pub open spec fn trace_header_valid(bytes: Seq<u8>) -> bool {
    &&& bytes.len() >= 64
    &&& word_at(bytes, 0) == TRACE_MAGIC
    &&& half_at(bytes, 4) == 0
    &&& half_at(bytes, 6) <= 6
}

/// The last partition that a decoder looks for: partitions lie `stride` bytes
/// apart, and it stops at the first one that starts beyond the buffer.
pub open spec fn last_partition(len: int, count: int, stride: int) -> int {
    if count <= 1 || stride < 4 {
        0
    } else if count - 1 < (len - 4) / stride + 1 {
        count - 1
    } else {
        (len - 4) / stride + 1
    }
}

/// Whether the start of every partition that a decoder looks for has an address.
pub open spec fn partitions_addressable(bytes: Seq<u8>) -> bool {
    bytes.len() >= 64 ==> {
        let stride = word_at(bytes, 16);
        last_partition(bytes.len() as int, half_at(bytes, 20), stride) * stride + 4 <= usize::MAX
    }
}

/// Whether the start of every partition that a decoder looks for has an address,
/// as is always so where addresses have 64 bits.
pub fn partitions_fit(bytes: &[u8]) -> (r: bool)
    ensures
        r == partitions_addressable(bytes@),
{
    let len: usize = bytes.len();
    if len < 64 {
        return true;
    }
    let stride: u64 = bytes[16] as u64 + bytes[17] as u64 * 0x100 + bytes[18] as u64 * 0x1_0000
        + bytes[19] as u64 * 0x100_0000;
    let count: u64 = bytes[20] as u64 + bytes[21] as u64 * 0x100;
    let last: u64 = if count <= 1 || stride < 4 {
        0
    } else if count - 1 < (len as u64 - 4) / stride + 1 {
        count - 1
    } else {
        (len as u64 - 4) / stride + 1
    };
    assert(last * stride <= 0xFFFF * 0xFFFF_FFFF) by (nonlinear_arith)
        requires
            0 <= last <= 0xFFFF,
            0 <= stride <= 0xFFFF_FFFF,
    ;
    last * stride + 4 <= usize::MAX as u64
}

/// The string entries of a trace buffer with a valid header, in stream order:
/// the hart that wrote each, and its text.
pub uninterp spec fn trace_string_entries(bytes: Seq<u8>) -> Seq<(u16, Seq<char>)>;

/// Decodes the string entries of a trace buffer.
///
/// Calls `et_soc1::trace::TraceBuffer::parse` and then
/// `TraceBuffer::string_entries` on its result. Believed of them: `parse` accepts
/// exactly the buffers with a valid header, and the entries are a function of
/// the bytes. What the entries are is not stated.
#[verifier::external_body]
fn decode_strings(bytes: &[u8]) -> (r: Option<Vec<(u16, String)>>)
    requires
        partitions_addressable(bytes@),
    ensures
        r is Some <==> trace_header_valid(bytes@),
        r matches Some(entries) ==> entries@.map_values(|e: (u16, String)| (e.0, e.1@))
            == trace_string_entries(bytes@),
{
    match et_soc1::trace::TraceBuffer::parse(bytes) {
        Ok(buffer) => Some(buffer.string_entries().map(|e| (e.0, e.1.into_owned())).collect()),
        Err(_) => None,
    }
}

/// The line that shows one trace message.
pub open spec fn trace_line(entry: (u16, Seq<char>)) -> Seq<char> {
    "  [hart "@ + decimal_digits(entry.0 as nat) + "] "@ + trimmed(entry.1)
}

/// The lines that show the messages of a trace, in order.
pub fn trace_lines(entries: &Vec<(u16, String)>) -> (r: Vec<String>)
    ensures
        r@.len() == entries@.len(),
        forall|i: int|
            0 <= i < r@.len() ==> #[trigger] r@[i]@ == trace_line((entries@[i].0, entries@[i].1@)),
{
    let mut lines: Vec<String> = Vec::new();
    let mut i: usize = 0;
    while i < entries.len()
        invariant
            i <= entries@.len(),
            lines@.len() == i,
            forall|k: int|
                0 <= k < i ==> #[trigger] lines@[k]@ == trace_line((entries@[k].0, entries@[k].1@)),
        decreases entries@.len() - i,
    {
        let mut line: String = String::new();
        line.append("  [hart ");
        push_decimal(&mut line, entries[i].0 as u64);
        line.append("] ");
        line.append(trim_end(entries[i].1.as_str()));
        assert(line@ =~= trace_line((entries@[i as int].0, entries@[i as int].1@)));
        lines.push(line);
        i += 1;
    }
    lines
}

/// The lines to print for a downloaded trace buffer; none at all if the buffer
/// does not decode.
pub fn read_trace(bytes: &[u8]) -> (r: Vec<String>)
    requires
        partitions_addressable(bytes@),
    ensures
        trace_header_valid(bytes@) ==> {
            &&& r@.len() == trace_string_entries(bytes@).len()
            &&& forall|i: int|
                0 <= i < r@.len() ==> #[trigger] r@[i]@ == trace_line(
                    trace_string_entries(bytes@)[i],
                )
        },
        !trace_header_valid(bytes@) ==> r@.len() == 0,
{
    match decode_strings(bytes) {
        Some(entries) => {
            let lines = trace_lines(&entries);
            proof {
                let named = entries@.map_values(|e: (u16, String)| (e.0, e.1@));
                assert forall|i: int| 0 <= i < lines@.len() implies #[trigger] lines@[i]@ == trace_line(
                    trace_string_entries(bytes@)[i],
                ) by {
                    assert(named[i] == (entries@[i].0, entries@[i].1@));
                }
            }
            lines
        },
        None => Vec::new(),
    }
}

// ---------------------------------------------------------------------------
// Topology
// ---------------------------------------------------------------------------

/// The compute topology that a device reports.
#[derive(Clone, Copy, Debug, PartialEq, Eq, Structural)]
pub struct Topology {
    /// One bit per compute shire that is present.
    pub shire_mask: u64,
    /// Harts per compute shire.
    pub harts_per_shire: u32,
    /// Harts per neighbourhood.
    pub harts_per_neighbourhood: u32,
    /// Cache line size in bytes.
    pub cache_line: u32,
}

/// Number of set bits.
pub open spec fn bits_set(v: nat) -> nat
    decreases v,
{
    if v == 0 {
        0
    } else {
        v % 2 + bits_set(v / 2)
    }
}

/// Calls `et_soc1::Topology::num_shires`. Believed of it: it counts the set bits
/// of the shire mask.
#[verifier::external_body]
fn device_num_shires(topo: &Topology) -> (r: u32)
    ensures
        r == bits_set(topo.shire_mask as nat),
{
    et_soc1::Topology {
        shire_mask: topo.shire_mask,
        harts_per_shire: topo.harts_per_shire,
        harts_per_neighbourhood: topo.harts_per_neighbourhood,
        cache_line: topo.cache_line,
    }.num_shires()
}

/// Calls `et_soc1::Topology::num_harts`. Believed of it: it multiplies the number
/// of set bits of the shire mask by the harts per shire.
#[verifier::external_body]
fn device_num_harts(topo: &Topology) -> (r: u32)
    requires
        bits_set(topo.shire_mask as nat) * topo.harts_per_shire <= u32::MAX,
    ensures
        r == bits_set(topo.shire_mask as nat) * topo.harts_per_shire,
{
    et_soc1::Topology {
        shire_mask: topo.shire_mask,
        harts_per_shire: topo.harts_per_shire,
        harts_per_neighbourhood: topo.harts_per_neighbourhood,
        cache_line: topo.cache_line,
    }.num_harts()
}

impl Topology {
    /// Number of compute shires present.
    pub fn num_shires(&self) -> (r: u32)
        ensures
            r == bits_set(self.shire_mask as nat),
    {
        device_num_shires(self)
    }

    /// Number of harts in all shires present.
    pub fn num_harts(&self) -> (r: u32)
        requires
            bits_set(self.shire_mask as nat) * self.harts_per_shire <= u32::MAX,
        ensures
            r == bits_set(self.shire_mask as nat) * self.harts_per_shire,
    {
        device_num_harts(self)
    }

    /// The shires to launch on: those asked for, or else all that are present.
    pub fn launch_mask(&self, asked: Option<u64>) -> (r: u64)
        ensures
            r == (match asked {
                Some(mask) => mask,
                None => self.shire_mask,
            }),
    {
        match asked {
            Some(mask) => mask,
            None => self.shire_mask,
        }
    }
}

/// A call of `trace_lines` shows one line per message: two blanks, the hart in
/// brackets, and the message without the white space that it ends in.
pub proof fn law_call_shows_messages(entries: Vec<(u16, String)>, r: Vec<String>, i: int)
    requires
        call_ensures(trace_lines, (&entries,), r),
        0 <= i < entries@.len(),
    ensures
        r@.len() == entries@.len(),
        r@[i]@ == seq![' ', ' ', '[', 'h', 'a', 'r', 't', ' '] + decimal_digits(
            entries@[i].0 as nat,
        ) + seq![']', ' '] + trimmed(entries@[i].1@),
{
    reveal_strlit("  [hart ");
    reveal_strlit("] ");
    assert("  [hart "@ =~= seq![' ', ' ', '[', 'h', 'a', 'r', 't', ' ']);
    assert("] "@ =~= seq![']', ' ']);
    assert(r@[i]@ == trace_line((entries@[i].0, entries@[i].1@)));
}

/// A call of `read_trace` shows every message of a buffer that begins with the magic
/// bytes and a version from 0.0 to 0.6, as `trace_lines` does, and nothing of any
/// other.
pub proof fn law_call_reads_trace(bytes: &[u8], r: Vec<String>, i: int)
    requires
        call_ensures(read_trace, (bytes,), r),
    ensures
        0 <= i < r@.len() ==> r@[i]@ == seq![' ', ' ', '[', 'h', 'a', 'r', 't', ' ']
            + decimal_digits(trace_string_entries(bytes@)[i].0 as nat) + seq![']', ' '] + trimmed(
            trace_string_entries(bytes@)[i].1,
        ),
        bytes@.len() >= 64 && bytes@[0] == 0x10 && bytes@[1] == 0x32 && bytes@[2] == 0x54
            && bytes@[3] == 0x76 && bytes@[4] == 0 && bytes@[5] == 0 && bytes@[6] <= 6 && bytes@[7]
            == 0 ==> r@.len() == trace_string_entries(bytes@).len(),
        bytes@.len() < 64 || bytes@[0] != 0x10 || bytes@[1] != 0x32 || bytes@[2] != 0x54 || bytes@[3]
            != 0x76 || bytes@[4] != 0 || bytes@[5] != 0 || bytes@[6] > 6 || bytes@[7] != 0 ==> r@.len()
            == 0,
{
    reveal_strlit("  [hart ");
    reveal_strlit("] ");
    assert("  [hart "@ =~= seq![' ', ' ', '[', 'h', 'a', 'r', 't', ' ']);
    assert("] "@ =~= seq![']', ' ']);
    if 0 <= i < r@.len() {
        assert(r@[i]@ == trace_line(trace_string_entries(bytes@)[i]));
    }
}

/// A device has as many harts as its shires have together, and a launch goes to the
/// shires that were asked for, or else to all.
pub proof fn law_calls_count_harts(
    topo: Topology,
    asked: Option<u64>,
    shires: u32,
    harts: u32,
    mask: u64,
)
    requires
        call_ensures(Topology::num_shires, (&topo,), shires),
        call_ensures(Topology::num_harts, (&topo,), harts),
        call_ensures(Topology::launch_mask, (&topo, asked), mask),
    ensures
        harts == shires * topo.harts_per_shire,
        asked is Some ==> mask == asked->0,
        asked is None ==> mask == topo.shire_mask,
{
}

/// A call of `partitions_fit` is true only if every partition that a decoder reaches
/// starts below the end of the address range: partition `i` of the number in the
/// header is reached if the one before it starts inside the buffer. It is true of every
/// buffer with no partition beyond the first.
pub proof fn law_call_partitions(bytes: &[u8], r: bool, i: int, count: int, stride: int)
    requires
        call_ensures(partitions_fit, (bytes,), r),
        bytes@.len() >= 64,
        stride == bytes@[16] + bytes@[17] * 256 + bytes@[18] * 65536 + bytes@[19] * 16777216,
        count == bytes@[20] + bytes@[21] * 256,
    ensures
        count <= 1 || stride < 4 ==> r,
        r && 1 <= i < count && stride >= 4 && (i - 1) * stride + 4 <= bytes@.len() ==> i * stride + 4
            <= usize::MAX,
{
    if r && 1 <= i < count && stride >= 4 && (i - 1) * stride + 4 <= bytes@.len() {
        let len = bytes@.len() as int;
        let last = last_partition(len, count, stride);
        let q = (len - 4) / stride;
        assert(i - 1 <= q) by (nonlinear_arith)
            requires
                (i - 1) * stride <= len - 4,
                stride >= 4,
                q == (len - 4) / stride,
        ;
        assert(i <= last);
        assert(i * stride <= last * stride) by (nonlinear_arith)
            requires
                i <= last,
                stride >= 4,
        ;
    }
}

} // verus!
