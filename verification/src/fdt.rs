//! The flattened devicetree container: header validation, block ranges, and
//! a validated record stream.

use vstd::prelude::*;
use crate::property::{be32, first_nul};
use crate::op::{parse_op, parse_op_spec, valid_stream, OpRaw, OpSpec};

verus! {

/// A flattened devicetree validation error.
#[derive(Debug)]
pub struct FdtError {
    message: &'static str,
    offset: Option<usize>,
}

impl FdtError {
    fn from_message(message: &'static str) -> (r: FdtError)
        ensures
            r.offset is None,
    {
        FdtError { message, offset: None }
    }

    fn from_message_offset(message: &'static str, offset: usize) -> (r: FdtError)
        ensures
            r.offset == Some(offset),
    {
        FdtError { message, offset: Some(offset) }
    }

    /// The error's description.
    pub fn text(&self) -> &'static str {
        self.message
    }
}

/// A flattened devicetree, validated on construction.
pub struct Fdt {
    raw: Vec<u8>,
    struct_start: usize,
    struct_end: usize,
    strings_start: usize,
    strings_end: usize,
}

/// The header checks of a flattened devicetree: sufficient bytes, the magic
/// value, a total size within the data, and block ranges within the data,
/// with the strings block shrunk to its last terminator.
pub open spec fn fdt_header_ok(b: Seq<u8>) -> bool {
    &&& b.len() >= 40
    &&& be32(b, 0) == 0xd00d_feed
    &&& be32(b, 4) <= b.len()
    &&& be32(b, 8) + be32(b, 36) <= b.len()
    &&& be32(b, 12) <= b.len()
}

/// Where the strings block ends once shrunk to its last terminator.
pub open spec fn strings_end_spec(b: Seq<u8>, start: int, end0: int) -> int
    decreases end0 - start,
{
    if end0 <= start {
        start
    } else if b[end0 - 1] == 0 {
        end0
    } else {
        strings_end_spec(b, start, end0 - 1)
    }
}

/// A whole flattened devicetree is acceptable: the header is sound and the
/// structure block holds a balanced record stream whose property names lie
/// inside the shrunk strings block.
pub open spec fn fdt_ok(b: Seq<u8>) -> bool {
    &&& fdt_header_ok(b)
    &&& valid_stream(
        b.subrange(be32(b, 8), be32(b, 8) + be32(b, 36)),
        0,
        0,
        strings_end_spec(
            b,
            be32(b, 12),
            if be32(b, 12) + be32(b, 32) <= b.len() {
                be32(b, 12) + be32(b, 32)
            } else {
                b.len() as int
            },
        ) - be32(b, 12),
    )
}

impl Fdt {
    /// The container's invariant: block ranges lie inside the data, the
    /// strings block is empty or ends with a terminator, and the structure
    /// block holds a validated record stream.
    pub closed spec fn wf(self) -> bool {
        &&& self.struct_start <= self.struct_end <= self.raw@.len()
        &&& self.strings_start <= self.strings_end <= self.raw@.len()
        &&& self.raw@.len() < 0x1_0000_0000_0000
        &&& (self.strings_end > self.strings_start ==> self.raw@[self.strings_end - 1] == 0)
        &&& valid_stream(self.sblock(), 0, 0, self.strings_len() as int)
    }

    /// The structure block.
    pub closed spec fn sblock(self) -> Seq<u8> {
        self.raw@.subrange(self.struct_start as int, self.struct_end as int)
    }

    /// The strings block.
    pub closed spec fn strings(self) -> Seq<u8> {
        self.raw@.subrange(self.strings_start as int, self.strings_end as int)
    }

    /// Length of the strings block.
    pub closed spec fn strings_len(self) -> int {
        self.strings_end - self.strings_start
    }

    /// Offset of the structure block inside the data.
    pub closed spec fn struct_base(self) -> int {
        self.struct_start as int
    }

    /// Length of the structure block.
    pub closed spec fn struct_size(self) -> int {
        self.struct_end - self.struct_start
    }

    /// Create and validate a flattened devicetree from `bytes`.
    pub fn from_bytes(bytes: Vec<u8>) -> (r: Result<Fdt, FdtError>)
        requires
            bytes@.len() < 0x1_0000_0000_0000,
        ensures
            r is Ok <==> fdt_ok(bytes@),
            r is Ok ==> r->Ok_0.wf(),
    {
        proof {
            assert(bytes@.len() == bytes.len());
        }
        if bytes.len() < 40 {
            return Err(FdtError::from_message("Not enough bytes for FDT"));
        }
        let magic = read_be32(&bytes, 0);
        if magic != 0xd00d_feed {
            return Err(FdtError::from_message("Invalid FDT magic"));
        }
        let total_size = read_be32(&bytes, 4) as usize;
        if total_size > bytes.len() {
            return Err(FdtError::from_message("FDT totalsize more than available data"));
        }
        let struct_start = read_be32(&bytes, 8) as usize;
        let struct_len = read_be32(&bytes, 36) as usize;
        let strings_start = read_be32(&bytes, 12) as usize;
        let strings_len = read_be32(&bytes, 32) as usize;
        if struct_start > bytes.len() || struct_len > bytes.len() - struct_start {
            return Err(FdtError::from_message("Bad structure block, range out of bounds"));
        }
        if strings_start > bytes.len() {
            return Err(FdtError::from_message("Bad strings block, range out of bounds"));
        }
        let strings_cap: usize = if strings_len <= bytes.len() - strings_start {
            strings_start + strings_len
        } else {
            bytes.len()
        };
        // Shrink the strings block until it ends with a terminator.
        let mut strings_end: usize = strings_cap;
        while strings_end > strings_start && bytes[strings_end - 1] != 0
            invariant
                strings_start <= strings_end <= strings_cap <= bytes@.len(),
                bytes@.len() <= usize::MAX,
                strings_end_spec(bytes@, strings_start as int, strings_cap as int)
                    == strings_end_spec(bytes@, strings_start as int, strings_end as int),
            decreases strings_end,
        {
            strings_end = strings_end - 1;
        }
        proof {
            assert(strings_end_spec(bytes@, strings_start as int, strings_cap as int)
                == strings_end as int);
        }
        let struct_end = struct_start + struct_len;
        let ghost b = bytes@.subrange(struct_start as int, struct_end as int);
        let ghost sl = strings_end - strings_start;
        proof {
            assert(struct_start as int == be32(bytes@, 8));
            assert(struct_len as int == be32(bytes@, 36));
            assert(strings_start as int == be32(bytes@, 12));
            assert(b == bytes@.subrange(be32(bytes@, 8), be32(bytes@, 8) + be32(bytes@, 36)));
            assert(strings_cap as int == (if be32(bytes@, 12) + be32(bytes@, 32) <= bytes@.len() {
                be32(bytes@, 12) + be32(bytes@, 32)
            } else {
                bytes@.len() as int
            }));
            assert(fdt_header_ok(bytes@));
            assert(fdt_ok(bytes@) == valid_stream(b, 0, 0, sl as int));
        }
        match check_stream(&bytes, struct_start, struct_end, strings_end - strings_start) {
            Err(e) => {
                return Err(e);
            },
            Ok(()) => {},
        }
        let terminated = strings_end == strings_start || bytes[strings_end - 1] == 0;
        let res = Fdt { raw: bytes, struct_start, struct_end, strings_start, strings_end };
        proof {
            assert(terminated);
            assert(res.sblock() =~= b);
            assert(res.strings_len() == sl);
            assert(res.wf());
        }
        Ok(res)
    }

    /// Get a record cursor for a node known to start at byte offset
    /// `offset` of the data.
    pub fn node_from_offset(&self, offset: usize) -> (r: crate::node::Node)
        requires
            self.wf(),
            self.struct_base() <= offset,
            offset - self.struct_base() <= self.struct_size(),
        ensures
            r.off == offset - self.struct_base(),
    {
        crate::node::Node { off: offset - self.struct_start }
    }

    /// The root node: the structure block's first record.
    pub fn root(&self) -> (r: crate::node::Node)
        requires
            self.wf(),
        ensures
            r.off == 0,
    {
        crate::node::Node { off: 0 }
    }

    /// Exec view of the structure block bounds, for the traversal layer.
    pub fn struct_bounds(&self) -> (r: (usize, usize))
        requires
            self.wf(),
        ensures
            r.0 <= r.1,
            r.0 as int == self.struct_base(),
            r.1 as int == self.struct_base() + self.struct_size(),
    {
        (self.struct_start, self.struct_end)
    }

    /// Offset of the strings block inside the data.
    pub closed spec fn strings_base(self) -> int {
        self.strings_start as int
    }

    /// Exec view of the strings block bounds.
    pub fn strings_bounds(&self) -> (r: (usize, usize))
        requires
            self.wf(),
        ensures
            r.0 <= r.1,
            r.0 as int == self.strings_base(),
            r.1 as int == self.strings_base() + self.strings_len(),
            r.1 - r.0 == self.strings_len(),
    {
        (self.strings_start, self.strings_end)
    }

    /// The underlying bytes.
    pub fn bytes(&self) -> (r: &Vec<u8>)
        ensures
            r@ == self.data(),
    {
        &self.raw
    }

    /// The raw data.
    pub closed spec fn data(self) -> Seq<u8> {
        self.raw@
    }

    /// Length of the raw data.
    pub open spec fn bytes_len(self) -> int {
        self.data().len() as int
    }

    /// How the blocks of a well-formed devicetree sit inside its data.
    pub proof fn lemma_blocks(self)
        requires
            self.wf(),
        ensures
            0 <= self.struct_base(),
            0 <= self.struct_size(),
            self.struct_base() + self.struct_size() <= self.data().len(),
            0 <= self.strings_base(),
            0 <= self.strings_len(),
            self.strings_base() + self.strings_len() <= self.data().len(),
            self.data().len() < 0x1_0000_0000_0000,
            self.sblock() == self.data().subrange(
                self.struct_base(),
                self.struct_base() + self.struct_size(),
            ),
            self.strings() == self.data().subrange(
                self.strings_base(),
                self.strings_base() + self.strings_len(),
            ),
            self.strings_len() > 0 ==> self.strings().last() == 0,
    {
        assert(self.strings() =~= self.data().subrange(
            self.strings_base(),
            self.strings_base() + self.strings_len(),
        ));
        if self.strings_len() > 0 {
            assert(self.strings().last() == self.raw@[self.strings_end - 1]);
        }
    }
}


/// Walk the record stream of `bytes@.subrange(start, end)`, checking that
/// nodes balance, property names lie inside a strings block of `sl` bytes,
/// and the stream ends with the end marker at depth zero.
fn check_stream(bytes: &Vec<u8>, start: usize, end: usize, sl: usize) -> (r: Result<
    (),
    FdtError,
>)
    requires
        start <= end <= bytes@.len(),
        bytes@.len() < 0x1_0000_0000_0000,
    ensures
        r is Ok <==> valid_stream(bytes@.subrange(start as int, end as int), 0, 0, sl as int),
{
    let ghost b = bytes@.subrange(start as int, end as int);
    let mut cur: usize = 0;
    let mut depth: usize = 0;
    loop
        invariant
            start <= end <= bytes@.len(),
            bytes@.len() < 0x1_0000_0000_0000,
            b == bytes@.subrange(start as int, end as int),
            cur <= end - start,
            depth <= cur,
            valid_stream(b, 0, 0, sl as int) == valid_stream(b, cur as int, depth as int, sl as int),
        decreases end - start - cur,
    {
        let step = parse_op(bytes, start, end, cur);
        match step {
            Err(_) => {
                proof {
                    assert(!valid_stream(b, cur as int, depth as int, sl as int));
                }
                return Err(FdtError::from_message_offset("Bad FDT token", cur));
            },
            Ok((op, newoff)) => {
                match op {
                    None => {
                        // End marker.
                        if depth != 0 {
                            proof {
                                assert(!valid_stream(b, cur as int, depth as int, sl as int));
                            }
                            return Err(FdtError::from_message_offset(
                                "Unexpected FDT_END, missing FDT_END_NODE",
                                cur,
                            ));
                        }
                        proof {
                            assert(valid_stream(b, cur as int, depth as int, sl as int));
                        }
                        return Ok(());
                    },
                    Some(OpRaw::BeginNode { name: _ }) => {
                        depth = depth + 1;
                    },
                    Some(OpRaw::EndNode) => {
                        if depth == 0 {
                            proof {
                                assert(!valid_stream(b, cur as int, depth as int, sl as int));
                            }
                            return Err(FdtError::from_message_offset(
                                "Unexpected FDT_END_NODE, no matching FDT_BEGIN_NODE",
                                cur,
                            ));
                        }
                        depth = depth - 1;
                    },
                    Some(OpRaw::Prop { name_offset, value: _ }) => {
                        if name_offset >= sl {
                            proof {
                                assert(!valid_stream(b, cur as int, depth as int, sl as int));
                            }
                            return Err(FdtError::from_message_offset(
                                "Bad FDT_PROP, name is out of range or not NUL-terminated",
                                cur,
                            ));
                        }
                    },
                }
                cur = newoff;
            },
        }
    }
}

/// A big-endian header field.
fn read_be32(data: &Vec<u8>, off: usize) -> (r: u32)
    requires
        off + 4 <= data@.len(),
    ensures
        r == be32(data@, off as int),
{
    proof {
        assert(data@.len() == data.len());
    }
    (data[off] as u32) * 0x100_0000 + (data[off + 1] as u32) * 0x1_0000 + (data[off + 2] as u32)
        * 0x100 + (data[off + 3] as u32)
}

} // verus!
