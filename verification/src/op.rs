//! The token stream of a flattened devicetree structure block: begin-node,
//! end-node and property records, no-ops, and the end marker, each padded to
//! a four-byte boundary.

use vstd::prelude::*;
use crate::property::{be32, first_nul};

verus! {

pub const FDT_BEGIN_NODE: u32 = 1;

pub const FDT_END_NODE: u32 = 2;

pub const FDT_PROP: u32 = 3;

pub const FDT_NOP: u32 = 4;

pub const FDT_END: u32 = 9;

/// One parsed record of the structure block.  A property's name lives in
/// the strings block, referenced by offset.
pub enum OpRaw {
    BeginNode { name: Vec<u8> },
    EndNode,
    Prop { name_offset: usize, value: Vec<u8> },
}

/// A record at the specification level.
pub enum OpSpec {
    Begin(Seq<u8>),
    End,
    Prop(int, Seq<u8>),
    Nop,
    EndMarker,
}

/// Padding a record length to the next four-byte boundary.
pub open spec fn pad4(n: int) -> int {
    ((n + 3) / 4) * 4
}

/// The single token of the block `b` starting at `off`, and the offset of
/// the next token: the end marker must end the block, a node name runs to
/// its terminator and is padded, and a property carries a length, a
/// name offset and padded value bytes.
pub open spec fn token_at(b: Seq<u8>, off: int) -> Option<(OpSpec, int)> {
    if !(0 <= off && off + 4 <= b.len()) {
        None
    } else {
        let t = be32(b, off);
        if t == 4 {
            Some((OpSpec::Nop, off + 4))
        } else if t == 9 {
            if off + 4 == b.len() {
                Some((OpSpec::EndMarker, off + 4))
            } else {
                None
            }
        } else if t == 2 {
            Some((OpSpec::End, off + 4))
        } else if t == 1 {
            let p = off + 4 + first_nul(b.skip(off + 4));
            if p >= b.len() {
                None
            } else {
                let next = off + 4 + pad4(p - (off + 4) + 1);
                if next <= b.len() {
                    Some((OpSpec::Begin(b.subrange(off + 4, p)), next))
                } else {
                    None
                }
            }
        } else if t == 3 {
            if off + 12 > b.len() {
                None
            } else {
                let len = be32(b, off + 4);
                let noff = be32(b, off + 8);
                let next = off + 12 + pad4(len);
                if next > b.len() {
                    None
                } else {
                    Some((OpSpec::Prop(noff, b.subrange(off + 12, off + 12 + len)), next))
                }
            }
        } else {
            None
        }
    }
}

/// The next record at `off` with no-ops skipped, as the parser returns it.
pub open spec fn parse_op_spec(b: Seq<u8>, off: int) -> Option<(OpSpec, int)>
    decreases b.len() - off,
{
    match token_at(b, off) {
        None => None,
        Some((tok, o2)) => if o2 <= off || o2 > b.len() {
            None
        } else {
            match tok {
                OpSpec::Nop => parse_op_spec(b, o2),
                _ => Some((tok, o2)),
            }
        },
    }
}

/// The structure block from `off` holds a well-formed record stream: nodes
/// balance, property name offsets stay inside the strings block, and the
/// stream ends with the end marker at depth zero.
pub open spec fn valid_stream(b: Seq<u8>, off: int, depth: int, strings_len: int) -> bool
    decreases b.len() - off,
{
    match parse_op_spec(b, off) {
        None => false,
        Some((op, o2)) => if o2 <= off || o2 > b.len() {
            false
        } else {
            match op {
                OpSpec::EndMarker => depth == 0,
                OpSpec::Begin(_) => valid_stream(b, o2, depth + 1, strings_len),
                OpSpec::End => depth > 0 && valid_stream(b, o2, depth - 1, strings_len),
                OpSpec::Prop(noff, _) => 0 <= noff < strings_len && valid_stream(
                    b,
                    o2,
                    depth,
                    strings_len,
                ),
                OpSpec::Nop => false,
            }
        },
    }
}

/// How an exec record corresponds to a specification record.
pub open spec fn op_matches(op: OpRaw, sp: OpSpec) -> bool {
    match (op, sp) {
        (OpRaw::BeginNode { name }, OpSpec::Begin(n)) => name@ == n,
        (OpRaw::EndNode, OpSpec::End) => true,
        (OpRaw::Prop { name_offset, value }, OpSpec::Prop(noff, v)) => name_offset == noff
            && value@ == v,
        _ => false,
    }
}

/// Parse the next record of `data@.subrange(start, end)` at block offset
/// `off`, skipping no-ops; the end marker parses as `None`.
pub fn parse_op(data: &Vec<u8>, start: usize, end: usize, off: usize) -> (r: Result<
    (Option<OpRaw>, usize),
    (),
>)
    requires
        start <= end <= data@.len(),
        start + off <= end,
        end - start < 0x1_0000_0000_0000,
    ensures
        ({
            let b = data@.subrange(start as int, end as int);
            match r {
                Ok((op, newoff)) => {
                    &&& parse_op_spec(b, off as int) is Some
                    &&& newoff == parse_op_spec(b, off as int)->Some_0.1
                    &&& off < newoff <= end - start
                    &&& (match op {
                        Some(o) => op_matches(o, parse_op_spec(b, off as int)->Some_0.0),
                        None => parse_op_spec(b, off as int)->Some_0.0 is EndMarker,
                    })
                },
                Err(_) => parse_op_spec(b, off as int) is None,
            }
        }),
{
    let ghost b = data@.subrange(start as int, end as int);
    proof {
        assert(data@.len() == data.len());
        assert(b.len() == end - start);
    }
    let mut cur: usize = off;
    loop
        invariant
            start <= end <= data@.len(),
            data@.len() <= usize::MAX,
            end - start < 0x1_0000_0000_0000,
            b == data@.subrange(start as int, end as int),
            off <= cur,
            start + cur <= end,
            parse_op_spec(b, off as int) == parse_op_spec(b, cur as int),
        decreases end - start - cur,
    {
        if end - start - cur < 4 {
            proof {
                assert(token_at(b, cur as int) is None);
            }
            return Err(());
        }
        let t: u32 = read_be32(data, start + cur);
        proof {
            assert(b.subrange(cur as int, cur + 4) =~= data@.subrange(
                start + cur,
                start + cur + 4,
            ));
            assert(be32(b, cur as int) == be32(data@, (start + cur) as int)) by {
                assert(b[cur as int] == data@[start + cur]);
                assert(b[cur + 1] == data@[start + cur + 1]);
                assert(b[cur + 2] == data@[start + cur + 2]);
                assert(b[cur + 3] == data@[start + cur + 3]);
            };
        }
        if t == FDT_NOP {
            cur = cur + 4;
            continue ;
        }
        if t == FDT_END {
            if cur + 4 == end - start {
                return Ok((None, cur + 4));
            } else {
                return Err(());
            }
        }
        if t == FDT_END_NODE {
            return Ok((Some(OpRaw::EndNode), cur + 4));
        }
        if t == FDT_BEGIN_NODE {
            // Scan the zero-terminated name.
            let mut name: Vec<u8> = Vec::new();
            let mut j: usize = cur + 4;
            while j < end - start && data[start + j] != 0
                invariant
                    start <= end <= data@.len(),
                    data@.len() <= usize::MAX,
                    end - start < 0x1_0000_0000_0000,
                    b == data@.subrange(start as int, end as int),
                    cur + 4 <= j <= end - start,
                    name@ == b.subrange(cur + 4, j as int),
                    forall|k: int| cur + 4 <= k < j ==> b[k] != 0,
                decreases end - start - j,
            {
                name.push(data[start + j]);
                proof {
                    assert(b.subrange(cur + 4, j + 1) =~= b.subrange(cur + 4, j as int).push(
                        b[j as int],
                    ));
                }
                j = j + 1;
            }
            proof {
                crate::property::lemma_first_nul_at(b.skip(cur + 4), j - (cur + 4));
            }
            if j == end - start {
                return Err(());
            }
            // `j` holds the terminator; pad the name record to four bytes.
            let reclen: usize = j - (cur + 4) + 1;
            let pad_rec: usize = ((reclen + 3) / 4) * 4;
            proof {
                vstd::arithmetic::div_mod::lemma_fundamental_div_mod(reclen as int + 3, 4);
            }
            if pad_rec > (end - start) - (cur + 4) {
                return Err(());
            }
            let next: usize = cur + 4 + pad_rec;
            proof {
                assert(token_at(b, cur as int) == Some(
                    (OpSpec::Begin(b.subrange(cur + 4, j as int)), next as int),
                ));
            }
            return Ok((Some(OpRaw::BeginNode { name }), next));
        }
        if t == FDT_PROP {
            if end - start - cur < 12 {
                return Err(());
            }
            let len32: u32 = read_be32(data, start + cur + 4);
            let noff32: u32 = read_be32(data, start + cur + 8);
            proof {
                assert(be32(b, cur + 4) == be32(data@, start + cur + 4)) by {
                    assert(b[cur + 4] == data@[start + cur + 4]);
                    assert(b[cur + 5] == data@[start + cur + 5]);
                    assert(b[cur + 6] == data@[start + cur + 6]);
                    assert(b[cur + 7] == data@[start + cur + 7]);
                };
                assert(be32(b, cur + 8) == be32(data@, start + cur + 8)) by {
                    assert(b[cur + 8] == data@[start + cur + 8]);
                    assert(b[cur + 9] == data@[start + cur + 9]);
                    assert(b[cur + 10] == data@[start + cur + 10]);
                    assert(b[cur + 11] == data@[start + cur + 11]);
                };
            }
            let len: usize = len32 as usize;
            if len > (end - start) - (cur + 12) {
                proof {
                    assert(12 + pad4(len as int) >= 12 + len);
                }
                return Err(());
            }
            let pad_len: usize = ((len + 3) / 4) * 4;
            proof {
                vstd::arithmetic::div_mod::lemma_fundamental_div_mod(len as int + 3, 4);
            }
            if pad_len > (end - start) - (cur + 12) {
                return Err(());
            }
            let next: usize = cur + 12 + pad_len;
            let mut value: Vec<u8> = Vec::new();
            let mut j: usize = cur + 12;
            while j < cur + 12 + len
                invariant
                    start <= end <= data@.len(),
                    data@.len() <= usize::MAX,
                    end - start < 0x1_0000_0000_0000,
                    b == data@.subrange(start as int, end as int),
                    cur + 12 <= j <= cur + 12 + len,
                    cur + 12 + len <= end - start,
                    value@ == b.subrange(cur + 12, j as int),
                decreases cur + 12 + len - j,
            {
                value.push(data[start + j]);
                proof {
                    assert(b.subrange(cur + 12, j + 1) =~= b.subrange(cur + 12, j as int).push(
                        b[j as int],
                    ));
                }
                j = j + 1;
            }
            proof {
                assert(token_at(b, cur as int) == Some(
                    (
                        OpSpec::Prop(noff32 as int, b.subrange(cur + 12, cur + 12 + len)),
                        next as int,
                    ),
                ));
            }
            return Ok((Some(OpRaw::Prop { name_offset: noff32 as usize, value }), next));
        }
        proof {
            assert(token_at(b, cur as int) is None);
        }
        return Err(());
    }
}

/// A big-endian 32-bit read.
fn read_be32(data: &Vec<u8>, off: usize) -> (r: u32)
    requires
        off + 4 <= data@.len(),
    ensures
        r == be32(data@, off as int),
{
    proof {
        assert(data@.len() == data.len());
    }
    (data[off] as u32) * 0x100_0000 + (data[off + 1] as u32) * 0x1_0000 + (data[off + 2] as u32)
        * 0x100 + (data[off + 3] as u32)
}

} // verus!
