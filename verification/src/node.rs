//! Devicetree nodes and subtree traversal over the validated record stream.
//!
//! A node is a cursor into the structure block; its properties are the
//! property records that follow its begin record, with names resolved from
//! the strings block.  A walker carries the shared position of a one-pass
//! subtree traversal.

use vstd::prelude::*;
use crate::fdt::Fdt;
use crate::op::{parse_op, parse_op_spec, OpRaw, OpSpec};
use crate::property::{first_nul, string_list, split_nul, be_uint, bytes_eq, status_matches, Status};

verus! {

/// The property records following offset `off` of the block: name offsets
/// and values, in order, up to the first record that is not a property.
pub open spec fn props_from(b: Seq<u8>, off: int) -> Seq<(int, Seq<u8>)>
    decreases b.len() - off,
{
    match parse_op_spec(b, off) {
        Some((OpSpec::Prop(noff, v), o2)) => if off < o2 <= b.len() {
            seq![(noff, v)] + props_from(b, o2)
        } else {
            Seq::empty()
        },
        _ => Seq::empty(),
    }
}

/// The properties of the node whose begin record sits at `off`; empty if no
/// node starts there.
pub open spec fn node_props(b: Seq<u8>, off: int) -> Seq<(int, Seq<u8>)> {
    match parse_op_spec(b, off) {
        Some((OpSpec::Begin(_), o2)) => props_from(b, o2),
        _ => Seq::empty(),
    }
}

/// The zero-terminated string at offset `noff` of the strings block,
/// without its terminator; empty when out of range.
pub open spec fn cstr_at(strings: Seq<u8>, noff: int) -> Seq<u8> {
    if !(0 <= noff <= strings.len()) {
        Seq::empty()
    } else {
        strings.subrange(noff, noff + first_nul(strings.skip(noff)))
    }
}

/// The properties of the node at `off`, with names resolved.
pub open spec fn props_of(fdt: Fdt, off: int) -> Seq<(Seq<u8>, Seq<u8>)> {
    node_props(fdt.sblock(), off).map_values(
        |p: (int, Seq<u8>)| (cstr_at(fdt.strings(), p.0), p.1),
    )
}

/// The name of the node whose begin record sits at `off`, including any
/// unit address; empty if no node starts there.
pub open spec fn node_name(b: Seq<u8>, off: int) -> Seq<u8> {
    match parse_op_spec(b, off) {
        Some((OpSpec::Begin(n), _)) => n,
        _ => Seq::empty(),
    }
}

/// A property value, or empty bytes when the node lacks the property.
pub open spec fn prop_or_empty(fdt: Fdt, off: int, name: Seq<u8>) -> Seq<u8> {
    match prop_lookup(props_of(fdt, off), name) {
        Some(v) => v,
        None => Seq::empty(),
    }
}

/// Whether a string list holds `c` among its zero-terminated pieces.
pub open spec fn list_has(d: Seq<u8>, c: Seq<u8>) -> bool {
    exists|k: int| 0 <= k < split_nul(d).len() && split_nul(d)[k] == c
}

/// A node's begin record starts at `off` of the block.
pub open spec fn begins_node(b: Seq<u8>, off: int) -> bool {
    match parse_op_spec(b, off) {
        Some((OpSpec::Begin(_), _)) => true,
        _ => false,
    }
}

/// First-match lookup among resolved properties.
pub open spec fn prop_lookup(ps: Seq<(Seq<u8>, Seq<u8>)>, name: Seq<u8>) -> Option<Seq<u8>>
    decreases ps.len(),
{
    if ps.len() == 0 {
        None
    } else if ps[0].0 == name {
        Some(ps[0].1)
    } else {
        prop_lookup(ps.skip(1), name)
    }
}

/// A devicetree node: a cursor at its begin record, as an offset into the
/// structure block.
pub struct Node {
    pub off: usize,
}

/// A record cursor over the structure block.
pub struct OpIter {
    pub off: usize,
}

impl OpIter {
    /// Byte offset of this cursor from the start of the devicetree data.
    pub fn offset(&self, fdt: &Fdt) -> (r: usize)
        requires
            fdt.wf(),
            self.off as int <= fdt.struct_size(),
        ensures
            r as int == fdt.struct_base() + self.off,
    {
        let (start, _end) = fdt.struct_bounds();
        start + self.off
    }
}

/// State of a one-pass subtree traversal: the shared cursor and the current
/// depth below the subtree root.
pub struct Walker {
    pub off: usize,
    pub depth: usize,
}

/// A node being traversed as part of a one-pass subtree traversal; derived
/// from a [`Walker`] and advanced through it.
pub struct Iter {
    pub node_off: usize,
    pub depth: usize,
}

impl Node {
    /// Create a one-pass traversal [`Walker`] rooted at this node.
    pub fn walker(&self) -> (r: Walker)
        ensures
            r.off == self.off,
            r.depth == 0,
    {
        Walker { off: self.off, depth: 0 }
    }

    /// Byte offset of this node from the start of the devicetree data.
    pub fn offset(&self, fdt: &Fdt) -> (r: usize)
        requires
            fdt.wf(),
            self.off as int <= fdt.struct_size(),
        ensures
            r as int == fdt.struct_base() + self.off,
    {
        let (start, _end) = fdt.struct_bounds();
        start + self.off
    }

    /// The node's name, including the unit address.
    pub fn name(&self, fdt: &Fdt) -> (r: Vec<u8>)
        requires
            fdt.wf(),
            self.off as int <= fdt.struct_size(),
        ensures
            r@ == node_name(fdt.sblock(), self.off as int),
    {
        proof {
            fdt.lemma_blocks();
        }
        let (start, end) = fdt.struct_bounds();
        match parse_op(fdt.bytes(), start, end, self.off) {
            Ok((Some(OpRaw::BeginNode { name }), _)) => name,
            _ => Vec::new(),
        }
    }

    /// All properties of the node, with names resolved from the strings
    /// block.
    pub fn properties(&self, fdt: &Fdt) -> (r: Vec<(Vec<u8>, Vec<u8>)>)
        requires
            fdt.wf(),
            self.off as int <= fdt.struct_size(),
        ensures
            r@.map_values(|p: (Vec<u8>, Vec<u8>)| (p.0@, p.1@)) == props_of(*fdt, self.off as int),
    {
        proof {
            fdt.lemma_blocks();
        }
        let (start, end) = fdt.struct_bounds();
        let ghost b = fdt.sblock();
        let mut out: Vec<(Vec<u8>, Vec<u8>)> = Vec::new();
        let first = parse_op(fdt.bytes(), start, end, self.off);
        let mut cur: usize;
        match first {
            Ok((Some(OpRaw::BeginNode { name: _ }), o2)) => {
                cur = o2;
            },
            _ => {
                proof {
                    assert(out@.map_values(|p: (Vec<u8>, Vec<u8>)| (p.0@, p.1@)) =~= props_of(
                        *fdt,
                        self.off as int,
                    ));
                }
                return out;
            },
        }
        proof {
            assert(props_of(*fdt, self.off as int) =~= props_from(b, cur as int).map_values(
                |p: (int, Seq<u8>)| (cstr_at(fdt.strings(), p.0), p.1),
            ));
        }
        loop
            invariant
                fdt.wf(),
                b == fdt.sblock(),
                b == fdt.data().subrange(start as int, end as int),
                cur as int <= fdt.struct_size(),
                b.len() == end - start,
                start <= end <= fdt.bytes_len(),
                end - start < 0x1_0000_0000_0000,
                start as int == fdt.struct_base(),
                end as int == fdt.struct_base() + fdt.struct_size(),
                props_of(*fdt, self.off as int) =~= out@.map_values(
                    |p: (Vec<u8>, Vec<u8>)| (p.0@, p.1@),
                ) + props_from(b, cur as int).map_values(
                    |p: (int, Seq<u8>)| (cstr_at(fdt.strings(), p.0), p.1),
                ),
            decreases fdt.struct_size() - cur,
        {
            let step = parse_op(fdt.bytes(), start, end, cur);
            match step {
                Ok((Some(OpRaw::Prop { name_offset, value }), o2)) => {
                    let name = read_cstr(fdt, name_offset);
                    proof {
                        let tail = props_from(b, cur as int);
                        assert(tail == seq![
                            (name_offset as int, value@),
                        ] + props_from(b, o2 as int));
                        assert(tail.map_values(
                            |p: (int, Seq<u8>)| (cstr_at(fdt.strings(), p.0), p.1),
                        ) =~= seq![(cstr_at(fdt.strings(), name_offset as int), value@)]
                            + props_from(b, o2 as int).map_values(
                            |p: (int, Seq<u8>)| (cstr_at(fdt.strings(), p.0), p.1),
                        ));
                        assert(out@.push((name, value)).map_values(
                            |p: (Vec<u8>, Vec<u8>)| (p.0@, p.1@),
                        ) =~= out@.map_values(|p: (Vec<u8>, Vec<u8>)| (p.0@, p.1@)).push(
                            (name@, value@),
                        ));
                    }
                    out.push((name, value));
                    cur = o2;
                },
                _ => {
                    proof {
                        assert(props_from(b, cur as int) =~= Seq::<(int, Seq<u8>)>::empty());
                        assert(props_from(b, cur as int).map_values(
                            |p: (int, Seq<u8>)| (cstr_at(fdt.strings(), p.0), p.1),
                        ) =~= Seq::<(Seq<u8>, Seq<u8>)>::empty());
                    }
                    return out;
                },
            }
        }
    }

    /// Get a property value by its name.
    pub fn property(&self, fdt: &Fdt, name: &[u8]) -> (r: Option<Vec<u8>>)
        requires
            fdt.wf(),
            self.off as int <= fdt.struct_size(),
        ensures
            (match r {
                Some(v) => prop_lookup(props_of(*fdt, self.off as int), name@) == Some(v@),
                None => prop_lookup(props_of(*fdt, self.off as int), name@) is None,
            }),
    {
        let mut props = self.properties(fdt);
        let ghost ps = props_of(*fdt, self.off as int);
        let mut i: usize = 0;
        proof {
            assert(ps.skip(0) =~= ps);
        }
        while i < props.len()
            invariant
                i <= props@.len(),
                ps == props_of(*fdt, self.off as int),
                ps == props@.map_values(|p: (Vec<u8>, Vec<u8>)| (p.0@, p.1@)),
                prop_lookup(ps, name@) == prop_lookup(ps.skip(i as int), name@),
            decreases props@.len() - i,
        {
            proof {
                assert(ps.skip(i as int)[0] == (props@[i as int].0@, props@[i as int].1@));
                assert(ps.skip(i as int).skip(1) =~= ps.skip(i + 1));
            }
            if bytes_eq(&props[i].0, name) {
                proof {
                    assert(ps.skip(i as int).len() > 0);
                    assert(ps.skip(i as int)[0].0 == name@);
                    assert(prop_lookup(ps.skip(i as int), name@) == Some(ps.skip(i as int)[0].1));
                    assert(ps.skip(i as int)[0].1 == props@[i as int].1@);
                }
                let (_, v) = props.remove(i);
                return Some(v);
            }
            i = i + 1;
        }
        proof {
            assert(ps.skip(i as int) =~= Seq::<(Seq<u8>, Seq<u8>)>::empty());
        }
        None
    }

    /// Check whether the node's `compatible` list contains `compat`.  A node
    /// without a `compatible` property reads as an empty list; an invalid
    /// list yields `None`.
    pub fn compatible_with(&self, fdt: &Fdt, compat: &[u8]) -> (r: Option<bool>)
        requires
            fdt.wf(),
            self.off as int <= fdt.struct_size(),
        ensures
            r is Some ==> (prop_or_empty(*fdt, self.off as int, compatible_name()).len() == 0
                || prop_or_empty(*fdt, self.off as int, compatible_name()).last() == 0),
            r is Some ==> r->0 == list_has(
                prop_or_empty(*fdt, self.off as int, compatible_name()),
                compat@,
            ),
            r is None ==> !(prop_or_empty(*fdt, self.off as int, compatible_name()).len() == 0
                || prop_or_empty(*fdt, self.off as int, compatible_name()).last() == 0),
    {
        let pv: Vec<u8> = match self.property(fdt, &[0x63, 0x6f, 0x6d, 0x70, 0x61, 0x74, 0x69, 0x62, 0x6c, 0x65]) {
            Some(v) => v,
            None => Vec::new(),
        };
        proof {
            assert([0x63u8, 0x6fu8, 0x6du8, 0x70u8, 0x61u8, 0x74u8, 0x69u8, 0x62u8, 0x6cu8, 0x65u8]@
                =~= compatible_name());
        }
        let pieces = match string_list(pv.as_slice()) {
            Some(p) => p,
            None => {
                return None;
            },
        };
        let ghost sl = split_nul(pv@);
        let mut i: usize = 0;
        while i < pieces.len()
            invariant
                i <= pieces@.len(),
                sl == split_nul(pv@),
                pv@ == prop_or_empty(*fdt, self.off as int, compatible_name()),
                pv@.len() == 0 || pv@.last() == 0,
                sl == pieces@.map_values(|p: Vec<u8>| p@),
                forall|k: int| 0 <= k < i ==> sl[k] != compat@,
            decreases pieces@.len() - i,
        {
            if bytes_eq(&pieces[i], compat) {
                proof {
                    let pvs = prop_or_empty(*fdt, self.off as int, compatible_name());
                    assert(pvs == pv@);
                    assert(list_has(pvs, compat@)) by {
                        assert(0 <= i < split_nul(pvs).len() && split_nul(pvs)[i as int]
                            == compat@);
                    };
                }
                return Some(true);
            }
            i = i + 1;
        }
        proof {
            let pvs = prop_or_empty(*fdt, self.off as int, compatible_name());
            assert(pvs == pv@);
            assert(!list_has(pvs, compat@)) by {
                if list_has(pvs, compat@) {
                    let k = choose|k: int|
                        0 <= k < split_nul(pvs).len() && split_nul(pvs)[k] == compat@;
                    assert(sl[k] != compat@);
                }
            };
        }
        Some(false)
    }

    /// Get the `phandle` of a node.
    pub fn phandle(&self, fdt: &Fdt) -> (r: Option<u32>)
        requires
            fdt.wf(),
            self.off as int <= fdt.struct_size(),
        ensures
            (match prop_lookup(props_of(*fdt, self.off as int), phandle_name()) {
                Some(v) => if v.len() == 4 {
                    r == Some(crate::property::be32(v, 0) as u32)
                } else {
                    r is None
                },
                None => r is None,
            }),
    {
        let pv = match self.property(fdt, &[0x70, 0x68, 0x61, 0x6e, 0x64, 0x6c, 0x65]) {
            Some(v) => v,
            None => {
                return None;
            },
        };
        proof {
            assert([0x70u8, 0x68u8, 0x61u8, 0x6eu8, 0x64u8, 0x6cu8, 0x65u8]@ =~= phandle_name());
        }
        crate::property::u32(pv.as_slice())
    }

    /// Get the `status` property of a node; a node without one reads as
    /// `okay`.
    pub fn status(&self, fdt: &Fdt) -> (r: Option<Status>)
        requires
            fdt.wf(),
            self.off as int <= fdt.struct_size(),
        ensures
            (match prop_lookup(props_of(*fdt, self.off as int), status_name()) {
                None => r == Some(Status::Okay),
                Some(v) => status_matches(v, r),
            }),
    {
        let pv = match self.property(fdt, &[0x73, 0x74, 0x61, 0x74, 0x75, 0x73]) {
            Some(v) => v,
            None => {
                proof {
                    assert([0x73u8, 0x74u8, 0x61u8, 0x74u8, 0x75u8, 0x73u8]@ =~= status_name());
                }
                return Some(Status::Okay);
            },
        };
        proof {
            assert([0x73u8, 0x74u8, 0x61u8, 0x74u8, 0x75u8, 0x73u8]@ =~= status_name());
        }
        Status::from_bytes(pv.as_slice())
    }

    /// Get the `#{name}-cells` property of a node.
    pub fn cells(&self, fdt: &Fdt, name: &[u8]) -> (r: Option<u32>)
        requires
            fdt.wf(),
            self.off as int <= fdt.struct_size(),
        ensures
            (match prop_lookup(
                props_of(*fdt, self.off as int),
                seq![0x23u8] + name@ + cells_suffix(),
            ) {
                Some(v) => if v.len() == 4 {
                    r == Some(crate::property::be32(v, 0) as u32)
                } else {
                    r is None
                },
                None => r is None,
            }),
    {
        let mut want: Vec<u8> = Vec::new();
        want.push(0x23);
        let mut i: usize = 0;
        while i < name.len()
            invariant
                i <= name@.len(),
                want@ == seq![0x23u8] + name@.take(i as int),
            decreases name@.len() - i,
        {
            proof {
                assert(seq![0x23u8] + name@.take(i + 1) =~= (seq![0x23u8] + name@.take(
                    i as int,
                )).push(name@[i as int]));
            }
            want.push(name[i]);
            i = i + 1;
        }
        want.push(0x2d);
        want.push(0x63);
        want.push(0x65);
        want.push(0x6c);
        want.push(0x6c);
        want.push(0x73);
        proof {
            assert(name@.take(name@.len() as int) =~= name@);
            assert(want@ =~= seq![0x23u8] + name@ + cells_suffix());
        }
        let pv = match self.property(fdt, want.as_slice()) {
            Some(v) => v,
            None => {
                return None;
            },
        };
        crate::property::u32(pv.as_slice())
    }

    /// Get the `#address-cells` property of a node, defaulting to 2.
    pub fn address_cells(&self, fdt: &Fdt) -> (r: usize)
        requires
            fdt.wf(),
            self.off as int <= fdt.struct_size(),
    {
        match self.cells(fdt, &[0x61, 0x64, 0x64, 0x72, 0x65, 0x73, 0x73]) {
            Some(v) => v as usize,
            None => 2,
        }
    }

    /// Get the `#size-cells` property of a node, defaulting to 2.
    pub fn size_cells(&self, fdt: &Fdt) -> (r: usize)
        requires
            fdt.wf(),
            self.off as int <= fdt.struct_size(),
    {
        match self.cells(fdt, &[0x73, 0x69, 0x7a, 0x65]) {
            Some(v) => v as usize,
            None => 2,
        }
    }

    /// Get the `reg` property as `(addr, size)` pairs; a node without one
    /// reads as an empty property.
    pub fn reg(&self, fdt: &Fdt, address_cells: usize, size_cells: usize) -> (r: Option<
        Vec<(u64, u64)>,
    >)
        requires
            fdt.wf(),
            self.off as int <= fdt.struct_size(),
            1 <= address_cells <= 2,
            size_cells <= 2,
        ensures
            ({
                let pv = match prop_lookup(props_of(*fdt, self.off as int), reg_name()) {
                    Some(v) => v,
                    None => Seq::empty(),
                };
                let stride = 4 * (address_cells + size_cells) as int;
                match r {
                    Some(v) => pv.len() as int % stride == 0 && v@.len() == pv.len() as int / stride
                        && forall|i: int|
                        0 <= i < v@.len() ==> (#[trigger] v@[i]).0 == be_uint(
                            pv.subrange(stride * i, stride * i + 4 * address_cells),
                        ) && v@[i].1 == be_uint(
                            pv.subrange(stride * i + 4 * address_cells, stride * (i + 1)),
                        ),
                    None => pv.len() as int % stride != 0,
                }
            }),
    {
        let pv: Vec<u8> = match self.property(fdt, &[0x72, 0x65, 0x67]) {
            Some(v) => v,
            None => Vec::new(),
        };
        proof {
            assert([0x72u8, 0x65u8, 0x67u8]@ =~= reg_name());
        }
        crate::property::reg_list(pv.as_slice(), address_cells, size_cells)
    }

    /// All nodes of this subtree in preorder, parents before children.
    pub fn preorder(&self, fdt: &Fdt) -> (r: Vec<Node>)
        requires
            fdt.wf(),
            self.off as int <= fdt.struct_size(),
        ensures
            forall|i: int|
                0 <= i < r@.len() ==> (#[trigger] r@[i]).off as int <= fdt.struct_size()
                    && begins_node(fdt.sblock(), r@[i].off as int),
    {
        proof {
            fdt.lemma_blocks();
        }
        let (start, end) = fdt.struct_bounds();
        let mut out: Vec<Node> = Vec::new();
        let mut w = self.walker();
        loop
            invariant
                fdt.wf(),
                w.off as int <= fdt.struct_size(),
                fdt.sblock() == fdt.data().subrange(start as int, end as int),
                start <= end <= fdt.bytes_len(),
                end - start < 0x1_0000_0000_0000,
                start as int == fdt.struct_base(),
                end as int == fdt.struct_base() + fdt.struct_size(),
                forall|i: int|
                    0 <= i < out@.len() ==> (#[trigger] out@[i]).off as int <= fdt.struct_size()
                        && begins_node(fdt.sblock(), out@[i].off as int),
            decreases fdt.struct_size() - w.off,
        {
            let here = w.off;
            let step = parse_op(fdt.bytes(), start, end, w.off);
            match step {
                Ok((Some(OpRaw::BeginNode { name: _ }), o2)) => {
                    if w.depth == usize::MAX {
                        return out;
                    }
                    out.push(Node { off: here });
                    w.off = o2;
                    w.depth = w.depth + 1;
                },
                Ok((Some(OpRaw::EndNode), o2)) => {
                    if w.depth <= 1 {
                        return out;
                    }
                    w.off = o2;
                    w.depth = w.depth - 1;
                },
                Ok((Some(OpRaw::Prop { name_offset: _, value: _ }), o2)) => {
                    w.off = o2;
                },
                Ok((None, _)) => {
                    return out;
                },
                Err(_) => {
                    return out;
                },
            }
        }
    }
}

impl Walker {
    /// The [`Iter`] of the subtree root.
    pub fn iter(&self) -> (r: Iter)
        ensures
            r.node_off == self.off,
            r.depth == self.depth,
    {
        Iter { node_off: self.off, depth: self.depth }
    }
}

impl Iter {
    /// The [`Node`] being traversed by this [`Iter`].
    pub fn node(&self) -> (r: Node)
        ensures
            r.off == self.node_off,
    {
        Node { off: self.node_off }
    }

    /// Advance the shared walker to this node's next immediate child and
    /// return its [`Iter`], or `None` once the node's children are
    /// exhausted.
    pub fn next_child(&self, fdt: &Fdt, walker: &mut Walker) -> (r: Option<Iter>)
        requires
            fdt.wf(),
            old(walker).off as int <= fdt.struct_size(),
        ensures
            final(walker).off as int <= fdt.struct_size(),
            (match r {
                Some(it) => it.node_off as int <= fdt.struct_size()
                    && it.depth == final(walker).depth - 1
                    && begins_node(fdt.sblock(), it.node_off as int),
                None => true,
            }),
    {
        proof {
            fdt.lemma_blocks();
        }
        let (start, end) = fdt.struct_bounds();
        if self.depth == usize::MAX {
            return None;
        }
        loop
            invariant
                fdt.wf(),
                walker.off as int <= fdt.struct_size(),
                self.depth < usize::MAX,
                fdt.sblock() == fdt.data().subrange(start as int, end as int),
                start <= end <= fdt.bytes_len(),
                end - start < 0x1_0000_0000_0000,
                start as int == fdt.struct_base(),
                end as int == fdt.struct_base() + fdt.struct_size(),
            decreases fdt.struct_size() - walker.off,
        {
            let here = walker.off;
            let step = parse_op(fdt.bytes(), start, end, walker.off);
            match step {
                Ok((Some(OpRaw::BeginNode { name: _ }), o2)) => {
                    if walker.depth == usize::MAX {
                        return None;
                    }
                    walker.off = o2;
                    walker.depth = walker.depth + 1;
                    if walker.depth - 1 == self.depth + 1 {
                        // A child of this node begins here.
                        return Some(Iter { node_off: here, depth: walker.depth - 1 });
                    }
                },
                Ok((Some(OpRaw::EndNode), o2)) => {
                    if walker.depth == 0 {
                        return None;
                    }
                    walker.off = o2;
                    walker.depth = walker.depth - 1;
                    if walker.depth <= self.depth {
                        // This node's own end: no more children.
                        return None;
                    }
                },
                Ok((Some(OpRaw::Prop { name_offset: _, value: _ }), o2)) => {
                    walker.off = o2;
                },
                _ => {
                    return None;
                },
            }
        }
    }
}

/// The bytes of the property name `compatible`.
pub open spec fn compatible_name() -> Seq<u8> {
    seq![0x63u8, 0x6fu8, 0x6du8, 0x70u8, 0x61u8, 0x74u8, 0x69u8, 0x62u8, 0x6cu8, 0x65u8]
}

/// The bytes of the property name `phandle`.
pub open spec fn phandle_name() -> Seq<u8> {
    seq![0x70u8, 0x68u8, 0x61u8, 0x6eu8, 0x64u8, 0x6cu8, 0x65u8]
}

/// The bytes of the property name `reg`.
pub open spec fn reg_name() -> Seq<u8> {
    seq![0x72u8, 0x65u8, 0x67u8]
}

/// The bytes of the property name `status`.
pub open spec fn status_name() -> Seq<u8> {
    seq![0x73u8, 0x74u8, 0x61u8, 0x74u8, 0x75u8, 0x73u8]
}

/// The bytes of the suffix `-cells`.
pub open spec fn cells_suffix() -> Seq<u8> {
    seq![0x2du8, 0x63u8, 0x65u8, 0x6cu8, 0x6cu8, 0x73u8]
}

/// Read the zero-terminated string at `noff` of the strings block.
fn read_cstr(fdt: &Fdt, noff: usize) -> (r: Vec<u8>)
    requires
        fdt.wf(),
    ensures
        r@ == cstr_at(fdt.strings(), noff as int),
{
    proof {
        fdt.lemma_blocks();
    }
    let (sstart, send) = fdt.strings_bounds();
    let data = fdt.bytes();
    let ghost strings = fdt.strings();
    proof {
        assert(data@.len() == data.len());
    }
    if noff > send - sstart {
        proof {
            assert(cstr_at(strings, noff as int) =~= Seq::<u8>::empty());
        }
        return Vec::new();
    }
    let mut out: Vec<u8> = Vec::new();
    let mut j: usize = noff;
    while j < send - sstart && data[sstart + j] != 0
        invariant
            fdt.wf(),
            strings == fdt.strings(),
            sstart <= send <= data@.len(),
            data@.len() <= usize::MAX,
            data@ == fdt.data(),
            strings == data@.subrange(sstart as int, send as int),
            noff <= j <= send - sstart,
            out@ == strings.subrange(noff as int, j as int),
            forall|k: int| noff <= k < j ==> strings[k] != 0,
        decreases send - sstart - j,
    {
        out.push(data[sstart + j]);
        proof {
            assert(strings.subrange(noff as int, j + 1) =~= strings.subrange(
                noff as int,
                j as int,
            ).push(strings[j as int]));
        }
        j = j + 1;
    }
    proof {
        crate::property::lemma_first_nul_at(strings.skip(noff as int), j - noff);
        assert(cstr_at(strings, noff as int) =~= strings.subrange(noff as int, j as int));
    }
    out
}

} // verus!
