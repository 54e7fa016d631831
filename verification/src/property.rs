//! Parsers for the basic devicetree property value types: strings and
//! string lists, big-endian cells, and `reg` ranges.

use vstd::prelude::*;

verus! {

/// A big-endian 32-bit value at `off`.
pub open spec fn be32(b: Seq<u8>, off: int) -> int {
    0x100_0000 * b[off] + 0x1_0000 * b[off + 1] + 0x100 * b[off + 2] + b[off + 3]
}

/// A big-endian unsigned integer over the whole of `b`, most significant
/// byte first; the empty sequence reads as zero.
pub open spec fn be_uint(b: Seq<u8>) -> int
    decreases b.len(),
{
    if b.len() == 0 {
        0
    } else {
        be_uint(b.drop_last()) * 0x100 + b.last()
    }
}

/// The index of the first zero byte, or the length if there is none.
pub open spec fn first_nul(b: Seq<u8>) -> int
    decreases b.len(),
{
    if b.len() == 0 {
        0
    } else if b[0] == 0 {
        0
    } else {
        1 + first_nul(b.skip(1))
    }
}

/// The zero-terminated pieces of `b`, each without its terminator.
pub open spec fn split_nul(b: Seq<u8>) -> Seq<Seq<u8>>
    decreases b.len(),
{
    if b.len() == 0 {
        Seq::empty()
    } else {
        let p = first_nul(b);
        if !(0 <= p < b.len()) {
            seq![b]
        } else {
            seq![b.take(p)] + split_nul(b.skip(p + 1))
        }
    }
}

/// Parse a basic value of type `<u32>`: exactly four big-endian bytes.
pub fn u32(data: &[u8]) -> (r: Option<u32>)
    ensures
        r is Some <==> data@.len() == 4,
        r is Some ==> r->0 == be32(data@, 0),
{
    if data.len() != 4 {
        return None;
    }
    let v: u32 = (data[0] as u32) * 0x100_0000 + (data[1] as u32) * 0x1_0000 + (data[2] as u32)
        * 0x100 + (data[3] as u32);
    Some(v)
}

/// Parse a big-endian unsigned integer of any byte length up to eight, as
/// used for properties that are either `<u32>` or `<u64>`.  A zero-length
/// value reads as zero.
pub fn unsigned(data: &[u8]) -> (r: Option<u64>)
    requires
        data@.len() <= 8,
    ensures
        r == Some(be_uint(data@) as u64),
        0 <= be_uint(data@) <= u64::MAX,
{
    let mut acc: u64 = 0;
    let mut i: usize = 0;
    proof {
        lemma_be_uint_bound(data@);
        assert(data@.take(0) =~= Seq::<u8>::empty());
    }
    while i < data.len()
        invariant
            i <= data@.len(),
            data@.len() <= 8,
            acc == be_uint(data@.take(i as int)),
        decreases data@.len() - i,
    {
        proof {
            lemma_be_uint_bound(data@.take(i as int));
            lemma_pow256p_le(i as int, 7);
            assert(pow256p(7) == 0x100_0000_0000_0000) by {
                reveal_with_fuel(pow256p, 9);
            };
            assert(data@.take(i + 1).drop_last() =~= data@.take(i as int));
            assert(data@.take(i + 1).last() == data@[i as int]);
        }
        acc = acc * 0x100 + (data[i] as u64);
        i = i + 1;
    }
    proof {
        assert(data@.take(data@.len() as int) =~= data@);
        lemma_be_uint_bound(data@);
        lemma_pow256p_le(data@.len() as int, 8);
        assert(pow256p(8) == 0x1_0000_0000_0000_0000) by {
            reveal_with_fuel(pow256p, 10);
        };
    }
    Some(acc)
}

/// A big-endian value of at most eight bytes fits a machine word.
proof fn lemma_be_uint_bound(b: Seq<u8>)
    requires
        b.len() <= 8,
    ensures
        0 <= be_uint(b) < pow256p(b.len() as int),
    decreases b.len(),
{
    if b.len() > 0 {
        lemma_be_uint_bound(b.drop_last());
    }
}

/// Between two multiples of `m` there is room for a whole stride.
proof fn lemma_mod_gap(i: int, len: int, m: int)
    requires
        0 < m,
        0 <= i < len,
        i % m == 0,
        len % m == 0,
    ensures
        i + m <= len,
{
    vstd::arithmetic::div_mod::lemma_fundamental_div_mod(i, m);
    vstd::arithmetic::div_mod::lemma_fundamental_div_mod(len, m);
    assert(i == m * (i / m) && len == m * (len / m));
    assert(i / m < len / m) by (nonlinear_arith)
        requires
            0 < m,
            i < len,
            i == m * (i / m),
            len == m * (len / m),
    ;
    assert(i + m <= len) by (nonlinear_arith)
        requires
            0 < m,
            i / m + 1 <= len / m,
            i == m * (i / m),
            len == m * (len / m),
    ;
}

/// Powers of 256 do not shrink as the exponent grows.
proof fn lemma_pow256p_le(a: int, b: int)
    requires
        a <= b,
    ensures
        pow256p(a) <= pow256p(b),
        1 <= pow256p(a),
    decreases b - a,
{
    if a < b {
        lemma_pow256p_le(a, b - 1);
    } else {
        lemma_pow256p_nonneg(a);
    }
}

proof fn lemma_pow256p_nonneg(a: int)
    ensures
        1 <= pow256p(a),
    decreases (if a > 0 { a } else { 0 }),
{
    if a > 0 {
        lemma_pow256p_nonneg(a - 1);
    }
}

/// `256^k`, for byte-count bounds.
pub open spec fn pow256p(k: int) -> int
    decreases k,
{
    if k <= 0 {
        1
    } else {
        256 * pow256p(k - 1)
    }
}

/// Parse a list of `<u32>` cells.
pub fn u32_list(data: &[u8]) -> (r: Option<Vec<u32>>)
    ensures
        r is Some <==> data@.len() % 4 == 0,
        r is Some ==> r->0@.len() == data@.len() / 4 && forall|i: int|
            0 <= i < r->0@.len() ==> r->0@[i] == be32(data@, 4 * i),
{
    if data.len() % 4 != 0 {
        return None;
    }
    let mut out: Vec<u32> = Vec::new();
    let mut i: usize = 0;
    while i < data.len()
        invariant
            data@.len() % 4 == 0,
            i % 4 == 0,
            i <= data@.len(),
            out@.len() == i as int / 4,
            forall|k: int| 0 <= k < out@.len() ==> out@[k] == be32(data@, 4 * k),
        decreases data@.len() - i,
    {
        proof {
            lemma_mod_gap(i as int, data@.len() as int, 4);
        }
        let v: u32 = (data[i] as u32) * 0x100_0000 + (data[i + 1] as u32) * 0x1_0000 + (data[i + 2]
            as u32) * 0x100 + (data[i + 3] as u32);
        out.push(v);
        proof {
            vstd::arithmetic::div_mod::lemma_fundamental_div_mod_converse(
                i + 4,
                4,
                (i as int) / 4 + 1,
                0,
            );
            vstd::arithmetic::div_mod::lemma_fundamental_div_mod(i as int, 4);
        }
        i = i + 4;
    }
    proof {
        vstd::arithmetic::div_mod::lemma_fundamental_div_mod(data@.len() as int, 4);
        vstd::arithmetic::div_mod::lemma_fundamental_div_mod(i as int, 4);
    }
    Some(out)
}

/// Split a `reg` property into raw address and size fields.
pub fn reg_list_raw(data: &[u8], address_cells: usize, size_cells: usize) -> (r: Option<
    Vec<(Vec<u8>, Vec<u8>)>,
>)
    requires
        0 < address_cells + size_cells <= 4,
    ensures
        r is Some <==> data@.len() as int % (4 * (address_cells + size_cells)) == 0,
        r is Some ==> {
            let stride = 4 * (address_cells + size_cells) as int;
            &&& r->0@.len() == data@.len() as int / stride
            &&& forall|i: int|
                0 <= i < r->0@.len() ==> (#[trigger] r->0@[i]).0@ == data@.subrange(
                    stride * i,
                    stride * i + 4 * address_cells,
                ) && r->0@[i].1@ == data@.subrange(
                    stride * i + 4 * address_cells,
                    stride * (i + 1),
                )
            &&& forall|i: int|
                0 <= i < r->0@.len() ==> (#[trigger] r->0@[i]).0@.len() == 4 * address_cells
                    && r->0@[i].1@.len() == 4 * size_cells
        },
{
    let stride: usize = 4 * (address_cells + size_cells);
    proof {
        assert(data@.len() == data.len());
    }
    if data.len() % stride != 0 {
        return None;
    }
    let mut out: Vec<(Vec<u8>, Vec<u8>)> = Vec::new();
    let mut i: usize = 0;
    proof {
        assert(0int == stride as int * 0int) by (nonlinear_arith);
    }
    while i < data.len()
        invariant
            stride == 4 * (address_cells + size_cells),
            0 < address_cells + size_cells <= 4,
            data@.len() as int % (stride as int) == 0,
            data@.len() <= usize::MAX,
            i <= data@.len(),
            i as int == stride as int * (out@.len() as int),
            forall|k: int|
                0 <= k < out@.len() ==> (#[trigger] out@[k]).0@ == data@.subrange(
                    stride as int * k,
                    stride as int * k + 4 * address_cells,
                ) && out@[k].1@ == data@.subrange(
                    stride as int * k + 4 * address_cells,
                    stride as int * (k + 1),
                ),
            forall|k: int|
                0 <= k < out@.len() ==> (#[trigger] out@[k]).0@.len() == 4 * address_cells
                    && out@[k].1@.len() == 4 * size_cells,
        decreases data@.len() - i,
    {
        let ghost n = out@.len() as int;
        proof {
            vstd::arithmetic::div_mod::lemma_fundamental_div_mod_converse(
                i as int,
                stride as int,
                n,
                0,
            );
            lemma_mod_gap(i as int, data@.len() as int, stride as int);
        }
        let mut addr: Vec<u8> = Vec::new();
        let mut j: usize = 0;
        while j < 4 * address_cells
            invariant
                i + stride <= data@.len(),
                data@.len() <= usize::MAX,
                stride == 4 * (address_cells + size_cells),
                0 < address_cells + size_cells <= 4,
                j <= 4 * address_cells,
                addr@ == data@.subrange(i as int, i + j),
            decreases 4 * address_cells - j,
        {
            addr.push(data[i + j]);
            proof {
                assert(data@.subrange(i as int, i + j + 1) =~= data@.subrange(i as int, i + j)
                    .push(data@[i + j]));
            }
            j = j + 1;
        }
        let mut size: Vec<u8> = Vec::new();
        let mut j: usize = 0;
        while j < 4 * size_cells
            invariant
                i + stride <= data@.len(),
                data@.len() <= usize::MAX,
                stride == 4 * (address_cells + size_cells),
                0 < address_cells + size_cells <= 4,
                j <= 4 * size_cells,
                size@ == data@.subrange(i + 4 * address_cells, i + 4 * address_cells + j),
            decreases 4 * size_cells - j,
        {
            size.push(data[i + 4 * address_cells + j]);
            proof {
                assert(data@.subrange(i + 4 * address_cells, i + 4 * address_cells + j + 1) =~= data@
                    .subrange(i + 4 * address_cells, i + 4 * address_cells + j).push(
                    data@[i + 4 * address_cells + j],
                ));
            }
            j = j + 1;
        }
        out.push((addr, size));
        proof {
            assert((i + stride) as int == stride as int * (n + 1)) by (nonlinear_arith)
                requires
                    i as int == stride as int * n,
            ;
            assert forall|k: int|
                0 <= k < out@.len() implies (#[trigger] out@[k]).0@ == data@.subrange(
                stride as int * k,
                stride as int * k + 4 * address_cells,
            ) && out@[k].1@ == data@.subrange(
                stride as int * k + 4 * address_cells,
                stride as int * (k + 1),
            ) by {
                if k == n {
                    assert(stride as int * k == i as int);
                    assert((out@[k]).0@ == data@.subrange(i as int, i + 4 * address_cells));
                    assert(stride as int * (k + 1) == i + stride);
                }
            };
        }
        i = i + stride;
    }
    proof {
        vstd::arithmetic::div_mod::lemma_fundamental_div_mod_converse(
            data@.len() as int,
            stride as int,
            out@.len() as int,
            0,
        );
    }
    Some(out)
}

/// Parse a simple address-based `reg` property as `(addr, size)` pairs.
/// Works for values of at most 64 bits, so the address must use one or two
/// cells and the size at most two; with zero size cells all sizes read zero.
pub fn reg_list(data: &[u8], address_cells: usize, size_cells: usize) -> (r: Option<
    Vec<(u64, u64)>,
>)
    requires
        1 <= address_cells <= 2,
        size_cells <= 2,
    ensures
        r is Some <==> data@.len() as int % (4 * (address_cells + size_cells)) == 0,
        r is Some ==> {
            let stride = 4 * (address_cells + size_cells) as int;
            &&& r->0@.len() == data@.len() as int / stride
            &&& forall|i: int|
                0 <= i < r->0@.len() ==> (#[trigger] r->0@[i]).0 == be_uint(
                    data@.subrange(stride * i, stride * i + 4 * address_cells),
                ) && r->0@[i].1 == be_uint(
                    data@.subrange(stride * i + 4 * address_cells, stride * (i + 1)),
                )
        },
{
    let raw = match reg_list_raw(data, address_cells, size_cells) {
        Some(v) => v,
        None => {
            return None;
        },
    };
    let mut out: Vec<(u64, u64)> = Vec::new();
    let mut i: usize = 0;
    while i < raw.len()
        invariant
            i <= raw@.len(),
            out@.len() == i,
            forall|k: int|
                0 <= k < raw@.len() ==> (#[trigger] raw@[k]).0@.len() == 4 * address_cells
                    && raw@[k].1@.len() == 4 * size_cells,
            address_cells <= 2,
            size_cells <= 2,
            forall|k: int|
                0 <= k < i ==> (#[trigger] out@[k]).0 == be_uint(raw@[k].0@) && out@[k].1
                    == be_uint(raw@[k].1@),
        decreases raw@.len() - i,
    {
        let a = match unsigned(raw[i].0.as_slice()) {
            Some(v) => v,
            None => {
                proof {
                    assert(false);
                }
                0
            },
        };
        let sz = match unsigned(raw[i].1.as_slice()) {
            Some(v) => v,
            None => {
                proof {
                    assert(false);
                }
                0
            },
        };
        out.push((a, sz));
        i = i + 1;
    }
    Some(out)
}

/// Parse a basic value of type `<string>`: one zero-terminated string with
/// no interior zero.
pub fn string(data: &[u8]) -> (r: Option<Vec<u8>>)
    ensures
        r is Some <==> data@.len() >= 1 && data@.last() == 0 && first_nul(data@) == data@.len()
            - 1,
        r is Some ==> r->0@ == data@.take(data@.len() - 1),
{
    if data.len() == 0 {
        return None;
    }
    let mut out: Vec<u8> = Vec::new();
    let mut i: usize = 0;
    while i < data.len() && data[i] != 0
        invariant
            i <= data@.len(),
            out@ == data@.take(i as int),
            forall|k: int| 0 <= k < i ==> data@[k] != 0,
        decreases data@.len() - i,
    {
        out.push(data[i]);
        proof {
            assert(data@.take(i + 1) =~= data@.take(i as int).push(data@[i as int]));
        }
        i = i + 1;
    }
    proof {
        lemma_first_nul_at(data@, i as int);
    }
    if i == data.len() {
        // Not terminated at all.
        return None;
    }
    if i + 1 != data.len() {
        // The terminator is not the last byte.
        return None;
    }
    Some(out)
}

/// `first_nul` is the first index holding zero.
pub proof fn lemma_first_nul_at(b: Seq<u8>, i: int)
    requires
        0 <= i <= b.len(),
        forall|k: int| 0 <= k < i ==> b[k] != 0,
        i < b.len() ==> b[i] == 0,
    ensures
        i < b.len() ==> first_nul(b) == i,
        i == b.len() ==> first_nul(b) >= b.len(),
    decreases i,
{
    if b.len() > 0 && i > 0 {
        lemma_first_nul_at(b.skip(1), i - 1);
    }
}


/// Parse a basic value of type `<stringlist>`: zero-terminated strings back
/// to back.  Valid when empty or ending with a terminator; the pieces come
/// back without their terminators.
pub fn string_list(data: &[u8]) -> (r: Option<Vec<Vec<u8>>>)
    ensures
        r is Some <==> data@.len() == 0 || data@.last() == 0,
        r is Some ==> r->0@.map_values(|p: Vec<u8>| p@) == split_nul(data@),
{
    proof {
        assert(data@.len() == data.len());
    }
    if data.len() > 0 && data[data.len() - 1] != 0 {
        return None;
    }
    let mut out: Vec<Vec<u8>> = Vec::new();
    let mut i: usize = 0;
    proof {
        assert(out@.map_values(|p: Vec<u8>| p@) =~= Seq::<Seq<u8>>::empty());
        assert(data@.skip(0) =~= data@);
    }
    while i < data.len()
        invariant
            i <= data@.len(),
            data@.len() <= usize::MAX,
            data@.len() == 0 || data@.last() == 0,
            split_nul(data@) == out@.map_values(|p: Vec<u8>| p@) + split_nul(data@.skip(i as int)),
        decreases data@.len() - i,
    {
        let mut piece: Vec<u8> = Vec::new();
        let mut j: usize = i;
        while j < data.len() && data[j] != 0
            invariant
                i <= j <= data@.len(),
                data@.len() <= usize::MAX,
                piece@ == data@.subrange(i as int, j as int),
                forall|k: int| i <= k < j ==> data@[k] != 0,
            decreases data@.len() - j,
        {
            piece.push(data[j]);
            proof {
                assert(data@.subrange(i as int, j + 1) =~= data@.subrange(i as int, j as int)
                    .push(data@[j as int]));
            }
            j = j + 1;
        }
        proof {
            lemma_first_nul_at(data@.skip(i as int), j - i);
            assert(j < data@.len()) by {
                if j == data@.len() {
                    assert(data@[j - 1] != 0);
                    assert(data@.last() == data@[j - 1]);
                }
            };
            assert(first_nul(data@.skip(i as int)) == j - i);
            assert(data@.skip(i as int).take(j - i) =~= data@.subrange(i as int, j as int));
            assert(data@.skip(i as int).skip(j - i + 1) =~= data@.skip(j + 1));
            assert(split_nul(data@.skip(i as int)) == seq![data@.subrange(i as int, j as int)]
                + split_nul(data@.skip(j + 1)));
        }
        out.push(piece);
        proof {
            assert(out@.map_values(|p: Vec<u8>| p@) =~= out@.take(out@.len() - 1).map_values(
                |p: Vec<u8>| p@,
            ).push(data@.subrange(i as int, j as int)));
            assert(out@.take(out@.len() - 1) =~= out@.drop_last());
        }
        i = j + 1;
    }
    proof {
        assert(split_nul(data@.skip(i as int)) =~= Seq::<Seq<u8>>::empty());
    }
    Some(out)
}


/// Value of the standard property `status`.
#[derive(Clone, Debug, PartialEq, Eq)]
pub enum Status {
    /// `okay`
    Okay,
    /// `disabled`
    Disabled,
    /// `reserved`
    Reserved,
    /// `fail` or `fail-` followed by a condition string
    Fail(Option<Vec<u8>>),
}

/// A valid `<string>` value: one terminator, at the end.
pub open spec fn status_str_ok(d: Seq<u8>) -> bool {
    d.len() >= 1 && d.last() == 0 && first_nul(d) == d.len() - 1
}

/// The string's bytes without the terminator.
pub open spec fn status_body(d: Seq<u8>) -> Seq<u8> {
    d.take(d.len() - 1)
}

/// How a parsed `status` value corresponds to its property bytes.
pub open spec fn status_matches(d: Seq<u8>, r: Option<Status>) -> bool {
    let ok = status_str_ok(d);
    let s = status_body(d);
    match r {
        Some(Status::Okay) => ok && s == okay_bytes(),
        Some(Status::Disabled) => ok && s == disabled_bytes(),
        Some(Status::Reserved) => ok && s == reserved_bytes(),
        Some(Status::Fail(None)) => ok && s == fail_bytes(),
        Some(Status::Fail(Some(reason))) => ok && s.len() >= 5 && s.take(5) == fail_dash_bytes()
            && reason@ == s.skip(5),
        None => !(ok && (s == okay_bytes() || s == disabled_bytes() || s == reserved_bytes() || s
            == fail_bytes() || (s.len() >= 5 && s.take(5) == fail_dash_bytes()))),
    }
}

impl Status {
    /// Parse the standard property `status`.
    pub fn from_bytes(data: &[u8]) -> (r: Option<Status>)
        ensures
            status_matches(data@, r),
    {
        let s = match string(data) {
            Some(v) => v,
            None => {
                return None;
            },
        };
        if bytes_eq(&s, &[0x6f, 0x6b, 0x61, 0x79]) {
            proof {
                assert([0x6fu8, 0x6bu8, 0x61u8, 0x79u8]@ =~= okay_bytes());
            }
            return Some(Status::Okay);
        }
        if bytes_eq(&s, &[0x64, 0x69, 0x73, 0x61, 0x62, 0x6c, 0x65, 0x64]) {
            proof {
                assert([0x64u8, 0x69u8, 0x73u8, 0x61u8, 0x62u8, 0x6cu8, 0x65u8, 0x64u8]@
                    =~= disabled_bytes());
            }
            return Some(Status::Disabled);
        }
        if bytes_eq(&s, &[0x72, 0x65, 0x73, 0x65, 0x72, 0x76, 0x65, 0x64]) {
            proof {
                assert([0x72u8, 0x65u8, 0x73u8, 0x65u8, 0x72u8, 0x76u8, 0x65u8, 0x64u8]@
                    =~= reserved_bytes());
            }
            return Some(Status::Reserved);
        }
        if bytes_eq(&s, &[0x66, 0x61, 0x69, 0x6c]) {
            proof {
                assert([0x66u8, 0x61u8, 0x69u8, 0x6cu8]@ =~= fail_bytes());
            }
            return Some(Status::Fail(None));
        }
        if s.len() >= 5 && s[0] == 0x66 && s[1] == 0x61 && s[2] == 0x69 && s[3] == 0x6c && s[4]
            == 0x2d {
            let mut reason: Vec<u8> = Vec::new();
            let mut i: usize = 5;
            proof {
                assert(s@.take(5) =~= fail_dash_bytes());
                assert(s@.subrange(5, 5) =~= Seq::<u8>::empty());
            }
            while i < s.len()
                invariant
                    5 <= i <= s@.len(),
                    reason@ == s@.subrange(5, i as int),
                decreases s@.len() - i,
            {
                reason.push(s[i]);
                proof {
                    assert(s@.subrange(5, i + 1) =~= s@.subrange(5, i as int).push(s@[i as int]));
                }
                i = i + 1;
            }
            proof {
                assert(reason@ =~= s@.skip(5));
            }
            return Some(Status::Fail(Some(reason)));
        }
        proof {
            if s@.len() >= 5 && s@.take(5) == fail_dash_bytes() {
                assert(s@[0] == 0x66 && s@[1] == 0x61 && s@[2] == 0x69 && s@[3] == 0x6c && s@[4]
                    == 0x2d) by {
                    assert(s@.take(5)[0] == s@[0]);
                    assert(s@.take(5)[1] == s@[1]);
                    assert(s@.take(5)[2] == s@[2]);
                    assert(s@.take(5)[3] == s@[3]);
                    assert(s@.take(5)[4] == s@[4]);
                };
            }
        }
        None
    }

    /// Whether the status is `okay`.
    pub fn is_okay(&self) -> (r: bool)
        ensures
            r == (self is Okay),
    {
        matches!(self, Status::Okay)
    }
}

/// The bytes of `okay`.
pub open spec fn okay_bytes() -> Seq<u8> {
    seq![0x6fu8, 0x6bu8, 0x61u8, 0x79u8]
}

/// The bytes of `disabled`.
pub open spec fn disabled_bytes() -> Seq<u8> {
    seq![0x64u8, 0x69u8, 0x73u8, 0x61u8, 0x62u8, 0x6cu8, 0x65u8, 0x64u8]
}

/// The bytes of `reserved`.
pub open spec fn reserved_bytes() -> Seq<u8> {
    seq![0x72u8, 0x65u8, 0x73u8, 0x65u8, 0x72u8, 0x76u8, 0x65u8, 0x64u8]
}

/// The bytes of `fail`.
pub open spec fn fail_bytes() -> Seq<u8> {
    seq![0x66u8, 0x61u8, 0x69u8, 0x6cu8]
}

/// The bytes of `fail-`.
pub open spec fn fail_dash_bytes() -> Seq<u8> {
    seq![0x66u8, 0x61u8, 0x69u8, 0x6cu8, 0x2du8]
}

/// Byte-wise equality of a vector and a slice.
pub(crate) fn bytes_eq(a: &Vec<u8>, b: &[u8]) -> (r: bool)
    ensures
        r == (a@ == b@),
{
    proof {
        assert(a@.len() == a.len());
        assert(b@.len() == b.len());
    }
    if a.len() != b.len() {
        return false;
    }
    let mut i: usize = 0;
    while i < a.len()
        invariant
            i <= a@.len(),
            a@.len() == b@.len(),
            forall|k: int| 0 <= k < i ==> a@[k] == b@[k],
        decreases a@.len() - i,
    {
        if a[i] != b[i] {
            return false;
        }
        i = i + 1;
    }
    proof {
        assert(a@ =~= b@);
    }
    true
}

} // verus!
