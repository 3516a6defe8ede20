//! Reading STL files, binary and ASCII, to a cloud of vertices.

use vstd::prelude::*;
use vstd::utf8::{decode_utf8, valid_utf8};

use crate::scalar::convert::widened;
use crate::scalar::decimal::parse_number;
#[allow(unused_imports)]
use crate::scalar::decimal::number_of;
use crate::scalar::{Scalar, Vec3};
use crate::text::{chars_of, is_text, split_words};
#[allow(unused_imports)]
use crate::text::{texts, words};

verus! {

/// The little-endian number in the four bytes at `o`.
pub open spec fn le32(b: Seq<u8>, o: int) -> int {
    b[o] + 0x100 * b[o + 1] + 0x1_0000 * b[o + 2] + 0x100_0000 * b[o + 3]
}

/// The size of a binary STL is fixed by its triangle count.
pub open spec fn is_binary(b: Seq<u8>) -> bool {
    b.len() >= 84 && b.len() == 84 + 50 * le32(b, 80)
}

/// The vertex in the twelve bytes at `o`.
pub open spec fn vertex_at(b: Seq<u8>, o: int) -> Vec3 {
    Vec3 {
        x: widened(le32(b, o) as u32),
        y: widened(le32(b, o + 4) as u32),
        z: widened(le32(b, o + 8) as u32),
    }
}

/// Where vertex `k` of a binary STL lies: records of 50 bytes, each a normal,
/// three vertices and two attribute bytes.
pub open spec fn vertex_offset(k: int) -> int {
    84 + 50 * (k / 3) + 12 + 12 * (k % 3)
}

/// The vertices of a binary STL.
pub open spec fn binary_vertices(b: Seq<u8>) -> Seq<Vec3> {
    Seq::new((3 * le32(b, 80)) as nat, |k: int| vertex_at(b, vertex_offset(k)))
}

pub open spec fn finite_vertex(v: Vec3) -> bool {
    v.x.finite() && v.y.finite() && v.z.finite()
}

/// Three numbers from token `i` on.
pub open spec fn token_vertex(t: Seq<Seq<char>>, i: int) -> Option<Vec3> {
    if i + 3 > t.len() {
        None
    } else {
        match (number_of(t[i]), number_of(t[i + 1]), number_of(t[i + 2])) {
            (Some(x), Some(y), Some(z)) => if x.finite() && y.finite() && z.finite() {
                Some(Vec3 { x, y, z })
            } else {
                None
            },
            _ => None,
        }
    }
}

/// The vertices of an ASCII STL from token `i` on: each token `vertex` is
/// followed by three finite numbers.
pub open spec fn ascii_vertices(t: Seq<Seq<char>>, i: int, acc: Seq<Vec3>) -> Option<Seq<Vec3>>
    decreases t.len() - i,
{
    if i < 0 || i >= t.len() {
        Some(acc)
    } else if t[i] == "vertex"@ {
        match token_vertex(t, i + 1) {
            Some(v) => ascii_vertices(t, i + 4, acc.push(v)),
            None => None,
        }
    } else {
        ascii_vertices(t, i + 1, acc)
    }
}

/// The vertices of an STL, in file order; `None` where it is malformed, holds a
/// number that is not finite, or holds no vertex.
pub open spec fn stl_vertices(b: Seq<u8>) -> Option<Seq<Vec3>> {
    let all = if is_binary(b) {
        let v = binary_vertices(b);
        if forall|k: int| 0 <= k < v.len() ==> finite_vertex(#[trigger] v[k]) {
            Some(v)
        } else {
            None
        }
    } else if valid_utf8(b) {
        ascii_vertices(words(decode_utf8(b)), 0, Seq::empty())
    } else {
        None
    };
    match all {
        Some(v) => if v.len() > 0 {
            Some(v)
        } else {
            None
        },
        None => None,
    }
}

/// Calls `std::str::from_utf8`: a byte slice that is valid UTF-8 comes back as
/// the text it encodes, any other gives nothing.
#[verifier::external_body]
fn utf8_text(bytes: &[u8]) -> (r: Option<&str>)
    ensures
        match r {
            Some(s) => valid_utf8(bytes@) && s@ == decode_utf8(bytes@),
            None => !valid_utf8(bytes@),
        },
{
    std::str::from_utf8(bytes).ok()
}

fn read_le32(b: &[u8], o: usize) -> (r: u32)
    requires
        o + 4 <= b@.len(),
    ensures
        r == le32(b@, o as int),
{
    (b[o] as u32) + 0x100 * (b[o + 1] as u32) + 0x1_0000 * (b[o + 2] as u32) + 0x100_0000 * (b[o
        + 3] as u32)
}

/// Whether the bytes are a binary STL.
pub fn looks_binary(bytes: &[u8]) -> (r: bool)
    ensures
        r == is_binary(bytes@),
{
    if bytes.len() < 84 {
        return false;
    }
    let n = read_le32(bytes, 80);
    let body: u64 = (n as u64) * 50;
    bytes.len() as u64 == 84 + body
}

fn parse_binary(bytes: &[u8]) -> (r: Option<Vec<Vec3>>)
    requires
        is_binary(bytes@),
    ensures
        match r {
            Some(v) => stl_vertices(bytes@) == Some(v@),
            None => stl_vertices(bytes@) is None,
        },
{
    let n = read_le32(bytes, 80) as usize;
    let total: usize = bytes.len();
    let ghost all = binary_vertices(bytes@);
    let mut out: Vec<Vec3> = Vec::new();
    let mut off: usize = 84;
    let mut i: usize = 0;
    while i < n
        invariant
            i <= n,
            n == le32(bytes@, 80),
            total == bytes@.len(),
            is_binary(bytes@),
            off == 84 + 50 * i,
            all == binary_vertices(bytes@),
            out@ == all.take(3 * i),
            forall|k: int| 0 <= k < 3 * i ==> finite_vertex(#[trigger] all[k]),
        decreases n - i,
    {
        let mut v: usize = 0;
        while v < 3
            invariant
                v <= 3,
                i < n,
                n == le32(bytes@, 80),
                total == bytes@.len(),
                is_binary(bytes@),
                off == 84 + 50 * i,
                all == binary_vertices(bytes@),
                out@ == all.take(3 * i + v),
                forall|k: int| 0 <= k < 3 * i + v ==> finite_vertex(#[trigger] all[k]),
            decreases 3 - v,
        {
            let base: usize = off + 12 + v * 12;
            let x = Scalar::from_f32_bits(read_le32(bytes, base));
            let y = Scalar::from_f32_bits(read_le32(bytes, base + 4));
            let z = Scalar::from_f32_bits(read_le32(bytes, base + 8));
            let ghost k = 3 * i + v;
            assert(k / 3 == i && k % 3 == v);
            let p = Vec3 { x, y, z };
            assert(all[k as int] == p);
            if !(x.is_finite() && y.is_finite() && z.is_finite()) {
                assert(!finite_vertex(all[k as int]));
                return None;
            }
            out.push(p);
            assert(all.take(k + 1) =~= all.take(k as int).push(p));
            v = v + 1;
        }
        off = off + 50;
        i = i + 1;
    }
    assert(all.take(all.len() as int) =~= all);
    if out.len() == 0 {
        return None;
    }
    Some(out)
}

/// Three numbers from token `i` on.
fn read_vertex(t: &Vec<Vec<char>>, i: usize) -> (r: Option<Vec3>)
    requires
        i <= t.len(),
    ensures
        r == token_vertex(texts(t@), i as int),
{
    if t.len() - i < 3 {
        return None;
    }
    let ghost s = texts(t@);
    assert(s[i as int] == t@[i as int]@ && s[i + 1] == t@[i + 1]@ && s[i + 2] == t@[i + 2]@);
    match (parse_number(&t[i]), parse_number(&t[i + 1]), parse_number(&t[i + 2])) {
        (Some(x), Some(y), Some(z)) => {
            if x.is_finite() && y.is_finite() && z.is_finite() {
                Some(Vec3 { x, y, z })
            } else {
                None
            }
        },
        _ => None,
    }
}

fn parse_ascii(bytes: &[u8]) -> (r: Option<Vec<Vec3>>)
    requires
        !is_binary(bytes@),
    ensures
        match r {
            Some(v) => stl_vertices(bytes@) == Some(v@),
            None => stl_vertices(bytes@) is None,
        },
{
    let text = match utf8_text(bytes) {
        Some(t) => t,
        None => {
            return None;
        },
    };
    let c = chars_of(text);
    let t = split_words(&c);
    let ghost s = texts(t@);
    let mut out: Vec<Vec3> = Vec::new();
    let mut i: usize = 0;
    while i < t.len()
        invariant
            i <= t.len(),
            s == texts(t@),
            s == words(decode_utf8(bytes@)),
            valid_utf8(bytes@),
            !is_binary(bytes@),
            s.len() == t.len(),
            ascii_vertices(s, 0, Seq::empty()) == ascii_vertices(s, i as int, out@),
        decreases t.len() - i,
    {
        assert(s[i as int] == t@[i as int]@);
        if is_text(&t[i], "vertex") {
            match read_vertex(&t, i + 1) {
                Some(v) => {
                    out.push(v);
                    i = i + 4;
                },
                None => {
                    return None;
                },
            }
        } else {
            i = i + 1;
        }
    }
    if out.len() == 0 {
        return None;
    }
    Some(out)
}

/// The vertices of an STL.
pub fn parse_stl(bytes: &[u8]) -> (r: Option<Vec<Vec3>>)
    ensures
        match r {
            Some(v) => stl_vertices(bytes@) == Some(v@),
            None => stl_vertices(bytes@) is None,
        },
{
    if looks_binary(bytes) {
        parse_binary(bytes)
    } else {
        parse_ascii(bytes)
    }
}

/// A binary STL of the right size and with finite coordinates is never refused:
/// all of its vertices come out, three for each triangle.
pub proof fn law_binary_stl_reads_all(b: Seq<u8>)
    requires
        is_binary(b),
        le32(b, 80) > 0,
        forall|k: int|
            0 <= k < binary_vertices(b).len() ==> finite_vertex(#[trigger] binary_vertices(b)[k]),
    ensures
        stl_vertices(b) is Some,
        stl_vertices(b).unwrap().len() == 3 * le32(b, 80),
{
}

/// Whatever is read is finite.
pub proof fn law_stl_vertices_finite(b: Seq<u8>)
    ensures
        match stl_vertices(b) {
            Some(v) => v.len() > 0 && forall|k: int|
                0 <= k < v.len() ==> finite_vertex(#[trigger] v[k]),
            None => true,
        },
{
    if !is_binary(b) && valid_utf8(b) {
        lemma_ascii_finite(words(decode_utf8(b)), 0, Seq::empty());
    }
}

proof fn lemma_ascii_finite(t: Seq<Seq<char>>, i: int, acc: Seq<Vec3>)
    requires
        forall|k: int| 0 <= k < acc.len() ==> finite_vertex(#[trigger] acc[k]),
    ensures
        match ascii_vertices(t, i, acc) {
            Some(v) => forall|k: int| 0 <= k < v.len() ==> finite_vertex(#[trigger] v[k]),
            None => true,
        },
    decreases t.len() - i,
{
    if 0 <= i < t.len() {
        if t[i] == "vertex"@ {
            match token_vertex(t, i + 1) {
                Some(v) => {
                    lemma_ascii_finite(t, i + 4, acc.push(v));
                },
                None => {},
            }
        } else {
            lemma_ascii_finite(t, i + 1, acc);
        }
    }
}

} // verus!
