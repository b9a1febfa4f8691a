//! The device-side layout of a tree, a ray batch, and a hit record.
//!
//! The GPU traversal kernel reads flat `vec4` words: three per node
//! (`[min.xyz | child_a]`, `[max.xyz | child_b]`, `[prim_count | 0 | 0 | 0]`),
//! two per ray (`[origin.xyz | 0]`, `[dir.xyz | 0]`), and writes two per hit
//! (`[toi | leaf | found | _]`, `[normal.xyz | _]`). Scalars travel as their
//! bit patterns; index fields are stored as the raw bits of their slot.
use crate::tree::Node;
use vstd::prelude::*;

verus! {

/// A copy of `v` that is never empty: one `fill` element when `v` is empty
/// (buffer creation rejects zero-size).
pub fn pad_or<T: Copy>(v: &[T], fill: T) -> (r: Vec<T>)
    ensures
        r@ == if v@.len() == 0 {
            seq![fill]
        } else {
            v@
        },
{
    let mut out: Vec<T> = Vec::new();
    if v.len() == 0 {
        out.push(fill);
        return out;
    }
    let mut i: usize = 0;
    while i < v.len()
        invariant
            0 <= i <= v@.len(),
            out@ == v@.subrange(0, i as int),
        decreases v@.len() - i,
    {
        out.push(v[i]);
        i = i + 1;
        proof {
            assert(out@ =~= v@.subrange(0, i as int));
        }
    }
    proof {
        assert(out@ =~= v@);
    }
    out
}

/// A never-empty `u32` copy.
pub fn pad_u32(v: &[u32]) -> (r: Vec<u32>)
    ensures
        r@ == if v@.len() == 0 {
            seq![0u32]
        } else {
            v@
        },
{
    pad_or(v, 0u32)
}

/// One decoded GPU hit record, as bit patterns.
#[derive(Clone, Copy, Debug)]
pub struct GpuHitBits {
    /// The leaf index within the provider.
    pub leaf: u32,
    /// The bit pattern of the time of impact.
    pub toi: u32,
    /// The bit patterns of the surface normal.
    pub normal: [u32; 3],
}

/// Hit record `i` of `words` decodes to `r`: `None` when its found flag is
/// zero, else its leaf, distance bits and normal bits.
pub open spec fn hit_record(words: Seq<u32>, i: int, r: Option<GpuHitBits>) -> bool {
    let base = 8 * i;
    if words[base + 2] == 0 {
        r is None
    } else {
        r matches Some(h) && h.toi == words[base] && h.leaf == words[base + 1] && h.normal@
            == words.subrange(base + 4, base + 7)
    }
}

/// Hit record `i` of a read-back buffer: `None` when the ray found nothing.
pub fn decode_hit(words: &[u32], i: usize) -> (r: Option<GpuHitBits>)
    requires
        i * 8 + 7 <= words@.len(),
    ensures
        hit_record(words@, i as int, r),
{
    let len = words.len();
    assert(i * 8 + 7 <= len);
    let base = i * 8;
    let found = words[base + 2];
    if found == 0 {
        return None;
    }
    let normal = [words[base + 4], words[base + 5], words[base + 6]];
    proof {
        assert(normal@ =~= words@.subrange(base + 4, base + 7));
    }
    Some(GpuHitBits { leaf: words[base + 1], toi: words[base], normal })
}

/// The first `count` hit records of a read-back buffer, one per ray, in ray
/// order.
pub fn decode_batch(words: &[u32], count: usize) -> (r: Vec<Option<GpuHitBits>>)
    requires
        count * 8 <= words@.len(),
    ensures
        r@.len() == count,
        forall|i: int| 0 <= i < count ==> hit_record(words@, i, #[trigger] r@[i]),
{
    let mut out: Vec<Option<GpuHitBits>> = Vec::new();
    let mut i: usize = 0;
    while i < count
        invariant
            0 <= i <= count,
            count * 8 <= words@.len(),
            out@.len() == i,
            forall|j: int| 0 <= j < i ==> hit_record(words@, j, #[trigger] out@[j]),
        decreases count - i,
    {
        let h = decode_hit(words, i);
        out.push(h);
        i = i + 1;
    }
    out
}

/// The answer to a batch of `ray_count` rays that needs no device work: an
/// empty batch has no results, and against an empty tree (`node_count == 0`)
/// every ray misses. `None` means the batch has to be dispatched.
pub fn batch_without_dispatch(ray_count: usize, node_count: usize) -> (r: Option<
    Vec<Option<GpuHitBits>>,
>)
    ensures
        (r is Some) == (ray_count == 0 || node_count == 0),
        r matches Some(v) ==> v@.len() == ray_count && forall|i: int|
            0 <= i < ray_count ==> (#[trigger] v@[i]) is None,
{
    if ray_count > 0 && node_count > 0 {
        return None;
    }
    let mut out: Vec<Option<GpuHitBits>> = Vec::new();
    let mut i: usize = 0;
    while i < ray_count
        invariant
            0 <= i <= ray_count,
            out@.len() == i,
            forall|j: int| 0 <= j < i ==> (#[trigger] out@[j]) is None,
        decreases ray_count - i,
    {
        out.push(None);
        i = i + 1;
    }
    Some(out)
}

/// Node `k`'s twelve words are in place at `12 * k`, given the bit patterns
/// `lo` and `hi` of its bounds' corners.
pub open spec fn node_words_at<B>(out: Seq<u32>, k: int, nd: Node<B>, lo: [u32; 3], hi: [u32; 3]) -> bool {
    let o = 12 * k;
    &&& out.subrange(o, o + 3) == lo@
    &&& out[o + 3] == nd.child_a
    &&& out.subrange(o + 4, o + 7) == hi@
    &&& out[o + 7] == nd.child_b
    &&& out[o + 8] == nd.prim_count
    &&& out[o + 9] == 0 && out[o + 10] == 0 && out[o + 11] == 0
}

/// The corner bit patterns `corners` gives for bounds `b`.
pub open spec fn corner_bits<B, C: Fn(B) -> ([u32; 3], [u32; 3])>(corners: C, b: B) -> ([u32; 3], [u32; 3]) {
    choose|c: ([u32; 3], [u32; 3])| corners.ensures((b,), c)
}

/// A corner rule callable on all bounds that answers each bound one way only.
pub open spec fn corners_ok<B, C: Fn(B) -> ([u32; 3], [u32; 3])>(corners: C) -> bool {
    &&& forall|b: B| #[trigger] corners.requires((b,))
    &&& forall|b: B, c1: ([u32; 3], [u32; 3]), c2: ([u32; 3], [u32; 3])|
        #[trigger] corners.ensures((b,), c1) && #[trigger] corners.ensures((b,), c2) ==> c1 == c2
}

/// Packs the tree's nodes into three `vec4` words each; `corners(bounds)`
/// gives the bit patterns of a node's min and max corners. Always at least one
/// node's worth of words, so the buffer is never empty.
pub fn pack_nodes<B: Copy, C: Fn(B) -> ([u32; 3], [u32; 3])>(nodes: &Vec<Node<B>>, corners: &C) -> (r: Vec<u32>)
    requires
        corners_ok(*corners),
        nodes@.len() * 12 <= usize::MAX,
    ensures
        nodes@.len() == 0 ==> r@ == Seq::new(12, |i: int| 0u32),
        nodes@.len() > 0 ==> r@.len() == 12 * nodes@.len(),
        nodes@.len() > 0 ==> forall|k: int|
            0 <= k < nodes@.len() ==> node_words_at(
                r@,
                k,
                #[trigger] nodes@[k],
                corner_bits(*corners, nodes@[k].bounds).0,
                corner_bits(*corners, nodes@[k].bounds).1,
            ),
{
    let mut out: Vec<u32> = Vec::new();
    if nodes.len() == 0 {
        let mut i: usize = 0;
        while i < 12
            invariant
                0 <= i <= 12,
                out@ == Seq::new(i as nat, |j: int| 0u32),
            decreases 12 - i,
        {
            out.push(0);
            i = i + 1;
            proof {
                assert(out@ =~= Seq::new(i as nat, |j: int| 0u32));
            }
        }
        return out;
    }
    let mut k: usize = 0;
    while k < nodes.len()
        invariant
            0 <= k <= nodes@.len(),
            nodes@.len() * 12 <= usize::MAX,
            corners_ok(*corners),
            out@.len() == 12 * k,
            forall|j: int|
                0 <= j < k ==> node_words_at(
                    out@,
                    j,
                    #[trigger] nodes@[j],
                    corner_bits(*corners, nodes@[j].bounds).0,
                    corner_bits(*corners, nodes@[j].bounds).1,
                ),
        decreases nodes@.len() - k,
    {
        let n = nodes[k];
        let (lo, hi) = corners(n.bounds);
        proof {
            let c = corner_bits(*corners, n.bounds);
            assert(corners.ensures((n.bounds,), (lo, hi)));
            assert(c == (lo, hi));
        }
        let ghost before = out@;
        out.push(lo[0]);
        out.push(lo[1]);
        out.push(lo[2]);
        out.push(n.child_a);
        out.push(hi[0]);
        out.push(hi[1]);
        out.push(hi[2]);
        out.push(n.child_b);
        out.push(n.prim_count);
        out.push(0);
        out.push(0);
        out.push(0);
        proof {
            assert forall|j: int|
                0 <= j < k + 1 implies node_words_at(
                out@,
                j,
                #[trigger] nodes@[j],
                corner_bits(*corners, nodes@[j].bounds).0,
                corner_bits(*corners, nodes@[j].bounds).1,
            ) by {
                if j < k {
                    assert(node_words_at(
                        before,
                        j,
                        nodes@[j],
                        corner_bits(*corners, nodes@[j].bounds).0,
                        corner_bits(*corners, nodes@[j].bounds).1,
                    ));
                    assert(out@.subrange(12 * j, 12 * j + 3) =~= before.subrange(12 * j, 12 * j + 3));
                    assert(out@.subrange(12 * j + 4, 12 * j + 7) =~= before.subrange(12 * j + 4, 12 * j + 7));
                } else {
                    assert(out@.subrange(12 * j, 12 * j + 3) =~= lo@);
                    assert(out@.subrange(12 * j + 4, 12 * j + 7) =~= hi@);
                }
            }
        }
        k = k + 1;
    }
    out
}

/// The two `vec4` words of one ray: `[origin.xyz | 0]`, `[dir.xyz | 0]`.
pub open spec fn ray_words(r: [u32; 6]) -> Seq<u32> {
    seq![r[0], r[1], r[2], 0u32, r[3], r[4], r[5], 0u32]
}

/// Packs rays, each given as the bit patterns `[origin.xyz, dir.xyz]`, into
/// two `vec4` words each.
pub fn pack_rays(rays: &Vec<[u32; 6]>) -> (r: Vec<u32>)
    requires
        rays@.len() * 8 <= usize::MAX,
    ensures
        r@.len() == 8 * rays@.len(),
        forall|k: int| 0 <= k < rays@.len() ==> r@.subrange(8 * k, 8 * k + 8) == ray_words(#[trigger] rays@[k]),
{
    let mut out: Vec<u32> = Vec::new();
    let mut k: usize = 0;
    while k < rays.len()
        invariant
            0 <= k <= rays@.len(),
            rays@.len() * 8 <= usize::MAX,
            out@.len() == 8 * k,
            forall|j: int| 0 <= j < k ==> out@.subrange(8 * j, 8 * j + 8) == ray_words(#[trigger] rays@[j]),
        decreases rays@.len() - k,
    {
        let r = rays[k];
        let ghost before = out@;
        out.push(r[0]);
        out.push(r[1]);
        out.push(r[2]);
        out.push(0);
        out.push(r[3]);
        out.push(r[4]);
        out.push(r[5]);
        out.push(0);
        proof {
            assert forall|j: int| 0 <= j < k + 1 implies out@.subrange(8 * j, 8 * j + 8) == ray_words(
                #[trigger] rays@[j],
            ) by {
                if j < k {
                    assert(out@.subrange(8 * j, 8 * j + 8) =~= before.subrange(8 * j, 8 * j + 8));
                } else {
                    assert(out@.subrange(8 * j, 8 * j + 8) =~= ray_words(r));
                }
            }
        }
        k = k + 1;
    }
    out
}

/// The words `pack_nodes` lays out for `nodes`.
pub open spec fn nodes_packed<B, C: Fn(B) -> ([u32; 3], [u32; 3])>(nodes: Seq<Node<B>>, corners: C, w: Seq<u32>) -> bool {
    &&& nodes.len() == 0 ==> w == Seq::new(12, |i: int| 0u32)
    &&& nodes.len() > 0 ==> w.len() == 12 * nodes.len()
    &&& nodes.len() > 0 ==> forall|k: int|
        0 <= k < nodes.len() ==> node_words_at(
            w,
            k,
            #[trigger] nodes[k],
            corner_bits(corners, nodes[k].bounds).0,
            corner_bits(corners, nodes[k].bounds).1,
        )
}

/// The words `pack_rays` lays out for `rays`.
pub open spec fn rays_packed(rays: Seq<[u32; 6]>, w: Seq<u32>) -> bool {
    &&& w.len() == 8 * rays.len()
    &&& forall|k: int| 0 <= k < rays.len() ==> w.subrange(8 * k, 8 * k + 8) == ray_words(#[trigger] rays[k])
}

/// The four bytes of `w`, least significant first when `little`, else most
/// significant first.
pub open spec fn word_bytes(w: u32, little: bool) -> Seq<u8> {
    let b0 = (w & 0xff) as u8;
    let b1 = ((w >> 8u32) & 0xff) as u8;
    let b2 = ((w >> 16u32) & 0xff) as u8;
    let b3 = ((w >> 24u32) & 0xff) as u8;
    if little {
        seq![b0, b1, b2, b3]
    } else {
        seq![b3, b2, b1, b0]
    }
}

/// `bytes` holds `words`, four bytes each, all in one byte order.
pub open spec fn holds_words(bytes: Seq<u8>, words: Seq<u32>, little: bool) -> bool {
    &&& bytes.len() == 4 * words.len()
    &&& forall|i: int|
        0 <= i < words.len() ==> #[trigger] bytes.subrange(4 * i, 4 * i + 4) == word_bytes(words[i], little)
}

/// The memory representation of `words`, as a device buffer receives it.
///
/// Trusted: this calls `bytemuck::cast_slice` from `u32` to `u8`, which
/// reinterprets the words in place, and copies the bytes out. The contract
/// claims what that documentation and the layout of `u32` give: four bytes per
/// word, in the machine's byte order, which is little- or big-endian. Which of
/// the two is not stated.
#[verifier::external_body]
fn bytes_of_words(words: &[u32]) -> (r: Vec<u8>)
    ensures
        exists|little: bool| holds_words(r@, words@, little),
{
    bytemuck::cast_slice::<u32, u8>(words).to_vec()
}

/// The words a byte buffer holds, four bytes each.
///
/// Trusted: this calls `bytemuck::pod_collect_to_vec` from `u8` to `u32`,
/// which copies the bytes into a new vector of words, whatever their
/// alignment, and does not panic. The contract claims, for a whole number of
/// words, what that documentation and the layout of `u32` give: one word per
/// four bytes, every word in the machine's one byte order, which is little- or
/// big-endian. Which of the two is not stated.
#[verifier::external_body]
fn words_of_bytes(bytes: &[u8]) -> (w: Vec<u32>)
    requires
        bytes@.len() % 4 == 0,
    ensures
        exists|little: bool| holds_words(bytes@, w@, little),
{
    bytemuck::pod_collect_to_vec::<u8, u32>(bytes)
}

/// The node buffer of a tree: the words [`pack_nodes`] lays out, as bytes.
pub fn node_buffer<B: Copy, C: Fn(B) -> ([u32; 3], [u32; 3])>(nodes: &Vec<Node<B>>, corners: &C) -> (r: Vec<u8>)
    requires
        corners_ok(*corners),
        nodes@.len() * 12 <= usize::MAX,
    ensures
        exists|w: Seq<u32>, little: bool| holds_words(r@, w, little) && nodes_packed(nodes@, *corners, w),
{
    let words = pack_nodes(nodes, corners);
    let r = bytes_of_words(words.as_slice());
    proof {
        let little = choose|little: bool| holds_words(r@, words@, little);
        assert(nodes_packed(nodes@, *corners, words@));
        assert(holds_words(r@, words@, little) && nodes_packed(nodes@, *corners, words@));
    }
    r
}

/// `s`, or a single zero when `s` is empty.
pub open spec fn padded(s: Seq<u32>) -> Seq<u32> {
    if s.len() == 0 {
        seq![0u32]
    } else {
        s
    }
}

/// The leaf-index buffer: the index order, padded so it is never empty, as
/// bytes.
pub fn index_buffer(indices: &[u32]) -> (r: Vec<u8>)
    ensures
        exists|little: bool| #[trigger] holds_words(r@, padded(indices@), little),
{
    let words = pad_u32(indices);
    let r = bytes_of_words(words.as_slice());
    proof {
        assert(words@ == padded(indices@));
    }
    r
}

/// The ray buffer: the words [`pack_rays`] lays out, as bytes.
pub fn ray_buffer(rays: &Vec<[u32; 6]>) -> (r: Vec<u8>)
    requires
        rays@.len() * 8 <= usize::MAX,
    ensures
        exists|w: Seq<u32>, little: bool| holds_words(r@, w, little) && rays_packed(rays@, w),
{
    let words = pack_rays(rays);
    let r = bytes_of_words(words.as_slice());
    proof {
        let little = choose|little: bool| holds_words(r@, words@, little);
        assert(rays_packed(rays@, words@));
        assert(holds_words(r@, words@, little) && rays_packed(rays@, words@));
    }
    r
}

/// The words of the parameter block: `[max_toi | ray_count | prim_stride | 0]`.
pub open spec fn param_words(max_toi: u32, ray_count: u32, prim_stride: u32) -> Seq<u32> {
    seq![max_toi, ray_count, prim_stride, 0u32]
}

/// The parameter block, as bytes.
pub fn params_buffer(max_toi: u32, ray_count: u32, prim_stride: u32) -> (r: Vec<u8>)
    ensures
        exists|little: bool| #[trigger] holds_words(r@, param_words(max_toi, ray_count, prim_stride), little),
{
    let words: [u32; 4] = [max_toi, ray_count, prim_stride, 0];
    let r = bytes_of_words(&words);
    proof {
        assert(words@ =~= param_words(max_toi, ray_count, prim_stride));
    }
    r
}

/// The first `count` hit records of a read-back byte buffer, one per ray,
/// its words all read in the machine's one byte order: `None` when the buffer
/// is not a whole number of words or holds fewer than `count` records.
pub fn decode_readback(bytes: &[u8], count: usize) -> (r: Option<Vec<Option<GpuHitBits>>>)
    ensures
        (r is Some) == (bytes@.len() % 4 == 0 && 32 * count <= bytes@.len()),
        r matches Some(v) ==> v@.len() == count && exists|w: Seq<u32>, little: bool|
            holds_words(bytes@, w, little) && 8 * count <= w.len() && forall|i: int|
                0 <= i < count ==> hit_record(w, i, #[trigger] v@[i]),
{
    if bytes.len() % 4 != 0 || bytes.len() / 32 < count {
        return None;
    }
    assert(32 * count <= bytes@.len());
    let w = words_of_bytes(bytes);
    let ghost little = choose|little: bool| holds_words(bytes@, w@, little);
    assert(8 * count <= w@.len());
    let v = decode_batch(w.as_slice(), count);
    proof {
        assert(holds_words(bytes@, w@, little) && 8 * count <= w@.len() && forall|i: int|
            0 <= i < count ==> hit_record(w@, i, #[trigger] v@[i]));
    }
    Some(v)
}

/// The eight words the traversal kernel writes for one ray, two `vec4`s:
/// `[toi, leaf, found, 0]` then `[nx, ny, nz, 0]`. `found` is 1 when the ray
/// hit something and 0 when it did not.
pub open spec fn kernel_hit_words(toi: u32, leaf: u32, found: u32, normal: [u32; 3]) -> Seq<u32> {
    seq![toi, leaf, found, 0u32, normal[0], normal[1], normal[2], 0u32]
}

/// Reading back what the kernel wrote: a record whose found word is zero is a
/// miss, whatever its leaf; any other record is a hit on the leaf, at the
/// distance and with the normal the kernel wrote, leaf 0 included.
pub proof fn lemma_decode_reads_kernel_record(
    words: Seq<u32>,
    i: int,
    toi: u32,
    leaf: u32,
    found: u32,
    normal: [u32; 3],
    r: Option<GpuHitBits>,
)
    requires
        0 <= i,
        8 * i + 8 <= words.len(),
        words.subrange(8 * i, 8 * i + 8) == kernel_hit_words(toi, leaf, found, normal),
        hit_record(words, i, r),
    ensures
        found == 0 ==> r is None,
        found != 0 ==> (r matches Some(h) && h.leaf == leaf && h.toi == toi && h.normal@ == normal@),
{
    let rec = words.subrange(8 * i, 8 * i + 8);
    assert(words[8 * i] == rec[0]);
    assert(words[8 * i + 1] == rec[1]);
    assert(words[8 * i + 2] == rec[2]);
    assert(words.subrange(8 * i + 4, 8 * i + 7) =~= normal@);
}

/// Component `c` of `vec4` number `v` of a word buffer, as the kernel indexes
/// it (`buf[v].x` is `c == 0`, `.w` is `c == 3`).
pub open spec fn vec4_word(w: Seq<u32>, v: int, c: int) -> u32 {
    w[4 * v + c]
}

/// What the kernel reads of node `k` from a packed node buffer: three `vec4`s
/// at `3 * k`, `[min.xyz | child_a]`, `[max.xyz | child_b]`,
/// `[prim_count | _ | _ | _]`. Every node, leaf or interior, reads back its own
/// first child (a leaf's first primitive position), second child and
/// primitive count, and its bounds' corner patterns.
pub proof fn lemma_packed_nodes_read_back<B, C: Fn(B) -> ([u32; 3], [u32; 3])>(
    nodes: Seq<Node<B>>,
    corners: C,
    w: Seq<u32>,
    k: int,
)
    requires
        nodes_packed(nodes, corners, w),
        0 <= k < nodes.len(),
    ensures
        vec4_word(w, 3 * k, 3) == nodes[k].child_a,
        vec4_word(w, 3 * k + 1, 3) == nodes[k].child_b,
        vec4_word(w, 3 * k + 2, 0) == nodes[k].prim_count,
        forall|c: int|
            0 <= c < 3 ==> vec4_word(w, 3 * k, c) == corner_bits(corners, nodes[k].bounds).0[c]
                && vec4_word(w, 3 * k + 1, c) == corner_bits(corners, nodes[k].bounds).1[c],
{
    let lo = corner_bits(corners, nodes[k].bounds).0;
    let hi = corner_bits(corners, nodes[k].bounds).1;
    assert(node_words_at(w, k, nodes[k], lo, hi));
    assert forall|c: int| 0 <= c < 3 implies vec4_word(w, 3 * k, c) == lo[c] && vec4_word(w, 3 * k + 1, c)
        == hi[c] by {
        assert(w.subrange(12 * k, 12 * k + 3)[c] == lo@[c]);
        assert(w.subrange(12 * k + 4, 12 * k + 7)[c] == hi@[c]);
    }
}

/// What the kernel reads of ray `k` from a packed ray buffer: two `vec4`s at
/// `2 * k`, the origin's patterns in the first and the direction's in the
/// second, each with a zero fourth word.
pub proof fn lemma_packed_rays_read_back(rays: Seq<[u32; 6]>, w: Seq<u32>, k: int)
    requires
        rays_packed(rays, w),
        0 <= k < rays.len(),
    ensures
        forall|c: int|
            0 <= c < 3 ==> #[trigger] vec4_word(w, 2 * k, c) == rays[k][c] && vec4_word(w, 2 * k + 1, c)
                == rays[k][3 + c],
        vec4_word(w, 2 * k, 3) == 0 && vec4_word(w, 2 * k + 1, 3) == 0,
{
    let rec = w.subrange(8 * k, 8 * k + 8);
    assert(rec == ray_words(rays[k]));
    assert forall|c: int| 0 <= c < 3 implies #[trigger] vec4_word(w, 2 * k, c) == rays[k][c] && vec4_word(
        w,
        2 * k + 1,
        c,
    ) == rays[k][3 + c] by {
        assert(rec[c] == w[8 * k + c]);
        assert(rec[4 + c] == w[8 * k + 4 + c]);
    }
    assert(rec[3] == w[8 * k + 3]);
    assert(rec[7] == w[8 * k + 7]);
}

/// The parameter block is the kernel's `Params` struct: `max_toi`, then the
/// ray count, then the primitive stride, then one word of padding.
pub proof fn lemma_params_read_back(max_toi: u32, ray_count: u32, prim_stride: u32)
    ensures
        param_words(max_toi, ray_count, prim_stride).len() == 4,
        vec4_word(param_words(max_toi, ray_count, prim_stride), 0, 0) == max_toi,
        vec4_word(param_words(max_toi, ray_count, prim_stride), 0, 1) == ray_count,
        vec4_word(param_words(max_toi, ray_count, prim_stride), 0, 2) == prim_stride,
{
}

/// The index buffer's words are the index order itself, position for
/// position, and there is at least one.
pub proof fn lemma_padded_keeps_indices(s: Seq<u32>)
    ensures
        padded(s).len() >= 1,
        padded(s).len() == if s.len() == 0 { 1 } else { s.len() },
        forall|q: int| 0 <= q < s.len() ==> padded(s)[q] == s[q],
{
}

/// The four bytes of a word are its base-256 digits: least significant first
/// in little-endian order, most significant first in big-endian order.
pub proof fn lemma_word_bytes_are_digits(w: u32)
    ensures
        word_bytes(w, true).len() == 4 && word_bytes(w, false).len() == 4,
        word_bytes(w, true)[0] + 256 * word_bytes(w, true)[1] + 65536 * word_bytes(w, true)[2] + 16777216
            * word_bytes(w, true)[3] == w,
        forall|j: int| 0 <= j < 4 ==> word_bytes(w, false)[j] == word_bytes(w, true)[3 - j],
{
    let b0 = (w & 0xff) as u8;
    let b1 = ((w >> 8u32) & 0xff) as u8;
    let b2 = ((w >> 16u32) & 0xff) as u8;
    let b3 = ((w >> 24u32) & 0xff) as u8;
    assert(b0 + 256 * b1 + 65536 * b2 + 16777216 * b3 == w) by (bit_vector)
        requires
            b0 == (w & 0xff) as u8,
            b1 == ((w >> 8u32) & 0xff) as u8,
            b2 == ((w >> 16u32) & 0xff) as u8,
            b3 == ((w >> 24u32) & 0xff) as u8,
    ;
    assert(word_bytes(w, true) == seq![b0, b1, b2, b3]);
    assert(word_bytes(w, false) == seq![b3, b2, b1, b0]);
}

} // verus!
