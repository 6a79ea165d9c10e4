//! Cutting glTF primitives into triangles.
use vstd::prelude::*;

verus! {

/// The topology of a glTF primitive.
#[derive(Debug, Clone, Copy, PartialEq, Eq)]
pub enum PrimitiveMode {
    Points,
    Lines,
    LineLoop,
    LineStrip,
    Triangles,
    TriangleStrip,
    TriangleFan,
}

/// Triangle `i` of a strip: every odd triangle has its winding flipped.
pub open spec fn strip_triangle(indices: Seq<u32>, i: int) -> [u32; 3] {
    if i % 2 == 0 {
        [indices[i], indices[i + 1], indices[i + 2]]
    } else {
        [indices[i], indices[i + 2], indices[i + 1]]
    }
}

/// The triangles a primitive describes, before malformed ones are
/// dropped: consecutive triples for a list, every window of three for a
/// strip, and the first vertex with every consecutive pair after it for a
/// fan. Lines and points give no triangles.
pub open spec fn candidate_triangles(mode: PrimitiveMode, indices: Seq<u32>) -> Seq<[u32; 3]> {
    match mode {
        PrimitiveMode::Triangles => Seq::new(
            indices.len() / 3,
            |k: int| [indices[3 * k], indices[3 * k + 1], indices[3 * k + 2]],
        ),
        PrimitiveMode::TriangleStrip => if indices.len() >= 3 {
            Seq::new((indices.len() - 2) as nat, |i: int| strip_triangle(indices, i))
        } else {
            Seq::empty()
        },
        PrimitiveMode::TriangleFan => if indices.len() >= 3 {
            Seq::new((indices.len() - 2) as nat, |j: int| [indices[0], indices[j + 1], indices[j + 2]])
        } else {
            Seq::empty()
        },
        _ => Seq::empty(),
    }
}

/// Whether every corner of a triangle refers to one of the
/// `vertex_count` vertices.
pub open spec fn valid_triangle(vertex_count: nat, t: [u32; 3]) -> bool {
    t[0] < vertex_count && t[1] < vertex_count && t[2] < vertex_count
}

/// The triangles of a primitive: its candidate triangles, in order,
/// without those that refer to a vertex past `vertex_count`.
pub open spec fn spec_triangle_indices(mode: PrimitiveMode, indices: Seq<u32>, vertex_count: nat) -> Seq<[u32; 3]> {
    candidate_triangles(mode, indices).filter(|t: [u32; 3]| valid_triangle(vertex_count, t))
}

fn candidate_count(mode: PrimitiveMode, len: usize) -> (r: usize)
    ensures
        r == candidate_triangles(mode, Seq::<u32>::new(len as nat, |i: int| 0u32)).len(),
{
    match mode {
        PrimitiveMode::Triangles => len / 3,
        PrimitiveMode::TriangleStrip | PrimitiveMode::TriangleFan => if len >= 3 {
            len - 2
        } else {
            0
        },
        _ => 0,
    }
}

proof fn lemma_candidate_len(mode: PrimitiveMode, a: Seq<u32>, b: Seq<u32>)
    requires
        a.len() == b.len(),
    ensures
        candidate_triangles(mode, a).len() == candidate_triangles(mode, b).len(),
{
}

fn candidate(mode: PrimitiveMode, indices: &Vec<u32>, k: usize) -> (r: [u32; 3])
    requires
        k < candidate_triangles(mode, indices@).len(),
    ensures
        r == candidate_triangles(mode, indices@)[k as int],
{
    let len = indices.len();
    match mode {
        PrimitiveMode::Triangles => {
            assert(3 * k + 2 < len) by (nonlinear_arith)
                requires
                    k < len / 3,
            ;
            [indices[3 * k], indices[3 * k + 1], indices[3 * k + 2]]
        },
        PrimitiveMode::TriangleStrip => {
            assert(k + 2 < len);
            if k % 2 == 0 {
                [indices[k], indices[k + 1], indices[k + 2]]
            } else {
                [indices[k], indices[k + 2], indices[k + 1]]
            }
        },
        _ => {
            assert(mode == PrimitiveMode::TriangleFan);
            assert(k + 2 < len);
            [indices[0], indices[k + 1], indices[k + 2]]
        },
    }
}

/// Cuts a primitive into triangles of vertex indices. Lists, strips (odd
/// triangles flipped) and fans give their triangles in order; lines and
/// points give none; a triangle that refers to a vertex past
/// `vertex_count` is dropped as malformed.
pub fn triangle_indices(mode: PrimitiveMode, indices: &Vec<u32>, vertex_count: usize) -> (r: Vec<[u32; 3]>)
    ensures
        r@ == spec_triangle_indices(mode, indices@, vertex_count as nat),
{
    let ghost cands = candidate_triangles(mode, indices@);
    let ghost pred = |t: [u32; 3]| valid_triangle(vertex_count as nat, t);
    let count = candidate_count(mode, indices.len());
    proof {
        lemma_candidate_len(mode, indices@, Seq::<u32>::new(indices.len() as nat, |i: int| 0u32));
    }
    let mut out: Vec<[u32; 3]> = Vec::new();
    let mut k: usize = 0;
    while k < count
        invariant
            count == cands.len(),
            cands == candidate_triangles(mode, indices@),
            pred == (|t: [u32; 3]| valid_triangle(vertex_count as nat, t)),
            k <= count,
            out@ == cands.take(k as int).filter(pred),
        decreases count - k,
    {
        let t = candidate(mode, indices, k);
        proof {
            reveal(Seq::filter);
            assert(cands.take(k + 1).drop_last() =~= cands.take(k as int));
            assert(cands.take(k + 1).last() == t);
        }
        if (t[0] as usize) < vertex_count && (t[1] as usize) < vertex_count && (t[2] as usize) < vertex_count {
            out.push(t);
        }
        k += 1;
    }
    proof {
        assert(cands.take(count as int) =~= cands);
    }
    out
}

/// Every triangle cut from a primitive refers only to existing vertices.
pub proof fn lemma_triangles_are_valid(mode: PrimitiveMode, indices: Seq<u32>, vertex_count: nat, i: int)
    requires
        0 <= i < spec_triangle_indices(mode, indices, vertex_count).len(),
    ensures
        valid_triangle(vertex_count, spec_triangle_indices(mode, indices, vertex_count)[i]),
{
    let pred = |t: [u32; 3]| valid_triangle(vertex_count, t);
    candidate_triangles(mode, indices).lemma_filter_pred(pred, i);
}

proof fn lemma_filter_keeps_all(s: Seq<[u32; 3]>, vertex_count: nat)
    requires
        forall|i: int| 0 <= i < s.len() ==> valid_triangle(vertex_count, #[trigger] s[i]),
    ensures
        s.filter(|t: [u32; 3]| valid_triangle(vertex_count, t)) == s,
    decreases s.len(),
{
    reveal(Seq::filter);
    if s.len() > 0 {
        lemma_filter_keeps_all(s.drop_last(), vertex_count);
        assert(s.drop_last().push(s.last()) =~= s);
    }
}

/// When every index of a primitive refers to an existing vertex, no
/// triangle is dropped: a triangle list gives one triangle per three
/// indices, and a strip or fan of `n >= 3` indices gives `n - 2`.
pub proof fn lemma_well_formed_keeps_all(mode: PrimitiveMode, indices: Seq<u32>, vertex_count: nat)
    requires
        forall|i: int| 0 <= i < indices.len() ==> (#[trigger] indices[i] as int) < vertex_count,
    ensures
        spec_triangle_indices(mode, indices, vertex_count) == candidate_triangles(mode, indices),
        mode == PrimitiveMode::Triangles ==> spec_triangle_indices(mode, indices, vertex_count).len()
            == indices.len() / 3,
        (mode == PrimitiveMode::TriangleStrip || mode == PrimitiveMode::TriangleFan) && indices.len()
            >= 3 ==> spec_triangle_indices(mode, indices, vertex_count).len() == indices.len() - 2,
{
    let cands = candidate_triangles(mode, indices);
    assert forall|i: int| 0 <= i < cands.len() implies valid_triangle(vertex_count, #[trigger] cands[i]) by {
        if mode == PrimitiveMode::Triangles {
            assert(3 * i + 2 < indices.len()) by (nonlinear_arith)
                requires
                    0 <= i < indices.len() / 3,
            ;
            assert(indices[3 * i] < vertex_count);
            assert(indices[3 * i + 1] < vertex_count);
            assert(indices[3 * i + 2] < vertex_count);
        } else if mode == PrimitiveMode::TriangleStrip {
            assert(indices[i] < vertex_count);
            assert(indices[i + 1] < vertex_count);
            assert(indices[i + 2] < vertex_count);
        } else {
            assert(indices[0] < vertex_count);
            assert(indices[i + 1] < vertex_count);
            assert(indices[i + 2] < vertex_count);
        }
    }
    lemma_filter_keeps_all(cands, vertex_count);
}

/// The indices of a primitive that has none: every vertex in order (the
/// count taken modulo `2^32`).
pub fn default_indices(vertex_count: usize) -> (r: Vec<u32>)
    ensures
        r@ == Seq::new((vertex_count as u32) as nat, |i: int| i as u32),
{
    let n = vertex_count as u32;
    let mut out: Vec<u32> = Vec::new();
    let mut i: u32 = 0;
    while i < n
        invariant
            i <= n,
            out@ == Seq::new(i as nat, |j: int| j as u32),
        decreases n - i,
    {
        out.push(i);
        proof {
            assert(out@ =~= Seq::new((i + 1) as nat, |j: int| j as u32));
        }
        i += 1;
    }
    out
}

/// The colour of vertex `i`: the primitive's vertex colour if it has one
/// for `i`, else opaque white.
pub fn vertex_color(colors: &Vec<[u8; 4]>, i: usize) -> (r: [u8; 4])
    ensures
        r == (if i < colors@.len() {
            colors@[i as int]
        } else {
            [255u8, 255, 255, 255]
        }),
{
    if i < colors.len() {
        colors[i]
    } else {
        [255, 255, 255, 255]
    }
}

/// How each topology cuts its indices into triangles.
///
/// A fan of `n >= 3` indices gives `n - 2` triangles that all pivot on
/// the first index, each joining the next two of the remaining indices in
/// turn, so consecutive fan triangles share an edge. A list reads its
/// indices three at a time: corner `c` of triangle `k` is index `3k + c`,
/// and a trailing incomplete triple gives nothing. A strip of `n >= 3`
/// indices gives `n - 2` triangles; triangle `i` starts at index `i` and
/// uses the next two, swapped on odd triangles. Points and lines give no
/// triangles, and neither does a strip or fan of fewer than three
/// indices.
pub proof fn lemma_triangle_shapes(mode: PrimitiveMode, indices: Seq<u32>)
    ensures
        mode == PrimitiveMode::TriangleFan && indices.len() >= 3 ==> {
            let tris = candidate_triangles(mode, indices);
            &&& tris.len() == indices.len() - 2
            &&& forall|j: int|
                0 <= j < tris.len() ==> (#[trigger] tris[j])[0] == indices[0] && tris[j][1]
                    == indices[j + 1] && tris[j][2] == indices[j + 2]
            &&& forall|j: int| 0 <= j < tris.len() - 1 ==> (#[trigger] tris[j])[2] == tris[j + 1][1]
        },
        mode == PrimitiveMode::Triangles ==> {
            let tris = candidate_triangles(mode, indices);
            &&& 3 * tris.len() <= indices.len() < 3 * tris.len() + 3
            &&& forall|k: int, c: int|
                0 <= k < tris.len() && 0 <= c < 3 ==> #[trigger] tris[k][c] == indices[3 * k + c]
        },
        mode == PrimitiveMode::TriangleStrip && indices.len() >= 3 ==> {
            let tris = candidate_triangles(mode, indices);
            &&& tris.len() == indices.len() - 2
            &&& forall|i: int|
                0 <= i < tris.len() ==> (#[trigger] tris[i])[0] == indices[i] && (if i % 2 == 0 {
                    tris[i][1] == indices[i + 1] && tris[i][2] == indices[i + 2]
                } else {
                    tris[i][1] == indices[i + 2] && tris[i][2] == indices[i + 1]
                })
        },
        (mode == PrimitiveMode::TriangleStrip || mode == PrimitiveMode::TriangleFan) && indices.len()
            < 3 ==> candidate_triangles(mode, indices).len() == 0,
        mode == PrimitiveMode::Points || mode == PrimitiveMode::Lines || mode
            == PrimitiveMode::LineLoop || mode == PrimitiveMode::LineStrip ==> candidate_triangles(
            mode,
            indices,
        ).len() == 0,
{
    if mode == PrimitiveMode::Triangles {
        let tris = candidate_triangles(mode, indices);
        let n = indices.len() as int;
        assert(3 * (n / 3) <= n < 3 * (n / 3) + 3) by (nonlinear_arith)
            requires
                n >= 0,
        ;
        assert forall|k: int, c: int| 0 <= k < tris.len() && 0 <= c < 3 implies #[trigger] tris[k][c]
            == indices[3 * k + c] by {
            assert(tris[k] == [indices[3 * k], indices[3 * k + 1], indices[3 * k + 2]]);
        }
    }
}

} // verus!
