//! Index lists for drawing a ball as a filled polygon.
use vstd::prelude::*;

verus! {

/// The triangle-fan indices of a polygon with `n` vertices: for each `i` in
/// `2..n`, the triangle `(0, i - 1, i)`.
pub open spec fn fan_indices_spec(n: nat) -> Seq<u32>
    decreases n,
{
    if n <= 2 {
        seq![]
    } else {
        fan_indices_spec((n - 1) as nat) + seq![0u32, (n - 2) as u32, (n - 1) as u32]
    }
}

/// The index list that draws a convex polygon of `num_vertices` vertices
/// as triangles sharing vertex 0.
pub fn circle_fan_indices(num_vertices: u32) -> (r: Vec<u32>)
    ensures
        r@ == fan_indices_spec(num_vertices as nat),
        num_vertices >= 2 ==> r@.len() == 3 * (num_vertices - 2),
{
    let mut indices: Vec<u32> = Vec::new();
    let mut i: u32 = 2;
    while i < num_vertices
        invariant
            2 <= i,
            i <= num_vertices || num_vertices < 2,
            num_vertices < 2 ==> i == 2,
            indices@ == fan_indices_spec(i as nat),
        decreases num_vertices - i,
    {
        indices.push(0u32);
        indices.push(i - 1);
        indices.push(i);
        proof {
            assert(fan_indices_spec((i + 1) as nat) == fan_indices_spec(i as nat) + seq![
                0u32,
                (i - 1) as u32,
                i as u32,
            ]);
        }
        i = i + 1;
    }
    proof {
        lemma_fan_len(num_vertices as nat);
    }
    indices
}

proof fn lemma_fan_len(n: nat)
    ensures
        n >= 2 ==> fan_indices_spec(n).len() == 3 * (n - 2),
    decreases n,
{
    if n > 2 {
        lemma_fan_len((n - 1) as nat);
    }
}

} // verus!
