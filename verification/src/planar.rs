//! Coloring the faces of the planar graph that the roads and intersections cut the map into.
use vstd::prelude::*;

use crate::strings::{starts_with, starts_with_seq, str_eq};

verus! {

/// An edge of the planar graph, named by the two points it joins, each rounded to integers.
pub type EdgeID = ((isize, isize), (isize, isize));

/// Faces `i` and `j`, given by the edges around them, share an edge.
pub open spec fn share_edge(faces: Seq<Seq<EdgeID>>, i: int, j: int) -> bool {
    exists|e: EdgeID| faces[i].contains(e) && faces[j].contains(e)
}

/// Color `c` is free for face `i`: one of the `num_colors`, and not given to an earlier face
/// that shares an edge with it.
pub open spec fn color_free(faces: Seq<Seq<EdgeID>>, colors: Seq<usize>, i: int, c: int, num_colors: int) -> bool {
    &&& 0 <= c < num_colors
    &&& forall|j: int| 0 <= j < i && share_edge(faces, i, j) ==> colors[j] != c
}

/// The first color from `c` on that is free for face `i`.
pub open spec fn first_free_from(
    faces: Seq<Seq<EdgeID>>,
    colors: Seq<usize>,
    i: int,
    c: int,
    num_colors: int,
) -> Option<int>
    decreases num_colors - c,
{
    if c < 0 || c >= num_colors {
        None
    } else if color_free(faces, colors, i, c, num_colors) {
        Some(c)
    } else {
        first_free_from(faces, colors, i, c + 1, num_colors)
    }
}

/// The colors of the first `n` faces, each given the first color free for it in turn; nothing
/// if some face finds none free.
pub open spec fn greedy_colors(faces: Seq<Seq<EdgeID>>, num_colors: int, n: int) -> Option<Seq<usize>>
    decreases n,
{
    if n <= 0 {
        Some(Seq::empty())
    } else {
        match greedy_colors(faces, num_colors, n - 1) {
            Some(cs) => match first_free_from(faces, cs, n - 1, 0, num_colors) {
                Some(c) => Some(cs.push(c as usize)),
                None => None,
            },
            None => None,
        }
    }
}

/// The colors of the faces, given greedily in order, or all 0 where the colors do not suffice.
pub open spec fn spec_four_coloring(faces: Seq<Seq<EdgeID>>, num_colors: int) -> Seq<usize> {
    match greedy_colors(faces, num_colors, faces.len() as int) {
        Some(cs) => cs,
        None => Seq::new(faces.len(), |i: int| 0usize),
    }
}

/// A first free color is free, and no earlier color from `c` on is.
proof fn lemma_first_free(faces: Seq<Seq<EdgeID>>, colors: Seq<usize>, i: int, c: int, num_colors: int)
    requires
        0 <= c,
    ensures
        first_free_from(faces, colors, i, c, num_colors) matches Some(x) ==> c <= x && color_free(
            faces,
            colors,
            i,
            x,
            num_colors,
        ),
    decreases num_colors - c,
{
    if c < num_colors && !color_free(faces, colors, i, c, num_colors) {
        lemma_first_free(faces, colors, i, c + 1, num_colors);
    }
}

/// Whether the two edges are the same.
fn same_edge(a: EdgeID, b: EdgeID) -> (r: bool)
    ensures
        r == (a == b),
{
    a.0.0 == b.0.0 && a.0.1 == b.0.1 && a.1.0 == b.1.0 && a.1.1 == b.1.1
}

/// Whether the two faces share an edge.
fn shares_edge(faces: &Vec<Vec<EdgeID>>, i: usize, j: usize) -> (r: bool)
    requires
        i < faces@.len(),
        j < faces@.len(),
    ensures
        r == share_edge(faces@.map_values(|f: Vec<EdgeID>| f@), i as int, j as int),
{
    let ghost fs = faces@.map_values(|f: Vec<EdgeID>| f@);
    let a = &faces[i];
    let b = &faces[j];
    proof {
        assert(fs[i as int] == a@);
        assert(fs[j as int] == b@);
    }
    let mut x: usize = 0;
    while x < a.len()
        invariant
            fs == faces@.map_values(|f: Vec<EdgeID>| f@),
            fs[i as int] == a@,
            fs[j as int] == b@,
            x <= a@.len(),
            forall|e: EdgeID| #[trigger] a@.take(x as int).contains(e) ==> !b@.contains(e),
        decreases a@.len() - x,
    {
        let mut y: usize = 0;
        while y < b.len()
            invariant
                fs == faces@.map_values(|f: Vec<EdgeID>| f@),
                fs[i as int] == a@,
                fs[j as int] == b@,
                x < a@.len(),
                y <= b@.len(),
                forall|k: int| 0 <= k < y ==> b@[k] != a@[x as int],
            decreases b@.len() - y,
        {
            if same_edge(a[x], b[y]) {
                proof {
                    assert(a@.contains(a@[x as int]));
                    assert(b@.contains(b@[y as int]));
                }
                return true;
            }
            y = y + 1;
        }
        proof {
            let t0 = a@.take(x as int);
            let t1 = a@.take(x + 1);
            assert(!b@.contains(a@[x as int]));
            assert forall|e: EdgeID| #[trigger] t1.contains(e) implies !b@.contains(e) by {
                let w = choose|w: int| 0 <= w < t1.len() && t1[w] == e;
                if w < x {
                    assert(t0[w] == e);
                    assert(t0.contains(e));
                } else {
                    assert(t1[w] == a@[x as int]);
                }
            }
        }
        x = x + 1;
    }
    proof {
        assert(a@.take(a@.len() as int) =~= a@);
    }
    false
}

/// Colors the faces greedily in order, as `spec_four_coloring` says: each face gets the first
/// of `num_colors` colors that no earlier face sharing an edge with it has; where some face
/// finds none, every face gets color 0.
pub fn four_coloring(input: &Vec<Vec<EdgeID>>, num_colors: usize) -> (r: Vec<usize>)
    ensures
        r@ == spec_four_coloring(input@.map_values(|f: Vec<EdgeID>| f@), num_colors as int),
{
    let ghost fs = input@.map_values(|f: Vec<EdgeID>| f@);
    let n = input.len();
    let mut assigned: Vec<usize> = Vec::new();
    let mut i: usize = 0;
    while i < n
        invariant
            fs == input@.map_values(|f: Vec<EdgeID>| f@),
            n == input@.len(),
            i <= n,
            greedy_colors(fs, num_colors as int, i as int) == Some(assigned@),
            assigned@.len() == i,
            forall|j: int| 0 <= j < assigned@.len() ==> #[trigger] assigned@[j] < num_colors,
        decreases n - i,
    {
        let mut available: Vec<bool> = Vec::new();
        let mut c: usize = 0;
        while c < num_colors
            invariant
                c <= num_colors,
                available@.len() == c,
                forall|d: int| 0 <= d < c ==> #[trigger] available@[d],
            decreases num_colors - c,
        {
            available.push(true);
            c = c + 1;
        }
        let mut j: usize = 0;
        while j < i
            invariant
                fs == input@.map_values(|f: Vec<EdgeID>| f@),
                n == input@.len(),
                i < n,
                j <= i,
                assigned@.len() == i,
                forall|x: int| 0 <= x < assigned@.len() ==> #[trigger] assigned@[x] < num_colors,
                available@.len() == num_colors,
                forall|d: int|
                    0 <= d < num_colors ==> #[trigger] available@[d] == (forall|x: int|
                        0 <= x < j && share_edge(fs, i as int, x) ==> assigned@[x] != d),
            decreases i - j,
        {
            if shares_edge(input, i, j) {
                let taken = assigned[j];
                available.set(taken, false);
                proof {
                    assert forall|d: int| 0 <= d < num_colors implies #[trigger] available@[d] == (forall|x: int|
                        0 <= x < j + 1 && share_edge(fs, i as int, x) ==> assigned@[x] != d) by {
                        if d == taken {
                            assert(share_edge(fs, i as int, j as int) && assigned@[j as int] == d);
                        }
                    }
                }
            } else {
                proof {
                    assert forall|d: int| 0 <= d < num_colors implies #[trigger] available@[d] == (forall|x: int|
                        0 <= x < j + 1 && share_edge(fs, i as int, x) ==> assigned@[x] != d) by {
                        assert(!share_edge(fs, i as int, j as int));
                    }
                }
            }
            j = j + 1;
        }
        // The first available color.
        let mut c: usize = 0;
        while c < num_colors && !available[c]
            invariant
                c <= num_colors,
                available@.len() == num_colors,
                first_free_from(fs, assigned@, i as int, 0, num_colors as int) == first_free_from(
                    fs,
                    assigned@,
                    i as int,
                    c as int,
                    num_colors as int,
                ),
                forall|d: int|
                    0 <= d < num_colors ==> #[trigger] available@[d] == color_free(
                        fs,
                        assigned@,
                        i as int,
                        d,
                        num_colors as int,
                    ),
            decreases num_colors - c,
        {
            c = c + 1;
        }
        if c == num_colors {
            proof {
                assert(first_free_from(fs, assigned@, i as int, c as int, num_colors as int) is None);
                lemma_greedy_stays_none(fs, num_colors as int, i as int + 1, n as int);
            }
            let mut zeros: Vec<usize> = Vec::new();
            let mut z: usize = 0;
            while z < n
                invariant
                    z <= n,
                    zeros@.len() == z,
                    forall|k: int| 0 <= k < z ==> #[trigger] zeros@[k] == 0,
                decreases n - z,
            {
                zeros.push(0);
                z = z + 1;
            }
            proof {
                assert(zeros@ =~= Seq::new(fs.len(), |k: int| 0usize));
            }
            return zeros;
        }
        proof {
            assert(color_free(fs, assigned@, i as int, c as int, num_colors as int));
        }
        assigned.push(c);
        i = i + 1;
    }
    assigned
}

/// Once some face finds no free color, no longer run of faces is colored.
proof fn lemma_greedy_stays_none(faces: Seq<Seq<EdgeID>>, num_colors: int, m: int, n: int)
    requires
        0 < m <= n,
        greedy_colors(faces, num_colors, m) is None,
    ensures
        greedy_colors(faces, num_colors, n) is None,
    decreases n - m,
{
    if m < n {
        lemma_greedy_stays_none(faces, num_colors, m + 1, n);
    }
}

/// Where the colors suffice, faces that share an edge get different colors, each one of the
/// `num_colors`.
pub proof fn law_four_coloring_proper(faces: Seq<Seq<EdgeID>>, num_colors: int, n: int)
    requires
        0 <= n,
        0 <= num_colors <= usize::MAX,
        greedy_colors(faces, num_colors, n) is Some,
    ensures
        ({
            let cs = greedy_colors(faces, num_colors, n)->0;
            &&& cs.len() == n
            &&& forall|i: int| 0 <= i < n ==> 0 <= #[trigger] cs[i] < num_colors
            &&& forall|i: int, j: int|
                0 <= i < n && 0 <= j < n && i != j && share_edge(faces, i, j) ==> #[trigger] cs[i]
                    != #[trigger] cs[j]
        }),
    decreases n,
{
    if n > 0 {
        law_four_coloring_proper(faces, num_colors, n - 1);
        let prev = greedy_colors(faces, num_colors, n - 1)->0;
        lemma_first_free(faces, prev, n - 1, 0, num_colors);
        let c = first_free_from(faces, prev, n - 1, 0, num_colors)->0;
        let cs = prev.push(c as usize);
        assert(greedy_colors(faces, num_colors, n) == Some(cs));
        assert(color_free(faces, prev, n - 1, c, num_colors));
        assert(cs[n - 1] == c);
        assert forall|i: int, j: int|
            0 <= i < n && 0 <= j < n && i != j && share_edge(faces, i, j) implies #[trigger] cs[i]
                != #[trigger] cs[j] by {
            if i == n - 1 {
                assert(cs[j] == prev[j]);
                assert(share_edge(faces, n - 1, j));
            } else if j == n - 1 {
                assert(cs[i] == prev[i]);
                let e = choose|e: EdgeID| faces[i].contains(e) && faces[j].contains(e);
                assert(share_edge(faces, j, i));
            } else {
                assert(cs[i] == prev[i] && cs[j] == prev[j]);
            }
        }
        assert forall|i: int| 0 <= i < n implies 0 <= #[trigger] cs[i] < num_colors by {
            if i < n - 1 {
                assert(cs[i] == prev[i]);
            }
        }
    }
}

/// How many of the sources start with `prefix`.
pub open spec fn count_prefixed(s: Seq<Seq<char>>, prefix: Seq<char>) -> nat
    decreases s.len(),
{
    if s.len() == 0 {
        0
    } else {
        count_prefixed(s.drop_last(), prefix) + if starts_with_seq(s.last(), prefix) {
            1nat
        } else {
            0nat
        }
    }
}

/// The color of a face by what its edges came from: black for one intersection with roads, or
/// for a road between two intersections, away from the boundary; cyan otherwise.
pub open spec fn spec_color_by_classifying(sources: Seq<Seq<char>>) -> Seq<char> {
    let intersections = count_prefixed(sources, "Intersection"@);
    let roads = count_prefixed(sources, "Road"@);
    let boundary = sources.contains("boundary"@);
    if intersections == 1 && roads > 0 && !boundary {
        "black"@
    } else if intersections == 2 && roads == 1 && !boundary {
        "black"@
    } else {
        "cyan"@
    }
}

/// Colors a face by what its edges came from, as `spec_color_by_classifying` says. `sources`
/// lists each source once.
pub fn color_by_classifying(sources: &Vec<String>) -> (r: &'static str)
    ensures
        r@ == spec_color_by_classifying(sources@.map_values(|s: String| s@)),
{
    let ghost ss = sources@.map_values(|s: String| s@);
    let mut intersections: usize = 0;
    let mut roads: usize = 0;
    let mut boundary = false;
    let mut k: usize = 0;
    proof {
        reveal_strlit("boundary");
        reveal_strlit("Road");
        reveal_strlit("Intersection");
    }
    while k < sources.len()
        invariant
            ss == sources@.map_values(|s: String| s@),
            k <= ss.len(),
            intersections <= k,
            roads <= k,
            intersections == count_prefixed(ss.take(k as int), "Intersection"@),
            roads == count_prefixed(ss.take(k as int), "Road"@),
            boundary == ss.take(k as int).contains("boundary"@),
            "boundary"@ == seq!['b', 'o', 'u', 'n', 'd', 'a', 'r', 'y'],
            "Road"@ == seq!['R', 'o', 'a', 'd'],
            "Intersection"@ == seq!['I', 'n', 't', 'e', 'r', 's', 'e', 'c', 't', 'i', 'o', 'n'],
        decreases ss.len() - k,
    {
        let x = sources[k].as_str();
        let ghost t0 = ss.take(k as int);
        let ghost t1 = ss.take(k + 1);
        proof {
            assert(t1 =~= t0.push(ss[k as int]));
            assert(ss[k as int] == x@);
            assert(t1.drop_last() =~= t0);
        }
        if str_eq(x, "boundary") {
            boundary = true;
            proof {
                assert(t1[k as int] == "boundary"@);
                assert(!starts_with_seq(x@, "Road"@));
                assert(!starts_with_seq(x@, "Intersection"@));
            }
        } else {
            proof {
                if t1.contains("boundary"@) {
                    let w = choose|w: int| 0 <= w < t1.len() && t1[w] == "boundary"@;
                    assert(w < k);
                    assert(t0[w] == "boundary"@);
                }
                if t0.contains("boundary"@) {
                    let w = choose|w: int| 0 <= w < t0.len() && t0[w] == "boundary"@;
                    assert(t1[w] == "boundary"@);
                }
            }
            if starts_with(x, "Road") {
                roads = roads + 1;
                proof {
                    assert(!starts_with_seq(x@, "Intersection"@)) by {
                        assert(x@[0] == 'R');
                    }
                }
            } else if starts_with(x, "Intersection") {
                intersections = intersections + 1;
            }
        }
        k = k + 1;
    }
    proof {
        assert(ss.take(ss.len() as int) =~= ss);
    }
    if intersections == 1 && roads > 0 && !boundary {
        "black"
    } else if intersections == 2 && roads == 1 && !boundary {
        "black"
    } else {
        "cyan"
    }
}

} // verus!
