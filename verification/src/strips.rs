//! Triangle strips as AMO index chunks store them: per strip a 32-bit count
//! (its top bit a flag) followed by that many 32-bit indices (their top byte
//! flags), unrolled here into separate triangles.

use crate::bytes::{le32, u32_at};
use vstd::prelude::*;

verus! {

/// The vertex index that a raw strip entry holds.
pub open spec fn index_of(raw: u32) -> u32 {
    raw & 0x00ff_ffffu32
}

/// The number of indices that a raw strip count announces.
pub open spec fn count_of(raw: u32) -> u32 {
    raw & 0x7fff_ffffu32
}

/// The indices of the strip whose count stands at byte `pos` of `p`.
pub open spec fn strip_at(p: Seq<u8>, pos: int) -> Seq<u32> {
    Seq::new(count_of(le32(p, pos)) as nat, |k: int| index_of(le32(p, pos + 4 + 4 * k)))
}

/// Where the strip whose count stands at byte `pos` of `p` ends.
pub open spec fn strip_end(p: Seq<u8>, pos: int) -> int {
    pos + 4 + 4 * count_of(le32(p, pos))
}

/// Whether `n` strips, one after the other from byte `pos`, lie in `p`.
pub open spec fn strips_fit(p: Seq<u8>, pos: int, n: nat) -> bool
    decreases n,
{
    n == 0 || (0 <= pos && pos + 4 <= p.len() && strip_end(p, pos) <= p.len() && strips_fit(
        p,
        strip_end(p, pos),
        (n - 1) as nat,
    ))
}

/// The `n` strips stored one after the other from byte `pos` of `p`.
pub open spec fn strips(p: Seq<u8>, pos: int, n: nat) -> Seq<Seq<u32>>
    decreases n,
{
    if n == 0 {
        Seq::empty()
    } else {
        seq![strip_at(p, pos)] + strips(p, strip_end(p, pos), (n - 1) as nat)
    }
}

/// The triangle that starts at position `i` of strip `s`: none where two of
/// its corners are the same vertex, else its corners, the last two swapped at
/// odd positions so that every triangle keeps the strip's winding.
pub open spec fn triangle(s: Seq<u32>, i: int) -> Seq<u32> {
    let (a, b, c) = (s[i], s[i + 1], s[i + 2]);
    if a == b || b == c || a == c {
        Seq::empty()
    } else if i % 2 == 0 {
        seq![a, b, c]
    } else {
        seq![a, c, b]
    }
}

/// The triangles of strip `s` that start at position `i` or later.
pub open spec fn strip_triangles_from(s: Seq<u32>, i: int) -> Seq<u32>
    decreases s.len() - i,
{
    if i < 0 || i + 2 >= s.len() {
        Seq::empty()
    } else {
        triangle(s, i) + strip_triangles_from(s, i + 1)
    }
}

/// The triangles of strip `s`, three indices each.
pub open spec fn strip_triangles(s: Seq<u32>) -> Seq<u32> {
    strip_triangles_from(s, 0)
}

/// The strips of `p` unrolled into their triangles, one list per strip.
pub open spec fn grouped_triangles(p: Seq<u8>, n: nat) -> Seq<Seq<u32>> {
    strips(p, 0, n).map_values(|s: Seq<u32>| strip_triangles(s))
}

/// The lists of `lists`, one after the other.
pub open spec fn concat(lists: Seq<Seq<u32>>) -> Seq<u32>
    decreases lists.len(),
{
    if lists.len() == 0 {
        Seq::empty()
    } else {
        lists[0] + concat(lists.drop_first())
    }
}

proof fn lemma_strips_len(p: Seq<u8>, pos: int, n: nat)
    ensures
        strips(p, pos, n).len() == n,
    decreases n,
{
    if n > 0 {
        lemma_strips_len(p, strip_end(p, pos), (n - 1) as nat);
    }
}

/// One list of triangles per strip unrolled.
pub proof fn lemma_grouped_len(p: Seq<u8>, n: nat)
    ensures
        grouped_triangles(p, n).len() == n,
{
    lemma_strips_len(p, 0, n);
}

/// Whether `strip_count` strips, one after the other from the start, lie in
/// `payload`, as the decoders need.
pub fn strips_in_bounds(payload: &[u8], strip_count: u32) -> (b: bool)
    ensures
        b == strips_fit(payload@, 0, strip_count as nat),
{
    let len: usize = payload.len();
    let mut pos: usize = 0;
    let mut left: u32 = strip_count;
    while left > 0
        invariant
            len == payload@.len(),
            pos <= len,
            strips_fit(payload@, 0, strip_count as nat) == strips_fit(payload@, pos as int, left as nat),
        decreases left,
    {
        if len - pos < 4 {
            return false;
        }
        let count: u32 = u32_at(payload, pos) & 0x7fff_ffff;
        if count as usize > (len - pos - 4) / 4 {
            return false;
        }
        pos = pos + 4 + 4 * count as usize;
        left = left - 1;
    }
    true
}

/// Reads the strip whose count stands at byte `pos`.
fn read_strip(payload: &[u8], pos: usize) -> (s: Vec<u32>)
    requires
        pos + 4 <= payload@.len(),
        strip_end(payload@, pos as int) <= payload@.len(),
    ensures
        s@ == strip_at(payload@, pos as int),
{
    let len: usize = payload.len();
    let raw: u32 = u32_at(payload, pos);
    let count: u32 = raw & 0x7fff_ffff;
    let mut s: Vec<u32> = Vec::new();
    let mut k: u32 = 0;
    while k < count
        invariant
            len == payload@.len(),
            count == count_of(le32(payload@, pos as int)),
            pos + 4 + 4 * count <= len,
            k <= count,
            s@ =~= strip_at(payload@, pos as int).take(k as int),
        decreases count - k,
    {
        let at: usize = pos + 4 + 4 * (k as usize);
        let raw_idx: u32 = u32_at(payload, at);
        s.push(raw_idx & 0x00ff_ffff);
        k = k + 1;
    }
    s
}

/// Appends the triangles of strip `s` to `out`.
fn push_strip_triangles(s: &Vec<u32>, out: &mut Vec<u32>)
    ensures
        final(out)@ == old(out)@ + strip_triangles(s@),
{
    let n: usize = s.len();
    let last: usize = if n >= 2 { n - 2 } else { 0 };
    let mut i: usize = 0;
    let ghost goal = old(out)@ + strip_triangles(s@);
    assert(old(out)@ + strip_triangles_from(s@, 0) == goal);
    while i < last
        invariant
            n == s@.len(),
            last == if n >= 2 { n - 2 } else { 0 },
            i <= last,
            out@ + strip_triangles_from(s@, i as int) == goal,
        decreases last - i,
    {
        let v1: u32 = s[i];
        let v2: u32 = s[i + 1];
        let v3: u32 = s[i + 2];
        let ghost before = out@;
        if !(v1 == v2 || v2 == v3 || v1 == v3) {
            if i % 2 == 0 {
                out.push(v1);
                out.push(v2);
                out.push(v3);
            } else {
                out.push(v1);
                out.push(v3);
                out.push(v2);
            }
        }
        assert(out@ =~= before + triangle(s@, i as int));
        assert(before + (triangle(s@, i as int) + strip_triangles_from(s@, i + 1)) =~= out@
            + strip_triangles_from(s@, i + 1));
        i = i + 1;
    }
    assert(strip_triangles_from(s@, i as int) =~= Seq::<u32>::empty());
    assert(out@ + Seq::<u32>::empty() =~= out@);
}

/// Unrolls `strip_count` strips of an index chunk's payload into triangles,
/// one list per strip.
pub fn decode_amo_indices_grouped(payload: &[u8], strip_count: u32) -> (r: Vec<Vec<u32>>)
    requires
        strips_fit(payload@, 0, strip_count as nat),
    ensures
        r@.len() == strip_count,
        forall|i: int| 0 <= i < r@.len() ==> #[trigger] r@[i]@ == grouped_triangles(payload@, strip_count as nat)[i],
{
    let len: usize = payload.len();
    let mut res: Vec<Vec<u32>> = Vec::new();
    let mut pos: usize = 0;
    let mut done: u32 = 0;
    let ghost all = strips(payload@, 0, strip_count as nat);
    proof {
        lemma_strips_len(payload@, 0, strip_count as nat);
    }
    while done < strip_count
        invariant
            len == payload@.len(),
            done <= strip_count,
            pos <= len,
            strips_fit(payload@, pos as int, (strip_count - done) as nat),
            all =~= all.take(done as int) + strips(payload@, pos as int, (strip_count - done) as nat),
            all.len() == strip_count,
            res@.len() == done,
            forall|i: int| 0 <= i < done ==> #[trigger] res@[i]@ == strip_triangles(all[i]),
        decreases strip_count - done,
    {
        let strip: Vec<u32> = read_strip(payload, pos);
        let mut tris: Vec<u32> = Vec::new();
        push_strip_triangles(&strip, &mut tris);
        assert(tris@ =~= strip_triangles(strip@));
        let ghost rest = strips(payload@, pos as int, (strip_count - done) as nat);
        assert(rest[0] == strip@);
        assert(all[done as int] == strip@);
        let next: usize = pos + 4 + 4 * ((u32_at(payload, pos) & 0x7fff_ffff) as usize);
        assert(rest.drop_first() =~= strips(payload@, next as int, (strip_count - done - 1) as nat));
        assert(all.take(done as int) + rest =~= all.take(done + 1) + rest.drop_first());
        res.push(tris);
        pos = next;
        done = done + 1;
    }
    res
}

/// Unrolls `strip_count` strips of an index chunk's payload into one list of
/// triangles.
pub fn decode_amo_indices(payload: &[u8], strip_count: u32) -> (r: Vec<u32>)
    requires
        strips_fit(payload@, 0, strip_count as nat),
    ensures
        r@ == concat(grouped_triangles(payload@, strip_count as nat)),
{
    let len: usize = payload.len();
    let mut out: Vec<u32> = Vec::new();
    let mut pos: usize = 0;
    let mut done: u32 = 0;
    let ghost groups = grouped_triangles(payload@, strip_count as nat);
    let ghost all = strips(payload@, 0, strip_count as nat);
    proof {
        lemma_strips_len(payload@, 0, strip_count as nat);
        assert(groups.skip(0) =~= groups);
        assert(out@ + concat(groups) =~= concat(groups));
    }
    while done < strip_count
        invariant
            len == payload@.len(),
            done <= strip_count,
            pos <= len,
            strips_fit(payload@, pos as int, (strip_count - done) as nat),
            all =~= all.take(done as int) + strips(payload@, pos as int, (strip_count - done) as nat),
            all.len() == strip_count,
            groups == all.map_values(|s: Seq<u32>| strip_triangles(s)),
            out@ + concat(groups.skip(done as int)) == concat(groups),
        decreases strip_count - done,
    {
        let strip: Vec<u32> = read_strip(payload, pos);
        let ghost before = out@;
        push_strip_triangles(&strip, &mut out);
        let ghost rest = strips(payload@, pos as int, (strip_count - done) as nat);
        assert(rest[0] == strip@);
        assert(all[done as int] == strip@);
        assert(groups.skip(done as int)[0] == strip_triangles(strip@));
        assert(groups.skip(done as int).drop_first() =~= groups.skip(done + 1));
        assert(before + (strip_triangles(strip@) + concat(groups.skip(done + 1))) =~= out@ + concat(
            groups.skip(done + 1),
        ));
        let next: usize = pos + 4 + 4 * ((u32_at(payload, pos) & 0x7fff_ffff) as usize);
        assert(rest.drop_first() =~= strips(payload@, next as int, (strip_count - done - 1) as nat));
        assert(all.take(done as int) + rest =~= all.take(done + 1) + rest.drop_first());
        pos = next;
        done = done + 1;
    }
    assert(groups.skip(done as int) =~= Seq::<Seq<u32>>::empty());
    assert(out@ + Seq::<u32>::empty() =~= out@);
    out
}


/// A list of whole triangles, each with three different corners, all of them
/// vertex indices below 2^24.
pub open spec fn proper_triangles(t: Seq<u32>) -> bool {
    &&& t.len() % 3 == 0
    &&& forall|j: int|
        0 <= j < t.len() / 3 ==> {
            &&& #[trigger] t[3 * j] != t[3 * j + 1]
            &&& t[3 * j + 1] != t[3 * j + 2]
            &&& t[3 * j] != t[3 * j + 2]
        }
    &&& forall|k: int| 0 <= k < t.len() ==> #[trigger] t[k] <= 0x00ff_ffffu32
}

proof fn lemma_proper_concat(a: Seq<u32>, b: Seq<u32>)
    requires
        proper_triangles(a),
        proper_triangles(b),
    ensures
        proper_triangles(a + b),
{
    let c = a + b;
    assert(c.len() % 3 == 0);
    assert forall|j: int| 0 <= j < c.len() / 3 implies {
        &&& #[trigger] c[3 * j] != c[3 * j + 1]
        &&& c[3 * j + 1] != c[3 * j + 2]
        &&& c[3 * j] != c[3 * j + 2]
    } by {
        if j < a.len() / 3 {
            assert(c[3 * j] == a[3 * j]);
        } else {
            let jj = j - a.len() / 3;
            assert(3 * jj == 3 * j - a.len());
            assert(c[3 * j] == b[3 * jj]);
            assert(c[3 * j + 1] == b[3 * jj + 1]);
            assert(c[3 * j + 2] == b[3 * jj + 2]);
        }
    }
    assert forall|k: int| 0 <= k < c.len() implies #[trigger] c[k] <= 0x00ff_ffffu32 by {
        if k < a.len() {
            assert(c[k] == a[k]);
        } else {
            assert(c[k] == b[k - a.len()]);
        }
    }
}

proof fn lemma_strip_triangles_from(s: Seq<u32>, i: int)
    requires
        forall|k: int| 0 <= k < s.len() ==> #[trigger] s[k] <= 0x00ff_ffffu32,
    ensures
        proper_triangles(strip_triangles_from(s, i)),
    decreases s.len() - i,
{
    if !(i < 0 || i + 2 >= s.len()) {
        lemma_strip_triangles_from(s, i + 1);
        let t = triangle(s, i);
        assert(s[i] <= 0x00ff_ffffu32 && s[i + 1] <= 0x00ff_ffffu32 && s[i + 2] <= 0x00ff_ffffu32);
        assert(proper_triangles(t)) by {
            if t.len() == 3 {
                assert(t.len() / 3 == 1);
                assert forall|j: int| 0 <= j < t.len() / 3 implies {
                    &&& #[trigger] t[3 * j] != t[3 * j + 1]
                    &&& t[3 * j + 1] != t[3 * j + 2]
                    &&& t[3 * j] != t[3 * j + 2]
                } by {
                    assert(j == 0);
                }
            }
        }
        lemma_proper_concat(t, strip_triangles_from(s, i + 1));
    }
}

proof fn lemma_strip_indices_small(p: Seq<u8>, pos: int)
    ensures
        forall|k: int| 0 <= k < strip_at(p, pos).len() ==> #[trigger] strip_at(p, pos)[k] <= 0x00ff_ffffu32,
{
    assert forall|k: int| 0 <= k < strip_at(p, pos).len() implies #[trigger] strip_at(p, pos)[k]
        <= 0x00ff_ffffu32 by {
        let raw = le32(p, pos + 4 + 4 * k);
        assert(raw & 0x00ff_ffffu32 <= 0x00ff_ffffu32) by (bit_vector);
    }
}

proof fn lemma_strips_proper(p: Seq<u8>, pos: int, n: nat, i: int)
    requires
        0 <= i < n,
    ensures
        proper_triangles(strip_triangles(strips(p, pos, n)[i])),
    decreases n,
{
    let rest = strips(p, strip_end(p, pos), (n - 1) as nat);
    lemma_strips_len(p, strip_end(p, pos), (n - 1) as nat);
    if i == 0 {
        lemma_strip_indices_small(p, pos);
        lemma_strip_triangles_from(strip_at(p, pos), 0);
        assert(strips(p, pos, n)[0] == strip_at(p, pos));
    } else {
        lemma_strips_proper(p, strip_end(p, pos), (n - 1) as nat, i - 1);
        assert(strips(p, pos, n)[i] == rest[i - 1]);
    }
}

proof fn lemma_concat_proper(lists: Seq<Seq<u32>>)
    requires
        forall|i: int| 0 <= i < lists.len() ==> proper_triangles(#[trigger] lists[i]),
    ensures
        proper_triangles(concat(lists)),
    decreases lists.len(),
{
    if lists.len() > 0 {
        let rest = lists.drop_first();
        assert forall|i: int| 0 <= i < rest.len() implies proper_triangles(#[trigger] rest[i]) by {
            assert(rest[i] == lists[i + 1]);
        }
        lemma_concat_proper(rest);
        assert(proper_triangles(lists[0]));
        lemma_proper_concat(lists[0], concat(rest));
    }
}

/// Corner `x` of triangle `j` of the list `t`.
pub open spec fn corner(t: Seq<u32>, j: int, x: int) -> u32 {
    t[3 * j + x]
}

/// Whether the three indices of `s` from position `m` on are different.
pub open spec fn distinct_at(s: Seq<u32>, m: int) -> bool {
    s[m] != s[m + 1] && s[m + 1] != s[m + 2] && s[m] != s[m + 2]
}

proof fn lemma_unrolled(s: Seq<u32>, i: int)
    requires
        0 <= i,
        forall|m: int| 0 <= m < s.len() - 2 ==> #[trigger] distinct_at(s, m),
    ensures
        strip_triangles_from(s, i).len() == if i + 2 < s.len() {
            3 * (s.len() - 2 - i)
        } else {
            0
        },
        forall|j: int|
            0 <= j < s.len() - 2 - i ==> {
                &&& #[trigger] corner(strip_triangles_from(s, i), j, 0) == s[i + j]
                &&& corner(strip_triangles_from(s, i), j, 1) == if (i + j) % 2 == 0 {
                    s[i + j + 1]
                } else {
                    s[i + j + 2]
                }
                &&& corner(strip_triangles_from(s, i), j, 2) == if (i + j) % 2 == 0 {
                    s[i + j + 2]
                } else {
                    s[i + j + 1]
                }
            },
    decreases s.len() - i,
{
    if i + 2 < s.len() {
        lemma_unrolled(s, i + 1);
        assert(distinct_at(s, i));
        let t = triangle(s, i);
        let rest = strip_triangles_from(s, i + 1);
        let r = strip_triangles_from(s, i);
        assert(r == t + rest);
        assert(t.len() == 3);
        assert forall|j: int| 0 <= j < s.len() - 2 - i implies {
            &&& #[trigger] corner(r, j, 0) == s[i + j]
            &&& corner(r, j, 1) == if (i + j) % 2 == 0 {
                s[i + j + 1]
            } else {
                s[i + j + 2]
            }
            &&& corner(r, j, 2) == if (i + j) % 2 == 0 {
                s[i + j + 2]
            } else {
                s[i + j + 1]
            }
        } by {
            if j > 0 {
                assert(corner(rest, j - 1, 0) == s[i + 1 + (j - 1)]);
                assert(r[3 * j] == rest[3 * (j - 1)]);
                assert(r[3 * j + 1] == rest[3 * (j - 1) + 1]);
                assert(r[3 * j + 2] == rest[3 * (j - 1) + 2]);
            }
        }
    }
}

/// The vertex indices of the first strip of `p`: as many as the low 31 bits
/// of its first word count, each the low 24 bits of a following word.
pub open spec fn first_strip_indices(p: Seq<u8>) -> Seq<u32> {
    Seq::new((le32(p, 0) & 0x7fff_ffffu32) as nat, |k: int| le32(p, 4 + 4 * k) & 0x00ff_ffffu32)
}

/// Unrolling a strip whose every three neighbouring indices differ gives
/// one triangle per position but the last two: triangle `j` has corners
/// `v(j)`, `v(j + 1)`, `v(j + 2)` at even `j`, and `v(j)`, `v(j + 2)`,
/// `v(j + 1)` at odd `j`, so that all keep the strip's winding; `v(j)` is
/// the low 24 bits of the word after the strip's count, whose top bit is a
/// flag.
pub proof fn lemma_strip_winding(p: Seq<u8>)
    requires
        forall|m: int|
            0 <= m < (le32(p, 0) & 0x7fff_ffffu32) - 2 ==> #[trigger] distinct_at(first_strip_indices(p), m),
    ensures
        ({
            let k = (le32(p, 0) & 0x7fff_ffffu32) as int;
            let out = grouped_triangles(p, 1)[0];
            &&& out.len() == if k > 2 {
                3 * (k - 2)
            } else {
                0
            }
            &&& forall|j: int|
                0 <= j < k - 2 ==> {
                    &&& #[trigger] corner(out, j, 0) == le32(p, 4 + 4 * j) & 0x00ff_ffffu32
                    &&& corner(out, j, 1) == le32(p, 4 + 4 * (j + if j % 2 == 0 {
                        1int
                    } else {
                        2int
                    })) & 0x00ff_ffffu32
                    &&& corner(out, j, 2) == le32(p, 4 + 4 * (j + if j % 2 == 0 {
                        2int
                    } else {
                        1int
                    })) & 0x00ff_ffffu32
                }
        }),
{
    let s = strip_at(p, 0);
    let k = (le32(p, 0) & 0x7fff_ffffu32) as int;
    assert(s =~= first_strip_indices(p));
    lemma_strips_len(p, 0, 1);
    assert(strips(p, 0, 1)[0] == s);
    lemma_unrolled(s, 0);
    let out = grouped_triangles(p, 1)[0];
    assert(out == strip_triangles_from(s, 0));
    assert forall|j: int| 0 <= j < k - 2 implies {
        &&& #[trigger] corner(out, j, 0) == le32(p, 4 + 4 * j) & 0x00ff_ffffu32
        &&& corner(out, j, 1) == le32(p, 4 + 4 * (j + if j % 2 == 0 {
            1int
        } else {
            2int
        })) & 0x00ff_ffffu32
        &&& corner(out, j, 2) == le32(p, 4 + 4 * (j + if j % 2 == 0 {
            2int
        } else {
            1int
        })) & 0x00ff_ffffu32
    } by {
        assert(corner(strip_triangles_from(s, 0), j, 0) == s[0 + j]);
    }
}

/// The strips of a payload, where they lie in it, come one after the
/// other: the first takes its count word and that many index words, and the
/// others are the strips of the bytes after it. So the flat list of triangles is the first strip's
/// triangles followed by those of the rest.
pub proof fn lemma_strips_follow(p: Seq<u8>, n: nat)
    requires
        strips_fit(p, 0, n + 1),
    ensures
        ({
            let first = 4 + 4 * (le32(p, 0) & 0x7fff_ffffu32);
            &&& grouped_triangles(p, n + 1).len() == n + 1
            &&& forall|j: int|
                0 <= j < n ==> #[trigger] grouped_triangles(p, n + 1)[j + 1] == grouped_triangles(
                    p.skip(first as int),
                    n,
                )[j]
            &&& concat(grouped_triangles(p, n + 1)) == grouped_triangles(p, 1)[0] + concat(
                grouped_triangles(p.skip(first as int), n),
            )
        }),
{
    let first = 4 + 4 * (le32(p, 0) & 0x7fff_ffffu32);
    lemma_strips_len(p, 0, n + 1);
    lemma_strips_len(p, 0, 1);
    {
        let q = p.skip(first as int);
        assert(strip_end(p, 0) == first);
        lemma_strips_shift(p, first as int, 0, n);
        lemma_strips_len(q, 0, n);
        let g = grouped_triangles(p, n + 1);
        let h = grouped_triangles(q, n);
        assert(strips(p, 0, n + 1) =~= seq![strip_at(p, 0)] + strips(p, first as int, n));
        assert forall|j: int| 0 <= j < n implies #[trigger] g[j + 1] == h[j] by {
            assert(strips(p, 0, n + 1)[j + 1] == strips(p, first as int, n)[j]);
        }
        assert(g.drop_first() =~= h);
        assert(g[0] == grouped_triangles(p, 1)[0]);
    }
}

proof fn lemma_le32_skip(p: Seq<u8>, off: int, x: int)
    requires
        0 <= off,
        0 <= x,
        off + x + 4 <= p.len(),
    ensures
        le32(p, off + x) == le32(p.skip(off), x),
{
    let q = p.skip(off);
    assert(q[x] == p[off + x] && q[x + 1] == p[off + x + 1]);
    assert(q[x + 2] == p[off + x + 2] && q[x + 3] == p[off + x + 3]);
}

proof fn lemma_strips_shift(p: Seq<u8>, off: int, pos: int, n: nat)
    requires
        0 <= off <= p.len(),
        0 <= pos,
        strips_fit(p, off + pos, n),
    ensures
        strips(p, off + pos, n) == strips(p.skip(off), pos, n),
        strips_fit(p.skip(off), pos, n),
    decreases n,
{
    if n > 0 {
        let q = p.skip(off);
        lemma_le32_skip(p, off, pos);
        assert(strip_end(p, off + pos) == off + strip_end(q, pos));
        let a = strip_at(p, off + pos);
        let b = strip_at(q, pos);
        assert forall|k: int| 0 <= k < a.len() implies a[k] == b[k] by {
            lemma_le32_skip(p, off, pos + 4 + 4 * k);
        }
        assert(a =~= b);
        lemma_strips_shift(p, off, strip_end(q, pos), (n - 1) as nat);
    }
}

/// Every list that unrolling strips gives is made of whole triangles, none
/// of them degenerate (with a corner repeated), and every index in it is a
/// vertex index below 2^24; the flat list, the lists one after the other,
/// is so too.
pub proof fn lemma_decoded_triangles_proper(p: Seq<u8>, n: nat)
    ensures
        forall|i: int| 0 <= i < n ==> proper_triangles(#[trigger] grouped_triangles(p, n)[i]),
        proper_triangles(concat(grouped_triangles(p, n))),
{
    lemma_strips_len(p, 0, n);
    assert forall|i: int| 0 <= i < n implies proper_triangles(#[trigger] grouped_triangles(p, n)[i]) by {
        lemma_strips_proper(p, 0, n, i);
    }
    lemma_concat_proper(grouped_triangles(p, n));
}

} // verus!
