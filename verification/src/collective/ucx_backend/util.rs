//! Pieces of a buffer: updates in place, and disjoint parts to write to.

use crate::collective::op;
use crate::collective::op::Op;
use crate::collective::ucx_backend::model;
use vstd::prelude::*;

verus! {

/// Replace the elements of `buf` from `off` on by `data`.
pub fn write_piece<T: Copy>(buf: &mut [T], off: usize, data: &[T])
    requires
        off + data@.len() <= old(buf)@.len(),
    ensures
        final(buf)@ == model::overwritten(old(buf)@, off as int, data@),
{
    let ghost start = buf@;
    let total: usize = buf.len();
    let len: usize = data.len();
    let mut i: usize = 0;
    while i < len
        invariant
            len == data@.len(),
            i <= len,
            off + len <= total == start.len(),
            buf@ =~= model::overwritten(start, off as int, data@.take(i as int)),
        decreases len - i,
    {
        buf[off + i] = data[i];
        i += 1;
    }
    assert(data@.take(len as int) =~= data@);
}

/// Combine the elements of `buf` from `off` on with `data`.
pub fn reduce_piece<T: Copy, O: Op<T>>(buf: &mut [T], off: usize, data: &[T])
    requires
        off + data@.len() <= old(buf)@.len(),
    ensures
        final(buf)@ == model::overwritten(
            old(buf)@,
            off as int,
            op::reduced::<T, O>(
                model::piece(old(buf)@, off as int, data@.len() as int),
                data@,
            ),
        ),
{
    let (_, rest) = buf.split_at_mut(off);
    let (target, _) = rest.split_at_mut(data.len());
    O::reduce_in_place(target, data);
}

/// Every range lies inside a buffer of `n` elements.
pub open spec fn ranges_fit(ranges: Seq<(usize, usize)>, n: int) -> bool {
    forall|i: int| 0 <= i < ranges.len() ==> (#[trigger] ranges[i]).0 + ranges[i].1 <= n
}

/// No two ranges overlap.
pub open spec fn ranges_disjoint(ranges: Seq<(usize, usize)>) -> bool {
    forall|i: int, j: int|
        0 <= i < ranges.len() && 0 <= j < ranges.len() && i != j ==> {
            ||| (#[trigger] ranges[i]).1 == 0
            ||| (#[trigger] ranges[j]).1 == 0
            ||| ranges[i].0 + ranges[i].1 <= ranges[j].0
            ||| ranges[j].0 + ranges[j].1 <= ranges[i].0
        }
}

/// Position `p` lies in a range.
pub open spec fn covered(ranges: Seq<(usize, usize)>, p: int) -> bool {
    exists|i: int|
        0 <= i < ranges.len() && (#[trigger] ranges[i]).0 <= p < ranges[i].0 + ranges[i].1
}

/// How many of these are not set.
spec fn open_count(placed: Seq<bool>) -> nat
    decreases placed.len(),
{
    if placed.len() == 0 {
        0
    } else {
        open_count(placed.drop_last()) + if placed.last() {
            0nat
        } else {
            1nat
        }
    }
}

/// Setting one lowers the number that are not.
proof fn lemma_open_count(placed: Seq<bool>, i: int)
    requires
        0 <= i < placed.len(),
        !placed[i],
    ensures
        open_count(placed.update(i, true)) < open_count(placed),
    decreases placed.len(),
{
    let set = placed.update(i, true);
    if i == placed.len() - 1 {
        assert(set.drop_last() =~= placed.drop_last());
    } else {
        assert(set.drop_last() =~= placed.drop_last().update(i, true));
        lemma_open_count(placed.drop_last(), i);
    }
}

/// A range that is still to be cut out, if there is one: an empty one, or the
/// one that starts first.
fn next_range(ranges: &[(usize, usize)], placed: &Vec<bool>) -> (r: Option<usize>)
    requires
        placed@.len() == ranges@.len(),
    ensures
        match r {
            Some(i) => {
                &&& i < placed@.len()
                &&& !placed@[i as int]
                &&& ranges@[i as int].1 == 0 || forall|j: int|
                    0 <= j < placed@.len() && !(#[trigger] placed@[j]) && ranges@[j].1 > 0
                        ==> ranges@[i as int].0 <= ranges@[j].0
            },
            None => forall|j: int| 0 <= j < placed@.len() ==> #[trigger] placed@[j],
        },
{
    let mut best: Option<usize> = None;
    let mut j: usize = 0;
    while j < placed.len()
        invariant
            placed@.len() == ranges@.len(),
            j <= placed@.len(),
            match best {
                Some(b) => {
                    &&& b < placed@.len()
                    &&& !placed@[b as int]
                    &&& ranges@[b as int].1 == 0 || forall|k: int|
                        0 <= k < j && !(#[trigger] placed@[k]) && ranges@[k].1 > 0
                            ==> ranges@[b as int].0 <= ranges@[k].0
                },
                None => forall|k: int| 0 <= k < j ==> #[trigger] placed@[k],
            },
        decreases placed@.len() - j,
    {
        if !placed[j] {
            let better: bool = match best {
                Some(b) => ranges[b].1 > 0 && (ranges[j].1 == 0 || ranges[j].0 < ranges[b].0),
                None => true,
            };
            if better {
                best = Some(j);
            }
        }
        j += 1;
    }
    best
}

/// What a buffer that is being split holds in the end, given what the parts cut
/// out so far (`ends`, of the ranges `keys`) and the rest from `pos` on hold in
/// the end: if every part keeps its length, everything is at its place and the
/// gaps are as at the `start`.
spec fn holds_parts<T>(
    whole: Seq<T>,
    start: Seq<T>,
    ranges: Seq<(usize, usize)>,
    keys: Seq<int>,
    ends: Seq<Seq<T>>,
    pos: int,
    rest: Seq<T>,
) -> bool {
    (forall|q: int| 0 <= q < ends.len() ==> (#[trigger] ends[q]).len() == ranges[keys[q]].1) ==> {
        &&& whole.len() == pos + rest.len()
        &&& forall|t: int| 0 <= t < rest.len() ==> whole[pos + t] == #[trigger] rest[t]
        &&& forall|q: int, j: int|
            0 <= q < ends.len() && 0 <= j < ranges[keys[q]].1 ==> whole[ranges[keys[q]].0 + j]
                == #[trigger] ends[q][j]
        &&& forall|p: int|
            0 <= p < pos && !covered(ranges, p) ==> #[trigger] whole[p] == start[p]
    }
}

/// Cutting out one more part behind a gap.
proof fn lemma_holds_parts_step<T>(
    whole: Seq<T>,
    start: Seq<T>,
    ranges: Seq<(usize, usize)>,
    keys: Seq<int>,
    ends: Seq<Seq<T>>,
    pos: int,
    rest: Seq<T>,
    x: int,
    gap: int,
    part: Seq<T>,
    tail: Seq<T>,
)
    requires
        holds_parts(whole, start, ranges, keys, ends, pos, rest),
        keys.len() == ends.len(),
        0 <= x < ranges.len(),
        0 <= gap,
        0 <= pos,
        pos + gap <= start.len(),
        rest == start.subrange(pos, pos + gap) + (part + tail),
        ranges[x].1 > 0 ==> ranges[x].0 == pos + gap,
    ensures
        holds_parts(
            whole,
            start,
            ranges,
            keys.push(x),
            ends.push(part),
            pos + gap + ranges[x].1,
            tail,
        ),
{
    let keys1 = keys.push(x);
    let ends1 = ends.push(part);
    let len = ranges[x].1 as int;
    if forall|q: int| 0 <= q < ends1.len() ==> (#[trigger] ends1[q]).len() == ranges[keys1[q]].1 {
        assert forall|q: int| 0 <= q < ends.len() implies (#[trigger] ends[q]).len()
            == ranges[keys[q]].1 by {
            assert(ends1[q] == ends[q] && keys1[q] == keys[q]);
        }
        assert(ends1[ends.len() as int] == part && keys1[ends.len() as int] == x);
        assert(part.len() == len);
        assert forall|t: int| 0 <= t < tail.len() implies whole[pos + gap + len + t]
            == #[trigger] tail[t] by {
            assert(rest[gap + len + t] == tail[t]);
        }
        assert forall|q: int, j: int|
            0 <= q < ends1.len() && 0 <= j < ranges[keys1[q]].1 implies whole[ranges[keys1[q]].0
            + j] == #[trigger] ends1[q][j] by {
            if q < ends.len() {
                assert(ends1[q] == ends[q] && keys1[q] == keys[q]);
                assert(whole[ranges[keys[q]].0 + j] == ends[q][j]);
            } else {
                assert(rest[gap + j] == part[j]);
            }
        }
        assert forall|p: int|
            0 <= p < pos + gap + len && !covered(ranges, p) implies #[trigger] whole[p]
            == start[p] by {
            if p >= pos + gap {
                assert(ranges[x].0 <= p < ranges[x].0 + ranges[x].1);
            } else if p >= pos {
                assert(rest[p - pos] == start[p]);
            }
        }
    }
}

/// `end` is what the part of range `i` holds in the end.
spec fn is_end_of<T>(keys: Seq<int>, ends: Seq<Seq<T>>, i: int, end: Seq<T>) -> bool {
    exists|q: int| 0 <= q < keys.len() && #[trigger] keys[q] == i && ends[q] == end
}

/// With every part cut out and every part keeping its length, each range of the
/// buffer holds in the end what its part does, and the rest is as at the start.
proof fn lemma_parts_in_place<T>(
    whole: Seq<T>,
    start: Seq<T>,
    ranges: Seq<(usize, usize)>,
    keys: Seq<int>,
    ends: Seq<Seq<T>>,
    pos: int,
    finals: Seq<Seq<T>>,
)
    requires
        0 <= pos <= start.len(),
        holds_parts(
            whole,
            start,
            ranges,
            keys,
            ends,
            pos,
            start.subrange(pos, start.len() as int),
        ),
        keys.len() == ends.len(),
        finals.len() == ranges.len(),
        forall|q: int| 0 <= q < keys.len() ==> 0 <= #[trigger] keys[q] < ranges.len(),
        forall|q: int, r: int|
            0 <= q < r < keys.len() ==> #[trigger] keys[q] != #[trigger] keys[r],
        forall|i: int|
            0 <= i < finals.len() ==> is_end_of(keys, ends, i, #[trigger] finals[i]),
    ensures
        (forall|i: int| 0 <= i < finals.len() ==> (#[trigger] finals[i]).len() == ranges[i].1) ==> {
            &&& whole.len() == start.len()
            &&& forall|i: int, j: int|
                0 <= i < ranges.len() && 0 <= j < ranges[i].1 ==> whole[ranges[i].0 + j]
                    == #[trigger] finals[i][j]
            &&& forall|p: int|
                0 <= p < start.len() && !covered(ranges, p) ==> #[trigger] whole[p] == start[p]
        },
{
    if exists|i: int| 0 <= i < finals.len() && (#[trigger] finals[i]).len() != ranges[i].1 {
        return;
    }
    let rest = start.subrange(pos, start.len() as int);
    assert forall|q: int| 0 <= q < ends.len() implies (#[trigger] ends[q]).len()
        == ranges[keys[q]].1 by {
        let i = keys[q];
        assert(is_end_of(keys, ends, i, finals[i]));
    }
    assert forall|i: int, j: int| 0 <= i < ranges.len() && 0 <= j < ranges[i].1 implies whole[
    ranges[i].0 + j] == #[trigger] finals[i][j] by {
        assert(is_end_of(keys, ends, i, finals[i]));
        let q = choose|q: int|
            0 <= q < keys.len() && #[trigger] keys[q] == i && ends[q] == finals[i];
        assert(whole[ranges[keys[q]].0 + j] == ends[q][j]);
    }
    assert forall|p: int| 0 <= p < start.len() && !covered(ranges, p) implies #[trigger] whole[p]
        == start[p] by {
        if p >= pos {
            assert(whole[pos + (p - pos)] == rest[p - pos]);
        }
    }
}

/// Where the part of range `i` is.
fn find_piece<T>(pieces: &Vec<(usize, &mut [T])>, i: usize) -> (s: usize)
    requires
        exists|s: int| 0 <= s < pieces@.len() && (#[trigger] pieces@[s]).0 == i,
    ensures
        s < pieces@.len(),
        pieces@[s as int].0 == i,
{
    let total: usize = pieces.len();
    let mut s: usize = 0;
    while pieces[s].0 != i
        invariant
            s < pieces@.len() == total,
            exists|r: int| s <= r < pieces@.len() && (#[trigger] pieces@[r]).0 == i,
        decreases pieces@.len() - s,
    {
        s += 1;
    }
    s
}

/// Split `buf` into the parts that `ranges` describe by start and length. What
/// is written to the parts is written to the buffer, and the rest of it stays.
pub fn split_disjoint_mut<'a, T>(buf: &'a mut [T], ranges: &[(usize, usize)]) -> (parts: Vec<
    &'a mut [T],
>)
    requires
        ranges_fit(ranges@, old(buf)@.len() as int),
        ranges_disjoint(ranges@),
    ensures
        parts@.len() == ranges@.len(),
        forall|i: int|
            0 <= i < ranges@.len() ==> #[trigger] parts@[i]@ == model::piece(
                old(buf)@,
                ranges@[i].0 as int,
                ranges@[i].1 as int,
            ),
        (forall|i: int|
            0 <= i < ranges@.len() ==> #[trigger] final(parts@[i])@.len() == ranges@[i].1) ==> {
            &&& final(buf)@.len() == old(buf)@.len()
            &&& forall|i: int, j: int|
                0 <= i < ranges@.len() && 0 <= j < ranges@[i].1 ==> final(buf)@[ranges@[i].0 + j]
                    == #[trigger] final(parts@[i])@[j]
            &&& forall|p: int|
                0 <= p < old(buf)@.len() && !covered(ranges@, p) ==> #[trigger] final(buf)@[p]
                    == old(buf)@[p]
        },
{
    let ghost start = buf@;
    let ghost whole = final(buf)@;
    let m: usize = ranges.len();
    let n: usize = buf.len();
    let mut placed: Vec<bool> = Vec::new();
    while placed.len() < m
        invariant
            placed@.len() <= m,
            forall|j: int| 0 <= j < placed@.len() ==> !(#[trigger] placed@[j]),
        decreases m - placed@.len(),
    {
        placed.push(false);
    }
    let mut pieces: Vec<(usize, &'a mut [T])> = Vec::new();
    let mut rest: &'a mut [T] = buf;
    let mut pos: usize = 0;
    let ghost mut keys: Seq<int> = Seq::empty();
    assert(rest@ =~= start.subrange(0, n as int));
    loop
        invariant
            m == ranges@.len(),
            n == start.len(),
            ranges_fit(ranges@, n as int),
            ranges_disjoint(ranges@),
            placed@.len() == m,
            pos <= n,
            rest@ == start.subrange(pos as int, n as int),
            keys.len() == pieces@.len(),
            forall|q: int| 0 <= q < pieces@.len() ==> (#[trigger] pieces@[q]).0 == keys[q],
            forall|q: int| 0 <= q < keys.len() ==> 0 <= #[trigger] keys[q] < m && placed@[keys[q]],
            forall|q: int, r: int|
                0 <= q < r < keys.len() ==> #[trigger] keys[q] != #[trigger] keys[r],
            forall|j: int| 0 <= j < m && #[trigger] placed@[j] ==> keys.contains(j),
            forall|q: int|
                0 <= q < pieces@.len() ==> (#[trigger] pieces@[q]).1@ == model::piece(
                    start,
                    ranges@[keys[q]].0 as int,
                    ranges@[keys[q]].1 as int,
                ),
            forall|j: int|
                0 <= j < m && ranges@[j].1 > 0 ==> if #[trigger] placed@[j] {
                    ranges@[j].0 + ranges@[j].1 <= pos
                } else {
                    pos <= ranges@[j].0
                },
            holds_parts(
                whole,
                start,
                ranges@,
                keys,
                Seq::new(pieces@.len(), |q: int| final(pieces@[q].1)@),
                pos as int,
                final(rest)@,
            ),
        ensures
            forall|j: int| 0 <= j < m ==> #[trigger] placed@[j],
        decreases open_count(placed@),
    {
        let x: usize = match next_range(ranges, &placed) {
            Some(x) => x,
            None => break,
        };
        let (at, len) = ranges[x];
        let gap: usize = if len == 0 {
            0
        } else {
            at - pos
        };
        let ghost end_before = final(rest)@;
        let ghost ends = Seq::new(pieces@.len(), |q: int| final(pieces@[q].1)@);
        let (between, tail) = rest.split_at_mut(gap);
        let (part, tail) = tail.split_at_mut(len);
        proof {
            assert(between@ =~= start.subrange(pos as int, pos + gap));
            assert(part@ =~= model::piece(start, at as int, len as int));
            lemma_holds_parts_step(
                whole,
                start,
                ranges@,
                keys,
                ends,
                pos as int,
                end_before,
                x as int,
                gap as int,
                final(part)@,
                final(tail)@,
            );
            assert(keys.push(x as int)[keys.len() as int] == x);
            assert forall|j: int| keys.contains(j) implies keys.push(x as int).contains(j) by {
                let q = choose|q: int| 0 <= q < keys.len() && keys[q] == j;
                assert(keys.push(x as int)[q] == j);
            }
            keys = keys.push(x as int);
            lemma_open_count(placed@, x as int);
        }
        let ghost ends = ends.push(final(part)@);
        pieces.push((x, part));
        assert(Seq::new(pieces@.len(), |q: int| final(pieces@[q].1)@) =~= ends);
        rest = tail;
        pos = pos + gap + len;
        placed.set(x, true);
    }
    let ghost ends = Seq::new(pieces@.len(), |q: int| final(pieces@[q].1)@);
    assert(holds_parts(
        whole,
        start,
        ranges@,
        keys,
        ends,
        pos as int,
        start.subrange(pos as int, n as int),
    ));
    proof {
        assert forall|j: int| 0 <= j < m implies #[trigger] keys.contains(j) by {
            assert(placed@[j]);
        }
    }
    let ghost mut left = keys;
    let mut parts: Vec<&'a mut [T]> = Vec::new();
    while parts.len() < m
        invariant
            m == ranges@.len(),
            parts@.len() <= m,
            keys.len() == ends.len(),
            forall|j: int| 0 <= j < m ==> #[trigger] keys.contains(j),
            forall|q: int| 0 <= q < keys.len() ==> 0 <= #[trigger] keys[q] < m,
            forall|q: int, r: int|
                0 <= q < r < keys.len() ==> #[trigger] keys[q] != #[trigger] keys[r],
            forall|i: int|
                0 <= i < parts@.len() ==> #[trigger] parts@[i]@ == model::piece(
                    start,
                    ranges@[i].0 as int,
                    ranges@[i].1 as int,
                ),
            forall|i: int|
                0 <= i < parts@.len() ==> is_end_of(keys, ends, i, #[trigger] final(parts@[i])@),
            forall|s: int|
                0 <= s < pieces@.len() ==> (#[trigger] pieces@[s]).1@ == model::piece(
                    start,
                    ranges@[pieces@[s].0 as int].0 as int,
                    ranges@[pieces@[s].0 as int].1 as int,
                ),
            forall|s: int|
                0 <= s < pieces@.len() ==> is_end_of(
                    keys,
                    ends,
                    (#[trigger] pieces@[s]).0 as int,
                    final(pieces@[s].1)@,
                ),
            left.len() == pieces@.len(),
            forall|s: int| 0 <= s < left.len() ==> (#[trigger] pieces@[s]).0 == left[s],
            forall|j: int| parts@.len() <= j < m ==> #[trigger] left.contains(j),
        decreases m - parts@.len(),
    {
        let i: usize = parts.len();
        proof {
            assert(left.contains(i as int));
            let s = choose|s: int| 0 <= s < left.len() && left[s] == i;
            assert(pieces@[s].0 == i);
        }
        let s: usize = find_piece(&pieces, i);
        let (_, part) = pieces.remove(s);
        parts.push(part);
        proof {
            let after = left.remove(s as int);
            assert forall|j: int| i < j < m implies #[trigger] after.contains(j) by {
                assert(left.contains(j));
                let r = choose|r: int| 0 <= r < left.len() && left[r] == j;
                let r1 = if r < s {
                    r
                } else {
                    r - 1
                };
                assert(after[r1] == j);
            }
            left = after;
        }
    }
    let ghost finals = Seq::new(m as nat, |i: int| final(parts@[i])@);
    proof {
        lemma_parts_in_place(whole, start, ranges@, keys, ends, pos as int, finals);
    }
    assert(forall|i: int| 0 <= i < m ==> #[trigger] finals[i] == final(parts@[i])@);
    assert(forall|i: int| 0 <= i < m ==> finals[i] == #[trigger] final(parts@[i])@);
    parts
}


/// Position `p` lies in the range: from its start on, as many as it is long.
pub open spec fn lies_in(range: (usize, usize), p: int) -> bool {
    range.0 <= p < range.0 + range.1
}

/// Ranges are disjoint exactly if no position lies in two of them.
pub proof fn disjoint_ranges_share_no_position(ranges: Seq<(usize, usize)>)
    ensures
        ranges_disjoint(ranges) <==> forall|i: int, j: int, p: int|
            0 <= i < ranges.len() && 0 <= j < ranges.len() && #[trigger] lies_in(ranges[i], p)
                && #[trigger] lies_in(ranges[j], p) ==> i == j,
{
    if !ranges_disjoint(ranges) {
        let (i, j) = choose|i: int, j: int|
            0 <= i < ranges.len() && 0 <= j < ranges.len() && i != j && !({
                ||| (#[trigger] ranges[i]).1 == 0
                ||| (#[trigger] ranges[j]).1 == 0
                ||| ranges[i].0 + ranges[i].1 <= ranges[j].0
                ||| ranges[j].0 + ranges[j].1 <= ranges[i].0
            });
        let p = if ranges[i].0 < ranges[j].0 {
            ranges[j].0 as int
        } else {
            ranges[i].0 as int
        };
        assert(lies_in(ranges[i], p) && lies_in(ranges[j], p));
    }
}

/// The covered positions are those of the ranges, each from its start on, as
/// many as it is long; ranges that fit leave none beyond the end.
pub proof fn covered_positions_are_the_ranges(
    ranges: Seq<(usize, usize)>,
    n: int,
    i: int,
    p: int,
)
    requires
        0 <= i < ranges.len(),
    ensures
        ranges[i].0 <= p < ranges[i].0 + ranges[i].1 ==> covered(ranges, p),
        !covered(ranges, p) ==> p < ranges[i].0 || ranges[i].0 + ranges[i].1 <= p,
        ranges_fit(ranges, n) && covered(ranges, p) ==> 0 <= p < n,
        ranges_fit(ranges, n) ==> ranges[i].0 + ranges[i].1 <= n,
        ranges.len() == 1 && ranges[i].0 + ranges[i].1 <= n ==> ranges_fit(ranges, n),
{
    assert(forall|p: int| ranges[i].0 <= p < ranges[i].0 + ranges[i].1 ==> covered(ranges, p));
}

} // verus!
