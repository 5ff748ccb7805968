//! Captured CAN frames and their grouping by identifier.
use vstd::prelude::*;

verus! {

/// One captured CAN (FD) frame. Timestamps are microseconds on the capture
/// timebase.
#[derive(Debug)]
pub struct CanFrameDto {
    pub timestamp_us: i64,
    pub channel: String,
    pub can_id: u32,
    pub is_extended: bool,
    pub is_fd: bool,
    pub brs: bool,
    pub esi: bool,
    pub dlc: u8,
    pub data: Vec<u8>,
}

/// Frames of one (CAN ID, extended) key: indices into the frame list, in
/// timestamp order (capture order among equal timestamps).
#[derive(Debug)]
pub struct IdGroup {
    pub can_id: u32,
    pub is_extended: bool,
    pub frames: Vec<usize>,
}

/// Key order of groups: by CAN ID, then standard before extended.
pub open spec fn key_lt(a: (u32, bool), b: (u32, bool)) -> bool {
    a.0 < b.0 || (a.0 == b.0 && !a.1 && b.1)
}

pub open spec fn key_of(f: CanFrameDto) -> (u32, bool) {
    (f.can_id, f.is_extended)
}

/// Frame `i` passes the optional ID filter.
pub open spec fn passes_filter(frames: Seq<CanFrameDto>, filter: Option<Seq<u32>>, i: int) -> bool {
    match filter {
        Some(ids) => ids.contains(frames[i].can_id),
        None => true,
    }
}

/// Order of frames inside a group: by timestamp, then by capture index.
pub open spec fn time_before(frames: Seq<CanFrameDto>, i: int, j: int) -> bool {
    frames[i].timestamp_us < frames[j].timestamp_us || (frames[i].timestamp_us
        == frames[j].timestamp_us && i < j)
}

/// `idx` lists exactly the frames among the first `n` of `key` that pass the
/// filter, time-ordered.
pub open spec fn group_upto(
    frames: Seq<CanFrameDto>,
    filter: Option<Seq<u32>>,
    key: (u32, bool),
    idx: Seq<usize>,
    n: int,
) -> bool {
    &&& n <= frames.len()
    &&& forall|a: int| 0 <= a < idx.len() ==> (#[trigger] idx[a]) < n
    &&& forall|a: int|
        0 <= a < idx.len() ==> key_of(frames[#[trigger] idx[a] as int]) == key && passes_filter(
            frames,
            filter,
            idx[a] as int,
        )
    &&& forall|i: int|
        0 <= i < n && key_of(#[trigger] frames[i]) == key && passes_filter(frames, filter, i)
            ==> idx.contains(i as usize)
    &&& forall|a: int, b: int|
        0 <= a < b < idx.len() ==> time_before(frames, #[trigger] idx[a] as int, #[trigger] idx[b] as int)
}

/// `idx` lists exactly the frames of `key` that pass the filter, time-ordered.
pub open spec fn is_time_ordered_group(
    frames: Seq<CanFrameDto>,
    filter: Option<Seq<u32>>,
    key: (u32, bool),
    idx: Seq<usize>,
) -> bool {
    group_upto(frames, filter, key, idx, frames.len() as int)
}

/// Groups over the first `n` frames.
pub open spec fn grouping_upto(
    frames: Seq<CanFrameDto>,
    filter: Option<Seq<u32>>,
    groups: Seq<IdGroup>,
    n: int,
) -> bool {
    &&& forall|g: int|
        0 <= g < groups.len() ==> group_upto(
            frames,
            filter,
            (groups[g].can_id, groups[g].is_extended),
            (#[trigger] groups[g]).frames@,
            n,
        ) && groups[g].frames@.len() > 0
    &&& forall|g: int, h: int|
        0 <= g < h < groups.len() ==> key_lt(
            (#[trigger] groups[g].can_id, groups[g].is_extended),
            (#[trigger] groups[h].can_id, groups[h].is_extended),
        )
    &&& forall|i: int|
        0 <= i < n && passes_filter(frames, filter, i) ==> exists|g: int|
            0 <= g < groups.len() && (groups[g].can_id, groups[g].is_extended) == key_of(
                #[trigger] frames[i],
            )
}

/// `groups` are the (CAN ID, extended) groups of the frames passing the
/// filter, in ascending key order, each time-ordered.
pub open spec fn is_grouping(
    frames: Seq<CanFrameDto>,
    filter: Option<Seq<u32>>,
    groups: Seq<IdGroup>,
) -> bool {
    grouping_upto(frames, filter, groups, frames.len() as int)
}

fn ids_contain(ids: &Vec<u32>, id: u32) -> (r: bool)
    ensures
        r == ids@.contains(id),
{
    let mut i: usize = 0;
    while i < ids.len()
        invariant
            i <= ids@.len(),
            forall|k: int| 0 <= k < i ==> ids@[k] != id,
        decreases ids.len() - i,
    {
        if ids[i] == id {
            assert(ids@[i as int] == id);
            return true;
        }
        i = i + 1;
    }
    false
}

fn filter_contains(filter: &Option<Vec<u32>>, id: u32) -> (r: bool)
    ensures
        r == match filter_view(*filter) {
            Some(ids) => ids.contains(id),
            None => true,
        },
{
    match filter {
        None => true,
        Some(ids) => ids_contain(ids, id),
    }
}

pub open spec fn filter_view(filter: Option<Vec<u32>>) -> Option<Seq<u32>> {
    match filter {
        Some(ids) => Some(ids@),
        None => None,
    }
}

/// Insert frame `i` into a time-ordered index list after every frame that is
/// not later than it.
fn insert_by_time(frames: &[CanFrameDto], list: &mut Vec<usize>, i: usize)
    requires
        i < frames@.len(),
        forall|a: int| 0 <= a < old(list)@.len() ==> (#[trigger] old(list)@[a]) < i,
        forall|a: int, b: int|
            0 <= a < b < old(list)@.len() ==> time_before(
                frames@,
                #[trigger] old(list)@[a] as int,
                #[trigger] old(list)@[b] as int,
            ),
    ensures
        final(list)@.len() == old(list)@.len() + 1,
        forall|a: int| 0 <= a < final(list)@.len() ==> (#[trigger] final(list)@[a]) <= i,
        forall|x: usize| final(list)@.contains(x) <==> (old(list)@.contains(x) || x == i),
        forall|a: int, b: int|
            0 <= a < b < final(list)@.len() ==> time_before(
                frames@,
                #[trigger] final(list)@[a] as int,
                #[trigger] final(list)@[b] as int,
            ),
{
    let t = frames[i].timestamp_us;
    let mut pos: usize = list.len();
    while pos > 0 && frames[list[pos - 1]].timestamp_us > t
        invariant
            pos <= list@.len(),
            list@ == old(list)@,
            forall|a: int| 0 <= a < list@.len() ==> (#[trigger] list@[a]) < frames@.len(),
            forall|a: int| pos <= a < list@.len() ==> frames@[(#[trigger] list@[a]) as int].timestamp_us > t,
        decreases pos,
    {
        pos = pos - 1;
    }
    let ghost before = list@;
    list.insert(pos, i);
    assert(list@ =~= before.subrange(0, pos as int).push(i) + before.subrange(pos as int, before.len() as int));
    assert forall|x: usize| list@.contains(x) <==> (before.contains(x) || x == i) by {
        if list@.contains(x) {
            let k = choose|k: int| 0 <= k < list@.len() && list@[k] == x;
            if k < pos {
                assert(before[k] == x);
            } else if k > pos {
                assert(before[k - 1] == x);
            }
        }
        if before.contains(x) {
            let k = choose|k: int| 0 <= k < before.len() && before[k] == x;
            if k < pos {
                assert(list@[k] == x);
            } else {
                assert(list@[k + 1] == x);
            }
        }
        if x == i {
            assert(list@[pos as int] == x);
        }
    }
    assert forall|a: int, b: int| 0 <= a < b < list@.len() implies time_before(
        frames@,
        #[trigger] list@[a] as int,
        #[trigger] list@[b] as int,
    ) by {
        if a < pos && b < pos {
            assert(list@[a] == before[a] && list@[b] == before[b]);
        } else if a < pos && b == pos {
            assert(list@[a] == before[a]);
            assert(before[a] < i);
            if pos > 0 && a < pos - 1 {
                assert(time_before(frames@, before[a] as int, before[pos - 1] as int));
            }
        } else if a < pos {
            assert(list@[a] == before[a] && list@[b] == before[b - 1]);
        } else if a == pos {
            assert(list@[b] == before[b - 1]);
            assert(frames@[before[b - 1] as int].timestamp_us > t);
        } else {
            assert(list@[a] == before[a - 1] && list@[b] == before[b - 1]);
        }
    }
}

proof fn lemma_extend_group(
    frames: Seq<CanFrameDto>,
    fl: Option<Seq<u32>>,
    old_groups: Seq<IdGroup>,
    groups: Seq<IdGroup>,
    g: int,
    i: int,
)
    requires
        0 <= i < frames.len(),
        i < usize::MAX,
        0 <= g < old_groups.len(),
        grouping_upto(frames, fl, old_groups, i),
        passes_filter(frames, fl, i),
        key_of(frames[i]) == (old_groups[g].can_id, old_groups[g].is_extended),
        groups.len() == old_groups.len(),
        forall|h: int| 0 <= h < groups.len() && h != g ==> groups[h] == old_groups[h],
        groups[g].can_id == old_groups[g].can_id,
        groups[g].is_extended == old_groups[g].is_extended,
        groups[g].frames@.len() == old_groups[g].frames@.len() + 1,
        forall|a: int| 0 <= a < groups[g].frames@.len() ==> (#[trigger] groups[g].frames@[a]) <= i,
        forall|x: usize|
            groups[g].frames@.contains(x) <==> (old_groups[g].frames@.contains(x) || x == i),
        forall|a: int, b: int|
            0 <= a < b < groups[g].frames@.len() ==> time_before(
                frames,
                #[trigger] groups[g].frames@[a] as int,
                #[trigger] groups[g].frames@[b] as int,
            ),
    ensures
        grouping_upto(frames, fl, groups, i + 1),
{
    assert(i < usize::MAX);
    let key = key_of(frames[i]);
    assert forall|gg: int| 0 <= gg < groups.len() implies group_upto(
        frames,
        fl,
        (groups[gg].can_id, groups[gg].is_extended),
        (#[trigger] groups[gg]).frames@,
        i + 1,
    ) && groups[gg].frames@.len() > 0 by {
        if gg == g {
            let idx = groups[g].frames@;
            let oidx = old_groups[g].frames@;
            assert(group_upto(frames, fl, key, oidx, i));
            assert forall|a: int| 0 <= a < idx.len() implies key_of(
                frames[#[trigger] idx[a] as int],
            ) == key && passes_filter(frames, fl, idx[a] as int) by {
                assert(idx.contains(idx[a]));
                if idx[a] != i {
                    assert(oidx.contains(idx[a]));
                    let k = choose|k: int| 0 <= k < oidx.len() && oidx[k] == idx[a];
                    assert(key_of(frames[oidx[k] as int]) == key);
                }
            }
            assert forall|a: int| 0 <= a < idx.len() implies (#[trigger] idx[a]) < i + 1 by {
            }
            assert forall|j: int|
                0 <= j < i + 1 && key_of(#[trigger] frames[j]) == key && passes_filter(frames, fl, j)
                    implies idx.contains(j as usize) by {
                assert(idx.contains(j as usize) <==> (oidx.contains(j as usize) || j as usize == i));
                if j < i {
                    assert(oidx.contains(j as usize));
                }
            }
        } else {
            assert(groups[gg] == old_groups[gg]);
            let idx = groups[gg].frames@;
            let kg = (groups[gg].can_id, groups[gg].is_extended);
            assert(kg != key) by {
                if gg < g {
                    assert(key_lt(kg, key));
                } else {
                    assert(key_lt(key, kg));
                }
            }
            assert forall|j: int|
                0 <= j < i + 1 && key_of(#[trigger] frames[j]) == kg && passes_filter(frames, fl, j)
                    implies idx.contains(j as usize) by {
                if j == i {
                    assert(false);
                }
            }
        }
    }
    assert forall|gi: int, h: int| 0 <= gi < h < groups.len() implies key_lt(
        (#[trigger] groups[gi].can_id, groups[gi].is_extended),
        (#[trigger] groups[h].can_id, groups[h].is_extended),
    ) by {
        assert(key_lt(
            (old_groups[gi].can_id, old_groups[gi].is_extended),
            (old_groups[h].can_id, old_groups[h].is_extended),
        ));
    }
    assert forall|j: int| 0 <= j < i + 1 && passes_filter(frames, fl, j) implies exists|gg: int|
        0 <= gg < groups.len() && (groups[gg].can_id, groups[gg].is_extended) == key_of(
            #[trigger] frames[j],
        ) by {
        if j == i {
            assert((groups[g].can_id, groups[g].is_extended) == key_of(frames[j]));
        } else {
            let gg = choose|gg: int|
                0 <= gg < old_groups.len() && (old_groups[gg].can_id, old_groups[gg].is_extended)
                    == key_of(frames[j]);
            assert((groups[gg].can_id, groups[gg].is_extended) == key_of(frames[j]));
        }
    }
}

proof fn lemma_new_group(
    frames: Seq<CanFrameDto>,
    fl: Option<Seq<u32>>,
    old_groups: Seq<IdGroup>,
    groups: Seq<IdGroup>,
    g: int,
    i: int,
)
    requires
        0 <= i < frames.len(),
        i < usize::MAX,
        0 <= g <= old_groups.len(),
        grouping_upto(frames, fl, old_groups, i),
        passes_filter(frames, fl, i),
        forall|h: int|
            0 <= h < g ==> key_lt(
                (#[trigger] old_groups[h].can_id, old_groups[h].is_extended),
                key_of(frames[i]),
            ),
        g < old_groups.len() ==> !key_lt(
            (old_groups[g].can_id, old_groups[g].is_extended),
            key_of(frames[i]),
        ) && (old_groups[g].can_id, old_groups[g].is_extended) != key_of(frames[i]),
        groups == old_groups.insert(
            g,
            IdGroup { can_id: frames[i].can_id, is_extended: frames[i].is_extended, frames: groups[g].frames },
        ),
        groups[g].frames@ == seq![i as usize],
    ensures
        grouping_upto(frames, fl, groups, i + 1),
{
    assert(i < usize::MAX);
    let key = key_of(frames[i]);
    // No old group has the new key.
    assert forall|h: int| 0 <= h < old_groups.len() implies (
        old_groups[h].can_id,
        old_groups[h].is_extended,
    ) != key by {
        if h < g {
            assert(key_lt((old_groups[h].can_id, old_groups[h].is_extended), key));
        } else if h > g {
            assert(key_lt(
                (old_groups[g].can_id, old_groups[g].is_extended),
                (old_groups[h].can_id, old_groups[h].is_extended),
            ));
        }
    }
    assert forall|gg: int| 0 <= gg < groups.len() implies group_upto(
        frames,
        fl,
        (groups[gg].can_id, groups[gg].is_extended),
        (#[trigger] groups[gg]).frames@,
        i + 1,
    ) && groups[gg].frames@.len() > 0 by {
        if gg == g {
            let idx = groups[g].frames@;
            assert(groups[g].can_id == frames[i].can_id);
            assert(groups[g].is_extended == frames[i].is_extended);
            assert(idx.len() == 1 && idx[0] == i);
            assert(key_of(frames[idx[0] as int]) == key);
            assert forall|j: int|
                0 <= j < i + 1 && key_of(#[trigger] frames[j]) == key && passes_filter(frames, fl, j)
                    implies idx.contains(j as usize) by {
                if j < i {
                    let h = choose|h: int|
                        0 <= h < old_groups.len() && (old_groups[h].can_id, old_groups[h].is_extended)
                            == key_of(frames[j]);
                    assert(false);
                } else {
                    assert(idx[0] == j as usize);
                }
            }
        } else {
            let h = if gg < g {
                gg
            } else {
                gg - 1
            };
            assert(groups[gg] == old_groups[h]);
            let idx = groups[gg].frames@;
            let kg = (groups[gg].can_id, groups[gg].is_extended);
            assert(kg != key);
            assert forall|j: int|
                0 <= j < i + 1 && key_of(#[trigger] frames[j]) == kg && passes_filter(frames, fl, j)
                    implies idx.contains(j as usize) by {
                if j == i {
                    assert(false);
                }
            }
        }
    }
    assert forall|gi: int, h: int| 0 <= gi < h < groups.len() implies key_lt(
        (#[trigger] groups[gi].can_id, groups[gi].is_extended),
        (#[trigger] groups[h].can_id, groups[h].is_extended),
    ) by {
        if gi < g && h < g {
            assert(key_lt(
                (old_groups[gi].can_id, old_groups[gi].is_extended),
                (old_groups[h].can_id, old_groups[h].is_extended),
            ));
        } else if gi < g && h == g {
        } else if gi < g {
            assert(groups[h] == old_groups[h - 1]);
            if h - 1 > g {
                assert(key_lt(
                    (old_groups[g].can_id, old_groups[g].is_extended),
                    (old_groups[h - 1].can_id, old_groups[h - 1].is_extended),
                ));
            }
            assert(key_lt(
                (old_groups[gi].can_id, old_groups[gi].is_extended),
                (old_groups[h - 1].can_id, old_groups[h - 1].is_extended),
            ));
        } else if gi == g {
            assert(groups[h] == old_groups[h - 1]);
            if h - 1 > g {
                assert(key_lt(
                    (old_groups[g].can_id, old_groups[g].is_extended),
                    (old_groups[h - 1].can_id, old_groups[h - 1].is_extended),
                ));
            }
        } else {
            assert(groups[gi] == old_groups[gi - 1]);
            assert(groups[h] == old_groups[h - 1]);
            assert(key_lt(
                (old_groups[gi - 1].can_id, old_groups[gi - 1].is_extended),
                (old_groups[h - 1].can_id, old_groups[h - 1].is_extended),
            ));
        }
    }
    assert forall|j: int| 0 <= j < i + 1 && passes_filter(frames, fl, j) implies exists|gg: int|
        0 <= gg < groups.len() && (groups[gg].can_id, groups[gg].is_extended) == key_of(
            #[trigger] frames[j],
        ) by {
        if j == i {
            assert((groups[g].can_id, groups[g].is_extended) == key_of(frames[j]));
        } else {
            let h = choose|h: int|
                0 <= h < old_groups.len() && (old_groups[h].can_id, old_groups[h].is_extended)
                    == key_of(frames[j]);
            if h < g {
                assert(groups[h] == old_groups[h]);
                assert((groups[h].can_id, groups[h].is_extended) == key_of(frames[j]));
            } else {
                assert(groups[h + 1] == old_groups[h]);
                assert((groups[h + 1].can_id, groups[h + 1].is_extended) == key_of(frames[j]));
            }
        }
    }
}

/// Two sequences, each strictly ordered by the strict total order `lt`, that
/// hold the same elements are equal.
pub proof fn lemma_strictly_sorted_unique<A>(x: Seq<A>, y: Seq<A>, lt: spec_fn(A, A) -> bool)
    requires
        forall|a: int, b: int| 0 <= a < b < x.len() ==> lt(#[trigger] x[a], #[trigger] x[b]),
        forall|a: int, b: int| 0 <= a < b < y.len() ==> lt(#[trigger] y[a], #[trigger] y[b]),
        forall|p: A| !(#[trigger] lt(p, p)),
        forall|p: A, q: A, r: A| #[trigger] lt(p, q) && #[trigger] lt(q, r) ==> lt(p, r),
        forall|p: A, q: A| p != q ==> #[trigger] lt(p, q) || lt(q, p),
        forall|e: A| x.contains(e) <==> y.contains(e),
    ensures
        x == y,
    decreases x.len(),
{
    if x.len() == 0 {
        if y.len() > 0 {
            assert(y.contains(y[0]));
        }
        assert(x =~= y);
    } else if y.len() == 0 {
        assert(x.contains(x[0]));
    } else {
        assert(x.contains(x[0]));
        assert(y.contains(y[0]));
        let i = choose|i: int| 0 <= i < x.len() && x[i] == y[0];
        let j = choose|j: int| 0 <= j < y.len() && y[j] == x[0];
        if x[0] != y[0] {
            assert(i > 0 && j > 0);
            assert(lt(x[0], x[i]));
            assert(lt(y[0], y[j]));
            assert(lt(x[0], x[0]));
        }
        let xs = x.drop_first();
        let ys = y.drop_first();
        assert forall|e: A| xs.contains(e) <==> ys.contains(e) by {
            if xs.contains(e) {
                let k = choose|k: int| 0 <= k < xs.len() && xs[k] == e;
                assert(x[k + 1] == e);
                assert(x.contains(e));
                let m = choose|m: int| 0 <= m < y.len() && y[m] == e;
                if m == 0 {
                    assert(lt(x[0], x[k + 1]));
                    assert(lt(e, e));
                }
                assert(ys[m - 1] == e);
            }
            if ys.contains(e) {
                let k = choose|k: int| 0 <= k < ys.len() && ys[k] == e;
                assert(y[k + 1] == e);
                assert(y.contains(e));
                let m = choose|m: int| 0 <= m < x.len() && x[m] == e;
                if m == 0 {
                    assert(lt(y[0], y[k + 1]));
                    assert(lt(e, e));
                }
                assert(xs[m - 1] == e);
            }
        }
        assert forall|a: int, b: int| 0 <= a < b < xs.len() implies lt(#[trigger] xs[a], #[trigger] xs[b]) by {
            assert(xs[a] == x[a + 1] && xs[b] == x[b + 1]);
        }
        assert forall|a: int, b: int| 0 <= a < b < ys.len() implies lt(#[trigger] ys[a], #[trigger] ys[b]) by {
            assert(ys[a] == y[a + 1] && ys[b] == y[b + 1]);
        }
        lemma_strictly_sorted_unique(xs, ys, lt);
        assert(x.len() == y.len());
        assert forall|k: int| 0 <= k < x.len() implies x[k] == y[k] by {
            if k > 0 {
                assert(x[k] == xs[k - 1]);
                assert(y[k] == ys[k - 1]);
            }
        }
        assert(x =~= y);
    }
}

/// The time-ordered index list of the frames of `key`.
pub open spec fn group_of(frames: Seq<CanFrameDto>, key: (u32, bool)) -> Seq<usize> {
    choose|idx: Seq<usize>| is_time_ordered_group(frames, None, key, idx)
}

/// A time-ordered group is unique: it is `group_of`.
pub proof fn lemma_group_of(frames: Seq<CanFrameDto>, key: (u32, bool), idx: Seq<usize>)
    requires
        is_time_ordered_group(frames, None, key, idx),
    ensures
        group_of(frames, key) == idx,
{
    let other = group_of(frames, key);
    assert(is_time_ordered_group(frames, None, key, other));
    let lt = |p: usize, q: usize| time_before(frames, p as int, q as int);
    assert forall|e: usize| other.contains(e) <==> idx.contains(e) by {
        if other.contains(e) {
            let k = choose|k: int| 0 <= k < other.len() && other[k] == e;
            assert(key_of(frames[other[k] as int]) == key);
        }
        if idx.contains(e) {
            let k = choose|k: int| 0 <= k < idx.len() && idx[k] == e;
            assert(key_of(frames[idx[k] as int]) == key);
        }
    }
    assert forall|a: int, b: int| 0 <= a < b < other.len() implies lt(#[trigger] other[a], #[trigger] other[b]) by {
        assert(time_before(frames, other[a] as int, other[b] as int));
    }
    assert forall|a: int, b: int| 0 <= a < b < idx.len() implies lt(#[trigger] idx[a], #[trigger] idx[b]) by {
        assert(time_before(frames, idx[a] as int, idx[b] as int));
    }
    lemma_strictly_sorted_unique(other, idx, lt);
}

fn key_less(a_id: u32, a_ext: bool, b_id: u32, b_ext: bool) -> (r: bool)
    ensures
        r == key_lt((a_id, a_ext), (b_id, b_ext)),
{
    a_id < b_id || (a_id == b_id && !a_ext && b_ext)
}

/// Group frames by (CAN ID, extended flag), in ascending key order, each group
/// sorted by timestamp (capture order among equal timestamps).
pub fn group_by_id(frames: &[CanFrameDto], id_filter: &Option<Vec<u32>>) -> (groups: Vec<IdGroup>)
    ensures
        is_grouping(frames@, filter_view(*id_filter), groups@),
{
    let ghost fl = filter_view(*id_filter);
    let mut groups: Vec<IdGroup> = Vec::new();
    let mut i: usize = 0;
    while i < frames.len()
        invariant
            fl == filter_view(*id_filter),
            i <= frames@.len(),
            grouping_upto(frames@, fl, groups@, i as int),
        decreases frames.len() - i,
    {
        let frame = &frames[i];
        if filter_contains(id_filter, frame.can_id) {
            let id = frame.can_id;
            let ext = frame.is_extended;
            // Position of the first group whose key is not below the frame's key.
            let mut g: usize = 0;
            while g < groups.len() && key_less(groups[g].can_id, groups[g].is_extended, id, ext)
                invariant
                    g <= groups@.len(),
                    forall|h: int|
                        0 <= h < g ==> key_lt(
                            (#[trigger] groups@[h].can_id, groups@[h].is_extended),
                            (id, ext),
                        ),
                decreases groups.len() - g,
            {
                g = g + 1;
            }
            let ghost old_groups = groups@;
            if g < groups.len() && groups[g].can_id == id && groups[g].is_extended == ext {
                let mut list = Vec::new();
                std::mem::swap(&mut list, &mut groups[g].frames);
                assert(list@ == old_groups[g as int].frames@);
                assert(group_upto(frames@, fl, (id, ext), list@, i as int));
                insert_by_time(frames, &mut list, i);
                groups[g].frames = list;
                proof {
                    lemma_extend_group(frames@, fl, old_groups, groups@, g as int, i as int);
                }
            } else {
                let mut list: Vec<usize> = Vec::new();
                list.push(i);
                groups.insert(g, IdGroup { can_id: id, is_extended: ext, frames: list });
                proof {
                    lemma_new_group(frames@, fl, old_groups, groups@, g as int, i as int);
                }
            }
        } else {
            proof {
                assert forall|gg: int| 0 <= gg < groups@.len() implies group_upto(
                    frames@,
                    fl,
                    (groups@[gg].can_id, groups@[gg].is_extended),
                    (#[trigger] groups@[gg]).frames@,
                    i + 1,
                ) by {
                    let idx = groups@[gg].frames@;
                    assert forall|j: int|
                        0 <= j < i + 1 && key_of(#[trigger] frames@[j]) == (
                            groups@[gg].can_id,
                            groups@[gg].is_extended,
                        ) && passes_filter(frames@, fl, j) implies idx.contains(j as usize) by {
                        if j == i {
                            assert(!passes_filter(frames@, fl, j));
                        }
                    }
                }
            }
        }
        i = i + 1;
    }
    assert(grouping_upto(frames@, fl, groups@, frames@.len() as int));
    groups
}

} // verus!
