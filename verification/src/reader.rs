use vstd::prelude::*;

use crate::error::ReadError;
use crate::extent::{covered_by_clean_extent, wf_extents, Extent};
use crate::options::Options;

verus! {

/// Whether a read of `[cursor, end)` may be satisfied by the ordinary
/// file-read path given the extents `s`: walking the extents in order,
/// every byte up to `end` must be backed without a gap, and no extent on
/// the way may be unwritten, unknown, or delayed-allocated.
pub open spec fn fallback_eligible_from(s: Seq<Extent>, cursor: int, end: int) -> bool
    decreases s.len(),
{
    if s.len() == 0 {
        false
    } else {
        let e = s[0];
        if e.logical > cursor {
            false
        } else if !e.flags.clean() {
            false
        } else if e.end() >= end {
            true
        } else {
            fallback_eligible_from(s.drop_first(), e.end(), end)
        }
    }
}

/// Fallback eligibility for the range `[offset, offset + length)`.
pub open spec fn fallback_eligible(s: Seq<Extent>, offset: int, length: int) -> bool {
    fallback_eligible_from(s, offset, offset + length)
}

/// Decide whether the ordinary file-read path is safe for
/// `[offset, offset + length)`: safe exactly when the extents cover the
/// whole range with no gap and no unwritten, unknown, or
/// delayed-allocation flag anywhere on the way.
pub fn can_use_fallback(extents: &Vec<Extent>, offset: u64, length: u64) -> (r: bool)
    requires
        offset + length <= u64::MAX,
        forall|i: int| 0 <= i < extents@.len() ==> (#[trigger] extents@[i]).no_overflow(),
    ensures
        r == fallback_eligible(extents@, offset as int, length as int),
{
    let end: u64 = offset + length;
    let mut current: u64 = offset;
    let mut i: usize = 0;
    proof {
        assert(extents@.skip(0) =~= extents@);
    }
    while i < extents.len()
        invariant
            0 <= i <= extents@.len(),
            end == offset + length,
            forall|j: int| 0 <= j < extents@.len() ==> (#[trigger] extents@[j]).no_overflow(),
            fallback_eligible_from(extents@, offset as int, end as int)
                == fallback_eligible_from(extents@.skip(i as int), current as int, end as int),
        decreases extents@.len() - i,
    {
        let e = extents[i];
        proof {
            assert(extents@.skip(i as int)[0] == extents@[i as int]);
        }
        if e.logical > current {
            return false;
        }
        if e.flags.is_unwritten() || e.flags.is_unknown() || e.flags.is_delalloc() {
            return false;
        }
        let extent_end: u64 = e.logical + e.length;
        if extent_end >= end {
            return true;
        }
        proof {
            assert(extents@.skip(i as int).drop_first() =~= extents@.skip(i as int + 1));
        }
        current = extent_end;
        i = i + 1;
    }
    proof {
        assert(extents@.skip(i as int).len() == 0);
    }
    false
}

/// Law: under a well-formed extent list, walking-order fallback
/// eligibility says exactly that every byte of `[offset, end)` is backed
/// by a committed, flag-free extent — eligibility holds for a gapless,
/// flag-free, fully covering list, and fails as soon as any gap or any
/// unwritten, unknown, or delayed-allocation flag touches the range.
pub proof fn lemma_fallback_eligible_iff_fully_covered(s: Seq<Extent>, offset: int, end: int)
    requires
        wf_extents(s, offset),
        offset < end,
    ensures
        fallback_eligible_from(s, offset, end) <==> (forall|p: int|
            offset <= p < end ==> covered_by_clean_extent(s, p)),
    decreases s.len(),
{
    reveal(covered_by_clean_extent);
    if s.len() == 0 {
        assert(!covered_by_clean_extent(s, offset));
    } else {
        let e = s[0];
        assert(e.end() > offset);
        assert forall|i: int| 0 < i < s.len() implies !(#[trigger] s[i]).contains(offset) by {
            assert(s[0].end() <= s[i].logical);
        }
        if e.logical > offset {
            assert(!covered_by_clean_extent(s, offset));
            assert(!(offset <= offset < end ==> covered_by_clean_extent(s, offset)));
        } else if !e.flags.clean() {
            assert forall|i: int|
                0 <= i < s.len() && (#[trigger] s[i]).contains(offset) implies !s[i].flags.clean() by {
                assert(i == 0);
            }
            assert(!covered_by_clean_extent(s, offset));
        } else if e.end() >= end {
            assert forall|p: int| offset <= p < end implies covered_by_clean_extent(s, p) by {
                assert(e.contains(p) && e.flags.clean());
            }
        } else {
            let s2 = s.drop_first();
            let c2 = e.end();
            assert forall|i: int| 0 <= i < s2.len() implies #[trigger] s2[i] == s[i + 1] by {}
            assert(wf_extents(s2, c2)) by {
                assert forall|i: int| 0 <= i < s2.len() implies (#[trigger] s2[i]).end() > c2 by {
                    assert(s2[i] == s[i + 1]);
                    assert(s[0].end() <= s[i + 1].logical);
                    assert(s[i + 1].length > 0);
                }
                assert forall|i: int, j: int| 0 <= i < j < s2.len() implies (#[trigger] s2[i]).end()
                    <= (#[trigger] s2[j]).logical by {
                    assert(s2[i] == s[i + 1] && s2[j] == s[j + 1]);
                    assert(s[i + 1].end() <= s[j + 1].logical);
                }
            }
            lemma_fallback_eligible_iff_fully_covered(s2, c2, end);
            if fallback_eligible_from(s, offset, end) {
                assert(fallback_eligible_from(s2, c2, end));
                assert forall|p: int| offset <= p < end implies covered_by_clean_extent(s, p) by {
                    if p < c2 {
                        assert(e.contains(p) && e.flags.clean());
                    } else {
                        assert(covered_by_clean_extent(s2, p));
                        let i = choose|i: int|
                            0 <= i < s2.len() && (#[trigger] s2[i]).contains(p)
                                && s2[i].flags.clean();
                        assert(s[i + 1].contains(p) && s[i + 1].flags.clean());
                    }
                }
            } else {
                assert(!fallback_eligible_from(s2, c2, end));
                let q = choose|p: int| c2 <= p < end && !covered_by_clean_extent(s2, p);
                assert(c2 <= q < end);
                assert(!covered_by_clean_extent(s, q)) by {
                    assert forall|i: int|
                        0 <= i < s.len() && (#[trigger] s[i]).contains(q) implies !s[i].flags.clean() by {
                        assert(i != 0);
                        assert(s2[i - 1] == s[i]);
                        assert(!(s2[i - 1].contains(q) && s2[i - 1].flags.clean()));
                    }
                }
            }
        }
    }
}

/// How a read for `[offset, offset + length)` proceeds once the extents
/// are known: no extents at all is an `UnexpectedEof`; otherwise the
/// ordinary file-read path is taken exactly when it is permitted and safe;
/// otherwise the block device is read.
#[derive(Clone, Copy, Debug, PartialEq, Eq, Structural)]
pub enum Route {
    /// The range has no allocated data: the read fails with
    /// `ReadError::UnexpectedEof`.
    UnexpectedEof,
    /// Read through the ordinary file-read path.
    Fallback,
    /// Read from the block device, extent by extent.
    Direct,
}

/// Decide the path for a non-empty requested range.
pub fn route_read(extents: &Vec<Extent>, offset: u64, length: u64, options: &Options) -> (r: Route)
    requires
        length > 0,
        offset + length <= u64::MAX,
        forall|i: int| 0 <= i < extents@.len() ==> (#[trigger] extents@[i]).no_overflow(),
    ensures
        (r == Route::UnexpectedEof) <==> extents@.len() == 0,
        (r == Route::Fallback) <==> (extents@.len() > 0 && options.allow_fallback
            && fallback_eligible(extents@, offset as int, length as int)),
        (r == Route::Direct) <==> (extents@.len() > 0 && !(options.allow_fallback
            && fallback_eligible(extents@, offset as int, length as int))),
    {
    if extents.len() == 0 {
        Route::UnexpectedEof
    } else if options.allow_fallback && can_use_fallback(extents, offset, length) {
        Route::Fallback
    } else {
        Route::Direct
    }
}

/// How many bytes the extent walk starting at extent `j` with the cursor
/// at `cursor` produces for the range ending at `end`, assuming every
/// device read answers with its full requested length.  A hole, an
/// unknown extent, or a delayed-allocation extent under a disabled
/// `fill_holes`, and an unwritten extent under a disabled
/// `zero_unwritten`, stop the walk early; with the policies enabled those
/// regions are zero-filled, and a trailing uncovered region is
/// zero-filled under `fill_holes`.
#[verifier::opaque]
pub open spec fn planned_from(
    s: Seq<Extent>,
    j: int,
    cursor: int,
    end: int,
    fill_holes: bool,
    zero_unwritten: bool,
) -> int
    decreases s.len() - j,
{
    if cursor >= end {
        0
    } else if !(0 <= j < s.len()) {
        if fill_holes {
            end - cursor
        } else {
            0
        }
    } else {
        let e = s[j];
        if e.logical > cursor && !fill_holes {
            0
        } else if e.logical >= end {
            end - cursor
        } else {
            let hole = if e.logical > cursor {
                e.logical - cursor
            } else {
                0
            };
            let start = if e.logical > cursor {
                e.logical as int
            } else {
                cursor
            };
            let eend = if e.end() < end {
                e.end()
            } else {
                end
            };
            if e.flags.unwritten && !zero_unwritten {
                hole
            } else if !e.flags.unwritten && (e.flags.unknown || e.flags.delalloc) && !fill_holes {
                hole
            } else {
                hole + (eend - start) + planned_from(s, j + 1, eend, end, fill_holes, zero_unwritten)
            }
        }
    }
}

/// Set `buf[start .. start + count]` to zero and leave every other byte
/// unchanged.
pub fn zero_fill(buf: &mut Vec<u8>, start: usize, count: usize)
    requires
        start + count <= old(buf)@.len(),
    ensures
        final(buf)@.len() == old(buf)@.len(),
        forall|k: int| start <= k < start + count ==> final(buf)@[k] == 0,
        forall|k: int|
            0 <= k < old(buf)@.len() && !(start <= k < start + count) ==> final(buf)@[k] == old(
                buf,
            )@[k],
{
    let n: usize = buf.len();
    let mut j: usize = 0;
    while j < count
        invariant
            n == buf@.len(),
            start + count <= buf@.len(),
            buf@.len() == old(buf)@.len(),
            0 <= j <= count,
            forall|k: int| start <= k < start + j ==> buf@[k] == 0,
            forall|k: int|
                0 <= k < buf@.len() && !(start <= k < start + j) ==> buf@[k] == old(buf)@[k],
        decreases count - j,
    {
        buf[start + j] = 0;
        j = j + 1;
    }
}

/// Copy `data[0 .. count]` to `buf[start .. start + count]` and leave
/// every other byte unchanged.
pub fn copy_into(buf: &mut Vec<u8>, start: usize, data: &Vec<u8>, count: usize)
    requires
        count <= data@.len(),
        start + count <= old(buf)@.len(),
    ensures
        final(buf)@.len() == old(buf)@.len(),
        forall|k: int| 0 <= k < count ==> final(buf)@[start + k] == data@[k],
        forall|k: int|
            0 <= k < old(buf)@.len() && !(start <= k < start + count) ==> final(buf)@[k] == old(
                buf,
            )@[k],
{
    let n: usize = buf.len();
    let mut j: usize = 0;
    while j < count
        invariant
            n == buf@.len(),
            count <= data@.len(),
            start + count <= buf@.len(),
            buf@.len() == old(buf)@.len(),
            0 <= j <= count,
            forall|k: int| 0 <= k < j ==> buf@[start + k] == data@[k],
            forall|k: int|
                0 <= k < buf@.len() && !(start <= k < start + j) ==> buf@[k] == old(buf)@[k],
        decreases count - j,
    {
        buf[start + j] = data[j];
        j = j + 1;
    }
}

/// The logical position where the walk starts reading extent `e` for a
/// request beginning at `offset`: the later of the two.
pub open spec fn segment_start(e: Extent, offset: int) -> int {
    if e.logical > offset {
        e.logical as int
    } else {
        offset
    }
}

/// One past the last logical position the walk reads from extent `e` for
/// a request ending at `end`: the earlier of the two.
pub open spec fn segment_end(e: Extent, end: int) -> int {
    if e.end() < end {
        e.end()
    } else {
        end
    }
}

/// What the engine promises of the bytes it produced over the committed
/// extent `e`: an answer that `device` can give for exactly the extent's
/// lawful physical offset and segment length backs them byte for byte, as
/// far as that answer reaches.
#[verifier::opaque]
pub open spec fn segment_matches_device<F: Fn(u64, usize) -> Result<Vec<u8>, ReadError>>(
    device: F,
    e: Extent,
    offset: int,
    end: int,
    b: Seq<u8>,
) -> bool {
    let start = segment_start(e, offset);
    let seglen = segment_end(e, end) - start;
    exists|d: Vec<u8>|
        #[trigger] call_ensures(
            device,
            (((e.physical + (start - e.logical)) as u64), (seglen as usize)),
            Ok(d),
        ) && forall|m: int| 0 <= m < seglen && m < d@.len() ==> b[start - offset + m] == d@[m]
}

/// The promises of `segment_matches_device` survive any write that stays
/// at or beyond position `cut`, as long as every promised segment ends
/// before `cut`.
proof fn lemma_segment_promises_stable<F: Fn(u64, usize) -> Result<Vec<u8>, ReadError>>(
    device: F,
    s: Seq<Extent>,
    upto: int,
    offset: int,
    end: int,
    b1: Seq<u8>,
    b2: Seq<u8>,
    cut: int,
)
    requires
        forall|j: int|
            0 <= j < upto && (#[trigger] s[j]).flags.clean() ==> segment_matches_device(
                device,
                s[j],
                offset,
                end,
                b1,
            ),
        b2.len() == b1.len(),
        forall|k: int| 0 <= k < cut ==> b2[k] == b1[k],
        forall|j: int| 0 <= j < upto ==> segment_end(#[trigger] s[j], end) - offset <= cut,
    ensures
        forall|j: int|
            0 <= j < upto && (#[trigger] s[j]).flags.clean() ==> segment_matches_device(
                device,
                s[j],
                offset,
                end,
                b2,
            ),
{
    reveal(segment_matches_device);
    assert forall|j: int|
        0 <= j < upto && (#[trigger] s[j]).flags.clean() implies segment_matches_device(
        device,
        s[j],
        offset,
        end,
        b2,
    ) by {
        let start = segment_start(s[j], offset);
        let seglen = segment_end(s[j], end) - start;
        let d = choose|d: Vec<u8>|
            #[trigger] call_ensures(
                device,
                (((s[j].physical + (start - s[j].logical)) as u64), (seglen as usize)),
                Ok(d),
            ) && forall|m: int| 0 <= m < seglen && m < d@.len() ==> b1[start - offset + m] == d@[m];
        assert forall|m: int| 0 <= m < seglen && m < d@.len() implies b2[start - offset + m]
            == d@[m] by {
            assert(0 <= start - offset + m < cut);
            assert(b1[start - offset + m] == d@[m]);
        }
        assert(segment_matches_device(device, s[j], offset, end, b2));
    }
}

/// Extents from `ii` on contribute nothing below `bound`: any committed
/// extent whose non-empty segment ends at or before `bound` lies strictly
/// before extent `ii` in the walk order.
proof fn lemma_walk_front(s: Seq<Extent>, offset: int, end: int, ii: int, bound: int)
    requires
        wf_extents(s, offset),
        0 <= ii < s.len(),
        s[ii].flags.clean() ==> segment_start(s[ii], offset) >= bound,
        s[ii].end() >= bound,
    ensures
        forall|j: int|
            0 <= j < s.len() && (#[trigger] s[j]).flags.clean() && segment_start(s[j], offset)
                < segment_end(s[j], end) && segment_end(s[j], end) <= bound ==> j < ii,
{
    assert forall|j: int|
        0 <= j < s.len() && (#[trigger] s[j]).flags.clean() && segment_start(s[j], offset)
            < segment_end(s[j], end) && segment_end(s[j], end) <= bound implies j < ii by {
        if j > ii {
            assert(s[ii].end() <= s[j].logical);
        }
    }
}

/// Bytes copied from a device answer at an extent's lawful physical
/// offset establish that extent's promise.
proof fn lemma_segment_claim<F: Fn(u64, usize) -> Result<Vec<u8>, ReadError>>(
    device: F,
    s: Seq<Extent>,
    ii: int,
    offset: int,
    end: int,
    b: Seq<u8>,
    d: Vec<u8>,
    cnt: int,
)
    requires
        0 <= ii < s.len(),
        call_ensures(
            device,
            (
                ((s[ii].physical + (segment_start(s[ii], offset) - s[ii].logical)) as u64),
                ((segment_end(s[ii], end) - segment_start(s[ii], offset)) as usize),
            ),
            Ok(d),
        ),
        cnt == (if d@.len() < segment_end(s[ii], end) - segment_start(s[ii], offset) {
            d@.len() as int
        } else {
            segment_end(s[ii], end) - segment_start(s[ii], offset)
        }),
        forall|m: int| 0 <= m < cnt ==> b[segment_start(s[ii], offset) - offset + m] == d@[m],
    ensures
        segment_matches_device(device, s[ii], offset, end, b),
{
    reveal(segment_matches_device);
    let start = segment_start(s[ii], offset);
    let seglen = segment_end(s[ii], end) - start;
    assert forall|m: int| 0 <= m < seglen && m < d@.len() implies b[start - offset + m]
        == d@[m] by {
        assert(0 <= m < cnt);
    }
    assert(segment_matches_device(device, s[ii], offset, end, b));
}

/// Ask the device for the committed segment of extent `i` that begins at
/// `cursor`, and copy as much of the answer as was asked for into the
/// buffer at `bytes_read`.  Returns how many bytes arrived and how many
/// were wanted.
#[verifier::rlimit(100)]
fn read_committed_segment<F: Fn(u64, usize) -> Result<Vec<u8>, ReadError>>(
    buf: &mut Vec<u8>,
    offset: u64,
    end: u64,
    extents: &Vec<Extent>,
    i: usize,
    cursor: u64,
    bytes_read: usize,
    device: &F,
) -> (r: Result<(usize, usize), ReadError>)
    requires
        wf_extents(extents@, offset as int),
        end == offset + old(buf)@.len(),
        offset + old(buf)@.len() <= u64::MAX,
        forall|p: u64, l: usize| #[trigger] call_requires(*device, (p, l)),
        i < extents@.len(),
        extents@[i as int].flags.clean(),
        offset <= cursor < end,
        bytes_read == cursor - offset,
        extents@[i as int].logical <= cursor < extents@[i as int].end(),
        cursor as int == segment_start(extents@[i as int], offset as int),
    ensures
        final(buf)@.len() == old(buf)@.len(),
        match r {
            Ok((actual, want)) => {
                &&& want == segment_end(extents@[i as int], end as int) - cursor
                &&& actual <= want
                &&& bytes_read + actual <= old(buf)@.len()
                &&& forall|k: int|
                    0 <= k < old(buf)@.len() && !(bytes_read <= k < bytes_read + actual)
                        ==> final(buf)@[k] == old(buf)@[k]
                &&& forall|k: int|
                    #![trigger covered_by_clean_extent(extents@, offset + k)]
                    bytes_read <= k < bytes_read + actual ==> covered_by_clean_extent(
                        extents@,
                        offset + k,
                    )
                &&& segment_matches_device(
                    *device,
                    extents@[i as int],
                    offset as int,
                    end as int,
                    final(buf)@,
                )
                &&& (actual < want ==> exists|p: u64, l: usize, d: Vec<u8>|
                    #[trigger] call_ensures(*device, (p, l), Ok(d)) && d@.len() < l)
            },
            Err(e) => {
                &&& final(buf)@ == old(buf)@
                &&& exists|p: u64, l: usize| #[trigger] call_ensures(*device, (p, l), Err(e))
            },
        },
{
    let n: usize = buf.len();
    let e = extents[i];
    proof {
        assert(extents@[i as int].no_overflow());
    }
    let extent_end: u64 = e.logical + e.length;
    let eend: u64 = if extent_end < end {
        extent_end
    } else {
        end
    };
    proof {
        assert(n == old(buf)@.len());
        assert(eend as int == segment_end(extents@[i as int], end as int));
        assert(eend - cursor <= n);
        assert(bytes_read + (eend - cursor) <= n);
    }
    let seg: usize = (eend - cursor) as usize;
    let physical: u64 = physical_offset(&e, cursor);
    let res = (*device)(physical, seg);
    let data = match res {
        Ok(d) => d,
        Err(er) => {
            proof {
                assert(call_ensures(*device, (physical, seg), Err(er)));
            }
            return Err(er);
        },
    };
    let actual: usize = if data.len() < seg {
        data.len()
    } else {
        seg
    };
    copy_into(buf, bytes_read, &data, actual);
    proof {
        assert forall|k: int|
            #![trigger covered_by_clean_extent(extents@, offset + k)]
            bytes_read <= k < bytes_read + actual implies covered_by_clean_extent(
            extents@,
            offset + k,
        ) by {
            reveal(covered_by_clean_extent);
            assert(extents@[i as int].contains(offset + k));
        }
        assert(call_ensures(*device, (physical, seg), Ok(data)));
        assert forall|m: int| 0 <= m < actual implies buf@[cursor - offset + m] == data@[m] by {
            assert(buf@[bytes_read + m] == data@[m]);
        }
        lemma_segment_claim(
            *device,
            extents@,
            i as int,
            offset as int,
            end as int,
            buf@,
            data,
            actual as int,
        );
        if actual < seg {
            assert(call_ensures(*device, (physical, seg), Ok(data)) && data@.len() < seg);
        }
    }
    Ok((actual, seg))
}

/// Read `[offset, offset + buf.len())` from the block device according
/// to the extent list: walk the extents in ascending order, zero-fill or
/// stop at holes, unwritten, unknown, and delayed-allocation extents as
/// the options direct, and ask `device` for the bytes of each committed
/// segment at its physical offset.  A device answer shorter than
/// requested ends the walk as a successful partial read (the remainder is
/// still zero-filled under `fill_holes`); an error from `device` aborts
/// the read and is propagated verbatim.  Every produced byte that is not
/// backed by a committed, flag-free extent is zero; when the device
/// always answers in full, exactly `planned_from(..)` bytes come back and
/// every committed segment's bytes match a device answer taken at the
/// segment's physical offset.
#[verifier::rlimit(100)]
#[verifier::spinoff_prover]
pub fn read_from_device<F: Fn(u64, usize) -> Result<Vec<u8>, ReadError>>(
    buf: &mut Vec<u8>,
    offset: u64,
    extents: &Vec<Extent>,
    options: &Options,
    device: F,
) -> (r: Result<usize, ReadError>)
    requires
        wf_extents(extents@, offset as int),
        offset + old(buf)@.len() <= u64::MAX,
        forall|p: u64, l: usize| #[trigger] call_requires(device, (p, l)),
    ensures
        final(buf)@.len() == old(buf)@.len(),
        old(buf)@.len() == 0 ==> r is Ok,
        match r {
            Ok(n) => {
                &&& n <= old(buf)@.len()
                &&& (old(buf)@.len() == 0 ==> n == 0)
                &&& forall|k: int|
                    0 <= k < n && !covered_by_clean_extent(extents@, offset + k)
                        ==> final(buf)@[k] == 0
                &&& forall|k: int| n <= k < old(buf)@.len() ==> final(buf)@[k] == old(buf)@[k]
            },
            Err(e) => exists|p: u64, l: usize| #[trigger] call_ensures(device, (p, l), Err(e)),
        },
        (forall|p: u64, l: usize, e: ReadError| !(#[trigger] call_ensures(device, (p, l), Err(e))))
            ==> r is Ok,
        (forall|p: u64, l: usize, d: Vec<u8>|
            #[trigger] call_ensures(device, (p, l), Ok(d)) ==> d@.len() == l) ==> (r matches Ok(n)
            ==> n == planned_from(
            extents@,
            0,
            offset as int,
            offset + old(buf)@.len(),
            options.fill_holes,
            options.zero_unwritten,
        )),
        (forall|p: u64, l: usize, d: Vec<u8>|
            #[trigger] call_ensures(device, (p, l), Ok(d)) ==> d@.len() == l) ==> (r matches Ok(n)
            ==> forall|j: int|
            0 <= j < extents@.len() && (#[trigger] extents@[j]).flags.clean() && segment_start(
                extents@[j],
                offset as int,
            ) < segment_end(extents@[j], offset + old(buf)@.len()) && segment_end(
                extents@[j],
                offset + old(buf)@.len(),
            ) <= offset + n ==> segment_matches_device(
                device,
                extents@[j],
                offset as int,
                offset + old(buf)@.len(),
                final(buf)@,
            )),
{
    let len: usize = buf.len();
    let end: u64 = offset + (len as u64);
    let ghost total: int = planned_from(
        extents@,
        0,
        offset as int,
        end as int,
        options.fill_holes,
        options.zero_unwritten,
    );
    let mut bytes_read: usize = 0;
    let mut cursor: u64 = offset;
    let mut i: usize = 0;
    let mut short: bool = false;
    proof {
        if offset >= end {
            assert(total == 0) by {
                reveal_with_fuel(planned_from, 1);
            }
        }
    }
    while i < extents.len()
        invariant_except_break
            i == 0 ==> cursor == offset,
            i > 0 ==> cursor <= extents@[i - 1].end(),
        invariant
            len == old(buf)@.len(),
            buf@.len() == len,
            end == offset + len,
            offset + len <= u64::MAX,
            wf_extents(extents@, offset as int),
            forall|p: u64, l: usize| #[trigger] call_requires(device, (p, l)),
            total == planned_from(
                extents@,
                0,
                offset as int,
                end as int,
                options.fill_holes,
                options.zero_unwritten,
            ),
            0 <= i <= extents@.len(),
            offset <= cursor <= end,
            bytes_read == cursor - offset,
            cursor < end && i < extents@.len() ==> cursor < extents@[i as int].end(),
            forall|k: int|
                #![trigger buf@[k]]
                0 <= k < bytes_read && !covered_by_clean_extent(extents@, offset + k)
                    ==> buf@[k] == 0,
            forall|k: int| #![trigger buf@[k]] bytes_read <= k < len ==> buf@[k] == old(buf)@[k],
            !short && cursor >= end ==> total == bytes_read,
            !short && cursor < end ==> total == bytes_read + planned_from(
                extents@,
                i as int,
                cursor as int,
                end as int,
                options.fill_holes,
                options.zero_unwritten,
            ),
            short ==> exists|p: u64, l: usize, d: Vec<u8>|
                #[trigger] call_ensures(device, (p, l), Ok(d)) && d@.len() < l,
            forall|j: int|
                0 <= j < i && (#[trigger] extents@[j]).flags.clean() ==> segment_matches_device(
                    device,
                    extents@[j],
                    offset as int,
                    end as int,
                    buf@,
                ),
            forall|j: int| 0 <= j < i ==> segment_end(#[trigger] extents@[j], end as int) <= cursor,
        ensures
            cursor >= end || i >= extents@.len() || short,
            !short && i < extents@.len() ==> segment_start(extents@[i as int], offset as int)
                >= cursor && extents@[i as int].end() >= cursor,
        decreases extents@.len() - i,
    {
        if cursor >= end {
            proof {
                if i > 0 {
                    assert(extents@[i - 1].end() <= extents@[i as int].logical);
                }
            }
            break;
        }
        let ghost ii = i as int;
        let ghost c0 = cursor as int;
        let ghost b0 = bytes_read as int;
        let ghost bufhead = buf@;
        let e = extents[i];
        proof {
            assert(extents@[ii].no_overflow());
            assert(extents@[ii].end() > offset);
            assert(cursor < extents@[ii].end());
            if ii > 0 {
                assert(extents@[ii - 1].end() <= extents@[ii].logical);
                assert(extents@[0].end() <= extents@[ii].logical);
            }
        }
        let extent_end: u64 = e.logical + e.length;
        if e.logical > cursor {
            // a hole starts at the cursor
            if !options.fill_holes {
                proof {
                    assert(planned_from(
                        extents@,
                        ii,
                        c0,
                        end as int,
                        options.fill_holes,
                        options.zero_unwritten,
                    ) == 0) by {
                        reveal_with_fuel(planned_from, 1);
                    }
                    lemma_walk_front(extents@, offset as int, end as int, ii, c0);
                }
                return Ok(bytes_read);
            }
            let hole_end: u64 = if e.logical < end {
                e.logical
            } else {
                end
            };
            let hole_len: usize = (hole_end - cursor) as usize;
            proof {
                assert(hole_end - cursor <= len);
            }
            zero_fill(buf, bytes_read, hole_len);
            bytes_read = bytes_read + hole_len;
            cursor = hole_end;
            if cursor >= end {
                proof {
                    lemma_segment_promises_stable(
                        device,
                        extents@,
                        ii,
                        offset as int,
                        end as int,
                        bufhead,
                        buf@,
                        b0,
                    );
                    assert(extents@[ii].logical >= end);
                    assert(planned_from(
                        extents@,
                        ii,
                        c0,
                        end as int,
                        options.fill_holes,
                        options.zero_unwritten,
                    ) == end - c0) by {
                        reveal_with_fuel(planned_from, 1);
                    }
                }
                break;
            }
        }
        // the extent itself, from max(cursor, e.logical) == cursor on
        let ghost cmid = cursor as int;
        let eend: u64 = if extent_end < end {
            extent_end
        } else {
            end
        };
        proof {
            assert(cmid == if extents@[ii].logical > c0 {
                extents@[ii].logical as int
            } else {
                c0
            });
            assert(bytes_read == b0 + (cmid - c0));
            assert(extents@[ii].logical <= cursor < eend);
            assert(cmid == segment_start(extents@[ii], offset as int));
            assert(eend == segment_end(extents@[ii], end as int));
        }
        let seg: usize = (eend - cursor) as usize;
        proof {
            assert(eend - cursor <= len);
            assert(bytes_read + seg <= len);
        }
        if e.flags.is_unwritten() || e.flags.is_unknown() || e.flags.is_delalloc() {
            let fill: bool = if e.flags.is_unwritten() {
                options.zero_unwritten
            } else {
                options.fill_holes
            };
            if !fill {
                proof {
                    lemma_segment_promises_stable(
                        device,
                        extents@,
                        ii,
                        offset as int,
                        end as int,
                        bufhead,
                        buf@,
                        b0,
                    );
                    lemma_walk_front(extents@, offset as int, end as int, ii, cmid);
                    assert(planned_from(
                        extents@,
                        ii,
                        c0,
                        end as int,
                        options.fill_holes,
                        options.zero_unwritten,
                    ) == cmid - c0) by {
                        reveal_with_fuel(planned_from, 1);
                    }
                }
                return Ok(bytes_read);
            }
            zero_fill(buf, bytes_read, seg);
            bytes_read = bytes_read + seg;
            cursor = eend;
            proof {
                lemma_segment_promises_stable(
                    device,
                    extents@,
                    ii,
                    offset as int,
                    end as int,
                    bufhead,
                    buf@,
                    b0,
                );
                assert(planned_from(
                    extents@,
                    ii,
                    c0,
                    end as int,
                    options.fill_holes,
                    options.zero_unwritten,
                ) == (cmid - c0) + (eend - cmid) + planned_from(
                    extents@,
                    ii + 1,
                    eend as int,
                    end as int,
                    options.fill_holes,
                    options.zero_unwritten,
                ) && (eend >= end ==> planned_from(
                    extents@,
                    ii + 1,
                    eend as int,
                    end as int,
                    options.fill_holes,
                    options.zero_unwritten,
                ) == 0)) by {
                    reveal_with_fuel(planned_from, 1);
                }
                if ii + 1 < extents@.len() {
                    assert(extents@[ii].end() <= extents@[ii + 1].logical);
                }
            }
            i = i + 1;
            continue ;
        }
        // a committed extent: read its overlap from the device
        let ghost eendv = segment_end(extents@[ii], end as int);
        let pair = match read_committed_segment(buf, offset, end, extents, i, cursor, bytes_read, &device) {
            Ok(p) => p,
            Err(er) => {
                return Err(er);
            },
        };
        let actual = pair.0;
        let want = pair.1;
        proof {
            lemma_segment_promises_stable(
                device,
                extents@,
                ii,
                offset as int,
                end as int,
                bufhead,
                buf@,
                b0,
            );
        }
        bytes_read = bytes_read + actual;
        cursor = cursor + (actual as u64);
        if actual < want {
            short = true;
            break;
        }
        proof {
            assert(cursor == eendv);
            assert(planned_from(
                extents@,
                ii,
                c0,
                end as int,
                options.fill_holes,
                options.zero_unwritten,
            ) == (cmid - c0) + (eendv - cmid) + planned_from(
                extents@,
                ii + 1,
                eendv,
                end as int,
                options.fill_holes,
                options.zero_unwritten,
            ) && (eendv >= end ==> planned_from(
                extents@,
                ii + 1,
                eendv,
                end as int,
                options.fill_holes,
                options.zero_unwritten,
            ) == 0)) by {
                reveal_with_fuel(planned_from, 1);
            }
            if ii + 1 < extents@.len() {
                assert(extents@[ii].end() <= extents@[ii + 1].logical);
            }
        }
        i = i + 1;
    }
    proof {
        if !short {
            if cursor < end {
                assert(i >= extents@.len());
                assert(planned_from(
                    extents@,
                    i as int,
                    cursor as int,
                    end as int,
                    options.fill_holes,
                    options.zero_unwritten,
                ) == if options.fill_holes {
                    end - cursor
                } else {
                    0
                }) by {
                    reveal_with_fuel(planned_from, 1);
                }
            }
        }
    }
    // a trailing region the extents did not cover
    let ghost buftail = buf@;
    if cursor < end && options.fill_holes {
        let remaining: usize = (end - cursor) as usize;
        proof {
            assert(bytes_read + remaining <= len);
        }
        zero_fill(buf, bytes_read, remaining);
        bytes_read = bytes_read + remaining;
        proof {
            assert(bytes_read == end - offset);
            lemma_segment_promises_stable(
                device,
                extents@,
                i as int,
                offset as int,
                end as int,
                buftail,
                buf@,
                cursor as int - offset,
            );
        }
    }
    Ok(bytes_read)
}

/// The physical device position backing logical position `read_start` of
/// extent `e`: always `e.physical + (read_start - e.logical)`, whatever
/// the alignment of the request that led here.
pub fn physical_offset(e: &Extent, read_start: u64) -> (r: u64)
    requires
        e.logical <= read_start,
        read_start - e.logical <= e.length,
        e.physical + e.length <= u64::MAX,
    ensures
        r == e.physical + (read_start - e.logical),
{
    e.physical + (read_start - e.logical)
}

} // verus!
