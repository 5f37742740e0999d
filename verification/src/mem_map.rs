//! The mapping table: an ordered collection of disjoint guest-address
//! ranges, each remapped to a host-side base, with translation, merging
//! and the total addressable size.
//!
//! Ranges are kept sorted by guest start and pairwise disjoint. Adding a
//! range wins over whatever it overlaps: existing coverage is clipped
//! around the newcomer (last writer wins).

use vstd::prelude::*;
use vstd::string::*;
use crate::ConnectorError;

verus! {

/// One extracted guest-RAM region: the guest range
/// `[range_start, range_end)` is backed at offset `remap_start` from the
/// discovered base of the guest-RAM backing object.
#[derive(Clone, Copy, Debug, PartialEq, Eq, Structural)]
pub struct Mapping {
    pub range_start: u64,
    pub range_end: u64,
    pub remap_start: u64,
}

impl Mapping {
    /// Bundles the three offsets of one region.
    pub fn new(range_start: u64, range_end: u64, remap_start: u64) -> (r: Mapping)
        ensures
            r == (Mapping { range_start, range_end, remap_start }),
    {
        Mapping { range_start, range_end, remap_start }
    }
}

/// One row of the mapping table: the guest range
/// `[guest_start, guest_end)` lives at host addresses starting at
/// `host_base`.
#[derive(Clone, Copy, Debug, PartialEq, Eq, Structural)]
pub struct RangeMapping {
    pub guest_start: u64,
    pub guest_end: u64,
    pub host_base: u64,
}

/// The row `r` covers the guest address `addr`.
pub open spec fn range_contains(r: RangeMapping, addr: int) -> bool {
    r.guest_start <= addr < r.guest_end
}

/// A well-formed row sequence: every range is non-empty, its host image
/// fits the address space, and the ranges are sorted and pairwise
/// disjoint.
pub open spec fn wf_ranges(rs: Seq<RangeMapping>) -> bool {
    (forall|i: int|
        0 <= i < rs.len() ==> (#[trigger] rs[i]).guest_start < rs[i].guest_end) && (forall|i: int|
        0 <= i < rs.len() ==> (#[trigger] rs[i]).host_base + (rs[i].guest_end
            - rs[i].guest_start) <= u64::MAX as int + 1) && (forall|i: int, j: int|
        0 <= i < j < rs.len() ==> (#[trigger] rs[i]).guest_end <= (#[trigger] rs[j]).guest_start)
}

/// A suffix of a well-formed row sequence is well-formed.
pub proof fn lemma_wf_drop(rs: Seq<RangeMapping>)
    requires
        wf_ranges(rs),
        rs.len() > 0,
    ensures
        wf_ranges(rs.drop_first()),
{
    assert forall|i: int, j: int| 0 <= i < j < rs.drop_first().len() implies (
    #[trigger] rs.drop_first()[i]).guest_end <= (#[trigger] rs.drop_first()[j]).guest_start by {
        assert(rs.drop_first()[i] == rs[i + 1]);
        assert(rs.drop_first()[j] == rs[j + 1]);
    }
}

/// Where the guest address `addr` is remapped to: the host address under
/// the first row covering it, scanned in order.
pub open spec fn spec_lookup(rs: Seq<RangeMapping>, addr: int) -> Option<int>
    decreases rs.len(),
{
    if rs.len() == 0 {
        None
    } else if range_contains(rs[0], addr) {
        Some(rs[0].host_base + (addr - rs[0].guest_start))
    } else {
        spec_lookup(rs.drop_first(), addr)
    }
}

/// Where the guest span `[addr, addr + len)` is remapped to, when one row
/// covers it whole.
pub open spec fn spec_translate(rs: Seq<RangeMapping>, addr: int, len: int) -> Option<int>
    decreases rs.len(),
{
    if rs.len() == 0 {
        None
    } else if range_contains(rs[0], addr) {
        if addr + len <= rs[0].guest_end {
            Some(rs[0].host_base + (addr - rs[0].guest_start))
        } else {
            None
        }
    } else {
        spec_translate(rs.drop_first(), addr, len)
    }
}

/// The total addressable size: the end of the last range.
pub open spec fn spec_total_size(rs: Seq<RangeMapping>) -> int {
    if rs.len() == 0 {
        0
    } else {
        rs.last().guest_end as int
    }
}

/// Scanning a concatenation scans the left part first.
pub proof fn lemma_lookup_concat(a: Seq<RangeMapping>, b: Seq<RangeMapping>, addr: int)
    ensures
        spec_lookup(a + b, addr) == match spec_lookup(a, addr) {
            Some(v) => Some(v),
            None => spec_lookup(b, addr),
        },
    decreases a.len(),
{
    if a.len() == 0 {
        assert(a + b =~= b);
    } else {
        assert((a + b).drop_first() =~= a.drop_first() + b);
        lemma_lookup_concat(a.drop_first(), b, addr);
    }
}

/// Appending a row changes the scan only where nothing earlier answered.
pub proof fn lemma_lookup_push(a: Seq<RangeMapping>, x: RangeMapping, addr: int)
    ensures
        spec_lookup(a.push(x), addr) == match spec_lookup(a, addr) {
            Some(v) => Some(v),
            None => if range_contains(x, addr) {
                Some(x.host_base + (addr - x.guest_start))
            } else {
                None
            },
        },
{
    assert(a.push(x) =~= a + seq![x]);
    lemma_lookup_concat(a, seq![x], addr);
    assert(seq![x].drop_first() =~= Seq::<RangeMapping>::empty());
    assert(spec_lookup(Seq::<RangeMapping>::empty(), addr) is None);
    assert(spec_lookup(seq![x], addr) == if range_contains(x, addr) {
        Some(x.host_base + (addr - x.guest_start))
    } else {
        None
    });
}

/// A scan over rows none of which covers `addr` answers nothing.
pub proof fn lemma_lookup_none(rs: Seq<RangeMapping>, addr: int)
    requires
        forall|i: int| 0 <= i < rs.len() ==> !range_contains(#[trigger] rs[i], addr),
    ensures
        spec_lookup(rs, addr) is None,
    decreases rs.len(),
{
    if rs.len() > 0 {
        assert forall|i: int|
            0 <= i < rs.drop_first().len() implies !range_contains(
            #[trigger] rs.drop_first()[i],
            addr,
        ) by {
            assert(rs.drop_first()[i] == rs[i + 1]);
        }
        lemma_lookup_none(rs.drop_first(), addr);
    }
}

/// When the row at `i` covers `addr` in a well-formed sequence, the scan
/// answers with that row, and a span check against it decides
/// translation.
pub proof fn lemma_translate_at(rs: Seq<RangeMapping>, addr: int, len: int, i: int)
    requires
        wf_ranges(rs),
        0 <= i < rs.len(),
        range_contains(rs[i], addr),
    ensures
        spec_translate(rs, addr, len) == if addr + len <= rs[i].guest_end {
            Some(rs[i].host_base + (addr - rs[i].guest_start))
        } else {
            None
        },
        spec_lookup(rs, addr) == Some(rs[i].host_base + (addr - rs[i].guest_start)),
    decreases rs.len(),
{
    if i == 0 {
    } else {
        assert(!range_contains(rs[0], addr)) by {
            assert(rs[0].guest_end <= rs[i].guest_start);
        }
        lemma_wf_drop(rs);
        assert(rs.drop_first()[i - 1] == rs[i]);
        lemma_translate_at(rs.drop_first(), addr, len, i - 1);
    }
}

/// A translation over rows none of which covers `addr` answers nothing.
pub proof fn lemma_translate_none(rs: Seq<RangeMapping>, addr: int, len: int)
    requires
        forall|i: int| 0 <= i < rs.len() ==> !range_contains(#[trigger] rs[i], addr),
    ensures
        spec_translate(rs, addr, len) is None,
    decreases rs.len(),
{
    if rs.len() > 0 {
        assert forall|i: int|
            0 <= i < rs.drop_first().len() implies !range_contains(
            #[trigger] rs.drop_first()[i],
            addr,
        ) by {
            assert(rs.drop_first()[i] == rs[i + 1]);
        }
        lemma_translate_none(rs.drop_first(), addr, len);
    }
}

/// The part of the row `r` strictly below `gs`.
pub open spec fn clip_left(r: RangeMapping, gs: u64) -> RangeMapping {
    RangeMapping {
        guest_start: r.guest_start,
        guest_end: if r.guest_end <= gs {
            r.guest_end
        } else {
            gs
        },
        host_base: r.host_base,
    }
}

/// The part of the row `r` at or above `ge`, with its host base moved up
/// by the clipped amount.
pub open spec fn clip_right(r: RangeMapping, ge: u64) -> RangeMapping {
    let s = if r.guest_start >= ge {
        r.guest_start
    } else {
        ge
    };
    RangeMapping {
        guest_start: s,
        guest_end: r.guest_end,
        host_base: (r.host_base + (s - r.guest_start)) as u64,
    }
}

/// The rows of `rs` clipped to below `gs`, rows that lie wholly at or
/// above `gs` dropped.
pub open spec fn spec_left_clips(rs: Seq<RangeMapping>, gs: u64) -> Seq<RangeMapping>
    decreases rs.len(),
{
    if rs.len() == 0 {
        Seq::empty()
    } else if rs[0].guest_start < gs {
        seq![clip_left(rs[0], gs)] + spec_left_clips(rs.drop_first(), gs)
    } else {
        spec_left_clips(rs.drop_first(), gs)
    }
}

/// The rows of `rs` clipped to at or above `ge`, rows that lie wholly
/// below `ge` dropped.
pub open spec fn spec_right_clips(rs: Seq<RangeMapping>, ge: u64) -> Seq<RangeMapping>
    decreases rs.len(),
{
    if rs.len() == 0 {
        Seq::empty()
    } else if rs[0].guest_end > ge {
        seq![clip_right(rs[0], ge)] + spec_right_clips(rs.drop_first(), ge)
    } else {
        spec_right_clips(rs.drop_first(), ge)
    }
}

/// Below `gs` the left clips answer as the whole sequence does; at or
/// above `gs` they answer nothing.
pub proof fn lemma_left_clips_lookup(rs: Seq<RangeMapping>, gs: u64, addr: int)
    ensures
        addr < gs ==> spec_lookup(spec_left_clips(rs, gs), addr) == spec_lookup(rs, addr),
        addr >= gs ==> spec_lookup(spec_left_clips(rs, gs), addr) is None,
    decreases rs.len(),
{
    if rs.len() > 0 {
        lemma_left_clips_lookup(rs.drop_first(), gs, addr);
        if rs[0].guest_start < gs {
            let c = clip_left(rs[0], gs);
            lemma_lookup_concat(seq![c], spec_left_clips(rs.drop_first(), gs), addr);
            assert(spec_left_clips(rs, gs) == seq![c] + spec_left_clips(rs.drop_first(), gs));
            assert(seq![c].drop_first() =~= Seq::<RangeMapping>::empty());
            assert(spec_lookup(Seq::<RangeMapping>::empty(), addr) is None);
            assert(spec_lookup(seq![c], addr) == if range_contains(c, addr) {
                Some(rs[0].host_base + (addr - rs[0].guest_start))
            } else {
                None
            });
            if addr < gs {
                assert(range_contains(c, addr) == range_contains(rs[0], addr));
            } else {
                assert(!range_contains(c, addr));
            }
        }
    }
}

/// At or above `ge` the right clips answer as the whole well-formed
/// sequence does; below `ge` they answer nothing.
pub proof fn lemma_right_clips_lookup(rs: Seq<RangeMapping>, ge: u64, addr: int)
    requires
        wf_ranges(rs),
    ensures
        addr >= ge ==> spec_lookup(spec_right_clips(rs, ge), addr) == spec_lookup(rs, addr),
        addr < ge ==> spec_lookup(spec_right_clips(rs, ge), addr) is None,
    decreases rs.len(),
{
    if rs.len() > 0 {
        lemma_wf_drop(rs);
        lemma_right_clips_lookup(rs.drop_first(), ge, addr);
        if rs[0].guest_end > ge {
            let c = clip_right(rs[0], ge);
            assert(rs[0].guest_start < rs[0].guest_end);
            assert(rs[0].host_base + (rs[0].guest_end - rs[0].guest_start) <= u64::MAX as int + 1);
            assert(c.host_base == rs[0].host_base + (c.guest_start - rs[0].guest_start));
            lemma_lookup_concat(seq![c], spec_right_clips(rs.drop_first(), ge), addr);
            assert(spec_right_clips(rs, ge) == seq![c] + spec_right_clips(rs.drop_first(), ge));
            assert(seq![c].drop_first() =~= Seq::<RangeMapping>::empty());
            assert(spec_lookup(Seq::<RangeMapping>::empty(), addr) is None);
            assert(c.guest_start < rs[0].guest_end);
            assert(rs[0].host_base + (c.guest_start - rs[0].guest_start) <= u64::MAX as int);
            assert(c.host_base == rs[0].host_base + (c.guest_start - rs[0].guest_start));
            if addr >= ge {
                assert(range_contains(c, addr) == range_contains(rs[0], addr));
                if range_contains(c, addr) {
                    assert(c.host_base + (addr - c.guest_start) == rs[0].host_base + (addr
                        - rs[0].guest_start));
                }
            } else {
                assert(!range_contains(c, addr));
            }
            assert(spec_lookup(seq![c], addr) == if range_contains(c, addr) {
                Some(c.host_base + (addr - c.guest_start))
            } else {
                None
            });
        }
    }
}

} // verus!

verus! {

/// Left clips of a well-formed sequence: well-formed, ending at or below
/// `gs`, starting no earlier than the sequence did.
pub proof fn lemma_left_clips_wf(rs: Seq<RangeMapping>, gs: u64)
    requires
        wf_ranges(rs),
    ensures
        wf_ranges(spec_left_clips(rs, gs)),
        forall|j: int|
            0 <= j < spec_left_clips(rs, gs).len() ==> (#[trigger] spec_left_clips(
                rs,
                gs,
            )[j]).guest_end <= gs,
        forall|j: int|
            0 <= j < spec_left_clips(rs, gs).len() ==> rs.len() > 0 && (#[trigger] spec_left_clips(
                rs,
                gs,
            )[j]).guest_start >= rs[0].guest_start,
    decreases rs.len(),
{
    if rs.len() > 0 {
        lemma_wf_drop(rs);
        lemma_left_clips_wf(rs.drop_first(), gs);
        let lp = spec_left_clips(rs.drop_first(), gs);
        assert forall|j: int|
            0 <= j < lp.len() implies (#[trigger] lp[j]).guest_start >= rs[0].guest_end by {
            assert(rs.drop_first()[0] == rs[1]);
            assert(rs[0].guest_end <= rs[1].guest_start);
        }
        if rs[0].guest_start < gs {
            let c = clip_left(rs[0], gs);
            let whole = seq![c] + lp;
            assert(whole[0] == c);
            assert(forall|j: int| 0 <= j < lp.len() ==> #[trigger] whole[j + 1] == lp[j]);
            assert(c.guest_start < c.guest_end);
            assert(c.host_base + (c.guest_end - c.guest_start) <= u64::MAX as int + 1);
            assert forall|i: int, j: int|
                0 <= i < j < whole.len() implies (#[trigger] whole[i]).guest_end <= (
            #[trigger] whole[j]).guest_start by {
                if i == 0 {
                    assert(whole[j] == lp[j - 1]);
                    assert(c.guest_end <= rs[0].guest_end);
                } else {
                    assert(whole[i] == lp[i - 1]);
                    assert(whole[j] == lp[j - 1]);
                }
            }
        }
    }
}

/// When every range ends at or below `gs`, clipping keeps the sequence
/// as it is.
pub proof fn lemma_left_clips_id(rs: Seq<RangeMapping>, gs: u64)
    requires
        forall|i: int| 0 <= i < rs.len() ==> (#[trigger] rs[i]).guest_end <= gs,
        forall|i: int| 0 <= i < rs.len() ==> (#[trigger] rs[i]).guest_start < rs[i].guest_end,
    ensures
        spec_left_clips(rs, gs) == rs,
    decreases rs.len(),
{
    if rs.len() > 0 {
        assert forall|i: int|
            0 <= i < rs.drop_first().len() implies (#[trigger] rs.drop_first()[i]).guest_end <= gs
            && rs.drop_first()[i].guest_start < rs.drop_first()[i].guest_end by {
            assert(rs.drop_first()[i] == rs[i + 1]);
        }
        lemma_left_clips_id(rs.drop_first(), gs);
        assert(clip_left(rs[0], gs) == rs[0]);
        assert(spec_left_clips(rs, gs) =~= rs);
    } else {
        assert(spec_left_clips(rs, gs) =~= rs);
    }
}

/// Right clips of a well-formed sequence: well-formed, starting at or
/// above `ge`, present exactly when the last range reaches past `ge`,
/// and keeping that last range's end.
pub proof fn lemma_right_clips_wf(rs: Seq<RangeMapping>, ge: u64)
    requires
        wf_ranges(rs),
    ensures
        wf_ranges(spec_right_clips(rs, ge)),
        forall|j: int|
            0 <= j < spec_right_clips(rs, ge).len() ==> (#[trigger] spec_right_clips(
                rs,
                ge,
            )[j]).guest_start >= ge,
        forall|j: int|
            0 <= j < spec_right_clips(rs, ge).len() ==> rs.len() > 0 && (
            #[trigger] spec_right_clips(rs, ge)[j]).guest_start >= rs[0].guest_start,
        (spec_right_clips(rs, ge).len() > 0) == (rs.len() > 0 && rs.last().guest_end > ge),
        spec_right_clips(rs, ge).len() > 0 ==> spec_right_clips(rs, ge).last().guest_end
            == rs.last().guest_end,
    decreases rs.len(),
{
    if rs.len() > 0 {
        lemma_wf_drop(rs);
        lemma_right_clips_wf(rs.drop_first(), ge);
        let rp = spec_right_clips(rs.drop_first(), ge);
        assert forall|j: int|
            0 <= j < rp.len() implies (#[trigger] rp[j]).guest_start >= rs[0].guest_end by {
            assert(rs.drop_first()[0] == rs[1]);
            assert(rs[0].guest_end <= rs[1].guest_start);
        }
        if rs.drop_first().len() > 0 {
            assert(rs.drop_first().last() == rs.last());
            assert(rs[0].guest_end <= rs.last().guest_start);
        }
        if rs[0].guest_end > ge {
            let c = clip_right(rs[0], ge);
            assert(rs[0].guest_start < rs[0].guest_end);
            assert(rs[0].host_base + (rs[0].guest_end - rs[0].guest_start) <= u64::MAX as int + 1);
            assert(c.guest_start < rs[0].guest_end);
            assert(c.host_base == rs[0].host_base + (c.guest_start - rs[0].guest_start));
            assert(c.guest_start < c.guest_end);
            assert(c.host_base + (c.guest_end - c.guest_start) <= u64::MAX as int + 1);
            let whole = seq![c] + rp;
            assert(whole[0] == c);
            assert(forall|j: int| 0 <= j < rp.len() ==> #[trigger] whole[j + 1] == rp[j]);
            assert forall|i: int, j: int|
                0 <= i < j < whole.len() implies (#[trigger] whole[i]).guest_end <= (
            #[trigger] whole[j]).guest_start by {
                if i == 0 {
                    assert(whole[j] == rp[j - 1]);
                } else {
                    assert(whole[i] == rp[i - 1]);
                    assert(whole[j] == rp[j - 1]);
                }
            }
            if rs.drop_first().len() == 0 {
                assert(rs.last() == rs[0]);
                assert(whole.last() == c);
            } else {
                if rp.len() > 0 {
                    assert(whole.last() == rp.last());
                } else {
                    assert(rs.drop_first().last().guest_end <= ge);
                    assert(rs.last() == rs.drop_first().last());
                    assert(rs[0].guest_end <= rs.last().guest_start);
                    assert(false);
                }
            }
        } else {
            if rs.drop_first().len() > 0 {
                if rp.len() > 0 {
                    assert(spec_right_clips(rs, ge).last() == rp.last());
                    assert(rs.drop_first().last() == rs.last());
                }
            } else {
                assert(rs.last() == rs[0]);
            }
        }
    }
}

/// Clipping one more range on the left appends its clip, when it
/// qualifies.
pub proof fn lemma_left_clips_snoc(rs: Seq<RangeMapping>, r: RangeMapping, gs: u64)
    ensures
        spec_left_clips(rs.push(r), gs) == spec_left_clips(rs, gs) + (if r.guest_start < gs {
            seq![clip_left(r, gs)]
        } else {
            Seq::<RangeMapping>::empty()
        }),
    decreases rs.len(),
{
    let tail: Seq<RangeMapping> = if r.guest_start < gs {
        seq![clip_left(r, gs)]
    } else {
        Seq::<RangeMapping>::empty()
    };
    if rs.len() == 0 {
        assert(rs.push(r)[0] == r);
        assert(rs.push(r).drop_first() =~= Seq::<RangeMapping>::empty());
        assert(spec_left_clips(Seq::<RangeMapping>::empty(), gs) =~= Seq::<RangeMapping>::empty());
        assert(spec_left_clips(rs.push(r), gs) =~= tail);
        assert(spec_left_clips(rs, gs) + tail =~= tail);
    } else {
        assert(rs.push(r)[0] == rs[0]);
        assert(rs.push(r).drop_first() =~= rs.drop_first().push(r));
        lemma_left_clips_snoc(rs.drop_first(), r, gs);
        assert(spec_left_clips(rs.push(r), gs) =~= spec_left_clips(rs, gs) + tail);
    }
}

/// Clipping one more range on the right appends its clip, when it
/// qualifies.
pub proof fn lemma_right_clips_snoc(rs: Seq<RangeMapping>, r: RangeMapping, ge: u64)
    ensures
        spec_right_clips(rs.push(r), ge) == spec_right_clips(rs, ge) + (if r.guest_end > ge {
            seq![clip_right(r, ge)]
        } else {
            Seq::<RangeMapping>::empty()
        }),
    decreases rs.len(),
{
    let tail: Seq<RangeMapping> = if r.guest_end > ge {
        seq![clip_right(r, ge)]
    } else {
        Seq::<RangeMapping>::empty()
    };
    if rs.len() == 0 {
        assert(rs.push(r)[0] == r);
        assert(rs.push(r).drop_first() =~= Seq::<RangeMapping>::empty());
        assert(spec_right_clips(Seq::<RangeMapping>::empty(), ge) =~= Seq::<RangeMapping>::empty());
        assert(spec_right_clips(rs.push(r), ge) =~= tail);
        assert(spec_right_clips(rs, ge) + tail =~= tail);
    } else {
        assert(rs.push(r)[0] == rs[0]);
        assert(rs.push(r).drop_first() =~= rs.drop_first().push(r));
        lemma_right_clips_snoc(rs.drop_first(), r, ge);
        assert(spec_right_clips(rs.push(r), ge) =~= spec_right_clips(rs, ge) + tail);
    }
}

/// The rows after adding `[gs, ge) -> hb` over `rs`: what survives below
/// `gs`, the new row, what survives at or above `ge`.
pub open spec fn spec_push_ranges(rs: Seq<RangeMapping>, gs: u64, ge: u64, hb: u64) -> Seq<
    RangeMapping,
> {
    spec_left_clips(rs, gs) + seq![RangeMapping { guest_start: gs, guest_end: ge, host_base: hb }]
        + spec_right_clips(rs, ge)
}

} // verus!

verus! {

/// The mapping table: rows sorted by guest start, pairwise disjoint,
/// built once by discovery and read by every translation.
pub struct MappingTable {
    ranges: Vec<RangeMapping>,
}

impl View for MappingTable {
    type V = Seq<RangeMapping>;

    closed spec fn view(&self) -> Seq<RangeMapping> {
        self.ranges@
    }
}

impl MappingTable {
    /// The table's rows are well-formed.
    pub open spec fn wf(&self) -> bool {
        wf_ranges(self@)
    }

    /// An empty table.
    pub fn new() -> (r: MappingTable)
        ensures
            r@ == Seq::<RangeMapping>::empty(),
            r.wf(),
    {
        let r = MappingTable { ranges: Vec::new() };
        proof {
            assert(r@ =~= Seq::<RangeMapping>::empty());
        }
        r
    }

    /// How many rows the table holds.
    pub fn len(&self) -> (r: usize)
        ensures
            r == self@.len(),
    {
        self.ranges.len()
    }

    /// The row at position `i`.
    pub fn range_at(&self, i: usize) -> (r: RangeMapping)
        requires
            i < self@.len(),
        ensures
            r == self@[i as int],
    {
        self.ranges[i]
    }

    /// The total addressable size: the end of the last range, or 0 for
    /// an empty table.
    pub fn total_size(&self) -> (r: u64)
        ensures
            r as int == spec_total_size(self@),
    {
        if self.ranges.len() == 0 {
            0
        } else {
            self.ranges[self.ranges.len() - 1].guest_end
        }
    }

    /// Adds the row `[guest_start, guest_end) -> host_base`, clipping
    /// whatever it overlaps: the last writer wins. Where the new row
    /// only extends the table upward, it is appended as it stands.
    pub fn push_range(&mut self, guest_start: u64, guest_end: u64, host_base: u64)
        requires
            old(self).wf(),
            guest_start < guest_end,
            host_base + (guest_end - guest_start) <= u64::MAX as int + 1,
        ensures
            final(self).wf(),
            final(self)@ == spec_push_ranges(old(self)@, guest_start, guest_end, host_base),
            forall|addr: int|
                #[trigger] spec_lookup(final(self)@, addr) == if guest_start <= addr < guest_end {
                    Some(host_base + (addr - guest_start))
                } else {
                    spec_lookup(old(self)@, addr)
                },
            spec_total_size(final(self)@) == if spec_total_size(old(self)@) > guest_end as int {
                spec_total_size(old(self)@)
            } else {
                guest_end as int
            },
            (old(self)@.len() == 0 || old(self)@.last().guest_end <= guest_start) ==> final(self)@
                == old(self)@.push(RangeMapping { guest_start, guest_end, host_base }),
    {
        let ghost orig = self.ranges@;
        let nr = RangeMapping { guest_start, guest_end, host_base };
        let n = self.ranges.len();
        let mut out: Vec<RangeMapping> = Vec::new();
        let mut idx: usize = 0;
        proof {
            assert(orig.take(0) =~= Seq::<RangeMapping>::empty());
            assert(out@ =~= spec_left_clips(orig.take(0), guest_start));
        }
        while idx < n
            invariant
                orig == self.ranges@,
                n == orig.len(),
                idx <= n,
                out@ == spec_left_clips(orig.take(idx as int), guest_start),
            decreases n - idx,
        {
            let r = self.ranges[idx];
            proof {
                assert(orig.take(idx + 1) =~= orig.take(idx as int).push(orig[idx as int]));
                lemma_left_clips_snoc(orig.take(idx as int), orig[idx as int], guest_start);
            }
            if r.guest_start < guest_start {
                let e = if r.guest_end <= guest_start {
                    r.guest_end
                } else {
                    guest_start
                };
                out.push(
                    RangeMapping { guest_start: r.guest_start, guest_end: e, host_base: r.host_base },
                );
                proof {
                    assert((RangeMapping {
                        guest_start: r.guest_start,
                        guest_end: e,
                        host_base: r.host_base,
                    }) == clip_left(orig[idx as int], guest_start));
                    assert(out@ =~= spec_left_clips(orig.take(idx as int), guest_start) + seq![
                        clip_left(orig[idx as int], guest_start)
                    ]);
                }
            } else {
                proof {
                    assert(out@ =~= spec_left_clips(orig.take(idx as int), guest_start)
                        + Seq::<RangeMapping>::empty());
                }
            }
            idx += 1;
        }
        proof {
            assert(orig.take(n as int) =~= orig);
        }
        out.push(nr);
        let ghost mid = out@;
        proof {
            assert(mid =~= spec_left_clips(orig, guest_start) + seq![nr]);
            assert(orig.take(0) =~= Seq::<RangeMapping>::empty());
            assert(mid + spec_right_clips(orig.take(0), guest_end) =~= mid);
        }
        let mut idx2: usize = 0;
        while idx2 < n
            invariant
                orig == self.ranges@,
                n == orig.len(),
                idx2 <= n,
                wf_ranges(orig),
                mid == spec_left_clips(orig, guest_start) + seq![nr],
                out@ == mid + spec_right_clips(orig.take(idx2 as int), guest_end),
            decreases n - idx2,
        {
            let r = self.ranges[idx2];
            proof {
                assert(orig.take(idx2 + 1) =~= orig.take(idx2 as int).push(orig[idx2 as int]));
                lemma_right_clips_snoc(orig.take(idx2 as int), orig[idx2 as int], guest_end);
                assert(r.guest_start < r.guest_end);
                assert(r.host_base + (r.guest_end - r.guest_start) <= u64::MAX as int + 1);
            }
            if r.guest_end > guest_end {
                let s = if r.guest_start >= guest_end {
                    r.guest_start
                } else {
                    guest_end
                };
                proof {
                    assert(s < r.guest_end);
                    assert(r.host_base + (s - r.guest_start) <= u64::MAX as int);
                }
                let hb2 = r.host_base + (s - r.guest_start);
                out.push(RangeMapping { guest_start: s, guest_end: r.guest_end, host_base: hb2 });
                proof {
                    assert((RangeMapping { guest_start: s, guest_end: r.guest_end, host_base: hb2 })
                        == clip_right(orig[idx2 as int], guest_end));
                    assert(out@ =~= mid + (spec_right_clips(orig.take(idx2 as int), guest_end)
                        + seq![clip_right(orig[idx2 as int], guest_end)]));
                }
            } else {
                proof {
                    assert(out@ =~= mid + (spec_right_clips(orig.take(idx2 as int), guest_end)
                        + Seq::<RangeMapping>::empty()));
                }
            }
            idx2 += 1;
        }
        self.ranges = out;
        proof {
            assert(orig.take(n as int) =~= orig);
            let lc = spec_left_clips(orig, guest_start);
            let rc = spec_right_clips(orig, guest_end);
            assert(self@ =~= lc + seq![nr] + rc);
            lemma_push_ranges_props(orig, guest_start, guest_end, host_base);
            lemma_right_clips_wf(orig, guest_end);
            let whole = lc + seq![nr] + rc;
            // the total size is pushed up to at least guest_end
            if rc.len() > 0 {
                assert(whole.last() == rc.last());
                assert(spec_total_size(self@) == orig.last().guest_end as int);
            } else {
                assert(whole.last() == nr);
            }
            // pure extension appends unchanged
            if orig.len() == 0 || orig.last().guest_end <= guest_start {
                if orig.len() == 0 {
                    assert(lc =~= Seq::<RangeMapping>::empty());
                    assert(rc =~= Seq::<RangeMapping>::empty());
                    assert(self@ =~= orig.push(nr));
                } else {
                    assert forall|i: int|
                        0 <= i < orig.len() implies (#[trigger] orig[i]).guest_end <= guest_start
                        && orig[i].guest_start < orig[i].guest_end by {
                        if i < orig.len() - 1 {
                            assert(orig[i].guest_end <= orig[orig.len() - 1].guest_start);
                        }
                    }
                    lemma_left_clips_id(orig, guest_start);
                    assert(rc.len() == 0);
                    assert(self@ =~= orig.push(nr));
                }
            }
        }
    }

    /// Translates the guest span `[addr, addr + len)` to its host
    /// address: answers exactly when one row covers the span whole.
    pub fn translate(&self, addr: u64, len: u64) -> (r: Option<u64>)
        requires
            self.wf(),
        ensures
            match r {
                Some(h) => spec_translate(self@, addr as int, len as int) == Some(h as int),
                None => spec_translate(self@, addr as int, len as int) is None,
            },
    {
        let mut lo: usize = 0;
        let mut hi: usize = self.ranges.len();
        while lo < hi
            invariant
                self.wf(),
                lo <= hi <= self@.len(),
                forall|i: int| 0 <= i < lo ==> (#[trigger] self@[i]).guest_end <= addr,
                forall|i: int| hi <= i < self@.len() ==> (#[trigger] self@[i]).guest_start > addr,
            decreases hi - lo,
        {
            let m = lo + (hi - lo) / 2;
            let r = self.ranges[m];
            if r.guest_end <= addr {
                proof {
                    assert forall|i: int|
                        0 <= i < m + 1 implies (#[trigger] self@[i]).guest_end <= addr by {
                        if i < m {
                            assert(self@[i].guest_end <= self@[m as int].guest_start);
                        }
                    }
                }
                lo = m + 1;
            } else if r.guest_start > addr {
                proof {
                    assert forall|i: int|
                        m <= i < self@.len() implies (#[trigger] self@[i]).guest_start > addr by {
                        if i > m {
                            assert(self@[m as int].guest_end <= self@[i].guest_start);
                        }
                    }
                }
                hi = m;
            } else {
                proof {
                    lemma_translate_at(self@, addr as int, len as int, m as int);
                }
                if len <= r.guest_end - addr {
                    proof {
                        assert(r.host_base + (addr - r.guest_start) <= u64::MAX as int);
                    }
                    return Some(r.host_base + (addr - r.guest_start));
                } else {
                    return None;
                }
            }
        }
        proof {
            assert forall|i: int|
                0 <= i < self@.len() implies !range_contains(#[trigger] self@[i], addr as int) by {}
            lemma_translate_none(self@, addr as int, len as int);
        }
        None
    }

    /// Unions another table into this one: the other table's rows win
    /// wherever coverage overlaps, as if each were added last.
    pub fn merge(&mut self, other: &MappingTable)
        requires
            old(self).wf(),
            other.wf(),
        ensures
            final(self).wf(),
            forall|addr: int|
                #[trigger] spec_lookup(final(self)@, addr) == match spec_lookup(other@, addr) {
                    Some(v) => Some(v),
                    None => spec_lookup(old(self)@, addr),
                },
    {
        let ghost orig = self@;
        let ghost odv = other@;
        let m = other.ranges.len();
        let mut i: usize = 0;
        proof {
            assert(odv.take(0) =~= Seq::<RangeMapping>::empty());
        }
        while i < m
            invariant
                odv == other@,
                m == odv.len(),
                other.wf(),
                i <= m,
                self.wf(),
                forall|addr: int|
                    #[trigger] spec_lookup(self@, addr) == match spec_lookup(
                        odv.take(i as int),
                        addr,
                    ) {
                        Some(v) => Some(v),
                        None => spec_lookup(orig, addr),
                    },
            decreases m - i,
        {
            let r = other.ranges[i];
            proof {
                assert(odv[i as int] == r);
                assert(r.guest_start < r.guest_end);
                assert(r.host_base + (r.guest_end - r.guest_start) <= u64::MAX as int + 1);
            }
            let ghost before = self@;
            self.push_range(r.guest_start, r.guest_end, r.host_base);
            proof {
                assert(odv.take(i + 1) =~= odv.take(i as int).push(r));
                assert forall|addr: int|
                    #[trigger] spec_lookup(self@, addr) == (match spec_lookup(
                        odv.take(i + 1),
                        addr,
                    ) {
                        Some(v) => Some(v),
                        None => spec_lookup(orig, addr),
                    }) by {
                    lemma_lookup_push(odv.take(i as int), r, addr);
                    if range_contains(r, addr) {
                        assert forall|j: int|
                            0 <= j < odv.take(i as int).len() implies !range_contains(
                            #[trigger] odv.take(i as int)[j],
                            addr,
                        ) by {
                            assert(odv[j].guest_end <= odv[i as int].guest_start);
                        }
                        lemma_lookup_none(odv.take(i as int), addr);
                    }
                }
            }
            i += 1;
        }
        proof {
            assert(odv.take(m as int) =~= odv);
        }
    }
}

} // verus!

verus! {

/// 1 MiB.
pub const MIB: u64 = 0x100000;

/// 1 GiB.
pub const GIB: u64 = 0x40000000;

/// The RAM size above which the modern chipset inserts its high-memory
/// hole: 2816 MiB.
pub const Q35_HIGHMEM_THRESHOLD: u64 = 0xB0000000;

/// The fixed table for modern-chipset (q35) machines with at least
/// 2816 MiB of RAM: 2 GiB low, then everything above 4 GiB, remapped
/// down by 2 GiB.
pub open spec fn spec_fallback_q35(map_size: u64) -> Seq<Mapping> {
    seq![
        Mapping { range_start: 0, range_end: (2 * GIB) as u64, remap_start: 0 },
        Mapping {
            range_start: (4 * GIB) as u64,
            range_end: (map_size + 2 * GIB) as u64,
            remap_start: (2 * GIB) as u64,
        },
    ]
}

/// Modern-chipset layout, large memory.
pub fn qemu_get_mtree_fallback_q35(map_size: u64) -> (r: Vec<Mapping>)
    requires
        map_size + 2 * GIB <= u64::MAX,
    ensures
        r@ == spec_fallback_q35(map_size),
{
    let mut v: Vec<Mapping> = Vec::new();
    v.push(Mapping { range_start: 0, range_end: 2 * GIB, remap_start: 0 });
    v.push(
        Mapping { range_start: 4 * GIB, range_end: map_size + 2 * GIB, remap_start: 2 * GIB },
    );
    proof {
        assert(v@ =~= spec_fallback_q35(map_size));
    }
    v
}

/// The fixed table for modern-chipset (q35) machines under the
/// high-memory threshold: one identity range from 1 MiB to the total
/// size.
pub open spec fn spec_fallback_q35_smallmem(map_size: u64) -> Seq<Mapping> {
    seq![Mapping { range_start: MIB, range_end: map_size, remap_start: MIB }]
}

/// Modern-chipset layout, small memory.
pub fn qemu_get_mtree_fallback_q35_smallmem(map_size: u64) -> (r: Vec<Mapping>)
    ensures
        r@ == spec_fallback_q35_smallmem(map_size),
{
    let mut v: Vec<Mapping> = Vec::new();
    v.push(Mapping { range_start: MIB, range_end: map_size, remap_start: MIB });
    proof {
        assert(v@ =~= spec_fallback_q35_smallmem(map_size));
    }
    v
}

/// The fixed table for 64-bit ARM virtual machines: all memory shifted
/// up by 1 GiB, linear from there.
pub open spec fn spec_fallback_aarch64(map_size: u64) -> Seq<Mapping> {
    seq![
        Mapping { range_start: GIB, range_end: (map_size + GIB) as u64, remap_start: 0 },
    ]
}

/// 64-bit ARM layout.
pub fn qemu_get_mtree_fallback_aarch64(map_size: u64) -> (r: Vec<Mapping>)
    requires
        map_size + GIB <= u64::MAX,
    ensures
        r@ == spec_fallback_aarch64(map_size),
{
    let mut v: Vec<Mapping> = Vec::new();
    v.push(Mapping { range_start: GIB, range_end: map_size + GIB, remap_start: 0 });
    proof {
        assert(v@ =~= spec_fallback_aarch64(map_size));
    }
    v
}

/// The fixed table for legacy-chipset (pc-i1440fx) machines: the
/// low-1MiB BIOS/VGA hole layout in five discrete sub-ranges, then
/// everything above 4 GiB remapped down to 3 GiB.
pub open spec fn spec_fallback_pc(map_size: u64) -> Seq<Mapping> {
    seq![
        Mapping { range_start: 0, range_end: (768 * 1024) as u64, remap_start: 0 },
        Mapping {
            range_start: (812 * 1024) as u64,
            range_end: (824 * 1024) as u64,
            remap_start: (812 * 1024) as u64,
        },
        Mapping {
            range_start: (928 * 1024) as u64,
            range_end: (960 * 1024) as u64,
            remap_start: (928 * 1024) as u64,
        },
        Mapping { range_start: MIB, range_end: (3 * GIB) as u64, remap_start: MIB },
        Mapping {
            range_start: (4 * GIB) as u64,
            range_end: (map_size + GIB) as u64,
            remap_start: (3 * GIB) as u64,
        },
    ]
}

/// Legacy-chipset layout.
pub fn qemu_get_mtree_fallback_pc(map_size: u64) -> (r: Vec<Mapping>)
    requires
        map_size + GIB <= u64::MAX,
    ensures
        r@ == spec_fallback_pc(map_size),
{
    let mut v: Vec<Mapping> = Vec::new();
    v.push(Mapping { range_start: 0, range_end: 768 * 1024, remap_start: 0 });
    v.push(Mapping { range_start: 812 * 1024, range_end: 824 * 1024, remap_start: 812 * 1024 });
    v.push(Mapping { range_start: 928 * 1024, range_end: 960 * 1024, remap_start: 928 * 1024 });
    v.push(Mapping { range_start: MIB, range_end: 3 * GIB, remap_start: MIB });
    v.push(Mapping { range_start: 4 * GIB, range_end: map_size + GIB, remap_start: 3 * GIB });
    proof {
        assert(v@ =~= spec_fallback_pc(map_size));
    }
    v
}

/// Which fixed table the machine-type token and the RAM size select:
/// a pure function of the two.
pub open spec fn spec_fallback(machine: Seq<char>, map_size: u64) -> Seq<Mapping> {
    if crate::strutil::contains_seq(machine, "q35"@) {
        if map_size >= Q35_HIGHMEM_THRESHOLD {
            spec_fallback_q35(map_size)
        } else {
            spec_fallback_q35_smallmem(map_size)
        }
    } else if crate::strutil::contains_seq(machine, "aarch64"@) || crate::strutil::contains_seq(
        machine,
        "virt"@,
    ) {
        spec_fallback_aarch64(map_size)
    } else {
        spec_fallback_pc(map_size)
    }
}

/// Selects the fixed fallback table for a machine type and RAM size.
pub fn qemu_get_mtree_fallback(machine: &str, map_size: u64) -> (r: Vec<Mapping>)
    requires
        map_size + 2 * GIB <= u64::MAX,
    ensures
        r@ == spec_fallback(machine@, map_size),
{
    if crate::strutil::str_contains(machine, "q35") {
        if map_size >= Q35_HIGHMEM_THRESHOLD {
            qemu_get_mtree_fallback_q35(map_size)
        } else {
            qemu_get_mtree_fallback_q35_smallmem(map_size)
        }
    } else if crate::strutil::str_contains(machine, "aarch64") || crate::strutil::str_contains(
        machine,
        "virt",
    ) {
        qemu_get_mtree_fallback_aarch64(map_size)
    } else {
        qemu_get_mtree_fallback_pc(map_size)
    }
}

/// The machine-type token of a launch command line: `aarch64` when the
/// program token names it, else the `-machine type=` option, else `pc`.
pub open spec fn spec_machine_token(cmdline: Seq<char>) -> Seq<char> {
    let toks = crate::strutil::spec_split_ws(cmdline);
    if toks.len() > 0 && crate::strutil::contains_seq(toks[0], "aarch64"@) {
        "aarch64"@
    } else {
        match crate::qemu_args::spec_qemu_arg_opt(toks, "-machine"@, "type"@) {
            Some(m) => m,
            None => "pc"@,
        }
    }
}

/// Reads the machine-type token off a launch command line.
pub fn machine_token(cmdline: &str) -> (r: String)
    ensures
        r@ == spec_machine_token(cmdline@),
{
    let tokens = crate::strutil::split_ws(cmdline);
    proof {
        if tokens@.len() > 0 {
            assert(tokens.deep_view()[0] == tokens@[0 as int]@);
        }
    }
    if tokens.len() > 0 && crate::strutil::str_contains(tokens[0].as_str(), "aarch64") {
        String::from_str("aarch64")
    } else {
        match crate::qemu_args::qemu_arg_opt(&tokens, "-machine", "type") {
            Some(m) => m,
            None => String::from_str("pc"),
        }
    }
}

} // verus!

verus! {

/// An extracted region is usable when it is non-empty and its host
/// image, based at `map_base`, fits the address space.
pub open spec fn spec_entry_ok(m: Mapping, map_base: u64) -> bool {
    m.range_start < m.range_end && map_base + m.remap_start + (m.range_end - m.range_start)
        <= u64::MAX as int + 1
}

/// The table built from extracted regions, in order, each based at
/// `map_base`, later regions winning on overlap; unusable regions are
/// discarded.
pub open spec fn spec_build_table(ms: Seq<Mapping>, map_base: u64) -> Seq<RangeMapping>
    decreases ms.len(),
{
    if ms.len() == 0 {
        Seq::empty()
    } else {
        let rest = spec_build_table(ms.drop_last(), map_base);
        let m = ms.last();
        if spec_entry_ok(m, map_base) {
            spec_push_ranges(
                rest,
                m.range_start,
                m.range_end,
                (map_base + m.remap_start) as u64,
            )
        } else {
            rest
        }
    }
}

/// The regions discovery settles on: what the monitor report describes,
/// where there is a report and it describes any; else the fixed table
/// for the machine type and RAM size.
pub open spec fn spec_chosen_mappings(
    cmdline: Seq<char>,
    map_size: u64,
    mtree: Option<Seq<char>>,
) -> Seq<Mapping> {
    match mtree {
        Some(t) => if crate::mtree::spec_parse_mtree(t).len() > 0 {
            crate::mtree::spec_parse_mtree(t)
        } else {
            spec_fallback(spec_machine_token(cmdline), map_size)
        },
        None => spec_fallback(spec_machine_token(cmdline), map_size),
    }
}

/// Produces the guest-to-host mapping table for a hypervisor process:
/// from its monitor's memory-tree report when one is given and usable,
/// else from the fixed per-chipset tables; every region is based at
/// `map_base`, the start of the process's guest-RAM backing region.
/// Discovery that yields no usable region is an error.
pub fn qemu_mem_mappings(
    cmdline: &str,
    map_base: u64,
    map_size: u64,
    mtree: Option<&str>,
) -> (r: Result<MappingTable, ConnectorError>)
    requires
        map_size + 2 * GIB <= u64::MAX,
    ensures
        ({
            let chosen = spec_chosen_mappings(
                cmdline@,
                map_size,
                match mtree {
                    Some(t) => Some(t@),
                    None => None,
                },
            );
            match r {
                Ok(t) => t.wf() && t@ == spec_build_table(chosen, map_base) && t@.len() > 0,
                Err(e) => e == ConnectorError::MappingNotFound && spec_build_table(
                    chosen,
                    map_base,
                ).len() == 0,
            }
        }),
{
    let mappings: Vec<Mapping> = match mtree {
        Some(text) => {
            let parsed = crate::mtree::qmp_parse_mtree(text);
            if parsed.len() > 0 {
                parsed
            } else {
                let mt = machine_token(cmdline);
                qemu_get_mtree_fallback(mt.as_str(), map_size)
            }
        },
        None => {
            let mt = machine_token(cmdline);
            qemu_get_mtree_fallback(mt.as_str(), map_size)
        },
    };
    let ghost chosen = mappings@;
    let n = mappings.len();
    let mut table = MappingTable::new();
    let mut i: usize = 0;
    proof {
        assert(chosen.take(0) =~= Seq::<Mapping>::empty());
        assert(table@ =~= spec_build_table(chosen.take(0), map_base));
    }
    while i < n
        invariant
            chosen == mappings@,
            n == chosen.len(),
            i <= n,
            table.wf(),
            table@ == spec_build_table(chosen.take(i as int), map_base),
        decreases n - i,
    {
        let m = mappings[i];
        proof {
            assert(chosen.take(i + 1).drop_last() =~= chosen.take(i as int));
            assert(chosen.take(i + 1).last() == m);
        }
        if m.range_start < m.range_end {
            let len_minus_one = (m.range_end - m.range_start) - 1;
            if m.remap_start <= u64::MAX - map_base && map_base + m.remap_start <= u64::MAX
                - len_minus_one {
                table.push_range(m.range_start, m.range_end, map_base + m.remap_start);
                proof {
                    assert(spec_entry_ok(m, map_base));
                }
            } else {
                proof {
                    assert(!spec_entry_ok(m, map_base));
                }
            }
        } else {
            proof {
                assert(!spec_entry_ok(m, map_base));
            }
        }
        i += 1;
    }
    proof {
        assert(chosen.take(n as int) =~= chosen);
    }
    if table.len() == 0 {
        Err(ConnectorError::MappingNotFound)
    } else {
        Ok(table)
    }
}

} // verus!

verus! {

/// Adding a row over well-formed rows keeps them well-formed, and
/// afterwards every address answers from the new row where it covers,
/// and as before elsewhere: the last writer wins.
pub proof fn lemma_push_ranges_props(rs: Seq<RangeMapping>, gs: u64, ge: u64, hb: u64)
    requires
        wf_ranges(rs),
        gs < ge,
        hb + (ge - gs) <= u64::MAX as int + 1,
    ensures
        wf_ranges(spec_push_ranges(rs, gs, ge, hb)),
        forall|addr: int|
            #[trigger] spec_lookup(spec_push_ranges(rs, gs, ge, hb), addr) == if gs <= addr < ge {
                Some(hb + (addr - gs))
            } else {
                spec_lookup(rs, addr)
            },
{
    let nr = RangeMapping { guest_start: gs, guest_end: ge, host_base: hb };
    let lc = spec_left_clips(rs, gs);
    let rc = spec_right_clips(rs, ge);
    let whole = lc + seq![nr] + rc;
    lemma_left_clips_wf(rs, gs);
    lemma_right_clips_wf(rs, ge);
    let l = lc.len() as int;
    assert(whole[l] == nr);
    assert(forall|j: int| 0 <= j < l ==> #[trigger] whole[j] == lc[j]);
    assert(forall|j: int| 0 <= j < rc.len() ==> #[trigger] whole[l + 1 + j] == rc[j]);
    assert forall|i: int|
        0 <= i < whole.len() implies (#[trigger] whole[i]).guest_start < whole[i].guest_end
        && whole[i].host_base + (whole[i].guest_end - whole[i].guest_start) <= u64::MAX as int
        + 1 by {
        if i < l {
            assert(whole[i] == lc[i]);
        } else if i > l {
            assert(whole[i] == rc[i - l - 1]);
        }
    }
    assert forall|i: int, j: int|
        0 <= i < j < whole.len() implies (#[trigger] whole[i]).guest_end <= (
    #[trigger] whole[j]).guest_start by {
        if i < l {
            assert(whole[i] == lc[i]);
            assert(lc[i].guest_end <= gs);
        }
        if j < l {
            assert(whole[j] == lc[j]);
        }
        if i > l {
            assert(whole[i] == rc[i - l - 1]);
        }
        if j > l {
            assert(whole[j] == rc[j - l - 1]);
            assert(rc[j - l - 1].guest_start >= ge);
        }
    }
    assert forall|addr: int|
        #[trigger] spec_lookup(whole, addr) == (if gs <= addr < ge {
            Some(hb + (addr - gs))
        } else {
            spec_lookup(rs, addr)
        }) by {
        lemma_lookup_concat(lc + seq![nr], rc, addr);
        lemma_lookup_concat(lc, seq![nr], addr);
        assert(seq![nr].drop_first() =~= Seq::<RangeMapping>::empty());
        assert(spec_lookup(Seq::<RangeMapping>::empty(), addr) is None);
        assert(spec_lookup(seq![nr], addr) == if range_contains(nr, addr) {
            Some(nr.host_base + (addr - nr.guest_start))
        } else {
            None
        });
        lemma_left_clips_lookup(rs, gs, addr);
        lemma_right_clips_lookup(rs, ge, addr);
    }
}

/// Rows kept well-formed through a whole build.
pub proof fn lemma_build_table_wf(ms: Seq<Mapping>, map_base: u64)
    ensures
        wf_ranges(spec_build_table(ms, map_base)),
    decreases ms.len(),
{
    if ms.len() == 0 {
        assert(wf_ranges(spec_build_table(ms, map_base)));
    } else {
        lemma_build_table_wf(ms.drop_last(), map_base);
        let m = ms.last();
        if spec_entry_ok(m, map_base) {
            lemma_push_ranges_props(
                spec_build_table(ms.drop_last(), map_base),
                m.range_start,
                m.range_end,
                (map_base + m.remap_start) as u64,
            );
        }
    }
}

/// Where an address is remapped to by the entry list itself: the last
/// usable entry covering it decides.
pub open spec fn spec_entries_lookup(ms: Seq<Mapping>, map_base: u64, addr: int) -> Option<int>
    decreases ms.len(),
{
    if ms.len() == 0 {
        None
    } else {
        let m = ms.last();
        if spec_entry_ok(m, map_base) && m.range_start <= addr < m.range_end {
            Some(map_base + m.remap_start + (addr - m.range_start))
        } else {
            spec_entries_lookup(ms.drop_last(), map_base, addr)
        }
    }
}

/// The built table answers exactly as the entry list does, last usable
/// covering entry first.
pub proof fn lemma_build_table_lookup(ms: Seq<Mapping>, map_base: u64, addr: int)
    ensures
        spec_lookup(spec_build_table(ms, map_base), addr) == spec_entries_lookup(
            ms,
            map_base,
            addr,
        ),
    decreases ms.len(),
{
    if ms.len() == 0 {
        assert(spec_build_table(ms, map_base) =~= Seq::<RangeMapping>::empty());
    } else {
        lemma_build_table_lookup(ms.drop_last(), map_base, addr);
        let m = ms.last();
        if spec_entry_ok(m, map_base) {
            lemma_build_table_wf(ms.drop_last(), map_base);
            lemma_push_ranges_props(
                spec_build_table(ms.drop_last(), map_base),
                m.range_start,
                m.range_end,
                (map_base + m.remap_start) as u64,
            );
        }
    }
}

/// Scanning a concatenated entry list from the back tries the second
/// part first.
pub proof fn lemma_entries_lookup_concat(
    a: Seq<Mapping>,
    b: Seq<Mapping>,
    map_base: u64,
    addr: int,
)
    ensures
        spec_entries_lookup(a + b, map_base, addr) == match spec_entries_lookup(
            b,
            map_base,
            addr,
        ) {
            Some(v) => Some(v),
            None => spec_entries_lookup(a, map_base, addr),
        },
    decreases b.len(),
{
    if b.len() == 0 {
        assert(a + b =~= a);
    } else {
        assert((a + b).last() == b.last());
        assert((a + b).drop_last() =~= a + b.drop_last());
        lemma_entries_lookup_concat(a, b.drop_last(), map_base, addr);
    }
}

/// Law: a report that repeats one identical dump of the region list
/// twice builds a table that translates every address exactly as the
/// single dump's table does — repeated coverage is de-duplicated by
/// the last-writer-wins merge.
pub proof fn lemma_build_table_duplicate(ms: Seq<Mapping>, map_base: u64, addr: int)
    ensures
        spec_lookup(spec_build_table(ms + ms, map_base), addr) == spec_lookup(
            spec_build_table(ms, map_base),
            addr,
        ),
{
    lemma_build_table_lookup(ms + ms, map_base, addr);
    lemma_build_table_lookup(ms, map_base, addr);
    lemma_entries_lookup_concat(ms, ms, map_base, addr);
}

/// Law: translating one byte at any row's guest start yields the row's
/// host base, and at its last guest address the host base plus the
/// row's length minus one.
pub proof fn lemma_translate_round_trip(rs: Seq<RangeMapping>, i: int)
    requires
        wf_ranges(rs),
        0 <= i < rs.len(),
    ensures
        spec_translate(rs, rs[i].guest_start as int, 1) == Some(rs[i].host_base as int),
        spec_translate(rs, rs[i].guest_end - 1, 1) == Some(
            rs[i].host_base + (rs[i].guest_end - rs[i].guest_start) - 1,
        ),
{
    lemma_translate_at(rs, rs[i].guest_start as int, 1, i);
    lemma_translate_at(rs, rs[i].guest_end - 1, 1, i);
}

} // verus!

verus! {

/// When every range ends at or below `ge`, nothing survives a right
/// clip.
pub proof fn lemma_right_clips_empty(rs: Seq<RangeMapping>, ge: u64)
    requires
        forall|i: int| 0 <= i < rs.len() ==> (#[trigger] rs[i]).guest_end <= ge,
    ensures
        spec_right_clips(rs, ge) == Seq::<RangeMapping>::empty(),
    decreases rs.len(),
{
    if rs.len() > 0 {
        assert forall|i: int|
            0 <= i < rs.drop_first().len() implies (#[trigger] rs.drop_first()[i]).guest_end
            <= ge by {
            assert(rs.drop_first()[i] == rs[i + 1]);
        }
        lemma_right_clips_empty(rs.drop_first(), ge);
    }
}

/// Adding a row that begins at or above every existing end appends it
/// unchanged.
pub proof fn lemma_push_ranges_append(rs: Seq<RangeMapping>, gs: u64, ge: u64, hb: u64)
    requires
        gs < ge,
        forall|i: int| 0 <= i < rs.len() ==> (#[trigger] rs[i]).guest_start < rs[i].guest_end,
        forall|i: int| 0 <= i < rs.len() ==> (#[trigger] rs[i]).guest_end <= gs,
    ensures
        spec_push_ranges(rs, gs, ge, hb) == rs.push(
            RangeMapping { guest_start: gs, guest_end: ge, host_base: hb },
        ),
{
    lemma_left_clips_id(rs, gs);
    assert forall|i: int| 0 <= i < rs.len() implies (#[trigger] rs[i]).guest_end <= ge by {}
    lemma_right_clips_empty(rs, ge);
    assert(spec_push_ranges(rs, gs, ge, hb) =~= rs.push(
        RangeMapping { guest_start: gs, guest_end: ge, host_base: hb },
    ));
}

/// The table row one usable region becomes, based at `map_base`.
pub open spec fn spec_entry_row(m: Mapping, map_base: u64) -> RangeMapping {
    RangeMapping {
        guest_start: m.range_start,
        guest_end: m.range_end,
        host_base: (map_base + m.remap_start) as u64,
    }
}

/// Law: discovery output that is already sorted, disjoint and usable —
/// as every fixed fallback table is — passes into the table unchanged,
/// one row per region, in order.
pub proof fn lemma_build_table_sorted(ms: Seq<Mapping>, map_base: u64)
    requires
        forall|i: int| 0 <= i < ms.len() ==> spec_entry_ok(#[trigger] ms[i], map_base),
        forall|i: int, j: int|
            0 <= i < j < ms.len() ==> (#[trigger] ms[i]).range_end <= (
            #[trigger] ms[j]).range_start,
    ensures
        spec_build_table(ms, map_base) == ms.map_values(
            |m: Mapping| spec_entry_row(m, map_base),
        ),
    decreases ms.len(),
{
    let rows = ms.map_values(|m: Mapping| spec_entry_row(m, map_base));
    if ms.len() == 0 {
        assert(spec_build_table(ms, map_base) =~= rows);
    } else {
        let pre = ms.drop_last();
        assert forall|i: int|
            0 <= i < pre.len() implies spec_entry_ok(#[trigger] pre[i], map_base) by {
            assert(pre[i] == ms[i]);
        }
        assert forall|i: int, j: int|
            0 <= i < j < pre.len() implies (#[trigger] pre[i]).range_end <= (
        #[trigger] pre[j]).range_start by {
            assert(pre[i] == ms[i]);
            assert(pre[j] == ms[j]);
        }
        lemma_build_table_sorted(pre, map_base);
        let m = ms.last();
        let prows = pre.map_values(|mm: Mapping| spec_entry_row(mm, map_base));
        assert forall|i: int|
            0 <= i < prows.len() implies (#[trigger] prows[i]).guest_start
            < prows[i].guest_end && prows[i].guest_end <= m.range_start by {
            assert(prows[i] == spec_entry_row(pre[i], map_base));
            assert(ms[i].range_end <= m.range_start);
        }
        lemma_push_ranges_append(
            prows,
            m.range_start,
            m.range_end,
            (map_base + m.remap_start) as u64,
        );
        assert(spec_build_table(ms, map_base) =~= rows);
    }
}

} // verus!
