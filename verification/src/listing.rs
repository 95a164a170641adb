//! A listing of the chunks of an AMO model, as they are met walking it from
//! a position: every chunk with its nesting level, its position and head,
//! and its type where the walk knows it.

use crate::amo::{head_at, read_head, AmoHead, AmoType};
use crate::bytes::le32;
use vstd::prelude::*;

verus! {

/// A chunk met by the walk.
#[derive(Debug, Clone, Copy)]
pub struct AmoEntry {
    pub level: usize,
    pub pos: u64,
    pub head: AmoHead,
    /// The chunk's type, where the walk names it: not for chunks under a
    /// material or texture head, nor for unknown types.
    pub known: Option<AmoType>,
}

/// Whether a chunk under a parent of type `parent` is a record of a material
/// or texture head.
pub open spec fn under_records(parent: Option<u32>) -> bool {
    parent == Some(9u32) || parent == Some(0xau32)
}

/// The walk from byte `pos` of `d`: the chunks met, and whether it ended
/// without running out of data. `None` where it overflows a machine word.
/// The walk goes into the children of a chunk of a known branch type, and
/// after a chunk moves on as far as the chunk's size says.
pub open spec fn list_amo(d: Seq<u8>, pos: int, level: nat, parent: Option<u32>) -> Option<(Seq<AmoEntry>, bool)>
    decreases d.len() - pos, 0int,
{
    if pos < 0 || pos + 12 > d.len() {
        Some((Seq::empty(), false))
    } else {
        let h = head_at(d, pos);
        let known = if under_records(parent) {
            None
        } else {
            AmoType::of_ty(h.ty)
        };
        let e = AmoEntry { level: level as usize, pos: pos as u64, head: h, known };
        let done = if pos + h.size > u64::MAX {
            None
        } else {
            Some((seq![e], true))
        };
        if known is None || h.ty & 0xffffu32 == 0 {
            done
        } else if level + 1 > usize::MAX {
            None
        } else {
            match list_children(d, pos + 12, level + 1, h.ty, h.count as nat) {
                None => None,
                Some((es, false)) => Some((seq![e] + es, false)),
                Some((es, true)) => match done {
                    None => None,
                    Some(_) => Some((seq![e] + es, true)),
                },
            }
        }
    }
}

/// The walk over `n` chunks one after the other from byte `pos`, under a
/// parent of type `pty`.
pub open spec fn list_children(d: Seq<u8>, pos: int, level: nat, pty: u32, n: nat) -> Option<
    (Seq<AmoEntry>, bool),
>
    decreases d.len() - pos, n + 1,
{
    if n == 0 {
        Some((Seq::empty(), true))
    } else if pos < 0 || pos + 12 > d.len() {
        Some((Seq::empty(), false))
    } else {
        match list_amo(d, pos, level, Some(pty)) {
            None => None,
            Some((es, false)) => Some((es, false)),
            Some((es, true)) => {
                let next = pos + head_at(d, pos).size;
                if n == 1 {
                    Some((es, true))
                } else if next + 12 > d.len() {
                    Some((es, false))
                } else {
                    match list_children(d, next, level, pty, (n - 1) as nat) {
                        None => None,
                        Some((rest, ok)) => Some((es + rest, ok)),
                    }
                }
            },
        }
    }
}

proof fn lemma_levels_below(d: Seq<u8>, pos: int, level: nat, parent: Option<u32>)
    requires
        level <= usize::MAX,
    ensures
        list_amo(d, pos, level, parent) matches Some((es, _)) ==> forall|k: int|
            0 <= k < es.len() ==> (#[trigger] es[k]).level >= level && (k > 0 ==> es[k].level > level),
    decreases d.len() - pos, 0int,
{
    if !(pos < 0 || pos + 12 > d.len()) {
        let h = head_at(d, pos);
        let known = if under_records(parent) {
            None
        } else {
            AmoType::of_ty(h.ty)
        };
        let e = AmoEntry { level: level as usize, pos: pos as u64, head: h, known };
        if !(known is None || h.ty & 0xffffu32 == 0) && level + 1 <= usize::MAX {
            lemma_children_levels(d, pos + 12, level + 1, h.ty, h.count as nat);
            if let Some((es, _)) = list_amo(d, pos, level, parent) {
                let cs = list_children(d, pos + 12, level + 1, h.ty, h.count as nat)->Some_0.0;
                assert(es == seq![e] + cs);
                assert forall|k: int| 0 <= k < es.len() implies (#[trigger] es[k]).level >= level && (k > 0
                    ==> es[k].level > level) by {
                    if k > 0 {
                        assert(es[k] == cs[k - 1]);
                    }
                }
            }
        }
    }
}

proof fn lemma_children_levels(d: Seq<u8>, pos: int, level: nat, pty: u32, n: nat)
    requires
        level <= usize::MAX,
    ensures
        list_children(d, pos, level, pty, n) matches Some((es, _)) ==> forall|k: int|
            0 <= k < es.len() ==> (#[trigger] es[k]).level >= level,
    decreases d.len() - pos, n + 1,
{
    if n > 0 && !(pos < 0 || pos + 12 > d.len()) {
        lemma_levels_below(d, pos, level, Some(pty));
        let next = pos + head_at(d, pos).size;
        if n > 1 && next + 12 <= d.len() {
            lemma_children_levels(d, next, level, pty, (n - 1) as nat);
        }
        if let Some((es, _)) = list_children(d, pos, level, pty, n) {
            if let Some((first, true)) = list_amo(d, pos, level, Some(pty)) {
                if n > 1 && next + 12 <= d.len() {
                    if let Some((rest, _)) = list_children(d, next, level, pty, (n - 1) as nat) {
                        assert(es == first + rest);
                        assert forall|k: int| 0 <= k < es.len() implies (#[trigger] es[k]).level >= level by {
                            if k >= first.len() {
                                assert(es[k] == rest[k - first.len()]);
                            } else {
                                assert(es[k] == first[k]);
                            }
                        }
                    }
                }
            }
        }
    }
}

/// The listing from a position starts with the chunk there: its position,
/// its nesting level, and its head, the three little-endian words (type,
/// count, size) stored there; nothing is listed where no head fits, and the
/// walk then reports running out of data. A record under a material (9) or
/// texture (0xa) head is listed without a type and alone, and so is a chunk
/// of a leaf type (low 16 bits zero). Everything listed after the first
/// chunk lies deeper than it.
pub proof fn lemma_listing_layout(d: Seq<u8>, pos: int, level: nat, parent: Option<u32>)
    requires
        level <= usize::MAX,
        pos <= u64::MAX,
    ensures
        (pos < 0 || pos + 12 > d.len()) ==> list_amo(d, pos, level, parent) == Some(
            (Seq::<AmoEntry>::empty(), false),
        ),
        list_amo(d, pos, level, parent) matches Some((es, _)) ==> {
            &&& !(pos < 0 || pos + 12 > d.len()) ==> es.len() > 0
            &&& es.len() > 0 ==> {
                &&& es[0].pos == pos
                &&& es[0].level == level
                &&& es[0].head.ty == le32(d, pos)
                &&& es[0].head.count == le32(d, pos + 4)
                &&& es[0].head.size == le32(d, pos + 8)
                &&& (parent == Some(9u32) || parent == Some(0xau32)) ==> es[0].known is None && es.len() == 1
                &&& le32(d, pos) & 0xffffu32 == 0 ==> es.len() == 1
                &&& es[0].known is None ==> es.len() == 1
            }
            &&& forall|k: int| 1 <= k < es.len() ==> (#[trigger] es[k]).level > level
        },
{
    lemma_levels_below(d, pos, level, parent);
    if !(pos < 0 || pos + 12 > d.len()) {
        let h = head_at(d, pos);
        let known = if under_records(parent) {
            None
        } else {
            AmoType::of_ty(h.ty)
        };
        let e = AmoEntry { level: level as usize, pos: pos as u64, head: h, known };
        if let Some((es, _)) = list_amo(d, pos, level, parent) {
            if known is None || h.ty & 0xffffu32 == 0 {
                assert(es == seq![e]);
            } else {
                let cs = list_children(d, pos + 12, level + 1, h.ty, h.count as nat)->Some_0.0;
                assert(es == seq![e] + cs);
                assert(es[0] == e);
            }
        }
    }
}

/// Walks the chunk at byte `pos`, appending what it meets to `out`.
fn walk(d: &[u8], pos: u64, level: usize, parent: Option<u32>, out: &mut Vec<AmoEntry>) -> (r: Option<bool>)
    ensures
        match (r, list_amo(d@, pos as int, level as nat, parent)) {
            (Some(ok), Some((es, ok2))) => ok == ok2 && final(out)@ == old(out)@ + es,
            (None, None) => true,
            _ => false,
        },
        r matches Some(true) ==> pos + 12 <= d@.len() && pos + head_at(d@, pos as int).size <= u64::MAX,
    decreases d@.len() - pos, 0int,
{
    let len: usize = d.len();
    if pos > len as u64 || (len as u64) - pos < 12 {
        assert(old(out)@ + Seq::<AmoEntry>::empty() =~= old(out)@);
        return Some(false);
    }
    let p: usize = pos as usize;
    let h: AmoHead = read_head(d, p);
    let is_record: bool = match parent {
        Some(t) => t == 9 || t == 0xa,
        None => false,
    };
    let known: Option<AmoType> = if is_record {
        None
    } else {
        AmoType::from_ty(h.ty)
    };
    let e = AmoEntry { level, pos, head: h, known };
    let fits: bool = pos <= u64::MAX - h.size as u64;
    out.push(e);
    if known.is_none() || h.ty & 0xffff == 0 {
        return if fits {
            Some(true)
        } else {
            None
        };
    }
    if level == usize::MAX {
        return None;
    }
    let ghost mid = out@;
    let r = walk_children(d, pos + 12, level + 1, h.ty, h.count, out);
    proof {
        if let Some((es, _)) = list_children(d@, pos + 12, level as nat + 1, h.ty, h.count as nat) {
            assert(old(out)@ + (seq![e] + es) =~= mid + es);
        }
    }
    match r {
        None => None,
        Some(false) => Some(false),
        Some(true) => if fits {
            Some(true)
        } else {
            None
        },
    }
}

/// Walks `n` chunks one after the other from byte `start`, appending what it
/// meets to `out`.
fn walk_children(d: &[u8], start: u64, level: usize, pty: u32, n: u32, out: &mut Vec<AmoEntry>) -> (r: Option<bool>)
    requires
        start <= d@.len(),
    ensures
        match (r, list_children(d@, start as int, level as nat, pty, n as nat)) {
            (Some(ok), Some((es, ok2))) => ok == ok2 && final(out)@ == old(out)@ + es,
            (None, None) => true,
            _ => false,
        },
    decreases d@.len() - start, 1int,
{
    let len: usize = d.len();
    let ghost base = out@;
    let ghost all = list_children(d@, start as int, level as nat, pty, n as nat);
    let mut cur: u64 = start;
    let mut left: u32 = n;
    assert(out@.skip(base.len() as int) =~= Seq::<AmoEntry>::empty());
    assert(all == match list_children(d@, cur as int, level as nat, pty, left as nat) {
        None => None,
        Some((rest, ok)) => Some((out@.skip(base.len() as int) + rest, ok)),
    }) by {
        if let Some((rest, ok)) = all {
            assert(Seq::<AmoEntry>::empty() + rest =~= rest);
        }
    }
    while left > 0
        invariant
            len == d@.len(),
            start <= cur <= len,
            base == old(out)@,
            out@.len() >= base.len(),
            out@.take(base.len() as int) == base,
            all == list_children(d@, start as int, level as nat, pty, n as nat),
            all == match list_children(d@, cur as int, level as nat, pty, left as nat) {
                None => None,
                Some((rest, ok)) => Some((out@.skip(base.len() as int) + rest, ok)),
            },
        decreases left,
    {
        if (len as u64) - cur < 12 {
            assert(out@.skip(base.len() as int) + Seq::<AmoEntry>::empty() =~= out@.skip(base.len() as int));
            assert(out@ =~= base + out@.skip(base.len() as int));
            return Some(false);
        }
        let ghost before = out@;
        let r = walk(d, cur, level, Some(pty), out);
        let ghost mine = list_amo(d@, cur as int, level as nat, Some(pty));
        match r {
            None => {
                return None;
            },
            Some(false) => {
                proof {
                    let es = mine.unwrap().0;
                    assert(out@.skip(base.len() as int) =~= before.skip(base.len() as int) + es);
                    assert(out@ =~= base + out@.skip(base.len() as int));
                }
                return Some(false);
            },
            Some(true) => {},
        }
        let ghost es = mine.unwrap().0;
        assert(out@.skip(base.len() as int) =~= before.skip(base.len() as int) + es);
        assert(out@.take(base.len() as int) =~= base);
        left = left - 1;
        if left == 0 {
            assert(out@ =~= base + out@.skip(base.len() as int));
            return Some(true);
        }
        let size: u32 = read_head(d, cur as usize).size;
        let next: u64 = cur + size as u64;
        if next > len as u64 || (len as u64) - next < 12 {
            assert(out@ =~= base + out@.skip(base.len() as int));
            return Some(false);
        }
        proof {
            if let Some((rest, ok)) = list_children(d@, next as int, level as nat, pty, left as nat) {
                assert(before.skip(base.len() as int) + (es + rest) =~= out@.skip(base.len() as int) + rest);
            }
        }
        cur = next;
    }
    assert(out@.skip(base.len() as int) + Seq::<AmoEntry>::empty() =~= out@.skip(base.len() as int));
    assert(out@ =~= base + out@.skip(base.len() as int));
    Some(true)
}

/// Lists the chunks met walking the chunk at byte `pos` of `data`, at
/// nesting level `level`, under a parent of type `parent`, and whether the
/// walk ended without running out of data; `None` where the walk would
/// overflow a machine word.
pub fn enumerate_amo(data: &[u8], pos: u64, level: usize, parent: Option<u32>) -> (r: Option<(Vec<AmoEntry>, bool)>)
    ensures
        match (r, list_amo(data@, pos as int, level as nat, parent)) {
            (Some((v, ok)), Some((es, ok2))) => v@ == es && ok == ok2,
            (None, None) => true,
            _ => false,
        },
{
    let mut out: Vec<AmoEntry> = Vec::new();
    match walk(data, pos, level, parent, &mut out) {
        None => None,
        Some(ok) => {
            assert(Seq::<AmoEntry>::empty() + out@ =~= out@);
            Some((out, ok))
        },
    }
}

} // verus!
