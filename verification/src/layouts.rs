//! Layouts and accesses of one part of an image along a plan: whether every command finds
//! the part in the layout that it names and behind a barrier that lets it in.

use vstd::prelude::*;
use crate::commands;
use crate::commands::{
    Access, Binding, Cmd, ImageBarrier, Subresources, ACCESS_SHADER_SAMPLED_READ,
    STAGE_COMPUTE_SHADER, STAGE_FRAGMENT_SHADER,
};

verus! {

/// One layer of one mip of an image, and the views through which shaders reach it.
pub struct Part {
    pub image: u64,
    pub mip: int,
    pub layer: int,
    pub views: Set<u64>,
}

/// How a part stands between two commands.
pub struct Held {
    pub layout: i32,
    /// What the last barrier lets in.
    pub ready: Access,
    /// What went on since that barrier.
    pub used: Option<Access>,
}

/// A part that nothing was done to yet.
pub open spec fn at_rest(layout: i32, ready: Access) -> Held {
    Held { layout, ready, used: None }
}

pub open spec fn holds(r: Subresources, p: Part) -> bool {
    r.base_mip <= p.mip < r.base_mip + r.mips && r.base_layer <= p.layer < r.base_layer + r.layers
}

pub open spec fn governs(b: ImageBarrier, p: Part) -> bool {
    b.image == p.image && holds(b.range, p)
}

/// Sampled by compute and fragment shaders alike.
pub open spec fn sampled_anywhere() -> Access {
    commands::access_at(STAGE_COMPUTE_SHADER | STAGE_FRAGMENT_SHADER, ACCESS_SHADER_SAMPLED_READ)
}

/// A barrier that is ready for `ready` lets `a` in.
pub open spec fn lets_in(ready: Access, a: Access) -> bool {
    ready == a || (ready == sampled_anywhere() && a == commands::compute_sample())
}

/// The layout that a copy, a clear or a binding of a compute pass names for the part, and
/// its access to it.
pub open spec fn touches(c: Cmd, p: Part) -> Option<(i32, Access)> {
    match c {
        Cmd::CopyBufferToImage { image, layout, .. } => if image == p.image {
            Some((layout, commands::copy_write()))
        } else {
            None
        },
        Cmd::CopyStagingToImage { image, layout } => if image == p.image {
            Some((layout, commands::copy_write()))
        } else {
            None
        },
        Cmd::CopyImage { src, src_layout, dst, dst_layout } => if src == p.image {
            Some((src_layout, commands::copy_read()))
        } else if dst == p.image {
            Some((dst_layout, commands::copy_write()))
        } else {
            None
        },
        Cmd::ClearColor { image, layout, range, .. } => if image == p.image && holds(range, p) {
            Some((layout, commands::clear_write()))
        } else {
            None
        },
        Cmd::Bind { what, .. } => match what {
            Binding::Sampled { view, layout, .. } => if p.views.contains(view) {
                Some((layout, commands::compute_sample()))
            } else {
                None
            },
            Binding::StorageImage { view, layout } => if p.views.contains(view) {
                Some((layout, commands::compute_write()))
            } else {
                None
            },
            _ => None,
        },
        _ => None,
    }
}

/// Command `c` may come now: a barrier starts in the layout that the part is in and waits
/// for what went on, and everything else names that layout and was let in.
pub open spec fn in_order(h: Held, c: Cmd, p: Part) -> bool {
    match c {
        Cmd::ImageBarrier(b) => governs(b, p) ==> {
            &&& b.old_layout == h.layout
            &&& h.used is Some ==> b.src == h.used->Some_0
        },
        _ => touches(c, p) is Some ==> {
            &&& touches(c, p)->Some_0.0 == h.layout
            &&& lets_in(h.ready, touches(c, p)->Some_0.1)
        },
    }
}

pub open spec fn after_one(h: Held, c: Cmd, p: Part) -> Held {
    match c {
        Cmd::ImageBarrier(b) => if governs(b, p) {
            at_rest(b.new_layout, b.dst)
        } else {
            h
        },
        _ => match touches(c, p) {
            Some(t) => Held { used: Some(t.1), ..h },
            None => h,
        },
    }
}

/// How the part stands behind the plan.
pub open spec fn after(h: Held, cmds: Seq<Cmd>, p: Part) -> Held
    decreases cmds.len(),
{
    if cmds.len() == 0 {
        h
    } else {
        after_one(after(h, cmds.drop_last(), p), cmds.last(), p)
    }
}

/// Every command of the plan comes in order.
pub open spec fn orderly(h: Held, cmds: Seq<Cmd>, p: Part) -> bool
    decreases cmds.len(),
{
    cmds.len() == 0 || (orderly(h, cmds.drop_last(), p) && in_order(
        after(h, cmds.drop_last(), p),
        cmds.last(),
        p,
    ))
}

pub proof fn lemma_concat(h: Held, a: Seq<Cmd>, b: Seq<Cmd>, p: Part)
    ensures
        after(h, a + b, p) == after(after(h, a, p), b, p),
        orderly(h, a + b, p) <==> orderly(h, a, p) && orderly(after(h, a, p), b, p),
    decreases b.len(),
{
    if b.len() == 0 {
        assert(a + b =~= a);
    } else {
        lemma_concat(h, a, b.drop_last(), p);
        assert((a + b).drop_last() =~= a + b.drop_last());
        assert((a + b).last() == b.last());
    }
}

/// The command has nothing to do with the part.
pub open spec fn elsewhere(c: Cmd, p: Part) -> bool {
    match c {
        Cmd::ImageBarrier(b) => !governs(b, p),
        _ => touches(c, p) is None,
    }
}

pub proof fn lemma_elsewhere(h: Held, cmds: Seq<Cmd>, p: Part)
    requires
        forall|i: int| 0 <= i < cmds.len() ==> elsewhere(#[trigger] cmds[i], p),
    ensures
        after(h, cmds, p) == h,
        orderly(h, cmds, p),
    decreases cmds.len(),
{
    if cmds.len() > 0 {
        let less = cmds.drop_last();
        assert forall|i: int| 0 <= i < less.len() implies elsewhere(#[trigger] less[i], p) by {
            assert(less[i] == cmds[i]);
        }
        lemma_elsewhere(h, less, p);
        assert(elsewhere(cmds[cmds.len() - 1], p));
    }
}

/// The command has nothing to do with the part, or reaches it in `layout` for `a`.
pub open spec fn reaches(c: Cmd, p: Part, layout: i32, a: Access) -> bool {
    elsewhere(c, p) || (!(c is ImageBarrier) && touches(c, p) == Some((layout, a)))
}

/// A stretch of commands that are all let in for `a` leaves the part where it is.
pub proof fn lemma_uses(h: Held, cmds: Seq<Cmd>, p: Part, a: Access)
    requires
        lets_in(h.ready, a),
        h.used is Some ==> h.used->Some_0 == a,
        forall|i: int| 0 <= i < cmds.len() ==> reaches(#[trigger] cmds[i], p, h.layout, a),
    ensures
        orderly(h, cmds, p),
        after(h, cmds, p).layout == h.layout,
        after(h, cmds, p).ready == h.ready,
        after(h, cmds, p).used is Some ==> after(h, cmds, p).used->Some_0 == a,
    decreases cmds.len(),
{
    if cmds.len() > 0 {
        let less = cmds.drop_last();
        assert forall|i: int| 0 <= i < less.len() implies reaches(
            #[trigger] less[i],
            p,
            h.layout,
            a,
        ) by {
            assert(less[i] == cmds[i]);
        }
        lemma_uses(h, less, p, a);
        let c = cmds[cmds.len() - 1];
        assert(reaches(c, p, h.layout, a));
        assert(c == cmds.last());
    }
}

/// Issued barriers of which exactly the one at `k` is over the part.
pub proof fn lemma_issued(h: Held, bs: Seq<ImageBarrier>, p: Part, k: int)
    requires
        0 <= k < bs.len(),
        governs(bs[k], p),
        forall|i: int| 0 <= i < bs.len() && i != k ==> !governs(#[trigger] bs[i], p),
        in_order(h, Cmd::ImageBarrier(bs[k]), p),
    ensures
        orderly(h, commands::issued(bs), p),
        after(h, commands::issued(bs), p) == at_rest(bs[k].new_layout, bs[k].dst),
{
    let all = commands::issued(bs);
    let head = all.take(k);
    let one = seq![Cmd::ImageBarrier(bs[k])];
    let tail = all.skip(k + 1);
    assert(all =~= head + one + tail);
    assert forall|i: int| 0 <= i < head.len() implies elsewhere(#[trigger] head[i], p) by {
        assert(head[i] == Cmd::ImageBarrier(bs[i]));
    }
    assert forall|i: int| 0 <= i < tail.len() implies elsewhere(#[trigger] tail[i], p) by {
        if i + k + 1 < bs.len() {
            assert(tail[i] == Cmd::ImageBarrier(bs[i + k + 1]));
        } else {
            assert(tail[i] == Cmd::Barriers);
        }
    }
    lemma_elsewhere(h, head, p);
    assert(one.drop_last() =~= Seq::<Cmd>::empty());
    assert(one.last() == Cmd::ImageBarrier(bs[k]));
    assert(orderly(h, one, p) && after(h, one, p) == at_rest(bs[k].new_layout, bs[k].dst)) by {
        reveal_with_fuel(after, 2);
        reveal_with_fuel(orderly, 2);
    }
    lemma_concat(h, head, one, p);
    lemma_elsewhere(after(h, head + one, p), tail, p);
    lemma_concat(h, head + one, tail, p);
}

/// A clear between two barriers.
pub proof fn lemma_cleared(
    h: Held,
    entry: Seq<ImageBarrier>,
    i: int,
    clear: Cmd,
    exit: Seq<ImageBarrier>,
    j: int,
    p: Part,
)
    requires
        0 <= i < entry.len(),
        0 <= j < exit.len(),
        governs(entry[i], p),
        governs(exit[j], p),
        forall|k: int| 0 <= k < entry.len() && k != i ==> !governs(#[trigger] entry[k], p),
        forall|k: int| 0 <= k < exit.len() && k != j ==> !governs(#[trigger] exit[k], p),
        in_order(h, Cmd::ImageBarrier(entry[i]), p),
        clear is ClearColor,
        touches(clear, p) == Some((entry[i].new_layout, entry[i].dst)),
        exit[j].old_layout == entry[i].new_layout,
        exit[j].src == entry[i].dst,
    ensures
        ({
            let cmds = commands::issued(entry) + seq![clear] + commands::issued(exit);
            &&& orderly(h, cmds, p)
            &&& after(h, cmds, p) == at_rest(exit[j].new_layout, exit[j].dst)
        }),
{
    let one = seq![clear];
    lemma_issued(h, entry, p, i);
    let ready = after(h, commands::issued(entry), p);
    assert forall|k: int| 0 <= k < one.len() implies reaches(
        #[trigger] one[k],
        p,
        ready.layout,
        ready.ready,
    ) by {}
    lemma_uses(ready, one, p, ready.ready);
    lemma_issued(after(ready, one, p), exit, p, j);
    lemma_concat(h, commands::issued(entry), one, p);
    lemma_concat(h, commands::issued(entry) + one, commands::issued(exit), p);
}

/// Every command reaches the part in `layout` for `a`, or not at all.
pub open spec fn all_reach(cmds: Seq<Cmd>, p: Part, layout: i32, a: Access) -> bool {
    forall|i: int| 0 <= i < cmds.len() ==> reaches(#[trigger] cmds[i], p, layout, a)
}

pub proof fn lemma_all_reach(a: Seq<Cmd>, b: Seq<Cmd>, p: Part, layout: i32, u: Access)
    requires
        all_reach(a, p, layout, u),
        all_reach(b, p, layout, u),
    ensures
        all_reach(a + b, p, layout, u),
{
    let c = a + b;
    assert forall|i: int| 0 <= i < c.len() implies reaches(#[trigger] c[i], p, layout, u) by {
        if i < a.len() {
            assert(c[i] == a[i]);
        } else {
            assert(c[i] == b[i - a.len()]);
        }
    }
}

/// Barriers over other parts do not reach this one.
pub proof fn lemma_issued_elsewhere(bs: Seq<ImageBarrier>, p: Part, layout: i32, a: Access)
    requires
        forall|i: int| 0 <= i < bs.len() ==> !governs(#[trigger] bs[i], p),
    ensures
        all_reach(commands::issued(bs), p, layout, a),
{
    let cmds = commands::issued(bs);
    assert forall|i: int| 0 <= i < cmds.len() implies reaches(#[trigger] cmds[i], p, layout, a) by {
        if i < bs.len() {
            assert(cmds[i] == Cmd::ImageBarrier(bs[i]));
        } else {
            assert(cmds[i] == Cmd::Barriers);
        }
    }
}

} // verus!
