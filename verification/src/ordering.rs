//! What the buffers of a plan wait for: whether everything that is written is waited for
//! before it is read.

use vstd::prelude::*;
use crate::commands;
use crate::commands::{
    Access, Cmd, ACCESS_INDIRECT_COMMAND_READ, ACCESS_SHADER_STORAGE_READ,
    ACCESS_SHADER_STORAGE_WRITE, ACCESS_TRANSFER_READ, ACCESS_TRANSFER_WRITE, STAGE_CLEAR,
    STAGE_COMPUTE_SHADER, STAGE_COPY, STAGE_DRAW_INDIRECT,
};

verus! {

/// How the memory stands between two commands.
pub struct Flow {
    /// The writes that nothing waited for yet.
    pub dirty: Option<Access>,
    /// What the last barrier lets in.
    pub ready: Access,
}

pub open spec fn filling() -> Access {
    commands::access_at(STAGE_CLEAR, ACCESS_TRANSFER_WRITE)
}

pub open spec fn storing() -> Access {
    commands::access_at(STAGE_COMPUTE_SHADER, ACCESS_SHADER_STORAGE_WRITE)
}

pub open spec fn shading() -> Access {
    commands::access_at(
        STAGE_COMPUTE_SHADER,
        ACCESS_SHADER_STORAGE_READ | ACCESS_SHADER_STORAGE_WRITE,
    )
}

pub open spec fn drawing() -> Access {
    commands::access_at(STAGE_DRAW_INDIRECT, ACCESS_INDIRECT_COMMAND_READ)
}

pub open spec fn drawing_and_copying() -> Access {
    commands::access_at(
        STAGE_DRAW_INDIRECT | STAGE_COPY,
        ACCESS_INDIRECT_COMMAND_READ | ACCESS_TRANSFER_READ,
    )
}

/// Everything before the plan is done.
pub open spec fn settled() -> Flow {
    Flow { dirty: None, ready: shading() }
}

/// Command `c` may come now: a barrier waits for what was written, and a dispatch or a copy
/// comes behind a barrier that lets it in.
pub open spec fn in_turn(f: Flow, c: Cmd) -> bool {
    match c {
        Cmd::FillBuffer { .. } => f.dirty is None || f.dirty == Some(filling()),
        Cmd::Dispatch { .. } => f.dirty is None && f.ready == shading(),
        Cmd::CopyBuffer { .. } => f.dirty is None && (f.ready == commands::copy_read() || f.ready
            == drawing_and_copying()),
        Cmd::MemoryBarrier { src, .. } => f.dirty == Some(src),
        _ => true,
    }
}

pub open spec fn after_one(f: Flow, c: Cmd) -> Flow {
    match c {
        Cmd::FillBuffer { .. } => Flow { dirty: Some(filling()), ..f },
        Cmd::Dispatch { .. } => Flow { dirty: Some(storing()), ..f },
        Cmd::CopyBuffer { .. } => Flow { dirty: Some(commands::copy_write()), ..f },
        Cmd::MemoryBarrier { dst, .. } => Flow { dirty: None, ready: dst },
        _ => f,
    }
}

pub open spec fn after(f: Flow, cmds: Seq<Cmd>) -> Flow
    decreases cmds.len(),
{
    if cmds.len() == 0 {
        f
    } else {
        after_one(after(f, cmds.drop_last()), cmds.last())
    }
}

/// Every command of the plan comes in turn.
pub open spec fn waits(f: Flow, cmds: Seq<Cmd>) -> bool
    decreases cmds.len(),
{
    cmds.len() == 0 || (waits(f, cmds.drop_last()) && in_turn(
        after(f, cmds.drop_last()),
        cmds.last(),
    ))
}

pub proof fn lemma_concat(f: Flow, a: Seq<Cmd>, b: Seq<Cmd>)
    ensures
        after(f, a + b) == after(after(f, a), b),
        waits(f, a + b) <==> waits(f, a) && waits(after(f, a), b),
    decreases b.len(),
{
    if b.len() == 0 {
        assert(a + b =~= a);
    } else {
        lemma_concat(f, a, b.drop_last());
        assert((a + b).drop_last() =~= a + b.drop_last());
        assert((a + b).last() == b.last());
    }
}

pub proof fn lemma_one(f: Flow, c: Cmd)
    ensures
        after(f, seq![c]) == after_one(f, c),
        waits(f, seq![c]) <==> in_turn(f, c),
{
    assert(seq![c].drop_last() =~= Seq::<Cmd>::empty());
    assert(seq![c].last() == c);
    reveal_with_fuel(after, 2);
    reveal_with_fuel(waits, 2);
}

/// The command writes nothing and waits for nothing.
pub open spec fn quiet(c: Cmd) -> bool {
    !(c is FillBuffer || c is Dispatch || c is CopyBuffer || c is MemoryBarrier)
}

pub proof fn lemma_quiet(f: Flow, cmds: Seq<Cmd>)
    requires
        forall|i: int| 0 <= i < cmds.len() ==> quiet(#[trigger] cmds[i]),
    ensures
        after(f, cmds) == f,
        waits(f, cmds),
    decreases cmds.len(),
{
    if cmds.len() > 0 {
        let less = cmds.drop_last();
        assert forall|i: int| 0 <= i < less.len() implies quiet(#[trigger] less[i]) by {
            assert(less[i] == cmds[i]);
        }
        lemma_quiet(f, less);
        assert(quiet(cmds[cmds.len() - 1]));
    }
}

/// A barrier that waits for what was written.
pub proof fn lemma_barrier(f: Flow, src: Access, dst: Access)
    ensures
        after(f, commands::memory_barrier(src, dst)) == (Flow { dirty: None, ready: dst }),
        waits(f, commands::memory_barrier(src, dst)) <==> f.dirty == Some(src),
{
    let a = seq![Cmd::MemoryBarrier { src, dst }];
    let b = seq![Cmd::Barriers];
    assert(commands::memory_barrier(src, dst) =~= a + b);
    lemma_one(f, Cmd::MemoryBarrier { src, dst });
    lemma_one(after(f, a), Cmd::Barriers);
    lemma_concat(f, a, b);
}

/// A copy behind whatever lets it in.
pub proof fn lemma_copy(f: Flow, region: Cmd, src: u64, dst: u64)
    requires
        region is BufferRegion,
    ensures
        after(f, seq![region, Cmd::CopyBuffer { src, dst }]) == (Flow {
            dirty: Some(commands::copy_write()),
            ..f
        }),
        waits(f, seq![region, Cmd::CopyBuffer { src, dst }]) <==> in_turn(
            f,
            Cmd::CopyBuffer { src, dst },
        ),
{
    let c = Cmd::CopyBuffer { src, dst };
    assert(seq![region, c] =~= seq![region] + seq![c]);
    lemma_one(f, region);
    lemma_one(f, c);
    lemma_concat(f, seq![region], seq![c]);
}

} // verus!
