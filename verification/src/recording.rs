//! What is recorded for a frame, told from the uses of its textures.

use vstd::prelude::*;
use crate::barrier::{
    after_uses, has_own_image, law_barrier_of_a_use, law_barriers_chain,
    law_barriers_come_in_order, law_last_use_counts, separates, use_ready, uses_barriers,
    uses_ready,
};
use crate::compiled::{
    commands_of, compile_passes, full_commands, law_pass_records_its_own, lemma_recorded,
    own_barriers, pass_commands, recorded_barriers, recorded_callbacks, CompiledPassView,
};
use crate::frame::{
    derived_barriers, export_parts, joined, law_acyclic_frame_runs_whole,
    law_pass_that_runs, lemma_export_parts, passes_ready, ScopeView,
};
use crate::pass::{PassView, TextureUse};
use crate::schedule::{law_order_is_topological, pass_dependencies, pass_order, ranked};
use crate::types::FrameGraphTexture;

verus! {

/// All uses of textures when the passes that `order` names are compiled: for each
/// pass those of its reads, of its writes, and of all exported textures.
pub open spec fn frame_uses<C>(
    passes: Seq<PassView<C>>,
    exported: Seq<TextureUse>,
    order: Seq<usize>,
) -> Seq<TextureUse>
    decreases order.len(),
{
    if order.len() == 0 {
        Seq::empty()
    } else {
        let pass = passes[order.last() as int];
        frame_uses(passes, exported, order.drop_last()) + (pass.reads + pass.writes + exported)
    }
}

proof fn lemma_compile_follows_uses<C>(
    textures: Map<u64, FrameGraphTexture>,
    passes: Seq<PassView<C>>,
    exported: Seq<TextureUse>,
    order: Seq<usize>,
)
    ensures
        ({
            let progress = compile_passes(textures, passes, exported, order);
            &&& progress.textures == after_uses(textures, frame_uses(passes, exported, order))
            &&& progress.before.len() == order.len()
            &&& derived_barriers(textures, passes, exported, order) == uses_barriers(
                textures,
                frame_uses(passes, exported, order),
            )
        }),
    decreases order.len(),
{
    if order.len() > 0 {
        let rest = order.drop_last();
        let pass = passes[order.last() as int];
        let past = frame_uses(passes, exported, rest);
        let own = pass.reads + pass.writes;
        let before = after_uses(textures, past);
        lemma_compile_follows_uses(textures, passes, exported, rest);
        law_barriers_come_in_order(textures, past, own + exported);
        law_barriers_come_in_order(before, own, exported);
        law_barriers_come_in_order(before, pass.reads, pass.writes);
        lemma_export_parts(textures, passes, exported, rest);
        let parts = export_parts(textures, passes, exported, order);
        let progress = compile_passes(textures, passes, exported, order);
        assert(parts.drop_last() =~= export_parts(textures, passes, exported, rest));
        assert(progress.before.drop_last() =~= compile_passes(
            textures,
            passes,
            exported,
            rest,
        ).before);
        assert(frame_uses(passes, exported, order) == past + (own + exported));
        assert(derived_barriers(textures, passes, exported, order) =~= uses_barriers(
            textures,
            frame_uses(passes, exported, order),
        ));
    }
}

proof fn lemma_compile_begins<C>(
    textures: Map<u64, FrameGraphTexture>,
    passes: Seq<PassView<C>>,
    exported: Seq<TextureUse>,
    order: Seq<usize>,
    k: int,
)
    requires
        0 <= k < order.len(),
    ensures
        ({
            let pass = passes[order[k] as int];
            let past = frame_uses(passes, exported, order.take(k));
            let own = pass.reads + pass.writes;
            &&& compile_passes(textures, passes, exported, order).before.len() == order.len()
            &&& compile_passes(textures, passes, exported, order).before[k] == uses_barriers(
                after_uses(textures, past),
                own,
            )
            &&& export_parts(textures, passes, exported, order).len() == order.len()
            &&& export_parts(textures, passes, exported, order)[k] == uses_barriers(
                after_uses(textures, past + own),
                exported,
            )
        }),
    decreases order.len(),
{
    let rest = order.drop_last();
    lemma_compile_follows_uses(textures, passes, exported, order);
    lemma_compile_follows_uses(textures, passes, exported, rest);
    lemma_export_parts(textures, passes, exported, order);
    if k < rest.len() {
        lemma_compile_begins(textures, passes, exported, rest, k);
        assert(rest.take(k) =~= order.take(k));
        assert(rest[k] == order[k]);
    } else {
        let pass = passes[order[k] as int];
        let past = frame_uses(passes, exported, rest);
        assert(order.take(k) =~= rest);
        assert(order.last() == order[k]);
        law_barriers_come_in_order(textures, past, pass.reads + pass.writes);
        law_barriers_come_in_order(after_uses(textures, past), pass.reads, pass.writes);
    }
}

/// Compiling a frame is using its textures one use after the other. The textures
/// are left as all uses leave them. The barriers before the pass at `k` in the
/// order are those of its reads and its writes after all uses before them, and the
/// barriers that exported textures get after it are those of the exports after
/// that.
pub proof fn law_compiling_follows_the_uses<C>(scope: ScopeView<C>, k: int)
    requires
        0 <= k < pass_order(scope.passes).len(),
    ensures
        ({
            let order = pass_order(scope.passes);
            let pass = scope.passes[order[k] as int];
            let past = frame_uses(scope.passes, scope.exported, order.take(k));
            let own = pass.reads + pass.writes;
            let parts = export_parts(scope.textures, scope.passes, scope.exported, order);
            &&& scope.compiled().compiled[k].before_execute == Some(
                uses_barriers(after_uses(scope.textures, past), own),
            )
            &&& parts[k] == uses_barriers(
                after_uses(scope.textures, past + own),
                scope.exported,
            )
            &&& scope.compiled().textures == after_uses(
                scope.textures,
                frame_uses(scope.passes, scope.exported, order),
            )
        }),
{
    let order = pass_order(scope.passes);
    lemma_compile_begins(scope.textures, scope.passes, scope.exported, order, k);
    lemma_compile_follows_uses(scope.textures, scope.passes, scope.exported, order);
}

/// What a pass waits for. The use at `u` among the reads and writes of the pass at
/// `k` has one barrier before the pass, from the access of the last use before it
/// of the same texture, at `j` among all uses so far, or from the access that the
/// texture had, if `j` is `-1`, to its own. If both are the same, it has none.
pub proof fn law_pass_waits_for_the_last_use<C>(scope: ScopeView<C>, k: int, u: int, j: int)
    requires
        0 <= k < pass_order(scope.passes).len(),
        ({
            let pass = scope.passes[pass_order(scope.passes)[k] as int];
            let own = pass.reads + pass.writes;
            let past = frame_uses(
                scope.passes,
                scope.exported,
                pass_order(scope.passes).take(k),
            );
            let events = past + own;
            &&& 0 <= u < own.len()
            &&& -1 <= j < past.len() + u
            &&& j >= 0 ==> events[j].0@ == own[u].0@
            &&& forall|i: int| j < i < past.len() + u ==> (#[trigger] events[i]).0@ != own[u].0@
        }),
    ensures
        ({
            let pass = scope.passes[pass_order(scope.passes)[k] as int];
            let own = pass.reads + pass.writes;
            let past = frame_uses(
                scope.passes,
                scope.exported,
                pass_order(scope.passes).take(k),
            );
            let events = past + own;
            let start = after_uses(scope.textures, past);
            let texture = scope.textures[own[u].0@];
            let from = if j < 0 {
                texture.last_access
            } else {
                events[j].1
            };
            let list = scope.compiled().compiled[k].before_execute->0;
            let at = uses_barriers(start, own.take(u)).len() as int;
            let next = uses_barriers(start, own.take(u + 1)).len();
            &&& scope.compiled().compiled[k].before_execute is Some
            &&& at <= next <= list.len()
            &&& from == own[u].1 ==> next == at
            &&& from != own[u].1 ==> next == at + 1 && separates(
                list[at],
                from,
                own[u].1,
                texture.image,
            )
        }),
{
    let order = pass_order(scope.passes);
    let pass = scope.passes[order[k] as int];
    let own = pass.reads + pass.writes;
    let past = frame_uses(scope.passes, scope.exported, order.take(k));
    let events = past + own;
    let start = after_uses(scope.textures, past);
    law_compiling_follows_the_uses(scope, k);
    let first = own.take(u + 1);
    assert(own =~= first + own.skip(u + 1));
    law_barriers_come_in_order(start, first, own.skip(u + 1));
    assert(events.take(past.len() + u) =~= past + own.take(u));
    assert(events.take(past.len() + u + 1) =~= past + first);
    law_barriers_come_in_order(scope.textures, past, own.take(u));
    law_barriers_come_in_order(scope.textures, past, first);
    law_barrier_of_a_use(scope.textures, events, past.len() + u, j);
    let whole = uses_barriers(scope.textures, past + first);
    let some = uses_barriers(start, first);
    assert(some.len() > 0 ==> whole.last() == some.last());
}

/// What an exported texture waits for, in the same way: the export at `u` has, after
/// the pass at `k`, one barrier from the access of the last use before it of the
/// same texture to the one that it asks for, or none, if both are the same.
pub proof fn law_export_waits_for_the_last_use<C>(scope: ScopeView<C>, k: int, u: int, j: int)
    requires
        0 <= k < pass_order(scope.passes).len(),
        0 <= u < scope.exported.len(),
        ({
            let pass = scope.passes[pass_order(scope.passes)[k] as int];
            let past = frame_uses(
                scope.passes,
                scope.exported,
                pass_order(scope.passes).take(k),
            ) + (pass.reads + pass.writes);
            let events = past + scope.exported;
            &&& -1 <= j < past.len() + u
            &&& j >= 0 ==> events[j].0@ == scope.exported[u].0@
            &&& forall|i: int|
                j < i < past.len() + u ==> (#[trigger] events[i]).0@ != scope.exported[u].0@
        }),
    ensures
        ({
            let pass = scope.passes[pass_order(scope.passes)[k] as int];
            let past = frame_uses(
                scope.passes,
                scope.exported,
                pass_order(scope.passes).take(k),
            ) + (pass.reads + pass.writes);
            let events = past + scope.exported;
            let start = after_uses(scope.textures, past);
            let texture = scope.textures[scope.exported[u].0@];
            let from = if j < 0 {
                texture.last_access
            } else {
                events[j].1
            };
            let list = export_parts(
                scope.textures,
                scope.passes,
                scope.exported,
                pass_order(scope.passes),
            )[k];
            let at = uses_barriers(start, scope.exported.take(u)).len() as int;
            let next = uses_barriers(start, scope.exported.take(u + 1)).len();
            &&& at <= next <= list.len()
            &&& from == scope.exported[u].1 ==> next == at
            &&& from != scope.exported[u].1 ==> next == at + 1 && separates(
                list[at],
                from,
                scope.exported[u].1,
                texture.image,
            )
        }),
{
    let order = pass_order(scope.passes);
    let pass = scope.passes[order[k] as int];
    let own = scope.exported;
    let past = frame_uses(scope.passes, scope.exported, order.take(k)) + (pass.reads
        + pass.writes);
    let events = past + own;
    let start = after_uses(scope.textures, past);
    law_compiling_follows_the_uses(scope, k);
    let first = own.take(u + 1);
    assert(own =~= first + own.skip(u + 1));
    law_barriers_come_in_order(start, first, own.skip(u + 1));
    assert(events.take(past.len() + u) =~= past + own.take(u));
    assert(events.take(past.len() + u + 1) =~= past + first);
    law_barriers_come_in_order(scope.textures, past, own.take(u));
    law_barriers_come_in_order(scope.textures, past, first);
    law_barrier_of_a_use(scope.textures, events, past.len() + u, j);
    let whole = uses_barriers(scope.textures, past + first);
    let some = uses_barriers(start, first);
    assert(some.len() > 0 ==> whole.last() == some.last());
}

/// The access that a frame leaves a texture in: that of the last of all its uses, at
/// `j`, or the one that it had, if `j` is `-1`.
pub proof fn law_frame_leaves_last_access<C>(scope: ScopeView<C>, key: u64, j: int)
    requires
        ({
            let events = frame_uses(scope.passes, scope.exported, pass_order(scope.passes));
            &&& -1 <= j < events.len()
            &&& j >= 0 ==> events[j].0@ == key
            &&& forall|i: int| j < i < events.len() ==> (#[trigger] events[i]).0@ != key
        }),
    ensures
        ({
            let events = frame_uses(scope.passes, scope.exported, pass_order(scope.passes));
            let left = scope.compiled().textures[key];
            &&& j >= 0 ==> left.last_access == events[j].1
            &&& j < 0 ==> left.last_access == scope.textures[key].last_access
            &&& left.image == scope.textures[key].image
            &&& left.allocation == scope.textures[key].allocation
        }),
{
    let order = pass_order(scope.passes);
    lemma_compile_follows_uses(scope.textures, scope.passes, scope.exported, order);
    law_last_use_counts(
        scope.textures,
        frame_uses(scope.passes, scope.exported, order),
        key,
        j,
    );
}

proof fn lemma_frame_uses_ready<C>(
    textures: Map<u64, FrameGraphTexture>,
    passes: Seq<PassView<C>>,
    exported: Seq<TextureUse>,
    order: Seq<usize>,
)
    requires
        passes_ready(textures, passes, exported, order),
    ensures
        uses_ready(textures, frame_uses(passes, exported, order)),
    decreases order.len(),
{
    if order.len() > 0 {
        let rest = order.drop_last();
        let pass = passes[order.last() as int];
        assert forall|k: int| 0 <= k < rest.len() implies uses_ready(
            textures,
            passes[#[trigger] rest[k] as int].reads,
        ) && uses_ready(textures, passes[rest[k] as int].writes) by {
            assert(rest[k] == order[k]);
        }
        lemma_frame_uses_ready(textures, passes, exported, rest);
        assert(order[order.len() - 1] == order.last());
        assert(uses_ready(textures, pass.reads) && uses_ready(textures, pass.writes));
        let past = frame_uses(passes, exported, rest);
        let all = frame_uses(passes, exported, order);
        assert forall|i: int| 0 <= i < all.len() implies #[trigger] use_ready(
            textures,
            all[i],
        ) by {
            let n = past.len();
            let r = n + pass.reads.len();
            let w = r + pass.writes.len();
            if i < n {
                assert(use_ready(textures, past[i]));
            } else if i < r {
                assert(use_ready(textures, pass.reads[i - n]));
            } else if i < w {
                assert(use_ready(textures, pass.writes[i - r]));
            } else {
                assert(use_ready(textures, exported[i - w]));
            }
        }
    }
}

/// Over a whole frame, too, barriers chain in all that they wait for: in the order
/// in which they are derived, each barrier of an image waits for the stage and makes
/// available the memory access that the one before it of that image, at `a`, led
/// to, and starts from its layout; the first starts from the access that the
/// texture had. This is of images that no other texture of the scope has.
pub proof fn law_frame_barriers_chain<C>(scope: ScopeView<C>, key: u64, a: int, b: int)
    requires
        scope.can_compile(),
        has_own_image(scope.textures, key),
        ({
            let barriers = derived_barriers(
                scope.textures,
                scope.passes,
                scope.exported,
                pass_order(scope.passes),
            );
            let image = scope.textures[key].image;
            &&& -1 <= a < b < barriers.len()
            &&& a >= 0 ==> barriers[a].image == image
            &&& barriers[b].image == image
            &&& forall|i: int| a < i < b ==> (#[trigger] barriers[i]).image != image
        }),
    ensures
        ({
            let barriers = derived_barriers(
                scope.textures,
                scope.passes,
                scope.exported,
                pass_order(scope.passes),
            );
            let start = scope.textures[key].last_access;
            &&& a >= 0 ==> barriers[b].src_stage == barriers[a].dst_stage && barriers[b].src_access
                == barriers[a].dst_access && barriers[b].old_layout == barriers[a].new_layout
            &&& a < 0 ==> barriers[b].src_stage == start.stage() && barriers[b].src_access
                == start.memory() && barriers[b].old_layout == start.layout()
        }),
{
    let order = pass_order(scope.passes);
    let uses = frame_uses(scope.passes, scope.exported, order);
    lemma_frame_uses_ready(scope.textures, scope.passes, scope.exported, order);
    lemma_compile_follows_uses(scope.textures, scope.passes, scope.exported, order);
    law_barriers_chain(scope.textures, uses, key, a, b);
}

/// What else compiling does: the pass at `k` in the order is compiled as number `k`,
/// with its callback; the indices of the order are those that run, and after them
/// that of the pass for exported textures, if they need barriers; nothing is left to
/// compile; and what was imported and exported stays.
pub proof fn law_compiled_frame<C>(scope: ScopeView<C>, k: int)
    ensures
        ({
            let order = pass_order(scope.passes);
            let compiled = scope.compiled();
            let extra = if joined(
                export_parts(scope.textures, scope.passes, scope.exported, order),
            ).len() == 0 {
                0int
            } else {
                1
            };
            &&& compiled.is_compiled
            &&& compiled.passes.len() == 0
            &&& compiled.imported == scope.imported
            &&& compiled.exported == scope.exported
            &&& compiled.issued == scope.issued
            &&& compiled.compiled.len() == order.len() + extra
            &&& compiled.execution_order.len() == order.len() + extra
            &&& 0 <= k < order.len() ==> {
                &&& compiled.execution_order[k] == order[k]
                &&& compiled.compiled[k].execute == scope.passes[order[k] as int].callback
                &&& compiled.compiled[k].after_execute is None
            }
            &&& extra == 1 ==> {
                &&& compiled.execution_order.last() == order.len() as usize
                &&& compiled.compiled.last().execute is None
                &&& compiled.compiled.last().before_execute is None
                &&& compiled.compiled.last().after_execute == Some(
                    joined(export_parts(scope.textures, scope.passes, scope.exported, order)),
                )
            }
        }),
{
    lemma_export_parts(scope.textures, scope.passes, scope.exported, pass_order(scope.passes));
}

/// When passes can be compiled: exactly if for each read and each write of each pass
/// in the order, and, if there is such a pass, for each export, the texture is in the
/// scope and both the access that it is in and the one that is asked for have
/// barriers.
pub proof fn law_when_passes_can_be_compiled<C>(scope: ScopeView<C>)
    ensures
        scope.can_compile() <==> {
            let order = pass_order(scope.passes);
            &&& forall|k: int, u: int|
                0 <= k < order.len() && 0 <= u < scope.passes[order[k] as int].reads.len()
                    ==> use_ready(
                    scope.textures,
                    #[trigger] scope.passes[order[k] as int].reads[u],
                )
            &&& forall|k: int, u: int|
                0 <= k < order.len() && 0 <= u < scope.passes[order[k] as int].writes.len()
                    ==> use_ready(
                    scope.textures,
                    #[trigger] scope.passes[order[k] as int].writes[u],
                )
            &&& order.len() > 0 ==> forall|u: int|
                0 <= u < scope.exported.len() ==> use_ready(
                    scope.textures,
                    #[trigger] scope.exported[u],
                )
        },
{
    let order = pass_order(scope.passes);
    if scope.can_compile() {
        assert forall|k: int, u: int|
            0 <= k < order.len() && 0 <= u
                < scope.passes[order[k] as int].reads.len() implies use_ready(
            scope.textures,
            #[trigger] scope.passes[order[k] as int].reads[u],
        ) by {
            assert(uses_ready(scope.textures, scope.passes[order[k] as int].reads));
        }
        assert forall|k: int, u: int|
            0 <= k < order.len() && 0 <= u
                < scope.passes[order[k] as int].writes.len() implies use_ready(
            scope.textures,
            #[trigger] scope.passes[order[k] as int].writes[u],
        ) by {
            assert(uses_ready(scope.textures, scope.passes[order[k] as int].writes));
        }
    }
}

/// When a frame can run: exactly if its passes are compiled or can be, and all
/// indices that are to run are those of compiled passes. A frame that is compiled
/// runs as it is, and one that is not is compiled first.
pub proof fn law_when_a_frame_can_run<C>(scope: ScopeView<C>)
    ensures
        scope.is_compiled ==> scope.ready() == scope,
        !scope.is_compiled ==> scope.ready() == scope.compiled(),
        scope.can_execute() <==> {
            &&& scope.is_compiled || scope.can_compile()
            &&& forall|k: int|
                0 <= k < scope.ready().execution_order.len() ==> (
                #[trigger] scope.ready().execution_order[k]) < scope.ready().compiled.len()
        },
{
}

/// Running takes the compiled passes and nothing else.
pub proof fn law_running_takes_passes_only<C>(scope: ScopeView<C>)
    ensures
        scope.executed().textures == scope.ready().textures,
        scope.executed().issued == scope.ready().issued,
        scope.executed().imported == scope.ready().imported,
        scope.executed().exported == scope.ready().exported,
        scope.executed().execution_order == scope.ready().execution_order,
        scope.executed().passes == scope.ready().passes,
        scope.executed().is_compiled,
{
}

/// The callbacks that there are, in order.
pub open spec fn given<C>(callbacks: Seq<Option<C>>) -> Seq<C>
    decreases callbacks.len(),
{
    if callbacks.len() == 0 {
        Seq::empty()
    } else {
        given(callbacks.drop_last()) + (match callbacks.last() {
            Some(callback) => seq![callback],
            None => Seq::empty(),
        })
    }
}

proof fn lemma_full_commands<C>(passes: Seq<CompiledPassView<C>>, order: Seq<usize>)
    ensures
        recorded_barriers(full_commands(passes, order)) == joined(
            Seq::new(order.len(), |k: int| own_barriers(passes[order[k] as int])),
        ),
        recorded_callbacks(full_commands(passes, order)) == given(
            Seq::new(order.len(), |k: int| passes[order[k] as int].execute),
        ),
    decreases order.len(),
{
    let lists = Seq::new(order.len(), |k: int| own_barriers(passes[order[k] as int]));
    let callbacks = Seq::new(order.len(), |k: int| passes[order[k] as int].execute);
    if order.len() > 0 {
        let rest = order.drop_last();
        let pass = passes[order.last() as int];
        lemma_full_commands(passes, rest);
        lemma_recorded(full_commands(passes, rest), pass_commands(pass));
        law_pass_records_its_own(pass);
        assert(lists.drop_last() =~= Seq::new(
            rest.len(),
            |k: int| own_barriers(passes[rest[k] as int]),
        ));
        assert(callbacks.drop_last() =~= Seq::new(
            rest.len(),
            |k: int| passes[rest[k] as int].execute,
        ));
    }
}

/// What an acyclic frame records: all image barriers that were derived for its
/// passes, pass by pass in the order in which they run, and then all those of the
/// exported textures; and each callback once, in the order in which the passes run.
pub proof fn law_frame_records_everything<C>(scope: ScopeView<C>, rank: spec_fn(usize) -> nat)
    requires
        scope.passes.len() < usize::MAX,
        ranked(pass_dependencies(scope.passes), rank),
    ensures
        ({
            let order = pass_order(scope.passes);
            let compiled = scope.compiled();
            let commands = commands_of(compiled.compiled, compiled.execution_order);
            let before = |p: int|
                uses_barriers(
                    after_uses(
                        scope.textures,
                        frame_uses(scope.passes, scope.exported, order.take(p)),
                    ),
                    scope.passes[order[p] as int].reads + scope.passes[order[p] as int].writes,
                );
            &&& recorded_barriers(commands) == joined(
                Seq::new(order.len(), |k: int| before(order[k] as int)),
            ) + joined(export_parts(scope.textures, scope.passes, scope.exported, order))
            &&& recorded_callbacks(commands) == given(
                Seq::new(
                    order.len(),
                    |k: int| scope.passes[order[order[k] as int] as int].callback,
                ),
            )
        }),
{
    let order = pass_order(scope.passes);
    let compiled = scope.compiled();
    let passes = compiled.compiled;
    let run = compiled.execution_order;
    let parts = export_parts(scope.textures, scope.passes, scope.exported, order);
    let before = |p: int|
        uses_barriers(
            after_uses(scope.textures, frame_uses(scope.passes, scope.exported, order.take(p))),
            scope.passes[order[p] as int].reads + scope.passes[order[p] as int].writes,
        );
    law_acyclic_frame_runs_whole(scope, rank);
    law_order_is_topological(pass_dependencies(scope.passes));
    law_compiled_frame(scope, 0);
    lemma_export_parts(scope.textures, scope.passes, scope.exported, order);
    lemma_full_commands(passes, run);
    let lists = Seq::new(run.len(), |k: int| own_barriers(passes[run[k] as int]));
    let callbacks = Seq::new(run.len(), |k: int| passes[run[k] as int].execute);
    let own_lists = Seq::new(order.len(), |k: int| before(order[k] as int));
    let own_callbacks = Seq::new(
        order.len(),
        |k: int| scope.passes[order[order[k] as int] as int].callback,
    );
    assert forall|k: int| 0 <= k < order.len() implies #[trigger] lists[k] == own_lists[k]
        && callbacks[k] == own_callbacks[k] by {
        assert(order.contains(order[k]));
        law_pass_that_runs(scope, rank, k);
        law_compiling_follows_the_uses(scope, order[k] as int);
        law_compiled_frame(scope, order[k] as int);
        assert(own_barriers(passes[order[k] as int]) =~= before(order[k] as int));
    }
    if joined(parts).len() == 0 {
        assert(lists =~= own_lists);
        assert(callbacks =~= own_callbacks);
        assert(joined(own_lists) + joined(parts) =~= joined(own_lists));
    } else {
        assert(lists.drop_last() =~= own_lists);
        assert(callbacks.drop_last() =~= own_callbacks);
        assert(passes[run[order.len() as int] as int] == passes.last());
        assert(own_barriers(passes.last()) =~= joined(parts));
        assert(lists.last() == joined(parts));
        assert(callbacks.last() == None::<C>);
        assert(given(callbacks) =~= given(own_callbacks));
    }
}

} // verus!
