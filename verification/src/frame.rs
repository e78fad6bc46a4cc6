//! What a frame scope holds, and what its calls make of it.

use vstd::prelude::*;
use crate::barrier::{
    after_uses, follows_layout, has_own_image, last_use, law_barriers_follow_layout,
    law_uses_track_access, layout_after, lemma_follows_on, lemma_ready_after, uses_barriers,
    uses_ready, ImageBarrier,
};
use crate::compiled::{
    commands_of, compile_passes, compiled_passes, full_commands, law_commands_are_complete,
    passes_left, CompiledPassView, Progress,
};
use crate::pass::{reads_written, PassView, TextureUse};
use crate::schedule::{
    law_acyclic_order_is_complete, law_order_is_topological, law_pass_dependencies,
    pass_dependencies, pass_order, ranked,
};
use crate::slots::{remembered, well_keyed};
use crate::types::FrameGraphTexture;

verus! {

/// What a scope holds beside its graph: the textures by the keys of their
/// handles, all keys that it has given out, the textures that were imported, the
/// uses that textures are exported with, the compiled passes, the indices of those
/// that are to run, in order, the passes yet to be compiled, and whether passes
/// have been compiled.
#[verifier::ext_equal]
pub struct ScopeView<C> {
    pub textures: Map<u64, FrameGraphTexture>,
    pub issued: Set<u64>,
    pub imported: Seq<FrameGraphTexture>,
    pub exported: Seq<TextureUse>,
    pub compiled: Seq<CompiledPassView<C>>,
    pub execution_order: Seq<usize>,
    pub passes: Seq<PassView<C>>,
    pub is_compiled: bool,
}

/// Whether passes can be compiled in an order: every texture that a pass in the
/// order uses is in the scope, and all accesses are supported; if any pass is in
/// the order, the same holds of the exported textures.
pub open spec fn passes_ready<C>(
    textures: Map<u64, FrameGraphTexture>,
    passes: Seq<PassView<C>>,
    exported: Seq<TextureUse>,
    order: Seq<usize>,
) -> bool {
    &&& forall|k: int|
        0 <= k < order.len() ==> uses_ready(textures, passes[#[trigger] order[k] as int].reads)
            && uses_ready(textures, passes[order[k] as int].writes)
    &&& order.len() > 0 ==> uses_ready(textures, exported)
}

impl<C> ScopeView<C> {
    /// A scope that holds nothing.
    pub open spec fn empty() -> ScopeView<C> {
        ScopeView {
            textures: Map::empty(),
            issued: Set::empty(),
            imported: Seq::empty(),
            exported: Seq::empty(),
            compiled: Seq::empty(),
            execution_order: Seq::empty(),
            passes: Seq::empty(),
            is_compiled: false,
        }
    }

    /// The textures are finitely many, each under a key, and the scope has
    /// given out their keys.
    pub open spec fn keyed(self) -> bool {
        well_keyed(self.textures) && self.textures.dom().subset_of(self.issued)
    }

    /// The scope with one more texture, under a new key.
    pub open spec fn with_texture(self, key: u64, texture: FrameGraphTexture) -> ScopeView<C> {
        ScopeView {
            textures: self.textures.insert(key, texture),
            issued: self.issued.insert(key),
            ..self
        }
    }

    /// The scope with one more texture, which was imported, under a new key.
    pub open spec fn with_import(self, key: u64, texture: FrameGraphTexture) -> ScopeView<C> {
        ScopeView { imported: self.imported.push(texture), ..self.with_texture(key, texture) }
    }

    /// The scope once it is asked to leave a texture in an access.
    pub open spec fn with_export(self, exported: TextureUse) -> ScopeView<C> {
        ScopeView { exported: self.exported.push(exported), ..self }
    }

    /// The scope with one more pass.
    pub open spec fn with_pass(self, pass: PassView<C>) -> ScopeView<C> {
        ScopeView { passes: self.passes.push(pass), ..self }
    }

    /// The scope after the end of the frame: its textures are gone, and the keys
    /// of slots that begin anew are forgotten.
    pub open spec fn ended(self) -> ScopeView<C> {
        ScopeView {
            textures: Map::empty(),
            issued: remembered(self.issued, self.textures),
            ..self
        }
    }

    /// Whether the passes can be compiled in their order.
    pub open spec fn can_compile(self) -> bool {
        passes_ready(self.textures, self.passes, self.exported, pass_order(self.passes))
    }

    /// What compiling the passes in their order leads to.
    pub open spec fn progress(self) -> Progress {
        compile_passes(self.textures, self.passes, self.exported, pass_order(self.passes))
    }

    /// The scope once its passes are compiled. The compiled passes are in the
    /// order of the passes; the indices of those that are to run are those of
    /// the passes in that order, followed by that of the pass for exported
    /// textures, if there is one.
    pub open spec fn compiled(self) -> ScopeView<C> {
        let order = pass_order(self.passes);
        ScopeView {
            textures: self.progress().textures,
            compiled: compiled_passes(self.passes, order, self.progress()),
            execution_order: if self.progress().exports.len() == 0 {
                order
            } else {
                order.push(order.len() as usize)
            },
            passes: Seq::empty(),
            is_compiled: true,
            ..self
        }
    }

    /// The scope that is about to run: with its passes compiled, if none were.
    pub open spec fn ready(self) -> ScopeView<C> {
        if self.is_compiled {
            self
        } else {
            self.compiled()
        }
    }

    /// Whether all passes that are to run exist.
    pub open spec fn in_range(self) -> bool {
        forall|k: int|
            0 <= k < self.execution_order.len() ==> (#[trigger] self.execution_order[k])
                < self.compiled.len()
    }

    /// Whether the scope can run: its passes are compiled or can be, and those
    /// that are to run exist.
    pub open spec fn can_execute(self) -> bool {
        &&& self.is_compiled || self.can_compile()
        &&& self.ready().in_range()
    }

    /// The scope after its passes were taken to run.
    pub open spec fn executed(self) -> ScopeView<C> {
        ScopeView {
            compiled: passes_left(self.ready().compiled, self.ready().execution_order),
            ..self.ready()
        }
    }
}

/// Passes are compiled after those that write what they read: before the pass
/// at `k` comes each pass that writes, with the same access, a texture that it
/// reads.
pub proof fn law_writers_are_compiled_first<C>(scope: ScopeView<C>, k: int, writer: usize)
    requires
        scope.passes.len() <= usize::MAX,
        0 <= k < pass_order(scope.passes).len(),
        writer < scope.passes.len(),
        writer != pass_order(scope.passes)[k],
        reads_written(
            scope.passes[pass_order(scope.passes)[k] as int].reads,
            scope.passes[writer as int].writes,
        ),
    ensures
        exists|i: int|
            0 <= i < k && #[trigger] pass_order(scope.passes)[i] == writer
                && scope.compiled().compiled[i].execute == scope.passes[writer as int].callback,
{
    let order = pass_order(scope.passes);
    let deps = pass_dependencies(scope.passes);
    law_order_is_topological(deps);
    assert(order.contains(order[k]));
    law_pass_dependencies(scope.passes, order[k]);
    assert(deps[order[k] as int].contains(writer));
    assert(order.take(k).contains(writer));
    let i = order.take(k).index_of(writer);
    assert(order[i] == writer);
}

/// A frame whose passes do not wait for each other in a circle runs whole: each
/// pass is compiled, those that are to run exist, and the commands of each are
/// handed over once and in full.
pub proof fn law_acyclic_frame_runs_whole<C>(scope: ScopeView<C>, rank: spec_fn(usize) -> nat)
    requires
        scope.passes.len() < usize::MAX,
        ranked(pass_dependencies(scope.passes), rank),
    ensures
        pass_order(scope.passes).len() == scope.passes.len(),
        scope.compiled().in_range(),
        scope.compiled().execution_order.no_duplicates(),
        forall|i: usize|
            i < scope.compiled().compiled.len() ==> #[trigger]
            scope.compiled().execution_order.contains(i),
        commands_of(scope.compiled().compiled, scope.compiled().execution_order) == full_commands(
            scope.compiled().compiled,
            scope.compiled().execution_order,
        ),
{
    let order = pass_order(scope.passes);
    let deps = pass_dependencies(scope.passes);
    let compiled = scope.compiled();
    assert forall|j: int| 0 <= j < deps.len() implies (#[trigger] deps[j]).no_duplicates() by {
        law_pass_dependencies(scope.passes, j as usize);
    }
    law_acyclic_order_is_complete(deps, rank);
    law_order_is_topological(deps);
    assert forall|k: int| 0 <= k < compiled.execution_order.len() implies (
    #[trigger] compiled.execution_order[k]) < compiled.compiled.len() by {
        if k < order.len() {
            assert(order.contains(order[k]));
        }
    }
    assert(compiled.execution_order.no_duplicates()) by {
        assert(!order.contains(order.len() as usize));
        assert forall|a: int, b: int| 0 <= a < b < compiled.execution_order.len() implies
            compiled.execution_order[a] != compiled.execution_order[b] by {
            assert(order.contains(order[a]));
        }
    }
    assert forall|i: usize| i < compiled.compiled.len() implies #[trigger]
        compiled.execution_order.contains(i) by {
        if i < order.len() {
            assert(order.contains(i));
            assert(compiled.execution_order[order.index_of(i)] == i);
        } else {
            assert(compiled.execution_order[order.len() as int] == i);
        }
    }
    law_commands_are_complete(compiled.compiled, compiled.execution_order);
}

/// Which pass runs when: the indices of the passes in their order are taken as
/// indices of the compiled passes, which are in that order themselves. So the
/// pass that runs as number `k` is the one that the order has at the place that
/// it names at `k`.
pub proof fn law_pass_that_runs<C>(scope: ScopeView<C>, rank: spec_fn(usize) -> nat, k: int)
    requires
        scope.passes.len() < usize::MAX,
        ranked(pass_dependencies(scope.passes), rank),
        0 <= k < scope.passes.len(),
    ensures
        ({
            let order = pass_order(scope.passes);
            let compiled = scope.compiled();
            &&& compiled.execution_order[k] == order[k]
            &&& order[k] < order.len()
            &&& compiled.compiled[order[k] as int].execute
                == scope.passes[order[order[k] as int] as int].callback
        }),
{
    law_acyclic_frame_runs_whole(scope, rank);
    let order = pass_order(scope.passes);
    law_order_is_topological(pass_dependencies(scope.passes));
    assert(order.contains(order[k]));
}

pub proof fn lemma_ready_prefix<C>(
    textures: Map<u64, FrameGraphTexture>,
    passes: Seq<PassView<C>>,
    exported: Seq<TextureUse>,
    order: Seq<usize>,
    n: int,
)
    requires
        passes_ready(textures, passes, exported, order),
        0 <= n <= order.len(),
    ensures
        passes_ready(textures, passes, exported, order.take(n)),
        n == order.len() - 1 ==> order.take(n) == order.drop_last(),
{
    let first = order.take(n);
    assert forall|k: int| 0 <= k < first.len() implies uses_ready(
        textures,
        passes[#[trigger] first[k] as int].reads,
    ) && uses_ready(textures, passes[first[k] as int].writes) by {
        assert(first[k] == order[k]);
    }
    if n == order.len() - 1 {
        assert(first =~= order.drop_last());
    }
}

pub proof fn lemma_progress<C>(
    textures: Map<u64, FrameGraphTexture>,
    passes: Seq<PassView<C>>,
    exported: Seq<TextureUse>,
    order: Seq<usize>,
    key: u64,
)
    requires
        passes_ready(textures, passes, exported, order),
    ensures
        ({
            let left = compile_passes(textures, passes, exported, order).textures;
            &&& left.dom() == textures.dom()
            &&& textures.contains_key(key) ==> {
                &&& left[key].image == textures[key].image
                &&& left[key].allocation == textures[key].allocation
                &&& order.len() > 0 ==> (last_use(exported, key) matches Some(access)
                    ==> left[key].last_access == access)
            }
            &&& forall|uses: Seq<TextureUse>| #[trigger]
                uses_ready(textures, uses) ==> uses_ready(left, uses)
        }),
    decreases order.len(),
{
    if order.len() > 0 {
        let rest = order.drop_last();
        lemma_ready_prefix(textures, passes, exported, order, order.len() - 1);
        lemma_progress(textures, passes, exported, rest, key);
        assert(order[order.len() - 1] == order.last());
        let pass = passes[order.last() as int];
        let before = compile_passes(textures, passes, exported, rest).textures;
        let read = after_uses(before, pass.reads);
        let written = after_uses(read, pass.writes);
        assert(uses_ready(textures, pass.reads) && uses_ready(textures, pass.writes));
        lemma_ready_after(before, pass.reads, pass.writes);
        lemma_ready_after(before, pass.reads, exported);
        lemma_ready_after(read, pass.writes, exported);
        law_uses_track_access(before, pass.reads, key);
        law_uses_track_access(read, pass.writes, key);
        law_uses_track_access(written, exported, key);
        assert(before.dom().contains(key) == textures.dom().contains(key));
        assert(read.dom().contains(key) == textures.dom().contains(key));
        assert(written.dom().contains(key) == textures.dom().contains(key));
        assert forall|uses: Seq<TextureUse>| #[trigger] uses_ready(textures, uses) implies
            uses_ready(after_uses(written, exported), uses) by {
            lemma_ready_after(before, pass.reads, uses);
            lemma_ready_after(read, pass.writes, uses);
            lemma_ready_after(written, exported, uses);
        }
    }
}

/// Compiling adds and loses no texture and swaps no image or memory; and if there was a
/// pass to compile, every exported texture is left in the access that was asked
/// for last.
pub proof fn law_compiling_keeps_textures<C>(scope: ScopeView<C>, key: u64)
    requires
        scope.can_compile(),
    ensures
        scope.compiled().textures.dom() == scope.textures.dom(),
        scope.textures.contains_key(key) ==> {
            let before = scope.textures[key];
            let after = scope.compiled().textures[key];
            &&& after.image == before.image
            &&& after.allocation == before.allocation
            &&& pass_order(scope.passes).len() > 0 ==> (last_use(
                scope.exported,
                key,
            ) matches Some(access) ==> after.last_access == access)
        },
{
    lemma_progress(scope.textures, scope.passes, scope.exported, pass_order(scope.passes), key);
}

/// When a pass begins, each texture that it uses is in the access that the pass
/// asks for: that of its last write to it, or else that of its last read.
pub proof fn law_pass_finds_its_accesses<C>(scope: ScopeView<C>, k: int, key: u64)
    requires
        scope.can_compile(),
        0 <= k < pass_order(scope.passes).len(),
        scope.textures.contains_key(key),
    ensures
        ({
            let order = pass_order(scope.passes);
            let pass = scope.passes[order[k] as int];
            let before = compile_passes(
                scope.textures,
                scope.passes,
                scope.exported,
                order.take(k),
            ).textures;
            let begun = after_uses(after_uses(before, pass.reads), pass.writes);
            begun[key].last_access == (match last_use(pass.writes, key) {
                Some(access) => access,
                None => match last_use(pass.reads, key) {
                    Some(access) => access,
                    None => before[key].last_access,
                },
            })
        }),
{
    let order = pass_order(scope.passes);
    let pass = scope.passes[order[k] as int];
    let past = order.take(k);
    lemma_ready_prefix(scope.textures, scope.passes, scope.exported, order, k);
    lemma_progress(scope.textures, scope.passes, scope.exported, past, key);
    let before = compile_passes(scope.textures, scope.passes, scope.exported, past).textures;
    assert(uses_ready(scope.textures, pass.reads) && uses_ready(scope.textures, pass.writes));
    lemma_ready_after(before, pass.reads, pass.writes);
    law_uses_track_access(before, pass.reads, key);
    law_uses_track_access(after_uses(before, pass.reads), pass.writes, key);
    assert(before.dom().contains(key));
    assert(after_uses(before, pass.reads).dom().contains(key));
}

/// All barriers of the lists, one list after the other.
pub open spec fn joined(lists: Seq<Seq<ImageBarrier>>) -> Seq<ImageBarrier>
    decreases lists.len(),
{
    if lists.len() == 0 {
        Seq::empty()
    } else {
        joined(lists.drop_last()) + lists.last()
    }
}

proof fn lemma_frame_follows_layout<C>(
    textures: Map<u64, FrameGraphTexture>,
    passes: Seq<PassView<C>>,
    exported: Seq<TextureUse>,
    order: Seq<usize>,
    key: u64,
)
    requires
        passes_ready(textures, passes, exported, order),
        has_own_image(textures, key),
        last_use(exported, key) is None,
    ensures
        ({
            let progress = compile_passes(textures, passes, exported, order);
            let image = textures[key].image;
            let layout = textures[key].last_access.layout();
            &&& has_own_image(progress.textures, key)
            &&& follows_layout(joined(progress.before), image, layout)
            &&& layout_after(joined(progress.before), image, layout)
                == progress.textures[key].last_access.layout()
        }),
    decreases order.len(),
{
    if order.len() > 0 {
        let rest = order.drop_last();
        lemma_ready_prefix(textures, passes, exported, order, order.len() - 1);
        lemma_frame_follows_layout(textures, passes, exported, rest, key);
        lemma_progress(textures, passes, exported, rest, key);
        assert(order[order.len() - 1] == order.last());
        let pass = passes[order.last() as int];
        let image = textures[key].image;
        let layout = textures[key].last_access.layout();
        let past = compile_passes(textures, passes, exported, rest);
        let read = after_uses(past.textures, pass.reads);
        let written = after_uses(read, pass.writes);
        assert(uses_ready(textures, pass.reads) && uses_ready(textures, pass.writes));
        lemma_ready_after(past.textures, pass.reads, pass.writes);
        lemma_ready_after(past.textures, pass.reads, exported);
        lemma_ready_after(read, pass.writes, exported);
        law_barriers_follow_layout(past.textures, pass.reads, key);
        law_barriers_follow_layout(read, pass.writes, key);
        law_barriers_follow_layout(written, exported, key);
        law_uses_track_access(past.textures, pass.reads, key);
        law_uses_track_access(read, pass.writes, key);
        law_uses_track_access(written, exported, key);
        let first = uses_barriers(past.textures, pass.reads);
        let second = uses_barriers(read, pass.writes);
        lemma_follows_on(first, second, image, past.textures[key].last_access.layout());
        lemma_follows_on(joined(past.before), first + second, image, layout);
        let now = compile_passes(textures, passes, exported, order);
        assert(now.before.drop_last() =~= past.before);
    }
}

/// The barriers for exported textures, for each pass in the order those that come
/// up after it.
pub open spec fn export_parts<C>(
    textures: Map<u64, FrameGraphTexture>,
    passes: Seq<PassView<C>>,
    exported: Seq<TextureUse>,
    order: Seq<usize>,
) -> Seq<Seq<ImageBarrier>>
    decreases order.len(),
{
    if order.len() == 0 {
        Seq::empty()
    } else {
        let rest = order.drop_last();
        let pass = passes[order.last() as int];
        let before = compile_passes(textures, passes, exported, rest).textures;
        let written = after_uses(after_uses(before, pass.reads), pass.writes);
        export_parts(textures, passes, exported, rest).push(uses_barriers(written, exported))
    }
}

/// The barriers of two lists of lists in turn: a list of `first`, one of `second`,
/// and so on.
pub open spec fn in_turn(
    first: Seq<Seq<ImageBarrier>>,
    second: Seq<Seq<ImageBarrier>>,
) -> Seq<ImageBarrier>
    decreases first.len(),
{
    if first.len() == 0 {
        Seq::empty()
    } else {
        in_turn(first.drop_last(), second.drop_last()) + (first.last() + second.last())
    }
}

/// All barriers of a frame in the order in which they are derived: for each pass
/// those before it, of its reads and its writes, and then those of the exported
/// textures.
pub open spec fn derived_barriers<C>(
    textures: Map<u64, FrameGraphTexture>,
    passes: Seq<PassView<C>>,
    exported: Seq<TextureUse>,
    order: Seq<usize>,
) -> Seq<ImageBarrier> {
    in_turn(
        compile_passes(textures, passes, exported, order).before,
        export_parts(textures, passes, exported, order),
    )
}

pub proof fn lemma_export_parts<C>(
    textures: Map<u64, FrameGraphTexture>,
    passes: Seq<PassView<C>>,
    exported: Seq<TextureUse>,
    order: Seq<usize>,
)
    ensures
        export_parts(textures, passes, exported, order).len() == order.len(),
        compile_passes(textures, passes, exported, order).before.len() == order.len(),
        joined(export_parts(textures, passes, exported, order)) == compile_passes(
            textures,
            passes,
            exported,
            order,
        ).exports,
    decreases order.len(),
{
    if order.len() > 0 {
        let rest = order.drop_last();
        lemma_export_parts(textures, passes, exported, rest);
        assert(export_parts(textures, passes, exported, order).drop_last() =~= export_parts(
            textures,
            passes,
            exported,
            rest,
        ));
    }
}

proof fn lemma_derived_follow_layout<C>(
    textures: Map<u64, FrameGraphTexture>,
    passes: Seq<PassView<C>>,
    exported: Seq<TextureUse>,
    order: Seq<usize>,
    key: u64,
)
    requires
        passes_ready(textures, passes, exported, order),
        has_own_image(textures, key),
    ensures
        ({
            let barriers = derived_barriers(textures, passes, exported, order);
            let left = compile_passes(textures, passes, exported, order).textures;
            let image = textures[key].image;
            let layout = textures[key].last_access.layout();
            &&& has_own_image(left, key)
            &&& follows_layout(barriers, image, layout)
            &&& layout_after(barriers, image, layout) == left[key].last_access.layout()
        }),
    decreases order.len(),
{
    if order.len() > 0 {
        let rest = order.drop_last();
        lemma_ready_prefix(textures, passes, exported, order, order.len() - 1);
        lemma_derived_follow_layout(textures, passes, exported, rest, key);
        lemma_progress(textures, passes, exported, rest, key);
        assert(order[order.len() - 1] == order.last());
        let pass = passes[order.last() as int];
        let image = textures[key].image;
        let layout = textures[key].last_access.layout();
        let before = compile_passes(textures, passes, exported, rest).textures;
        let read = after_uses(before, pass.reads);
        let written = after_uses(read, pass.writes);
        assert(uses_ready(textures, pass.reads) && uses_ready(textures, pass.writes));
        lemma_ready_after(before, pass.reads, pass.writes);
        lemma_ready_after(before, pass.reads, exported);
        lemma_ready_after(read, pass.writes, exported);
        law_barriers_follow_layout(before, pass.reads, key);
        law_barriers_follow_layout(read, pass.writes, key);
        law_barriers_follow_layout(written, exported, key);
        law_uses_track_access(before, pass.reads, key);
        law_uses_track_access(read, pass.writes, key);
        let first = uses_barriers(before, pass.reads);
        let second = uses_barriers(read, pass.writes);
        let third = uses_barriers(written, exported);
        lemma_follows_on(first, second, image, before[key].last_access.layout());
        lemma_follows_on(first + second, third, image, before[key].last_access.layout());
        lemma_follows_on(
            derived_barriers(textures, passes, exported, rest),
            first + second + third,
            image,
            layout,
        );
        lemma_export_parts(textures, passes, exported, rest);
        let now = compile_passes(textures, passes, exported, order);
        let past = compile_passes(textures, passes, exported, rest);
        assert(now.before.drop_last() =~= past.before);
        assert(export_parts(textures, passes, exported, order).drop_last() =~= export_parts(
            textures,
            passes,
            exported,
            rest,
        ));
    }
}

/// Over a whole frame, too, barriers chain: in the order in which they are
/// derived, each barrier takes its image from the layout that the one before
/// left it in. This is of images that no other texture of the scope has.
///
/// The barriers are those of the compiled passes: those before each pass in the
/// order, and in turn with them, part by part, those of the pass for exported
/// textures.
pub proof fn law_derived_barriers_follow_layout<C>(scope: ScopeView<C>, key: u64)
    requires
        scope.can_compile(),
        has_own_image(scope.textures, key),
    ensures
        ({
            let barriers = derived_barriers(
                scope.textures,
                scope.passes,
                scope.exported,
                pass_order(scope.passes),
            );
            let image = scope.textures[key].image;
            let layout = scope.textures[key].last_access.layout();
            &&& follows_layout(barriers, image, layout)
            &&& layout_after(barriers, image, layout)
                == scope.compiled().textures[key].last_access.layout()
        }),
        ({
            let order = pass_order(scope.passes);
            let before = scope.progress().before;
            let parts = export_parts(scope.textures, scope.passes, scope.exported, order);
            let passes = scope.compiled().compiled;
            &&& derived_barriers(scope.textures, scope.passes, scope.exported, order) == in_turn(
                before,
                parts,
            )
            &&& before.len() == order.len()
            &&& parts.len() == order.len()
            &&& forall|k: int|
                0 <= k < order.len() ==> (#[trigger] passes[k]).before_execute == Some(before[k])
                    && passes[k].after_execute is None
            &&& joined(parts) == scope.progress().exports
            &&& if joined(parts).len() == 0 {
                passes.len() == order.len()
            } else {
                &&& passes.len() == order.len() + 1
                &&& passes.last().before_execute is None
                &&& passes.last().after_execute == Some(joined(parts))
            }
        }),
{
    lemma_export_parts(scope.textures, scope.passes, scope.exported, pass_order(scope.passes));
    lemma_derived_follow_layout(
        scope.textures,
        scope.passes,
        scope.exported,
        pass_order(scope.passes),
        key,
    );
}

/// The barriers before passes chain by themselves, without those that come after
/// the last pass, for images that are not exported: in the order in which the
/// passes are compiled, each takes its image from the layout that the one before
/// left it in. This, too, is of images that no other texture of the scope has.
pub proof fn law_frame_barriers_follow_layout<C>(scope: ScopeView<C>, key: u64)
    requires
        scope.can_compile(),
        has_own_image(scope.textures, key),
        last_use(scope.exported, key) is None,
    ensures
        follows_layout(
            joined(scope.progress().before),
            scope.textures[key].image,
            scope.textures[key].last_access.layout(),
        ),
        layout_after(
            joined(scope.progress().before),
            scope.textures[key].image,
            scope.textures[key].last_access.layout(),
        ) == scope.compiled().textures[key].last_access.layout(),
{
    lemma_frame_follows_layout(
        scope.textures,
        scope.passes,
        scope.exported,
        pass_order(scope.passes),
        key,
    );
}

} // verus!
