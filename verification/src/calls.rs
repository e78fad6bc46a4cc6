//! What holds of a frame scope over many calls.

use vstd::prelude::*;
use crate::barrier::{after_uses, last_use, law_uses_track_access, lemma_ready_after, uses_ready};
use crate::compiled::{
    commands_of, compile_passes, law_passes_are_spent, law_running_again_records_nothing,
    CommandView,
};
use crate::frame::{
    law_compiling_keeps_textures, lemma_progress, lemma_ready_prefix, passes_ready, ScopeView,
};
use crate::pass::{PassView, TextureUse};
use crate::recording::{frame_uses, law_frame_leaves_last_access};
use crate::schedule::pass_order;
use crate::slots::{last_key, slot_is_worn_out};
use crate::types::FrameGraphTexture;

verus! {

/// A call of a frame scope that changes it, with what it was handed and the key
/// of the handle that it returned.
pub enum ScopeCall<C> {
    /// A transient texture was created.
    Create { key: u64, texture: FrameGraphTexture },
    /// An image was imported.
    Import { key: u64, texture: FrameGraphTexture },
    /// A texture was exported.
    Export { exported: TextureUse },
    /// A pass was added.
    AddPass { pass: PassView<C> },
    /// The passes were compiled.
    Compile,
    /// The passes were taken to run.
    Execute,
    /// The frame was ended.
    EndFrame,
}

impl<C> ScopeView<C> {
    /// Whether a call can be made, and return this handle if it returns one.
    pub open spec fn allows(self, call: ScopeCall<C>) -> bool {
        match call {
            ScopeCall::Create { key, texture } => !self.issued.contains(key),
            ScopeCall::Import { key, texture } => !self.issued.contains(key),
            ScopeCall::Export { exported } => self.textures.contains_key(exported.0@),
            ScopeCall::AddPass { pass } => true,
            ScopeCall::Compile => self.can_compile(),
            ScopeCall::Execute => self.can_execute(),
            ScopeCall::EndFrame => true,
        }
    }

    /// The scope after a call.
    pub open spec fn after(self, call: ScopeCall<C>) -> ScopeView<C> {
        match call {
            ScopeCall::Create { key, texture } => self.with_texture(key, texture),
            ScopeCall::Import { key, texture } => self.with_import(key, texture),
            ScopeCall::Export { exported } => self.with_export(exported),
            ScopeCall::AddPass { pass } => self.with_pass(pass),
            ScopeCall::Compile => self.compiled(),
            ScopeCall::Execute => self.executed(),
            ScopeCall::EndFrame => self.ended(),
        }
    }

    /// The scope after calls.
    pub open spec fn after_all(self, calls: Seq<ScopeCall<C>>) -> ScopeView<C>
        decreases calls.len(),
    {
        if calls.len() == 0 {
            self
        } else {
            self.after_all(calls.drop_last()).after(calls.last())
        }
    }

    /// Whether calls can be made, one after the other.
    pub open spec fn allows_all(self, calls: Seq<ScopeCall<C>>) -> bool
        decreases calls.len(),
    {
        calls.len() > 0 ==> self.allows_all(calls.drop_last()) && self.after_all(
            calls.drop_last(),
        ).allows(calls.last())
    }

    /// Whether the slot of a key begins anew in the course of the calls: a frame
    /// ends while the slot is at its last version.
    pub open spec fn forgets(self, calls: Seq<ScopeCall<C>>, key: u64) -> bool
        decreases calls.len(),
    {
        calls.len() > 0 && (self.forgets(calls.drop_last(), key) || (calls.last() is EndFrame
            && slot_is_worn_out(self.after_all(calls.drop_last()).textures, key)))
    }
}

/// Whether one of the calls ends the frame.
pub open spec fn ends_frame<C>(calls: Seq<ScopeCall<C>>) -> bool {
    exists|i: int| 0 <= i < calls.len() && (#[trigger] calls[i]) is EndFrame
}

/// The key that a call gives out, if it gives out one.
pub open spec fn key_of<C>(call: ScopeCall<C>) -> Option<u64> {
    match call {
        ScopeCall::Create { key, texture } => Some(key),
        ScopeCall::Import { key, texture } => Some(key),
        _ => None,
    }
}

proof fn lemma_ends_frame<C>(calls: Seq<ScopeCall<C>>)
    requires
        calls.len() > 0,
    ensures
        ends_frame(calls) <==> ends_frame(calls.drop_last()) || calls.last() is EndFrame,
{
    let earlier = calls.drop_last();
    if ends_frame(earlier) {
        let i = choose|i: int| 0 <= i < earlier.len() && (#[trigger] earlier[i]) is EndFrame;
        assert(calls[i] is EndFrame);
    }
    if calls.last() is EndFrame {
        assert(calls[calls.len() - 1] is EndFrame);
    }
    if ends_frame(calls) {
        let i = choose|i: int| 0 <= i < calls.len() && (#[trigger] calls[i]) is EndFrame;
        if i < earlier.len() {
            assert(earlier[i] is EndFrame);
        }
    }
}

/// Whether one of the calls gives out the key.
pub open spec fn gives_out<C>(calls: Seq<ScopeCall<C>>, key: u64) -> bool {
    exists|i: int| 0 <= i < calls.len() && #[trigger] key_of(calls[i]) == Some(key)
}

/// What one call makes of a texture whose key it does not give out.
proof fn lemma_call<C>(scope: ScopeView<C>, call: ScopeCall<C>, key: u64)
    requires
        scope.allows(call),
        key_of(call) != Some(key),
    ensures
        scope.after(call).textures.contains_key(key) <==> scope.textures.contains_key(key)
            && !(call is EndFrame),
        scope.after(call).textures.contains_key(key) ==> {
            &&& scope.after(call).textures[key].image == scope.textures[key].image
            &&& scope.after(call).textures[key].allocation == scope.textures[key].allocation
        },
{
    if call is Compile || (call is Execute && !scope.is_compiled) {
        law_compiling_keeps_textures(scope, key);
        assert(scope.compiled().textures.dom().contains(key) == scope.textures.dom().contains(key));
    }
}

/// Calls that do not make the scope forget a key do not give it out again.
proof fn lemma_remembers<C>(scope: ScopeView<C>, calls: Seq<ScopeCall<C>>, key: u64)
    requires
        scope.allows_all(calls),
        scope.issued.contains(key),
        !scope.forgets(calls, key),
    ensures
        scope.after_all(calls).issued.contains(key),
        !gives_out(calls, key),
    decreases calls.len(),
{
    if calls.len() > 0 {
        let earlier = calls.drop_last();
        lemma_remembers(scope, earlier, key);
        assert forall|i: int| 0 <= i < calls.len() implies #[trigger] key_of(calls[i]) != Some(
            key,
        ) by {
            if i < earlier.len() {
                assert(key_of(earlier[i]) != Some(key));
            }
        }
    }
}

/// The handles of a frame are valid until the frame ends, and then never again:
/// whatever calls are made, a texture that the scope gave a key to is in it
/// exactly if it was and no call ended the frame. Only a slot that began anew in
/// the meantime can give out the key a second time.
pub proof fn law_handles_last_until_the_frame_ends<C>(
    scope: ScopeView<C>,
    calls: Seq<ScopeCall<C>>,
    key: u64,
)
    requires
        scope.allows_all(calls),
        (scope.issued.contains(key) && !scope.forgets(calls, key)) || !gives_out(calls, key),
    ensures
        scope.after_all(calls).textures.contains_key(key) <==> scope.textures.contains_key(key)
            && !ends_frame(calls),
    decreases calls.len(),
{
    if calls.len() > 0 {
        let earlier = calls.drop_last();
        if gives_out(calls, key) {
            lemma_remembers(scope, calls, key);
        }
        assert(key_of(calls[calls.len() - 1]) != Some(key));
        assert forall|i: int| 0 <= i < earlier.len() implies #[trigger] key_of(earlier[i]) != Some(
            key,
        ) by {
            assert(key_of(calls[i]) != Some(key));
        }
        law_handles_last_until_the_frame_ends(scope, earlier, key);
        lemma_call(scope.after_all(earlier), calls.last(), key);
        lemma_ends_frame(calls);
    }
}

/// A texture keeps its image and its memory until the frame ends, whatever calls
/// are made. So exporting it later returns the same image, and a callback is given
/// it.
pub proof fn law_textures_keep_their_images<C>(
    scope: ScopeView<C>,
    calls: Seq<ScopeCall<C>>,
    key: u64,
)
    requires
        scope.keyed(),
        scope.allows_all(calls),
        scope.textures.contains_key(key),
        !ends_frame(calls),
    ensures
        scope.after_all(calls).textures.contains_key(key),
        scope.after_all(calls).textures[key].image == scope.textures[key].image,
        scope.after_all(calls).textures[key].allocation == scope.textures[key].allocation,
    decreases calls.len(),
{
    if calls.len() > 0 {
        let earlier = calls.drop_last();
        lemma_ends_frame(calls);
        law_textures_keep_their_images(scope, earlier, key);
        lemma_forgets_at_frame_ends(scope, earlier, key);
        lemma_remembers(scope, earlier, key);
        lemma_call(scope.after_all(earlier), calls.last(), key);
    }
}

proof fn lemma_forgets_at_frame_ends<C>(scope: ScopeView<C>, calls: Seq<ScopeCall<C>>, key: u64)
    requires
        !ends_frame(calls),
    ensures
        !scope.forgets(calls, key),
    decreases calls.len(),
{
    if calls.len() > 0 {
        lemma_ends_frame(calls);
        lemma_forgets_at_frame_ends(scope, calls.drop_last(), key);
    }
}

/// A key that the scope has given out is not given out by a later call, unless its
/// slot began anew in between.
pub proof fn law_keys_are_given_out_once<C>(
    scope: ScopeView<C>,
    calls: Seq<ScopeCall<C>>,
    key: u64,
    next: ScopeCall<C>,
)
    requires
        scope.allows_all(calls),
        scope.issued.contains(key),
        !scope.forgets(calls, key),
        scope.after_all(calls).allows(next),
    ensures
        key_of(next) != Some(key),
{
    lemma_remembers(scope, calls, key);
}

proof fn lemma_first_calls<C>(scope: ScopeView<C>, calls: Seq<ScopeCall<C>>, n: int)
    requires
        scope.allows_all(calls),
        0 <= n < calls.len(),
    ensures
        scope.allows_all(calls.take(n)),
        scope.after_all(calls.take(n)).allows(calls[n]),
    decreases calls.len(),
{
    let earlier = calls.drop_last();
    if n < earlier.len() {
        lemma_first_calls(scope, earlier, n);
        assert(earlier.take(n) =~= calls.take(n));
    } else {
        assert(calls.take(n) =~= earlier);
    }
}

proof fn lemma_calls_on<C>(
    scope: ScopeView<C>,
    first: Seq<ScopeCall<C>>,
    second: Seq<ScopeCall<C>>,
)
    ensures
        scope.after_all(first + second) == scope.after_all(first).after_all(second),
        scope.allows_all(first + second) <==> scope.allows_all(first) && scope.after_all(
            first,
        ).allows_all(second),
    decreases second.len(),
{
    if second.len() == 0 {
        assert(first + second =~= first);
    } else {
        lemma_calls_on(scope, first, second.drop_last());
        assert((first + second).drop_last() =~= first + second.drop_last());
        assert((first + second).last() == second.last());
    }
}

/// No two calls give out the same handle, unless the slot of the handle began anew
/// in between.
pub proof fn law_handles_differ<C>(scope: ScopeView<C>, calls: Seq<ScopeCall<C>>, i: int, j: int)
    requires
        scope.allows_all(calls),
        0 <= i < j < calls.len(),
        key_of(calls[i]) is Some,
        !scope.after_all(calls.take(i + 1)).forgets(
            calls.subrange(i + 1, j),
            key_of(calls[i])->0,
        ),
    ensures
        key_of(calls[i]) != key_of(calls[j]),
{
    let first = calls.take(i + 1);
    let between = calls.subrange(i + 1, j);
    lemma_first_calls(scope, calls, i);
    lemma_first_calls(scope, calls, j);
    assert(first + between =~= calls.take(j));
    lemma_calls_on(scope, first, between);
    assert(first.drop_last() =~= calls.take(i));
    assert(first.last() == calls[i]);
    law_keys_are_given_out_once(
        scope.after_all(first),
        between,
        key_of(calls[i])->0,
        calls[j],
    );
}

/// Each import is a texture of its own, with the access that it was imported with.
/// So the same image can be imported more than once.
pub proof fn law_imports_are_apart<C>(
    scope: ScopeView<C>,
    key: u64,
    texture: FrameGraphTexture,
    other_key: u64,
    other: FrameGraphTexture,
)
    requires
        scope.allows(ScopeCall::Import { key, texture }),
        scope.with_import(key, texture).allows(
            ScopeCall::Import { key: other_key, texture: other },
        ),
    ensures
        ({
            let both = scope.with_import(key, texture).with_import(other_key, other);
            &&& key != other_key
            &&& both.textures[key] == texture
            &&& both.textures[other_key] == other
            &&& both.imported == scope.imported.push(texture).push(other)
        }),
{
}

/// Compiling leaves a texture in its access if no pass in the order uses it and it
/// is not exported, whatever becomes of another texture with the same image.
pub proof fn law_unused_texture_keeps_its_access<C>(scope: ScopeView<C>, key: u64)
    requires
        scope.can_compile(),
        scope.textures.contains_key(key),
        last_use(scope.exported, key) is None,
        forall|k: int|
            0 <= k < pass_order(scope.passes).len() ==> last_use(
                scope.passes[#[trigger] pass_order(scope.passes)[k] as int].reads,
                key,
            ) is None && last_use(
                scope.passes[pass_order(scope.passes)[k] as int].writes,
                key,
            ) is None,
    ensures
        scope.compiled().textures[key] == scope.textures[key],
{
    lemma_unused(scope.textures, scope.passes, scope.exported, pass_order(scope.passes), key);
}

proof fn lemma_unused<C>(
    textures: Map<u64, FrameGraphTexture>,
    passes: Seq<PassView<C>>,
    exported: Seq<TextureUse>,
    order: Seq<usize>,
    key: u64,
)
    requires
        passes_ready(textures, passes, exported, order),
        textures.contains_key(key),
        last_use(exported, key) is None,
        forall|k: int|
            0 <= k < order.len() ==> last_use(passes[#[trigger] order[k] as int].reads, key) is None
                && last_use(passes[order[k] as int].writes, key) is None,
    ensures
        compile_passes(textures, passes, exported, order).textures[key] == textures[key],
    decreases order.len(),
{
    if order.len() > 0 {
        let rest = order.drop_last();
        lemma_ready_prefix(textures, passes, exported, order, order.len() - 1);
        assert forall|k: int| 0 <= k < rest.len() implies last_use(
            passes[#[trigger] rest[k] as int].reads,
            key,
        ) is None && last_use(passes[rest[k] as int].writes, key) is None by {
            assert(rest[k] == order[k]);
        }
        lemma_unused(textures, passes, exported, rest, key);
        lemma_progress(textures, passes, exported, rest, key);
        assert(order[order.len() - 1] == order.last());
        let pass = passes[order.last() as int];
        let before = compile_passes(textures, passes, exported, rest).textures;
        let read = after_uses(before, pass.reads);
        let written = after_uses(read, pass.writes);
        assert(uses_ready(textures, pass.reads) && uses_ready(textures, pass.writes));
        lemma_ready_after(before, pass.reads, pass.writes);
        lemma_ready_after(before, pass.reads, exported);
        lemma_ready_after(read, pass.writes, exported);
        law_uses_track_access(before, pass.reads, key);
        law_uses_track_access(read, pass.writes, key);
        law_uses_track_access(written, exported, key);
        assert(before.dom().contains(key) && read.dom().contains(key) && written.dom().contains(
            key,
        ));
    }
}

/// Taking the passes of a scope that is not compiled is the same as compiling them
/// first and then taking them.
pub proof fn law_execute_compiles<C>(scope: ScopeView<C>)
    requires
        !scope.is_compiled,
        scope.can_execute(),
    ensures
        scope.allows_all(seq![ScopeCall::Compile, ScopeCall::Execute]),
        scope.after_all(seq![ScopeCall::Compile, ScopeCall::Execute]) == scope.after(
            ScopeCall::Execute,
        ),
        scope.compiled().ready() == scope.ready(),
{
    let calls = seq![ScopeCall::<C>::Compile, ScopeCall::Execute];
    assert(calls.drop_last() =~= seq![ScopeCall::Compile]);
    assert(calls.drop_last().drop_last() =~= Seq::empty());
    reveal_with_fuel(ScopeView::after_all, 3);
    reveal_with_fuel(ScopeView::allows_all, 3);
}

/// Whether none of the calls compiles passes anew.
pub open spec fn compiles_nothing<C>(calls: Seq<ScopeCall<C>>) -> bool {
    forall|i: int| 0 <= i < calls.len() ==> !((#[trigger] calls[i]) is Compile)
}

/// The passes of a scope run once: until they are compiled anew, taking them again
/// records nothing and changes nothing, whatever calls come between. Passes that
/// were added since are left as they are.
pub proof fn law_passes_run_once<C>(scope: ScopeView<C>, calls: Seq<ScopeCall<C>>)
    requires
        scope.can_execute(),
        scope.executed().allows_all(calls),
        compiles_nothing(calls),
    ensures
        ({
            let later = scope.executed().after_all(calls);
            &&& later.can_execute()
            &&& later.executed() == later
            &&& commands_of(later.ready().compiled, later.ready().execution_order) == Seq::<
                CommandView<C>,
            >::empty()
        }),
{
    lemma_stay_taken(scope, calls);
    law_running_again_records_nothing(scope.ready().compiled, scope.ready().execution_order);
    let ready = scope.ready();
    let later = scope.executed().after_all(calls);
    if ready.execution_order.len() > 0 {
        law_passes_are_spent(ready.compiled, ready.execution_order, ready.execution_order[0]);
    }
    assert(later.executed() =~= later);
}

proof fn lemma_stay_taken<C>(scope: ScopeView<C>, calls: Seq<ScopeCall<C>>)
    requires
        scope.can_execute(),
        scope.executed().allows_all(calls),
        compiles_nothing(calls),
    ensures
        scope.executed().after_all(calls).is_compiled,
        scope.executed().after_all(calls).compiled == scope.executed().compiled,
        scope.executed().after_all(calls).execution_order == scope.executed().execution_order,
    decreases calls.len(),
{
    if calls.len() > 0 {
        let earlier = calls.drop_last();
        assert forall|i: int| 0 <= i < earlier.len() implies !((
        #[trigger] earlier[i]) is Compile) by {
            assert(earlier[i] == calls[i]);
        }
        assert(!(calls[calls.len() - 1] is Compile));
        lemma_stay_taken(scope, earlier);
        law_running_again_records_nothing(scope.ready().compiled, scope.ready().execution_order);
    }
}


/// What each call leaves as it was, and what it adds: creating and importing add a
/// texture under a key that the scope gave out then, importing also to what was
/// imported; exporting adds an export at the end; adding a pass adds it at the end;
/// the end of the frame leaves no texture.
pub proof fn law_calls_add_one_thing<C>(
    scope: ScopeView<C>,
    key: u64,
    texture: FrameGraphTexture,
    exported: TextureUse,
    pass: PassView<C>,
    other: u64,
)
    ensures
        ({
            let created = scope.after(ScopeCall::Create { key, texture });
            &&& created.textures.contains_key(key) && created.textures[key] == texture
            &&& created.issued.contains(key)
            &&& other != key ==> created.textures.contains_key(other)
                == scope.textures.contains_key(other) && created.textures[other]
                == scope.textures[other] && created.issued.contains(other)
                == scope.issued.contains(other)
            &&& created.imported == scope.imported && created.exported == scope.exported
            &&& created.passes == scope.passes && created.compiled == scope.compiled
            &&& created.execution_order == scope.execution_order && created.is_compiled
                == scope.is_compiled
        }),
        ({
            let imported = scope.after(ScopeCall::Import { key, texture });
            &&& imported.textures.contains_key(key) && imported.textures[key] == texture
            &&& imported.issued.contains(key)
            &&& other != key ==> imported.textures.contains_key(other)
                == scope.textures.contains_key(other) && imported.textures[other]
                == scope.textures[other] && imported.issued.contains(other)
                == scope.issued.contains(other)
            &&& imported.imported == scope.imported + seq![texture]
            &&& imported.exported == scope.exported && imported.passes == scope.passes
            &&& imported.compiled == scope.compiled && imported.execution_order
                == scope.execution_order && imported.is_compiled == scope.is_compiled
        }),
        ({
            let after = scope.after(ScopeCall::Export { exported });
            &&& after.exported == scope.exported + seq![exported]
            &&& after.textures == scope.textures && after.issued == scope.issued
            &&& after.imported == scope.imported && after.passes == scope.passes
            &&& after.compiled == scope.compiled && after.execution_order == scope.execution_order
                && after.is_compiled == scope.is_compiled
        }),
        ({
            let after = scope.after(ScopeCall::AddPass { pass });
            &&& after.passes == scope.passes + seq![pass]
            &&& after.textures == scope.textures && after.issued == scope.issued
            &&& after.imported == scope.imported && after.exported == scope.exported
            &&& after.compiled == scope.compiled && after.execution_order == scope.execution_order
                && after.is_compiled == scope.is_compiled
        }),
        ({
            let ended = scope.after(ScopeCall::EndFrame);
            &&& !ended.textures.contains_key(other)
            &&& ended.issued.contains(other) <==> scope.issued.contains(other)
                && !scope.textures.contains_key(last_key(other))
            &&& ended.imported == scope.imported && ended.exported == scope.exported
            &&& ended.passes == scope.passes && ended.compiled == scope.compiled
            &&& ended.execution_order == scope.execution_order && ended.is_compiled
                == scope.is_compiled
        }),
{
    assert(scope.imported.push(texture) =~= scope.imported + seq![texture]);
    assert(scope.exported.push(exported) =~= scope.exported + seq![exported]);
    assert(scope.passes.push(pass) =~= scope.passes + seq![pass]);
}

/// The exports among calls, in order.
pub open spec fn exports_in<C>(calls: Seq<ScopeCall<C>>) -> Seq<TextureUse>
    decreases calls.len(),
{
    if calls.len() == 0 {
        Seq::empty()
    } else {
        exports_in(calls.drop_last()) + (match calls.last() {
            ScopeCall::Export { exported } => seq![exported],
            _ => Seq::empty(),
        })
    }
}

/// The imported textures among calls, in order.
pub open spec fn imports_in<C>(calls: Seq<ScopeCall<C>>) -> Seq<FrameGraphTexture>
    decreases calls.len(),
{
    if calls.len() == 0 {
        Seq::empty()
    } else {
        imports_in(calls.drop_last()) + (match calls.last() {
            ScopeCall::Import { key, texture } => seq![texture],
            _ => Seq::empty(),
        })
    }
}

/// The passes among calls, in order.
pub open spec fn passes_in<C>(calls: Seq<ScopeCall<C>>) -> Seq<PassView<C>>
    decreases calls.len(),
{
    if calls.len() == 0 {
        Seq::empty()
    } else {
        passes_in(calls.drop_last()) + (match calls.last() {
            ScopeCall::AddPass { pass } => seq![pass],
            _ => Seq::empty(),
        })
    }
}

/// Exports and imports accumulate: whatever calls are made, all that were made so
/// far are there, in the order of the calls.
pub proof fn law_exports_and_imports_accumulate<C>(
    scope: ScopeView<C>,
    calls: Seq<ScopeCall<C>>,
)
    ensures
        scope.after_all(calls).exported == scope.exported + exports_in(calls),
        scope.after_all(calls).imported == scope.imported + imports_in(calls),
    decreases calls.len(),
{
    if calls.len() > 0 {
        law_exports_and_imports_accumulate(scope, calls.drop_last());
    }
    assert(scope.after_all(calls).exported =~= scope.exported + exports_in(calls));
    assert(scope.after_all(calls).imported =~= scope.imported + imports_in(calls));
}

/// Passes accumulate until they are compiled: where no call compiles any, all that
/// were added are there, in the order of the calls, and those that were compiled
/// before stay compiled.
pub proof fn law_passes_accumulate<C>(scope: ScopeView<C>, calls: Seq<ScopeCall<C>>)
    requires
        forall|i: int|
            0 <= i < calls.len() ==> !((#[trigger] calls[i]) is Compile) && (calls[i] is Execute
                ==> scope.is_compiled),
    ensures
        scope.after_all(calls).passes == scope.passes + passes_in(calls),
        scope.after_all(calls).is_compiled == scope.is_compiled,
        scope.after_all(calls).execution_order == scope.execution_order,
    decreases calls.len(),
{
    if calls.len() > 0 {
        let earlier = calls.drop_last();
        assert forall|i: int| 0 <= i < earlier.len() implies !((#[trigger] earlier[i]) is Compile)
            && (earlier[i] is Execute ==> scope.is_compiled) by {
            assert(earlier[i] == calls[i]);
        }
        assert(calls[calls.len() - 1] == calls.last());
        law_passes_accumulate(scope, earlier);
    }
    assert(scope.after_all(calls).passes =~= scope.passes + passes_in(calls));
}

/// The last export of a texture among calls is the last one among the exports.
proof fn lemma_last_export<C>(calls: Seq<ScopeCall<C>>, i: int, key: u64) -> (p: int)
    requires
        0 <= i < calls.len(),
        calls[i] is Export,
        calls[i]->exported.0@ == key,
        forall|j: int|
            i < j < calls.len() && (#[trigger] calls[j]) is Export ==> calls[j]->exported.0@ != key,
    ensures
        0 <= p < exports_in(calls).len(),
        exports_in(calls)[p] == calls[i]->exported,
        forall|q: int|
            p < q < exports_in(calls).len() ==> (#[trigger] exports_in(calls)[q]).0@ != key,
    decreases calls.len(),
{
    let earlier = calls.drop_last();
    let all = exports_in(calls);
    let some = exports_in(earlier);
    if i == earlier.len() {
        some.len() as int
    } else {
        assert forall|j: int|
            i < j < earlier.len() && (#[trigger] earlier[j]) is Export implies earlier[j]->exported.0@
            != key by {
            assert(earlier[j] == calls[j]);
        }
        let p = lemma_last_export(earlier, i, key);
        assert(calls[calls.len() - 1] == calls.last());
        assert forall|q: int| p < q < all.len() implies (#[trigger] all[q]).0@ != key by {
            if q < some.len() {
                assert(all[q] == some[q]);
            }
        }
        p
    }
}

/// Every exported texture is left as it was asked for last: whatever calls were
/// made, compiling at least one pass leaves a texture that one of the calls, at `i`,
/// was the last to export in the access that this call asked for. The calls after
/// it may export any other textures.
pub proof fn law_last_export_call_counts<C>(
    scope: ScopeView<C>,
    calls: Seq<ScopeCall<C>>,
    i: int,
    key: u64,
)
    requires
        0 <= i < calls.len(),
        calls[i] is Export,
        calls[i]->exported.0@ == key,
        forall|j: int|
            i < j < calls.len() && (#[trigger] calls[j]) is Export ==> calls[j]->exported.0@ != key,
        pass_order(scope.after_all(calls).passes).len() > 0,
    ensures
        scope.after_all(calls).compiled().textures[key].last_access == calls[i]->exported.1,
{
    let after = scope.after_all(calls);
    let order = pass_order(after.passes);
    let p = lemma_last_export(calls, i, key);
    law_exports_and_imports_accumulate(scope, calls);
    let events = frame_uses(after.passes, after.exported, order);
    let pass = after.passes[order.last() as int];
    let past = frame_uses(after.passes, after.exported, order.drop_last()) + (pass.reads
        + pass.writes);
    assert(events =~= past + after.exported);
    let at = scope.exported.len() + p;
    assert(after.exported[at] == calls[i]->exported);
    assert forall|m: int| past.len() + at < m < events.len() implies (#[trigger] events[m]).0@
        != key by {
        assert(events[m] == after.exported[m - past.len()]);
        assert(after.exported[m - past.len()] == exports_in(calls)[m - past.len()
            - scope.exported.len()]);
    }
    law_frame_leaves_last_access(after, key, past.len() + at);
}

} // verus!
