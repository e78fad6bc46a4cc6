//! One frame: its textures, its passes, and the commands that they become.

use vstd::prelude::*;
use crate::access::TextureAccess;
use crate::barrier::{
    can_use_all, law_uses_track_access, lemma_ready_after, transition_all, uses_ready, ImageBarrier,
};
use crate::compiled::{
    command_views, commands_of, compile_passes, pass_views, passes_left, spent, Command,
    CompiledPass, CompiledPassView,
};
use crate::creation::{
    Creation, ImageCreateInfo, IMAGE_TILING_OPTIMAL, IMAGE_TYPE_2D, SHARING_MODE_EXCLUSIVE,
};
use crate::frame::ScopeView;
use crate::graph::{all_in_use, first_free, is_unused, Create, FrameGraph};
use crate::handle::Handle;
use crate::pass::{desc_views, Pass, TextureUse};
use crate::schedule::{law_order_is_topological, pass_dependencies, pass_order};
use crate::slots::{contents, issued, well_keyed, TextureSlots, MAX_TEXTURES};
use crate::types::{Allocation, FrameGraphTexture, Image, TextureDesc};

verus! {

/// Collects the passes of one frame and turns them into commands. `C` is the
/// type of the callbacks.
pub struct FrameScope<'a, C> {
    pub graph: &'a mut FrameGraph,
    pub frame: FrameState<C>,
}

/// The textures and passes of a frame.
pub struct FrameState<C> {
    texture_handles: TextureSlots,
    imported_textures: Vec<FrameGraphTexture>,
    exported_textures: Vec<TextureUse>,
    compiled_passes: Vec<CompiledPass<C>>,
    execution_order: Vec<usize>,
    pass_descs: Vec<Pass<C>>,
    is_compiled: bool,
}

impl<C> View for FrameState<C> {
    type V = ScopeView<C>;

    closed spec fn view(&self) -> ScopeView<C> {
        ScopeView {
            textures: contents(self.texture_handles),
            issued: issued(self.texture_handles),
            imported: self.imported_textures@,
            exported: self.exported_textures@,
            compiled: pass_views(self.compiled_passes@),
            execution_order: self.execution_order@,
            passes: desc_views(self.pass_descs@),
            is_compiled: self.is_compiled,
        }
    }
}

impl<'a, C> View for FrameScope<'a, C> {
    type V = ScopeView<C>;

    open spec fn view(&self) -> ScopeView<C> {
        self.frame@
    }
}

/// Gives callbacks the images of the textures that they use.
pub struct PassResources<'a> {
    resources: &'a TextureSlots,
}

impl<'a> View for PassResources<'a> {
    type V = Map<u64, FrameGraphTexture>;

    closed spec fn view(&self) -> Map<u64, FrameGraphTexture> {
        contents(*self.resources)
    }
}

impl<'a> PassResources<'a> {
    /// The textures are under the integers of keys.
    pub open spec fn wf(&self) -> bool {
        well_keyed(self@)
    }

    /// The image of a texture.
    pub fn get(&self, handle: Handle<FrameGraphTexture>) -> (image: Image)
        requires
            self.wf(),
            self@.contains_key(handle@),
        ensures
            image == self@[handle@].image,
    {
        self.resources.find(handle).unwrap().image
    }

    /// Whether a texture is in the scope.
    pub fn contains(&self, handle: Handle<FrameGraphTexture>) -> (found: bool)
        requires
            self.wf(),
        ensures
            found == self@.contains_key(handle@),
    {
        self.resources.find(handle).is_some()
    }
}

impl<'a, C> FrameScope<'a, C> {
    /// The graph is well-formed, and the textures of the scope are under keys
    /// that it has given out.
    pub open spec fn wf(&self) -> bool {
        self.graph.wf() && self@.keyed()
    }

    /// An empty scope on a graph.
    pub fn new(graph: &'a mut FrameGraph) -> (scope: Self)
        requires
            old(graph).wf(),
        ensures
            scope.wf(),
            *scope.graph == *old(graph),
            *final(scope.graph) == *final(graph),
            scope@ == ScopeView::<C>::empty(),
            scope@.textures.dom() == Set::<u64>::empty(),
            scope@.issued == Set::<u64>::empty(),
            scope@.imported.len() == 0,
            scope@.exported.len() == 0,
            scope@.compiled.len() == 0,
            scope@.execution_order.len() == 0,
            scope@.passes.len() == 0,
            !scope@.is_compiled,
    {
        let frame = FrameState {
            is_compiled: false,
            texture_handles: TextureSlots::with_key(),
            imported_textures: Vec::new(),
            exported_textures: Vec::new(),
            compiled_passes: Vec::new(),
            execution_order: Vec::new(),
            pass_descs: Vec::new(),
        };
        FrameScope { graph, frame }
    }

    /// Requests a transient texture. If the graph has a free one of the same
    /// description for the next frame, the first such texture is taken into
    /// use; if not, the device has to create the image, which is then handed
    /// to [`FrameScope::adopt`].
    pub fn create(&mut self, desc: TextureDesc) -> (creation: Creation)
        requires
            old(self).wf(),
            old(self).graph@.can_advance(),
            old(self)@.textures.len() < MAX_TEXTURES,
        ensures
            final(self).wf(),
            *final(final(self).graph) == *final(old(self).graph),
            match creation {
                Creation::Reused(handle) => {
                    let pool = old(self).graph@.pool(desc);
                    let texture = pool[first_free(pool)].1;
                    &&& !all_in_use(pool)
                    &&& is_unused(texture)
                    &&& !old(self)@.issued.contains(handle@)
                    &&& final(self)@ == old(self)@.with_texture(handle@, texture)
                    &&& final(self)@ == (ScopeView {
                        textures: old(self)@.textures.insert(handle@, texture),
                        issued: old(self)@.issued.insert(handle@),
                        ..old(self)@
                    })
                    &&& old(self).graph@.gives(Create { desc, texture })
                    &&& final(self).graph@ == old(self).graph@.took(Create { desc, texture })
                },
                Creation::Allocate(info) => {
                    &&& all_in_use(old(self).graph@.pool(desc))
                    &&& info == ImageCreateInfo::of(desc)
                    &&& info.format == desc.format
                    &&& info.extent == desc.extent
                    &&& info.usage == desc.usage
                    &&& info.array_layers == 1
                    &&& info.image_type == IMAGE_TYPE_2D
                    &&& info.sharing_mode == SHARING_MODE_EXCLUSIVE
                    &&& info.tiling == IMAGE_TILING_OPTIMAL
                    &&& final(self)@ == old(self)@
                    &&& final(self).graph@ == old(self).graph@
                },
            },
    {
        match self.graph.acquire(desc) {
            Some(texture) => {
                let key = self.frame.texture_handles.insert(texture);
                Creation::Reused(Handle::new(key))
            },
            None => Creation::Allocate(ImageCreateInfo::new(desc)),
        }
    }

    /// Takes in the image that the device created for a transient texture,
    /// bound to `allocation`: the graph keeps the texture, in use, for later
    /// frames. No texture of the description may have become free since it was
    /// asked for.
    pub fn adopt(&mut self, desc: TextureDesc, image: Image, allocation: Allocation) -> (handle:
        Handle<FrameGraphTexture>)
        requires
            old(self).wf(),
            old(self).graph@.can_advance(),
            all_in_use(old(self).graph@.pool(desc)),
            old(self)@.textures.len() < MAX_TEXTURES,
        ensures
            final(self).wf(),
            *final(final(self).graph) == *final(old(self).graph),
            !old(self)@.issued.contains(handle@),
            ({
                let texture = FrameGraphTexture {
                    last_access: TextureAccess::Undefined,
                    allocation: Some(allocation),
                    image,
                };
                &&& final(self)@ == old(self)@.with_texture(handle@, texture)
                &&& final(self)@ == (ScopeView {
                    textures: old(self)@.textures.insert(handle@, texture),
                    issued: old(self)@.issued.insert(handle@),
                    ..old(self)@
                })
                &&& old(self).graph@.gives(Create { desc, texture })
                &&& final(self).graph@ == old(self).graph@.took(Create { desc, texture })
            }),
    {
        let frame_texture = FrameGraphTexture {
            last_access: TextureAccess::Undefined,
            allocation: Some(allocation),
            image,
        };
        self.graph.add_texture(desc, frame_texture);
        let key = self.frame.texture_handles.insert(frame_texture);
        Handle::new(key)
    }

    /// Brings an image into the scope that the graph did not create, and that
    /// was last used with `current_access`.
    pub fn import(&mut self, image: Image, current_access: TextureAccess) -> (handle: Handle<
        FrameGraphTexture,
    >)
        requires
            old(self).wf(),
            old(self)@.textures.len() < MAX_TEXTURES,
        ensures
            final(self).wf(),
            final(self).graph == old(self).graph,
            !old(self)@.issued.contains(handle@),
            final(self)@ == old(self)@.with_import(
                handle@,
                FrameGraphTexture { last_access: current_access, allocation: None, image },
            ),
            ({
                let texture = FrameGraphTexture {
                    last_access: current_access,
                    allocation: None,
                    image,
                };
                final(self)@ == (ScopeView {
                    textures: old(self)@.textures.insert(handle@, texture),
                    issued: old(self)@.issued.insert(handle@),
                    imported: old(self)@.imported.push(texture),
                    ..old(self)@
                })
            }),
    {
        let frame_texture = FrameGraphTexture {
            last_access: current_access,
            allocation: None,
            image,
        };
        self.frame.imported_textures.push(frame_texture);
        let key = self.frame.texture_handles.insert(frame_texture);
        Handle::new(key)
    }

    /// Asks for a texture to be left in `access`, and returns its image.
    pub fn export(&mut self, handle: Handle<FrameGraphTexture>, access: TextureAccess) -> (image:
        Image)
        requires
            old(self).wf(),
            old(self)@.textures.contains_key(handle@),
        ensures
            final(self).wf(),
            final(self).graph == old(self).graph,
            image == old(self)@.textures[handle@].image,
            final(self)@ == old(self)@.with_export((handle, access)),
            final(self)@ == (ScopeView {
                exported: old(self)@.exported.push((handle, access)),
                ..old(self)@
            }),
    {
        let image = self.frame.texture_handles.find(handle).unwrap().image;
        self.frame.exported_textures.push((handle, access));
        image
    }

    /// Adds a pass to the frame.
    pub fn add_pass(&mut self, pass: Pass<C>)
        requires
            old(self).wf(),
        ensures
            final(self).wf(),
            final(self).graph == old(self).graph,
            final(self)@ == old(self)@.with_pass(pass@),
            final(self)@ == (ScopeView { passes: old(self)@.passes.push(pass@), ..old(self)@ }),
    {
        self.frame.pass_descs.push(pass);
        assert(self@ =~= old(self)@.with_pass(pass@));
    }

    /// Whether one more texture can be created or imported.
    pub fn has_room(&self) -> (room: bool)
        ensures
            room == (self@.textures.len() < MAX_TEXTURES),
            room <==> self@.textures.len() < 0xffff_fffe,
    {
        self.frame.texture_handles.len() < MAX_TEXTURES as usize
    }

    /// Whether passes have been compiled.
    pub fn is_compiled(&self) -> (compiled: bool)
        ensures
            compiled == self@.is_compiled,
    {
        self.frame.is_compiled
    }

    /// Whether the passes can be compiled.
    pub fn can_compile(&self) -> (can: bool)
        requires
            self.wf(),
        ensures
            can == self@.can_compile(),
    {
        let order = Self::sorting_passes(&self.frame.pass_descs);
        proof {
            assert(self.frame.pass_descs.len() == self@.passes.len());
            law_order_is_topological(pass_dependencies(self@.passes));
        }
        for k in 0..order.len()
            invariant
                self.wf(),
                order@ == pass_order(self@.passes),
                forall|x: usize| #[trigger] order@.contains(x) ==> x < self@.passes.len(),
                forall|m: int|
                    0 <= m < k ==> uses_ready(
                        self@.textures,
                        self@.passes[#[trigger] order@[m] as int].reads,
                    ) && uses_ready(self@.textures, self@.passes[order@[m] as int].writes),
        {
            assert(order@.contains(order@[k as int]));
            let pass = &self.frame.pass_descs[order[k]];
            let ready = can_use_all(&self.frame.texture_handles, pass.reads()) && can_use_all(
                &self.frame.texture_handles,
                pass.writes(),
            );
            if !ready {
                return false;
            }
        }
        order.len() == 0 || can_use_all(
            &self.frame.texture_handles,
            &self.frame.exported_textures,
        )
    }

    /// Whether all passes that are to run exist.
    pub fn in_range(&self) -> (in_range: bool)
        ensures
            in_range == self@.in_range(),
            in_range <==> forall|k: int|
                0 <= k < self@.execution_order.len() ==> (#[trigger] self@.execution_order[k])
                    < self@.compiled.len(),
    {
        for k in 0..self.frame.execution_order.len()
            invariant
                forall|m: int|
                    0 <= m < k ==> (#[trigger] self@.execution_order[m]) < self@.compiled.len(),
        {
            if self.frame.execution_order[k] >= self.frame.compiled_passes.len() {
                assert(self@.execution_order[k as int] >= self@.compiled.len());
                return false;
            }
        }
        true
    }

    /// Orders the passes, derives the barriers between them, and makes them
    /// ready to run.
    pub fn compile(&mut self)
        requires
            old(self).wf(),
            old(self)@.can_compile(),
        ensures
            final(self).wf(),
            final(self).graph == old(self).graph,
            final(self)@ == old(self)@.compiled(),
            final(self)@.is_compiled,
            final(self)@.passes.len() == 0,
            final(self)@.imported == old(self)@.imported,
            final(self)@.exported == old(self)@.exported,
            final(self)@.issued == old(self)@.issued,
            final(self)@.textures.dom() == old(self)@.textures.dom(),
            forall|k: int|
                #![trigger final(self)@.compiled[k]]
                0 <= k < pass_order(old(self)@.passes).len() ==> final(self)@.compiled[k].execute
                    == old(self)@.passes[pass_order(old(self)@.passes)[k] as int].callback,
    {
        let order = Self::sorting_passes(&self.frame.pass_descs);
        let ghost start = self@;
        proof {
            assert(self.frame.pass_descs.len() == start.passes.len());
            law_order_is_topological(pass_dependencies(start.passes));
        }
        assert forall|m: int| 0 <= m < order@.len() implies (#[trigger] order@[m])
            < start.passes.len() by {
            assert(order@.contains(order@[m]));
        }
        let mut passes: Vec<Pass<C>> = Vec::new();
        std::mem::swap(&mut passes, &mut self.frame.pass_descs);
        let mut compiled_passes: Vec<CompiledPass<C>> = Vec::new();
        let mut export_barriers: Vec<ImageBarrier> = Vec::new();
        for k in 0..order.len()
            invariant
                self.graph == old(self).graph,
                start == old(self)@,
                start.can_compile(),
                well_keyed(contents(self.frame.texture_handles)),
                order@ == pass_order(start.passes),
                order@.no_duplicates(),
                forall|x: usize| #[trigger] order@.contains(x) ==> x < start.passes.len(),
                self.frame.imported_textures@ == start.imported,
                self.frame.exported_textures@ == start.exported,
                self.frame.pass_descs@ == Seq::<Pass<C>>::empty(),
                passes@.len() == start.passes.len(),
                forall|i: int|
                    0 <= i < passes@.len() ==> (#[trigger] passes@[i])@.reads
                        == start.passes[i].reads && passes@[i]@.writes == start.passes[i].writes,
                forall|m: int|
                    k <= m < order@.len() ==> passes@[(#[trigger] order@[m]) as int]@.callback
                        == start.passes[order@[m] as int].callback,
                contents(self.frame.texture_handles).dom() == start.textures.dom(),
                issued(self.frame.texture_handles) == start.issued,
                ({
                    let progress = compile_passes(
                        start.textures,
                        start.passes,
                        start.exported,
                        order@.take(k as int),
                    );
                    &&& contents(self.frame.texture_handles) == progress.textures
                    &&& export_barriers@ == progress.exports
                    &&& progress.before.len() == k
                    &&& compiled_passes@.len() == k
                    &&& forall|m: int|
                        0 <= m < k ==> (#[trigger] compiled_passes@[m])@ == (CompiledPassView {
                            before_execute: Some(progress.before[m]),
                            execute: start.passes[order@[m] as int].callback,
                            after_execute: None,
                        })
                }),
                forall|uses: Seq<TextureUse>| #[trigger]
                    uses_ready(start.textures, uses) ==> uses_ready(
                        contents(self.frame.texture_handles),
                        uses,
                    ),
        {
            let i: usize = order[k];
            let ghost textures = contents(self.frame.texture_handles);
            proof {
                assert(order@.contains(order@[k as int]));
                assert(order@.take(k + 1).drop_last() =~= order@.take(k as int));
                assert(uses_ready(start.textures, start.passes[i as int].reads));
                assert(uses_ready(start.textures, start.passes[i as int].writes));
                assert(uses_ready(start.textures, start.exported));
            }
            let mut image_barriers: Vec<ImageBarrier> = Vec::new();
            transition_all(&mut self.frame.texture_handles, passes[i].reads(), &mut image_barriers);
            let ghost read = contents(self.frame.texture_handles);
            proof {
                lemma_ready_after(textures, passes@[i as int]@.reads, passes@[i as int]@.writes);
                lemma_ready_after(textures, passes@[i as int]@.reads, self.frame.exported_textures@);
            }
            transition_all(&mut self.frame.texture_handles, passes[i].writes(), &mut image_barriers);
            let ghost written = contents(self.frame.texture_handles);
            proof {
                lemma_ready_after(read, passes@[i as int]@.writes, self.frame.exported_textures@);
            }
            transition_all(
                &mut self.frame.texture_handles,
                &self.frame.exported_textures,
                &mut export_barriers,
            );
            proof {
                let reads = passes@[i as int]@.reads;
                let writes = passes@[i as int]@.writes;
                law_uses_track_access(textures, reads, 0);
                law_uses_track_access(read, writes, 0);
                law_uses_track_access(written, self.frame.exported_textures@, 0);
                assert forall|uses: Seq<TextureUse>| #[trigger]
                    uses_ready(start.textures, uses) implies uses_ready(
                    contents(self.frame.texture_handles),
                    uses,
                ) by {
                    lemma_ready_after(textures, reads, uses);
                    lemma_ready_after(read, writes, uses);
                    lemma_ready_after(written, self.frame.exported_textures@, uses);
                }
            }
            let ghost earlier = passes@;
            let callback = passes[i].take_callback();
            assert forall|m: int| k < m < order@.len() implies passes@[#[trigger] order@[m] as int]
                == earlier[order@[m] as int] by {
                assert(order@.contains(order@[m]));
            }
            compiled_passes.push(
                CompiledPass {
                    before_execute: Some(image_barriers),
                    execute: callback,
                    after_execute: None,
                },
            );
        }
        assert(order@.take(order@.len() as int) =~= order@);
        self.frame.execution_order = order;
        if export_barriers.len() > 0 {
            let export_idx: usize = compiled_passes.len();
            compiled_passes.push(
                CompiledPass {
                    before_execute: None,
                    execute: None,
                    after_execute: Some(export_barriers),
                },
            );
            self.frame.execution_order.push(export_idx);
        }
        self.frame.is_compiled = true;
        self.frame.compiled_passes = compiled_passes;
        assert(self@ =~= start.compiled());
    }

    /// Compiles the passes, if none were, and hands over the commands to
    /// record, in order. Until [`FrameScope::end_frame`] is called, the
    /// textures that callbacks ask for are in [`FrameScope::resources`].
    pub fn execute(&mut self) -> (commands: Vec<Command<C>>)
        requires
            old(self).wf(),
            old(self)@.can_execute(),
        ensures
            final(self).wf(),
            final(self).graph == old(self).graph,
            final(self)@ == old(self)@.executed(),
            command_views(commands@) == commands_of(
                old(self)@.ready().compiled,
                old(self)@.ready().execution_order,
            ),
            commands@.len() == commands_of(
                old(self)@.ready().compiled,
                old(self)@.ready().execution_order,
            ).len(),
            forall|i: int|
                0 <= i < commands@.len() ==> (#[trigger] commands@[i])@ == commands_of(
                    old(self)@.ready().compiled,
                    old(self)@.ready().execution_order,
                )[i],
    {
        if !self.frame.is_compiled {
            self.compile();
        }
        let ghost start = self@;
        let mut commands: Vec<Command<C>> = Vec::new();
        assert(self.frame.execution_order@.take(0) =~= Seq::empty());
        assert(command_views(commands@) =~= Seq::empty());
        let count: usize = self.frame.execution_order.len();
        for k in 0..count
            invariant
                count == self.frame.execution_order@.len(),
                self.graph == old(self).graph,
                start == old(self)@.ready(),
                start.in_range(),
                self.frame.execution_order@ == start.execution_order,
                self@ == (ScopeView {
                    compiled: passes_left(
                        start.compiled,
                        start.execution_order.take(k as int),
                    ),
                    ..start
                }),
                self.frame.compiled_passes@.len() == start.compiled.len(),
                command_views(commands@) == commands_of(
                    start.compiled,
                    start.execution_order.take(k as int),
                ),
        {
            let index: usize = self.frame.execution_order[k];
            let ghost left = pass_views(self.frame.compiled_passes@);
            assert(index < start.compiled.len());
            assert(start.execution_order.take(k + 1).drop_last() =~= start.execution_order.take(
                k as int,
            ));
            self.frame.compiled_passes[index].take_commands(&mut commands);
            assert(pass_views(self.frame.compiled_passes@) =~= left.update(
                index as int,
                spent(),
            ));
        }
        assert(start.execution_order.take(start.execution_order.len() as int)
            =~= start.execution_order);
        assert forall|i: int| 0 <= i < commands@.len() implies (#[trigger] commands@[i])@
            == commands_of(start.compiled, start.execution_order)[i] by {
            assert(command_views(commands@)[i] == commands@[i]@);
        }
        commands
    }

    /// The textures of the scope, for callbacks.
    pub fn resources(&self) -> (resources: PassResources<'_>)
        requires
            self.wf(),
        ensures
            resources.wf(),
            resources@ == self@.textures,
    {
        PassResources { resources: &self.frame.texture_handles }
    }

    /// Ends the frame once its commands are recorded: all transient textures
    /// are free again, the graph goes on to the next frame, and no handle of
    /// the scope is valid any more.
    pub fn end_frame(&mut self)
        requires
            old(self).wf(),
            old(self).graph@.current_frame < usize::MAX,
        ensures
            final(self).wf(),
            *final(final(self).graph) == *final(old(self).graph),
            final(self).graph@ == old(self).graph@.after_frame(),
            final(self)@ == old(self)@.ended(),
            final(self).graph@.current_frame == old(self).graph@.current_frame + 1,
            final(self)@ == (ScopeView {
                textures: Map::empty(),
                issued: final(self)@.issued,
                ..old(self)@
            }),
    {
        self.graph.end_frame();
        self.frame.texture_handles.clear();
    }
}

} // verus!
