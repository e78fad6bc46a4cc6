//! The transient textures of the frames in flight.

use std::collections::HashMap;
use vstd::prelude::*;
use crate::access::TextureAccess;
use crate::types::{FrameGraphTexture, TextureDesc};

verus! {

/// A transient texture, and whether the current frame uses it.
pub type PooledTexture = (bool, FrameGraphTexture);

/// Whether the texture at `i` is the first one of `pool` that is not in use.
pub open spec fn is_first_free(pool: Seq<PooledTexture>, i: int) -> bool {
    &&& 0 <= i < pool.len()
    &&& !pool[i].0
    &&& forall|k: int| 0 <= k < i ==> (#[trigger] pool[k]).0
}

/// Whether all textures of `pool` are in use.
pub open spec fn all_in_use(pool: Seq<PooledTexture>) -> bool {
    forall|k: int| 0 <= k < pool.len() ==> (#[trigger] pool[k]).0
}

/// The place of the first texture of `pool` that is not in use.
pub open spec fn first_free(pool: Seq<PooledTexture>) -> int {
    choose|i: int| is_first_free(pool, i)
}

/// Whether the textures of `pool` that are in use are the first `count` ones.
pub open spec fn first_in_use(pool: Seq<PooledTexture>, count: int) -> bool {
    &&& 0 <= count <= pool.len()
    &&& forall|k: int| 0 <= k < pool.len() ==> ((#[trigger] pool[k]).0 <==> k < count)
}

/// Whether the textures of `pool` that are in use come before those that are
/// free.
pub open spec fn used_come_first(pool: Seq<PooledTexture>) -> bool {
    exists|count: int| first_in_use(pool, count)
}

/// The pool with all its textures free again.
pub open spec fn released(pool: Seq<PooledTexture>) -> Seq<PooledTexture> {
    Seq::new(pool.len(), |k: int| (false, pool[k].1))
}

/// Whether a texture is as it was when the graph created it: not used yet, and
/// with memory of its own.
pub open spec fn is_unused(texture: FrameGraphTexture) -> bool {
    texture.last_access == TextureAccess::Undefined && texture.allocation is Some
}

/// A transient texture that is handed out: what it is like, and what it is.
pub struct Create {
    pub desc: TextureDesc,
    pub texture: FrameGraphTexture,
}

/// The transient textures of one frame, by what they are like.
struct FramePool {
    entries: Vec<(TextureDesc, Vec<PooledTexture>)>,
}

impl FramePool {
    /// No description occurs twice.
    spec fn wf(self) -> bool {
        forall|i: int, j: int|
            0 <= i < j < self.entries@.len() ==> (#[trigger] self.entries@[i]).0
                != (#[trigger] self.entries@[j]).0
    }

    spec fn is_at(self, desc: TextureDesc, i: int) -> bool {
        0 <= i < self.entries@.len() && self.entries@[i].0 == desc
    }

    /// The textures of a description.
    spec fn lookup(self, desc: TextureDesc) -> Seq<PooledTexture> {
        if exists|i: int| self.is_at(desc, i) {
            self.entries@[choose|i: int| self.is_at(desc, i)].1@
        } else {
            Seq::empty()
        }
    }

    fn new() -> (pool: Self)
        ensures
            pool.wf(),
            forall|desc: TextureDesc| #[trigger]
                pool.lookup(desc) == Seq::<PooledTexture>::empty(),
    {
        FramePool { entries: Vec::new() }
    }

    fn position(&self, desc: TextureDesc) -> (position: Option<usize>)
        requires
            self.wf(),
        ensures
            match position {
                Some(i) => self.is_at(desc, i as int) && self.lookup(desc)
                    == self.entries@[i as int].1@,
                None => self.lookup(desc) == Seq::<PooledTexture>::empty() && forall|i: int|
                    !self.is_at(desc, i),
            },
    {
        for i in 0..self.entries.len()
            invariant
                forall|k: int| 0 <= k < i ==> (#[trigger] self.entries@[k]).0 != desc,
                self.wf(),
        {
            if self.entries[i].0 == desc {
                assert(self.is_at(desc, i as int));
                return Some(i);
            }
        }
        None
    }

    /// Marks the first free texture of a description as in use.
    fn acquire(&mut self, desc: TextureDesc) -> (texture: Option<FrameGraphTexture>)
        requires
            old(self).wf(),
        ensures
            final(self).wf(),
            forall|other: TextureDesc|
                other != desc ==> #[trigger] final(self).lookup(other) == old(self).lookup(other),
            match texture {
                Some(t) => exists|i: int| #[trigger]
                    is_first_free(old(self).lookup(desc), i) && t == old(self).lookup(desc)[i].1
                        && final(self).lookup(desc) == old(self).lookup(desc).update(i, (true, t)),
                None => all_in_use(old(self).lookup(desc)) && final(self).lookup(desc) == old(
                    self,
                ).lookup(desc),
            },
    {
        match self.position(desc) {
            None => None,
            Some(i) => {
                let ghost before = *self;
                let n: usize = self.entries[i].1.len();
                for k in 0..n
                    invariant
                        *self == before,
                        before.is_at(desc, i as int),
                        i < self.entries@.len(),
                        n == self.entries@[i as int].1@.len(),
                        forall|j: int| 0 <= j < k ==> (#[trigger] self.entries@[i as int].1@[j]).0,
                        before.wf(),
                        before == *old(self),
                        before.lookup(desc) == before.entries@[i as int].1@,
                {
                    if !self.entries[i].1[k].0 {
                        let texture = self.entries[i].1[k].1;
                        self.entries[i].1[k].0 = true;
                        assert(is_first_free(before.lookup(desc), k as int));
                        proof {
                            before.lemma_replaced(*self, desc, i as int);
                        }
                        assert(self.lookup(desc) =~= before.lookup(desc).update(
                            k as int,
                            (true, texture),
                        ));
                        return Some(texture);
                    }
                }
                None
            },
        }
    }

    /// Changing the textures of one description leaves those of the others.
    proof fn lemma_replaced(self, after: Self, desc: TextureDesc, i: int)
        requires
            self.wf(),
            self.is_at(desc, i),
            after.entries@.len() == self.entries@.len(),
            after.entries@[i].0 == desc,
            forall|k: int|
                0 <= k < self.entries@.len() && k != i ==> #[trigger] after.entries@[k]
                    == self.entries@[k],
        ensures
            after.wf(),
            after.lookup(desc) == after.entries@[i].1@,
            forall|other: TextureDesc|
                other != desc ==> #[trigger] after.lookup(other) == self.lookup(other),
    {
        assert(after.is_at(desc, i));
        assert forall|other: TextureDesc| other != desc implies #[trigger] after.lookup(other)
            == self.lookup(other) by {
            if exists|k: int| self.is_at(other, k) {
                let k = choose|k: int| self.is_at(other, k);
                assert(after.is_at(other, k));
                let m = choose|m: int| after.is_at(other, m);
                assert(self.is_at(other, m));
            } else if exists|k: int| after.is_at(other, k) {
                let k = choose|k: int| after.is_at(other, k);
                assert(self.is_at(other, k));
            }
        }
    }

    /// Adds a texture, in use, to those of a description.
    fn add_texture(&mut self, desc: TextureDesc, texture: FrameGraphTexture)
        requires
            old(self).wf(),
        ensures
            final(self).wf(),
            final(self).lookup(desc) == old(self).lookup(desc).push((true, texture)),
            forall|other: TextureDesc|
                other != desc ==> #[trigger] final(self).lookup(other) == old(self).lookup(other),
    {
        let ghost before = *self;
        match self.position(desc) {
            Some(i) => {
                self.entries[i].1.push((true, texture));
                proof {
                    before.lemma_replaced(*self, desc, i as int);
                }
            },
            None => {
                let mut textures: Vec<PooledTexture> = Vec::new();
                textures.push((true, texture));
                self.entries.push((desc, textures));
                proof {
                    let last = self.entries@.len() - 1;
                    assert(self.is_at(desc, last));
                    assert forall|k: int| 0 <= k < last implies (#[trigger] self.entries@[k]).0
                        != desc by {
                        assert(!before.is_at(desc, k));
                    }
                    assert(self.lookup(desc) =~= before.lookup(desc).push((true, texture)));
                    assert forall|other: TextureDesc| other != desc implies #[trigger] self.lookup(
                        other,
                    ) == before.lookup(other) by {
                        if exists|k: int| before.is_at(other, k) {
                            let k = choose|k: int| before.is_at(other, k);
                            assert(self.is_at(other, k));
                            let m = choose|m: int| self.is_at(other, m);
                            assert(before.is_at(other, m));
                        } else if exists|k: int| self.is_at(other, k) {
                            let k = choose|k: int| self.is_at(other, k);
                            assert(before.is_at(other, k));
                        }
                    }
                }
            },
        }
    }

    /// Freeing the textures in each place frees those of each description.
    proof fn lemma_released(self, after: Self)
        requires
            self.wf(),
            after.entries@.len() == self.entries@.len(),
            forall|i: int|
                0 <= i < self.entries@.len() ==> (#[trigger] after.entries@[i]).0
                    == self.entries@[i].0 && after.entries@[i].1@ == released(
                    self.entries@[i].1@,
                ),
        ensures
            after.wf(),
            forall|desc: TextureDesc| #[trigger]
                after.lookup(desc) == released(self.lookup(desc)),
    {
        assert forall|desc: TextureDesc| #[trigger] after.lookup(desc) == released(
            self.lookup(desc),
        ) by {
            if exists|k: int| self.is_at(desc, k) {
                let k = choose|k: int| self.is_at(desc, k);
                assert(after.is_at(desc, k));
                let m = choose|m: int| after.is_at(desc, m);
                assert(self.is_at(desc, m));
            } else {
                if exists|k: int| after.is_at(desc, k) {
                    let k = choose|k: int| after.is_at(desc, k);
                    assert(self.is_at(desc, k));
                }
                assert(after.lookup(desc) =~= released(self.lookup(desc)));
            }
        }
    }

    /// Marks all textures as free.
    fn release(&mut self)
        requires
            old(self).wf(),
        ensures
            final(self).wf(),
            forall|desc: TextureDesc| #[trigger]
                final(self).lookup(desc) == released(old(self).lookup(desc)),
    {
        let ghost before = *self;
        let count: usize = self.entries.len();
        for i in 0..count
            invariant
                count == self.entries@.len(),
                self.entries@.len() == before.entries@.len(),
                forall|j: int|
                    0 <= j < i ==> (#[trigger] self.entries@[j]).0 == before.entries@[j].0
                        && self.entries@[j].1@ == released(before.entries@[j].1@),
                forall|j: int|
                    i <= j < self.entries@.len() ==> #[trigger] self.entries@[j]
                        == before.entries@[j],
        {
            let n: usize = self.entries[i].1.len();
            for k in 0..n
                invariant
                    i < self.entries@.len(),
                    self.entries@.len() == before.entries@.len(),
                    self.entries@[i as int].0 == before.entries@[i as int].0,
                    self.entries@[i as int].1@.len() == n,
                    before.entries@[i as int].1@.len() == n,
                    forall|m: int|
                        0 <= m < k ==> #[trigger] self.entries@[i as int].1@[m] == (
                            false,
                            before.entries@[i as int].1@[m].1,
                        ),
                    forall|m: int|
                        k <= m < n ==> #[trigger] self.entries@[i as int].1@[m]
                            == before.entries@[i as int].1@[m],
                    forall|j: int|
                        0 <= j < i ==> (#[trigger] self.entries@[j]).0 == before.entries@[j].0
                            && self.entries@[j].1@ == released(before.entries@[j].1@),
                    forall|j: int|
                        i < j < self.entries@.len() ==> #[trigger] self.entries@[j]
                            == before.entries@[j],
            {
                self.entries[i].1[k].0 = false;
            }
            assert(self.entries@[i as int].1@ =~= released(before.entries@[i as int].1@));
        }
        proof {
            before.lemma_released(*self);
        }
    }
}

/// What a frame graph is made from.
pub struct FrameGraphCreateDesc {
    /// How many frames can be worked on at the same time.
    pub frame_in_flight: usize,
}

/// Keeps the transient textures of the frames in flight.
pub struct FrameGraph {
    current_frame: usize,
    frame_in_flight: usize,
    transient_textures: HashMap<usize, FramePool>,
}

/// What a frame graph holds: the number of the current frame, how many frames
/// can be in flight, and for each of those the textures of each description.
#[verifier::ext_equal]
pub struct GraphView {
    pub current_frame: usize,
    pub frame_in_flight: usize,
    pub pools: Map<(usize, TextureDesc), Seq<PooledTexture>>,
}

impl GraphView {
    /// A graph without textures, at its first frame.
    pub open spec fn empty(frame_in_flight: usize) -> GraphView {
        GraphView {
            current_frame: 0,
            frame_in_flight,
            pools: Map::total(|at: (usize, TextureDesc)| Seq::<PooledTexture>::empty()),
        }
    }

    /// The frame in flight that new textures belong to.
    pub open spec fn next_slot(self) -> usize {
        ((self.current_frame + 1) % (self.frame_in_flight as int)) as usize
    }

    /// Whether the graph can take another frame: there is a frame in flight,
    /// and the frame counter has not run out.
    pub open spec fn can_advance(self) -> bool {
        self.frame_in_flight > 0 && self.current_frame < usize::MAX
    }

    /// The textures of a description that the next frame can use.
    pub open spec fn pool(self, desc: TextureDesc) -> Seq<PooledTexture> {
        self.pools[(self.next_slot(), desc)]
    }

    /// The graph with other textures of a description for the next frame.
    pub open spec fn with_pool(self, desc: TextureDesc, pool: Seq<PooledTexture>) -> GraphView {
        GraphView { pools: self.pools.insert((self.next_slot(), desc), pool), ..self }
    }

    /// The graph once the current frame is over: nothing is in use.
    pub open spec fn after_frame(self) -> GraphView {
        GraphView {
            current_frame: (self.current_frame + 1) as usize,
            frame_in_flight: self.frame_in_flight,
            pools: Map::total(|at: (usize, TextureDesc)| released(self.pools[at])),
        }
    }

    /// Whether the next frame can be handed this texture: the first free one of
    /// its description, or a new one where there is none.
    pub open spec fn gives(self, create: Create) -> bool {
        let pool = self.pool(create.desc);
        if all_in_use(pool) {
            is_unused(create.texture)
        } else {
            create.texture == pool[first_free(pool)].1
        }
    }

    /// The graph once a texture has been handed out: it is in use.
    pub open spec fn took(self, create: Create) -> GraphView {
        let pool = self.pool(create.desc);
        self.with_pool(
            create.desc,
            if all_in_use(pool) {
                pool.push((true, create.texture))
            } else {
                pool.update(first_free(pool), (true, create.texture))
            },
        )
    }

    /// Every texture that the graph keeps is as it was created; in each pool
    /// those that are in use come first; and only the next frame has any in
    /// use.
    pub open spec fn wf(self) -> bool {
        &&& forall|at: (usize, TextureDesc), i: int|
            0 <= i < self.pools[at].len() ==> is_unused((#[trigger] self.pools[at][i]).1)
        &&& forall|at: (usize, TextureDesc)| used_come_first(#[trigger] self.pools[at])
        &&& forall|at: (usize, TextureDesc)|
            at.0 != self.next_slot() ==> first_in_use(#[trigger] self.pools[at], 0)
    }
}

/// In a pool whose first `count` textures are in use, the next one is the first
/// that is free, if there is one.
pub proof fn lemma_first_free(pool: Seq<PooledTexture>, count: int)
    requires
        first_in_use(pool, count),
    ensures
        all_in_use(pool) <==> count == pool.len(),
        count < pool.len() ==> is_first_free(pool, count) && first_free(pool) == count,
{
    if count < pool.len() {
        assert(!pool[count].0);
        assert(is_first_free(pool, count));
        let i = first_free(pool);
        assert(is_first_free(pool, i));
        assert(pool[i].0 <==> i < count);
        assert(i <= count);
    }
}

/// Handing out a texture puts one more of its description in use, the first that
/// was free, and touches no other.
pub proof fn lemma_took(graph: GraphView, create: Create, count: int)
    requires
        graph.gives(create),
        first_in_use(graph.pool(create.desc), count),
    ensures
        ({
            let before = graph.pool(create.desc);
            let after = graph.took(create).pool(create.desc);
            &&& first_in_use(after, count + 1)
            &&& after.len() == if count == before.len() {
                before.len() + 1
            } else {
                before.len()
            }
            &&& after[count].1 == create.texture
            &&& forall|k: int| 0 <= k < before.len() ==> (#[trigger] after[k]).1 == before[k].1
        }),
{
    lemma_first_free(graph.pool(create.desc), count);
    assert(graph.took(create).next_slot() == graph.next_slot());
}

/// Handing out a texture keeps a graph well-formed.
pub proof fn law_create_keeps_graph(graph: GraphView, create: Create)
    requires
        graph.wf(),
        graph.gives(create),
    ensures
        graph.took(create).wf(),
        is_unused(create.texture),
{
    let after = graph.took(create);
    let at = (graph.next_slot(), create.desc);
    assert(after.next_slot() == graph.next_slot());
    assert(used_come_first(graph.pools[at]));
    let count = choose|count: int| first_in_use(graph.pools[at], count);
    lemma_first_free(graph.pools[at], count);
    lemma_took(graph, create, count);
    if count < graph.pools[at].len() {
        assert(is_unused(graph.pools[at][count].1));
    }
    assert forall|other: (usize, TextureDesc), i: int|
        0 <= i < after.pools[other].len() implies is_unused(
        (#[trigger] after.pools[other][i]).1,
    ) by {
        if other != at || i < graph.pools[at].len() {
            assert(is_unused(graph.pools[other][i].1));
        }
    }
    assert forall|other: (usize, TextureDesc)| used_come_first(
        #[trigger] after.pools[other],
    ) by {
        if other == at {
            assert(first_in_use(after.pools[other], count + 1));
        } else {
            assert(after.pools[other] == graph.pools[other]);
        }
    }
}

/// The end of a frame keeps a graph well-formed, and leaves nothing in use.
pub proof fn law_end_of_frame_keeps_graph(graph: GraphView)
    requires
        graph.wf(),
    ensures
        graph.after_frame().wf(),
        forall|at: (usize, TextureDesc)| first_in_use(#[trigger] graph.after_frame().pools[at], 0),
{
    let after = graph.after_frame();
    assert forall|at: (usize, TextureDesc), i: int|
        0 <= i < after.pools[at].len() implies is_unused((#[trigger] after.pools[at][i]).1) by {
        assert(is_unused(graph.pools[at][i].1));
    }
    assert forall|at: (usize, TextureDesc)|
        first_in_use(#[trigger] after.pools[at], 0) && used_come_first(after.pools[at]) by {
        assert(first_in_use(after.pools[at], 0));
    }
}

impl View for FrameGraph {
    type V = GraphView;

    closed spec fn view(&self) -> GraphView {
        GraphView {
            current_frame: self.current_frame,
            frame_in_flight: self.frame_in_flight,
            pools: Map::total(|at: (usize, TextureDesc)| self.lookup(at)),
        }
    }
}

impl FrameGraph {
    spec fn lookup(self, at: (usize, TextureDesc)) -> Seq<PooledTexture> {
        if self.transient_textures@.contains_key(at.0) {
            self.transient_textures@[at.0].lookup(at.1)
        } else {
            Seq::empty()
        }
    }

    /// No description occurs twice in a frame.
    pub closed spec fn pools_wf(self) -> bool {
        forall|frame: usize| #[trigger]
            self.transient_textures@.contains_key(frame)
                ==> self.transient_textures@[frame].wf()
    }

    /// The graph is well-formed.
    pub open spec fn wf(&self) -> bool {
        self.pools_wf() && self@.wf()
    }

    /// A graph without textures, at its first frame.
    pub fn new(desc: &FrameGraphCreateDesc) -> (graph: Self)
        ensures
            graph.wf(),
            graph@ == GraphView::empty(desc.frame_in_flight),
    {
        let graph = FrameGraph {
            frame_in_flight: desc.frame_in_flight,
            current_frame: 0,
            transient_textures: HashMap::new(),
        };
        proof {
            assert(graph@ =~= GraphView::empty(desc.frame_in_flight));
            assert forall|at: (usize, TextureDesc)|
                first_in_use(#[trigger] graph@.pools[at], 0) && used_come_first(
                    graph@.pools[at],
                ) by {
                assert(first_in_use(graph@.pools[at], 0));
            }
        }
        graph
    }

    /// The number of frames that are over.
    pub fn current_frame(&self) -> (frame: usize)
        ensures
            frame == self@.current_frame,
    {
        self.current_frame
    }

    /// Whether the graph can take another frame: there is a frame in flight,
    /// and the frame counter has not run out.
    pub fn can_advance(&self) -> (can: bool)
        ensures
            can == self@.can_advance(),
            can <==> self@.frame_in_flight > 0 && self@.current_frame < usize::MAX,
    {
        self.frame_in_flight > 0 && self.current_frame < usize::MAX
    }

    /// Takes the first free texture of a description into use, if there is
    /// one.
    pub(crate) fn acquire(&mut self, desc: TextureDesc) -> (texture: Option<FrameGraphTexture>)
        requires
            old(self).wf(),
            old(self)@.can_advance(),
        ensures
            final(self).wf(),
            match texture {
                Some(t) => {
                    let create = Create { desc, texture: t };
                    &&& is_unused(t)
                    &&& !all_in_use(old(self)@.pool(desc))
                    &&& old(self)@.gives(create)
                    &&& final(self)@ == old(self)@.took(create)
                },
                None => all_in_use(old(self)@.pool(desc)) && final(self)@ == old(self)@,
            },
    {
        let ghost before = *self;
        let idx: usize = (self.current_frame + 1) % self.frame_in_flight;
        let frame_textures = self.transient_textures.entry(idx).or_insert(FramePool::new());
        let texture = frame_textures.acquire(desc);
        proof {
            assert(before@.pool(desc) == before.lookup((idx, desc)));
            assert forall|at: (usize, TextureDesc)| at != (idx, desc) implies #[trigger] self@.pools[at]
                == before@.pools[at] by {
                if at.0 == idx {
                    assert(at.1 != desc);
                }
            }
            match texture {
                Some(t) => {
                    let create = Create { desc, texture: t };
                    let pool = before@.pool(desc);
                    let i = choose|i: int| #[trigger]
                        is_first_free(pool, i) && t == pool[i].1 && self@.pools[(idx, desc)]
                            == pool.update(i, (true, t));
                    let first = first_free(pool);
                    assert(is_first_free(pool, first));
                    assert(i == first) by {
                        assert(i <= first || pool[first].0);
                        assert(first <= i || pool[i].0);
                    }
                    assert(!all_in_use(pool)) by {
                        assert(!pool[i].0);
                    }
                    assert(self@ =~= before@.took(create));
                    law_create_keeps_graph(before@, create);
                },
                None => {
                    assert(self@ =~= before@);
                },
            }
        }
        texture
    }

    /// Adds a new texture, in use, to those of a description.
    pub(crate) fn add_texture(&mut self, desc: TextureDesc, texture: FrameGraphTexture)
        requires
            old(self).wf(),
            old(self)@.can_advance(),
            all_in_use(old(self)@.pool(desc)),
            is_unused(texture),
        ensures
            final(self).wf(),
            final(self)@ == old(self)@.took(Create { desc, texture }),
    {
        let ghost before = *self;
        let idx: usize = (self.current_frame + 1) % self.frame_in_flight;
        let frame_textures = self.transient_textures.entry(idx).or_insert(FramePool::new());
        frame_textures.add_texture(desc, texture);
        proof {
            assert(before@.pool(desc) == before.lookup((idx, desc)));
            assert(self@ =~= before@.took(Create { desc, texture }));
            law_create_keeps_graph(before@, Create { desc, texture });
        }
    }

    /// The frames that have textures.
    fn frames(&self) -> (frames: Vec<usize>)
        ensures
            frames@.no_duplicates(),
            forall|frame: usize| #[trigger]
                frames@.contains(frame) <==> self.transient_textures@.contains_key(frame),
    {
        let mut frames: Vec<usize> = Vec::new();
        for frame in keys: self.transient_textures.keys()
            invariant
                frames@ == keys.seq().take(keys.index() as int).unref(),
                keys.seq().unref().to_set() == self.transient_textures@.dom(),
                keys.seq().no_duplicates(),
                keys.index() == keys.seq().len() ==> frames@ == keys.seq().unref(),
        {
            frames.push(*frame);
        }
        assert(frames@.to_set() == self.transient_textures@.dom());
        assert forall|frame: usize| #[trigger] frames@.contains(
            frame,
        ) == self.transient_textures@.contains_key(frame) by {
            assert(frames@.to_set().contains(frame) == frames@.contains(frame));
        }
        frames
    }

    /// Ends the current frame: no texture is in use any more, and the next
    /// frame begins.
    pub(crate) fn end_frame(&mut self)
        requires
            old(self).wf(),
            old(self)@.current_frame < usize::MAX,
        ensures
            final(self).wf(),
            final(self)@ == old(self)@.after_frame(),
    {
        let ghost before = *self;
        let frames = self.frames();
        for i in 0..frames.len()
            invariant
                before.pools_wf(),
                self.pools_wf(),
                self.current_frame == before.current_frame,
                self.frame_in_flight == before.frame_in_flight,
                frames@.no_duplicates(),
                forall|frame: usize| #[trigger]
                    frames@.contains(frame) <==> before.transient_textures@.contains_key(frame),
                self.transient_textures@.dom() == before.transient_textures@.dom(),
                forall|k: int, desc: TextureDesc|
                    0 <= k < i ==> #[trigger] self.transient_textures@[frames@[k]].lookup(desc)
                        == released(before.transient_textures@[frames@[k]].lookup(desc)),
                forall|k: int|
                    i <= k < frames@.len() ==> self.transient_textures@[#[trigger] frames@[k]]
                        == before.transient_textures@[frames@[k]],
        {
            let frame: usize = frames[i];
            assert(frames@.contains(frame));
            let frame_textures = self.transient_textures.entry(frame).or_insert(FramePool::new());
            frame_textures.release();
            assert(self.transient_textures@.dom() =~= before.transient_textures@.dom());
        }
        self.current_frame = self.current_frame + 1;
        proof {
            assert forall|at: (usize, TextureDesc)| #[trigger] self.lookup(at) == released(
                before.lookup(at),
            ) by {
                if before.transient_textures@.contains_key(at.0) {
                    let k = frames@.index_of(at.0);
                    assert(frames@.contains(at.0));
                    assert(frames@[k] == at.0);
                } else {
                    assert(self.lookup(at) =~= released(before.lookup(at)));
                }
            }
            assert(self@ =~= before@.after_frame());
            law_end_of_frame_keeps_graph(before@);
        }
    }

    /// Gives up all textures, so that their memory can be freed: the pools,
    /// each once and in any order, of which none is left in the graph.
    pub fn drain(&mut self) -> (drained: Vec<DrainedPool>)
        requires
            old(self).wf(),
        ensures
            final(self).wf(),
            final(self)@ == (GraphView {
                pools: Map::total(|at: (usize, TextureDesc)| Seq::<PooledTexture>::empty()),
                ..old(self)@
            }),
            forall|i: int|
                0 <= i < drained@.len() ==> (#[trigger] drained@[i]).textures@ == old(
                    self,
                )@.pools[drained@[i].at()],
            forall|i: int, j: int|
                0 <= i < j < drained@.len() ==> (#[trigger] drained@[i]).at() != (
                #[trigger] drained@[j]).at(),
            forall|at: (usize, TextureDesc)|
                (#[trigger] old(self)@.pools[at]).len() > 0 ==> has_pool(drained@, at),
    {
        let ghost before = *self;
        let frames = self.frames();
        let mut drained: Vec<DrainedPool> = Vec::new();
        proof {
            assert(frames@.skip(0) =~= frames@);
            assert forall|k: int| 0 <= k < frames@.len() implies self.transient_textures@.contains_key(
                #[trigger] frames@[k],
            ) by {
                assert(frames@.contains(frames@[k]));
            }
        }
        for f in 0..frames.len()
            invariant
                before.pools_wf(),
                self.current_frame == before.current_frame,
                self.frame_in_flight == before.frame_in_flight,
                frames@.no_duplicates(),
                forall|frame: usize| #[trigger]
                    frames@.contains(frame) <==> before.transient_textures@.contains_key(frame),
                forall|frame: usize| #[trigger]
                    self.transient_textures@.contains_key(frame) ==> frames@.skip(
                        f as int,
                    ).contains(frame),
                forall|k: int|
                    f <= k < frames@.len() ==> self.transient_textures@.contains_key(
                        #[trigger] frames@[k],
                    ) && self.transient_textures@[frames@[k]]
                        == before.transient_textures@[frames@[k]],
                forall|i: int|
                    0 <= i < drained@.len() ==> (#[trigger] drained@[i]).textures@
                        == before.lookup(drained@[i].at()) && frames@.take(f as int).contains(
                        drained@[i].frame,
                    ),
                forall|i: int, j: int|
                    0 <= i < j < drained@.len() ==> (#[trigger] drained@[i]).at() != (
                    #[trigger] drained@[j]).at(),
                forall|k: int, e: int|
                    0 <= k < f && 0 <= e < before.transient_textures@[frames@[k]].entries@.len()
                        ==> has_pool(
                        drained@,
                        (
                            frames@[k],
                            (#[trigger] before.transient_textures@[frames@[k]].entries@[e]).0,
                        ),
                    ),
        {
            let frame: usize = frames[f];
            let ghost whole = before.transient_textures@[frame];
            let ghost earlier = drained@;
            assert(frames@.contains(frame));
            if let Some(mut pool) = self.transient_textures.remove(&frame) {
                assert(pool == whole);
                assert(!frames@.take(f as int).contains(frame));
                while pool.entries.len() > 0
                    invariant
                        whole == before.transient_textures@[frame],
                        before.transient_textures@.contains_key(frame),
                        whole.wf(),
                        f < frames@.len(),
                        frame == frames@[f as int],
                        !frames@.take(f as int).contains(frame),
                        pool.entries@.len() <= whole.entries@.len(),
                        pool.entries@ == whole.entries@.take(pool.entries@.len() as int),
                        earlier.len() <= drained@.len(),
                        forall|i: int| 0 <= i < earlier.len() ==> drained@[i] == #[trigger] earlier[i],
                        forall|i: int|
                            0 <= i < earlier.len() ==> (#[trigger] drained@[i]).textures@
                                == before.lookup(drained@[i].at()) && frames@.take(
                                f as int,
                            ).contains(drained@[i].frame),
                        forall|i: int|
                            earlier.len() <= i < drained@.len() ==> (
                            #[trigger] drained@[i]).textures@ == before.lookup(drained@[i].at())
                                && drained@[i].frame == frame && exists|e: int|
                                pool.entries@.len() <= e < whole.entries@.len() && (
                                #[trigger] whole.entries@[e]).0 == drained@[i].desc,
                        forall|i: int, j: int|
                            0 <= i < j < drained@.len() ==> (#[trigger] drained@[i]).at() != (
                            #[trigger] drained@[j]).at(),
                        forall|e: int|
                            pool.entries@.len() <= e < whole.entries@.len() ==> has_pool(
                                drained@,
                                (frame, (#[trigger] whole.entries@[e]).0),
                            ),
                    decreases pool.entries.len(),
                {
                    let ghost so_far = drained@;
                    let ghost e = pool.entries@.len() - 1;
                    let (desc, textures) = pool.entries.pop().unwrap();
                    drained.push(DrainedPool { frame, desc, textures });
                    proof {
                        assert(whole.entries@[e].0 == desc);
                        assert(whole.is_at(desc, e));
                        let m = choose|m: int| whole.is_at(desc, m);
                        assert(whole.entries@[m].0 == whole.entries@[e].0);
                        assert(before.lookup((frame, desc)) == textures@);
                        assert(drained@[so_far.len() as int].at() == (frame, desc));
                        assert(is_pool_at(drained@, (frame, desc), so_far.len() as int));
                        assert forall|at: (usize, TextureDesc)| has_pool(so_far, at) implies
                            #[trigger] has_pool(drained@, at) by {
                            let i = choose|i: int| is_pool_at(so_far, at, i);
                            assert(is_pool_at(drained@, at, i));
                        }
                    }
                }
            }
            proof {
                assert forall|at: (usize, TextureDesc)| has_pool(earlier, at) implies
                    #[trigger] has_pool(drained@, at) by {
                    let i = choose|i: int| is_pool_at(earlier, at, i);
                    assert(is_pool_at(drained@, at, i));
                }
                assert forall|i: int| 0 <= i < drained@.len() implies frames@.take(
                    f + 1,
                ).contains((#[trigger] drained@[i]).frame) by {
                    if i < earlier.len() {
                        let k = frames@.take(f as int).index_of(drained@[i].frame);
                        assert(frames@.take(f + 1)[k] == drained@[i].frame);
                    } else {
                        assert(frames@.take(f + 1)[f as int] == frame);
                    }
                }
                assert forall|other: usize| #[trigger]
                    self.transient_textures@.contains_key(other) implies frames@.skip(
                    f + 1,
                ).contains(other) by {
                    let k = frames@.skip(f as int).index_of(other);
                    assert(frames@[f + k] == other);
                    assert(frames@.skip(f + 1)[k - 1] == other);
                }
            }
        }
        proof {
            assert(frames@.skip(frames@.len() as int) =~= Seq::empty());
            assert forall|at: (usize, TextureDesc)|
                first_in_use(#[trigger] self@.pools[at], 0) && used_come_first(self@.pools[at]) by {
                assert(first_in_use(self@.pools[at], 0));
            }
            assert forall|at: (usize, TextureDesc)| (#[trigger] before@.pools[at]).len()
                > 0 implies has_pool(drained@, at) by {
                let whole = before.transient_textures@[at.0];
                assert(frames@.contains(at.0));
                let k = frames@.index_of(at.0);
                let e = choose|e: int| whole.is_at(at.1, e);
                assert(before.transient_textures@[frames@[k]].entries@[e].0 == at.1);
            }
        }
        drained
    }
}

/// The textures of a description that a frame had.
pub struct DrainedPool {
    pub frame: usize,
    pub desc: TextureDesc,
    pub textures: Vec<PooledTexture>,
}

impl DrainedPool {
    /// The frame and the description.
    pub open spec fn at(self) -> (usize, TextureDesc) {
        (self.frame, self.desc)
    }
}

/// Whether the pool at `i` is that of `at`.
pub open spec fn is_pool_at(pools: Seq<DrainedPool>, at: (usize, TextureDesc), i: int) -> bool {
    0 <= i < pools.len() && pools[i].at() == at
}

/// Whether one of the pools is that of `at`.
pub open spec fn has_pool(pools: Seq<DrainedPool>, at: (usize, TextureDesc)) -> bool {
    exists|i: int| is_pool_at(pools, at, i)
}

impl GraphView {
    /// The graph once `frames` frames are over.
    pub open spec fn after_frames(self, frames: nat) -> GraphView
        decreases frames,
    {
        if frames == 0 {
            self
        } else {
            self.after_frames((frames - 1) as nat).after_frame()
        }
    }
}

proof fn lemma_after_frames(graph: GraphView, frames: nat)
    requires
        graph.current_frame + frames <= usize::MAX,
    ensures
        graph.after_frames(frames).current_frame == graph.current_frame + frames,
        graph.after_frames(frames).frame_in_flight == graph.frame_in_flight,
        frames > 0 ==> forall|at: (usize, TextureDesc)| #[trigger]
            graph.after_frames(frames).pools[at] == released(graph.pools[at]),
    decreases frames,
{
    if frames > 0 {
        let earlier = (frames - 1) as nat;
        lemma_after_frames(graph, earlier);
        assert forall|at: (usize, TextureDesc)| #[trigger] graph.after_frames(frames).pools[at]
            == released(graph.pools[at]) by {
            let before = graph.after_frames(earlier).pools[at];
            assert(graph.after_frames(frames).pools[at] == released(before));
            assert(released(released(graph.pools[at])) =~= released(graph.pools[at]));
        }
    }
}

/// Once a frame is over, none of the graph's textures is in use, and none has
/// been lost or changed.
pub proof fn law_end_of_frame_frees_all(graph: GraphView, at: (usize, TextureDesc), i: int)
    requires
        0 <= i < graph.pools[at].len(),
    ensures
        graph.after_frame().pools[at].len() == graph.pools[at].len(),
        graph.after_frame().pools[at][i] == (false, graph.pools[at][i].1),
{
}

/// A texture that was taken into use is not taken again while it is in use, and
/// those in use stay in use.
pub proof fn law_textures_in_use_are_not_taken(pool: Seq<PooledTexture>, i: int, k: int)
    requires
        is_first_free(pool, i),
        0 <= k < pool.len(),
        k == i || pool[k].0,
    ensures
        pool.update(i, (true, pool[i].1))[k].0,
        !is_first_free(pool.update(i, (true, pool[i].1)), k),
{
}

/// The frames in flight have pools of their own: the next frames after this one,
/// as far as they are in flight at the same time, take their textures from other
/// pools.
pub proof fn law_frames_in_flight_have_their_pools(graph: GraphView, later: nat)
    requires
        graph.frame_in_flight > 0,
        0 < later < graph.frame_in_flight,
        graph.current_frame + later < usize::MAX,
    ensures
        graph.after_frames(later).next_slot() != graph.next_slot(),
{
    lemma_after_frames(graph, later);
    let n = graph.frame_in_flight as int;
    let a = graph.current_frame + 1;
    let b = a + later;
    assert(a % n != b % n) by (nonlinear_arith)
        requires
            n > 0,
            a >= 0,
            b == a + later,
            0 < later < n,
    {
        let d = later as int;
        assert(a == n * (a / n) + a % n);
        assert(b == n * (b / n) + b % n);
        if a % n == b % n {
            assert(d == n * (b / n - a / n));
            assert(b / n - a / n >= 1 || b / n - a / n <= 0);
        }
    }
    assert(0 <= a % n < n && 0 <= b % n < n) by (nonlinear_arith)
        requires
            n > 0,
    ;
}

/// Transient textures come round: when as many frames are over as can be in
/// flight, the same textures can be used again, all of them free.
pub proof fn law_textures_come_round(graph: GraphView, desc: TextureDesc)
    requires
        graph.frame_in_flight > 0,
        graph.current_frame + graph.frame_in_flight < usize::MAX,
    ensures
        graph.after_frames(graph.frame_in_flight as nat).pool(desc) == released(graph.pool(desc)),
{
    lemma_after_frames(graph, graph.frame_in_flight as nat);
    let n = graph.frame_in_flight as int;
    let a = graph.current_frame + 1;
    vstd::arithmetic::div_mod::lemma_mod_add_multiples_vanish(a, n);
}

/// The graph hands out the first texture of a pool whose textures are all free,
/// so that no image is created where one can be used again.
pub proof fn law_released_pool_has_first_free(pool: Seq<PooledTexture>)
    requires
        pool.len() > 0,
    ensures
        is_first_free(released(pool), 0),
        !all_in_use(released(pool)),
{
    assert(!released(pool)[0].0);
}


/// The textures of the next frame are those of the frame in flight with its number,
/// counted round.
pub proof fn law_next_frame_has_its_pool(graph: GraphView, desc: TextureDesc, slot: usize)
    requires
        graph.can_advance(),
        slot == (graph.current_frame + 1) % (graph.frame_in_flight as int),
    ensures
        graph.frame_in_flight > 0,
        graph.current_frame < usize::MAX,
        graph.next_slot() == slot,
        graph.pool(desc) == graph.pools[(slot, desc)],
{
}

/// A graph can go on exactly if it has a frame in flight and its counter has not
/// run out.
pub proof fn law_graph_can_advance(graph: GraphView)
    ensures
        graph.can_advance() <==> graph.frame_in_flight >= 1 && graph.current_frame + 1
            <= usize::MAX,
{
}

/// A new graph is at frame zero and has no textures.
pub proof fn law_new_graph_has_nothing(frame_in_flight: usize, at: (usize, TextureDesc))
    ensures
        GraphView::empty(frame_in_flight).current_frame == 0,
        GraphView::empty(frame_in_flight).frame_in_flight == frame_in_flight,
        GraphView::empty(frame_in_flight).pools[at].len() == 0,
        GraphView::empty(frame_in_flight).wf(),
{
    let graph = GraphView::empty(frame_in_flight);
    assert forall|at: (usize, TextureDesc)|
        first_in_use(#[trigger] graph.pools[at], 0) && used_come_first(graph.pools[at]) by {
        assert(first_in_use(graph.pools[at], 0));
    }
}

/// Where a texture of the description is free, the first free one is handed out,
/// is in use from then on, and stays where it is; the others of its pool stay as
/// they are.
pub proof fn law_create_takes_the_first_free(graph: GraphView, create: Create, i: int, k: int)
    requires
        graph.gives(create),
        0 <= i < graph.pool(create.desc).len(),
        !graph.pool(create.desc)[i].0,
        forall|j: int| 0 <= j < i ==> (#[trigger] graph.pool(create.desc)[j]).0,
        0 <= k < graph.pool(create.desc).len(),
    ensures
        create.texture == graph.pool(create.desc)[i].1,
        graph.took(create).pool(create.desc).len() == graph.pool(create.desc).len(),
        graph.took(create).pool(create.desc)[i] == (true, graph.pool(create.desc)[i].1),
        k != i ==> graph.took(create).pool(create.desc)[k] == graph.pool(create.desc)[k],
{
    let pool = graph.pool(create.desc);
    assert(is_first_free(pool, i));
    let first = first_free(pool);
    assert(is_first_free(pool, first));
    assert(first == i) by {
        assert(first <= i || pool[i].0);
        assert(i <= first || pool[first].0);
    }
    assert(graph.took(create).next_slot() == graph.next_slot());
}

/// Where all textures of the description are in use, a new one is handed out, which
/// was not used yet and has memory, and it is kept, in use, after the others.
pub proof fn law_create_adds_where_none_is_free(graph: GraphView, create: Create, k: int)
    requires
        graph.gives(create),
        forall|j: int|
            0 <= j < graph.pool(create.desc).len() ==> (#[trigger] graph.pool(create.desc)[j]).0,
    ensures
        create.texture.last_access == TextureAccess::Undefined,
        create.texture.allocation is Some,
        graph.took(create).pool(create.desc).len() == graph.pool(create.desc).len() + 1,
        graph.took(create).pool(create.desc).last() == (true, create.texture),
        0 <= k < graph.pool(create.desc).len() ==> graph.took(create).pool(create.desc)[k]
            == graph.pool(create.desc)[k],
{
    assert(graph.took(create).next_slot() == graph.next_slot());
}

/// Handing out a texture touches no pool but its own, and no frame number.
pub proof fn law_create_touches_one_pool(
    graph: GraphView,
    create: Create,
    at: (usize, TextureDesc),
)
    requires
        at != (graph.next_slot(), create.desc),
    ensures
        graph.took(create).pools[at] == graph.pools[at],
        graph.took(create).current_frame == graph.current_frame,
        graph.took(create).frame_in_flight == graph.frame_in_flight,
{
}

/// The end of a frame counts the frame, and keeps the number of frames in flight.
pub proof fn law_end_of_frame_counts(graph: GraphView)
    requires
        graph.current_frame < usize::MAX,
    ensures
        graph.after_frame().current_frame == graph.current_frame + 1,
        graph.after_frame().frame_in_flight == graph.frame_in_flight,
{
}

} // verus!
