//! What becomes of the transient textures over many frames.
//!
//! A frame is given by the textures that its scopes created, in order, and a
//! history by its frames. What is said of different images is of histories in
//! which a new texture has an image that no texture of the graph has.

use vstd::prelude::*;
use crate::graph::{
    all_in_use, first_in_use, is_unused, law_create_keeps_graph, law_end_of_frame_keeps_graph,
    lemma_first_free, lemma_took, released, used_come_first, Create, GraphView,
};
use crate::types::{Image, TextureDesc};

verus! {

/// How many of the textures are of a description.
pub open spec fn count_of(creates: Seq<Create>, desc: TextureDesc) -> nat
    decreases creates.len(),
{
    if creates.len() == 0 {
        0
    } else {
        count_of(creates.drop_last(), desc) + if creates.last().desc == desc {
            1nat
        } else {
            0nat
        }
    }
}

/// How many textures of the same description a frame created before the one at
/// `p`.
pub open spec fn number_of(creates: Seq<Create>, p: int) -> nat {
    count_of(creates.take(p), creates[p].desc)
}

/// The frame in flight whose textures frame `f` uses, out of `n`.
pub open spec fn slot_of(f: int, n: usize) -> int {
    (f + 1) % (n as int)
}

/// The most textures of a description that a frame with the given frame in flight
/// created.
pub open spec fn busiest(
    frames: Seq<Seq<Create>>,
    n: usize,
    at: (usize, TextureDesc),
) -> nat
    decreases frames.len(),
{
    if frames.len() == 0 {
        0
    } else {
        let earlier = busiest(frames.drop_last(), n, at);
        let last = count_of(frames.last(), at.1);
        if slot_of(frames.len() - 1, n) == at.0 && earlier < last {
            last
        } else {
            earlier
        }
    }
}

impl GraphView {
    /// Whether a texture of the graph has this image.
    pub open spec fn has_image(self, image: Image) -> bool {
        exists|at: (usize, TextureDesc), i: int|
            0 <= i < self.pools[at].len() && (#[trigger] self.pools[at][i]).1.image == image
    }

    /// Whether no two textures of the graph have the same image.
    pub open spec fn images_differ(self) -> bool {
        forall|at: (usize, TextureDesc), i: int, other: (usize, TextureDesc), k: int|
            0 <= i < self.pools[at].len() && 0 <= k < self.pools[other].len() && (
            #[trigger] self.pools[at][i]).1.image == (#[trigger] self.pools[other][k]).1.image
                ==> at == other && i == k
    }

    /// The graph once textures have been handed out.
    pub open spec fn after_creates(self, creates: Seq<Create>) -> GraphView
        decreases creates.len(),
    {
        if creates.len() == 0 {
            self
        } else {
            self.after_creates(creates.drop_last()).took(creates.last())
        }
    }

    /// Whether the graph can hand out these textures, one after the other.
    pub open spec fn gives_all(self, creates: Seq<Create>) -> bool
        decreases creates.len(),
    {
        creates.len() > 0 ==> self.gives_all(creates.drop_last()) && self.after_creates(
            creates.drop_last(),
        ).gives(creates.last())
    }

    /// Whether each of the textures that is a new one has a new image.
    pub open spec fn has_new_images(self, creates: Seq<Create>) -> bool
        decreases creates.len(),
    {
        creates.len() > 0 ==> {
            let before = self.after_creates(creates.drop_last());
            let last = creates.last();
            &&& self.has_new_images(creates.drop_last())
            &&& all_in_use(before.pool(last.desc)) ==> !before.has_image(last.texture.image)
        }
    }

    /// The graph once frames are over that created these textures.
    pub open spec fn after_history(self, frames: Seq<Seq<Create>>) -> GraphView
        decreases frames.len(),
    {
        if frames.len() == 0 {
            self
        } else {
            self.after_history(frames.drop_last()).after_creates(frames.last()).after_frame()
        }
    }

    /// The graph in the last of the frames, before its end.
    pub open spec fn during(self, frames: Seq<Seq<Create>>) -> GraphView {
        self.after_history(frames.drop_last()).after_creates(frames.last())
    }

    /// Whether frames can create these textures, one frame after the other.
    pub open spec fn runs(self, frames: Seq<Seq<Create>>) -> bool
        decreases frames.len(),
    {
        frames.len() > 0 ==> self.runs(frames.drop_last()) && self.after_history(
            frames.drop_last(),
        ).gives_all(frames.last())
    }

    /// Whether in all frames each texture that is a new one has a new image.
    pub open spec fn runs_with_new_images(self, frames: Seq<Seq<Create>>) -> bool
        decreases frames.len(),
    {
        frames.len() > 0 ==> self.runs_with_new_images(frames.drop_last()) && self.after_history(
            frames.drop_last(),
        ).has_new_images(frames.last())
    }
}

proof fn lemma_count(creates: Seq<Create>, p: int, q: int, desc: TextureDesc)
    requires
        0 <= p <= q <= creates.len(),
    ensures
        count_of(creates.take(p), desc) <= count_of(creates.take(q), desc),
        p < q && creates[p].desc == desc ==> count_of(creates.take(p), desc) < count_of(
            creates.take(q),
            desc,
        ),
    decreases q - p,
{
    if p < q {
        lemma_count(creates, p, q - 1, desc);
        assert(creates.take(q).drop_last() =~= creates.take(q - 1));
        assert(creates.take(q).last() == creates[q - 1]);
    }
}

proof fn lemma_number(creates: Seq<Create>, p: int)
    requires
        0 <= p < creates.len(),
    ensures
        number_of(creates, p) < count_of(creates, creates[p].desc),
{
    lemma_count(creates, p, creates.len() as int, creates[p].desc);
    assert(creates.take(creates.len() as int) =~= creates);
}

proof fn lemma_creates_keep_numbers(graph: GraphView, creates: Seq<Create>)
    ensures
        graph.after_creates(creates).current_frame == graph.current_frame,
        graph.after_creates(creates).frame_in_flight == graph.frame_in_flight,
    decreases creates.len(),
{
    if creates.len() > 0 {
        lemma_creates_keep_numbers(graph, creates.drop_last());
    }
}

/// What handing out textures makes of the pool of one description, whose first
/// `used` textures are in use to begin with.
proof fn lemma_creates(graph: GraphView, creates: Seq<Create>, desc: TextureDesc, used: int)
    requires
        graph.gives_all(creates),
        first_in_use(graph.pool(desc), used),
    ensures
        ({
            let after = graph.after_creates(creates);
            let count = used + count_of(creates, desc);
            &&& after.next_slot() == graph.next_slot()
            &&& forall|at: (usize, TextureDesc)|
                at.0 != graph.next_slot() ==> #[trigger] after.pools[at] == graph.pools[at]
            &&& first_in_use(after.pool(desc), count)
            &&& after.pool(desc).len() == if graph.pool(desc).len() < count {
                count
            } else {
                graph.pool(desc).len() as int
            }
            &&& forall|i: int|
                0 <= i < graph.pool(desc).len() ==> (#[trigger] after.pool(desc)[i]).1
                    == graph.pool(desc)[i].1
            &&& forall|p: int|
                0 <= p < creates.len() && (#[trigger] creates[p]).desc == desc ==> after.pool(
                    desc,
                )[used + number_of(creates, p)].1 == creates[p].texture
        }),
    decreases creates.len(),
{
    if creates.len() > 0 {
        let earlier = creates.drop_last();
        let last = creates.last();
        let before = graph.after_creates(earlier);
        lemma_creates(graph, earlier, desc, used);
        assert(before.took(last).next_slot() == before.next_slot());
        if last.desc == desc {
            lemma_took(before, last, used + count_of(earlier, desc));
        }
        assert forall|p: int|
            0 <= p < creates.len() && (#[trigger] creates[p]).desc == desc implies before.took(
            last,
        ).pool(desc)[used + number_of(creates, p)].1 == creates[p].texture by {
            if p < earlier.len() {
                assert(earlier[p] == creates[p]);
                assert(earlier.take(p) =~= creates.take(p));
                lemma_number(earlier, p);
            } else {
                assert(creates.take(p) =~= earlier);
            }
        }
    }
}

proof fn lemma_creates_keep_graph(graph: GraphView, creates: Seq<Create>)
    requires
        graph.wf(),
        graph.gives_all(creates),
    ensures
        graph.after_creates(creates).wf(),
    decreases creates.len(),
{
    if creates.len() > 0 {
        lemma_creates_keep_graph(graph, creates.drop_last());
        law_create_keeps_graph(graph.after_creates(creates.drop_last()), creates.last());
    }
}

proof fn lemma_images(graph: GraphView, creates: Seq<Create>)
    requires
        graph.wf(),
        graph.images_differ(),
        graph.gives_all(creates),
        graph.has_new_images(creates),
    ensures
        graph.after_creates(creates).images_differ(),
    decreases creates.len(),
{
    if creates.len() > 0 {
        let before = graph.after_creates(creates.drop_last());
        let create = creates.last();
        lemma_images(graph, creates.drop_last());
        lemma_creates_keep_graph(graph, creates.drop_last());
        let after = before.took(create);
        let here = (before.next_slot(), create.desc);
        assert(used_come_first(before.pools[here]));
        let count = choose|count: int| first_in_use(before.pools[here], count);
        lemma_took(before, create, count);
        lemma_first_free(before.pools[here], count);
        assert(after.next_slot() == before.next_slot());
        assert forall|at: (usize, TextureDesc), i: int, other: (usize, TextureDesc), k: int|
            0 <= i < after.pools[at].len() && 0 <= k < after.pools[other].len() && (
            #[trigger] after.pools[at][i]).1.image == (
            #[trigger] after.pools[other][k]).1.image implies at == other && i == k by {
            if i < before.pools[at].len() {
                assert(before.pools[at][i].1 == after.pools[at][i].1);
            } else {
                assert(at == here && i == count);
            }
            if k < before.pools[other].len() {
                assert(before.pools[other][k].1 == after.pools[other][k].1);
            } else {
                assert(other == here && k == count);
            }
        }
    }
}

proof fn lemma_history(n: usize, frames: Seq<Seq<Create>>)
    requires
        n > 0,
        frames.len() < usize::MAX,
        GraphView::empty(n).runs(frames),
    ensures
        ({
            let graph = GraphView::empty(n).after_history(frames);
            &&& graph.wf()
            &&& graph.current_frame == frames.len()
            &&& graph.frame_in_flight == n
            &&& forall|at: (usize, TextureDesc)|
                first_in_use(#[trigger] graph.pools[at], 0) && graph.pools[at].len() == busiest(
                    frames,
                    n,
                    at,
                )
            &&& forall|f: int, p: int|
                0 <= f < frames.len() && 0 <= p < frames[f].len() ==> {
                    let create = #[trigger] frames[f][p];
                    let pool = graph.pools[(slot_of(f, n) as usize, create.desc)];
                    &&& number_of(frames[f], p) < pool.len()
                    &&& pool[number_of(frames[f], p) as int].1 == create.texture
                }
        }),
    decreases frames.len(),
{
    let start = GraphView::empty(n);
    let graph = start.after_history(frames);
    if frames.len() == 0 {
        assert forall|at: (usize, TextureDesc)|
            first_in_use(#[trigger] graph.pools[at], 0) && used_come_first(graph.pools[at]) by {
            assert(first_in_use(graph.pools[at], 0));
        }
    } else {
        let earlier = frames.drop_last();
        let last = frames.last();
        let f0 = frames.len() - 1;
        let before = start.after_history(earlier);
        let unfinished = before.after_creates(last);
        lemma_history(n, earlier);
        lemma_creates_keep_graph(before, last);
        law_end_of_frame_keeps_graph(unfinished);
        assert(before.next_slot() == slot_of(f0, n)) by {
            vstd::arithmetic::div_mod::lemma_mod_bound(f0 + 1, n as int);
        }
        assert forall|at: (usize, TextureDesc)|
            first_in_use(#[trigger] graph.pools[at], 0) && graph.pools[at].len() == busiest(
                frames,
                n,
                at,
            ) && (forall|i: int|
                0 <= i < before.pools[at].len() ==> (#[trigger] graph.pools[at][i]).1
                    == before.pools[at][i].1) && before.pools[at].len()
                <= graph.pools[at].len() by {
            let here = (before.next_slot(), at.1);
            assert(first_in_use(before.pools[here], 0));
            assert(before.pool(at.1) == before.pools[here]);
            lemma_creates(before, last, at.1, 0);
            assert(graph.pools[at] == released(unfinished.pools[at]));
            assert(unfinished.next_slot() == before.next_slot());
            assert(before.pools[at].len() == busiest(earlier, n, at));
        }
        lemma_creates_keep_numbers(before, last);
        assert forall|f: int, p: int| 0 <= f < frames.len() && 0 <= p < frames[f].len() implies {
            let create = #[trigger] frames[f][p];
            let pool = graph.pools[(slot_of(f, n) as usize, create.desc)];
            &&& number_of(frames[f], p) < pool.len()
            &&& pool[number_of(frames[f], p) as int].1 == create.texture
        } by {
            let create = frames[f][p];
            let at = (slot_of(f, n) as usize, create.desc);
            if f < f0 {
                assert(earlier[f][p] == create);
                assert(earlier[f] == frames[f]);
                assert(before.pools[at][number_of(frames[f], p) as int].1 == create.texture);
                assert(before.pools[at].len() <= graph.pools[at].len());
            } else {
                assert(first_in_use(before.pools[at], 0));
                lemma_creates(before, last, create.desc, 0);
                lemma_number(last, p);
                assert(unfinished.next_slot() == before.next_slot());
                assert(last[p].desc == create.desc);
                assert(graph.pools[at] == released(unfinished.pools[at]));
            }
        }
    }
}

proof fn lemma_history_images(n: usize, frames: Seq<Seq<Create>>)
    requires
        n > 0,
        frames.len() < usize::MAX,
        GraphView::empty(n).runs(frames),
        GraphView::empty(n).runs_with_new_images(frames),
    ensures
        GraphView::empty(n).after_history(frames).images_differ(),
    decreases frames.len(),
{
    if frames.len() > 0 {
        let graph = GraphView::empty(n).after_history(frames);
        let before = GraphView::empty(n).after_history(frames.drop_last());
        let unfinished = before.after_creates(frames.last());
        lemma_history_images(n, frames.drop_last());
        lemma_history(n, frames.drop_last());
        lemma_images(before, frames.last());
        assert forall|at: (usize, TextureDesc), i: int, other: (usize, TextureDesc), k: int|
            0 <= i < graph.pools[at].len() && 0 <= k < graph.pools[other].len() && (
            #[trigger] graph.pools[at][i]).1.image == (
            #[trigger] graph.pools[other][k]).1.image implies at == other && i == k by {
            assert(graph.pools[at][i].1 == unfinished.pools[at][i].1);
            assert(graph.pools[other][k].1 == unfinished.pools[other][k].1);
        }
    }
}

proof fn lemma_same_slot(f: int, g: int, n: usize)
    requires
        n > 0,
        0 <= f,
        0 <= g,
    ensures
        slot_of(f, n) == slot_of(g, n) <==> f % (n as int) == g % (n as int),
        slot_of(f, n) == slot_of(g, n) && -n < f - g < n ==> f == g,
{
    let d = n as int;
    vstd::arithmetic::div_mod::lemma_mod_equivalence(f + 1, g + 1, d);
    vstd::arithmetic::div_mod::lemma_mod_equivalence(f, g, d);
    if slot_of(f, n) == slot_of(g, n) && -n < f - g < n {
        if f >= g {
            vstd::arithmetic::div_mod::lemma_small_mod((f - g) as nat, n as nat);
        } else {
            vstd::arithmetic::div_mod::lemma_mod_equivalence(g, f, d);
            vstd::arithmetic::div_mod::lemma_small_mod((g - f) as nat, n as nat);
        }
    }
}

/// Two textures of a history are the same if they are of the same description,
/// their frames are a multiple of the frames in flight apart, and each frame had
/// created as many textures of that description before. Where new textures have
/// new images, they have the same image only then.
pub proof fn law_images_come_round(
    n: usize,
    frames: Seq<Seq<Create>>,
    f: int,
    p: int,
    g: int,
    q: int,
)
    requires
        n > 0,
        frames.len() < usize::MAX,
        GraphView::empty(n).runs(frames),
        0 <= f < frames.len(),
        0 <= p < frames[f].len(),
        0 <= g < frames.len(),
        0 <= q < frames[g].len(),
    ensures
        ({
            let same = {
                &&& frames[f][p].desc == frames[g][q].desc
                &&& f % (n as int) == g % (n as int)
                &&& number_of(frames[f], p) == number_of(frames[g], q)
            };
            &&& same ==> frames[f][p].texture == frames[g][q].texture
            &&& GraphView::empty(n).runs_with_new_images(frames) ==> (
            frames[f][p].texture.image == frames[g][q].texture.image <==> same)
        }),
{
    lemma_history(n, frames);
    if GraphView::empty(n).runs_with_new_images(frames) {
        lemma_history_images(n, frames);
    }
    lemma_same_slot(f, g, n);
    let graph = GraphView::empty(n).after_history(frames);
    vstd::arithmetic::div_mod::lemma_mod_bound(f + 1, n as int);
    vstd::arithmetic::div_mod::lemma_mod_bound(g + 1, n as int);
    let at = (slot_of(f, n) as usize, frames[f][p].desc);
    let other = (slot_of(g, n) as usize, frames[g][q].desc);
    assert(graph.pools[at][number_of(frames[f], p) as int].1 == frames[f][p].texture);
    assert(graph.pools[other][number_of(frames[g], q) as int].1 == frames[g][q].texture);
}

/// A texture that frames create once each comes back every `n` frames, where `n`
/// frames can be in flight, and not before: two frames that create one texture of
/// a description are given the same one if they are a multiple of `n` apart, and,
/// where new textures have new images, the same image only then.
pub proof fn law_image_is_used_again(
    n: usize,
    frames: Seq<Seq<Create>>,
    desc: TextureDesc,
    f: int,
    p: int,
    g: int,
    q: int,
)
    requires
        n > 0,
        frames.len() < usize::MAX,
        GraphView::empty(n).runs(frames),
        0 <= f < frames.len(),
        0 <= p < frames[f].len(),
        0 <= g < frames.len(),
        0 <= q < frames[g].len(),
        frames[f][p].desc == desc,
        frames[g][q].desc == desc,
        count_of(frames[f], desc) == 1,
        count_of(frames[g], desc) == 1,
    ensures
        f % (n as int) == g % (n as int) ==> frames[f][p].texture == frames[g][q].texture,
        GraphView::empty(n).runs_with_new_images(frames) ==> (frames[f][p].texture.image
            == frames[g][q].texture.image <==> f % (n as int) == g % (n as int)),
{
    law_images_come_round(n, frames, f, p, g, q);
    lemma_number(frames[f], p);
    lemma_number(frames[g], q);
}

/// Frames that are in flight at the same time share no image.
pub proof fn law_frames_in_flight_share_no_image(
    n: usize,
    frames: Seq<Seq<Create>>,
    f: int,
    p: int,
    g: int,
    q: int,
)
    requires
        n > 0,
        frames.len() < usize::MAX,
        GraphView::empty(n).runs(frames),
        GraphView::empty(n).runs_with_new_images(frames),
        0 <= f < g < frames.len(),
        g - f < n,
        0 <= p < frames[f].len(),
        0 <= q < frames[g].len(),
    ensures
        frames[f][p].texture.image != frames[g][q].texture.image,
{
    law_images_come_round(n, frames, f, p, g, q);
    lemma_same_slot(f, g, n);
}

/// Within a frame no image is handed out twice.
pub proof fn law_images_of_a_frame_differ(graph: GraphView, creates: Seq<Create>, p: int, q: int)
    requires
        graph.wf(),
        graph.images_differ(),
        graph.gives_all(creates),
        graph.has_new_images(creates),
        0 <= p < q < creates.len(),
    ensures
        creates[p].texture.image != creates[q].texture.image,
{
    let after = graph.after_creates(creates);
    let at = (graph.next_slot(), creates[p].desc);
    let other = (graph.next_slot(), creates[q].desc);
    assert(used_come_first(graph.pools[at]));
    assert(used_come_first(graph.pools[other]));
    let used = choose|count: int| first_in_use(graph.pools[at], count);
    let used_other = if at == other {
        used
    } else {
        choose|count: int| first_in_use(graph.pools[other], count)
    };
    lemma_creates(graph, creates, creates[p].desc, used);
    lemma_creates(graph, creates, creates[q].desc, used_other);
    lemma_images(graph, creates);
    lemma_number(creates, p);
    lemma_number(creates, q);
    if at == other {
        lemma_count(creates, p, q, creates[p].desc);
    }
    assert(after.pools[at][used + number_of(creates, p)].1 == creates[p].texture);
    assert(after.pools[other][used_other + number_of(creates, q)].1 == creates[q].texture);
}

proof fn lemma_one_after_the_other(graph: GraphView, first: Seq<Create>, second: Seq<Create>)
    requires
        graph.gives_all(first),
        graph.has_new_images(first),
        graph.after_creates(first).gives_all(second),
        graph.after_creates(first).has_new_images(second),
    ensures
        graph.gives_all(first + second),
        graph.has_new_images(first + second),
        graph.after_creates(first + second) == graph.after_creates(first).after_creates(second),
    decreases second.len(),
{
    if second.len() == 0 {
        assert(first + second =~= first);
    } else {
        lemma_one_after_the_other(graph, first, second.drop_last());
        assert((first + second).drop_last() =~= first + second.drop_last());
        assert((first + second).last() == second.last());
    }
}

/// A scope that is dropped before the end of its frame leaves its textures in
/// use: a scope after it, on the same graph, is handed other images.
pub proof fn law_dropped_scope_keeps_its_images(
    graph: GraphView,
    dropped: Seq<Create>,
    next: Seq<Create>,
    p: int,
    q: int,
)
    requires
        graph.wf(),
        graph.images_differ(),
        graph.gives_all(dropped),
        graph.has_new_images(dropped),
        graph.after_creates(dropped).gives_all(next),
        graph.after_creates(dropped).has_new_images(next),
        0 <= p < dropped.len(),
        0 <= q < next.len(),
    ensures
        dropped[p].texture.image != next[q].texture.image,
{
    let all = dropped + next;
    lemma_one_after_the_other(graph, dropped, next);
    law_images_of_a_frame_differ(graph, all, p, dropped.len() + q);
    assert(all[p] == dropped[p]);
    assert(all[dropped.len() + q] == next[q]);
}

/// At the end of a frame a graph has as many textures of a description, for each
/// frame in flight, as the busiest of its frames created; and no fewer and no
/// more before the end of the last frame.
pub proof fn law_pools_are_as_large_as_needed(
    n: usize,
    frames: Seq<Seq<Create>>,
    at: (usize, TextureDesc),
)
    requires
        n > 0,
        frames.len() < usize::MAX,
        GraphView::empty(n).runs(frames),
    ensures
        GraphView::empty(n).after_history(frames).pools[at].len() == busiest(frames, n, at),
        frames.len() > 0 ==> GraphView::empty(n).during(frames).pools[at].len() == busiest(
            frames,
            n,
            at,
        ),
{
    lemma_history(n, frames);
    let graph = GraphView::empty(n).after_history(frames);
    assert(first_in_use(graph.pools[at], 0));
    if frames.len() > 0 {
        assert(graph.pools[at] == released(GraphView::empty(n).during(frames).pools[at]));
    }
}

/// Where new textures have new images, no two textures of a graph ever have the
/// same one.
pub proof fn law_images_stay_apart(n: usize, frames: Seq<Seq<Create>>)
    requires
        n > 0,
        0 < frames.len() < usize::MAX,
        GraphView::empty(n).runs(frames),
        GraphView::empty(n).runs_with_new_images(frames),
    ensures
        GraphView::empty(n).during(frames).images_differ(),
        GraphView::empty(n).after_history(frames).images_differ(),
{
    lemma_history(n, frames.drop_last());
    lemma_history_images(n, frames.drop_last());
    lemma_images(GraphView::empty(n).after_history(frames.drop_last()), frames.last());
    lemma_history_images(n, frames);
}

/// In every state that a graph comes to, the textures in use are the first ones of
/// the pools of the current frame: of each description as many as the frame has
/// created. All textures have memory and are as they were created.
pub proof fn law_textures_in_use_come_first(
    n: usize,
    frames: Seq<Seq<Create>>,
    at: (usize, TextureDesc),
)
    requires
        n > 0,
        0 < frames.len() < usize::MAX,
        GraphView::empty(n).runs(frames),
    ensures
        ({
            let graph = GraphView::empty(n).during(frames);
            &&& first_in_use(
                graph.pools[at],
                if at.0 == graph.next_slot() {
                    count_of(frames.last(), at.1) as int
                } else {
                    0
                },
            )
            &&& forall|i: int|
                0 <= i < graph.pools[at].len() ==> is_unused((#[trigger] graph.pools[at][i]).1)
        }),
{
    let before = GraphView::empty(n).after_history(frames.drop_last());
    lemma_history(n, frames.drop_last());
    lemma_creates_keep_graph(before, frames.last());
    assert(first_in_use(before.pools[at], 0));
    assert(first_in_use(before.pools[(before.next_slot(), at.1)], 0));
    lemma_creates(before, frames.last(), at.1, 0);
}

} // verus!
