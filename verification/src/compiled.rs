//! Passes with the barriers around them, and the commands that they become.

use vstd::prelude::*;
use crate::barrier::{after_uses, uses_barriers, ImageBarrier};
use crate::pass::{PassView, TextureUse};
use crate::types::FrameGraphTexture;

verus! {

/// A pass that is ready to run: the barriers before it, the callback that
/// records it, and the barriers after it.
pub struct CompiledPass<C> {
    pub before_execute: Option<Vec<ImageBarrier>>,
    pub execute: Option<C>,
    pub after_execute: Option<Vec<ImageBarrier>>,
}

/// What a compiled pass holds.
#[verifier::ext_equal]
pub struct CompiledPassView<C> {
    pub before_execute: Option<Seq<ImageBarrier>>,
    pub execute: Option<C>,
    pub after_execute: Option<Seq<ImageBarrier>>,
}

/// Barriers as a sequence, if there are any to record.
pub open spec fn barriers_view(barriers: Option<Vec<ImageBarrier>>) -> Option<Seq<ImageBarrier>> {
    match barriers {
        Some(list) => Some(list@),
        None => None,
    }
}

impl<C> View for CompiledPass<C> {
    type V = CompiledPassView<C>;

    open spec fn view(&self) -> CompiledPassView<C> {
        CompiledPassView {
            before_execute: barriers_view(self.before_execute),
            execute: self.execute,
            after_execute: barriers_view(self.after_execute),
        }
    }
}

/// Something to be recorded into a command buffer.
pub enum Command<C> {
    /// One pipeline barrier with these image barriers.
    PipelineBarrier(Vec<ImageBarrier>),
    /// What the callback records.
    Callback(C),
}

/// What a command holds.
pub enum CommandView<C> {
    PipelineBarrier(Seq<ImageBarrier>),
    Callback(C),
}

impl<C> View for Command<C> {
    type V = CommandView<C>;

    open spec fn view(&self) -> CommandView<C> {
        match *self {
            Command::PipelineBarrier(list) => CommandView::PipelineBarrier(list@),
            Command::Callback(callback) => CommandView::Callback(callback),
        }
    }
}

/// The views of compiled passes.
pub open spec fn pass_views<C>(passes: Seq<CompiledPass<C>>) -> Seq<CompiledPassView<C>> {
    Seq::new(passes.len(), |i: int| passes[i]@)
}

/// The views of commands.
pub open spec fn command_views<C>(commands: Seq<Command<C>>) -> Seq<CommandView<C>> {
    Seq::new(commands.len(), |i: int| commands[i]@)
}

/// What compiling some passes has led to: the textures as those passes leave
/// them, the barriers before each pass, and the barriers for exported textures.
#[verifier::ext_equal]
pub struct Progress {
    pub textures: Map<u64, FrameGraphTexture>,
    pub before: Seq<Seq<ImageBarrier>>,
    pub exports: Seq<ImageBarrier>,
}

impl Progress {
    /// One more pass: first its reads, then its writes call for barriers
    /// before it; then all exported textures are brought to the access that
    /// they are exported with.
    pub open spec fn compile_pass<C>(
        self,
        pass: PassView<C>,
        exported: Seq<TextureUse>,
    ) -> Progress {
        let read = after_uses(self.textures, pass.reads);
        let written = after_uses(read, pass.writes);
        Progress {
            textures: after_uses(written, exported),
            before: self.before.push(
                uses_barriers(self.textures, pass.reads) + uses_barriers(read, pass.writes),
            ),
            exports: self.exports + uses_barriers(written, exported),
        }
    }
}

/// Compiles the passes that `order` names, one after the other.
pub open spec fn compile_passes<C>(
    textures: Map<u64, FrameGraphTexture>,
    passes: Seq<PassView<C>>,
    exported: Seq<TextureUse>,
    order: Seq<usize>,
) -> Progress
    decreases order.len(),
{
    if order.len() == 0 {
        Progress { textures, before: Seq::empty(), exports: Seq::empty() }
    } else {
        compile_passes(textures, passes, exported, order.drop_last()).compile_pass(
            passes[order.last() as int],
            exported,
        )
    }
}

/// The compiled passes in the order in which they were compiled: each has its
/// barriers before it and its callback. If exported textures need barriers, a
/// last pass without a callback has them.
pub open spec fn compiled_passes<C>(
    passes: Seq<PassView<C>>,
    order: Seq<usize>,
    progress: Progress,
) -> Seq<CompiledPassView<C>> {
    let ordinary = Seq::new(
        order.len(),
        |k: int|
            CompiledPassView {
                before_execute: Some(progress.before[k]),
                execute: passes[order[k] as int].callback,
                after_execute: None,
            },
    );
    if progress.exports.len() == 0 {
        ordinary
    } else {
        ordinary.push(
            CompiledPassView {
                before_execute: None,
                execute: None,
                after_execute: Some(progress.exports),
            },
        )
    }
}

/// A compiled pass of which everything has been taken.
pub open spec fn spent<C>() -> CompiledPassView<C> {
    CompiledPassView { before_execute: None, execute: None, after_execute: None }
}

/// The barriers to record, if any, as a command.
pub open spec fn barrier_command<C>(barriers: Option<Seq<ImageBarrier>>) -> Seq<CommandView<C>> {
    match barriers {
        Some(list) => seq![CommandView::PipelineBarrier(list)],
        None => Seq::empty(),
    }
}

/// The commands of a compiled pass: its barriers before, its callback, its
/// barriers after, as far as it has them.
pub open spec fn pass_commands<C>(pass: CompiledPassView<C>) -> Seq<CommandView<C>> {
    barrier_command(pass.before_execute) + (match pass.execute {
        Some(callback) => seq![CommandView::Callback(callback)],
        None => Seq::empty(),
    }) + barrier_command(pass.after_execute)
}

/// What is left of compiled passes once those that `order` names were taken.
pub open spec fn passes_left<C>(
    passes: Seq<CompiledPassView<C>>,
    order: Seq<usize>,
) -> Seq<CompiledPassView<C>>
    decreases order.len(),
{
    if order.len() == 0 {
        passes
    } else {
        passes_left(passes, order.drop_last()).update(order.last() as int, spent())
    }
}

/// The commands of the compiled passes that `order` names, one pass after the
/// other; a pass that is named again has no commands left.
pub open spec fn commands_of<C>(
    passes: Seq<CompiledPassView<C>>,
    order: Seq<usize>,
) -> Seq<CommandView<C>>
    decreases order.len(),
{
    if order.len() == 0 {
        Seq::empty()
    } else {
        commands_of(passes, order.drop_last()) + pass_commands(
            passes_left(passes, order.drop_last())[order.last() as int],
        )
    }
}

impl<C> CompiledPass<C> {
    /// Takes everything out of the pass, as commands that are added to
    /// `commands`.
    pub(crate) fn take_commands(&mut self, commands: &mut Vec<Command<C>>)
        ensures
            final(self)@ == spent::<C>(),
            command_views(final(commands)@) == command_views(old(commands)@) + pass_commands(
                old(self)@,
            ),
            old(self).before_execute is None && old(self).execute is None && old(
                self,
            ).after_execute is None ==> final(commands)@ == old(commands)@,
            ({
                let start = old(commands)@.len() as int;
                let next = if old(self).before_execute is Some {
                    start + 1
                } else {
                    start
                };
                &&& old(self).before_execute matches Some(list) ==> final(commands)@.len() > start
                    && final(commands)@[start] == Command::<C>::PipelineBarrier(list)
                &&& old(self).execute matches Some(callback) ==> final(commands)@.len() > next
                    && final(commands)@[next] == Command::Callback(callback)
                &&& old(self).after_execute matches Some(list) ==> final(commands)@.len() > start
                    && final(commands)@.last() == Command::<C>::PipelineBarrier(list)
            }),
    {
        let ghost begun = command_views(commands@);
        if let Some(barriers) = self.before_execute.take() {
            commands.push(Command::PipelineBarrier(barriers));
        }
        assert(command_views(commands@) =~= begun + barrier_command(
            old(self)@.before_execute,
        ));
        let ghost before = command_views(commands@);
        if let Some(callback) = self.execute.take() {
            commands.push(Command::Callback(callback));
        }
        assert(command_views(commands@) =~= before + (match old(self)@.execute {
            Some(callback) => seq![CommandView::Callback(callback)],
            None => Seq::empty(),
        }));
        let ghost during = command_views(commands@);
        if let Some(barriers) = self.after_execute.take() {
            commands.push(Command::PipelineBarrier(barriers));
        }
        assert(command_views(commands@) =~= during + barrier_command(
            old(self)@.after_execute,
        ));
        assert(command_views(commands@) =~= begun + pass_commands(old(self)@));
    }
}

/// The commands of the compiled passes that `order` names, each pass as it was
/// compiled.
pub open spec fn full_commands<C>(
    passes: Seq<CompiledPassView<C>>,
    order: Seq<usize>,
) -> Seq<CommandView<C>>
    decreases order.len(),
{
    if order.len() == 0 {
        Seq::empty()
    } else {
        full_commands(passes, order.drop_last()) + pass_commands(passes[order.last() as int])
    }
}

/// What is taken is taken once: the passes that `order` names are spent
/// afterwards, and the others are as they were.
pub proof fn law_passes_are_spent<C>(
    passes: Seq<CompiledPassView<C>>,
    order: Seq<usize>,
    i: usize,
)
    requires
        forall|k: int| 0 <= k < order.len() ==> (#[trigger] order[k]) < passes.len(),
        i < passes.len(),
    ensures
        passes_left(passes, order).len() == passes.len(),
        passes_left(passes, order)[i as int] == (if order.contains(i) {
            spent()
        } else {
            passes[i as int]
        }),
    decreases order.len(),
{
    if order.len() > 0 {
        let rest = order.drop_last();
        assert forall|k: int| 0 <= k < rest.len() implies (#[trigger] rest[k]) < passes.len() by {
            assert(rest[k] == order[k]);
        }
        law_passes_are_spent(passes, rest, i);
        assert(order[order.len() - 1] < passes.len());
        if rest.contains(i) {
            assert(order[rest.index_of(i)] == i);
        }
        if order.contains(i) && i != order.last() {
            assert(rest[order.index_of(i)] == i);
        }
    }
}

/// Where no pass is named twice, the commands of each are handed over in full.
pub proof fn law_commands_are_complete<C>(passes: Seq<CompiledPassView<C>>, order: Seq<usize>)
    requires
        forall|k: int| 0 <= k < order.len() ==> (#[trigger] order[k]) < passes.len(),
        order.no_duplicates(),
    ensures
        commands_of(passes, order) == full_commands(passes, order),
    decreases order.len(),
{
    if order.len() > 0 {
        let rest = order.drop_last();
        assert forall|k: int| 0 <= k < rest.len() implies (#[trigger] rest[k]) < passes.len() by {
            assert(rest[k] == order[k]);
        }
        law_commands_are_complete(passes, rest);
        assert(order[order.len() - 1] < passes.len());
        law_passes_are_spent(passes, rest, order.last());
        if rest.contains(order.last()) {
            assert(order[rest.index_of(order.last())] == order[order.len() - 1]);
        }
    }
}

/// Running spent passes again records nothing.
pub proof fn law_running_again_records_nothing<C>(
    passes: Seq<CompiledPassView<C>>,
    order: Seq<usize>,
)
    requires
        forall|k: int| 0 <= k < order.len() ==> (#[trigger] order[k]) < passes.len(),
    ensures
        commands_of(passes_left(passes, order), order) == Seq::<CommandView<C>>::empty(),
        passes_left(passes_left(passes, order), order) == passes_left(passes, order),
{
    let left = passes_left(passes, order);
    assert forall|k: int| 0 <= k < order.len() implies left.len() == passes.len() && left[
        #[trigger] order[k] as int] == spent::<C>() by {
        law_passes_are_spent(passes, order, order[k]);
        assert(order.contains(order[k]));
    }
    lemma_spent_passes_have_no_commands(left, order);
}

proof fn lemma_spent_passes_have_no_commands<C>(
    passes: Seq<CompiledPassView<C>>,
    order: Seq<usize>,
)
    requires
        forall|k: int|
            0 <= k < order.len() ==> order[k] < passes.len() && passes[#[trigger] order[k] as int]
                == spent::<C>(),
    ensures
        commands_of(passes, order) == Seq::<CommandView<C>>::empty(),
        passes_left(passes, order) == passes,
    decreases order.len(),
{
    if order.len() > 0 {
        let rest = order.drop_last();
        assert forall|k: int| 0 <= k < rest.len() implies rest[k] < passes.len() && passes[
            #[trigger] rest[k] as int] == spent::<C>() by {
            assert(rest[k] == order[k]);
        }
        lemma_spent_passes_have_no_commands(passes, rest);
        assert(passes[order[order.len() - 1] as int] == spent::<C>());
        assert(passes.update(order.last() as int, spent()) =~= passes);
        assert(pass_commands(spent::<C>()) =~= Seq::empty());
    }
}


/// The views of commands and passes are those of each, in order; that of a barrier
/// command has all its barriers.
pub proof fn law_views_keep_everything<C>(
    commands: Seq<Command<C>>,
    passes: Seq<CompiledPass<C>>,
    i: int,
)
    ensures
        command_views(commands).len() == commands.len(),
        0 <= i < commands.len() ==> match commands[i] {
            Command::PipelineBarrier(list) => command_views(
                commands,
            )[i] == CommandView::<C>::PipelineBarrier(list@),
            Command::Callback(callback) => command_views(commands)[i] == CommandView::Callback(
                callback,
            ),
        },
        pass_views(passes).len() == passes.len(),
        0 <= i < passes.len() ==> {
            let pass = passes[i];
            let view = pass_views(passes)[i];
            &&& view.execute == pass.execute
            &&& view.before_execute is Some <==> pass.before_execute is Some
            &&& pass.before_execute matches Some(list) ==> view.before_execute == Some(list@)
            &&& view.after_execute is Some <==> pass.after_execute is Some
            &&& pass.after_execute matches Some(list) ==> view.after_execute == Some(list@)
        },
{
}

/// What a compiled pass hands over: its barriers before it, all of them in one
/// command; right after that its callback; right after that its barriers after it;
/// and nothing for what it does not have.
pub proof fn law_commands_of_a_pass<C>(pass: CompiledPassView<C>)
    ensures
        ({
            let commands = pass_commands(pass);
            let before = if pass.before_execute is Some {
                1int
            } else {
                0
            };
            let callback = if pass.execute is Some {
                1int
            } else {
                0
            };
            let after = if pass.after_execute is Some {
                1int
            } else {
                0
            };
            &&& commands.len() == before + callback + after
            &&& pass.before_execute matches Some(list) ==> commands[0]
                == CommandView::<C>::PipelineBarrier(list)
            &&& pass.execute matches Some(c) ==> commands[before] == CommandView::Callback(c)
            &&& pass.after_execute matches Some(list) ==> commands[before + callback]
                == CommandView::<C>::PipelineBarrier(list)
        }),
{
}

/// Where the commands of the pass that is named at `k` stand among all: after those
/// of the passes named before it, and only where the pass is named for the first
/// time.
pub proof fn law_commands_stand_in_order<C>(
    passes: Seq<CompiledPassView<C>>,
    order: Seq<usize>,
    k: int,
)
    requires
        forall|i: int| 0 <= i < order.len() ==> (#[trigger] order[i]) < passes.len(),
        0 <= k < order.len(),
    ensures
        ({
            let earlier = commands_of(passes, order.take(k));
            let now = commands_of(passes, order.take(k + 1));
            let all = commands_of(passes, order);
            let pass = passes[order[k] as int];
            let before = if pass.before_execute is Some {
                1int
            } else {
                0
            };
            let callback = if pass.execute is Some {
                1int
            } else {
                0
            };
            let after = if pass.after_execute is Some {
                1int
            } else {
                0
            };
            let start = earlier.len() as int;
            &&& earlier.len() <= now.len() <= all.len()
            &&& all.take(start) == earlier
            &&& order.take(k).contains(order[k]) ==> now.len() == start
            &&& !order.take(k).contains(order[k]) ==> {
                &&& now.len() == start + before + callback + after
                &&& pass.before_execute matches Some(list) ==> all[start]
                    == CommandView::<C>::PipelineBarrier(list)
                &&& pass.execute matches Some(c) ==> all[start + before] == CommandView::Callback(
                    c,
                )
                &&& pass.after_execute matches Some(list) ==> all[start + before + callback]
                    == CommandView::<C>::PipelineBarrier(list)
            }
        }),
{
    let past = order.take(k);
    let next = order.take(k + 1);
    assert(next.drop_last() =~= past);
    assert(next.last() == order[k]);
    assert forall|i: int| 0 <= i < past.len() implies (#[trigger] past[i]) < passes.len() by {
        assert(past[i] == order[i]);
    }
    assert(order[k] < passes.len());
    law_passes_are_spent(passes, past, order[k]);
    law_commands_of_a_pass(passes[order[k] as int]);
    law_commands_of_a_pass(spent::<C>());
    lemma_commands_begin(passes, order, k);
    lemma_commands_begin(passes, order, k + 1);
    let now = commands_of(passes, next);
    let all = commands_of(passes, order);
    assert(all.take(now.len() as int) == now);
    assert forall|i: int| 0 <= i < now.len() implies #[trigger] all[i] == now[i] by {
        assert(all.take(now.len() as int)[i] == now[i]);
    }
}

proof fn lemma_commands_begin<C>(passes: Seq<CompiledPassView<C>>, order: Seq<usize>, k: int)
    requires
        0 <= k <= order.len(),
    ensures
        commands_of(passes, order.take(k)).len() <= commands_of(passes, order).len(),
        commands_of(passes, order).take(commands_of(passes, order.take(k)).len() as int)
            == commands_of(passes, order.take(k)),
    decreases order.len(),
{
    if k == order.len() {
        assert(order.take(k) =~= order);
        assert(commands_of(passes, order).take(commands_of(passes, order).len() as int)
            =~= commands_of(passes, order));
    } else {
        let rest = order.drop_last();
        lemma_commands_begin(passes, rest, k);
        assert(rest.take(k) =~= order.take(k));
        let n = commands_of(passes, order.take(k)).len() as int;
        assert(commands_of(passes, order).take(n) =~= commands_of(passes, rest).take(n));
    }
}

/// All image barriers in commands, in the order of the commands.
pub open spec fn recorded_barriers<C>(commands: Seq<CommandView<C>>) -> Seq<ImageBarrier>
    decreases commands.len(),
{
    if commands.len() == 0 {
        Seq::empty()
    } else {
        recorded_barriers(commands.drop_last()) + (match commands.last() {
            CommandView::PipelineBarrier(list) => list,
            CommandView::Callback(_) => Seq::empty(),
        })
    }
}

/// All callbacks in commands, in the order of the commands.
pub open spec fn recorded_callbacks<C>(commands: Seq<CommandView<C>>) -> Seq<C>
    decreases commands.len(),
{
    if commands.len() == 0 {
        Seq::empty()
    } else {
        recorded_callbacks(commands.drop_last()) + (match commands.last() {
            CommandView::PipelineBarrier(_) => Seq::empty(),
            CommandView::Callback(callback) => seq![callback],
        })
    }
}

pub(crate) proof fn lemma_recorded<C>(first: Seq<CommandView<C>>, second: Seq<CommandView<C>>)
    ensures
        recorded_barriers(first + second) == recorded_barriers(first) + recorded_barriers(second),
        recorded_callbacks(first + second) == recorded_callbacks(first) + recorded_callbacks(
            second,
        ),
    decreases second.len(),
{
    let both = first + second;
    if second.len() == 0 {
        assert(both =~= first);
        assert(recorded_barriers(both) =~= recorded_barriers(first) + recorded_barriers(second));
        assert(recorded_callbacks(both) =~= recorded_callbacks(first) + recorded_callbacks(second));
    } else {
        lemma_recorded(first, second.drop_last());
        assert(both.drop_last() =~= first + second.drop_last());
        assert(both.last() == second.last());
        assert(recorded_barriers(both) =~= recorded_barriers(first) + recorded_barriers(second));
        assert(recorded_callbacks(both) =~= recorded_callbacks(first) + recorded_callbacks(second));
    }
}

/// The barriers that a compiled pass has: those before it, then those after it.
pub open spec fn own_barriers<C>(pass: CompiledPassView<C>) -> Seq<ImageBarrier> {
    let before = match pass.before_execute {
        Some(list) => list,
        None => Seq::empty(),
    };
    let after = match pass.after_execute {
        Some(list) => list,
        None => Seq::empty(),
    };
    before + after
}

/// The barriers and callbacks in the commands of a compiled pass are its own.
pub proof fn law_pass_records_its_own<C>(pass: CompiledPassView<C>)
    ensures
        recorded_barriers(pass_commands(pass)) == own_barriers(pass),
        recorded_callbacks(pass_commands(pass)) == (match pass.execute {
            Some(callback) => seq![callback],
            None => Seq::empty(),
        }),
{
    let before = barrier_command::<C>(pass.before_execute);
    let during = match pass.execute {
        Some(callback) => seq![CommandView::Callback(callback)],
        None => Seq::empty(),
    };
    let after = barrier_command::<C>(pass.after_execute);
    lemma_recorded(before + during, after);
    lemma_recorded(before, during);
    reveal_with_fuel(recorded_barriers, 2);
    reveal_with_fuel(recorded_callbacks, 2);
    assert(before.len() > 0 ==> before.drop_last() =~= Seq::empty());
    assert(during.len() > 0 ==> during.drop_last() =~= Seq::empty());
    assert(after.len() > 0 ==> after.drop_last() =~= Seq::empty());
    assert(recorded_barriers(pass_commands(pass)) =~= own_barriers(pass));
}

} // verus!
