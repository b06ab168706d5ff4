//! The playback actor's command protocol and state machine.
//!
//! External request handlers submit `PlaybackCommand` values into an ordered
//! queue; a single dedicated worker drains that queue and applies the commands
//! one at a time to the one mutable playback state, so engine state is only
//! ever touched from one execution context. The queue, the worker thread and
//! the audio engine live outside this crate; the engine reports each outcome
//! back as a plain `bool`, and the state transition for every outcome is
//! pinned down here by `step_spec`.

use crate::bytestr::clone_bytes;
use vstd::prelude::*;

verus! {

/// The raw bit pattern of the engine's default (full) single-precision volume
/// level. Volume levels travel through this crate as opaque 32-bit payloads;
/// the engine alone interprets them.
pub const DEFAULT_VOLUME_BITS: u32 = 0x3F80_0000;

/// One remote control request. The closed set of variants is matched
/// exhaustively by the actor; adding a command is a source-level change.
///
/// `Play` carries the path of the file to load, as a byte string. `SetVolume`
/// carries the engine's level as a raw bit pattern (see
/// [`DEFAULT_VOLUME_BITS`]); no range is enforced here, the engine decides.
#[derive(Debug)]
pub enum PlaybackCommand {
    Play { file: Vec<u8> },
    Stop,
    SetVolume { level: u32 },
}

/// Mathematical image of a command.
pub enum CommandView {
    Play(Seq<u8>),
    Stop,
    SetVolume(u32),
}

impl View for PlaybackCommand {
    type V = CommandView;

    open spec fn view(&self) -> CommandView {
        match self {
            PlaybackCommand::Play { file } => CommandView::Play(file@),
            PlaybackCommand::Stop => CommandView::Stop,
            PlaybackCommand::SetVolume { level } => CommandView::SetVolume(*level),
        }
    }
}

impl DeepView for PlaybackCommand {
    type V = CommandView;

    open spec fn deep_view(&self) -> CommandView {
        self.view()
    }
}

/// What the actor currently observes of the engine: stopped, or playing a
/// given file.
#[derive(Debug)]
pub enum PlayerMode {
    Stopped,
    Playing { file: Vec<u8> },
}

/// Mathematical image of a mode.
pub enum ModeView {
    Stopped,
    Playing(Seq<u8>),
}

impl View for PlayerMode {
    type V = ModeView;

    open spec fn view(&self) -> ModeView {
        match self {
            PlayerMode::Stopped => ModeView::Stopped,
            PlayerMode::Playing { file } => ModeView::Playing(file@),
        }
    }
}

impl PlayerMode {
    /// True exactly when no file is loaded.
    pub fn is_stopped(&self) -> (r: bool)
        ensures
            r == (self@ is Stopped),
    {
        match self {
            PlayerMode::Stopped => true,
            PlayerMode::Playing { .. } => false,
        }
    }
}

/// The state owned by the playback actor: the current mode and the standing
/// volume setting (a standing setting, not tied to one track).
#[derive(Debug)]
pub struct PlaybackState {
    pub mode: PlayerMode,
    pub volume: u32,
}

/// Mathematical image of the actor state.
pub struct StateView {
    pub mode: ModeView,
    pub volume: u32,
}

impl View for PlaybackState {
    type V = StateView;

    open spec fn view(&self) -> StateView {
        StateView { mode: self.mode@, volume: self.volume }
    }
}

/// The state an actor starts in: stopped, default volume.
pub open spec fn initial_state() -> StateView {
    StateView { mode: ModeView::Stopped, volume: DEFAULT_VOLUME_BITS }
}

/// The complete transition function of the actor, for every command and every
/// engine outcome.
///
/// - `Play(f)` with the engine accepting moves to `Playing(f)` from any mode;
///   a rejected `Play` leaves the state exactly as it was.
/// - `Stop` always ends in `Stopped`; stopping while stopped changes nothing.
/// - `SetVolume(v)` applied by the engine keeps the mode and records `v`;
///   a rejected `SetVolume` leaves the state exactly as it was.
///
/// A failure never terminates the actor: the function is total, so the next
/// command is always processed from a well-defined state.
pub open spec fn step_spec(s: StateView, cmd: CommandView, engine_ok: bool) -> StateView {
    match cmd {
        CommandView::Play(file) => if engine_ok {
            StateView { mode: ModeView::Playing(file), volume: s.volume }
        } else {
            s
        },
        CommandView::Stop => StateView { mode: ModeView::Stopped, volume: s.volume },
        CommandView::SetVolume(level) => if engine_ok {
            StateView { mode: s.mode, volume: level }
        } else {
            s
        },
    }
}

/// Apply one drained command to the actor state. `engine_ok` reports whether
/// the engine accepted the corresponding call; the caller performs the engine
/// call itself and hands the outcome in.
pub fn step(state: &mut PlaybackState, cmd: &PlaybackCommand, engine_ok: bool)
    ensures
        final(state)@ == step_spec(old(state)@, cmd@, engine_ok),
{
    match cmd {
        PlaybackCommand::Play { file } => {
            if engine_ok {
                state.mode = PlayerMode::Playing { file: clone_bytes(file) };
            }
        },
        PlaybackCommand::Stop => {
            state.mode = PlayerMode::Stopped;
        },
        PlaybackCommand::SetVolume { level } => {
            if engine_ok {
                state.volume = *level;
            }
        },
    }
}

/// The playback actor: the single logical owner of the playback state for the
/// lifetime of the process. Exactly one of these lives on the dedicated
/// worker; all mutation goes through [`Player::command`].
#[derive(Debug)]
pub struct Player {
    pub state: PlaybackState,
}

impl View for Player {
    type V = StateView;

    open spec fn view(&self) -> StateView {
        self.state@
    }
}

impl Player {
    /// A fresh actor: stopped, default volume.
    pub fn new() -> (p: Player)
        ensures
            p@ == initial_state(),
    {
        Player { state: PlaybackState { mode: PlayerMode::Stopped, volume: DEFAULT_VOLUME_BITS } }
    }

    /// Apply one command with the engine outcome the caller observed.
    pub fn command(&mut self, cmd: &PlaybackCommand, engine_ok: bool)
        ensures
            final(self)@ == step_spec(old(self)@, cmd@, engine_ok),
    {
        step(&mut self.state, cmd, engine_ok);
    }
}

/// The state after draining a whole batch of commands in order, each paired
/// with the engine outcome it met.
pub open spec fn run_spec(s: StateView, cmds: Seq<(CommandView, bool)>) -> StateView
    decreases cmds.len(),
{
    if cmds.len() == 0 {
        s
    } else {
        step_spec(run_spec(s, cmds.drop_last()), cmds.last().0, cmds.last().1)
    }
}

/// Drain a batch of commands in submission order: the actor's loop, with the
/// engine outcomes already recorded beside each command.
pub fn apply_all(state: &mut PlaybackState, cmds: &Vec<(PlaybackCommand, bool)>)
    ensures
        final(state)@ == run_spec(old(state)@, cmds.deep_view()),
{
    let ghost s0: StateView = state@;
    let mut i: usize = 0;
    while i < cmds.len()
        invariant
            i <= cmds@.len(),
            cmds.deep_view().len() == cmds@.len(),
            state@ == run_spec(s0, cmds.deep_view().take(i as int)),
        decreases cmds@.len() - i,
    {
        let (cmd, engine_ok) = &cmds[i];
        step(state, cmd, *engine_ok);
        proof {
            let dv = cmds.deep_view();
            assert(dv.take(i as int + 1).drop_last() =~= dv.take(i as int));
            assert(dv.take(i as int + 1).last() == dv[i as int]);
        }
        i = i + 1;
    }
    proof {
        assert(cmds.deep_view().take(cmds.deep_view().len() as int) =~= cmds.deep_view());
    }
}

/// Law: commands are applied strictly in order with no reordering or
/// coalescing; draining one batch and then another leaves the same state as
/// draining their concatenation. Together with the FIFO queue this is what
/// makes the global application order respect each producer's own order.
pub proof fn lemma_run_spec_append(
    s: StateView,
    a: Seq<(CommandView, bool)>,
    b: Seq<(CommandView, bool)>,
)
    ensures
        run_spec(s, a + b) == run_spec(run_spec(s, a), b),
    decreases b.len(),
{
    if b.len() == 0 {
        assert(a + b =~= a);
    } else {
        lemma_run_spec_append(s, a, b.drop_last());
        assert((a + b).drop_last() =~= a + b.drop_last());
    }
}

/// Law: `Stop` while already `Stopped` is a no-op, not an error: the state is
/// unchanged whatever the engine reported.
pub proof fn lemma_stop_idempotent(s: StateView, engine_ok: bool)
    requires
        s.mode is Stopped,
    ensures
        step_spec(s, CommandView::Stop, engine_ok) == s,
{
}

/// Law: a failed `Play` does not corrupt or stall the actor: after
/// `Play(bad)` rejected by the engine, a following accepted `Play(good)`
/// leaves the actor playing `good`, with the volume untouched.
pub proof fn lemma_play_failure_isolated(s: StateView, bad: Seq<u8>, good: Seq<u8>)
    ensures
        step_spec(step_spec(s, CommandView::Play(bad), false), CommandView::Play(good), true) == (
        StateView { mode: ModeView::Playing(good), volume: s.volume }),
{
}

} // verus!
