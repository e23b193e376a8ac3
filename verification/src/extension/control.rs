//! The control channel of an extension.

use vstd::prelude::*;

use crate::config::extension::ConfigValue;

verus! {

/// A control message for an extension. Times are nanoseconds of one monotonic clock.
#[derive(Debug)]
pub enum ExtensionControlMsg {
    Config { config: ConfigValue },
    Shutdown { deadline: u64, reason: String },
    CollectTelemetry,
}

/// Why nothing was received.
#[derive(Debug, Clone, Copy, PartialEq, Eq, Structural)]
pub enum RecvError {
    Closed,
    Empty,
}

/// What the receiver of control messages has to do next.
#[derive(Debug)]
pub enum RecvAction {
    /// Hand that on to the extension.
    Return(Result<ExtensionControlMsg, RecvError>),
    /// Wait until that time, then report that it has come.
    SleepUntil(u64),
    /// Wait for a message.
    Receive,
}

/// A channel for receiving control messages for extensions.
///
/// A shutdown with a future deadline is held back until the deadline. No further messages are
/// delivered in the meantime, and none after the shutdown.
#[derive(Debug)]
pub struct ControlChannel {
    open: bool,
    pending_shutdown: Option<(u64, String)>,
}

/// A control channel as mathematics: whether it takes messages at all, and the shutdown that
/// it holds back.
pub struct ChannelView {
    pub open: bool,
    pub pending: Option<(u64, String)>,
}

impl View for ControlChannel {
    type V = ChannelView;

    closed spec fn view(&self) -> ChannelView {
        ChannelView { open: self.open, pending: self.pending_shutdown }
    }
}

impl ChannelView {
    /// No shutdown is held back by a channel that is closed.
    pub open spec fn wf(self) -> bool {
        !self.open ==> self.pending is None
    }

    /// The channel after it has delivered a shutdown.
    pub open spec fn closed() -> ChannelView {
        ChannelView { open: false, pending: None }
    }

    /// The channel, and what to do, when the next message is asked for at that time.
    pub open spec fn asked(self, now: u64) -> (ChannelView, RecvAction) {
        match self.pending {
            None => (
                self,
                if self.open {
                    RecvAction::Receive
                } else {
                    RecvAction::Return(Err(RecvError::Closed))
                },
            ),
            Some((deadline, reason)) => if now >= deadline {
                (
                    Self::closed(),
                    RecvAction::Return(Ok(ExtensionControlMsg::Shutdown { deadline, reason })),
                )
            } else {
                (self, RecvAction::SleepUntil(deadline))
            },
        }
    }

    /// The channel, and what to do, when that was received at that time.
    pub open spec fn took(
        self,
        message: Result<ExtensionControlMsg, RecvError>,
        now: u64,
    ) -> (ChannelView, RecvAction) {
        match message {
            Ok(ExtensionControlMsg::Shutdown { deadline, reason }) => if deadline <= now {
                (Self::closed(), RecvAction::Return(message))
            } else {
                (
                    ChannelView { open: true, pending: Some((deadline, reason)) },
                    RecvAction::SleepUntil(deadline),
                )
            },
            _ => (self, RecvAction::Return(message)),
        }
    }
}

impl ControlChannel {
    /// An open channel.
    pub fn new() -> (r: Self)
        ensures
            r@ == (ChannelView { open: true, pending: None }),
    {
        ControlChannel { open: true, pending_shutdown: None }
    }

    /// What to do to receive the next message at that time.
    pub fn recv(&mut self, now: u64) -> (action: RecvAction)
        requires
            old(self)@.wf(),
        ensures
            final(self)@.wf(),
            (final(self)@, action) == old(self)@.asked(now),
            match old(self)@.pending {
                None => {
                    &&& final(self)@ == old(self)@
                    &&& if old(self)@.open {
                        action is Receive
                    } else {
                        action == RecvAction::Return(Err(RecvError::Closed))
                    }
                },
                Some((deadline, reason)) => if now >= deadline {
                    &&& action == RecvAction::Return(
                        Ok(ExtensionControlMsg::Shutdown { deadline, reason }),
                    )
                    &&& final(self)@ == ChannelView::closed()
                } else {
                    &&& action == RecvAction::SleepUntil(deadline)
                    &&& final(self)@ == old(self)@
                },
            },
    {
        if !self.open {
            return RecvAction::Return(Err(RecvError::Closed));
        }
        match &self.pending_shutdown {
            Some((deadline, _)) if now < *deadline => {
                return RecvAction::SleepUntil(*deadline);
            },
            _ => {},
        }
        match self.pending_shutdown.take() {
            Some((deadline, reason)) => {
                self.open = false;
                RecvAction::Return(Ok(ExtensionControlMsg::Shutdown { deadline, reason }))
            },
            None => RecvAction::Receive,
        }
    }

    /// What to do with what was received at that time.
    pub fn received(
        &mut self,
        message: Result<ExtensionControlMsg, RecvError>,
        now: u64,
    ) -> (action: RecvAction)
        requires
            old(self)@.open,
            old(self)@.pending is None,
        ensures
            final(self)@.wf(),
            (final(self)@, action) == old(self)@.took(message, now),
            match message {
                Ok(ExtensionControlMsg::Shutdown { deadline, reason }) => if deadline <= now {
                    &&& action == RecvAction::Return(message)
                    &&& final(self)@ == ChannelView::closed()
                } else {
                    &&& action == RecvAction::SleepUntil(deadline)
                    &&& final(self)@ == (ChannelView {
                        open: true,
                        pending: Some((deadline, reason)),
                    })
                },
                _ => {
                    &&& action == RecvAction::Return(message)
                    &&& final(self)@ == old(self)@
                },
            },
    {
        match message {
            Ok(ExtensionControlMsg::Shutdown { deadline, reason }) => {
                if deadline <= now {
                    self.open = false;
                    RecvAction::Return(Ok(ExtensionControlMsg::Shutdown { deadline, reason }))
                } else {
                    self.pending_shutdown = Some((deadline, reason));
                    RecvAction::SleepUntil(deadline)
                }
            },
            other => RecvAction::Return(other),
        }
    }

    /// The deadline of the shutdown that is held back has come.
    pub fn deadline_reached(&mut self) -> (message: ExtensionControlMsg)
        requires
            old(self)@.pending is Some,
        ensures
            final(self)@ == ChannelView::closed(),
            old(self)@.pending matches Some((deadline, reason)) ==> message
                == (ExtensionControlMsg::Shutdown { deadline, reason }),
    {
        self.open = false;
        match self.pending_shutdown.take() {
            Some((deadline, reason)) => ExtensionControlMsg::Shutdown { deadline, reason },
            None => vstd::pervasive::unreached(),
        }
    }
}

/// A shutdown is held back until its deadline and delivered then: before, nothing is delivered
/// but a wish to sleep until the deadline; at the deadline the shutdown itself is, and the
/// channel is closed.
pub proof fn shutdown_is_held_until_its_deadline(
    channel: ChannelView,
    deadline: u64,
    reason: String,
    now: u64,
    later: u64,
)
    requires
        channel.open,
        channel.pending is None,
    ensures
        ({
            let shutdown = ExtensionControlMsg::Shutdown { deadline, reason };
            let (held, action) = channel.took(Ok(shutdown), now);
            &&& now >= deadline ==> action == RecvAction::Return(Ok(shutdown)) && !held.open
            &&& now < deadline ==> {
                &&& action == RecvAction::SleepUntil(deadline)
                &&& later < deadline ==> held.asked(later) == (
                    held,
                    RecvAction::SleepUntil(deadline),
                )
                &&& later >= deadline ==> {
                    &&& held.asked(later).1 == RecvAction::Return(Ok(shutdown))
                    &&& !held.asked(later).0.open
                }
            }
        }),
{
}

/// Nothing is delivered after a shutdown: whatever delivers one closes the channel, and a
/// closed channel says that it is closed for ever.
pub proof fn nothing_follows_a_shutdown(
    channel: ChannelView,
    message: Result<ExtensionControlMsg, RecvError>,
    now: u64,
    later: u64,
)
    requires
        channel.wf(),
    ensures
        channel.asked(now).1 is Return ==> {
            let after = channel.asked(now).0;
            after.asked(later) == (after, RecvAction::Return(Err(RecvError::Closed)))
        },
        channel.took(message, now).1 matches RecvAction::Return(
            Ok(ExtensionControlMsg::Shutdown { .. }),
        ) ==> {
            let after = channel.took(message, now).0;
            after.asked(later) == (after, RecvAction::Return(Err(RecvError::Closed)))
        },
{
}

/// Any other message is handed on at once and leaves the channel as it was, so that the next
/// one is asked for.
pub proof fn other_messages_are_handed_on(
    channel: ChannelView,
    message: Result<ExtensionControlMsg, RecvError>,
    now: u64,
    later: u64,
)
    requires
        channel.open,
        channel.pending is None,
        !(message matches Ok(ExtensionControlMsg::Shutdown { .. })),
    ensures
        channel.took(message, now) == (channel, RecvAction::Return(message)),
        channel.asked(later) == (channel, RecvAction::Receive),
{
}

} // verus!
