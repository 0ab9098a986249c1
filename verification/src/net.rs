//! How the connection to the server reacts to what happens: packets from the
//! server, the position timer, and events from the game window.

use crate::pos::BlockPos;
use vstd::prelude::*;

verus! {

/// A packet from the server, with what the reactions need of it; the rest
/// of the packet stays with the caller.
#[derive(Clone, Debug)]
pub enum ServerPacket {
    NodeDefs,
    Kick,
    AcceptAuth,
    MovePlayer,
    BlockData { pos: BlockPos },
    AnnounceMedia { files: Vec<String> },
    Media { n: u16, i: u16 },
    ChatMsg,
    Movement,
    Other,
}

/// Something that happens to the connection.
#[derive(Clone, Debug)]
pub enum ConnEvent {
    /// A packet came in.
    Packet(ServerPacket),
    /// A packet could not be read.
    BadPacket,
    /// The server closed the connection.
    Disconnected,
    /// The position timer fired.
    PositionTick,
    /// The game window reports the player's position.
    WindowPlayerPos,
    /// The game window has all it needs to show the world.
    WindowReady,
    /// The game window went away.
    WindowClosed,
    /// The user asked to quit.
    Interrupt,
}

/// What the connection does in reaction.
#[derive(Clone, Debug)]
pub enum ConnAction {
    /// Hand the node definitions to the game window.
    ForwardNodeDefs,
    /// Print why the server kicked the player.
    PrintKick,
    /// Take the position the server gives as the player's.
    TakePosition,
    /// Take position, pitch and yaw the server gives as the player's.
    TakePositionAndRotation,
    /// Hand the player's position to the game window.
    ForwardPlayerPos,
    /// Start sending the player's position every 100 milliseconds.
    StartPositionTimer,
    /// Hand a map block to the game window.
    ForwardBlock(BlockPos),
    /// Tell the server that this block arrived.
    AckBlock(BlockPos),
    /// Ask the server for these media files.
    RequestMedia(Vec<String>),
    /// Hand media files to the game window; `finished` when they are the
    /// last of the announced ones.
    ForwardMedia { finished: bool },
    /// Print a chat message.
    PrintChat,
    /// Hand the walking speed to the game window.
    ForwardMovementSpeed,
    /// Send the player's position to the server.
    SendPlayerPos,
    /// Tell the server the client is ready.
    SendClientReady,
    /// Take position, pitch and yaw from the game window.
    TakeWindowPos,
    /// Close the connection.
    Close,
    /// Stop: the server is gone.
    Stop,
    /// Print that a packet could not be read.
    PrintError,
}

/// The state of the connection that its reactions depend on.
#[derive(Clone, Copy, Debug, PartialEq, Eq, Structural)]
pub struct ConnState {
    /// The position timer runs: the server accepted the player.
    pub sending_position: bool,
}

/// A media packet is the last one: its index is the last of `n`.
pub open spec fn media_finished(n: u16, i: u16) -> bool {
    i + 1 == n
}

/// Whether an event can be handled: the index of a media packet must have a
/// successor, as the count is one more than the largest index.
pub open spec fn event_ok(ev: ConnEvent) -> bool {
    ev matches ConnEvent::Packet(ServerPacket::Media { n, i }) ==> i < u16::MAX
}

/// The reactions to an event, and the state after it.
pub open spec fn reaction(s: ConnState, ev: ConnEvent) -> (ConnState, Seq<ConnAction>) {
    match ev {
        ConnEvent::Packet(p) => match p {
            ServerPacket::NodeDefs => (s, seq![ConnAction::ForwardNodeDefs]),
            ServerPacket::Kick => (s, seq![ConnAction::PrintKick]),
            ServerPacket::AcceptAuth => (
                ConnState { sending_position: true },
                seq![ConnAction::TakePosition, ConnAction::StartPositionTimer],
            ),
            ServerPacket::MovePlayer => (s, seq![ConnAction::TakePositionAndRotation, ConnAction::ForwardPlayerPos]),
            ServerPacket::BlockData { pos } => (s, seq![ConnAction::ForwardBlock(pos), ConnAction::AckBlock(pos)]),
            ServerPacket::AnnounceMedia { files } => (s, seq![ConnAction::RequestMedia(files)]),
            ServerPacket::Media { n, i } => (s, seq![ConnAction::ForwardMedia { finished: media_finished(n, i) }]),
            ServerPacket::ChatMsg => (s, seq![ConnAction::PrintChat]),
            ServerPacket::Movement => (s, seq![ConnAction::ForwardMovementSpeed]),
            ServerPacket::Other => (s, Seq::empty()),
        },
        ConnEvent::BadPacket => (s, seq![ConnAction::PrintError]),
        ConnEvent::Disconnected => (s, seq![ConnAction::Stop]),
        ConnEvent::PositionTick => (s, if s.sending_position {
            seq![ConnAction::SendPlayerPos]
        } else {
            Seq::empty()
        }),
        ConnEvent::WindowPlayerPos => (s, seq![ConnAction::TakeWindowPos]),
        ConnEvent::WindowReady => (s, seq![ConnAction::SendClientReady]),
        ConnEvent::WindowClosed => (s, seq![ConnAction::Close]),
        ConnEvent::Interrupt => (s, seq![ConnAction::Close]),
    }
}

impl ConnState {
    /// A fresh connection: the position timer does not run yet.
    pub fn new() -> (s: Self)
        ensures
            !s.sending_position,
    {
        ConnState { sending_position: false }
    }

    /// Decides the reactions to an event, in the order in which they are to
    /// be carried out.
    pub fn handle_event(&mut self, ev: ConnEvent) -> (actions: Vec<ConnAction>)
        requires
            event_ok(ev),
        ensures
            (*final(self), actions@) == reaction(*old(self), ev),
    {
        let mut actions: Vec<ConnAction> = Vec::new();
        match ev {
            ConnEvent::Packet(p) => match p {
                ServerPacket::NodeDefs => actions.push(ConnAction::ForwardNodeDefs),
                ServerPacket::Kick => actions.push(ConnAction::PrintKick),
                ServerPacket::AcceptAuth => {
                    self.sending_position = true;
                    actions.push(ConnAction::TakePosition);
                    actions.push(ConnAction::StartPositionTimer);
                },
                ServerPacket::MovePlayer => {
                    actions.push(ConnAction::TakePositionAndRotation);
                    actions.push(ConnAction::ForwardPlayerPos);
                },
                ServerPacket::BlockData { pos } => {
                    actions.push(ConnAction::ForwardBlock(pos));
                    actions.push(ConnAction::AckBlock(pos));
                },
                ServerPacket::AnnounceMedia { files } => actions.push(ConnAction::RequestMedia(files)),
                ServerPacket::Media { n, i } => actions.push(ConnAction::ForwardMedia { finished: i + 1 == n }),
                ServerPacket::ChatMsg => actions.push(ConnAction::PrintChat),
                ServerPacket::Movement => actions.push(ConnAction::ForwardMovementSpeed),
                ServerPacket::Other => {},
            },
            ConnEvent::BadPacket => actions.push(ConnAction::PrintError),
            ConnEvent::Disconnected => actions.push(ConnAction::Stop),
            ConnEvent::PositionTick => {
                if self.sending_position {
                    actions.push(ConnAction::SendPlayerPos);
                }
            },
            ConnEvent::WindowPlayerPos => actions.push(ConnAction::TakeWindowPos),
            ConnEvent::WindowReady => actions.push(ConnAction::SendClientReady),
            ConnEvent::WindowClosed => actions.push(ConnAction::Close),
            ConnEvent::Interrupt => actions.push(ConnAction::Close),
        }
        proof {
            assert(actions@ =~= reaction(*old(self), ev).1);
        }
        actions
    }
}

/// The player's position is sent to the server only once the server has
/// accepted the player, and from then on at every tick.
pub proof fn lemma_position_sent_after_accept(s: ConnState)
    ensures
        !s.sending_position ==> reaction(s, ConnEvent::PositionTick).1.len() == 0,
        ({
            let (t, _) = reaction(s, ConnEvent::Packet(ServerPacket::AcceptAuth));
            reaction(t, ConnEvent::PositionTick).1 == seq![ConnAction::SendPlayerPos]
        }),
        forall|ev: ConnEvent| s.sending_position ==> #[trigger] reaction(s, ev).0.sending_position,
{
}


/// What each event makes the connection do: packets whose contents the game
/// window needs (node definitions, a move of the player, a map block, media,
/// the walking speed) are handed to it, a moved player's position after it
/// is taken; a map block is acknowledged after it is handed over; kicks, chat
/// and unreadable packets are printed; the window's position is taken; and
/// only the server's acceptance changes the connection's state.
pub proof fn lemma_reactions(s: ConnState, pos: BlockPos, files: Seq<String>, n: u16, i: u16)
    ensures
        reaction(s, ConnEvent::Packet(ServerPacket::MovePlayer)) == (s, seq![ConnAction::TakePositionAndRotation, ConnAction::ForwardPlayerPos]),
        reaction(s, ConnEvent::Packet(ServerPacket::NodeDefs)) == (s, seq![ConnAction::ForwardNodeDefs]),
        reaction(s, ConnEvent::Packet(ServerPacket::Kick)) == (s, seq![ConnAction::PrintKick]),
        reaction(s, ConnEvent::Packet(ServerPacket::ChatMsg)) == (s, seq![ConnAction::PrintChat]),
        reaction(s, ConnEvent::Packet(ServerPacket::Movement)) == (s, seq![ConnAction::ForwardMovementSpeed]),
        reaction(s, ConnEvent::Packet(ServerPacket::AcceptAuth))
            == (ConnState { sending_position: true }, seq![ConnAction::TakePosition, ConnAction::StartPositionTimer]),
        reaction(s, ConnEvent::Packet(ServerPacket::BlockData { pos })) == (s, seq![ConnAction::ForwardBlock(pos), ConnAction::AckBlock(pos)]),
        reaction(s, ConnEvent::Packet(ServerPacket::Media { n, i })).1 == seq![ConnAction::ForwardMedia { finished: i + 1 == n }],
        reaction(s, ConnEvent::Packet(ServerPacket::Other)) == (s, Seq::<ConnAction>::empty()),
        reaction(s, ConnEvent::BadPacket) == (s, seq![ConnAction::PrintError]),
        reaction(s, ConnEvent::Disconnected) == (s, seq![ConnAction::Stop]),
        reaction(s, ConnEvent::WindowPlayerPos) == (s, seq![ConnAction::TakeWindowPos]),
        reaction(s, ConnEvent::WindowReady) == (s, seq![ConnAction::SendClientReady]),
        reaction(s, ConnEvent::WindowClosed) == (s, seq![ConnAction::Close]),
        reaction(s, ConnEvent::Interrupt) == (s, seq![ConnAction::Close]),
        forall|ev: ConnEvent| !(ev matches ConnEvent::Packet(ServerPacket::AcceptAuth)) ==> #[trigger] reaction(s, ev).0 == s,
{
    let _ = files;
}

} // verus!
