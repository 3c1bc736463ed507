//! Starting a gossip round with a peer, and admitting messages of peers.

use crate::blocks;
use crate::blocks::NUM_SECTORS;
use crate::dht_arc::DhtArc;
use crate::ids::{bytes_eq, AgentId, SpaceId};
use crate::text::str_eq;
use vstd::prelude::*;

verus! {

// ---------------------------------------------------------------------------
// Sets of arcs on the wire.

/// How many words the bits of all sectors take.
pub const ARC_SET_WORDS: usize = 16;

/// Whether some arc of a list covers a sector.
pub open spec fn some_covers(arcs: Seq<DhtArc>, sector: int) -> bool {
    exists|i: int| 0 <= i < arcs.len() && blocks::covers(#[trigger] arcs[i], sector)
}

/// The words that `kitsune2_dht::ArcSet` encodes a list of arcs to, if it takes
/// them.
pub uninterp spec fn arc_set_words(arcs: Seq<DhtArc>) -> Option<Seq<u32>>;

/// Calls `kitsune2_dht::ArcSet::new` on the arcs and `ArcSet::encode` on the
/// set. The first refuses arcs that are no whole number of sectors long; the
/// second gives sixteen words with one bit for each sector, lowest first. The
/// contract names the outcome. Of arcs that start and end with whole sectors it
/// states that they are taken, and that a sector's bit is set where an arc
/// covers it and only there.
#[verifier::external_body]
fn encode_arc_set(arcs: &Vec<DhtArc>) -> (words: Option<Vec<u32>>)
    ensures
        match arc_set_words(arcs@) {
            Some(list) => words matches Some(w) && w@ == list,
            None => words is None,
        },
        (forall|i: int| 0 <= i < arcs@.len() ==> blocks::sector_aligned(#[trigger] arcs@[i])) ==> (
        words matches Some(w) && w@.len() == ARC_SET_WORDS && forall|s: int|
            0 <= s < NUM_SECTORS ==> (((w@[s / 32] >> ((s % 32) as u32)) & 1u32) == 1u32
                <==> #[trigger] some_covers(arcs@, s))),
{
    let arcs = arcs.iter().map(|arc| match arc {
        DhtArc::Empty => kitsune2_api::DhtArc::Empty,
        DhtArc::Arc(start, end) => kitsune2_api::DhtArc::Arc(*start, *end),
    });
    let set = kitsune2_dht::ArcSet::new(arcs.collect()).ok()?;
    Some(set.encode())
}

// ---------------------------------------------------------------------------
// Initiating a round.

/// The message that opens a gossip round.
#[derive(Debug)]
pub struct K2GossipInitiateMessage {
    /// Identifies the round.
    pub session_id: Vec<u8>,
    /// The agents that take part on this side.
    pub participating_agents: Vec<AgentId>,
    /// The sectors that this side holds, one bit each.
    pub arc_set: Vec<u32>,
    /// Ops stored by the peer since then are asked for, in microseconds.
    pub new_since: i64,
    /// How many bytes of op data this side accepts.
    pub max_op_data_bytes: u32,
    /// How many ops this side holds.
    pub dht_op_count: Option<u64>,
    /// Decides which of two rounds that cross goes on.
    pub tie_breaker: u32,
}

/// A [`K2GossipInitiateMessage`] with sequences for its lists.
#[verifier::ext_equal]
pub struct InitiateMessageView {
    pub session_id: Seq<u8>,
    pub participating_agents: Seq<Seq<u8>>,
    pub arc_set: Seq<u32>,
    pub new_since: i64,
    pub max_op_data_bytes: u32,
    pub dht_op_count: Option<u64>,
    pub tie_breaker: u32,
}

/// The ids of a list of agents.
pub open spec fn id_views(agents: Seq<AgentId>) -> Seq<Seq<u8>> {
    Seq::new(agents.len(), |i: int| agents[i]@)
}

impl View for K2GossipInitiateMessage {
    type V = InitiateMessageView;

    open spec fn view(&self) -> InitiateMessageView {
        InitiateMessageView {
            session_id: self.session_id@,
            participating_agents: id_views(self.participating_agents@),
            arc_set: self.arc_set@,
            new_since: self.new_since,
            max_op_data_bytes: self.max_op_data_bytes,
            dht_op_count: self.dht_op_count,
            tie_breaker: self.tie_breaker,
        }
    }
}

/// What an attempt to initiate gossip waits for.
#[derive(Clone, Copy, Debug, PartialEq, Eq, Structural)]
pub enum InitiateStage {
    /// Whether a round is already initiated.
    Busy,
    /// The local agents and their arcs.
    LocalState,
    /// Since when ops are asked for.
    NewSince,
    /// The new round's identity.
    Round,
    /// Whether a round of the peer has been accepted.
    Accepted,
    /// That the attempt is on record.
    Record,
    /// That the message went out.
    Send,
    /// Nothing any more.
    Finished,
}

/// An answer to what an attempt waits for.
#[derive(Debug)]
pub enum InitiateEvent {
    /// Whether a round is already initiated.
    Busy(bool),
    /// The local agents and their arcs, unless asking for them failed.
    LocalState(Option<(Vec<AgentId>, Vec<DhtArc>)>),
    /// Since when ops are asked for, unless asking for that failed.
    NewSince(Option<i64>),
    /// The new round's identity, its tie breaker and the number of ops held.
    Round(Vec<u8>, u32, u64),
    /// Whether a round of the peer has been accepted meanwhile.
    Accepted(bool),
    /// Whether the attempt was put on record.
    Recorded(bool),
    /// Whether the message went out.
    Sent(bool),
}

/// What an attempt does next.
#[derive(Clone, Copy, Debug, PartialEq, Eq, Structural)]
pub enum InitiateAction {
    /// Ask for the local agents and their arcs.
    GetLocalState,
    /// Ask since when ops are to be asked for.
    GetNewSince,
    /// Open a round.
    OpenRound,
    /// Ask whether a round of the peer has been accepted.
    CheckAccepted,
    /// Record that gossip with the peer was attempted now.
    RecordAttempt,
    /// Send the message.
    SendMessage,
    /// Give up: a round is already initiated.
    AlreadyInitiated,
    /// Give up: a round of the peer has been accepted.
    AlreadyAccepted,
    /// Give up: a step has failed.
    Fail,
    /// Keep the round: gossip is initiated.
    Initiated,
}

/// Whether an answer is the one that a stage waits for.
pub open spec fn answers(stage: InitiateStage, event: InitiateEvent) -> bool {
    match event {
        InitiateEvent::Busy(_) => stage == InitiateStage::Busy,
        InitiateEvent::LocalState(_) => stage == InitiateStage::LocalState,
        InitiateEvent::NewSince(_) => stage == InitiateStage::NewSince,
        InitiateEvent::Round(_, _, _) => stage == InitiateStage::Round,
        InitiateEvent::Accepted(_) => stage == InitiateStage::Accepted,
        InitiateEvent::Recorded(_) => stage == InitiateStage::Record,
        InitiateEvent::Sent(_) => stage == InitiateStage::Send,
    }
}

/// The stage, the message and the action that an answer leads to, where the
/// arcs of the answer are encoded to the given words.
pub open spec fn initiate_moved(
    message: InitiateMessageView,
    event: InitiateEvent,
    words: Option<Seq<u32>>,
) -> (InitiateStage, InitiateMessageView, InitiateAction) {
    let failed = (InitiateStage::Finished, message, InitiateAction::Fail);
    match event {
        InitiateEvent::Busy(busy) => if busy {
            (InitiateStage::Finished, message, InitiateAction::AlreadyInitiated)
        } else {
            (InitiateStage::LocalState, message, InitiateAction::GetLocalState)
        },
        InitiateEvent::LocalState(found) => match (found, words) {
            (Some((agents, _)), Some(words)) => (
                InitiateStage::NewSince,
                InitiateMessageView {
                    participating_agents: id_views(agents@),
                    arc_set: words,
                    ..message
                },
                InitiateAction::GetNewSince,
            ),
            _ => failed,
        },
        InitiateEvent::NewSince(found) => match found {
            Some(new_since) => (
                InitiateStage::Round,
                InitiateMessageView { new_since, ..message },
                InitiateAction::OpenRound,
            ),
            None => failed,
        },
        InitiateEvent::Round(session_id, tie_breaker, op_count) => (
            InitiateStage::Accepted,
            InitiateMessageView {
                session_id: session_id@,
                tie_breaker,
                dht_op_count: Some(op_count),
                ..message
            },
            InitiateAction::CheckAccepted,
        ),
        // Before the message is sent: if the target has already initiated with
        // us, we can just skip initiating.
        InitiateEvent::Accepted(already) => if already {
            (InitiateStage::Finished, message, InitiateAction::AlreadyAccepted)
        } else {
            (InitiateStage::Record, message, InitiateAction::RecordAttempt)
        },
        // Even if sending fails, the peer has been selected, and shouldn't be
        // a valid target for the next initiation.
        InitiateEvent::Recorded(ok) => if ok {
            (InitiateStage::Send, message, InitiateAction::SendMessage)
        } else {
            failed
        },
        InitiateEvent::Sent(ok) => if ok {
            (InitiateStage::Finished, message, InitiateAction::Initiated)
        } else {
            failed
        },
    }
}

/// The words for the arcs of an answer.
pub open spec fn event_words(event: InitiateEvent) -> Option<Seq<u32>> {
    match event {
        InitiateEvent::LocalState(Some((_, arcs))) => arc_set_words(arcs@),
        _ => None,
    }
}

/// One attempt to initiate gossip with a peer.
#[derive(Debug)]
pub struct InitiateRun {
    /// What the attempt waits for.
    pub stage: InitiateStage,
    /// The message, as far as it is known.
    pub message: K2GossipInitiateMessage,
}

impl InitiateRun {
    /// Begins an attempt.
    pub fn begin(max_op_data_bytes: u32) -> (run: InitiateRun)
        ensures
            run.stage == InitiateStage::Busy,
            run.message@ == (InitiateMessageView {
                session_id: Seq::empty(),
                participating_agents: Seq::empty(),
                arc_set: Seq::empty(),
                new_since: 0,
                max_op_data_bytes,
                dht_op_count: None,
                tie_breaker: 0,
            }),
    {
        let run = InitiateRun {
            stage: InitiateStage::Busy,
            message: K2GossipInitiateMessage {
                session_id: Vec::new(),
                participating_agents: Vec::new(),
                arc_set: Vec::new(),
                new_since: 0,
                max_op_data_bytes,
                dht_op_count: None,
                tie_breaker: 0,
            },
        };
        assert(run.message@.participating_agents =~= Seq::<Seq<u8>>::empty());
        assert(run.message@.session_id =~= Seq::<u8>::empty());
        assert(run.message@.arc_set =~= Seq::<u32>::empty());
        run
    }

    /// Takes an answer into account, with the words that the arcs in it were
    /// encoded to.
    pub fn advance(&mut self, event: InitiateEvent, words: Option<Vec<u32>>) -> (action:
        InitiateAction)
        requires
            answers(old(self).stage, event),
        ensures
            ({
                let next = initiate_moved(
                    old(self).message@,
                    event,
                    match words {
                        Some(words) => Some(words@),
                        None => None,
                    },
                );
                &&& final(self).stage == next.0
                &&& final(self).message@ == next.1
                &&& action == next.2
            }),
    {
        let action = match event {
            InitiateEvent::Busy(busy) => {
                if busy {
                    InitiateAction::AlreadyInitiated
                } else {
                    self.stage = InitiateStage::LocalState;
                    InitiateAction::GetLocalState
                }
            },
            InitiateEvent::LocalState(found) => match (found, words) {
                (Some((agents, _)), Some(words)) => {
                    self.message.participating_agents = agents;
                    self.message.arc_set = words;
                    self.stage = InitiateStage::NewSince;
                    InitiateAction::GetNewSince
                },
                _ => InitiateAction::Fail,
            },
            InitiateEvent::NewSince(found) => match found {
                Some(new_since) => {
                    self.message.new_since = new_since;
                    self.stage = InitiateStage::Round;
                    InitiateAction::OpenRound
                },
                None => InitiateAction::Fail,
            },
            InitiateEvent::Round(session_id, tie_breaker, op_count) => {
                self.message.session_id = session_id;
                self.message.tie_breaker = tie_breaker;
                self.message.dht_op_count = Some(op_count);
                self.stage = InitiateStage::Accepted;
                InitiateAction::CheckAccepted
            },
            InitiateEvent::Accepted(already) => {
                if already {
                    InitiateAction::AlreadyAccepted
                } else {
                    self.stage = InitiateStage::Record;
                    InitiateAction::RecordAttempt
                }
            },
            InitiateEvent::Recorded(ok) => {
                if ok {
                    self.stage = InitiateStage::Send;
                    InitiateAction::SendMessage
                } else {
                    InitiateAction::Fail
                }
            },
            InitiateEvent::Sent(ok) => {
                if ok {
                    InitiateAction::Initiated
                } else {
                    InitiateAction::Fail
                }
            },
        };
        match action {
            InitiateAction::AlreadyInitiated | InitiateAction::AlreadyAccepted
            | InitiateAction::Fail | InitiateAction::Initiated => {
                self.stage = InitiateStage::Finished;
            },
            _ => {},
        }
        action
    }

    /// Takes an answer into account.
    pub fn initiate_gossip(&mut self, event: InitiateEvent) -> (action: InitiateAction)
        requires
            answers(old(self).stage, event),
        ensures
            ({
                let next = initiate_moved(old(self).message@, event, event_words(event));
                &&& final(self).stage == next.0
                &&& final(self).message@ == next.1
                &&& action == next.2
            }),
    {
        let words = match &event {
            InitiateEvent::LocalState(Some((_, arcs))) => encode_arc_set(arcs),
            _ => None,
        };
        self.advance(event, words)
    }
}

/// The last action of a whole attempt, given the answers to all that it may
/// ask.
pub open spec fn outcome(
    busy: bool,
    local_state: bool,
    encodable: bool,
    new_since: bool,
    accepted: bool,
    recorded: bool,
    sent: bool,
) -> InitiateAction {
    if busy {
        InitiateAction::AlreadyInitiated
    } else if !local_state || !encodable || !new_since {
        InitiateAction::Fail
    } else if accepted {
        InitiateAction::AlreadyAccepted
    } else if !recorded || !sent {
        InitiateAction::Fail
    } else {
        InitiateAction::Initiated
    }
}

/// The action that a row of answers ends with, each taken in its turn until the
/// attempt is finished.
pub open spec fn run_all(
    stage: InitiateStage,
    message: InitiateMessageView,
    action: InitiateAction,
    events: Seq<InitiateEvent>,
) -> (InitiateMessageView, InitiateAction)
    decreases events.len(),
{
    if stage == InitiateStage::Finished || events.len() == 0 {
        (message, action)
    } else {
        let next = initiate_moved(message, events[0], event_words(events[0]));
        run_all(next.0, next.1, next.2, events.drop_first())
    }
}

/// Gossip is initiated if and only if no round is under way on either side and
/// every step succeeds; the peer that has a round accepted or a round already
/// initiated is not an error. The message that goes out then holds exactly what
/// was asked for.
pub proof fn law_initiation_outcome(
    start: InitiateMessageView,
    busy: bool,
    found: Option<(Vec<AgentId>, Vec<DhtArc>)>,
    new_since: Option<i64>,
    session_id: Vec<u8>,
    tie_breaker: u32,
    op_count: u64,
    accepted: bool,
    recorded: bool,
    sent: bool,
)
    ensures
        ({
            let events = seq![
                InitiateEvent::Busy(busy),
                InitiateEvent::LocalState(found),
                InitiateEvent::NewSince(new_since),
                InitiateEvent::Round(session_id, tie_breaker, op_count),
                InitiateEvent::Accepted(accepted),
                InitiateEvent::Recorded(recorded),
                InitiateEvent::Sent(sent),
            ];
            let words = event_words(InitiateEvent::LocalState(found));
            let end = run_all(
                InitiateStage::Busy,
                start,
                InitiateAction::GetLocalState,
                events,
            );
            &&& end.1 == outcome(
                busy,
                found is Some,
                words is Some,
                new_since is Some,
                accepted,
                recorded,
                sent,
            )
            &&& end.1 == InitiateAction::Initiated ==> end.0 == (InitiateMessageView {
                session_id: session_id@,
                participating_agents: id_views((found->0).0@),
                arc_set: words->0,
                new_since: new_since->0,
                max_op_data_bytes: start.max_op_data_bytes,
                dht_op_count: Some(op_count),
                tie_breaker,
            })
        }),
{
    let events = seq![
        InitiateEvent::Busy(busy),
        InitiateEvent::LocalState(found),
        InitiateEvent::NewSince(new_since),
        InitiateEvent::Round(session_id, tie_breaker, op_count),
        InitiateEvent::Accepted(accepted),
        InitiateEvent::Recorded(recorded),
        InitiateEvent::Sent(sent),
    ];
    reveal_with_fuel(run_all, 9);
    let t1 = events.drop_first();
    let t2 = t1.drop_first();
    let t3 = t2.drop_first();
    let t4 = t3.drop_first();
    let t5 = t4.drop_first();
    let t6 = t5.drop_first();
    assert(t1[0] == InitiateEvent::LocalState(found));
    assert(t2[0] == InitiateEvent::NewSince(new_since));
    assert(t3[0] == InitiateEvent::Round(session_id, tie_breaker, op_count));
    assert(t4[0] == InitiateEvent::Accepted(accepted));
    assert(t5[0] == InitiateEvent::Recorded(recorded));
    assert(t6[0] == InitiateEvent::Sent(sent));
}

// ---------------------------------------------------------------------------
// Messages of peers.

/// Why a module message was refused.
#[derive(Debug)]
pub enum AdmitError {
    /// It is for another space.
    WrongSpace,
    /// It is for another module.
    WrongModule,
}

/// Decides whether a module message is for this space and module.
pub fn admit_module_msg(
    own_space: &SpaceId,
    own_module: &str,
    space_id: &SpaceId,
    module: &str,
) -> (admitted: Result<(), AdmitError>)
    ensures
        admitted is Ok <==> space_id@ == own_space@ && module@ == own_module@,
        admitted matches Err(e) ==> {
            &&& e is WrongSpace <==> space_id@ != own_space@
            &&& e is WrongModule <==> space_id@ == own_space@ && module@ != own_module@
        },
{
    if !bytes_eq(&own_space.bytes, &space_id.bytes) {
        return Err(AdmitError::WrongSpace);
    }
    if !str_eq(module, own_module) {
        return Err(AdmitError::WrongModule);
    }
    Ok(())
}

/// How responding to a gossip message ended.
#[derive(Clone, Copy, Debug, PartialEq, Eq, Structural)]
pub enum Responded {
    /// All went well.
    Fine,
    /// The peer did not behave.
    PeerBehaviorError,
    /// Something else went wrong.
    OtherError,
}

/// Which count of errors with a peer goes up.
#[derive(Clone, Copy, Debug, PartialEq, Eq, Structural)]
pub enum ErrorCount {
    /// None.
    Neither,
    /// That of the peer's misbehaviours.
    PeerBehaviorErrors,
    /// That of errors on this side.
    LocalErrors,
}

/// Decides which count of errors goes up after a gossip message.
pub fn handle_gossip_message(ended: Responded) -> (count: ErrorCount)
    ensures
        count == match ended {
            Responded::Fine => ErrorCount::Neither,
            Responded::PeerBehaviorError => ErrorCount::PeerBehaviorErrors,
            Responded::OtherError => ErrorCount::LocalErrors,
        },
{
    match ended {
        Responded::Fine => ErrorCount::Neither,
        Responded::PeerBehaviorError => ErrorCount::PeerBehaviorErrors,
        Responded::OtherError => ErrorCount::LocalErrors,
    }
}

/// How a snapshot of a peer compares with the local one.
#[derive(Clone, Copy, Debug, PartialEq, Eq, Structural)]
pub enum Comparison {
    /// They are the same.
    Identical,
    /// They cannot be compared.
    CannotCompare,
    /// They differ, and more detail is needed.
    NewSnapshot,
    /// They differ, and the details and what is missing are known.
    NewSnapshotAndHashList,
    /// They differ, and what is missing is known.
    HashList,
}

/// Decides whether storage arcs are updated after a comparison: as long as the
/// comparison was successful.
pub fn update_storage_arcs(comparison: Comparison) -> (update: bool)
    ensures
        update == (comparison != Comparison::CannotCompare),
{
    comparison != Comparison::CannotCompare
}

/// A round is attempted only where none is initiated, the message is sent only
/// after the attempt is on record, that is put on record only where the peer has
/// no round accepted, and gossip is initiated only once the message is out.
pub proof fn law_steps_of_an_initiation(
    message: InitiateMessageView,
    event: InitiateEvent,
    words: Option<Seq<u32>>,
)
    ensures
        ({
            let (stage, _, action) = initiate_moved(message, event, words);
            &&& action == InitiateAction::AlreadyInitiated <==> event == InitiateEvent::Busy(true)
            &&& action == InitiateAction::GetLocalState <==> event == InitiateEvent::Busy(false)
            &&& action == InitiateAction::GetNewSince <==> event is LocalState
                && event->LocalState_0 is Some && words is Some
            &&& action == InitiateAction::OpenRound <==> event is NewSince
                && event->NewSince_0 is Some
            &&& action == InitiateAction::CheckAccepted <==> event is Round
            &&& action == InitiateAction::AlreadyAccepted <==> event == InitiateEvent::Accepted(
                true,
            )
            &&& action == InitiateAction::RecordAttempt <==> event == InitiateEvent::Accepted(false)
            &&& action == InitiateAction::SendMessage <==> event == InitiateEvent::Recorded(true)
            &&& action == InitiateAction::Initiated <==> event == InitiateEvent::Sent(true)
            &&& stage == InitiateStage::Finished <==> action == InitiateAction::AlreadyInitiated
                || action == InitiateAction::AlreadyAccepted || action == InitiateAction::Fail
                || action == InitiateAction::Initiated
            &&& stage == InitiateStage::LocalState <==> action == InitiateAction::GetLocalState
            &&& stage == InitiateStage::NewSince <==> action == InitiateAction::GetNewSince
            &&& stage == InitiateStage::Round <==> action == InitiateAction::OpenRound
            &&& stage == InitiateStage::Accepted <==> action == InitiateAction::CheckAccepted
            &&& stage == InitiateStage::Record <==> action == InitiateAction::RecordAttempt
            &&& stage == InitiateStage::Send <==> action == InitiateAction::SendMessage
        }),
{
}

/// The message says what the answers said: the agents and the words for their
/// arcs, since when ops are asked for, and the identity, the tie breaker and the
/// number of ops of the round. Every other answer leaves it alone, and so does
/// each of these the rest of it.
pub proof fn law_the_message_says_what_was_answered(
    message: InitiateMessageView,
    event: InitiateEvent,
    words: Option<Seq<u32>>,
)
    ensures
        ({
            let next = initiate_moved(message, event, words).1;
            let found = event is LocalState && event->LocalState_0 is Some && words is Some;
            let dated = event is NewSince && event->NewSince_0 is Some;
            &&& next.max_op_data_bytes == message.max_op_data_bytes
            &&& found ==> {
                let agents = (event->LocalState_0->0).0;
                &&& next.participating_agents.len() == agents@.len()
                &&& forall|i: int|
                    0 <= i < agents@.len() ==> #[trigger] next.participating_agents[i]
                        == agents@[i].bytes@
                &&& next.arc_set == words->0
            }
            &&& !found ==> next.participating_agents == message.participating_agents
                && next.arc_set == message.arc_set
            &&& next.new_since == if dated {
                event->NewSince_0->0
            } else {
                message.new_since
            }
            &&& event matches InitiateEvent::Round(session_id, tie_breaker, op_count) ==> {
                &&& next.session_id == session_id@
                &&& next.tie_breaker == tie_breaker
                &&& next.dht_op_count == Some(op_count)
            }
            &&& !(event is Round) ==> {
                &&& next.session_id == message.session_id
                &&& next.tie_breaker == message.tie_breaker
                &&& next.dht_op_count == message.dht_op_count
            }
        }),
{
}

/// The words are those of the arcs that were found.
pub proof fn law_the_words_are_of_the_arcs(agents: Vec<AgentId>, arcs: Vec<DhtArc>)
    ensures
        event_words(InitiateEvent::LocalState(Some((agents, arcs)))) == arc_set_words(arcs@),
{
}

/// An answer is taken only at the stage that waits for it.
pub proof fn law_answers_come_in_turn(stage: InitiateStage, event: InitiateEvent)
    ensures
        answers(stage, event) <==> match stage {
            InitiateStage::Busy => event is Busy,
            InitiateStage::LocalState => event is LocalState,
            InitiateStage::NewSince => event is NewSince,
            InitiateStage::Round => event is Round,
            InitiateStage::Accepted => event is Accepted,
            InitiateStage::Record => event is Recorded,
            InitiateStage::Send => event is Sent,
            InitiateStage::Finished => false,
        },
{
}

} // verus!
