//! The decisions of the gossip protocol. Reading from and writing to
//! connections is left to the caller; what is decided here is what a message
//! does to the ledger, what is sent in answer and to whom, and which peers
//! are dropped after a broadcast.

use crate::block::{Block, BlockView};
use crate::blockchain::{external_verdict, with_block, DagBlockchain, LedgerView};
use crate::history::ledger_consistent;
use crate::lexical::string_eq;
use crate::mempool::{pool_insert, submit_outcome};
use crate::transaction::{view_all, Transaction, TransactionView};
use vstd::prelude::*;

verus! {

/// The four kinds of message on the wire.
#[derive(Clone, Copy, Debug, PartialEq, Eq, Structural)]
pub enum MessageKind {
    Tx,
    Block,
    GetHeaders,
    Headers,
}

/// A message after it was decoded.
#[derive(Debug)]
pub enum Message {
    Tx(Transaction),
    Block(Block),
    GetHeaders,
    Headers(Vec<String>),
}

/// What the node does in answer to a message.
#[derive(Debug)]
pub enum Action {
    /// Nothing is sent.
    Ignore,
    /// The transaction goes to every other peer.
    RelayTx(Transaction),
    /// The block goes to every other peer.
    RelayBlock(Block),
    /// The hashes go back on the connection the message came from.
    ReplyHeaders(Vec<String>),
}

/// A message as a mathematical value.
pub enum MessageView {
    Tx(TransactionView),
    Block(BlockView),
    GetHeaders,
    Headers(Seq<Seq<char>>),
}

/// An answer as a mathematical value.
pub enum ActionView {
    Ignore,
    RelayTx(TransactionView),
    RelayBlock(BlockView),
    ReplyHeaders(Seq<Seq<char>>),
}

impl View for Message {
    type V = MessageView;

    open spec fn view(&self) -> MessageView {
        match self {
            Message::Tx(tx) => MessageView::Tx(tx@),
            Message::Block(block) => MessageView::Block(block@),
            Message::GetHeaders => MessageView::GetHeaders,
            Message::Headers(hashes) => MessageView::Headers(view_all(hashes@)),
        }
    }
}

impl View for Action {
    type V = ActionView;

    open spec fn view(&self) -> ActionView {
        match self {
            Action::Ignore => ActionView::Ignore,
            Action::RelayTx(tx) => ActionView::RelayTx(tx@),
            Action::RelayBlock(block) => ActionView::RelayBlock(block@),
            Action::ReplyHeaders(hashes) => ActionView::ReplyHeaders(view_all(hashes@)),
        }
    }
}

/// The kind that a tag of the envelope names, if it names one.
pub open spec fn kind_of_tag(tag: Seq<char>) -> Option<MessageKind> {
    if tag == "tx"@ {
        Some(MessageKind::Tx)
    } else if tag == "block"@ {
        Some(MessageKind::Block)
    } else if tag == "getheaders"@ {
        Some(MessageKind::GetHeaders)
    } else if tag == "headers"@ {
        Some(MessageKind::Headers)
    } else {
        None
    }
}

/// The hashes of the blocks, in order.
pub open spec fn block_hashes(blocks: Seq<BlockView>) -> Seq<Seq<char>> {
    Seq::new(blocks.len(), |i: int| blocks[i].hash)
}

/// The ledger after a message, and the answer to it.
///
/// A transaction that the mempool takes is relayed; a block that the ledger
/// accepts is relayed; a request for headers is answered with the hashes of
/// the accepted blocks in the order of acceptance; anything else changes
/// nothing and is not answered.
pub open spec fn reaction(l: LedgerView, m: MessageView) -> (LedgerView, ActionView) {
    match m {
        MessageView::Tx(tx) => if submit_outcome(l.mempool, tx) is Ok {
            (LedgerView { mempool: pool_insert(l.mempool, tx), ..l }, ActionView::RelayTx(tx))
        } else {
            (l, ActionView::Ignore)
        },
        MessageView::Block(b) => if external_verdict(l, b) is Ok {
            (with_block(l, b), ActionView::RelayBlock(b))
        } else {
            (l, ActionView::Ignore)
        },
        MessageView::GetHeaders => (l, ActionView::ReplyHeaders(block_hashes(l.blocks))),
        MessageView::Headers(_) => (l, ActionView::Ignore),
    }
}

/// The peers other than `sender`, in their order.
pub open spec fn others(peers: Seq<u64>, sender: u64) -> Seq<u64>
    decreases peers.len(),
{
    if peers.len() == 0 {
        peers
    } else {
        let kept = others(peers.drop_last(), sender);
        if peers.last() == sender {
            kept
        } else {
            kept.push(peers.last())
        }
    }
}

/// The peers whose position is not among `failed`, in their order.
pub open spec fn surviving(peers: Seq<u64>, failed: Seq<usize>) -> Seq<u64>
    decreases peers.len(),
{
    if peers.len() == 0 {
        peers
    } else {
        let kept = surviving(peers.drop_last(), failed);
        if failed.contains((peers.len() - 1) as usize) {
            kept
        } else {
            kept.push(peers.last())
        }
    }
}

/// Reads the tag of an envelope. A tag that names no kind is refused.
pub fn message_kind(tag: &str) -> (kind: Option<MessageKind>)
    ensures
        kind == kind_of_tag(tag@),
{
    if string_eq(tag, "tx") {
        Some(MessageKind::Tx)
    } else if string_eq(tag, "block") {
        Some(MessageKind::Block)
    } else if string_eq(tag, "getheaders") {
        Some(MessageKind::GetHeaders)
    } else if string_eq(tag, "headers") {
        Some(MessageKind::Headers)
    } else {
        None
    }
}

/// The tag under which a kind of message travels.
pub fn tag_of(kind: MessageKind) -> (tag: &'static str)
    ensures
        kind_of_tag(tag@) == Some(kind),
{
    proof {
        reveal_strlit("tx");
        reveal_strlit("block");
        reveal_strlit("getheaders");
        reveal_strlit("headers");
        assert("tx"@.len() == 2 && "block"@.len() == 5 && "getheaders"@.len() == 10
            && "headers"@.len() == 7);
    }
    match kind {
        MessageKind::Tx => "tx",
        MessageKind::Block => "block",
        MessageKind::GetHeaders => "getheaders",
        MessageKind::Headers => "headers",
    }
}

/// Lets a decoded message act on the ledger and says what is to be sent.
pub fn handle_message(ledger: &mut DagBlockchain, message: Message) -> (action: Action)
    requires
        old(ledger).wf(),
    ensures
        final(ledger).wf(),
        (final(ledger)@, action@) == reaction(old(ledger)@, message@),
        ledger_consistent(old(ledger)@) ==> ledger_consistent(final(ledger)@),
{
    match message {
        Message::Tx(tx) => {
            let copy = tx.clone();
            match ledger.submit_transaction(tx) {
                Ok(()) => Action::RelayTx(copy),
                Err(_) => Action::Ignore,
            }
        },
        Message::Block(block) => {
            let copy = block.clone();
            match ledger.accept_external_block(block) {
                Ok(()) => Action::RelayBlock(copy),
                Err(_) => Action::Ignore,
            }
        },
        Message::GetHeaders => Action::ReplyHeaders(ledger.headers()),
        Message::Headers(_) => Action::Ignore,
    }
}

/// The live connections, each known by a number, in the order in which they
/// were made.
pub struct PeerSet {
    ids: Vec<u64>,
}

impl View for PeerSet {
    type V = Seq<u64>;

    closed spec fn view(&self) -> Seq<u64> {
        self.ids@
    }
}

impl PeerSet {
    /// No connections.
    pub fn new() -> (peers: PeerSet)
        ensures
            peers@ == Seq::<u64>::empty(),
    {
        PeerSet { ids: Vec::new() }
    }

    /// The number of live connections.
    pub fn len(&self) -> (n: usize)
        ensures
            n == self@.len(),
    {
        self.ids.len()
    }

    /// Adds a connection.
    pub fn connect(&mut self, id: u64)
        ensures
            final(self)@ == old(self)@.push(id),
    {
        self.ids.push(id);
    }

    /// All live connections, for a broadcast of the node's own.
    pub fn everyone(&self) -> (targets: Vec<u64>)
        ensures
            targets@ == self@,
    {
        let targets = self.ids.clone();
        assert(targets@ =~= self.ids@);
        targets
    }

    /// The connections to which a message that came from `sender` is
    /// relayed: all but `sender`.
    pub fn relay_targets(&self, sender: u64) -> (targets: Vec<u64>)
        ensures
            targets@ == others(self@, sender),
    {
        let mut targets: Vec<u64> = Vec::new();
        for i in 0..self.ids.len()
            invariant
                targets@ == others(self.ids@.take(i as int), sender),
        {
            proof {
                assert(self.ids@.take(i + 1).drop_last() =~= self.ids@.take(i as int));
            }
            if self.ids[i] != sender {
                targets.push(self.ids[i]);
            }
        }
        assert(self.ids@.take(self.ids@.len() as int) =~= self.ids@);
        targets
    }

    /// Drops, after a broadcast has gone over all connections, those at the
    /// positions where the write failed. The rest keep their order.
    pub fn drop_failed(&mut self, failed: &Vec<usize>)
        ensures
            final(self)@ == surviving(old(self)@, failed@),
    {
        let mut kept: Vec<u64> = Vec::new();
        for i in 0..self.ids.len()
            invariant
                kept@ == surviving(self.ids@.take(i as int), failed@),
        {
            proof {
                assert(self.ids@.take(i + 1).drop_last() =~= self.ids@.take(i as int));
            }
            if !holds_position(failed, i) {
                kept.push(self.ids[i]);
            }
        }
        assert(self.ids@.take(self.ids@.len() as int) =~= self.ids@);
        self.ids = kept;
    }
}

/// Whether `position` is one of `positions`.
fn holds_position(positions: &Vec<usize>, position: usize) -> (found: bool)
    ensures
        found == positions@.contains(position),
{
    for i in 0..positions.len()
        invariant
            forall|j: int| 0 <= j < i ==> positions@[j] != position,
    {
        if positions[i] == position {
            return true;
        }
    }
    false
}

} // verus!
