use std::collections::HashMap;
use vstd::prelude::*;
use vstd::std_specs::iter::IteratorSpec;

pub mod request;

use self::request::{Code, Request, UnknownRequest};

verus! {

/// Process id.
pub type Pid = u32;

/// Name of the process status server, relative to the shell's own addresses.
pub const UDS_STATUS_SERVER: &'static str = "uds-status";

/// Largest datagram the status server and its watchers exchange.
pub const UNIX_DATAGRAM_BUF: usize = 2048;

/// Events that reach the process channel server.
pub enum Message<A> {
    /// A watcher at this address wants process news.
    NewClient(A),
    /// The watcher with this id is gone.
    RemoveClient(u64),
    /// A process started running this executable.
    NewProcess { id: Pid, exe: String },
    /// A process finished.
    ProcessFinished(Pid),
}

/// News that goes out to watchers.
pub enum Payload {
    /// The foreground process and its executable.
    Process { id: Pid, exe: String },
    /// No process is running any more.
    NoProcess,
}

/// News to send to each of the listed watchers.
pub struct Broadcast {
    pub payload: Payload,
    pub clients: Vec<u64>,
}

/// State of the process channel server: the watchers, each under an id, the next id
/// to hand out, and the process last reported started.
pub struct ChannelServer<A> {
    next_client_id: u64,
    clients: HashMap<u64, A>,
    current_pid: Option<Pid>,
}

/// `ids` lists every id of `clients` once.
pub open spec fn lists_each_once<A>(ids: Seq<u64>, clients: Map<u64, A>) -> bool {
    ids.no_duplicates() && ids.to_set() == clients.dom()
}

/// The process that is current after `message`, when `current` was before.
pub open spec fn pid_after<A>(current: Option<Pid>, message: Message<A>) -> Option<Pid> {
    match message {
        Message::NewProcess { id, exe: _ } => Some(id),
        Message::ProcessFinished(pid) => if current == Some(pid) { None } else { current },
        _ => current,
    }
}

/// Whether `message`, arriving when `current` is the current process, sends news out.
pub open spec fn announces<A>(current: Option<Pid>, message: Message<A>) -> bool {
    match message {
        Message::NewProcess { .. } => true,
        Message::ProcessFinished(pid) => current == Some(pid),
        _ => false,
    }
}

/// One event applied to a channel server's state: its watchers, the next id to hand out,
/// and the current process.
pub open spec fn server_step<A>(
    clients: Map<u64, A>,
    next: nat,
    current: Option<Pid>,
    message: Message<A>,
) -> (Map<u64, A>, nat, Option<Pid>) {
    match message {
        Message::NewClient(a) => (clients.insert(next as u64, a), next + 1, current),
        Message::RemoveClient(id) => (clients.remove(id), next, current),
        _ => (clients, next, pid_after(current, message)),
    }
}

/// The state of a new channel server after `messages`, in order.
pub open spec fn run_messages<A>(messages: Seq<Message<A>>) -> (Map<u64, A>, nat, Option<Pid>)
    decreases messages.len(),
{
    if messages.len() == 0 {
        (Map::empty(), 0, None)
    } else {
        let before = run_messages(messages.drop_last());
        server_step(before.0, before.1, before.2, messages.last())
    }
}

/// How many of `messages` register a watcher.
pub open spec fn new_clients_in<A>(messages: Seq<Message<A>>) -> nat
    decreases messages.len(),
{
    if messages.len() == 0 {
        0
    } else {
        new_clients_in(messages.drop_last()) + if messages.last() is NewClient { 1nat } else { 0nat }
    }
}

impl<A> ChannelServer<A> {
    /// Registered watchers by id.
    pub closed spec fn clients(&self) -> Map<u64, A> {
        self.clients@
    }

    /// The id that the next watcher gets.
    pub closed spec fn next_id(&self) -> u64 {
        self.next_client_id
    }

    /// The process last reported started and not yet finished.
    pub closed spec fn current_pid(&self) -> Option<Pid> {
        self.current_pid
    }

    /// Every registered id is below the next id to hand out, so ids are never reused.
    pub closed spec fn well_formed(&self) -> bool {
        forall|id: u64| #[trigger] self.clients@.contains_key(id) ==> id < self.next_client_id
    }

    /// A server with no watchers and no process.
    pub fn new() -> (s: Self)
        ensures
            s.well_formed(),
            s.clients() == Map::<u64, A>::empty(),
            s.next_id() == 0,
            s.current_pid() is None,
    {
        ChannelServer { next_client_id: 0, clients: HashMap::with_capacity(3), current_pid: None }
    }

    /// The id that the next watcher gets.
    pub fn next_client_id(&self) -> (id: u64)
        ensures
            id == self.next_id(),
    {
        self.next_client_id
    }

    /// Address of the watcher with id `id`.
    pub fn address(&self, id: u64) -> (a: Option<&A>)
        ensures
            match a {
                Some(a) => self.clients().contains_key(id) && *a == self.clients()[id],
                None => !self.clients().contains_key(id),
            },
    {
        self.clients.get(&id)
    }

    fn client_ids(&self) -> (ids: Vec<u64>)
        ensures
            lists_each_once(ids@, self.clients@),
    {
        let mut ids: Vec<u64> = Vec::new();
        for id in it: self.clients.keys()
            invariant
                it.seq().unref().to_set() == self.clients@.dom(),
                it.seq().no_duplicates(),
                ids@ == it.seq().unref().subrange(0, it.index()),
                it.index() == it.seq().len() ==> ids@ =~= it.seq().unref() && lists_each_once(
                    it.seq().unref(),
                    self.clients@,
                ),
        {
            ids.push(*id);
            assert(ids@ =~= it.seq().unref().subrange(0, it.index() + 1));
            assert(it.index() + 1 == it.seq().len() ==> ids@ =~= it.seq().unref());
        }
        ids
    }

    /// Applies one event, and returns the news to send, if any.
    pub fn handle(&mut self, message: Message<A>) -> (b: Option<Broadcast>)
        requires
            old(self).well_formed(),
            message is NewClient ==> old(self).next_id() < u64::MAX,
        ensures
            final(self).well_formed(),
            final(self).current_pid() == pid_after(old(self).current_pid(), message),
            (final(self).clients(), final(self).next_id() as nat, final(self).current_pid()) == server_step(
                old(self).clients(),
                old(self).next_id() as nat,
                old(self).current_pid(),
                message,
            ),
            b is Some <==> announces(old(self).current_pid(), message),
            match message {
                Message::NewClient(a) => {
                    &&& final(self).clients() == old(self).clients().insert(old(self).next_id(), a)
                    &&& final(self).next_id() == old(self).next_id() + 1
                    &&& final(self).current_pid() == old(self).current_pid()
                    &&& b is None
                },
                Message::RemoveClient(id) => {
                    &&& final(self).clients() == old(self).clients().remove(id)
                    &&& final(self).next_id() == old(self).next_id()
                    &&& final(self).current_pid() == old(self).current_pid()
                    &&& b is None
                },
                Message::NewProcess { id, exe } => {
                    &&& final(self).clients() == old(self).clients()
                    &&& final(self).next_id() == old(self).next_id()
                    &&& final(self).current_pid() == Some(id)
                    &&& b matches Some(b) && b.payload matches Payload::Process { id: i, exe: e }
                        && i == id && e@ == exe@ && lists_each_once(b.clients@, old(self).clients())
                },
                Message::ProcessFinished(pid) => {
                    &&& final(self).clients() == old(self).clients()
                    &&& final(self).next_id() == old(self).next_id()
                    &&& if old(self).current_pid() == Some(pid) {
                        &&& final(self).current_pid() is None
                        &&& b matches Some(b) && b.payload is NoProcess
                            && lists_each_once(b.clients@, old(self).clients())
                    } else {
                        &&& final(self).current_pid() == old(self).current_pid()
                        &&& b is None
                    }
                },
            },
    {
        match message {
            Message::NewClient(address) => {
                self.clients.insert(self.next_client_id, address);
                self.next_client_id = self.next_client_id + 1;
                None
            },
            Message::RemoveClient(id) => {
                let _ = self.clients.remove(&id);
                None
            },
            Message::NewProcess { id, exe } => {
                self.current_pid = Some(id);
                let clients = self.client_ids();
                Some(Broadcast { payload: Payload::Process { id, exe }, clients })
            },
            Message::ProcessFinished(pid) => {
                if self.current_pid == Some(pid) {
                    self.current_pid = None;
                    let clients = self.client_ids();
                    Some(Broadcast { payload: Payload::NoProcess, clients })
                } else {
                    None
                }
            },
        }
    }
}

/// The event that a datagram to the status server stands for, once its request `code`
/// and, for a report, its two data items (the process id and the executable, each
/// `None` where it did not convert; `report` is `None` where the data was not a pair)
/// have been read: a report of a new process, a watcher at `client`, or nothing for a
/// malformed report; an error for an unknown code.
pub fn status_request_message<A>(
    code: Code,
    report: Option<(Option<Pid>, Option<String>)>,
    client: A,
) -> (r: Result<Option<Message<A>>, UnknownRequest>)
    ensures
        match request::request_of_code(code) {
            None => r matches Err(e) && e.code == code,
            Some(Request::ReportNewProcess) => r matches Ok(m) && match report {
                Some((Some(id), Some(exe))) => m matches Some(Message::NewProcess { id: i, exe: e })
                    && i == id && e@ == exe@,
                _ => m is None,
            },
            Some(Request::WatchForProcesses) => r matches Ok(Some(Message::NewClient(a))) && a == client,
        },
{
    let request = Request::try_from(code)?;
    match request {
        Request::ReportNewProcess => match report {
            Some((Some(id), Some(exe))) => Ok(Some(Message::NewProcess { id, exe })),
            _ => Ok(None),
        },
        Request::WatchForProcesses => Ok(Some(Message::NewClient(client))),
    }
}

/// Law: once a process has been reported started, its end is announced, and then no
/// process is current.
pub proof fn law_finish_after_start_is_announced<A>(current: Option<Pid>, id: Pid, exe: String)
    ensures
        ({
            let started = pid_after(current, Message::<A>::NewProcess { id, exe });
            &&& announces(started, Message::<A>::ProcessFinished(id))
            &&& pid_after(started, Message::<A>::ProcessFinished(id)) is None
        }),
{
}

/// Law: the end of a process that is not the current one changes nothing and is not
/// announced.
pub proof fn law_stale_finish_is_ignored<A>(current: Option<Pid>, pid: Pid)
    requires
        current != Some(pid),
    ensures
        !announces(current, Message::<A>::ProcessFinished(pid)),
        pid_after(current, Message::<A>::ProcessFinished(pid)) == current,
{
}


/// Law: after a stream of events, a new channel server has handed out exactly as many ids
/// as there were watchers registering, and every registered id is below that count, so
/// no id is given twice.
pub proof fn law_ids_count_new_clients<A>(messages: Seq<Message<A>>)
    ensures
        run_messages(messages).1 == new_clients_in(messages),
        forall|id: u64| #[trigger] run_messages(messages).0.contains_key(id) ==> id < new_clients_in(messages),
    decreases messages.len(),
{
    if messages.len() > 0 {
        law_ids_count_new_clients(messages.drop_last());
        let before = run_messages(messages.drop_last());
        if messages.last() is NewClient {
            assert forall|id: u64| #[trigger] run_messages(messages).0.contains_key(id) implies id < new_clients_in(messages) by {
                if id != before.1 as u64 {
                    assert(before.0.contains_key(id));
                } else {
                    assert(id <= before.1);
                }
            }
        }
    }
}

/// Law: the `k`-th watcher to register (counting from zero) is registered under id `k`,
/// next to the watchers already there.
pub proof fn law_kth_new_client_gets_id_k<A>(messages: Seq<Message<A>>, i: int)
    requires
        0 <= i < messages.len(),
        messages[i] is NewClient,
        new_clients_in(messages.take(i)) < u64::MAX,
    ensures
        run_messages(messages.take(i + 1)).0 == run_messages(messages.take(i)).0.insert(
            new_clients_in(messages.take(i)) as u64,
            messages[i]->NewClient_0,
        ),
        run_messages(messages.take(i + 1)).1 == new_clients_in(messages.take(i)) + 1,
{
    law_ids_count_new_clients(messages.take(i));
    assert(messages.take(i + 1).drop_last() =~= messages.take(i));
    assert(messages.take(i + 1).last() == messages[i]);
}

/// Law: only registering and leaving change the watchers: leaving removes that id alone,
/// neither of the two sends news, and process events leave the watchers as they are.
pub proof fn law_only_client_events_change_clients<A>(
    clients: Map<u64, A>,
    next: nat,
    current: Option<Pid>,
    message: Message<A>,
)
    ensures
        message matches Message::RemoveClient(id) ==> server_step(clients, next, current, message).0
            == clients.remove(id),
        (message is NewClient || message is RemoveClient) ==> !announces(current, message),
        (message is NewProcess || message is ProcessFinished) ==> server_step(clients, next, current, message).0
            == clients && server_step(clients, next, current, message).1 == next,
{
}
} // verus!
