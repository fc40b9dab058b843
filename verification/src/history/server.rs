use vstd::prelude::*;

verus! {

/// The shell's history servers, each listening on a socket of its own.
#[derive(Debug, Clone, Copy, PartialEq, Eq, Structural, Hash, PartialOrd, Ord)]
pub enum Server {
    /// Hands out the command history.
    HistoryProvider,
    /// Replaces the command history.
    HistoryManager,
    /// Hands out the directory history of `cd`.
    CdHistoryProvider,
    /// Replaces the directory history of `cd`.
    CdHistoryManager,
}

/// The socket id of a server.
pub open spec fn server_id(server: Server) -> Seq<char> {
    match server {
        Server::HistoryProvider => "history-provider"@,
        Server::HistoryManager => "history-manager"@,
        Server::CdHistoryProvider => "cd-history-provider"@,
        Server::CdHistoryManager => "cd-history-manager"@,
    }
}

/// The servers that the shell starts with its history, in the order it starts them.
pub open spec fn started_servers() -> Seq<Server> {
    seq![Server::HistoryProvider, Server::HistoryManager, Server::CdHistoryProvider]
}

impl Server {
    /// The socket id of this server.
    pub fn id(&self) -> (id: &'static str)
        ensures
            id@ == server_id(*self),
    {
        match self {
            Server::HistoryProvider => "history-provider",
            Server::HistoryManager => "history-manager",
            Server::CdHistoryProvider => "cd-history-provider",
            Server::CdHistoryManager => "cd-history-manager",
        }
    }
}

/// The servers that the shell starts with its history, in the order it starts them.
pub fn servers_to_start() -> (servers: [Server; 3])
    ensures
        servers@ == started_servers(),
{
    let servers = [Server::HistoryProvider, Server::HistoryManager, Server::CdHistoryProvider];
    assert(servers@ =~= started_servers());
    servers
}

/// Law: no two servers share a socket id.
pub proof fn law_server_ids_are_distinct(a: Server, b: Server)
    requires
        a != b,
    ensures
        server_id(a) != server_id(b),
{
    reveal_strlit("history-provider");
    reveal_strlit("history-manager");
    reveal_strlit("cd-history-provider");
    reveal_strlit("cd-history-manager");
    assert(server_id(a).len() != server_id(b).len());
}

} // verus!
