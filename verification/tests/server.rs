use stupid_fish::history::server::{servers_to_start, Server};

#[test]
fn server_ids() {
    assert_eq!(Server::HistoryProvider.id(), "history-provider");
    assert_eq!(Server::HistoryManager.id(), "history-manager");
    assert_eq!(Server::CdHistoryProvider.id(), "cd-history-provider");
    assert_eq!(Server::CdHistoryManager.id(), "cd-history-manager");
}

#[test]
fn started_servers_leave_out_the_cd_history_manager() {
    assert_eq!(
        servers_to_start(),
        [Server::HistoryProvider, Server::HistoryManager, Server::CdHistoryProvider]
    );
}

#[test]
fn server_ids_are_distinct() {
    let all = [
        Server::HistoryProvider,
        Server::HistoryManager,
        Server::CdHistoryProvider,
        Server::CdHistoryManager,
    ];
    for a in all {
        for b in all {
            assert_eq!(a == b, a.id() == b.id());
        }
    }
}
