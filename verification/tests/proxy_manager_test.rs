use undermoon::resp::{BulkStr, Resp};
use undermoon::command::{new_command_task, Command};
use undermoon::router::{ClusterName, CmdCtx, MetaManager, ProxyClusterMeta};

const TEST_CLUSTER: &str = "test_cluster";

fn gen_testing_manager() -> MetaManager {
    MetaManager::new()
}

fn gen_set_command() -> (CmdCtx, undermoon::command::CmdReplyReceiver) {
    let cluster_name = ClusterName::new(TEST_CLUSTER.as_bytes().to_vec()).unwrap();
    let resp = Resp::Arr(vec![
        Resp::Bulk(BulkStr::Str(b"SET".to_vec())),
        Resp::Bulk(BulkStr::Str(b"key".to_vec())),
        Resp::Bulk(BulkStr::Str(b"value".to_vec())),
    ]);
    let command = Command::new(resp);
    let (s, r) = new_command_task(command);
    let cmd_ctx = CmdCtx::new(cluster_name, s, 233);
    (cmd_ctx, r)
}

fn gen_proxy_cluster_meta() -> ProxyClusterMeta {
    let tokens: Vec<Vec<u8>> = "1 NOFLAGS test_cluster 127.0.0.1:6379 1 0-16383"
        .split(' ')
        .map(|s| s.as_bytes().to_vec())
        .collect();
    ProxyClusterMeta::parse(&tokens).unwrap()
}

#[test]
fn test_cluster_not_found() {
    let manager = gen_testing_manager();
    let (cmd_ctx, reply_receiver) = gen_set_command();

    let forwarded = manager.send(cmd_ctx);
    assert!(forwarded.is_none());

    let result = reply_receiver.wait_response();
    assert!(result.is_ok());
    let err = match result.unwrap() {
        Resp::Error(err_str) => err_str,
        other => panic!("unexpected pattern {:?}", other),
    };
    let err_str = std::str::from_utf8(&err).unwrap();
    assert!(err_str.starts_with("ERR cluster not found"));
}

#[test]
fn test_data_command() {
    let meta = gen_proxy_cluster_meta();
    let mut manager = gen_testing_manager();

    manager.set_meta(meta).unwrap();

    let (cmd_ctx, reply_receiver) = gen_set_command();
    let task = match manager.send(cmd_ctx) {
        Some(task) => task,
        None => panic!("unexpected pattern {:?}", "no forward task"),
    };
    assert_eq!(task.addr, b"127.0.0.1:6379".to_vec());

    // The backend collaborator answers the forwarded command.
    task.cmd_ctx.sender.send(Ok(Resp::Simple(b"OK".to_vec()))).unwrap();

    let result = reply_receiver.wait_response();
    let s = match result {
        Ok(Resp::Simple(s)) => s,
        other => panic!("unexpected pattern {:?}", other),
    };
    assert_eq!(s, b"OK".to_vec());
}
