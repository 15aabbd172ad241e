use saba::connection::Connection;
use saba::node::{NetworkNode, Server, Switch};
use saba::switch;
use saba::switch::NetworkNode as FirstNetworkNode;
use saba::topology::{Topology, TopologyError};

fn two_servers_one_switch() -> Topology {
    let mut topology = Topology::new();
    let s1 = Server::new("s1", "127.0.0.1", vec![1, 2, 3]);
    let s2 = Server::new("s2", "127.0.0.2", vec![1, 2, 3]);
    let switch1 = Switch::new("switch1", "127.0.0.3", 3, vec![1, 2, 3]);
    topology.add_server(s1, vec!["switch1".to_string()]);
    topology.add_server(s2, vec!["switch1".to_string()]);
    topology.add_switch(switch1, vec!["s1".to_string(), "s2".to_string()]);
    topology
}

#[test]
fn topology_test_dfs() {
    let topology = two_servers_one_switch();
    assert!(topology.dfs("s1", "s2").unwrap() == vec!["s1", "switch1", "s2"]);
}

#[test]
fn topology_test_dfs_no_path() {
    let mut topology = Topology::new();
    let s1 = Server::new("s1", "127.0.0.1", vec![1, 2, 3]);
    let s2 = Server::new("s2", "127.0.0.2", vec![1, 2, 3]);
    let switch1 = Switch::new("switch1", "127.0.0.3", 3, vec![1, 2, 3]);
    topology.add_server(s1, vec!["switch1".to_string()]);
    topology.add_server(s2, vec![]);
    topology.add_switch(switch1, vec!["s1".to_string()]);
    assert!(topology.dfs("s1", "s2").is_none());
}

#[test]
fn dfs_from_a_node_to_itself_is_that_node() {
    let topology = two_servers_one_switch();
    assert_eq!(topology.dfs("s1", "s1").unwrap(), vec!["s1".to_string()]);
}

#[test]
fn dfs_takes_the_shortest_route() {
    // a -> b -> c -> d and a -> d: the direct hop wins
    let mut topology = Topology::new();
    topology.add_server(Server::new("a", "1", vec![]), vec!["b".to_string(), "d".to_string()]);
    topology.add_server(Server::new("b", "2", vec![]), vec!["c".to_string()]);
    topology.add_server(Server::new("c", "3", vec![]), vec!["d".to_string()]);
    topology.add_server(Server::new("d", "4", vec![]), vec![]);
    assert_eq!(topology.dfs("a", "d").unwrap(), vec!["a".to_string(), "d".to_string()]);
    assert_eq!(topology.dfs("b", "d").unwrap(), vec!["b".to_string(), "c".to_string(), "d".to_string()]);
    assert!(topology.dfs("d", "a").is_none());
}

#[test]
fn dfs_only_looks_up_the_names_it_takes_from_its_queue() {
    // "x" is no node, but it lies farther from "a" than "b" does
    let mut topology = Topology::new();
    topology.add_server(Server::new("a", "1", vec![]), vec!["b".to_string()]);
    topology.add_server(Server::new("b", "2", vec![]), vec!["x".to_string()]);
    assert_eq!(topology.dfs("a", "b").unwrap(), vec!["a".to_string(), "b".to_string()]);
    assert_eq!(topology.dfs("b", "b").unwrap(), vec!["b".to_string()]);
    // "y" is no node either, but it is queued after "c", so the search never takes it
    topology.add_server(Server::new("a", "1", vec![]), vec!["c".to_string(), "y".to_string()]);
    topology.add_server(Server::new("c", "3", vec![]), vec![]);
    assert_eq!(topology.dfs("a", "c").unwrap(), vec!["a".to_string(), "c".to_string()]);
}

#[test]
fn dfs_prefers_the_neighbour_listed_first() {
    // two routes of equal length from "a" to "d"; "c" is listed before "b"
    let mut topology = Topology::new();
    topology.add_server(Server::new("a", "1", vec![]), vec!["c".to_string(), "b".to_string()]);
    topology.add_server(Server::new("b", "2", vec![]), vec!["d".to_string()]);
    topology.add_server(Server::new("c", "3", vec![]), vec!["d".to_string()]);
    topology.add_server(Server::new("d", "4", vec![]), vec![]);
    assert_eq!(
        topology.dfs("a", "d").unwrap(),
        vec!["a".to_string(), "c".to_string(), "d".to_string()]
    );
}

#[test]
fn adding_a_node_again_replaces_it() {
    let mut topology = Topology::new();
    topology.add_server(Server::new("a", "1", vec![]), vec!["b".to_string()]);
    topology.add_server(Server::new("b", "2", vec![]), vec![]);
    topology.add_server(Server::new("a", "1", vec![]), vec![]);
    assert!(topology.dfs("a", "b").is_none());
}

#[test]
fn parses_a_topology_description() {
    let text = "switch1, 10.0.0.1, switch, 4, 1 2 3, server1 switch2\n\
                server1,10.0.0.2,server,5 6,switch1\r\n\
                \n\
                switch2, 10.0.0.3, switch, 2, , switch1 server2\n\
                server2, 10.0.0.4, server, 7, switch2\n";
    let topology = Topology::from_description(text).unwrap();
    assert_eq!(
        topology.dfs("server1", "server2").unwrap(),
        vec!["server1", "switch1", "switch2", "server2"]
    );
    assert_eq!(topology.dfs("switch1", "server1").unwrap(), vec!["switch1", "server1"]);
}

#[test]
fn topology_description_errors() {
    assert_eq!(Topology::from_description(", 1.2.3.4, server").unwrap_err(), TopologyError::MissingNodeName);
    assert_eq!(Topology::from_description("a").unwrap_err(), TopologyError::MissingNodeIp);
    assert_eq!(Topology::from_description("a, 1.2.3.4").unwrap_err(), TopologyError::MissingNodeType);
    assert_eq!(Topology::from_description("a, 1.2.3.4, switch").unwrap_err(), TopologyError::MissingPortCount);
    assert_eq!(Topology::from_description("a, 1.2.3.4, switch, x").unwrap_err(), TopologyError::InvalidPortCount);
    assert_eq!(Topology::from_description("a, 1.2.3.4, switch, 70000").unwrap_err(), TopologyError::InvalidPortCount);
    assert_eq!(
        Topology::from_description("a, 1.2.3.4, server, 1 x2 3").unwrap_err(),
        TopologyError::InvalidWeight("x2".to_string())
    );
    // the first bad line is the one reported
    assert_eq!(
        Topology::from_description("a, 1, server\nb\nc, 2").unwrap_err(),
        TopologyError::MissingNodeIp
    );
    assert!(Topology::from_description("").is_ok());
}

#[test]
fn parses_weights_and_neighbours() {
    assert_eq!(Topology::parse_weights(" 1  +2 65535 ").unwrap(), vec![1, 2, 65535]);
    assert_eq!(Topology::parse_weights("1 65536").unwrap_err(), "65536".to_string());
    assert_eq!(Topology::parse_weights("-1").unwrap_err(), "-1".to_string());
    assert_eq!(Topology::parse_weights("").unwrap(), Vec::<u16>::new());
    assert_eq!(Topology::parse_adjacent(" a  b\tc "), vec!["a", "b", "c"]);
}

#[test]
fn test_server() {
    let server = Server::new("server1", "127.0.0.1", vec![1, 2, 3]);
    assert_eq!(server.name(), "server1");
    assert_eq!(server.ip(), "127.0.0.1");
    assert_eq!(server.weights(), vec![1, 2, 3]);
}

#[test]
fn test_switch() {
    let switch = Switch::new("switch1", "127.0.0.1", 4, vec![1, 2, 3]);
    assert_eq!(switch.name(), "switch1");
    assert_eq!(switch.ip(), "127.0.0.1");
    assert_eq!(switch.weights(), vec![1, 2, 3]);
}

#[test]
fn first_generation_nodes_report_name_and_address() {
    let server = switch::Server::new("s".to_string(), "10.0.0.1".to_string());
    assert_eq!(server.get_name(), "s");
    assert_eq!(server.get_ip(), "10.0.0.1");
    let sw = switch::Switch::new("w".to_string(), "10.0.0.2".to_string(), 8, vec![4]);
    assert_eq!(sw.get_name(), "w");
    assert_eq!(sw.get_ip(), "10.0.0.2");
    assert_eq!(sw.number_of_ports, 8);
}

#[test]
fn test_connection() {
    let connection = Connection::new("a".to_string(), "b".to_string());
    assert_eq!(connection.src, "a");
    assert_eq!(connection.dst, "b");
}

#[test]
fn test_connection_eq() {
    let connection1 = Connection::new("a".to_string(), "b".to_string());
    let connection2 = Connection::new("a".to_string(), "b".to_string());
    assert_eq!(connection1, connection2);
}

#[test]
fn test_connection_neq() {
    let connection1 = Connection::new("a".to_string(), "b".to_string());
    let connection2 = Connection::new("a".to_string(), "c".to_string());
    assert_ne!(connection1, connection2);
    assert!(!connection1.same_as(&connection2));
}

#[test]
fn first_generation_topology_format() {
    let topology = Topology::from_first_generation_description(
        "sw, 10.0.0.1, switch, 3, 1 2, s1 s2\n\na, 10.0.0.2, server, 4, sw extra\n",
    )
    .unwrap();
    let mut lists = topology.adjacency_lists();
    lists.sort();
    assert_eq!(
        lists,
        vec![
            ("a".to_string(), vec!["sw extra".to_string()]),
            ("sw".to_string(), vec!["".to_string(), "s1".to_string(), "s2".to_string()]),
        ]
    );
}

#[test]
fn first_generation_topology_errors() {
    assert_eq!(
        Topology::from_first_generation_description("a, 1.2.3.4").unwrap_err(),
        TopologyError::MissingField
    );
    assert_eq!(
        Topology::from_first_generation_description("a, 1.2.3.4, server, 1").unwrap_err(),
        TopologyError::MissingField
    );
    assert_eq!(
        Topology::from_first_generation_description("a, 1.2.3.4, server, 1  2, sw").unwrap_err(),
        TopologyError::InvalidWeight("".to_string())
    );
    assert_eq!(
        Topology::from_first_generation_description("sw, 1.2.3.4, switch, x, 1, a").unwrap_err(),
        TopologyError::InvalidPortCount
    );
    assert_eq!(
        Topology::from_first_generation_description("sw, 1.2.3.4, switch, 2, 1 2").unwrap_err(),
        TopologyError::MissingField
    );
    // the current format reads the same server line with two neighbours
    let current = Topology::from_description("a, 1.2.3.4, server, 1 2, s1 s2").unwrap();
    assert_eq!(current.adjacency_lists()[0].1, vec!["s1".to_string(), "s2".to_string()]);
    let first = Topology::from_first_generation_description("a, 1.2.3.4, server, 1 2, s1 s2").unwrap();
    assert_eq!(first.adjacency_lists()[0].1, vec!["s1 s2".to_string()]);
}
