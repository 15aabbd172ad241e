//! The first-generation node descriptions: a name and an address per node.

use vstd::prelude::*;

verus! {

/// A node of the network as the first controller saw it.
pub trait NetworkNode {
    spec fn node_name(&self) -> Seq<char>;

    spec fn node_ip(&self) -> Seq<char>;

    fn get_name(&self) -> (res: String)
        ensures
            res@ == self.node_name(),
    ;

    fn get_ip(&self) -> (res: String)
        ensures
            res@ == self.node_ip(),
    ;
}

/// A server, by name and address.
#[derive(Debug)]
pub struct Server {
    pub name: String,
    pub ip: String,
}

impl Server {
    pub fn new(name: String, ip: String) -> (res: Server)
        ensures
            res.name == name,
            res.ip == ip,
    {
        Server { name, ip }
    }
}

impl NetworkNode for Server {
    open spec fn node_name(&self) -> Seq<char> {
        self.name@
    }

    open spec fn node_ip(&self) -> Seq<char> {
        self.ip@
    }

    fn get_name(&self) -> (res: String) {
        self.name.clone()
    }

    fn get_ip(&self) -> (res: String) {
        self.ip.clone()
    }
}

/// A switch, by name and address, with its port count and queue weights.
#[derive(Debug)]
pub struct Switch {
    pub name: String,
    pub ip: String,
    pub number_of_ports: u16,
    pub weights: Vec<u16>,
}

impl Switch {
    pub fn new(name: String, ip: String, number_of_ports: u16, weights: Vec<u16>) -> (res: Switch)
        ensures
            res.name == name,
            res.ip == ip,
            res.number_of_ports == number_of_ports,
            res.weights == weights,
    {
        Switch { name, ip, number_of_ports, weights }
    }
}

impl NetworkNode for Switch {
    open spec fn node_name(&self) -> Seq<char> {
        self.name@
    }

    open spec fn node_ip(&self) -> Seq<char> {
        self.ip@
    }

    fn get_name(&self) -> (res: String) {
        self.name.clone()
    }

    fn get_ip(&self) -> (res: String) {
        self.ip.clone()
    }
}

} // verus!
