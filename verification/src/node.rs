//! Network nodes known to the controller: servers and switches.

use vstd::prelude::*;

verus! {

/// The copy of a vector of port weights.
pub fn copy_weights(w: &Vec<u16>) -> (res: Vec<u16>)
    ensures
        res@ == w@,
{
    let mut res: Vec<u16> = Vec::new();
    for i in 0..w.len()
        invariant
            res@ == w@.take(i as int),
    {
        res.push(w[i]);
    }
    res
}

/// A node of the cluster network, identified by its name.
pub trait NetworkNode {
    spec fn node_name(&self) -> Seq<char>;

    spec fn node_ip(&self) -> Seq<char>;

    spec fn node_weights(&self) -> Seq<u16>;

    fn name(&self) -> (res: String)
        ensures
            res@ == self.node_name(),
    ;

    fn ip(&self) -> (res: String)
        ensures
            res@ == self.node_ip(),
    ;

    fn weights(&self) -> (res: Vec<u16>)
        ensures
            res@ == self.node_weights(),
    ;
}

/// A server attached to the network.
#[derive(Debug)]
pub struct Server {
    pub name: String,
    pub ip: String,
    pub weights: Vec<u16>,
}

impl Server {
    pub fn new(name: &str, ip: &str, weights: Vec<u16>) -> (res: Server)
        ensures
            res.name@ == name@,
            res.ip@ == ip@,
            res.weights@ == weights@,
    {
        Server { name: name.to_owned(), ip: ip.to_owned(), weights }
    }
}

impl NetworkNode for Server {
    open spec fn node_name(&self) -> Seq<char> {
        self.name@
    }

    open spec fn node_ip(&self) -> Seq<char> {
        self.ip@
    }

    open spec fn node_weights(&self) -> Seq<u16> {
        self.weights@
    }

    fn name(&self) -> (res: String) {
        self.name.clone()
    }

    fn ip(&self) -> (res: String) {
        self.ip.clone()
    }

    fn weights(&self) -> (res: Vec<u16>) {
        copy_weights(&self.weights)
    }
}

/// A switch with a number of ports and a weight per queue.
#[derive(Debug)]
pub struct Switch {
    pub name: String,
    pub ip: String,
    pub number_of_ports: u16,
    pub weights: Vec<u16>,
}

impl Switch {
    pub fn new(name: &str, ip: &str, number_of_ports: u16, weights: Vec<u16>) -> (res: Switch)
        ensures
            res.name@ == name@,
            res.ip@ == ip@,
            res.number_of_ports == number_of_ports,
            res.weights@ == weights@,
    {
        Switch { name: name.to_owned(), ip: ip.to_owned(), number_of_ports, weights }
    }
}

impl NetworkNode for Switch {
    open spec fn node_name(&self) -> Seq<char> {
        self.name@
    }

    open spec fn node_ip(&self) -> Seq<char> {
        self.ip@
    }

    open spec fn node_weights(&self) -> Seq<u16> {
        self.weights@
    }

    fn name(&self) -> (res: String) {
        self.name.clone()
    }

    fn ip(&self) -> (res: String) {
        self.ip.clone()
    }

    fn weights(&self) -> (res: Vec<u16>) {
        copy_weights(&self.weights)
    }
}

} // verus!
