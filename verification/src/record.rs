//! One measured run of an application: dataset size, nodes, bandwidth share and time.

use vstd::prelude::*;

verus! {

#[derive(Debug, Clone)]
pub struct Record {
    app: String,
    dataset_size: u16,
    number_of_nodes: u16,
    bw: u16,
    time: u16,
}

impl Record {
    pub closed spec fn app_view(&self) -> Seq<char> {
        self.app@
    }

    pub closed spec fn spec_dataset_size(&self) -> u16 {
        self.dataset_size
    }

    pub closed spec fn spec_number_of_nodes(&self) -> u16 {
        self.number_of_nodes
    }

    pub closed spec fn spec_bw(&self) -> u16 {
        self.bw
    }

    pub closed spec fn spec_time(&self) -> u16 {
        self.time
    }

    /// The record of one run.
    pub fn new(app: String, dataset_size: u16, number_of_nodes: u16, bw: u16, time: u16) -> (res: Self)
        ensures
            res.app_view() == app@,
            res.spec_dataset_size() == dataset_size,
            res.spec_number_of_nodes() == number_of_nodes,
            res.spec_bw() == bw,
            res.spec_time() == time,
    {
        Record { app, dataset_size, number_of_nodes, bw, time }
    }

    /// The application measured.
    pub fn name(&self) -> (res: &String)
        ensures
            res@ == self.app_view(),
    {
        &self.app
    }

    /// The size of the data set.
    pub fn dataset_size(&self) -> (res: u16)
        ensures
            res == self.spec_dataset_size(),
    {
        self.dataset_size
    }

    /// The number of nodes the run used.
    pub fn number_of_nodes(&self) -> (res: u16)
        ensures
            res == self.spec_number_of_nodes(),
    {
        self.number_of_nodes
    }

    /// The bandwidth share the run was given.
    pub fn bw(&self) -> (res: u16)
        ensures
            res == self.spec_bw(),
    {
        self.bw
    }

    /// The run's completion time.
    pub fn time(&self) -> (res: u16)
        ensures
            res == self.spec_time(),
    {
        self.time
    }
}

} // verus!
