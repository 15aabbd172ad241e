//! Profile records as the controller reads them, with bandwidth shares in fixed steps.

use vstd::prelude::*;

verus! {

/// The bandwidth shares a profile run can be given.
#[derive(Debug, Clone, Copy)]
pub enum BandwidthValuePercent {
    Five,
    Ten,
    TwentyFive,
    Fifty,
    SeventyFive,
    Ninety,
    Hundred,
}

impl BandwidthValuePercent {
    pub open spec fn percent(&self) -> u8 {
        match self {
            BandwidthValuePercent::Five => 5,
            BandwidthValuePercent::Ten => 10,
            BandwidthValuePercent::TwentyFive => 25,
            BandwidthValuePercent::Fifty => 50,
            BandwidthValuePercent::SeventyFive => 75,
            BandwidthValuePercent::Ninety => 90,
            BandwidthValuePercent::Hundred => 100,
        }
    }

    /// The share in percent.
    pub fn value(&self) -> (res: u8)
        ensures
            res == self.percent(),
    {
        match self {
            BandwidthValuePercent::Five => 5,
            BandwidthValuePercent::Ten => 10,
            BandwidthValuePercent::TwentyFive => 25,
            BandwidthValuePercent::Fifty => 50,
            BandwidthValuePercent::SeventyFive => 75,
            BandwidthValuePercent::Ninety => 90,
            BandwidthValuePercent::Hundred => 100,
        }
    }
}

impl PartialEq for BandwidthValuePercent {
    fn eq(&self, other: &Self) -> (res: bool) {
        self.value() == other.value()
    }
}

impl vstd::std_specs::cmp::PartialEqSpecImpl for BandwidthValuePercent {
    open spec fn obeys_eq_spec() -> bool {
        true
    }

    open spec fn eq_spec(&self, other: &Self) -> bool {
        self.percent() == other.percent()
    }
}

impl Eq for BandwidthValuePercent {

}

/// Two shares are equal exactly when they are the same step.
pub proof fn law_bandwidth_equality_is_identity(a: BandwidthValuePercent, b: BandwidthValuePercent)
    ensures
        a.percent() == b.percent() <==> a == b,
{
}

/// One profiled run, as the controller reads it.
#[derive(Debug, Clone)]
pub struct ProfileRecord {
    app: String,
    dataset_size: u16,
    number_of_nodes: u16,
    bw: BandwidthValuePercent,
    time: u16,
}

impl ProfileRecord {
    pub closed spec fn app_view(&self) -> Seq<char> {
        self.app@
    }

    pub closed spec fn spec_dataset_size(&self) -> u16 {
        self.dataset_size
    }

    pub closed spec fn spec_number_of_nodes(&self) -> u16 {
        self.number_of_nodes
    }

    pub closed spec fn spec_bw(&self) -> BandwidthValuePercent {
        self.bw
    }

    pub closed spec fn spec_time(&self) -> u16 {
        self.time
    }

    /// The record of one run.
    pub fn new(
        app: String,
        dataset_size: u16,
        number_of_nodes: u16,
        bw: BandwidthValuePercent,
        time: u16,
    ) -> (res: Self)
        ensures
            res.app_view() == app@,
            res.spec_dataset_size() == dataset_size,
            res.spec_number_of_nodes() == number_of_nodes,
            res.spec_bw() == bw,
            res.spec_time() == time,
    {
        ProfileRecord { app, dataset_size, number_of_nodes, bw, time }
    }

    /// The application measured.
    pub fn name(&self) -> (res: &String)
        ensures
            res@ == self.app_view(),
    {
        &self.app
    }

    /// The size of the data set.
    pub fn dataset_size(&self) -> (res: u16)
        ensures
            res == self.spec_dataset_size(),
    {
        self.dataset_size
    }

    /// The number of nodes the run used.
    pub fn number_of_nodes(&self) -> (res: u16)
        ensures
            res == self.spec_number_of_nodes(),
    {
        self.number_of_nodes
    }

    /// The bandwidth share the run was given.
    pub fn bw(&self) -> (res: &BandwidthValuePercent)
        ensures
            *res == self.spec_bw(),
    {
        &self.bw
    }

    /// The run's completion time.
    pub fn time(&self) -> (res: u16)
        ensures
            res == self.spec_time(),
    {
        self.time
    }
}

} // verus!
