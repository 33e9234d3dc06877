//! Sets of devices.
use vstd::prelude::*;

verus! {

/// A set of devices, each an interface index and a hardware address.
#[verifier::external_body]
pub struct DeviceSet {
    inner: rustc_hash::FxHashSet<(u32, [u8; 6])>,
}

/// The devices that a set holds.
pub uninterp spec fn device_keys(s: DeviceSet) -> Set<(u32, Seq<u8>)>;

impl View for DeviceSet {
    type V = Set<(u32, Seq<u8>)>;

    open spec fn view(&self) -> Set<(u32, Seq<u8>)> {
        device_keys(*self)
    }
}

impl DeviceSet {
    /// `rustc_hash::FxHashSet::default`: the set that holds nothing.
    #[verifier::external_body]
    pub(crate) fn empty() -> (r: Self)
        ensures
            device_keys(r) == Set::<(u32, Seq<u8>)>::empty(),
    {
        DeviceSet { inner: rustc_hash::FxHashSet::default() }
    }

    /// `rustc_hash::FxHashSet::insert`: afterwards the set holds the device too, and
    /// nothing else that it did not hold.
    #[verifier::external_body]
    pub(crate) fn insert(&mut self, ifindex: u32, mac: [u8; 6])
        ensures
            device_keys(*final(self)) == device_keys(*old(self)).insert((ifindex, mac@)),
    {
        self.inner.insert((ifindex, mac));
    }

    /// `rustc_hash::FxHashSet::remove`: afterwards the set does not hold the device, and
    /// holds everything else that it held.
    #[verifier::external_body]
    pub(crate) fn remove(&mut self, ifindex: u32, mac: [u8; 6])
        ensures
            device_keys(*final(self)) == device_keys(*old(self)).remove((ifindex, mac@)),
    {
        self.inner.remove(&(ifindex, mac));
    }

    /// `rustc_hash::FxHashSet::contains`: whether the set holds the device.
    #[verifier::external_body]
    pub(crate) fn contains(&self, ifindex: u32, mac: [u8; 6]) -> (r: bool)
        ensures
            r == device_keys(*self).contains((ifindex, mac@)),
    {
        self.inner.contains(&(ifindex, mac))
    }
}

} // verus!
