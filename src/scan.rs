use vstd::prelude::*;

use crate::superblock::{bch_sb, decode, decode_spec, DecodeError};

verus! {

/// What was read from one candidate device: its path, and either the bytes at the
/// superblock offset or the OS error number of the failed read.
pub struct DeviceRead {
    pub path: String,
    pub data: Result<Vec<u8>, i32>,
}

/// A member device together with its decoded superblock.
#[allow(non_camel_case_types)]
pub struct bch_sb_handle {
    pub path: String,
    pub sb: bch_sb,
}

impl bch_sb_handle {
    /// The decoded superblock.
    pub fn sb(&self) -> (r: &bch_sb)
        ensures
            *r == self.sb,
    {
        &self.sb
    }

    /// The path of the member device.
    pub fn bdev(&self) -> (r: &String)
        ensures
            r@ == self.path@,
    {
        &self.path
    }

    pub open spec fn view(&self) -> (Seq<char>, bch_sb) {
        (self.path@, self.sb)
    }
}

/// Why a device was kept out of the scan result.
#[derive(Clone, Copy, Debug, PartialEq, Eq, Structural)]
pub enum RejectReason {
    Corrupt,
    UnsupportedVersion,
    /// The read failed with this OS error number.
    Io(i32),
}

/// A device that looked like a member but could not be used.
pub struct Rejected {
    pub path: String,
    pub reason: RejectReason,
}

impl Rejected {
    pub open spec fn view(&self) -> (Seq<char>, RejectReason) {
        (self.path@, self.reason)
    }
}

/// Members and rejected devices, each in scan order.
pub struct ScanResult {
    pub members: Vec<bch_sb_handle>,
    pub rejected: Vec<Rejected>,
}

pub open spec fn handles_view(hs: Seq<bch_sb_handle>) -> Seq<(Seq<char>, bch_sb)> {
    hs.map_values(|h: bch_sb_handle| h@)
}

pub open spec fn rejected_view(rs: Seq<Rejected>) -> Seq<(Seq<char>, RejectReason)> {
    rs.map_values(|r: Rejected| r@)
}

/// A later read of the same device replaces the read at `i`.
pub open spec fn superseded(ds: Seq<DeviceRead>, i: int) -> bool {
    exists|j: int| i < j < ds.len() && #[trigger] ds[j].path@ == ds[i].path@
}

/// The superblock that the read at `i` contributes, if it is a member.
pub open spec fn member_at(ds: Seq<DeviceRead>, i: int) -> Option<bch_sb> {
    if superseded(ds, i) {
        None
    } else {
        match ds[i].data {
            Ok(b) => match decode_spec(b@) {
                Ok(sb) => Some(sb),
                Err(_) => None,
            },
            Err(_) => None,
        }
    }
}

/// Why the read at `i` is rejected, if it is.
pub open spec fn rejection_at(ds: Seq<DeviceRead>, i: int) -> Option<RejectReason> {
    if superseded(ds, i) {
        None
    } else {
        match ds[i].data {
            Ok(b) => match decode_spec(b@) {
                Ok(_) => None,
                Err(DecodeError::NotAMember) => None,
                Err(DecodeError::Corrupt) => Some(RejectReason::Corrupt),
                Err(DecodeError::UnsupportedVersion) => Some(RejectReason::UnsupportedVersion),
            },
            Err(e) => Some(RejectReason::Io(e)),
        }
    }
}

/// The members found among the first `k` reads.
pub open spec fn members_upto(ds: Seq<DeviceRead>, k: int) -> Seq<(Seq<char>, bch_sb)>
    decreases k,
{
    if k <= 0 {
        Seq::empty()
    } else {
        let prev = members_upto(ds, k - 1);
        match member_at(ds, k - 1) {
            Some(sb) => prev.push((ds[k - 1].path@, sb)),
            None => prev,
        }
    }
}

/// The rejections found among the first `k` reads.
pub open spec fn rejected_upto(ds: Seq<DeviceRead>, k: int) -> Seq<(Seq<char>, RejectReason)>
    decreases k,
{
    if k <= 0 {
        Seq::empty()
    } else {
        let prev = rejected_upto(ds, k - 1);
        match rejection_at(ds, k - 1) {
            Some(why) => prev.push((ds[k - 1].path@, why)),
            None => prev,
        }
    }
}

fn is_superseded(ds: &Vec<DeviceRead>, i: usize) -> (r: bool)
    requires
        i < ds@.len(),
    ensures
        r == superseded(ds@, i as int),
{
    let n = ds.len();
    let mut j: usize = i + 1;
    while j < n
        invariant
            n == ds@.len(),
            i < j <= n,
            forall|k: int| i < k < j ==> #[trigger] ds@[k].path@ != ds@[i as int].path@,
        decreases ds@.len() - j,
    {
        if ds[j].path == ds[i].path {
            return true;
        }
        j = j + 1;
    }
    false
}

/// Decodes the superblock of every device read.
///
/// A device read more than once counts by its last read. Members keep scan order;
/// non-members are dropped; corrupt headers, unsupported versions and failed reads are
/// listed as rejected, also in scan order.
pub fn scan(devices: &Vec<DeviceRead>) -> (r: ScanResult)
    ensures
        handles_view(r.members@) == members_upto(devices@, devices@.len() as int),
        rejected_view(r.rejected@) == rejected_upto(devices@, devices@.len() as int),
{
    let mut members: Vec<bch_sb_handle> = Vec::new();
    let mut rejected: Vec<Rejected> = Vec::new();
    let mut i: usize = 0;
    while i < devices.len()
        invariant
            i <= devices@.len(),
            handles_view(members@) == members_upto(devices@, i as int),
            rejected_view(rejected@) == rejected_upto(devices@, i as int),
        decreases devices@.len() - i,
    {
        let ghost m0 = members@;
        let ghost r0 = rejected@;
        let dev = &devices[i];
        if !is_superseded(devices, i) {
            match &dev.data {
                Ok(bytes) => match decode(bytes.as_slice()) {
                    Ok(sb) => {
                        members.push(bch_sb_handle { path: dev.path.clone(), sb });
                    },
                    Err(DecodeError::NotAMember) => {},
                    Err(DecodeError::Corrupt) => {
                        rejected.push(
                            Rejected { path: dev.path.clone(), reason: RejectReason::Corrupt },
                        );
                    },
                    Err(DecodeError::UnsupportedVersion) => {
                        rejected.push(
                            Rejected {
                                path: dev.path.clone(),
                                reason: RejectReason::UnsupportedVersion,
                            },
                        );
                    },
                },
                Err(e) => {
                    rejected.push(Rejected { path: dev.path.clone(), reason: RejectReason::Io(*e) });
                },
            }
        }
        proof {
            assert(handles_view(m0.push(members@.last())) =~= handles_view(m0).push(
                members@.last()@,
            ));
            assert(rejected_view(r0.push(rejected@.last())) =~= rejected_view(r0).push(
                rejected@.last()@,
            ));
        }
        i = i + 1;
    }
    ScanResult { members, rejected }
}

/// Path `p` is that of a read among the first `k` that no later read replaces.
pub open spec fn last_read_among(ds: Seq<DeviceRead>, k: int, p: Seq<char>) -> bool {
    exists|i: int| 0 <= i < k && !superseded(ds, i) && p == (#[trigger] ds[i]).path@
}

proof fn lemma_members_from_last_reads(ds: Seq<DeviceRead>, k: int)
    requires
        0 <= k <= ds.len(),
    ensures
        forall|m: int|
            0 <= m < members_upto(ds, k).len() ==> last_read_among(
                ds,
                k,
                (#[trigger] members_upto(ds, k)[m]).0,
            ),
        forall|m: int, n: int|
            0 <= m < n < members_upto(ds, k).len() ==> (#[trigger] members_upto(ds, k)[m]).0
                != (#[trigger] members_upto(ds, k)[n]).0,
    decreases k,
{
    if k > 0 {
        lemma_members_from_last_reads(ds, k - 1);
        let prev = members_upto(ds, k - 1);
        let cur = members_upto(ds, k);
        assert forall|m: int| 0 <= m < cur.len() implies last_read_among(ds, k, (#[trigger] cur[m]).0) by {
            if m < prev.len() {
                assert(cur[m] == prev[m]);
                assert(last_read_among(ds, k - 1, prev[m].0));
                let i = choose|i: int| 0 <= i < k - 1 && !superseded(ds, i) && prev[m].0 == (#[trigger] ds[i]).path@;
                assert(0 <= i < k && !superseded(ds, i) && cur[m].0 == ds[i].path@);
            } else {
                assert(cur[m].0 == ds[k - 1].path@);
                assert(!superseded(ds, k - 1));
            }
        }
        assert forall|m: int, n: int| 0 <= m < n < cur.len() implies (#[trigger] cur[m]).0
            != (#[trigger] cur[n]).0 by {
            assert(cur[m] == prev[m]);
            if n < prev.len() {
                assert(cur[n] == prev[n]);
            } else {
                assert(last_read_among(ds, k - 1, prev[m].0));
                let i = choose|i: int| 0 <= i < k - 1 && !superseded(ds, i) && prev[m].0 == (#[trigger] ds[i]).path@;
                assert(cur[n].0 == ds[k - 1].path@);
                if ds[k - 1].path@ == ds[i].path@ {
                    assert(superseded(ds, i));
                }
            }
        }
    }
}

/// The scan lists each device at most once among the members: no two member entries
/// share a path.
pub proof fn lemma_members_distinct_devices(ds: Seq<DeviceRead>)
    ensures
        forall|m: int, n: int|
            0 <= m < n < members_upto(ds, ds.len() as int).len() ==> (#[trigger] members_upto(
                ds,
                ds.len() as int,
            )[m]).0 != (#[trigger] members_upto(ds, ds.len() as int)[n]).0,
{
    lemma_members_from_last_reads(ds, ds.len() as int);
}

} // verus!
