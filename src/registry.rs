use vstd::prelude::*;

use crate::scan::{bch_sb_handle, handles_view};
use crate::superblock::bch_sb;

verus! {

/// All member devices found for one filesystem identifier, in scan order.
pub struct FilesystemRecord {
    pub uuid: u128,
    pub devices: Vec<bch_sb_handle>,
}

/// A member as the contracts see it: device path and superblock.
pub type MemberView = (Seq<char>, bch_sb);

impl FilesystemRecord {
    pub open spec fn view(&self) -> (u128, Seq<MemberView>) {
        (self.uuid, handles_view(self.devices@))
    }

    /// Whether any member declares that a passphrase is needed.
    pub fn encrypted(&self) -> (r: bool)
        ensures
            r == any_encrypted(handles_view(self.devices@)),
    {
        let mut i: usize = 0;
        while i < self.devices.len()
            invariant
                i <= self.devices@.len(),
                forall|k: int| 0 <= k < i ==> !(#[trigger] self.devices@[k]).sb.encrypted,
            decreases self.devices@.len() - i,
        {
            if self.devices[i].sb.encrypted {
                assert(handles_view(self.devices@)[i as int].1.encrypted);
                return true;
            }
            i = i + 1;
        }
        false
    }

    /// The member device paths, in scan order.
    pub fn device_paths(&self) -> (r: Vec<String>)
        ensures
            paths_view(r@) == member_paths(handles_view(self.devices@)),
    {
        let mut out: Vec<String> = Vec::new();
        let mut i: usize = 0;
        while i < self.devices.len()
            invariant
                i <= self.devices@.len(),
                paths_view(out@) == member_paths(handles_view(self.devices@.subrange(0, i as int))),
            decreases self.devices@.len() - i,
        {
            let ghost before = out@;
            out.push(self.devices[i].path.clone());
            proof {
                assert(paths_view(out@) =~= paths_view(before).push(self.devices@[i as int].path@));
                assert(member_paths(handles_view(self.devices@.subrange(0, i + 1)))
                    =~= member_paths(handles_view(self.devices@.subrange(0, i as int))).push(
                    self.devices@[i as int].path@,
                ));
            }
            i = i + 1;
        }
        assert(self.devices@.subrange(0, self.devices@.len() as int) =~= self.devices@);
        out
    }
}

pub open spec fn any_encrypted(ms: Seq<MemberView>) -> bool {
    exists|i: int| 0 <= i < ms.len() && (#[trigger] ms[i]).1.encrypted
}

pub open spec fn member_paths(ms: Seq<MemberView>) -> Seq<Seq<char>> {
    ms.map_values(|m: MemberView| m.0)
}

pub open spec fn paths_view(ps: Seq<String>) -> Seq<Seq<char>> {
    ps.map_values(|p: String| p@)
}

pub open spec fn records_view(rs: Seq<FilesystemRecord>) -> Seq<(u128, Seq<MemberView>)> {
    rs.map_values(|r: FilesystemRecord| r@)
}

/// The distinct identifiers of `ms`, in order of first appearance.
pub open spec fn ids_of(ms: Seq<MemberView>) -> Seq<u128>
    decreases ms.len(),
{
    if ms.len() == 0 {
        Seq::empty()
    } else {
        let prev = ids_of(ms.drop_last());
        if prev.contains(ms.last().1.uuid) {
            prev
        } else {
            prev.push(ms.last().1.uuid)
        }
    }
}

/// The members of `ms` that claim identifier `id`, in scan order.
pub open spec fn members_of(ms: Seq<MemberView>, id: u128) -> Seq<MemberView>
    decreases ms.len(),
{
    if ms.len() == 0 {
        Seq::empty()
    } else {
        let prev = members_of(ms.drop_last(), id);
        if ms.last().1.uuid == id {
            prev.push(ms.last())
        } else {
            prev
        }
    }
}

/// One record per identifier, in order of first appearance, each with all its members.
pub open spec fn group_spec(ms: Seq<MemberView>) -> Seq<(u128, Seq<MemberView>)> {
    ids_of(ms).map_values(|id: u128| (id, members_of(ms, id)))
}

fn contains_id(ids: &Vec<u128>, id: u128) -> (r: bool)
    ensures
        r == ids@.contains(id),
{
    let mut i: usize = 0;
    while i < ids.len()
        invariant
            i <= ids@.len(),
            forall|k: int| 0 <= k < i ==> ids@[k] != id,
        decreases ids@.len() - i,
    {
        if ids[i] == id {
            return true;
        }
        i = i + 1;
    }
    false
}

fn distinct_ids(members: &Vec<bch_sb_handle>) -> (r: Vec<u128>)
    ensures
        r@ == ids_of(handles_view(members@)),
{
    let ghost ms = handles_view(members@);
    let mut ids: Vec<u128> = Vec::new();
    let mut i: usize = 0;
    while i < members.len()
        invariant
            i <= members@.len(),
            ms == handles_view(members@),
            ids@ == ids_of(ms.subrange(0, i as int)),
        decreases members@.len() - i,
    {
        let id = members[i].sb.uuid;
        proof {
            assert(ms.subrange(0, i + 1).drop_last() =~= ms.subrange(0, i as int));
            assert(ms.subrange(0, i + 1).last().1.uuid == id);
        }
        if !contains_id(&ids, id) {
            ids.push(id);
        }
        i = i + 1;
    }
    assert(ms.subrange(0, members@.len() as int) =~= ms);
    ids
}

fn members_with(members: &Vec<bch_sb_handle>, id: u128) -> (r: Vec<bch_sb_handle>)
    ensures
        handles_view(r@) == members_of(handles_view(members@), id),
{
    let ghost ms = handles_view(members@);
    let mut out: Vec<bch_sb_handle> = Vec::new();
    let mut i: usize = 0;
    while i < members.len()
        invariant
            i <= members@.len(),
            ms == handles_view(members@),
            handles_view(out@) == members_of(ms.subrange(0, i as int), id),
        decreases members@.len() - i,
    {
        let ghost before = out@;
        proof {
            assert(ms.subrange(0, i + 1).drop_last() =~= ms.subrange(0, i as int));
            assert(ms.subrange(0, i + 1).last() == members@[i as int]@);
        }
        if members[i].sb.uuid == id {
            out.push(bch_sb_handle { path: members[i].path.clone(), sb: members[i].sb });
            proof {
                assert(handles_view(out@) =~= handles_view(before).push(members@[i as int]@));
            }
        }
        i = i + 1;
    }
    assert(ms.subrange(0, members@.len() as int) =~= ms);
    out
}

/// Groups member devices by filesystem identifier.
///
/// Records come in order of each identifier's first appearance; every member is kept,
/// whatever its sequence number or user UUID.
pub fn group(members: &Vec<bch_sb_handle>) -> (r: Vec<FilesystemRecord>)
    ensures
        records_view(r@) == group_spec(handles_view(members@)),
{
    let ghost ms = handles_view(members@);
    let ids = distinct_ids(members);
    let mut out: Vec<FilesystemRecord> = Vec::new();
    let mut k: usize = 0;
    while k < ids.len()
        invariant
            k <= ids@.len(),
            ms == handles_view(members@),
            ids@ == ids_of(ms),
            records_view(out@) =~= group_spec(ms).subrange(0, k as int),
        decreases ids@.len() - k,
    {
        let id = ids[k];
        let devices = members_with(members, id);
        let ghost before = out@;
        out.push(FilesystemRecord { uuid: id, devices });
        proof {
            assert(records_view(out@) =~= records_view(before).push((id, members_of(ms, id))));
        }
        k = k + 1;
    }
    out
}

/// Finds the record whose identifier is exactly `id`.
pub fn resolve(records: &Vec<FilesystemRecord>, id: u128) -> (r: Option<usize>)
    ensures
        match r {
            Some(k) => k < records@.len() && records@[k as int].uuid == id && forall|j: int|
                0 <= j < k ==> (#[trigger] records@[j]).uuid != id,
            None => forall|j: int| 0 <= j < records@.len() ==> (#[trigger] records@[j]).uuid != id,
        },
{
    let mut i: usize = 0;
    while i < records.len()
        invariant
            i <= records@.len(),
            forall|j: int| 0 <= j < i ==> (#[trigger] records@[j]).uuid != id,
        decreases records@.len() - i,
    {
        if records[i].uuid == id {
            return Some(i);
        }
        i = i + 1;
    }
    None
}

proof fn lemma_ids_of(ms: Seq<MemberView>)
    ensures
        ids_of(ms).no_duplicates(),
        forall|i: int| 0 <= i < ms.len() ==> ids_of(ms).contains(#[trigger] ms[i].1.uuid),
        forall|k: int|
            0 <= k < ids_of(ms).len() ==> exists|i: int|
                0 <= i < ms.len() && #[trigger] ms[i].1.uuid == #[trigger] ids_of(ms)[k],
    decreases ms.len(),
{
    if ms.len() > 0 {
        let init = ms.drop_last();
        lemma_ids_of(init);
        let ids = ids_of(ms);
        assert forall|i: int| 0 <= i < ms.len() implies ids.contains(#[trigger] ms[i].1.uuid) by {
            let x = ms[i].1.uuid;
            if i < ms.len() - 1 {
                assert(init[i] == ms[i]);
                assert(ids_of(init).contains(init[i].1.uuid));
                let k = ids_of(init).index_of(x);
                assert(ids[k] == x);
            } else if !ids_of(init).contains(x) {
                assert(ids[ids.len() - 1] == x);
            }
        }
        assert forall|k: int| 0 <= k < ids.len() implies exists|i: int|
            0 <= i < ms.len() && #[trigger] ms[i].1.uuid == #[trigger] ids[k] by {
            if k < ids_of(init).len() {
                let i = choose|i: int| 0 <= i < init.len() && #[trigger] init[i].1.uuid == ids_of(init)[k];
                assert(ms[i] == init[i]);
            } else {
                assert(ms[ms.len() - 1].1.uuid == ids[k]);
            }
        }
    }
}

proof fn lemma_members_of(ms: Seq<MemberView>, id: u128)
    ensures
        forall|i: int|
            0 <= i < members_of(ms, id).len() ==> (#[trigger] members_of(ms, id)[i]).1.uuid == id,
        forall|i: int| 0 <= i < ms.len() && ms[i].1.uuid == id ==> members_of(ms, id).contains(#[trigger] ms[i]),
    decreases ms.len(),
{
    if ms.len() > 0 {
        let init = ms.drop_last();
        lemma_members_of(init, id);
        let m = members_of(ms, id);
        assert forall|i: int| 0 <= i < ms.len() && ms[i].1.uuid == id implies m.contains(#[trigger] ms[i]) by {
            if i < ms.len() - 1 {
                assert(init[i] == ms[i]);
                let k = members_of(init, id).index_of(ms[i]);
                assert(m[k] == ms[i]);
            } else {
                assert(m[m.len() - 1] == ms[i]);
            }
        }
    }
}

/// Every record that grouping yields has at least one member, all of whose superblocks
/// claim the record's identifier; no two records share an identifier; and every member
/// lands in the record of its identifier.
pub proof fn lemma_group_partitions(ms: Seq<MemberView>)
    ensures
        forall|k: int|
            0 <= k < group_spec(ms).len() ==> (#[trigger] group_spec(ms)[k]).1.len() > 0,
        forall|k: int, i: int|
            0 <= k < group_spec(ms).len() && 0 <= i < group_spec(ms)[k].1.len() ==> (
            #[trigger] group_spec(ms)[k].1[i]).1.uuid == group_spec(ms)[k].0,
        forall|k: int, j: int|
            0 <= k < j < group_spec(ms).len() ==> (#[trigger] group_spec(ms)[k]).0 != (
            #[trigger] group_spec(ms)[j]).0,
        forall|i: int|
            0 <= i < ms.len() ==> exists|k: int|
                0 <= k < group_spec(ms).len() && (#[trigger] group_spec(ms)[k]).0 == (
                #[trigger] ms[i]).1.uuid && group_spec(ms)[k].1.contains(ms[i]),
{
    lemma_ids_of(ms);
    let g = group_spec(ms);
    let ids = ids_of(ms);
    assert forall|k: int| 0 <= k < g.len() implies (#[trigger] g[k]).1.len() > 0 by {
        let i = choose|i: int| 0 <= i < ms.len() && #[trigger] ms[i].1.uuid == #[trigger] ids[k];
        lemma_members_of(ms, ids[k]);
        assert(g[k] == (ids[k], members_of(ms, ids[k])));
        assert(members_of(ms, ids[k]).contains(ms[i]));
    }
    assert forall|k: int, i: int| 0 <= k < g.len() && 0 <= i < g[k].1.len() implies (
    #[trigger] g[k].1[i]).1.uuid == g[k].0 by {
        lemma_members_of(ms, ids[k]);
        assert(g[k] == (ids[k], members_of(ms, ids[k])));
    }
    assert forall|i: int| 0 <= i < ms.len() implies exists|k: int|
        0 <= k < g.len() && (#[trigger] g[k]).0 == (#[trigger] ms[i]).1.uuid
            && g[k].1.contains(ms[i]) by {
        let k = ids.index_of(ms[i].1.uuid);
        lemma_members_of(ms, ms[i].1.uuid);
        assert(g[k] == (ids[k], members_of(ms, ids[k])));
    }
}

/// The members of the records, record by record.
pub open spec fn flatten(g: Seq<(u128, Seq<MemberView>)>) -> Seq<MemberView>
    decreases g.len(),
{
    if g.len() == 0 {
        Seq::empty()
    } else {
        flatten(g.drop_last()) + g.last().1
    }
}

proof fn lemma_members_of_append(a: Seq<MemberView>, b: Seq<MemberView>, id: u128)
    ensures
        members_of(a + b, id) == members_of(a, id) + members_of(b, id),
    decreases b.len(),
{
    if b.len() == 0 {
        assert(a + b =~= a);
        assert(members_of(a, id) + members_of(b, id) =~= members_of(a, id));
    } else {
        assert((a + b).drop_last() =~= a + b.drop_last());
        lemma_members_of_append(a, b.drop_last(), id);
        if b.last().1.uuid == id {
            assert(members_of(a, id) + members_of(b.drop_last(), id).push(b.last())
                =~= (members_of(a, id) + members_of(b.drop_last(), id)).push(b.last()));
        }
    }
}

proof fn lemma_members_of_uniform(b: Seq<MemberView>, u: u128, id: u128)
    requires
        forall|i: int| 0 <= i < b.len() ==> (#[trigger] b[i]).1.uuid == u,
    ensures
        members_of(b, id) == if u == id {
            b
        } else {
            Seq::<MemberView>::empty()
        },
    decreases b.len(),
{
    if b.len() > 0 {
        let init = b.drop_last();
        assert forall|i: int| 0 <= i < init.len() implies (#[trigger] init[i]).1.uuid == u by {
            assert(init[i] == b[i]);
        }
        lemma_members_of_uniform(init, u, id);
        assert(b.last() == b[b.len() - 1]);
        if u == id {
            assert(init.push(b.last()) =~= b);
        }
    }
}

proof fn lemma_ids_of_append_uniform(a: Seq<MemberView>, b: Seq<MemberView>, u: u128)
    requires
        b.len() > 0,
        forall|i: int| 0 <= i < b.len() ==> (#[trigger] b[i]).1.uuid == u,
    ensures
        ids_of(a + b) == if ids_of(a).contains(u) {
            ids_of(a)
        } else {
            ids_of(a).push(u)
        },
    decreases b.len(),
{
    let init = b.drop_last();
    assert((a + b).drop_last() =~= a + init);
    assert((a + b).last() == b[b.len() - 1]);
    if init.len() == 0 {
        assert(a + init =~= a);
    } else {
        assert forall|i: int| 0 <= i < init.len() implies (#[trigger] init[i]).1.uuid == u by {
            assert(init[i] == b[i]);
        }
        lemma_ids_of_append_uniform(a, init, u);
        let r = ids_of(a + init);
        if ids_of(a).contains(u) {
            assert(r.contains(u));
        } else {
            assert(r[r.len() - 1] == u);
        }
    }
}

proof fn lemma_flatten_prefix(ms: Seq<MemberView>, k: int)
    requires
        0 <= k <= ids_of(ms).len(),
    ensures
        ids_of(flatten(group_spec(ms).subrange(0, k))) == ids_of(ms).subrange(0, k),
        forall|id: u128|
            #[trigger] members_of(flatten(group_spec(ms).subrange(0, k)), id) == if ids_of(
                ms,
            ).subrange(0, k).contains(id) {
                members_of(ms, id)
            } else {
                Seq::<MemberView>::empty()
            },
    decreases k,
{
    let g = group_spec(ms);
    let ids = ids_of(ms);
    if k == 0 {
        assert(g.subrange(0, 0) =~= Seq::<(u128, Seq<MemberView>)>::empty());
        assert(ids.subrange(0, 0) =~= Seq::<u128>::empty());
        assert forall|id: u128| #[trigger] members_of(flatten(g.subrange(0, 0)), id) == if ids.subrange(0, 0).contains(id) {
            members_of(ms, id)
        } else {
            Seq::<MemberView>::empty()
        } by {
            assert(flatten(g.subrange(0, 0)).len() == 0);
        }
    } else {
        let k0 = k - 1;
        lemma_flatten_prefix(ms, k0);
        lemma_group_partitions(ms);
        lemma_ids_of(ms);
        let prev = flatten(g.subrange(0, k0));
        let b = g[k0].1;
        let u = g[k0].0;
        assert(g[k0] == (ids[k0], members_of(ms, ids[k0])));
        assert(g.subrange(0, k).drop_last() =~= g.subrange(0, k0));
        assert(flatten(g.subrange(0, k)) == prev + b);
        assert forall|i: int| 0 <= i < b.len() implies (#[trigger] b[i]).1.uuid == u by {
            assert(g[k0].1[i] == b[i]);
        }
        assert(b.len() > 0);
        assert(!ids.subrange(0, k0).contains(u)) by {
            if ids.subrange(0, k0).contains(u) {
                let j = ids.subrange(0, k0).index_of(u);
                assert(ids[j] == ids[k0]);
            }
        }
        lemma_ids_of_append_uniform(prev, b, u);
        assert(ids.subrange(0, k0).push(u) =~= ids.subrange(0, k));
        assert forall|id: u128| #[trigger] members_of(flatten(g.subrange(0, k)), id) == if ids.subrange(0, k).contains(id) {
            members_of(ms, id)
        } else {
            Seq::<MemberView>::empty()
        } by {
            lemma_members_of_append(prev, b, id);
            lemma_members_of_uniform(b, u, id);
            assert(members_of(prev, id) == if ids.subrange(0, k0).contains(id) {
                members_of(ms, id)
            } else {
                Seq::<MemberView>::empty()
            });
            if id == u {
                assert(ids.subrange(0, k)[k0] == id);
                assert(Seq::<MemberView>::empty() + b =~= b);
            } else {
                assert(members_of(prev, id) + Seq::<MemberView>::empty() =~= members_of(prev, id));
                if ids.subrange(0, k).contains(id) {
                    let j = ids.subrange(0, k).index_of(id);
                    assert(ids.subrange(0, k0)[j] == id);
                }
                if ids.subrange(0, k0).contains(id) {
                    let j = ids.subrange(0, k0).index_of(id);
                    assert(ids.subrange(0, k)[j] == id);
                }
            }
        }
    }
}

/// Grouping is idempotent: regrouping the members of the records, taken record by
/// record, gives the same records, with the same identifiers and members in the same order.
pub proof fn lemma_group_idempotent(ms: Seq<MemberView>)
    ensures
        group_spec(flatten(group_spec(ms))) == group_spec(ms),
{
    let g = group_spec(ms);
    let ids = ids_of(ms);
    lemma_flatten_prefix(ms, ids.len() as int);
    assert(g.subrange(0, g.len() as int) =~= g);
    assert(ids.subrange(0, ids.len() as int) =~= ids);
    let f = flatten(g);
    assert forall|j: int| 0 <= j < ids.len() implies #[trigger] members_of(f, ids[j]) == members_of(ms, ids[j]) by {
        assert(ids.contains(ids[j]));
    }
    assert(group_spec(f) =~= g);
}

} // verus!
