use vstd::prelude::*;
use vstd::string::StringExecFns;

use crate::passphrase::Passphrase;
use crate::registry::{any_encrypted, member_paths, paths_view, FilesystemRecord};
use crate::scan::handles_view;

verus! {

/// Why reading a passphrase failed.
#[derive(Clone, Copy, Debug, PartialEq, Eq, Structural)]
pub enum PassphraseError {
    /// No terminal is attached to prompt on.
    NoInteractiveTerminal,
    /// Reading failed with this OS error number.
    Io(i32),
}

/// Why a mount attempt failed.
#[derive(Clone, Copy, Debug, PartialEq, Eq, Structural)]
pub enum MountError {
    FilesystemNotFound,
    MountpointRequired,
    Passphrase(PassphraseError),
    /// The mount call failed with this OS error number.
    Mount(i32),
}

/// A resolved mount request, before any passphrase is read.
pub struct MountPlan {
    pub uuid: u128,
    /// Member device paths, in scan order.
    pub devices: Vec<String>,
    pub mountpoint: String,
    /// The caller's option string, unchanged.
    pub options: Vec<u8>,
    /// Whether a passphrase must be read before mounting.
    pub needs_passphrase: bool,
}

/// `passphrase=`, the option that carries a passphrase.
pub open spec fn passphrase_key() -> Seq<u8> {
    seq![112u8, 97u8, 115u8, 115u8, 112u8, 104u8, 114u8, 97u8, 115u8, 101u8, 61u8]
}

pub const OPTION_SEPARATOR: u8 = 44;

/// An option of the comma-separated list starts at `i`.
pub open spec fn option_starts_at(o: Seq<u8>, i: int) -> bool {
    i == 0 || o[i - 1] == OPTION_SEPARATOR
}

/// Some option of the list is `passphrase=...`.
pub open spec fn embeds_passphrase(o: Seq<u8>) -> bool {
    exists|i: int|
        0 <= i && i + 11 <= o.len() && option_starts_at(o, i) && #[trigger] o.subrange(i, i + 11)
            == passphrase_key()
}

/// The options with `passphrase=<secret>` appended as one more option.
pub open spec fn merge_spec(o: Seq<u8>, secret: Seq<u8>) -> Seq<u8> {
    if o.len() == 0 {
        passphrase_key() + secret
    } else {
        o + seq![OPTION_SEPARATOR] + passphrase_key() + secret
    }
}

/// `k` is the first record whose identifier is `id`.
pub open spec fn first_match(records: Seq<FilesystemRecord>, id: u128, k: int) -> bool {
    &&& 0 <= k < records.len()
    &&& records[k].uuid == id
    &&& forall|j: int| 0 <= j < k ==> (#[trigger] records[j]).uuid != id
}

/// The device argument of a multi-device mount: the paths joined by `:`.
pub open spec fn join_paths(ps: Seq<Seq<char>>) -> Seq<char>
    decreases ps.len(),
{
    if ps.len() == 0 {
        Seq::empty()
    } else if ps.len() == 1 {
        ps[0]
    } else {
        join_paths(ps.drop_last()) + ":"@ + ps.last()
    }
}

fn passphrase_key_bytes() -> (r: Vec<u8>)
    ensures
        r@ == passphrase_key(),
{
    let mut k: Vec<u8> = Vec::new();
    k.push(112u8);
    k.push(97u8);
    k.push(115u8);
    k.push(115u8);
    k.push(112u8);
    k.push(104u8);
    k.push(114u8);
    k.push(97u8);
    k.push(115u8);
    k.push(101u8);
    k.push(61u8);
    assert(k@ =~= passphrase_key());
    k
}

fn push_all(out: &mut Vec<u8>, src: &[u8])
    ensures
        final(out)@ == old(out)@ + src@,
{
    let ghost start = out@;
    let mut i: usize = 0;
    while i < src.len()
        invariant
            i <= src@.len(),
            out@ == start + src@.subrange(0, i as int),
        decreases src@.len() - i,
    {
        out.push(src[i]);
        i = i + 1;
        assert(out@ =~= start + src@.subrange(0, i as int));
    }
    assert(src@.subrange(0, src@.len() as int) =~= src@);
}

/// Whether some option of the comma-separated list `options` is `passphrase=...`.
pub fn has_passphrase_option(options: &Vec<u8>) -> (r: bool)
    ensures
        r == embeds_passphrase(options@),
{
    let key = passphrase_key_bytes();
    let n = options.len();
    if n < 11 {
        return false;
    }
    let mut i: usize = 0;
    while i <= n - 11
        invariant
            n == options@.len(),
            11 <= n,
            i <= n - 10,
            n <= usize::MAX,
            key@ == passphrase_key(),
            forall|p: int|
                0 <= p < i && option_starts_at(options@, p) ==> #[trigger] options@.subrange(
                    p,
                    p + 11,
                ) != passphrase_key(),
        decreases n - i,
    {
        if i == 0 || options[i - 1] == OPTION_SEPARATOR {
            let mut k: usize = 0;
            let mut same = true;
            while k < 11
                invariant
                    k <= 11,
                    i + 11 <= n,
                    n == options@.len(),
                    key@ == passphrase_key(),
                    same == (forall|m: int| 0 <= m < k ==> options@[i + m] == key@[m]),
                decreases 11 - k,
            {
                if options[i + k] != key[k] {
                    same = false;
                }
                k = k + 1;
            }
            if same {
                assert(options@.subrange(i as int, i + 11) =~= passphrase_key());
                return true;
            }
            let ghost m = choose|m: int| 0 <= m < 11 && options@[i + m] != key@[m];
            assert(options@.subrange(i as int, i + 11)[m] != passphrase_key()[m]);
        }
        i = i + 1;
    }
    false
}

/// Resolves `id` among `records` and decides whether a passphrase is needed.
///
/// An unknown identifier fails with `FilesystemNotFound`, before the mountpoint is
/// looked at; a missing mountpoint then fails with `MountpointRequired`. A passphrase
/// is needed when some member declares encryption and the options carry none.
pub fn plan_mount(
    records: &Vec<FilesystemRecord>,
    id: u128,
    mountpoint: Option<String>,
    options: Vec<u8>,
) -> (r: Result<MountPlan, MountError>)
    ensures
        match r {
            Err(MountError::FilesystemNotFound) => forall|j: int|
                0 <= j < records@.len() ==> (#[trigger] records@[j]).uuid != id,
            Err(MountError::MountpointRequired) => mountpoint is None && exists|j: int|
                0 <= j < records@.len() && (#[trigger] records@[j]).uuid == id,
            Err(_) => false,
            Ok(plan) => exists|k: int|
                {
                    &&& first_match(records@, id, k)
                    &&& mountpoint matches Some(mp) && plan.mountpoint@ == mp@
                    &&& plan.uuid == id
                    &&& paths_view(plan.devices@) == member_paths(
                        handles_view(#[trigger] records@[k].devices@),
                    )
                    &&& plan.options@ == options@
                    &&& plan.needs_passphrase == (any_encrypted(
                        handles_view(records@[k].devices@),
                    ) && !embeds_passphrase(options@))
                },
        },
{
    let k = match crate::registry::resolve(records, id) {
        Some(k) => k,
        None => {
            return Err(MountError::FilesystemNotFound);
        },
    };
    let mountpoint = match mountpoint {
        Some(mp) => mp,
        None => {
            return Err(MountError::MountpointRequired);
        },
    };
    let record = &records[k];
    let needs_passphrase = record.encrypted() && !has_passphrase_option(&options);
    let devices = record.device_paths();
    let plan = MountPlan { uuid: id, devices, mountpoint, options, needs_passphrase };
    assert(first_match(records@, id, k as int));
    Ok(plan)
}

/// The option string to mount with: `options` with the passphrase, if one was read,
/// appended as `passphrase=<secret>`. It holds the secret, so it is a secret itself.
pub fn mount_options(options: &Vec<u8>, secret: &Option<Passphrase>) -> (r: Passphrase)
    ensures
        r@ == match secret {
            Some(p) => merge_spec(options@, p@),
            None => options@,
        },
{
    let mut out: Vec<u8> = Vec::new();
    push_all(&mut out, options.as_slice());
    match secret {
        Some(p) => {
            if options.len() > 0 {
                out.push(OPTION_SEPARATOR);
            }
            let key = passphrase_key_bytes();
            push_all(&mut out, key.as_slice());
            push_all(&mut out, p.as_bytes());
            proof {
                if options@.len() == 0 {
                    assert(out@ =~= merge_spec(options@, p@));
                } else {
                    assert(out@ =~= merge_spec(options@, p@));
                }
            }
        },
        None => {
            assert(out@ =~= options@);
        },
    }
    Passphrase::new(out)
}

/// The device argument for the mount call: the member paths joined by `:`.
pub fn device_arg(devices: &Vec<String>) -> (r: String)
    ensures
        r@ == join_paths(paths_view(devices@)),
{
    let mut s = String::new();
    let mut i: usize = 0;
    while i < devices.len()
        invariant
            i <= devices@.len(),
            s@ == join_paths(paths_view(devices@.subrange(0, i as int))),
        decreases devices@.len() - i,
    {
        let ghost before = s@;
        if i > 0 {
            s.append(":");
        }
        s.append(devices[i].as_str());
        proof {
            let ps = paths_view(devices@.subrange(0, i + 1));
            assert(ps.drop_last() =~= paths_view(devices@.subrange(0, i as int)));
            if i == 0 {
                assert(s@ =~= ps[0]);
            }
        }
        i = i + 1;
    }
    assert(devices@.subrange(0, devices@.len() as int) =~= devices@);
    s
}

/// Ends a mount attempt: releases every secret that it used, whatever the mount call
/// returned, and reports the call's outcome unchanged.
pub fn finish_mount(
    result: Result<(), i32>,
    options: Passphrase,
    secret: Option<Passphrase>,
) -> (r: Result<(), MountError>)
    ensures
        r == match result {
            Ok(()) => Ok::<(), MountError>(()),
            Err(e) => Err(MountError::Mount(e)),
        },
{
    options.release();
    if let Some(p) = secret {
        p.release();
    }
    match result {
        Ok(()) => Ok(()),
        Err(e) => Err(MountError::Mount(e)),
    }
}

} // verus!
