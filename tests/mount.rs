use bcachefs_mount::mount::{
    device_arg, finish_mount, has_passphrase_option, mount_options, plan_mount, MountError,
};
use bcachefs_mount::passphrase::{passphrase_prompt, prompt_text, Passphrase};
use bcachefs_mount::registry::{group, resolve, FilesystemRecord};
use bcachefs_mount::scan::{scan, DeviceRead, RejectReason};
use bcachefs_mount::superblock::{bch_sb, encode};

const X: u128 = 0x1111;
const Y: u128 = 0x2222;
const Z: u128 = 0x3333;

fn device(path: &str, uuid: u128, encrypted: bool) -> DeviceRead {
    let sb = bch_sb {
        uuid,
        user_uuid: uuid + 1,
        block_size: 8,
        version: 14,
        seq: 1,
        encrypted,
    };
    DeviceRead { path: path.to_string(), data: Ok(encode(&sb)) }
}

fn records(devices: Vec<DeviceRead>) -> Vec<FilesystemRecord> {
    group(&scan(&devices).members)
}

fn paths(r: &FilesystemRecord) -> Vec<String> {
    r.devices.iter().map(|h| h.bdev().clone()).collect()
}

#[test]
fn scenario_unencrypted_pool() {
    let rs = records(vec![device("A", X, false), device("B", X, false), device("C", Y, false)]);
    assert_eq!(rs.len(), 2);
    let plan = plan_mount(&rs, X, Some("/mnt/x".to_string()), b"ro".to_vec()).ok().unwrap();
    assert!(!plan.needs_passphrase);
    assert_eq!(plan.devices, vec!["A".to_string(), "B".to_string()]);
    assert_eq!(device_arg(&plan.devices), "A:B");
    let opts = mount_options(&plan.options, &None);
    assert_eq!(opts.as_bytes(), b"ro");
    assert_eq!(finish_mount(Ok(()), opts, None), Ok(()));
}

#[test]
fn scenario_encrypted_pool() {
    let rs = records(vec![device("A", X, true)]);
    let plan = plan_mount(&rs, X, Some("/mnt/x".to_string()), Vec::new()).ok().unwrap();
    assert!(plan.needs_passphrase);
    assert_eq!(plan.mountpoint, "/mnt/x");
    let secret = Some(Passphrase::new(b"hunter2".to_vec()));
    let opts = mount_options(&plan.options, &secret);
    assert_eq!(opts.as_bytes(), b"passphrase=hunter2");
    assert_eq!(finish_mount(Err(5), opts, secret), Err(MountError::Mount(5)));
}

#[test]
fn scenario_unknown_filesystem() {
    let rs = records(vec![device("A", X, true)]);
    assert_eq!(
        plan_mount(&rs, Z, Some("/mnt/z".to_string()), Vec::new()).err(),
        Some(MountError::FilesystemNotFound)
    );
    assert_eq!(plan_mount(&rs, Z, None, Vec::new()).err(), Some(MountError::FilesystemNotFound));
}

#[test]
fn scenario_corrupt_member() {
    let mut bad = device("A", X, false);
    if let Ok(bytes) = &mut bad.data {
        bytes[40] ^= 4;
    }
    let devices = vec![bad, device("B", X, false)];
    let result = scan(&devices);
    assert_eq!(result.rejected.len(), 1);
    assert_eq!(result.rejected[0].path, "A");
    assert_eq!(result.rejected[0].reason, RejectReason::Corrupt);
    assert_eq!(result.members.len(), 1);
    let rs = group(&result.members);
    let k = resolve(&rs, X).unwrap();
    assert_eq!(paths(&rs[k]), vec!["B".to_string()]);
}

#[test]
fn missing_mountpoint_is_reported() {
    let rs = records(vec![device("A", X, false)]);
    assert_eq!(plan_mount(&rs, X, None, Vec::new()).err(), Some(MountError::MountpointRequired));
}

#[test]
fn scan_rejects_failed_reads_and_newer_versions() {
    let newer = bch_sb { uuid: X, user_uuid: 0, block_size: 8, version: 20, seq: 1, encrypted: false };
    let devices = vec![
        DeviceRead { path: "A".to_string(), data: Err(13) },
        DeviceRead { path: "B".to_string(), data: Ok(encode(&newer)) },
        DeviceRead { path: "C".to_string(), data: Ok(vec![0u8; 512]) },
    ];
    let result = scan(&devices);
    assert!(result.members.is_empty());
    assert_eq!(result.rejected.len(), 2);
    assert_eq!(result.rejected[0].reason, RejectReason::Io(13));
    assert_eq!(result.rejected[1].reason, RejectReason::UnsupportedVersion);
}

#[test]
fn later_read_of_a_device_wins() {
    let devices = vec![device("A", X, false), device("B", Y, false), device("A", Z, false)];
    let result = scan(&devices);
    assert_eq!(result.members.len(), 2);
    assert_eq!(result.members[0].bdev().as_str(), "B");
    assert_eq!(result.members[1].bdev().as_str(), "A");
    assert_eq!(result.members[1].sb().uuid, Z);
}

#[test]
fn grouping_twice_gives_the_same_records() {
    let devices = vec![device("A", X, false), device("C", Y, true), device("B", X, false)];
    let members = scan(&devices).members;
    let first = group(&members);
    let second = group(&members);
    assert_eq!(first.len(), 2);
    assert_eq!(first.len(), second.len());
    for (a, b) in first.iter().zip(second.iter()) {
        assert_eq!(a.uuid, b.uuid);
        assert_eq!(paths(a), paths(b));
    }
    assert_eq!(first[0].uuid, X);
    assert_eq!(paths(&first[0]), vec!["A".to_string(), "B".to_string()]);
    assert_eq!(first[1].uuid, Y);
    assert!(first[1].encrypted());
    assert!(!first[0].encrypted());
}

#[test]
fn resolution_is_exact() {
    let rs = records(vec![device("A", 0xabcd_0000, false)]);
    assert_eq!(resolve(&rs, 0xabcd_0000), Some(0));
    assert_eq!(resolve(&rs, 0xabcd), None);
    assert_eq!(resolve(&rs, 0xabcd_0001), None);
}

#[test]
fn passphrase_in_options_is_detected() {
    assert!(has_passphrase_option(&b"passphrase=x".to_vec()));
    assert!(has_passphrase_option(&b"ro,passphrase=".to_vec()));
    assert!(!has_passphrase_option(&b"ro,mypassphrase=x".to_vec()));
    assert!(!has_passphrase_option(&b"passphrase".to_vec()));
    assert!(!has_passphrase_option(&Vec::new()));
    let rs = records(vec![device("A", X, true)]);
    let plan = plan_mount(&rs, X, Some("/m".to_string()), b"ro,passphrase=x".to_vec()).ok().unwrap();
    assert!(!plan.needs_passphrase);
}

#[test]
fn passphrase_is_appended_as_an_option() {
    let secret = Some(Passphrase::new(b"s3".to_vec()));
    let opts = mount_options(&b"ro,degraded".to_vec(), &secret);
    assert_eq!(opts.as_bytes(), b"ro,degraded,passphrase=s3");
    opts.release();
}

#[test]
fn scrub_clears_the_secret() {
    let mut p = Passphrase::new(b"correct horse".to_vec());
    p.scrub();
    assert_eq!(p.as_bytes().len(), 13);
    assert!(p.as_bytes().iter().all(|b| *b == 0));
    assert!(!p.as_bytes().windows(5).any(|w| w == b"horse"));
    p.release();
}

#[test]
fn prompt_names_the_filesystem() {
    assert_eq!(prompt_text("pool"), "Enter passphrase for pool: ");
    assert_eq!(
        passphrase_prompt(0x0123_4567_89ab_cdef_0123_4567_89ab_cdef),
        "Enter passphrase for 01234567-89ab-cdef-0123-456789abcdef: "
    );
}

#[test]
fn device_arg_joins_with_colons() {
    assert_eq!(device_arg(&Vec::new()), "");
    assert_eq!(device_arg(&vec!["/dev/sda".to_string()]), "/dev/sda");
    assert_eq!(
        device_arg(&vec!["/dev/sda".to_string(), "/dev/sdb".to_string(), "/dev/sdc".to_string()]),
        "/dev/sda:/dev/sdb:/dev/sdc"
    );
}
