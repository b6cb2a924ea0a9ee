use rustup::dist::component::lock::{lock_name, ObjLocker};
use rustup::dist::component::obj::lock::{
    lock_name as lock_name_v2, lock_name_for_hash, ObjLocker as ObjLockerV2,
};
use rustup::path::FsPath;

#[test]
fn fnv_lock_names() {
    assert_eq!(lock_name("stable-x86_64-unknown-linux-gnu"), "2d.lock");
    assert_eq!(lock_name("nightly-2024-01-01-x86_64"), "21.lock");
    assert_eq!(lock_name(""), "25.lock");
    // a single hexadecimal digit has no leading zero
    assert_eq!(lock_name("a"), "c.lock");
    assert_eq!(lock_name("toolchain-A"), "6.lock");
}

#[test]
fn fnv_lock_path_is_in_lock_dir() {
    let locker = ObjLocker::new(FsPath::parse("/var/locks"));
    let path = locker.lock_path("a");
    assert_eq!(path.components(), FsPath::parse("/var/locks/c.lock").components());
    assert!(path.is_absolute());
}

#[test]
fn xxhash_lock_names() {
    assert_eq!(
        lock_name_v2("stable-x86_64-unknown-linux-gnu").unwrap(),
        "25.lock"
    );
    assert_eq!(lock_name_v2("nightly-2024-01-01-x86_64").unwrap(), "37.lock");
    assert_eq!(lock_name_v2("a-").unwrap(), "39.lock");
    // only the first `-` splits
    assert_eq!(lock_name_v2("x-y-z").unwrap(), "0d.lock");
    // two digits, with a leading zero
    assert_eq!(lock_name_v2("toolchain-A").unwrap(), "06.lock");
}

#[test]
fn xxhash_lock_name_needs_two_parts() {
    assert!(lock_name_v2("stable").is_none());
    assert!(lock_name_v2("").is_none());
}

#[test]
fn lock_name_for_hash_takes_remainder() {
    assert_eq!(lock_name_for_hash(0), "00.lock");
    assert_eq!(lock_name_for_hash(63), "3f.lock");
    assert_eq!(lock_name_for_hash(64), "00.lock");
    assert_eq!(lock_name_for_hash(0x3c3d1fe5), "25.lock");
}

#[test]
fn xxhash_lock_path() {
    let locker = ObjLockerV2::new(FsPath::parse("locks"));
    let path = locker.lock_path("toolchain-A").unwrap();
    assert_eq!(path.components(), FsPath::parse("locks/06.lock").components());
    assert!(!path.is_absolute());
    assert!(locker.lock_path("toolchain").is_none());
}

#[test]
fn xxhash_lock_name_reads_after_first_dash() {
    for r in ["x86_64-unknown-linux-gnu", "", "b-c", "é-ü"] {
        let a = lock_name_v2(&format!("stable-{r}")).unwrap();
        let b = lock_name_v2(&format!("nightlyé-{r}")).unwrap();
        assert_eq!(a, b);
        assert_eq!(a.len(), 7);
        assert!(a.ends_with(".lock"));
        let v = u8::from_str_radix(&a[..2], 16).unwrap();
        assert!(v < 64);
        assert_eq!(&a[..2], a[..2].to_lowercase());
    }
}
