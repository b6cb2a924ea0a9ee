//! Per-object file locks: an object's lock is one of a fixed number of lock
//! files, chosen by a hash of the object's identifier.
use vstd::prelude::*;

use crate::path::{is_path_component, push_char, FsPath, PathView};

verus! {

/// How many lock files objects share.
pub const LOCKFILE_COUNT: usize = 64;

/// The basis of the 64-bit FNV-1a hash.
pub const FNV_OFFSET_BASIS: u64 = 0xcbf29ce484222325;

/// The prime of the 64-bit FNV-1a hash.
pub const FNV_PRIME: u64 = 0x100000001b3;

/// The 64-bit FNV-1a hash of `bytes`.
pub open spec fn fnv1a(bytes: Seq<u8>) -> u64
    decreases bytes.len(),
{
    if bytes.len() == 0 {
        FNV_OFFSET_BASIS
    } else {
        (((fnv1a(bytes.drop_last()) ^ (bytes.last() as u64)) as nat * FNV_PRIME as nat)
            % 0x1_0000_0000_0000_0000) as u64
    }
}

/// The lower-case hexadecimal digits.
pub open spec fn hex_digits() -> Seq<char> {
    seq!['0', '1', '2', '3', '4', '5', '6', '7', '8', '9', 'a', 'b', 'c', 'd', 'e', 'f']
}

/// `n` in lower-case hexadecimal, without leading zeros, for `n` below 256.
pub open spec fn hex_text(n: nat) -> Seq<char> {
    if n < 16 {
        seq![hex_digits()[n as int]]
    } else {
        seq![hex_digits()[(n / 16) as int], hex_digits()[(n % 16) as int]]
    }
}

/// The name of the lock file for an object whose identifier has the UTF-8
/// bytes `bytes`.
pub open spec fn spec_lock_name(bytes: Seq<u8>) -> Seq<char> {
    hex_text((fnv1a(bytes) % LOCKFILE_COUNT as u64) as nat) + ".lock"@
}

pub(crate) fn hex_digit(d: u64) -> (c: char)
    requires
        d < 16,
    ensures
        c == hex_digits()[d as int],
{
    let digits: [char; 16] = [
        '0', '1', '2', '3', '4', '5', '6', '7', '8', '9', 'a', 'b', 'c', 'd', 'e', 'f',
    ];
    assert(digits@ =~= hex_digits());
    digits[d as usize]
}

/// `n` in lower-case hexadecimal, without leading zeros.
pub(crate) fn hex_string(n: u64) -> (r: String)
    requires
        n < 256,
    ensures
        r@ == hex_text(n as nat),
{
    let mut r = String::new();
    if n >= 16 {
        push_char(&mut r, hex_digit(n / 16));
    }
    push_char(&mut r, hex_digit(n % 16));
    r
}

/// The name of the lock file for the object identifier `obj`: the 64-bit FNV-1a
/// hash of its UTF-8 bytes, modulo the number of lock files, in hexadecimal,
/// with `.lock` after it.
pub fn lock_name(obj: &str) -> (r: String)
    ensures
        r@ == spec_lock_name(vstd::utf8::encode_utf8(obj@)),
{
    let bytes = obj.as_bytes();
    let mut hash: u64 = FNV_OFFSET_BASIS;
    let mut i: usize = 0;
    assert(bytes@.take(0) =~= Seq::<u8>::empty());
    while i < bytes.len()
        invariant
            i <= bytes@.len(),
            hash == fnv1a(bytes@.take(i as int)),
        decreases bytes@.len() - i,
    {
        let b = bytes[i];
        assert(bytes@.take(i + 1).drop_last() =~= bytes@.take(i as int));
        hash = (hash ^ (b as u64)).wrapping_mul(FNV_PRIME);
        i = i + 1;
    }
    assert(bytes@.take(bytes@.len() as int) =~= bytes@);
    let id = hash % (LOCKFILE_COUNT as u64);
    let mut name = hex_string(id);
    name.append(".lock");
    name
}

/// The hash is the standard 64-bit FNV-1a over every byte: it starts from the
/// offset basis `0xcbf29ce484222325`, and each byte, however many come before
/// it, is combined by exclusive or and the result multiplied by the prime
/// `0x100000001b3`, modulo 2 to the 64.
pub proof fn lemma_fnv1a_steps(s: Seq<u8>, b: u8)
    ensures
        fnv1a(Seq::<u8>::empty()) == 0xcbf29ce484222325u64,
        fnv1a(s.push(b)) as nat == ((fnv1a(s) ^ (b as u64)) as nat * 0x100000001b3nat)
            % 0x1_0000_0000_0000_0000nat,
{
    assert(s.push(b).drop_last() =~= s);
}

/// A lock name is the FNV-1a hash of the identifier's bytes modulo 64, in
/// lower-case hexadecimal without a leading zero, followed by `.lock`.
pub proof fn lemma_lock_name_shape(bytes: Seq<u8>)
    ensures
        ({
            let name = spec_lock_name(bytes);
            let v = (fnv1a(bytes) % 64) as int;
            let k = (name.len() - 5) as int;
            &&& name.subrange(k, name.len() as int) == ".lock"@
            &&& (v < 16 ==> k == 1 && hex_char_value(name[0]) == v)
            &&& (v >= 16 ==> k == 2 && hex_char_value(name[0]) * 16 + hex_char_value(name[1]) == v
                && name[0] != '0')
        }),
{
    reveal_strlit(".lock");
    let name = spec_lock_name(bytes);
    let v = (fnv1a(bytes) % 64) as nat;
    let h = hex_text(v);
    assert(name.subrange(h.len() as int, name.len() as int) =~= ".lock"@);
    if v < 16 {
        assert(name[0] == h[0]);
    } else {
        assert(name[0] == h[0]);
        assert(name[1] == h[1]);
    }
}

/// The value of a lower-case hexadecimal digit.
pub open spec fn hex_char_value(c: char) -> int {
    if '0' <= c <= '9' {
        c as int - '0' as int
    } else {
        c as int - 'a' as int + 10
    }
}

/// Where the locks of objects are kept.
pub struct ObjLocker {
    dir: FsPath,
}

impl ObjLocker {
    /// Locks kept in the directory `dir`.
    pub fn new(dir: FsPath) -> (r: ObjLocker)
        ensures
            r.dir_view() == dir@,
    {
        ObjLocker { dir }
    }

    /// The directory of the lock files.
    pub closed spec fn dir_view(&self) -> PathView {
        self.dir@
    }

    /// The directory of the lock files.
    pub fn dir(&self) -> (r: &FsPath)
        ensures
            r@ == self.dir_view(),
    {
        &self.dir
    }

    /// The lock file for the object identifier `obj`.
    pub fn lock_path(&self, obj: &str) -> (r: FsPath)
        ensures
            r@ == (PathView {
                absolute: self.dir_view().absolute,
                components: self.dir_view().components.push(spec_lock_name(vstd::utf8::encode_utf8(obj@))),
            }),
    {
        let name = lock_name(obj);
        proof {
            lemma_lock_name_is_component(vstd::utf8::encode_utf8(obj@));
        }
        self.dir.push_component(name)
    }
}

/// A lock name is a single path component.
proof fn lemma_lock_name_is_component(bytes: Seq<u8>)
    ensures
        is_path_component(spec_lock_name(bytes)),
{
    let n = (fnv1a(bytes) % LOCKFILE_COUNT as u64) as nat;
    let name = spec_lock_name(bytes);
    let h = hex_text(n);
    reveal_strlit(".lock");
    assert(".lock"@ =~= seq!['.', 'l', 'o', 'c', 'k']);
    assert forall|j: int| 0 <= j < name.len() implies name[j] != '/' by {
        if j < h.len() {
            assert(name[j] == h[j]);
        } else {
            assert(name[j] == ".lock"@[j - h.len()]);
        }
    }
    assert(name.len() > 1);
}

} // verus!
