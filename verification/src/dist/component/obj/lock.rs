//! Per-object file locks, version two: an object's lock is one of a fixed
//! number of lock files, chosen by the xxHash32 of the part of the object
//! identifier after its first `-`.
use vstd::prelude::*;

use crate::dist::component::lock::{hex_digit, hex_digits, LOCKFILE_COUNT};
use vstd::utf8::{encode_scalar, encode_utf8};
use crate::path::{is_path_component, push_char, FsPath, PathView};

verus! {

/// The seed of the hash that picks a lock file.
pub const SEED: u32 = 0x1ced_7ea5;

/// What `twox_hash::XxHash32::oneshot` gives for `seed` and `data`.
pub uninterp spec fn xxhash32(seed: u32, data: Seq<u8>) -> u32;

/// The xxHash32 of `data` with `seed`, by `twox_hash::XxHash32::oneshot`.
#[verifier::external_body]
fn xxhash32_oneshot(seed: u32, data: &[u8]) -> (r: u32)
    ensures
        r == xxhash32(seed, data@),
{
    twox_hash::XxHash32::oneshot(seed, data)
}

/// The bytes after the first `b` in `bytes`, if `b` occurs.
pub open spec fn after_first(bytes: Seq<u8>, b: u8) -> Option<Seq<u8>>
    decreases bytes.len(),
{
    if bytes.len() == 0 {
        None
    } else if bytes[0] == b {
        Some(bytes.skip(1))
    } else {
        after_first(bytes.skip(1), b)
    }
}

/// The name of the lock file for an object whose hash is `hash`: the hash
/// modulo the number of lock files, in two lower-case hexadecimal digits, with
/// `.lock` after it.
pub open spec fn spec_lock_file_name(hash: u32) -> Seq<char> {
    let n = (hash % LOCKFILE_COUNT as u32) as nat;
    seq![hex_digits()[(n / 16) as int], hex_digits()[(n % 16) as int]] + ".lock"@
}

/// The name of the lock file for an object whose hash is `hash`.
pub fn lock_name_for_hash(hash: u32) -> (r: String)
    ensures
        r@ == spec_lock_file_name(hash),
{
    let n = hash % (LOCKFILE_COUNT as u32);
    let mut r = String::new();
    push_char(&mut r, hex_digit((n / 16) as u64));
    push_char(&mut r, hex_digit((n % 16) as u64));
    r.append(".lock");
    assert(r@ =~= spec_lock_file_name(hash));
    r
}

/// The name of the lock file for the object identifier `obj`, which has at
/// least two parts separated by `-`: the lock file of the xxHash32 of the UTF-8
/// bytes after the first `-`; none when `obj` has no `-`. (`-` is ASCII, so its
/// first byte in the UTF-8 form marks the first `-` character.)
pub fn lock_name(obj: &str) -> (r: Option<String>)
    ensures
        after_first(vstd::utf8::encode_utf8(obj@), 45u8) is None ==> r is None,
        after_first(vstd::utf8::encode_utf8(obj@), 45u8) matches Some(rest) ==> r matches Some(
            s,
        ) && s@ == spec_lock_file_name(xxhash32(SEED, rest)),
{
    let bytes = obj.as_bytes();
    let ghost all = bytes@;
    let mut i: usize = 0;
    assert(all.skip(0) =~= all);
    while i < bytes.len()
        invariant
            bytes@ == all,
            all == vstd::utf8::encode_utf8(obj@),
            i <= all.len(),
            after_first(all, 45u8) == after_first(all.skip(i as int), 45u8),
        decreases all.len() - i,
    {
        assert(all.skip(i as int).skip(1) =~= all.skip(i + 1));
        if bytes[i] == 45u8 {
            let mut rest: Vec<u8> = Vec::new();
            let mut j: usize = i + 1;
            while j < bytes.len()
                invariant
                    bytes@ == all,
                    all == vstd::utf8::encode_utf8(obj@),
                    i < j <= all.len(),
                    all[i as int] == 45u8,
                    after_first(all, 45u8) == after_first(all.skip(i as int), 45u8),
                    rest@ == all.subrange(i + 1, j as int),
                decreases all.len() - j,
            {
                rest.push(bytes[j]);
                assert(rest@ =~= all.subrange(i + 1, j + 1));
                j = j + 1;
            }
            assert(rest@ =~= all.skip(i as int).skip(1));
            assert(all.skip(i as int)[0] == all[i as int]);
            let hash = xxhash32_oneshot(SEED, rest.as_slice());
            return Some(lock_name_for_hash(hash));
        }
        i = i + 1;
    }
    assert(all.skip(i as int) =~= Seq::<u8>::empty());
    None
}

/// The UTF-8 form of two texts one after the other is the UTF-8 form of the
/// first followed by that of the second.
proof fn lemma_utf8_concat(a: Seq<char>, b: Seq<char>)
    ensures
        encode_utf8(a + b) == encode_utf8(a) + encode_utf8(b),
    decreases a.len(),
{
    if a.len() == 0 {
        assert(a + b =~= b);
        assert(encode_utf8(a) + encode_utf8(b) =~= encode_utf8(b));
    } else {
        assert((a + b)[0] == a[0]);
        assert((a + b).drop_first() =~= a.drop_first() + b);
        lemma_utf8_concat(a.drop_first(), b);
        let e = encode_scalar(a[0] as u32);
        assert(e + (encode_utf8(a.drop_first()) + encode_utf8(b)) =~= (e + encode_utf8(
            a.drop_first(),
        )) + encode_utf8(b));
    }
}

/// No byte of the UTF-8 form of a character other than `-` is the byte of `-`.
proof fn lemma_scalar_no_dash(c: char)
    requires
        c != '-',
    ensures
        forall|i: int|
            0 <= i < encode_scalar(c as u32).len() ==> #[trigger] encode_scalar(c as u32)[i]
                != 45u8,
{
    let v = c as u32;
    vstd::utf8::char_is_scalar(c);
    assert(v != 45u32) by {
        vstd::utf8::char_u32_cast(c, v);
        vstd::utf8::char_u32_cast('-', 45u32);
    }
    assert(v <= 0x7F && v != 45u32 ==> (v & 0x7F) as u8 != 45u8) by (bit_vector);
    assert(0xC0u8 | ((v >> 6u32) & 0x1F) as u8 != 45u8) by (bit_vector);
    assert(0xE0u8 | ((v >> 12u32) & 0x0F) as u8 != 45u8) by (bit_vector);
    assert(0xF0u8 | ((v >> 18u32) & 0x7) as u8 != 45u8) by (bit_vector);
    assert(0x80u8 | (v & 0x3F) as u8 != 45u8) by (bit_vector);
    assert(0x80u8 | ((v >> 6u32) & 0x3F) as u8 != 45u8) by (bit_vector);
    assert(0x80u8 | ((v >> 12u32) & 0x3F) as u8 != 45u8) by (bit_vector);
}

/// No byte of the UTF-8 form of a text without `-` is the byte of `-`.
proof fn lemma_utf8_no_dash(p: Seq<char>)
    requires
        !p.contains('-'),
    ensures
        forall|i: int| 0 <= i < encode_utf8(p).len() ==> #[trigger] encode_utf8(p)[i] != 45u8,
    decreases p.len(),
{
    if p.len() > 0 {
        assert(p[0] != '-') by {
            if p[0] == '-' {
                assert(p.contains('-'));
            }
        }
        assert(!p.drop_first().contains('-')) by {
            if p.drop_first().contains('-') {
                let k = choose|k: int| 0 <= k < p.drop_first().len() && p.drop_first()[k] == '-';
                assert(p[k + 1] == '-');
            }
        }
        lemma_scalar_no_dash(p[0]);
        lemma_utf8_no_dash(p.drop_first());
        let e = encode_scalar(p[0] as u32);
        let t = encode_utf8(p.drop_first());
        assert forall|i: int| 0 <= i < encode_utf8(p).len() implies #[trigger] encode_utf8(p)[i]
            != 45u8 by {
            if i < e.len() {
                assert(encode_utf8(p)[i] == e[i]);
            } else {
                assert(encode_utf8(p)[i] == t[i - e.len()]);
            }
        }
    }
}

/// Bytes without `b` in front of `y` leave what follows the first `b` as it is in `y`.
proof fn lemma_after_first_skips(x: Seq<u8>, y: Seq<u8>, b: u8)
    requires
        forall|i: int| 0 <= i < x.len() ==> #[trigger] x[i] != b,
    ensures
        after_first(x + y, b) == after_first(y, b),
    decreases x.len(),
{
    if x.len() == 0 {
        assert(x + y =~= y);
    } else {
        assert((x + y)[0] == x[0]);
        assert((x + y).skip(1) =~= x.skip(1) + y);
        assert forall|i: int| 0 <= i < x.skip(1).len() implies #[trigger] x.skip(1)[i] != b by {
            assert(x.skip(1)[i] == x[i + 1]);
        }
        lemma_after_first_skips(x.skip(1), y, b);
    }
}

/// Only the part of an object identifier after its first `-` picks the lock
/// file: for a text `p` without `-` and any text `r`, the bytes that
/// `lock_name` hashes for `p`, then `-`, then `r` are the UTF-8 bytes of `r`,
/// whatever `p` is; so the lock file is `spec_lock_file_name(xxhash32(SEED, ..))`
/// of those bytes.
pub proof fn lemma_lock_name_reads_after_first_dash(p: Seq<char>, r: Seq<char>)
    requires
        !p.contains('-'),
    ensures
        after_first(encode_utf8(p + seq!['-'] + r), 45u8) == Some(encode_utf8(r)),
{
    let dash = seq!['-'];
    lemma_utf8_concat(p, dash + r);
    assert(p + dash + r =~= p + (dash + r));
    lemma_utf8_concat(dash, r);
    assert(dash.drop_first() =~= Seq::<char>::empty());
    let v = '-' as u32;
    assert(v == 45u32) by {
        vstd::utf8::char_u32_cast('-', 45u32);
    }
    assert((v & 0x7F) as u8 == 45u8) by (bit_vector)
        requires
            v == 45u32,
    ;
    assert(dash[0] == '-');
    assert(encode_utf8(dash.drop_first()) =~= Seq::<u8>::empty());
    assert(vstd::utf8::has_width_1_encoding(v));
    assert(encode_scalar(v) =~= seq![45u8]);
    assert(encode_utf8(dash) =~= encode_scalar(v) + encode_utf8(dash.drop_first()));
    assert(encode_utf8(dash) =~= seq![45u8]);
    lemma_utf8_no_dash(p);
    let t = encode_utf8(dash) + encode_utf8(r);
    lemma_after_first_skips(encode_utf8(p), t, 45u8);
    assert(t[0] == 45u8);
    assert(t.skip(1) =~= encode_utf8(r));
}

/// The value of a lower-case hexadecimal digit.
pub open spec fn hex_value(c: char) -> int {
    if '0' <= c <= '9' {
        c as int - '0' as int
    } else {
        c as int - 'a' as int + 10
    }
}

/// A lock file name has seven characters: two lower-case hexadecimal digits,
/// the first of them at most `3`, whose value is the hash modulo the number of
/// lock files, then `.lock`.
pub proof fn lemma_lock_file_name_shape(hash: u32)
    ensures
        spec_lock_file_name(hash).len() == 7,
        spec_lock_file_name(hash).subrange(2, 7) == ".lock"@,
        '0' <= spec_lock_file_name(hash)[0] <= '3',
        hex_digits().contains(spec_lock_file_name(hash)[1]),
        hex_value(spec_lock_file_name(hash)[0]) * 16 + hex_value(spec_lock_file_name(hash)[1])
            == hash % LOCKFILE_COUNT as u32,
{
    reveal_strlit(".lock");
    let n = (hash % LOCKFILE_COUNT as u32) as nat;
    let name = spec_lock_file_name(hash);
    let hi = (n / 16) as int;
    let lo = (n % 16) as int;
    assert(name.subrange(2, 7) =~= ".lock"@);
    assert(name[0] == hex_digits()[hi]);
    assert(name[1] == hex_digits()[lo]);
    assert(0 <= hi < 4);
    assert(hex_value(hex_digits()[hi]) == hi);
    assert(hex_value(hex_digits()[lo]) == lo) by {
        if lo < 10 {
        } else {
        }
    }
    assert(hex_digits()[lo] == name[1]);
}

/// Where the locks of objects are kept.
pub struct ObjLocker {
    dir: FsPath,
}

impl ObjLocker {
    /// Locks kept in the directory `dir`.
    pub fn new(dir: FsPath) -> (r: ObjLocker)
        ensures
            r.dir_view() == dir@,
    {
        ObjLocker { dir }
    }

    /// The directory of the lock files.
    pub closed spec fn dir_view(&self) -> PathView {
        self.dir@
    }

    /// The directory of the lock files.
    pub fn dir(&self) -> (r: &FsPath)
        ensures
            r@ == self.dir_view(),
    {
        &self.dir
    }

    /// The lock file for the object identifier `obj`; none when `obj` has no `-`.
    pub fn lock_path(&self, obj: &str) -> (r: Option<FsPath>)
        ensures
            after_first(vstd::utf8::encode_utf8(obj@), 45u8) is None ==> r is None,
            after_first(vstd::utf8::encode_utf8(obj@), 45u8) matches Some(rest) ==> r matches Some(
                p,
            ) && p@ == (PathView {
                absolute: self.dir_view().absolute,
                components: self.dir_view().components.push(
                    spec_lock_file_name(xxhash32(SEED, rest)),
                ),
            }),
    {
        match lock_name(obj) {
            Some(name) => {
                proof {
                    let s = name@;
                    reveal_strlit(".lock");
                    assert forall|k: int| 0 <= k < s.len() implies s[k] != '/' by {
                        if k >= 2 {
                            assert(s[k] == ".lock"@[k - 2]);
                        }
                    }
                    assert(s.len() == 7);
                    assert(is_path_component(s));
                }
                Some(self.dir.push_component(name))
            },
            None => None,
        }
    }
}

} // verus!
