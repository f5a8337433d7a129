//! Asset resolution policy: reading version keys out of an object-store
//! listing, choosing the newest version (highest in lexicographic
//! order), skipping the transfer when the target file is already
//! present, and resolving configured paths with an explicit precedence.

use vstd::prelude::*;
use vstd::string::StrSliceExecFns;

use crate::bytes::eq_bytes;
use crate::bytes::extend_bytes;
use crate::bytes::find1;
use crate::bytes::find_byte;
use crate::bytes::find_seq;
use crate::bytes::find_pattern;
use crate::bytes::lemma_find1_none;
use crate::bytes::lemma_find1_unique;
use crate::bytes::lemma_find_seq_none;
use crate::bytes::lemma_find_seq_unique;
use crate::bytes::lemma_lex_le_total;
use crate::bytes::lemma_lex_le_trans;
use crate::bytes::lex_le;
use crate::bytes::lex_le_bytes;
use crate::bytes::sub_vec;
use crate::errors::AssetError;
use crate::headers::lines_view;

verus! {

/// Which asset a transfer concerns.
#[derive(Clone, Copy, Debug, PartialEq, Eq, Structural)]
pub enum S3Item {
    Rootfs,
    Kernel,
}

/// The remote endpoints and listing prefix of one asset store.
pub struct AwsS3 {
    pub xml_base_path: String,
    pub prefix: String,
    pub download_base_path: String,
}

impl AwsS3 {
    /// A store with the default endpoints and the given listing prefix.
    pub fn new(prefix: &str) -> (r: AwsS3)
        ensures
            r.xml_base_path@ == "http://spec.ccfc.min.s3.amazonaws.com"@,
            r.prefix@ == prefix@,
            r.download_base_path@ == "https://s3.amazonaws.com/spec.ccfc.min"@,
    {
        AwsS3 {
            xml_base_path: String::from_str("http://spec.ccfc.min.s3.amazonaws.com"),
            prefix: String::from_str(prefix),
            download_base_path: String::from_str("https://s3.amazonaws.com/spec.ccfc.min"),
        }
    }

    /// The listing URL for the configured prefix.
    pub fn xml_url(&self) -> (r: String)
        ensures
            r@ == self.xml_base_path@ + "/?prefix="@ + self.prefix@ + "&list-type=2"@,
    {
        self.xml_base_path.clone().concat("/?prefix=").concat(self.prefix.as_str()).concat(
            "&list-type=2",
        )
    }

    /// The download URL of one listed item.
    pub fn download_url(&self, item: &str) -> (r: String)
        ensures
            r@ == self.download_base_path@ + "/"@ + item@,
    {
        self.download_base_path.clone().concat("/").concat(item)
    }
}

/// The default listing prefix of each asset.
pub fn default_prefix(item: &S3Item) -> (r: String)
    ensures
        item is Kernel ==> r@ == "firecracker-ci/v1.10/x86_64/vmlinux-5.10"@,
        item is Rootfs ==> r@ == "firecracker-ci/v1.10/x86_64/ubuntu-22.04.ext4"@,
{
    match item {
        S3Item::Kernel => String::from_str("firecracker-ci/v1.10/x86_64/vmlinux-5.10"),
        S3Item::Rootfs => String::from_str("firecracker-ci/v1.10/x86_64/ubuntu-22.04.ext4"),
    }
}

/// The opening tag of one listed key.
pub open spec fn key_open() -> Seq<u8> {
    seq![60u8, 75u8, 101u8, 121u8, 62u8]
}

/// The closing tag of one listed key.
pub open spec fn key_close() -> Seq<u8> {
    seq![60u8, 47u8, 75u8, 101u8, 121u8, 62u8]
}

/// The version keys of a listing: the content of each
/// `<Key>`..`</Key>` element in order, kept when it starts with the
/// prefix.
pub open spec fn extract_keys_spec(xml: Seq<u8>, prefix: Seq<u8>) -> Seq<Seq<u8>>
    decreases xml.len(),
{
    let o = find_seq(xml, key_open());
    if o < 0 || o + 5 > xml.len() {
        Seq::empty()
    } else {
        let after = xml.skip(o + 5);
        let c = find_seq(after, key_close());
        if c < 0 || c + 6 > after.len() {
            Seq::empty()
        } else {
            let content = after.take(c);
            let rest = extract_keys_spec(after.skip(c + 6), prefix);
            if prefix.len() <= content.len() && content.take(prefix.len() as int) == prefix {
                seq![content] + rest
            } else {
                rest
            }
        }
    }
}

/// Read the version keys out of a listing, exactly as
/// `extract_keys_spec` describes.
#[verifier::loop_isolation(false)]
#[verifier::rlimit(60)]
pub fn extract_keys(xml: &[u8], prefix: &[u8]) -> (r: Vec<Vec<u8>>)
    ensures
        lines_view(r@) == extract_keys_spec(xml@, prefix@),
{
    let open_lit: [u8; 5] = [60, 75, 101, 121, 62];
    let close_lit: [u8; 6] = [60, 47, 75, 101, 121, 62];
    proof {
        assert(open_lit@ =~= key_open());
        assert(close_lit@ =~= key_close());
        assert(xml@.skip(0) =~= xml@);
    }
    let n: usize = xml.len();
    let mut acc: Vec<Vec<u8>> = Vec::new();
    let mut i: usize = 0;
    proof {
        assert(n == xml@.len());
        assert(lines_view(acc@) =~= Seq::<Seq<u8>>::empty());
    }
    loop
        invariant
            i <= xml@.len(),
            extract_keys_spec(xml@, prefix@) == lines_view(acc@) + extract_keys_spec(
                xml@.skip(i as int),
                prefix@,
            ),
        decreases xml@.len() - i,
    {
        let ghost suf = xml@.skip(i as int);
        let o = match find_pattern(xml, i, open_lit.as_slice()) {
            Some(o) => o,
            None => {
                proof {
                    assert forall|j: int| 0 <= j && j + 5 <= suf.len() implies #[trigger]
                        suf.subrange(j, j + 5) != key_open() by {
                        assert(suf.subrange(j, j + 5) =~= xml@.subrange(i + j, i + j + 5));
                    }
                    lemma_find_seq_none(suf, key_open());
                    assert(extract_keys_spec(suf, prefix@) == Seq::<Seq<u8>>::empty());
                    assert(lines_view(acc@) + Seq::<Seq<u8>>::empty() =~= lines_view(acc@));
                }
                return acc;
            },
        };
        proof {
            assert forall|j: int| 0 <= j < o - i implies #[trigger] suf.subrange(j, j + 5)
                != key_open() by {
                assert(suf.subrange(j, j + 5) =~= xml@.subrange(i + j, i + j + 5));
            }
            assert(suf.subrange(o - i, o - i + 5) =~= xml@.subrange(o as int, o + 5));
            lemma_find_seq_unique(suf, key_open(), o - i);
            assert(suf.skip(o - i + 5) =~= xml@.skip(o + 5));
        }
        let ghost after = xml@.skip(o + 5);
        let c = match find_pattern(xml, o + 5, close_lit.as_slice()) {
            Some(c) => c,
            None => {
                proof {
                    assert forall|j: int| 0 <= j && j + 6 <= after.len() implies #[trigger]
                        after.subrange(j, j + 6) != key_close() by {
                        assert(after.subrange(j, j + 6) =~= xml@.subrange(
                            o + 5 + j,
                            o + 5 + j + 6,
                        ));
                    }
                    lemma_find_seq_none(after, key_close());
                    assert(extract_keys_spec(suf, prefix@) == Seq::<Seq<u8>>::empty());
                    assert(lines_view(acc@) + Seq::<Seq<u8>>::empty() =~= lines_view(acc@));
                }
                return acc;
            },
        };
        proof {
            assert forall|j: int| 0 <= j < c - (o + 5) implies #[trigger] after.subrange(j, j + 6)
                != key_close() by {
                assert(after.subrange(j, j + 6) =~= xml@.subrange(o + 5 + j, o + 5 + j + 6));
            }
            assert(after.subrange(c - (o + 5), c - (o + 5) + 6) =~= xml@.subrange(
                c as int,
                c + 6,
            ));
            lemma_find_seq_unique(after, key_close(), c - (o + 5));
            assert(after.take(c - (o + 5)) =~= xml@.subrange(o + 5, c as int));
            assert(after.skip(c - (o + 5) + 6) =~= xml@.skip(c + 6));
        }
        let content = sub_vec(xml, o + 5, c);
        let keep: bool = if prefix.len() <= content.len() {
            let head = sub_vec(content.as_slice(), 0, prefix.len());
            proof {
                assert(head@ =~= content@.take(prefix@.len() as int));
            }
            eq_bytes(head.as_slice(), prefix)
        } else {
            false
        };
        if keep {
            let ghost before = lines_view(acc@);
            acc.push(content);
            proof {
                assert(lines_view(acc@) =~= before + seq![xml@.subrange(o + 5, c as int)]);
                assert((before + seq![xml@.subrange(o + 5, c as int)]) + extract_keys_spec(
                    xml@.skip(c + 6),
                    prefix@,
                ) =~= before + (seq![xml@.subrange(o + 5, c as int)] + extract_keys_spec(
                    xml@.skip(c + 6),
                    prefix@,
                )));
            }
        }
        i = c + 6;
    }
}

/// Choose the newest version of a listing: the lexicographic maximum of
/// the keys.  An empty listing names no version and is an error.
#[verifier::loop_isolation(false)]
pub fn select_latest(keys: &Vec<Vec<u8>>) -> (r: Result<Vec<u8>, AssetError>)
    ensures
        (match r {
            Ok(v) => keys@.len() > 0 && (exists|j: int|
                0 <= j < keys@.len() && v@ == #[trigger] keys@[j]@) && (forall|i: int|
                0 <= i < keys@.len() ==> lex_le(#[trigger] keys@[i]@, v@)),
            Err(e) => keys@.len() == 0 && e == AssetError::NoVersionFound,
        }),
{
    if keys.len() == 0 {
        return Err(AssetError::NoVersionFound);
    }
    let mut best: usize = 0;
    let mut i: usize = 1;
    proof {
        lemma_lex_le_total(keys@[0]@, keys@[0]@);
    }
    while i < keys.len()
        invariant
            best < keys@.len(),
            1 <= i <= keys@.len(),
            forall|j: int| 0 <= j < i ==> lex_le(#[trigger] keys@[j]@, keys@[best as int]@),
        decreases keys@.len() - i,
    {
        if lex_le_bytes(keys[best].as_slice(), keys[i].as_slice()) {
            proof {
                assert forall|j: int| 0 <= j < i + 1 implies lex_le(
                    #[trigger] keys@[j]@,
                    keys@[i as int]@,
                ) by {
                    if j < i {
                        lemma_lex_le_trans(keys@[j]@, keys@[best as int]@, keys@[i as int]@);
                    } else {
                        lemma_lex_le_total(keys@[i as int]@, keys@[i as int]@);
                    }
                }
            }
            best = i;
        } else {
            proof {
                lemma_lex_le_total(keys@[best as int]@, keys@[i as int]@);
            }
        }
        i = i + 1;
    }
    let mut out: Vec<u8> = Vec::new();
    extend_bytes(&mut out, keys[best].as_slice());
    proof {
        assert(out@ =~= keys@[best as int]@);
    }
    Ok(out)
}

/// The piece of a key after its last `/`, or the whole key without one:
/// the file name a downloaded version is stored under.
pub open spec fn basename_spec(s: Seq<u8>) -> Seq<u8>
    decreases s.len(),
{
    let j = find1(s, 47);
    if j < 0 || j + 1 > s.len() {
        s
    } else {
        basename_spec(s.skip(j + 1))
    }
}

/// The file name of a key, exactly as `basename_spec` describes.
#[verifier::loop_isolation(false)]
pub fn basename(key: &[u8]) -> (r: Vec<u8>)
    ensures
        r@ == basename_spec(key@),
{
    let n: usize = key.len();
    proof {
        assert(n == key@.len());
        assert(key@.skip(0) =~= key@);
    }
    let mut i: usize = 0;
    loop
        invariant
            i <= key@.len(),
            basename_spec(key@) == basename_spec(key@.skip(i as int)),
        decreases key@.len() - i,
    {
        let ghost suf = key@.skip(i as int);
        match find_byte(key, i, 47) {
            Some(j) => {
                proof {
                    assert forall|q: int| 0 <= q < j - i implies suf[q] != 47 by {
                        assert(suf[q] == key@[i + q]);
                    }
                    assert(suf[j - i] == key@[j as int]);
                    lemma_find1_unique(suf, 47, j - i);
                    assert(suf.skip(j - i + 1) =~= key@.skip(j + 1));
                }
                i = j + 1;
            },
            None => {
                proof {
                    assert forall|q: int| 0 <= q < suf.len() implies suf[q] != 47 by {
                        assert(suf[q] == key@[i + q]);
                    }
                    lemma_find1_none(suf, 47);
                    assert(suf =~= key@.subrange(i as int, key@.len() as int));
                }
                return sub_vec(key, i, key.len());
            },
        }
    }
}

/// What a resolution decides to do about one asset.
#[derive(Debug)]
pub enum FetchPlan {
    /// The target file is already present: no transfer.
    UseExisting,
    /// Download this version key.
    Download { key: Vec<u8> },
}

/// Decide one asset fetch: an empty listing is an error before anything
/// else; a present target file skips the transfer; otherwise the newest
/// listed version is downloaded.
pub fn resolve_action(keys: &Vec<Vec<u8>>, target_exists: bool) -> (r: Result<
    FetchPlan,
    AssetError,
>)
    ensures
        keys@.len() == 0 ==> r == Err::<FetchPlan, AssetError>(AssetError::NoVersionFound),
        keys@.len() > 0 && target_exists ==> r == Ok::<FetchPlan, AssetError>(
            FetchPlan::UseExisting,
        ),
        keys@.len() > 0 && !target_exists ==> (match r {
            Ok(p) => (match p {
                FetchPlan::Download { key } => (exists|j: int|
                    0 <= j < keys@.len() && key@ == #[trigger] keys@[j]@) && (forall|i: int|
                    0 <= i < keys@.len() ==> lex_le(#[trigger] keys@[i]@, key@)),
                _ => false,
            }),
            Err(_) => false,
        }),
{
    match select_latest(keys) {
        Err(e) => Err(e),
        Ok(latest) => if target_exists {
            Ok(FetchPlan::UseExisting)
        } else {
            Ok(FetchPlan::Download { key: latest })
        },
    }
}

/// One path segment appended under a base directory.
pub open spec fn path_join_spec(base: Seq<char>, name: Seq<char>) -> Seq<char> {
    if base.len() > 0 && base.last() == '/' {
        base + name
    } else {
        base + "/"@ + name
    }
}

/// Join a file name onto a directory path, exactly as `path_join_spec`
/// describes.
pub fn path_join(base: &str, name: &str) -> (r: String)
    ensures
        r@ == path_join_spec(base@, name@),
{
    let n: usize = base.unicode_len();
    if n > 0 && base.get_char(n - 1) == '/' {
        String::from_str(base).concat(name)
    } else {
        String::from_str(base).concat("/").concat(name)
    }
}

/// Where the prepared kernel and root filesystem images are expected.
pub struct FileManager {
    pub kernel_path: String,
    pub rootfs_path: String,
}

impl FileManager {
    /// A manager over the two directories.
    pub fn new(kernel_path: String, rootfs_path: String) -> (r: FileManager)
        ensures
            r.kernel_path@ == kernel_path@,
            r.rootfs_path@ == rootfs_path@,
    {
        FileManager { kernel_path, rootfs_path }
    }

    /// The full path of the kernel image inside the kernel directory.
    pub fn kernel_target(&self) -> (r: String)
        ensures
            r@ == path_join_spec(self.kernel_path@, "vmlinux.bin"@),
    {
        path_join(self.kernel_path.as_str(), "vmlinux.bin")
    }

    /// The full path of the root filesystem image inside the rootfs
    /// directory.
    pub fn rootfs_target(&self) -> (r: String)
        ensures
            r@ == path_join_spec(self.rootfs_path@, "vmrootfs.ext4"@),
    {
        path_join(self.rootfs_path.as_str(), "vmrootfs.ext4")
    }
}

/// Resolve a configured value with an explicit precedence: an explicit
/// override wins, then an environment-provided override, then the
/// computed default.
pub fn resolve_override(explicit: Option<String>, env_value: Option<String>, default_value: String)
    -> (r: String)
    ensures
        explicit is Some ==> r@ == explicit.unwrap()@,
        explicit is None && env_value is Some ==> r@ == env_value.unwrap()@,
        explicit is None && env_value is None ==> r@ == default_value@,
{
    match explicit {
        Some(p) => p,
        None => match env_value {
            Some(p) => p,
            None => default_value,
        },
    }
}

} // verus!
