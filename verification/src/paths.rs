//! Resolution of the storage paths from the value of the host's
//! per-user environment variable (`HOME` on Unix-family systems, `AppData`
//! on Windows). The variable's value is handed in by the caller, so the
//! whole resolution is pure: a missing or unreadable variable is `None`.
//!
//! Paths are raw bytes; components are joined with a slash, which every
//! supported host accepts.

use vstd::prelude::*;
use vstd::string::StrSliceExecFns;
use vstd::string::StringSliceAdditionalSpecFns;

use crate::codec::push_all;
use crate::data::AppData;
use crate::data::BonelabPlatform;

verus! {

/// The host operating system, as a runtime tag: resolution branches on it
/// instead of being compiled for a single target, so one code path serves
/// every host.
#[derive(Clone, Copy, Debug, PartialEq, Eq, Structural)]
pub enum HostOs {
    Linux,
    MacOs,
    Windows,
}

/// Why a storage path could not be resolved.
#[derive(Clone, Copy, Debug, PartialEq, Eq, Structural)]
pub enum PathError {
    /// The required environment variable is unset or unreadable.
    EnvironmentMissing,
    /// The mods install directory was requested on the host that needs a
    /// device variant before one was configured.
    PlatformNotSet,
    /// The application-data root has no parent directory.
    NoParent,
}

/// The path separator written between joined components.
pub const SLASH: u8 = 47;

/// The alternative separator recognized when looking for a parent
/// directory on Windows.
pub const BACKSLASH: u8 = 92;

/// The view of an optional byte-string argument.
pub open spec fn opt_view(o: Option<&Vec<u8>>) -> Option<Seq<u8>> {
    match o {
        Some(v) => Some(v@),
        None => None,
    }
}

/// The application's fixed subdirectory under the per-user data root.
pub open spec fn rel_dir_bytes(os: HostOs) -> Seq<u8> {
    match os {
        HostOs::Linux => "var/lib/bonelab_mod_manager".spec_bytes(),
        HostOs::MacOs => "Library/Application Support/com.valentinegb.bonelab_mod_manager".spec_bytes(),
        HostOs::Windows => "bonelab_mod_manager".spec_bytes(),
    }
}

/// `base`, a separator, then `rel`.
pub open spec fn joined(base: Seq<u8>, rel: Seq<u8>) -> Seq<u8> {
    base + seq![SLASH] + rel
}

/// The application-data directory: the environment variable's value joined
/// with the fixed subdirectory, or a failure when the variable is absent.
pub open spec fn spec_dir_path(os: HostOs, env: Option<Seq<u8>>) -> Result<Seq<u8>, PathError> {
    match env {
        None => Err(PathError::EnvironmentMissing),
        Some(root) => Ok(joined(root, rel_dir_bytes(os))),
    }
}

/// The storage file's path: the data directory joined with the fixed file
/// name.
pub open spec fn spec_state_path(os: HostOs, env: Option<Seq<u8>>) -> Result<Seq<u8>, PathError> {
    match spec_dir_path(os, env) {
        Ok(d) => Ok(joined(d, "app_data".spec_bytes())),
        Err(e) => Err(e),
    }
}

/// Whether `b` is a path separator.
pub open spec fn is_sep(b: u8) -> bool {
    b == SLASH || b == BACKSLASH
}

/// The index of the last separator of `p`, or -1 when `p` has none.
pub open spec fn last_sep(p: Seq<u8>) -> int
    decreases p.len(),
{
    if p.len() == 0 {
        -1
    } else if is_sep(p[p.len() - 1]) {
        p.len() - 1
    } else {
        last_sep(p.drop_last())
    }
}

/// The parent directory of `p`: everything before its last separator, or
/// nothing when `p` has no separator.
pub open spec fn spec_parent(p: Seq<u8>) -> Option<Seq<u8>> {
    if last_sep(p) >= 0 {
        Some(p.subrange(0, last_sep(p)))
    } else {
        None
    }
}

proof fn lemma_last_sep_at(p: Seq<u8>, j: int)
    requires
        0 <= j < p.len(),
        is_sep(p[j]),
        forall|k: int| j < k < p.len() ==> !is_sep(#[trigger] p[k]),
    ensures
        last_sep(p) == j,
    decreases p.len(),
{
    if j < p.len() - 1 {
        assert(p.drop_last()[j] == p[j]);
        lemma_last_sep_at(p.drop_last(), j);
    }
}

proof fn lemma_last_sep_none(p: Seq<u8>)
    requires
        forall|k: int| 0 <= k < p.len() ==> !is_sep(#[trigger] p[k]),
    ensures
        last_sep(p) == -1,
    decreases p.len(),
{
    if p.len() > 0 {
        lemma_last_sep_none(p.drop_last());
    }
}

/// Where the mods install directory lives, given the configured device
/// variant, the host, and the environment variable's value. On Windows the
/// variant must be configured first; the `Windows` variant resolves next to
/// the data root's parent, inside the host application's own folder; the
/// `Quest` variant and every Unix-family host resolve to `Mods` inside the
/// application-data directory.
pub open spec fn spec_mods_dir_path(
    platform: Option<BonelabPlatform>,
    os: HostOs,
    env: Option<Seq<u8>>,
) -> Result<Seq<u8>, PathError> {
    if os == HostOs::Windows {
        match platform {
            None => Err(PathError::PlatformNotSet),
            Some(BonelabPlatform::Windows) => match env {
                None => Err(PathError::EnvironmentMissing),
                Some(root) => match spec_parent(root) {
                    None => Err(PathError::NoParent),
                    Some(par) => Ok(
                        joined(par, "Locallow/Stress Level Zero/Bonelab/Mods".spec_bytes()),
                    ),
                },
            },
            Some(BonelabPlatform::Quest) => match spec_dir_path(os, env) {
                Ok(d) => Ok(joined(d, "Mods".spec_bytes())),
                Err(e) => Err(e),
            },
        }
    } else {
        match spec_dir_path(os, env) {
            Ok(d) => Ok(joined(d, "Mods".spec_bytes())),
            Err(e) => Err(e),
        }
    }
}

/// The application's fixed subdirectory, as bytes.
fn rel_dir_path(os: HostOs) -> (r: Vec<u8>)
    ensures
        r@ == rel_dir_bytes(os),
{
    match os {
        HostOs::Linux => "var/lib/bonelab_mod_manager".as_bytes_vec(),
        HostOs::MacOs => "Library/Application Support/com.valentinegb.bonelab_mod_manager".as_bytes_vec(),
        HostOs::Windows => "bonelab_mod_manager".as_bytes_vec(),
    }
}

/// Joins `base` and `rel` with a separator.
fn join(base: &Vec<u8>, rel: &Vec<u8>) -> (r: Vec<u8>)
    ensures
        r@ == joined(base@, rel@),
{
    let mut out: Vec<u8> = Vec::new();
    push_all(base, &mut out);
    out.push(SLASH);
    push_all(rel, &mut out);
    proof {
        assert(out@ =~= joined(base@, rel@));
    }
    out
}

/// Resolves the application-data directory from the environment variable's
/// value; fails exactly when the variable is absent.
pub fn dir_path(os: HostOs, env: Option<&Vec<u8>>) -> (r: Result<Vec<u8>, PathError>)
    ensures
        (match (r, spec_dir_path(os, opt_view(env))) {
            (Ok(p), Ok(sp)) => p@ == sp,
            (Err(e), Err(se)) => e == se,
            _ => false,
        }),
{
    match env {
        None => Err(PathError::EnvironmentMissing),
        Some(root) => {
            let rel = rel_dir_path(os);
            Ok(join(root, &rel))
        },
    }
}

/// Resolves the storage file's path from the environment variable's value;
/// fails exactly when the variable is absent.
pub fn state_path(os: HostOs, env: Option<&Vec<u8>>) -> (r: Result<Vec<u8>, PathError>)
    ensures
        (match (r, spec_state_path(os, opt_view(env))) {
            (Ok(p), Ok(sp)) => p@ == sp,
            (Err(e), Err(se)) => e == se,
            _ => false,
        }),
{
    match dir_path(os, env) {
        Err(e) => Err(e),
        Ok(d) => {
            let name = "app_data".as_bytes_vec();
            Ok(join(&d, &name))
        },
    }
}

/// The parent directory of `p`: everything before its last separator.
pub fn parent_dir(p: &Vec<u8>) -> (r: Option<Vec<u8>>)
    ensures
        (match (r, spec_parent(p@)) {
            (Some(a), Some(b)) => a@ == b,
            (None, None) => true,
            _ => false,
        }),
{
    let n = p.len();
    let mut i: usize = n;
    while i > 0
        invariant
            i <= n,
            n == p.len(),
            forall|k: int| i <= k < n ==> !is_sep(#[trigger] p@[k]),
        decreases i,
    {
        let b = p[i - 1];
        if b == SLASH || b == BACKSLASH {
            proof {
                lemma_last_sep_at(p@, i - 1);
            }
            let mut out: Vec<u8> = Vec::new();
            let mut k: usize = 0;
            while k < i - 1
                invariant
                    i >= 1,
                    i <= n,
                    n == p.len(),
                    k <= i - 1,
                    out@ == p@.subrange(0, k as int),
                decreases i - 1 - k,
            {
                out.push(p[k]);
                proof {
                    assert(out@ =~= p@.subrange(0, k as int + 1));
                }
                k += 1;
            }
            return Some(out);
        }
        i -= 1;
    }
    proof {
        lemma_last_sep_none(p@);
    }
    None
}

impl AppData {
    /// Where installed mod folders live, for this state's configuration on
    /// the given host. On Windows this needs the device variant to be
    /// configured and fails with [`PathError::PlatformNotSet`] before
    /// anything else when it is not.
    pub fn mods_dir_path(&self, os: HostOs, env: Option<&Vec<u8>>) -> (r: Result<
        Vec<u8>,
        PathError,
    >)
        ensures
            (match (r, spec_mods_dir_path(self@.platform, os, opt_view(env))) {
                (Ok(p), Ok(sp)) => p@ == sp,
                (Err(e), Err(se)) => e == se,
                _ => false,
            }),
    {
        match os {
            HostOs::Windows => match self.platform() {
                None => Err(PathError::PlatformNotSet),
                Some(BonelabPlatform::Windows) => match env {
                    None => Err(PathError::EnvironmentMissing),
                    Some(root) => match parent_dir(root) {
                        None => Err(PathError::NoParent),
                        Some(par) => {
                            let rel = "Locallow/Stress Level Zero/Bonelab/Mods".as_bytes_vec();
                            Ok(join(&par, &rel))
                        },
                    },
                },
                Some(BonelabPlatform::Quest) => match dir_path(os, env) {
                    Err(e) => Err(e),
                    Ok(d) => {
                        let rel = "Mods".as_bytes_vec();
                        Ok(join(&d, &rel))
                    },
                },
            },
            _ => match dir_path(os, env) {
                Err(e) => Err(e),
                Ok(d) => {
                    let rel = "Mods".as_bytes_vec();
                    Ok(join(&d, &rel))
                },
            },
        }
    }
}

/// With the required environment variable absent, every path resolution
/// fails, and with nothing but the variant check ahead of it, it fails
/// with the environment error: so no storage location is ever invented.
pub proof fn lemma_env_missing_fails(os: HostOs, platform: Option<BonelabPlatform>)
    ensures
        spec_dir_path(os, None) == Err::<Seq<u8>, PathError>(PathError::EnvironmentMissing),
        spec_state_path(os, None) == Err::<Seq<u8>, PathError>(PathError::EnvironmentMissing),
        os == HostOs::Windows && platform is None ==> spec_mods_dir_path(platform, os, None)
            == Err::<Seq<u8>, PathError>(PathError::PlatformNotSet),
        (os != HostOs::Windows || platform == Some(BonelabPlatform::Quest)) ==> spec_mods_dir_path(
            platform,
            os,
            None,
        ) == Err::<Seq<u8>, PathError>(PathError::EnvironmentMissing),
        os == HostOs::Windows && platform == Some(BonelabPlatform::Windows)
            ==> spec_mods_dir_path(platform, os, None) == Err::<Seq<u8>, PathError>(
            PathError::EnvironmentMissing,
        ),
{
}

/// Wherever the mods install directory resolves under the application-data
/// directory — on every Unix-family host, and on Windows with the `Quest`
/// variant — the resolved path ends in the `Mods` component.
pub proof fn lemma_mods_path_ends_in_mods(
    platform: Option<BonelabPlatform>,
    os: HostOs,
    env: Option<Seq<u8>>,
)
    requires
        os != HostOs::Windows || platform == Some(BonelabPlatform::Quest),
        spec_mods_dir_path(platform, os, env) is Ok,
    ensures
        ({
            let p = spec_mods_dir_path(platform, os, env)->Ok_0;
            let m = "Mods".spec_bytes();
            p.len() >= m.len() && p.subrange(p.len() - m.len(), p.len() as int) == m
        }),
{
    let root = env->Some_0;
    let d = joined(root, rel_dir_bytes(os));
    let m = "Mods".spec_bytes();
    let p = joined(d, m);
    assert(spec_mods_dir_path(platform, os, env) == Ok::<Seq<u8>, PathError>(p));
    assert(p.subrange(p.len() - m.len(), p.len() as int) =~= m);
}

} // verus!
