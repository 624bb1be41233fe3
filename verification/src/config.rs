//! Filter configuration: which mount-table records are noise.
//!
//! Two ignore-sets — filesystem types and mountpoint path prefixes —
//! with built-in defaults covering the usual pseudo/virtual
//! filesystems. Loading a configuration file is the caller's business;
//! the library only consumes the resulting plain value.

use vstd::prelude::*;

verus! {

/// Mathematical model of a [`Config`]: both ignore-sets as sequences
/// of character sequences.
#[verifier::ext_equal]
pub ghost struct ConfigV {
    pub fstype_ignore: Seq<Seq<char>>,
    pub path_ignore: Seq<Seq<char>>,
}

/// Ignore policy for mount-table records: entries whose filesystem
/// type is listed in `fstype_ignore`, or whose mountpoint starts with
/// a prefix listed in `path_ignore`, are dropped by the reader.
pub struct Config {
    pub fstype_ignore: Vec<String>,
    pub path_ignore: Vec<String>,
}

impl View for Config {
    type V = ConfigV;

    open spec fn view(&self) -> ConfigV {
        ConfigV {
            fstype_ignore: self.fstype_ignore.deep_view(),
            path_ignore: self.path_ignore.deep_view(),
        }
    }
}

/// The default type-ignore set: pseudo/virtual filesystems.
pub open spec fn default_fstype_ignore() -> Seq<Seq<char>> {
    seq![
        "tmpfs"@,
        "ramfs"@,
        "swap"@,
        "devtmpfs"@,
        "devpts"@,
        "hugetlbfs"@,
        "mqueue"@,
        "fuse.portal"@,
        "fuse.gvfsd-fuse"@,
    ]
}

/// The default path-ignore set.
pub open spec fn default_path_ignore() -> Seq<Seq<char>> {
    seq!["/tmp"@, "/sys"@, "/proc"@]
}

/// The configuration used when no configuration file is present.
pub open spec fn spec_default_config() -> ConfigV {
    ConfigV { fstype_ignore: default_fstype_ignore(), path_ignore: default_path_ignore() }
}

impl Default for Config {
    /// The built-in ignore-sets.
    fn default() -> (res: Self)
        ensures
            res@ == spec_default_config(),
    {
        let mut fstype_ignore: Vec<String> = Vec::new();
        fstype_ignore.push("tmpfs".to_owned());
        fstype_ignore.push("ramfs".to_owned());
        fstype_ignore.push("swap".to_owned());
        fstype_ignore.push("devtmpfs".to_owned());
        fstype_ignore.push("devpts".to_owned());
        fstype_ignore.push("hugetlbfs".to_owned());
        fstype_ignore.push("mqueue".to_owned());
        fstype_ignore.push("fuse.portal".to_owned());
        fstype_ignore.push("fuse.gvfsd-fuse".to_owned());
        let mut path_ignore: Vec<String> = Vec::new();
        path_ignore.push("/tmp".to_owned());
        path_ignore.push("/sys".to_owned());
        path_ignore.push("/proc".to_owned());
        let res = Config { fstype_ignore, path_ignore };
        proof {
            assert(res@.fstype_ignore =~= default_fstype_ignore());
            assert(res@.path_ignore =~= default_path_ignore());
        }
        res
    }
}

impl Config {
    /// A loaded configuration when one was found, the defaults
    /// otherwise. Reading and deserialising the file happens outside
    /// the library; this is the decision taken on its outcome.
    pub fn load_or_default(loaded: Option<Config>) -> (res: Config)
        ensures
            loaded matches Some(c) ==> res == c,
            loaded is None ==> res@ == spec_default_config(),
    {
        match loaded {
            Some(c) => c,
            None => Config::default(),
        }
    }
}

} // verus!
