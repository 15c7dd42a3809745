use vstd::prelude::*;
use vstd::string::StringExecFns;

verus! {

/// The git commit the tool was built from.
#[derive(Clone, Debug)]
pub struct CommitInfo {
    pub short_commit_hash: String,
    pub commit_hash: String,
    pub commit_date: String,
}

/// Information that is only known for release builds.
#[derive(Clone, Debug)]
pub struct CfgInfo {
    /// The git repository state the tool was built from, if known.
    pub commit_info: Option<CommitInfo>,
    /// The release channel the tool was built for.
    pub release_channel: String,
}

/// The tool's version, as shown by `--version`.
#[derive(Clone, Debug)]
pub struct VersionInfo {
    pub major: String,
    pub minor: String,
    pub patch: String,
    pub pre_release: Option<String>,
    pub cfg_info: Option<CfgInfo>,
}

/// The build-time values a `VersionInfo` is made from; each optional one
/// is absent when the build did not set it.
#[derive(Clone, Debug)]
pub struct BuildEnv {
    pub major: String,
    pub minor: String,
    pub patch: String,
    pub pre_release: Option<String>,
    pub release_channel: Option<String>,
    pub commit_hash: Option<String>,
    pub short_commit_hash: Option<String>,
    pub commit_date: Option<String>,
}

/// The channel suffix: empty on the stable channel or without release
/// information, otherwise `-<channel><pre-release>`.
pub open spec fn channel_text(v: VersionInfo) -> Seq<char> {
    match v.cfg_info {
        Some(cfg) => if cfg.release_channel@ == "stable"@ {
            Seq::empty()
        } else {
            "-"@ + cfg.release_channel@ + match v.pre_release {
                Some(p) => p@,
                None => Seq::empty(),
            }
        },
        None => Seq::empty(),
    }
}

/// The commit suffix: ` (<short hash> <date>)` when the commit is known.
pub open spec fn commit_text(v: VersionInfo) -> Seq<char> {
    match v.cfg_info {
        Some(cfg) => match cfg.commit_info {
            Some(ci) => " ("@ + ci.short_commit_hash@ + " "@ + ci.commit_date@ + ")"@,
            None => Seq::empty(),
        },
        None => Seq::empty(),
    }
}

/// The text `--version` shows.
pub open spec fn version_text(v: VersionInfo) -> Seq<char> {
    "cargo "@ + v.major@ + "."@ + v.minor@ + "."@ + v.patch@ + channel_text(v) + commit_text(v)
}

/// A build environment from which a version can be made: the commit's
/// short hash and date are present wherever its hash is.
pub open spec fn build_env_complete(env: BuildEnv) -> bool {
    env.release_channel is Some && env.commit_hash is Some ==> {
        &&& env.short_commit_hash is Some
        &&& env.commit_date is Some
    }
}

impl VersionInfo {
    /// The version line, e.g. `cargo 0.20.0-nightly (abcdef123 2017-05-01)`.
    pub fn to_string(&self) -> (r: String)
        ensures
            r@ == version_text(*self),
    {
        proof {
            reveal_strlit("cargo ");
            reveal_strlit(".");
            reveal_strlit("stable");
            reveal_strlit("-");
            reveal_strlit(" (");
            reveal_strlit(" ");
            reveal_strlit(")");
        }
        let mut s = String::from_str("cargo ");
        s.append(self.major.as_str());
        s.append(".");
        s.append(self.minor.as_str());
        s.append(".");
        s.append(self.patch.as_str());
        let ghost base = s@;
        if let Some(cfg) = &self.cfg_info {
            let stable = String::from_str("stable");
            if !(cfg.release_channel == stable) {
                s.append("-");
                s.append(cfg.release_channel.as_str());
                if let Some(p) = &self.pre_release {
                    s.append(p.as_str());
                }
            }
        }
        assert(s@ == base + channel_text(*self));
        let ghost with_channel = s@;
        if let Some(cfg) = &self.cfg_info {
            if let Some(ci) = &cfg.commit_info {
                s.append(" (");
                s.append(ci.short_commit_hash.as_str());
                s.append(" ");
                s.append(ci.commit_date.as_str());
                s.append(")");
            }
        }
        assert(s@ == with_channel + commit_text(*self));
        s
    }
}

/// The version made from build-time values. Release information is present
/// exactly when a release channel was set, and commit information exactly
/// when, in addition, a commit hash was set.
pub fn version(env: BuildEnv) -> (r: VersionInfo)
    requires
        build_env_complete(env),
    ensures
        r.major == env.major,
        r.minor == env.minor,
        r.patch == env.patch,
        r.pre_release == env.pre_release,
        env.release_channel is None ==> r.cfg_info is None,
        env.release_channel is Some ==> {
            &&& r.cfg_info is Some
            &&& r.cfg_info->Some_0.release_channel == env.release_channel->Some_0
            &&& env.commit_hash is None ==> r.cfg_info->Some_0.commit_info is None
            &&& env.commit_hash is Some ==> r.cfg_info->Some_0.commit_info == Some(
                CommitInfo {
                    short_commit_hash: env.short_commit_hash->Some_0,
                    commit_hash: env.commit_hash->Some_0,
                    commit_date: env.commit_date->Some_0,
                },
            )
        },
{
    let BuildEnv {
        major,
        minor,
        patch,
        pre_release,
        release_channel,
        commit_hash,
        short_commit_hash,
        commit_date,
    } = env;
    let cfg_info = match release_channel {
        Some(channel) => {
            let commit_info = match (commit_hash, short_commit_hash, commit_date) {
                (Some(h), Some(sh), Some(d)) => Some(
                    CommitInfo { short_commit_hash: sh, commit_hash: h, commit_date: d },
                ),
                _ => None,
            };
            Some(CfgInfo { commit_info, release_channel: channel })
        },
        None => None,
    };
    VersionInfo { major, minor, patch, pre_release, cfg_info }
}

} // verus!
