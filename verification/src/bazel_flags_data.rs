//! The packaged flag dataset: a curated collection of Bazel flag descriptors
//! for the supported tool releases, written out as code so that the database
//! can be built without touching the file system. Hosts with a richer dump of
//! a tool's flags can feed it to [`crate::bazel_flags::BazelFlags::from_flags`]
//! instead; this collection is the packaged fallback.

use vstd::prelude::*;
use vstd::string::*;

use crate::bazel_flags::{
    flags_view, strs_view, BazelFlags, FlagCollection, FlagInfo, FlagInfoV,
};

verus! {

/// The tool versions this dataset knows, oldest first.
pub open spec fn all_versions() -> Seq<Seq<char>> {
    seq![
        "7.0.0"@,
        "7.0.1"@,
        "7.0.2"@,
        "7.1.0"@,
        "7.1.1"@,
        "7.1.2"@,
        "7.2.0"@,
        "7.2.1"@,
        "7.3.0"@,
        "7.3.1"@,
        "7.3.2"@,
        "7.4.0"@,
        "7.4.1"@,
        "7.5.0"@,
        "8.0.0"@,
        "8.0.1"@,
        "9.0.0-pre.20250121.1"@,
    ]
}

/// The 7.x releases, for descriptors that were dropped later.
pub open spec fn v7_versions() -> Seq<Seq<char>> {
    seq![
        "7.0.0"@,
        "7.0.1"@,
        "7.0.2"@,
        "7.1.0"@,
        "7.1.1"@,
        "7.1.2"@,
        "7.2.0"@,
        "7.2.1"@,
        "7.3.0"@,
        "7.3.1"@,
        "7.3.2"@,
        "7.4.0"@,
        "7.4.1"@,
        "7.5.0"@,
    ]
}

/// The commands that ordinary build-related flags support.
pub open spec fn cmds_most() -> Seq<Seq<char>> {
    seq![
        "analyze-profile"@,
        "aquery"@,
        "build"@,
        "canonicalize-flags"@,
        "clean"@,
        "config"@,
        "coverage"@,
        "cquery"@,
        "dump"@,
        "fetch"@,
        "help"@,
        "info"@,
        "license"@,
        "mobile-install"@,
        "mod"@,
        "print_action"@,
        "query"@,
        "run"@,
        "shutdown"@,
        "sync"@,
        "test"@,
        "vendor"@,
        "version"@,
    ]
}

fn all_versions_vec() -> (r: Vec<String>)
    ensures
        strs_view(&r) == all_versions(),
{
    let mut r: Vec<String> = Vec::new();
    r.push(String::from_str("7.0.0"));
    r.push(String::from_str("7.0.1"));
    r.push(String::from_str("7.0.2"));
    r.push(String::from_str("7.1.0"));
    r.push(String::from_str("7.1.1"));
    r.push(String::from_str("7.1.2"));
    r.push(String::from_str("7.2.0"));
    r.push(String::from_str("7.2.1"));
    r.push(String::from_str("7.3.0"));
    r.push(String::from_str("7.3.1"));
    r.push(String::from_str("7.3.2"));
    r.push(String::from_str("7.4.0"));
    r.push(String::from_str("7.4.1"));
    r.push(String::from_str("7.5.0"));
    r.push(String::from_str("8.0.0"));
    r.push(String::from_str("8.0.1"));
    r.push(String::from_str("9.0.0-pre.20250121.1"));
    proof {
        assert(strs_view(&r) =~= all_versions());
    }
    r
}

fn v7_versions_vec() -> (r: Vec<String>)
    ensures
        strs_view(&r) == v7_versions(),
{
    let mut r: Vec<String> = Vec::new();
    r.push(String::from_str("7.0.0"));
    r.push(String::from_str("7.0.1"));
    r.push(String::from_str("7.0.2"));
    r.push(String::from_str("7.1.0"));
    r.push(String::from_str("7.1.1"));
    r.push(String::from_str("7.1.2"));
    r.push(String::from_str("7.2.0"));
    r.push(String::from_str("7.2.1"));
    r.push(String::from_str("7.3.0"));
    r.push(String::from_str("7.3.1"));
    r.push(String::from_str("7.3.2"));
    r.push(String::from_str("7.4.0"));
    r.push(String::from_str("7.4.1"));
    r.push(String::from_str("7.5.0"));
    proof {
        assert(strs_view(&r) =~= v7_versions());
    }
    r
}

fn cmds_most_vec() -> (r: Vec<String>)
    ensures
        strs_view(&r) == cmds_most(),
{
    let mut r: Vec<String> = Vec::new();
    r.push(String::from_str("analyze-profile"));
    r.push(String::from_str("aquery"));
    r.push(String::from_str("build"));
    r.push(String::from_str("canonicalize-flags"));
    r.push(String::from_str("clean"));
    r.push(String::from_str("config"));
    r.push(String::from_str("coverage"));
    r.push(String::from_str("cquery"));
    r.push(String::from_str("dump"));
    r.push(String::from_str("fetch"));
    r.push(String::from_str("help"));
    r.push(String::from_str("info"));
    r.push(String::from_str("license"));
    r.push(String::from_str("mobile-install"));
    r.push(String::from_str("mod"));
    r.push(String::from_str("print_action"));
    r.push(String::from_str("query"));
    r.push(String::from_str("run"));
    r.push(String::from_str("shutdown"));
    r.push(String::from_str("sync"));
    r.push(String::from_str("test"));
    r.push(String::from_str("vendor"));
    r.push(String::from_str("version"));
    proof {
        assert(strs_view(&r) =~= cmds_most());
    }
    r
}

fn startup_vec() -> (r: Vec<String>)
    ensures
        strs_view(&r) == seq!["startup"@],
{
    let mut r: Vec<String> = Vec::new();
    r.push(String::from_str("startup"));
    proof {
        assert(strs_view(&r) =~= seq!["startup"@]);
    }
    r
}

/// One descriptor of the dataset, with everything a descriptor of the
/// curated collection leaves unset.
pub open spec fn plain_flag(
    name: Seq<char>,
    abbreviation: Option<Seq<char>>,
    old_name: Option<Seq<char>>,
    has_negative_flag: Option<bool>,
    requires_value: Option<bool>,
    commands: Seq<Seq<char>>,
    effect_tags: Seq<Seq<char>>,
    metadata_tags: Seq<Seq<char>>,
    versions: Seq<Seq<char>>,
) -> FlagInfoV {
    FlagInfoV {
        name,
        has_negative_flag,
        documentation: None,
        commands,
        abbreviation,
        allows_multiple: None,
        effect_tags,
        metadata_tags,
        documentation_category: None,
        requires_value,
        old_name,
        deprecation_warning: None,
        bazel_versions: versions,
    }
}

/// The descriptors of the packaged dataset.
pub open spec fn packaged_flag_data() -> Seq<FlagInfoV> {
    seq![
        plain_flag(
            "keep_going"@,
            Some("k"@),
            None,
            Some(true),
            None,
            cmds_most(),
            Seq::empty(),
            Seq::empty(),
            all_versions(),
        ),
        plain_flag(
            "disk_cache"@,
            None,
            None,
            None,
            Some(true),
            cmds_most(),
            Seq::empty(),
            Seq::empty(),
            all_versions(),
        ),
        plain_flag(
            "remote_cache"@,
            None,
            None,
            None,
            Some(true),
            cmds_most(),
            Seq::empty(),
            Seq::empty(),
            all_versions(),
        ),
        plain_flag(
            "remote_upload_local_results"@,
            None,
            None,
            Some(true),
            None,
            cmds_most(),
            Seq::empty(),
            Seq::empty(),
            all_versions(),
        ),
        plain_flag(
            "copt"@,
            None,
            None,
            None,
            Some(true),
            cmds_most(),
            Seq::empty(),
            Seq::empty(),
            all_versions(),
        ),
        plain_flag(
            "compilation_mode"@,
            Some("c"@),
            None,
            None,
            None,
            cmds_most(),
            Seq::empty(),
            Seq::empty(),
            all_versions(),
        ),
        plain_flag(
            "legacy_whole_archive"@,
            None,
            None,
            Some(true),
            None,
            cmds_most(),
            Seq::empty(),
            seq!["DEPRECATED"@],
            all_versions(),
        ),
        plain_flag(
            "incompatible_override_toolchain_transition"@,
            None,
            None,
            Some(true),
            None,
            cmds_most(),
            seq!["NO_OP"@],
            Seq::empty(),
            all_versions(),
        ),
        plain_flag(
            "remote_executor"@,
            None,
            Some("remote_worker"@),
            None,
            Some(true),
            cmds_most(),
            Seq::empty(),
            Seq::empty(),
            all_versions(),
        ),
        plain_flag(
            "preemptible"@,
            None,
            None,
            Some(true),
            None,
            seq!["startup"@],
            Seq::empty(),
            Seq::empty(),
            all_versions(),
        ),
        plain_flag(
            "digest_function"@,
            None,
            None,
            None,
            Some(true),
            seq!["startup"@],
            Seq::empty(),
            Seq::empty(),
            all_versions(),
        ),
        plain_flag(
            "python3_path"@,
            None,
            None,
            None,
            Some(true),
            seq!["startup"@],
            Seq::empty(),
            Seq::empty(),
            v7_versions(),
        ),
    ]
}

/// Builds one descriptor.
fn mk_flag(
    name: &str,
    abbreviation: Option<&str>,
    old_name: Option<&str>,
    has_negative_flag: Option<bool>,
    requires_value: Option<bool>,
    commands: Vec<String>,
    effect_tags: Vec<String>,
    metadata_tags: Vec<String>,
    versions: Vec<String>,
) -> (r: FlagInfo)
    ensures
        r@ == plain_flag(
            name@,
            match abbreviation {
                Some(a) => Some(a@),
                None => None,
            },
            match old_name {
                Some(o) => Some(o@),
                None => None,
            },
            has_negative_flag,
            requires_value,
            strs_view(&commands),
            strs_view(&effect_tags),
            strs_view(&metadata_tags),
            strs_view(&versions),
        ),
{
    let r = FlagInfo {
        name: String::from_str(name),
        has_negative_flag,
        documentation: None,
        commands,
        abbreviation: match abbreviation {
            Some(a) => Some(String::from_str(a)),
            None => None,
        },
        allows_multiple: None,
        effect_tags,
        metadata_tags,
        documentation_category: None,
        requires_value,
        old_name: match old_name {
            Some(o) => Some(String::from_str(o)),
            None => None,
        },
        deprecation_warning: None,
        bazel_versions: versions,
    };
    proof {
        assert(r@ =~~= plain_flag(
            name@,
            match abbreviation {
                Some(a) => Some(a@),
                None => None,
            },
            match old_name {
                Some(o) => Some(o@),
                None => None,
            },
            has_negative_flag,
            requires_value,
            strs_view(&r.commands),
            strs_view(&r.effect_tags),
            strs_view(&r.metadata_tags),
            strs_view(&r.bazel_versions),
        ));
    }
    r
}

fn empty_strs() -> (r: Vec<String>)
    ensures
        strs_view(&r) == Seq::<Seq<char>>::empty(),
{
    let r: Vec<String> = Vec::new();
    proof {
        assert(strs_view(&r) =~= Seq::<Seq<char>>::empty());
    }
    r
}

fn one_str(s: &str) -> (r: Vec<String>)
    ensures
        strs_view(&r) == seq![s@],
{
    let mut r: Vec<String> = Vec::new();
    r.push(String::from_str(s));
    proof {
        assert(strs_view(&r) =~= seq![s@]);
    }
    r
}

/// The packaged dataset: the curated descriptors and the version strings
/// they are indexed for.
pub fn bazel_flag_collection() -> (r: FlagCollection)
    ensures
        flags_view(r.flag_infos@) == packaged_flag_data(),
        strs_view(&r.all_bazel_versions) == all_versions(),
{
    let mut fs: Vec<FlagInfo> = Vec::new();
    fs.push(
        mk_flag(
            "keep_going",
            Some("k"),
            None,
            Some(true),
            None,
            cmds_most_vec(),
            empty_strs(),
            empty_strs(),
            all_versions_vec(),
        ),
    );
    fs.push(
        mk_flag(
            "disk_cache",
            None,
            None,
            None,
            Some(true),
            cmds_most_vec(),
            empty_strs(),
            empty_strs(),
            all_versions_vec(),
        ),
    );
    fs.push(
        mk_flag(
            "remote_cache",
            None,
            None,
            None,
            Some(true),
            cmds_most_vec(),
            empty_strs(),
            empty_strs(),
            all_versions_vec(),
        ),
    );
    fs.push(
        mk_flag(
            "remote_upload_local_results",
            None,
            None,
            Some(true),
            None,
            cmds_most_vec(),
            empty_strs(),
            empty_strs(),
            all_versions_vec(),
        ),
    );
    fs.push(
        mk_flag(
            "copt",
            None,
            None,
            None,
            Some(true),
            cmds_most_vec(),
            empty_strs(),
            empty_strs(),
            all_versions_vec(),
        ),
    );
    fs.push(
        mk_flag(
            "compilation_mode",
            Some("c"),
            None,
            None,
            None,
            cmds_most_vec(),
            empty_strs(),
            empty_strs(),
            all_versions_vec(),
        ),
    );
    fs.push(
        mk_flag(
            "legacy_whole_archive",
            None,
            None,
            Some(true),
            None,
            cmds_most_vec(),
            empty_strs(),
            one_str("DEPRECATED"),
            all_versions_vec(),
        ),
    );
    fs.push(
        mk_flag(
            "incompatible_override_toolchain_transition",
            None,
            None,
            Some(true),
            None,
            cmds_most_vec(),
            one_str("NO_OP"),
            empty_strs(),
            all_versions_vec(),
        ),
    );
    fs.push(
        mk_flag(
            "remote_executor",
            None,
            Some("remote_worker"),
            None,
            Some(true),
            cmds_most_vec(),
            empty_strs(),
            empty_strs(),
            all_versions_vec(),
        ),
    );
    fs.push(
        mk_flag(
            "preemptible",
            None,
            None,
            Some(true),
            None,
            startup_vec(),
            empty_strs(),
            empty_strs(),
            all_versions_vec(),
        ),
    );
    fs.push(
        mk_flag(
            "digest_function",
            None,
            None,
            None,
            Some(true),
            startup_vec(),
            empty_strs(),
            empty_strs(),
            all_versions_vec(),
        ),
    );
    fs.push(
        mk_flag(
            "python3_path",
            None,
            None,
            None,
            Some(true),
            startup_vec(),
            empty_strs(),
            empty_strs(),
            v7_versions_vec(),
        ),
    );
    proof {
        assert(flags_view(fs@) =~~= packaged_flag_data());
    }
    FlagCollection { flag_infos: fs, all_bazel_versions: all_versions_vec() }
}

/// The flag knowledge base of the packaged dataset for one tool version:
/// only the descriptors whose version list holds `bazel_version` are
/// reachable through the indices.
pub fn load_bazel_flags(bazel_version: &str) -> (r: BazelFlags)
    ensures
        r.wf(),
        flags_view(r.flags@) == packaged_flag_data(),
        forall|q: Seq<char>|
            #[trigger] r.flags_by_name.spec_get(q) == crate::bazel_flags::spec_name_lookup(
                packaged_flag_data(),
                bazel_version@,
                packaged_flag_data().len() as int,
                q,
            ),
        forall|q: Seq<char>|
            #[trigger] r.flags_by_abbreviation.spec_get(q)
                == crate::bazel_flags::spec_abbrev_lookup(
                packaged_flag_data(),
                bazel_version@,
                packaged_flag_data().len() as int,
                q,
            ),
        forall|q: Seq<char>|
            #[trigger] r.flags_by_old_name.spec_get(q)
                == crate::bazel_flags::spec_old_name_lookup(
                packaged_flag_data(),
                bazel_version@,
                packaged_flag_data().len() as int,
                q,
            ),
        forall|q: Seq<char>|
            #[trigger] r.flags_by_commands.spec_get(q) == crate::bazel_flags::spec_cmd_map_get(
                packaged_flag_data(),
                bazel_version@,
                q,
            ),
        strs_view(&r.commands) == crate::bazel_flags::spec_all_keys(
            packaged_flag_data(),
            bazel_version@,
        ) + seq!["import"@, "try-import"@],
{
    let collection = bazel_flag_collection();
    BazelFlags::from_flags(collection.flag_infos, bazel_version)
}

} // verus!
