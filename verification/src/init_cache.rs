//! The cache of the compiled Steel init script: its file paths, the key and
//! source stamps that decide whether a cached artifact is still current,
//! and the checksum that guards the artifact's bytes.

use vstd::prelude::*;

use vstd::string::StringExecFns;

use crate::kernel::path_in;
use crate::paths::{compare_paths, lemma_path_order, path_components, path_order, same_path};
use crate::text_annotations::{kept, lemma_kept_insert_rejected};
use crate::text::{chars_equal, chars_of};

verus! {

/// The FNV-1a offset basis for 64-bit hashes.
pub const FNV_OFFSET_BASIS: u64 = 0xcbf29ce484222325;

/// The FNV-1a prime for 64-bit hashes.
pub const FNV_PRIME: u64 = 0x100000001b3;

/// One FNV-1a step: xor the byte in, then multiply modulo 2^64.
pub open spec fn fnv1a_step(hash: u64, byte: u8) -> u64 {
    ((hash ^ (byte as u64)) as int * FNV_PRIME as int % 0x1_0000_0000_0000_0000) as u64
}

/// FNV-1a hash of a byte sequence, folded from the left.
pub open spec fn fnv1a_spec(bytes: Seq<u8>) -> u64
    decreases bytes.len(),
{
    if bytes.len() == 0 {
        FNV_OFFSET_BASIS
    } else {
        fnv1a_step(fnv1a_spec(bytes.drop_last()), bytes.last())
    }
}

/// 64-bit FNV-1a checksum of `bytes`.
pub fn fnv1a(bytes: &[u8]) -> (hash: u64)
    ensures
        hash == fnv1a_spec(bytes@),
{
    let mut hash: u64 = FNV_OFFSET_BASIS;
    let mut i: usize = 0;
    while i < bytes.len()
        invariant
            i <= bytes.len(),
            hash == fnv1a_spec(bytes@.subrange(0, i as int)),
        decreases bytes.len() - i,
    {
        proof {
            assert(bytes@.subrange(0, i as int + 1).drop_last() =~= bytes@.subrange(0, i as int));
        }
        hash = (hash ^ (bytes[i] as u64)).wrapping_mul(FNV_PRIME);
        i = i + 1;
    }
    proof {
        assert(bytes@.subrange(0, bytes@.len() as int) =~= bytes@);
    }
    hash
}


/// The Steel revision whose compiled artifacts this cache accepts.
pub const STEEL_COMPAT_REV: &'static str = "785149c";

/// The file name of the compiled artifact.
pub const ARTIFACT_FILE: &'static str = "steel-init.bin";

/// The file name of the manifest that describes the artifact.
pub const MANIFEST_FILE: &'static str = "steel-init.manifest";

/// The largest artifact decoded: 512 MiB.
pub const ARTIFACT_SIZE_LIMIT: u64 = 536870912;

/// Where the artifact and its manifest are kept.
pub struct CachePaths {
    artifact: String,
    manifest: String,
}

impl CachePaths {
    /// The paths of the artifact.
    pub closed spec fn artifact_path(&self) -> Seq<char> {
        self.artifact@
    }

    /// The path of the manifest.
    pub closed spec fn manifest_path(&self) -> Seq<char> {
        self.manifest@
    }

    /// The artifact and manifest files in the cache directory `dir`.
    pub fn in_dir(dir: &str) -> (r: CachePaths)
        ensures
            r.artifact_path() == path_in(dir@, ARTIFACT_FILE@),
            r.manifest_path() == path_in(dir@, MANIFEST_FILE@),
    {
        let mut artifact = dir.to_owned();
        artifact.append("/");
        artifact.append(ARTIFACT_FILE);
        let mut manifest = dir.to_owned();
        manifest.append("/");
        manifest.append(MANIFEST_FILE);
        proof {
            reveal_strlit("/");
        }
        CachePaths { artifact, manifest }
    }

    /// The path of the artifact.
    pub fn artifact(&self) -> (r: &str)
        ensures
            r@ == self.artifact_path(),
    {
        self.artifact.as_str()
    }

    /// The path of the manifest.
    pub fn manifest(&self) -> (r: &str)
        ensures
            r@ == self.manifest_path(),
    {
        self.manifest.as_str()
    }
}

/// The path a file is first written to before it is renamed into place.
pub fn temporary_path(target: &str) -> (r: String)
    ensures
        r@ == target@ + ".tmp"@,
{
    let mut tmp = target.to_owned();
    tmp.append(".tmp");
    tmp
}

/// What a cached artifact was built by: the editor build, the Steel
/// revision, and the Steel home directory.
#[derive(Debug)]
pub struct CacheKey {
    pub hx_build: String,
    pub steel_compat: String,
    pub steel_home: String,
}

impl CacheKey {
    /// The key of this build of the editor, `hx_build`, with the Steel
    /// home directory `steel_home`: the Steel revision the cache accepts,
    /// and the home directory, or an empty path where there is none.
    pub fn current(hx_build: &str, steel_home: Option<String>) -> (r: CacheKey)
        ensures
            r.hx_build@ == hx_build@,
            r.steel_compat@ == STEEL_COMPAT_REV@,
            r.steel_home@ == match steel_home {
                Some(home) => home@,
                None => Seq::<char>::empty(),
            },
    {
        let steel_home = match steel_home {
            Some(home) => home,
            None => String::new(),
        };
        CacheKey { hx_build: hx_build.to_owned(), steel_compat: STEEL_COMPAT_REV.to_owned(), steel_home }
    }
}

/// What a source file looked like: its path, modification time and size.
#[derive(Debug)]
pub struct SourceStamp {
    pub path: String,
    pub mtime_secs: u64,
    pub mtime_nanos: u32,
    pub size: u64,
}

impl Clone for SourceStamp {
    fn clone(&self) -> (r: SourceStamp)
        ensures
            r == *self,
    {
        SourceStamp {
            path: self.path.clone(),
            mtime_secs: self.mtime_secs,
            mtime_nanos: self.mtime_nanos,
            size: self.size,
        }
    }
}

/// Whether two stamps record the same path, time and size.
pub open spec fn same_stamp(a: SourceStamp, b: SourceStamp) -> bool {
    &&& a.path@ == b.path@
    &&& a.mtime_secs == b.mtime_secs
    &&& a.mtime_nanos == b.mtime_nanos
    &&& a.size == b.size
}

/// Whether two stamps record the same path, time and size.
pub fn stamps_equal(a: &SourceStamp, b: &SourceStamp) -> (r: bool)
    ensures
        r == same_stamp(*a, *b),
{
    a.path == b.path && a.mtime_secs == b.mtime_secs && a.mtime_nanos == b.mtime_nanos && a.size == b.size
}

/// What the cache recorded of a compiled artifact: the key it was built
/// under, the stamps of the editor binary, the init script and every module
/// it loaded, and the artifact's length and checksum.
#[derive(Debug)]
pub struct InitCacheManifest {
    pub hx_build: String,
    pub steel_compat: String,
    pub steel_home: String,
    pub hx_binary: SourceStamp,
    pub init_script: SourceStamp,
    pub modules: Vec<SourceStamp>,
    pub artifact_len: u64,
    pub artifact_checksum: u64,
}

/// Looking at `stamp`'s path now gave a stamp equal to it.
pub open spec fn observed_current<F: Fn(&String) -> Option<SourceStamp>>(observe: F, stamp: SourceStamp) -> bool {
    exists|seen: SourceStamp| #[trigger] observe.ensures((&stamp.path,), Some(seen)) && same_stamp(seen, stamp)
}

/// Looking at `stamp`'s path now gave nothing, or a stamp that differs.
pub open spec fn observed_stale<F: Fn(&String) -> Option<SourceStamp>>(observe: F, stamp: SourceStamp) -> bool {
    exists|seen: Option<SourceStamp>|
        #[trigger] observe.ensures((&stamp.path,), seen) && !(seen matches Some(s) && same_stamp(s, stamp))
}

/// Whether the source recorded in `stamp` is unchanged: looking at its path
/// now gives the same stamp.
pub fn stamp_current<F: Fn(&String) -> Option<SourceStamp>>(stamp: &SourceStamp, observe: &F) -> (r: bool)
    requires
        forall|p: &String| observe.requires((p,)),
    ensures
        r ==> observed_current(*observe, *stamp),
        !r ==> observed_stale(*observe, *stamp),
{
    let seen = observe(&stamp.path);
    match seen {
        Some(s) => stamps_equal(&s, stamp),
        None => false,
    }
}

/// The stamps a manifest records, in the order they are checked: the
/// editor binary, the init script, then the modules.
pub open spec fn recorded_stamps(manifest: InitCacheManifest) -> Seq<SourceStamp> {
    seq![manifest.hx_binary, manifest.init_script] + manifest.modules@
}

/// Whether the manifest was made under the key `key`, for the init script
/// at `init_path` and the binary at `exe_path`, paths compared by their
/// components.
pub open spec fn manifest_matches(manifest: InitCacheManifest, key: CacheKey, init_path: Seq<char>, exe_path: Seq<char>) -> bool {
    &&& manifest.hx_build@ == key.hx_build@
    &&& manifest.steel_compat@ == key.steel_compat@
    &&& manifest.steel_home@ == key.steel_home@
    &&& path_components(manifest.init_script.path@) == path_components(init_path)
    &&& path_components(manifest.hx_binary.path@) == path_components(exe_path)
}

/// Whether a cached artifact described by `manifest` may still be used: it
/// was built under `key`, for the init script at `init_path` and the binary
/// at `exe_path`, and every source it records is unchanged, as `observe`
/// sees them now.
pub fn manifest_is_current<F: Fn(&String) -> Option<SourceStamp>>(
    manifest: &InitCacheManifest,
    key: &CacheKey,
    init_path: &str,
    exe_path: &str,
    observe: &F,
) -> (r: bool)
    requires
        forall|p: &String| observe.requires((p,)),
    ensures
        r ==> manifest_matches(*manifest, *key, init_path@, exe_path@) && forall|i: int|
            0 <= i < recorded_stamps(*manifest).len() ==> observed_current(
                *observe,
                #[trigger] recorded_stamps(*manifest)[i],
            ),
        !r ==> !manifest_matches(*manifest, *key, init_path@, exe_path@) || exists|i: int|
            0 <= i < recorded_stamps(*manifest).len() && observed_stale(
                *observe,
                #[trigger] recorded_stamps(*manifest)[i],
            ),
{
    let ghost stamps = recorded_stamps(*manifest);
    if !(manifest.hx_build == key.hx_build && manifest.steel_compat == key.steel_compat
        && manifest.steel_home == key.steel_home && same_path(manifest.init_script.path.as_str(), init_path)
        && same_path(manifest.hx_binary.path.as_str(), exe_path)) {
        return false;
    }
    if !stamp_current(&manifest.hx_binary, observe) {
        proof {
            assert(stamps[0] == manifest.hx_binary);
        }
        return false;
    }
    if !stamp_current(&manifest.init_script, observe) {
        proof {
            assert(stamps[1] == manifest.init_script);
        }
        return false;
    }
    let mut i: usize = 0;
    while i < manifest.modules.len()
        invariant
            forall|p: &String| observe.requires((p,)),
            stamps == recorded_stamps(*manifest),
            manifest_matches(*manifest, *key, init_path@, exe_path@),
            i <= manifest.modules@.len(),
            forall|k: int| 0 <= k < i + 2 ==> observed_current(*observe, #[trigger] stamps[k]),
        decreases manifest.modules@.len() - i,
    {
        if !stamp_current(&manifest.modules[i], observe) {
            proof {
                assert(stamps[i + 2] == manifest.modules@[i as int]);
            }
            return false;
        }
        proof {
            assert(stamps[i + 2] == manifest.modules@[i as int]);
        }
        i = i + 1;
    }
    true
}

/// Whether `artifact` is the one the manifest describes: of the recorded
/// length, with the recorded checksum.
pub fn artifact_matches(manifest: &InitCacheManifest, artifact: &[u8]) -> (r: bool)
    ensures
        r == (artifact@.len() == manifest.artifact_len && fnv1a_spec(artifact@) == manifest.artifact_checksum),
{
    artifact.len() as u64 == manifest.artifact_len && fnv1a(artifact) == manifest.artifact_checksum
}

/// Why a module's stamp cannot go in a manifest.
#[derive(Debug, Clone, Copy, PartialEq, Eq, Structural)]
pub enum ModuleStampProblem {
    /// The time the module was compiled at lies before the UNIX epoch.
    PreEpoch,
    /// The module changed between compiling it and stamping it.
    Changed,
}

/// Whether a module stamped now as `stamp` is the one compiled at
/// `compiled`, the compile time split as [`crate::time::mtime_parts`]
/// splits it.
pub fn check_module_stamp(stamp: &SourceStamp, compiled: Option<(u64, u32)>) -> (r: Result<(), ModuleStampProblem>)
    ensures
        r == (match compiled {
            None => Err(ModuleStampProblem::PreEpoch),
            Some((secs, nanos)) => if stamp.mtime_secs == secs && stamp.mtime_nanos == nanos {
                Ok(())
            } else {
                Err(ModuleStampProblem::Changed)
            },
        }),
{
    match compiled {
        None => Err(ModuleStampProblem::PreEpoch),
        Some((secs, nanos)) => if stamp.mtime_secs == secs && stamp.mtime_nanos == nanos {
            Ok(())
        } else {
            Err(ModuleStampProblem::Changed)
        },
    }
}

/// The manifest of the artifact `artifact`, built under `key` from the
/// given stamps.
pub fn new_manifest(
    key: &CacheKey,
    hx_binary: SourceStamp,
    init_script: SourceStamp,
    modules: Vec<SourceStamp>,
    artifact: &[u8],
) -> (r: InitCacheManifest)
    ensures
        r.hx_build == key.hx_build,
        r.steel_compat == key.steel_compat,
        r.steel_home == key.steel_home,
        r.hx_binary == hx_binary,
        r.init_script == init_script,
        r.modules == modules,
        r.artifact_len == artifact@.len(),
        r.artifact_checksum == fnv1a_spec(artifact@),
{
    InitCacheManifest {
        hx_build: key.hx_build.clone(),
        steel_compat: key.steel_compat.clone(),
        steel_home: key.steel_home.clone(),
        hx_binary,
        init_script,
        modules,
        artifact_len: artifact.len() as u64,
        artifact_checksum: fnv1a(artifact),
    }
}


/// The place of `x` among `s`, searching from `from`: before the first
/// stamp whose path comes after `x`'s.
pub open spec fn place_from(s: Seq<SourceStamp>, x: SourceStamp, from: int) -> int
    decreases s.len() - from,
{
    if from < 0 || from >= s.len() {
        s.len() as int
    } else if path_order(s[from].path@, x.path@) > 0 {
        from
    } else {
        place_from(s, x, from + 1)
    }
}

/// The stamps `s` stably sorted by path, as inserting each in turn after
/// the stamps whose paths do not come after its own sorts them.
pub open spec fn sorted_by_path(s: Seq<SourceStamp>) -> Seq<SourceStamp>
    decreases s.len(),
{
    if s.len() == 0 {
        s
    } else {
        let t = sorted_by_path(s.drop_last());
        t.insert(place_from(t, s.last(), 0), s.last())
    }
}

proof fn lemma_place_from_bounds(s: Seq<SourceStamp>, x: SourceStamp, from: int)
    requires
        0 <= from <= s.len(),
    ensures
        from <= place_from(s, x, from) <= s.len(),
    decreases s.len() - from,
{
    if from < s.len() && path_order(s[from].path@, x.path@) <= 0 {
        lemma_place_from_bounds(s, x, from + 1);
    }
}

/// Whether the stamps `s` are in order of their paths.
pub open spec fn ordered_by_path(s: Seq<SourceStamp>) -> bool {
    forall|i: int, j: int| 0 <= i <= j < s.len() ==> path_order(s[i].path@, s[j].path@) <= 0
}

/// The test of a stamp being at the same path as `x`.
pub open spec fn at_path_of(x: SourceStamp) -> spec_fn(SourceStamp) -> bool {
    |y: SourceStamp| path_components(y.path@) == path_components(x.path@)
}

/// Where `x` is placed among stamps ordered by path: after every stamp
/// whose path does not come after its own, before every one whose path
/// does.
proof fn lemma_place_from_splits(t: Seq<SourceStamp>, x: SourceStamp, from: int)
    requires
        ordered_by_path(t),
        0 <= from <= t.len(),
        forall|i: int| 0 <= i < from ==> path_order(#[trigger] t[i].path@, x.path@) <= 0,
    ensures
        forall|i: int| 0 <= i < place_from(t, x, from) ==> path_order(#[trigger] t[i].path@, x.path@) <= 0,
        forall|i: int| place_from(t, x, from) <= i < t.len() ==> path_order(#[trigger] t[i].path@, x.path@) > 0,
    decreases t.len() - from,
{
    if from < t.len() {
        if path_order(t[from].path@, x.path@) > 0 {
            assert forall|i: int| from <= i < t.len() implies path_order(#[trigger] t[i].path@, x.path@) > 0 by {
                lemma_path_order(t[from].path@, t[i].path@, x.path@);
                lemma_path_order(t[i].path@, x.path@, t[from].path@);
                lemma_path_order(x.path@, t[from].path@, t[i].path@);
            }
        } else {
            lemma_place_from_splits(t, x, from + 1);
        }
    }
}

/// Inserting a kept item after every kept item keeps it last.
proof fn lemma_kept_insert_after(t: Seq<SourceStamp>, k: int, x: SourceStamp, keep: spec_fn(SourceStamp) -> bool)
    requires
        0 <= k <= t.len(),
        keep(x),
        forall|i: int| k <= i < t.len() ==> !keep(#[trigger] t[i]),
    ensures
        kept(t.insert(k, x), keep) == kept(t, keep).push(x),
    decreases t.len(),
{
    if k == t.len() {
        assert(t.insert(k, x) =~= t.push(x));
        assert(t.push(x).drop_last() =~= t);
    } else {
        let init = t.drop_last();
        lemma_kept_insert_after(init, k, x, keep);
        assert(t.insert(k, x).drop_last() =~= init.insert(k, x));
        assert(t.insert(k, x).last() == t.last());
        assert(!keep(t[t.len() - 1]));
    }
}

/// Sorting stamps by path orders them by path, keeps every stamp, one for
/// one, and is stable: the stamps at any one path keep their order.
pub proof fn lemma_sorted_by_path(s: Seq<SourceStamp>)
    ensures
        ordered_by_path(sorted_by_path(s)),
        sorted_by_path(s).to_multiset() == s.to_multiset(),
        forall|x: SourceStamp| #[trigger] kept(sorted_by_path(s), at_path_of(x)) == kept(s, at_path_of(x)),
    decreases s.len(),
{
    broadcast use vstd::seq_lib::group_to_multiset_ensures;

    if s.len() == 0 {
        assert forall|i: int, j: int| 0 <= i <= j < s.len() implies path_order(s[i].path@, s[j].path@) <= 0 by {}
    } else {
        let init = s.drop_last();
        let x = s.last();
        lemma_sorted_by_path(init);
        let t = sorted_by_path(init);
        lemma_place_from_bounds(t, x, 0);
        lemma_place_from_splits(t, x, 0);
        let k = place_from(t, x, 0);
        let r = t.insert(k, x);
        assert(r == sorted_by_path(s));
        assert forall|i: int, j: int| 0 <= i <= j < r.len() implies path_order(r[i].path@, r[j].path@) <= 0 by {
            if i < k && j < k {
                assert(r[i] == t[i] && r[j] == t[j]);
            } else if i > k && j > k {
                assert(r[i] == t[i - 1] && r[j] == t[j - 1]);
            } else if i < k && j > k {
                assert(r[i] == t[i] && r[j] == t[j - 1]);
            } else if i == k && j == k {
                lemma_path_order(x.path@, x.path@, x.path@);
            } else if i == k {
                assert(r[j] == t[j - 1]);
                lemma_path_order(t[j - 1].path@, x.path@, x.path@);
            } else {
                assert(r[i] == t[i]);
            }
        }
        assert(r.remove(k) =~= t);
        assert(r.remove(k).to_multiset() =~= r.to_multiset().remove(r[k]));
        assert(r.to_multiset().count(x) > 0) by {
            assert(r.contains(x)) by {
                assert(r[k] == x);
            }
        }
        assert(s =~= init.push(x));
        assert(r.to_multiset() =~= s.to_multiset());
        assert forall|y: SourceStamp| #[trigger] kept(sorted_by_path(s), at_path_of(y)) == kept(s, at_path_of(y)) by {
            let keep = at_path_of(y);
            assert(kept(t, keep) == kept(init, keep));
            if keep(x) {
                assert forall|i: int| k <= i < t.len() implies !keep(#[trigger] t[i]) by {
                    lemma_path_order(t[i].path@, x.path@, x.path@);
                }
                lemma_kept_insert_after(t, k, x, keep);
            } else {
                lemma_kept_insert_rejected(t, k, x, keep);
            }
        }
    }
}

/// Where `x` goes among `v`.
fn place_of(v: &Vec<SourceStamp>, x: &SourceStamp) -> (r: usize)
    ensures
        r == place_from(v@, *x, 0),
{
    let mut i: usize = 0;
    while i < v.len()
        invariant
            i <= v@.len(),
            place_from(v@, *x, 0) == place_from(v@, *x, i as int),
        decreases v@.len() - i,
    {
        if compare_paths(v[i].path.as_str(), x.path.as_str()) > 0 {
            return i;
        }
        i = i + 1;
    }
    i
}

/// The stamps stably sorted by path, as the manifest lists its modules:
/// in order of their paths, every stamp kept, and the stamps at any one
/// path in the order they came in (see [`lemma_sorted_by_path`]).
pub fn sort_stamps_by_path(stamps: Vec<SourceStamp>) -> (r: Vec<SourceStamp>)
    ensures
        r@ == sorted_by_path(stamps@),
        ordered_by_path(r@),
        r@.to_multiset() == stamps@.to_multiset(),
        forall|x: SourceStamp| #[trigger] kept(r@, at_path_of(x)) == kept(stamps@, at_path_of(x)),
{
    let ghost items = stamps@;
    let mut v = stamps;
    let mut sorted: Vec<SourceStamp> = Vec::new();
    let mut k: usize = 0;
    proof {
        assert(items.len() == v.len());
    }
    while v.len() > 0
        invariant
            items.len() <= usize::MAX,
            k <= items.len(),
            v@ == items.skip(k as int),
            sorted@ == sorted_by_path(items.take(k as int)),
        decreases v@.len(),
    {
        proof {
            assert(v@.len() == items.len() - k);
        }
        let x = v.remove(0);
        proof {
            assert(x == items[k as int]);
            assert(items.take(k as int + 1).drop_last() =~= items.take(k as int));
            assert(items.take(k as int + 1).last() == items[k as int]);
            assert(v@ =~= items.skip(k as int + 1));
        }
        let p = place_of(&sorted, &x);
        proof {
            lemma_place_from_bounds(sorted@, x, 0);
        }
        sorted.insert(p, x);
        k = k + 1;
    }
    proof {
        assert(items.take(k as int) =~= items);
        lemma_sorted_by_path(items);
    }
    sorted
}

/// How far running the init script from the cache has come: looking the
/// cached program up, preparing it, or running it.
#[derive(Clone, Copy, Debug, PartialEq, Eq, Structural)]
pub enum InitStep {
    Lookup,
    Prepare,
    RunCached,
}

/// What to do next when running the init script.
#[derive(Clone, Copy, Debug, PartialEq, Eq, Structural)]
pub enum InitAction {
    /// Prepare the cached program that was found.
    PrepareCached,
    /// Run the prepared cached program.
    RunCached,
    /// The cached program ran: its result is the script's.
    Finish,
    /// The cache is unusable: discard it, then compile from source.
    DiscardAndCompile,
    /// There is no usable cache: compile from source (and cache the result).
    Compile,
}

/// The next thing to do after the step `step` succeeded or failed: a
/// cached program that is found is prepared and run; a missing one means
/// compiling from source; and a cached program that cannot be prepared or
/// fails when run is discarded before compiling from source.
pub fn next_init_action(step: InitStep, succeeded: bool) -> (r: InitAction)
    ensures
        r == match step {
            InitStep::Lookup => if succeeded {
                InitAction::PrepareCached
            } else {
                InitAction::Compile
            },
            InitStep::Prepare => if succeeded {
                InitAction::RunCached
            } else {
                InitAction::DiscardAndCompile
            },
            InitStep::RunCached => if succeeded {
                InitAction::Finish
            } else {
                InitAction::DiscardAndCompile
            },
        },
{
    match step {
        InitStep::Lookup => if succeeded {
            InitAction::PrepareCached
        } else {
            InitAction::Compile
        },
        InitStep::Prepare => if succeeded {
            InitAction::RunCached
        } else {
            InitAction::DiscardAndCompile
        },
        InitStep::RunCached => if succeeded {
            InitAction::Finish
        } else {
            InitAction::DiscardAndCompile
        },
    }
}

} // verus!
