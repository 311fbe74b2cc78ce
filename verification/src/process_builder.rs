//! A value type describing one external process invocation.
//!
//! A `ProcessBuilder` holds the program, its arguments, the working
//! directory, an injected snapshot of the inheriting process's
//! environment, explicit environment overrides (where `None` means
//! "unset"), and extra search-path entries.  Every configuration call
//! returns a new, independent value, so a partially configured builder
//! can be branched safely.  The effective child environment is computed
//! here as plain data; spawning the process and observing its outcome is
//! the caller's affair, reported back as a plain event and interpreted by
//! the functions at the end of this module.

use vstd::prelude::*;
use vstd::pervasive::VecAdditionalExecFns;
use crate::errors::{CargoError, ProcessError};

verus! {

/// First-match lookup of `k` among the keys of an association list.
pub open spec fn assoc_lookup<V>(s: Seq<(String, V)>, k: Seq<char>) -> Option<V>
    decreases s.len(),
{
    if s.len() == 0 {
        None
    } else if s[0].0@ == k {
        Some(s[0].1)
    } else {
        assoc_lookup(s.drop_first(), k)
    }
}

/// The keys of the association list are pairwise distinct.
pub open spec fn keys_unique<V>(s: Seq<(String, V)>) -> bool {
    forall|i: int, j: int| 0 <= i < j < s.len() ==> (#[trigger] s[i]).0@ != (#[trigger] s[j]).0@
}

/// A first match at position `i` decides the lookup.
proof fn lemma_assoc_first<V>(s: Seq<(String, V)>, i: int, k: Seq<char>)
    requires
        0 <= i < s.len(),
        forall|j: int| 0 <= j < i ==> (#[trigger] s[j]).0@ != k,
        s[i].0@ == k,
    ensures
        assoc_lookup(s, k) == Some(s[i].1),
    decreases i,
{
    if i == 0 {
    } else {
        assert(s.drop_first()[i - 1] == s[i]);
        assert(s[0].0@ != k);
        lemma_assoc_first(s.drop_first(), i - 1, k);
    }
}

/// The lookup misses exactly when no key matches.
proof fn lemma_assoc_absent<V>(s: Seq<(String, V)>, k: Seq<char>)
    ensures
        assoc_lookup(s, k) is None <==> forall|j: int|
            0 <= j < s.len() ==> (#[trigger] s[j]).0@ != k,
    decreases s.len(),
{
    if s.len() > 0 {
        lemma_assoc_absent(s.drop_first(), k);
        if s[0].0@ == k {
            assert(assoc_lookup(s, k) is Some);
        } else {
            if assoc_lookup(s, k) is None {
                assert forall|j: int| 0 <= j < s.len() implies (#[trigger] s[j]).0@ != k by {
                    if j > 0 {
                        assert(s.drop_first()[j - 1] == s[j]);
                    }
                }
            } else {
                let jj = choose|j: int|
                    0 <= j < s.drop_first().len() && (#[trigger] s.drop_first()[j]).0@ == k;
                assert(s[jj + 1].0@ == k);
            }
        }
    }
}

/// Appending an entry only affects the lookup of keys the list lacked.
proof fn lemma_assoc_push<V>(s: Seq<(String, V)>, e: (String, V), k: Seq<char>)
    ensures
        assoc_lookup(s.push(e), k) == match assoc_lookup(s, k) {
            Some(v) => Some(v),
            None => if e.0@ == k {
                Some(e.1)
            } else {
                None
            },
        },
    decreases s.len(),
{
    if s.len() == 0 {
        assert(s.push(e).len() == 1);
        assert(s.push(e)[0] == e);
        assert(s.push(e).drop_first() =~= Seq::<(String, V)>::empty());
        assert(assoc_lookup(Seq::<(String, V)>::empty(), k) is None);
        assert(assoc_lookup(s, k) is None);
        if e.0@ == k {
            assert(assoc_lookup(s.push(e), k) == Some(e.1));
        } else {
            assert(assoc_lookup(s.push(e), k) is None);
        }
    } else {
        assert(s.push(e)[0] == s[0]);
        assert(s.push(e).drop_first() =~= s.drop_first().push(e));
        lemma_assoc_push(s.drop_first(), e, k);
        if s[0].0@ == k {
            assert(assoc_lookup(s.push(e), k) == Some(s[0].1));
            assert(assoc_lookup(s, k) == Some(s[0].1));
        } else {
            assert(assoc_lookup(s.push(e), k) == assoc_lookup(s.drop_first().push(e), k));
            assert(assoc_lookup(s, k) == assoc_lookup(s.drop_first(), k));
        }
    }
}

/// Replacing the first entry of a key changes that key's lookup alone.
proof fn lemma_assoc_update<V>(s: Seq<(String, V)>, i: int, e: (String, V), k: Seq<char>)
    requires
        0 <= i < s.len(),
        e.0@ == s[i].0@,
        forall|j: int| 0 <= j < i ==> (#[trigger] s[j]).0@ != e.0@,
    ensures
        k == e.0@ ==> assoc_lookup(s.update(i, e), k) == Some(e.1),
        k != e.0@ ==> assoc_lookup(s.update(i, e), k) == assoc_lookup(s, k),
    decreases i,
{
    if i == 0 {
        assert(s.update(0, e).len() == s.len());
        assert(s.update(0, e)[0] == e);
        assert(s.update(0, e).drop_first() =~= s.drop_first());
        if k == e.0@ {
            assert(assoc_lookup(s.update(0, e), k) == Some(e.1));
        } else {
            assert(assoc_lookup(s.update(0, e), k) == assoc_lookup(s.drop_first(), k));
            assert(assoc_lookup(s, k) == assoc_lookup(s.drop_first(), k));
        }
    } else {
        assert(s.update(i, e)[0] == s[0]);
        assert(s.update(i, e).drop_first() =~= s.drop_first().update(i - 1, e));
        lemma_assoc_update(s.drop_first(), i - 1, e, k);
        assert(s[0].0@ != e.0@);
    }
}

/// The characters of `parts` joined with the separator `sep` between
/// consecutive parts.
pub open spec fn join_with(parts: Seq<Seq<char>>, sep: Seq<char>) -> Seq<char>
    decreases parts.len(),
{
    if parts.len() == 0 {
        Seq::empty()
    } else if parts.len() == 1 {
        parts[0]
    } else {
        join_with(parts.drop_last(), sep) + sep + parts.last()
    }
}

/// Joins strings with a separator.
fn join(parts: &Vec<String>, sep: &str) -> (r: String)
    ensures
        r@ == join_with(parts.deep_view(), sep@),
{
    let mut r = String::new();
    let mut i: usize = 0;
    while i < parts.len()
        invariant
            0 <= i <= parts@.len(),
            parts.deep_view().len() == parts@.len(),
            forall|j: int| 0 <= j < parts@.len() ==> parts.deep_view()[j] == (#[trigger] parts@[j])@,
            r@ == join_with(parts.deep_view().subrange(0, i as int), sep@),
        decreases parts@.len() - i,
    {
        let ghost pre = parts.deep_view().subrange(0, i as int);
        let ghost cur = parts.deep_view().subrange(0, i + 1 as int);
        if i > 0 {
            r.append(sep);
        }
        r.append(parts[i].as_str());
        proof {
            assert(cur.drop_last() =~= pre);
            assert(cur.last() == parts.deep_view()[i as int]);
            if i == 0 {
                assert(cur.len() == 1);
                assert(join_with(cur, sep@) == cur[0]);
            }
        }
        i += 1;
    }
    proof {
        assert(parts.deep_view().subrange(0, parts@.len() as int) =~= parts.deep_view());
    }
    r
}

/// The captured streams and exit code of a completed process.
#[derive(Debug)]
pub struct ProcessOutput {
    /// The exit code, or `None` when the process was terminated without one.
    pub code: Option<i32>,
    pub stdout: Vec<u8>,
    pub stderr: Vec<u8>,
}

/// What the caller observed when running a process without capturing its
/// output: the spawn failed outright, or the process ran to an exit.
pub enum SpawnResult {
    /// The process could not be started; `detail` describes why.
    Failed { detail: String },
    /// The process exited; `code` is its exit code, if any.
    Exited { code: Option<i32> },
}

/// What the caller observed when running a process and capturing its
/// output.
pub enum SpawnOutputResult {
    /// The process could not be started, so no output exists.
    Failed { detail: String },
    /// The process exited with the given code and captured streams.
    Captured { code: Option<i32>, stdout: Vec<u8>, stderr: Vec<u8> },
}

/// Describes one external command: program, arguments, extra search-path
/// entries, environment overrides, environment snapshot, and working
/// directory.
pub struct ProcessBuilder {
    pub program: String,
    pub args: Vec<String>,
    /// Extra search-path entries to append to the effective search path.
    pub path: Vec<String>,
    /// Explicit overrides: `Some` sets the key, `None` unsets it.
    pub env: Vec<(String, Option<String>)>,
    /// The inheriting process's environment, injected as a snapshot.
    pub inherited: Vec<(String, String)>,
    pub cwd: String,
}

/// Clones a list of strings element for element.
fn clone_strings(v: &Vec<String>) -> (r: Vec<String>)
    ensures
        r@ == v@,
{
    let mut r: Vec<String> = Vec::new();
    let mut i: usize = 0;
    while i < v.len()
        invariant
            0 <= i <= v@.len(),
            r@ == v@.subrange(0, i as int),
        decreases v@.len() - i,
    {
        r.push(v[i].clone());
        assert(r@ =~= v@.subrange(0, i + 1 as int));
        i += 1;
    }
    assert(r@ =~= v@);
    r
}

/// Clones an override list entry for entry.
fn clone_overrides(v: &Vec<(String, Option<String>)>) -> (r: Vec<(String, Option<String>)>)
    ensures
        r@ == v@,
{
    let mut r: Vec<(String, Option<String>)> = Vec::new();
    let mut i: usize = 0;
    while i < v.len()
        invariant
            0 <= i <= v@.len(),
            r@ == v@.subrange(0, i as int),
        decreases v@.len() - i,
    {
        let value: Option<String> = match &v[i].1 {
            Some(x) => Some(x.clone()),
            None => None,
        };
        r.push((v[i].0.clone(), value));
        assert(r@ =~= v@.subrange(0, i + 1 as int));
        i += 1;
    }
    assert(r@ =~= v@);
    r
}

/// Clones a snapshot list entry for entry.
fn clone_pairs(v: &Vec<(String, String)>) -> (r: Vec<(String, String)>)
    ensures
        r@ == v@,
{
    let mut r: Vec<(String, String)> = Vec::new();
    let mut i: usize = 0;
    while i < v.len()
        invariant
            0 <= i <= v@.len(),
            r@ == v@.subrange(0, i as int),
        decreases v@.len() - i,
    {
        r.push((v[i].0.clone(), v[i].1.clone()));
        assert(r@ =~= v@.subrange(0, i + 1 as int));
        i += 1;
    }
    assert(r@ =~= v@);
    r
}

impl Clone for ProcessBuilder {
    fn clone(&self) -> (r: ProcessBuilder)
        ensures
            r.program == self.program,
            r.args@ == self.args@,
            r.path@ == self.path@,
            r.env@ == self.env@,
            r.inherited@ == self.inherited@,
            r.cwd == self.cwd,
    {
        ProcessBuilder {
            program: self.program.clone(),
            args: clone_strings(&self.args),
            path: clone_strings(&self.path),
            env: clone_overrides(&self.env),
            inherited: clone_pairs(&self.inherited),
            cwd: self.cwd.clone(),
        }
    }
}

impl ProcessBuilder {
    /// Both association lists carry each key at most once.
    pub open spec fn wf(self) -> bool {
        keys_unique(self.env@) && keys_unique(self.inherited@)
    }

    /// The rendered command: the program followed by the space-joined
    /// arguments.
    pub open spec fn spec_debug_string(self) -> Seq<char> {
        self.program@ + " "@ + join_with(self.args.deep_view(), " "@)
    }

    /// The search-path value the overrides and the snapshot provide
    /// before extra entries are appended: an override wins (a `None`
    /// override erases the variable), otherwise the inherited value.
    pub open spec fn spec_path_base(self) -> Option<Seq<char>> {
        match assoc_lookup(self.env@, "PATH"@) {
            Some(ov) => match ov {
                Some(v) => Some(v@),
                None => None,
            },
            None => match assoc_lookup(self.inherited@, "PATH"@) {
                Some(v) => Some(v@),
                None => None,
            },
        }
    }

    /// The effective search-path value: with no extra entries the base
    /// value passes through untouched; otherwise the extra entries are
    /// appended to the base value, joined with the separator, and stand
    /// alone when no base value exists at all.
    pub open spec fn spec_build_path(self) -> Option<Seq<char>> {
        if self.path@.len() == 0 {
            self.spec_path_base()
        } else {
            match self.spec_path_base() {
                Some(e) => Some(e + ":"@ + join_with(self.path.deep_view(), ":"@)),
                None => Some(join_with(self.path.deep_view(), ":"@)),
            }
        }
    }

    /// The effective environment value of a key other than the
    /// search-path variable: an override wins, otherwise the snapshot.
    pub open spec fn spec_env_value(self, k: Seq<char>) -> Option<String> {
        match assoc_lookup(self.env@, k) {
            Some(ov) => ov,
            None => assoc_lookup(self.inherited@, k),
        }
    }

    /// Replaces the argument list, keeping everything else.
    pub fn args(self, arguments: &Vec<String>) -> (r: ProcessBuilder)
        ensures
            r.args@ == arguments@,
            r.program == self.program,
            r.path == self.path,
            r.env == self.env,
            r.inherited == self.inherited,
            r.cwd == self.cwd,
    {
        ProcessBuilder { args: clone_strings(arguments), ..self }
    }

    /// The argument list.
    pub fn get_args(&self) -> (r: &Vec<String>)
        ensures
            r == &self.args,
    {
        &self.args
    }

    /// Appends one extra search-path entry, keeping everything else.
    pub fn extra_path(self, path: String) -> (r: ProcessBuilder)
        ensures
            r.path@ == self.path@.push(path),
            r.program == self.program,
            r.args == self.args,
            r.env == self.env,
            r.inherited == self.inherited,
            r.cwd == self.cwd,
    {
        let mut p = self;
        p.path.push(path);
        p
    }

    /// Replaces the working directory, keeping everything else.
    pub fn cwd(self, path: String) -> (r: ProcessBuilder)
        ensures
            r.cwd == path,
            r.program == self.program,
            r.args == self.args,
            r.path == self.path,
            r.env == self.env,
            r.inherited == self.inherited,
    {
        ProcessBuilder { cwd: path, ..self }
    }

    /// Records an environment override: `Some` sets the key, `None`
    /// unsets it.  The override of every other key, and everything else
    /// in the builder, is untouched.
    pub fn env(self, key: &str, val: Option<&str>) -> (r: ProcessBuilder)
        requires
            self.wf(),
        ensures
            r.wf(),
            match assoc_lookup(r.env@, key@) {
                Some(ov) => match (ov, val) {
                    (Some(s), Some(v)) => s@ == v@,
                    (None, None) => true,
                    _ => false,
                },
                None => false,
            },
            forall|k2: Seq<char>| k2 != key@ ==> assoc_lookup(r.env@, k2) == assoc_lookup(
                self.env@,
                k2,
            ),
            r.program == self.program,
            r.args == self.args,
            r.path == self.path,
            r.inherited == self.inherited,
            r.cwd == self.cwd,
    {
        let owned_key: String = key.to_owned();
        let owned_val: Option<String> = match val {
            Some(v) => Some(v.to_owned()),
            None => None,
        };
        let mut p = self;
        match find_override_index(&p.env, &owned_key) {
            Some(i) => {
                let ghost olds = p.env@;
                let ghost e = (owned_key, owned_val);
                p.env.set(i, (owned_key, owned_val));
                proof {
                    assert(p.env@ =~= olds.update(i as int, e));
                    lemma_assoc_update(olds, i as int, e, key@);
                    assert forall|k2: Seq<char>| k2 != key@ implies assoc_lookup(p.env@, k2)
                        == assoc_lookup(self.env@, k2) by {
                        lemma_assoc_update(olds, i as int, e, k2);
                    }
                    assert forall|a: int, b: int| 0 <= a < b < p.env@.len() implies (
                    #[trigger] p.env@[a]).0@ != (#[trigger] p.env@[b]).0@ by {
                        assert(self.env@[a].0@ != self.env@[b].0@);
                        assert(p.env@[a].0@ == self.env@[a].0@);
                        assert(p.env@[b].0@ == self.env@[b].0@);
                    }
                }
                p
            },
            None => {
                let ghost olds = p.env@;
                let ghost e = (owned_key, owned_val);
                p.env.push((owned_key, owned_val));
                proof {
                    assert(p.env@ =~= olds.push(e));
                    lemma_assoc_push(self.env@, e, key@);
                    lemma_assoc_absent(self.env@, key@);
                    assert(assoc_lookup(self.env@, key@) is None);
                    assert forall|k2: Seq<char>| k2 != key@ implies assoc_lookup(p.env@, k2)
                        == assoc_lookup(self.env@, k2) by {
                        lemma_assoc_push(self.env@, e, k2);
                    }
                    assert forall|a: int, b: int| 0 <= a < b < p.env@.len() implies (
                    #[trigger] p.env@[a]).0@ != (#[trigger] p.env@[b]).0@ by {
                        if b < p.env@.len() - 1 {
                            assert(self.env@[a].0@ != self.env@[b].0@);
                        } else {
                            assert(p.env@[b] == e);
                            assert(p.env@[a] == self.env@[a]);
                        }
                    }
                }
                p
            },
        }
    }

    /// The quoted rendering of the command, as shown to a user: the
    /// program in backticks, the space-joined arguments after it when
    /// there are any.
    pub fn display_string(&self) -> (r: String)
        ensures
            self.args@.len() == 0 ==> r@ == "`"@ + self.program@ + "`"@,
            self.args@.len() > 0 ==> r@ == "`"@ + self.program@ + " "@ + join_with(
                self.args.deep_view(),
                " "@,
            ) + "`"@,
    {
        let mut r: String = "`".to_owned();
        r.append(self.program.as_str());
        if self.args.len() > 0 {
            r.append(" ");
            let joined = join(&self.args, " ");
            r.append(joined.as_str());
        }
        r.append("`");
        r
    }

    /// The rendered command line: the program followed by its space-joined
    /// arguments.
    pub fn debug_string(&self) -> (r: String)
        ensures
            r@ == self.spec_debug_string(),
    {
        let mut r = self.program.clone();
        r.append(" ");
        let joined = join(&self.args, " ");
        r.append(joined.as_str());
        r
    }

    /// The effective search-path value for the child, if any.
    pub fn build_path(&self) -> (r: Option<String>)
        ensures
            match (r, self.spec_build_path()) {
                (Some(s), Some(v)) => s@ == v,
                (None, None) => true,
                _ => false,
            },
    {
        let path_key: String = "PATH".to_owned();
        let base: Option<String> = match lookup_override(&self.env, &path_key) {
            Some(ov) => match ov {
                Some(v) => Some(v),
                None => None,
            },
            None => lookup_snapshot(&self.inherited, &path_key),
        };
        if self.path.len() == 0 {
            base
        } else {
            let joined = join(&self.path, ":");
            match base {
                Some(e) => {
                    let mut s = e;
                    s.append(":");
                    s.append(joined.as_str());
                    Some(s)
                },
                None => Some(joined),
            }
        }
    }

    /// The full effective child environment, as key-value pairs with
    /// distinct keys: the snapshot with the overrides applied, except the
    /// search-path variable, which carries the composed value and is
    /// omitted when it has none.
    pub fn build_env(&self) -> (r: Vec<(String, String)>)
        requires
            self.wf(),
        ensures
            keys_unique(r@),
            match (assoc_lookup(r@, "PATH"@), self.spec_build_path()) {
                (Some(s), Some(v)) => s@ == v,
                (None, None) => true,
                _ => false,
            },
            forall|k: Seq<char>| k != "PATH"@ ==> assoc_lookup(r@, k) == self.spec_env_value(k),
    {
        let path_key: String = "PATH".to_owned();
        let mut ret: Vec<(String, String)> = Vec::new();
        let mut i: usize = 0;
        while i < self.inherited.len()
            invariant
                self.wf(),
                path_key@ == "PATH"@,
                0 <= i <= self.inherited@.len(),
                keys_unique(ret@),
                forall|t: int| 0 <= t < ret@.len() ==> (#[trigger] ret@[t]).0@ != "PATH"@,
                forall|k: Seq<char>| k != "PATH"@ ==> assoc_lookup(ret@, k) == match assoc_lookup(
                    self.inherited@.subrange(0, i as int),
                    k,
                ) {
                    Some(_) => self.spec_env_value(k),
                    None => None,
                },
            decreases self.inherited@.len() - i,
        {
            let ghost pre = self.inherited@.subrange(0, i as int);
            let ghost cur = self.inherited@.subrange(0, i + 1 as int);
            let ghost ekey = self.inherited@[i as int].0@;
            proof {
                assert(cur.drop_last() =~= pre);
                assert(cur.last() == self.inherited@[i as int]);
                lemma_snapshot_prefix_extend(self.inherited@, i as int);
                assert forall|jj: int| 0 <= jj < pre.len() implies (#[trigger] pre[jj]).0@
                    != ekey by {
                    assert(pre[jj] == self.inherited@[jj]);
                    assert(self.inherited@[jj].0@ != self.inherited@[i as int].0@);
                }
                lemma_assoc_absent(pre, ekey);
                lemma_assoc_first(self.inherited@, i as int, ekey);
            }
            let entry_key = &self.inherited[i].0;
            if !(*entry_key == path_key) {
                proof {
                    assert(assoc_lookup(ret@, ekey) is None);
                }
                match lookup_override(&self.env, entry_key) {
                    Some(ov) => match ov {
                        Some(nv) => {
                            let ghost olds = ret@;
                            let k0 = entry_key.clone();
                            ret.push((k0, nv));
                            let ghost e = ret@[ret@.len() - 1];
                            proof {
                                assert(ret@ =~= olds.push(e));
                                assert forall|k: Seq<char>|
                                    #![trigger assoc_lookup(ret@, k)]
                                    true implies assoc_lookup(ret@, k) == match assoc_lookup(
                                    olds,
                                    k,
                                ) {
                                    Some(w) => Some(w),
                                    None => if e.0@ == k {
                                        Some(e.1)
                                    } else {
                                        None
                                    },
                                } by {
                                    lemma_assoc_push(olds, e, k);
                                }
                                lemma_assoc_absent(olds, e.0@);
                                assert forall|a: int, b: int| 0 <= a < b < ret@.len() implies (
                                #[trigger] ret@[a]).0@ != (#[trigger] ret@[b]).0@ by {
                                    if b < ret@.len() - 1 {
                                        assert(olds[a].0@ != olds[b].0@);
                                    }
                                }
                            }
                        },
                        None => {},
                    },
                    None => {
                        let ghost olds = ret@;
                        let k0 = entry_key.clone();
                        let v0 = self.inherited[i].1.clone();
                        ret.push((k0, v0));
                        let ghost e = ret@[ret@.len() - 1];
                        proof {
                            assert(ret@ =~= olds.push(e));
                            assert(e.1 == self.inherited@[i as int].1);
                            assert forall|k: Seq<char>|
                                #![trigger assoc_lookup(ret@, k)]
                                true implies assoc_lookup(ret@, k) == match assoc_lookup(
                                olds,
                                k,
                            ) {
                                Some(w) => Some(w),
                                None => if e.0@ == k {
                                    Some(e.1)
                                } else {
                                    None
                                },
                            } by {
                                lemma_assoc_push(olds, e, k);
                            }
                            lemma_assoc_absent(olds, e.0@);
                            assert forall|a: int, b: int| 0 <= a < b < ret@.len() implies (
                            #[trigger] ret@[a]).0@ != (#[trigger] ret@[b]).0@ by {
                                if b < ret@.len() - 1 {
                                    assert(olds[a].0@ != olds[b].0@);
                                }
                            }
                        }
                    },
                }
            }
            i += 1;
        }
        proof {
            assert(self.inherited@.subrange(0, self.inherited@.len() as int)
                =~= self.inherited@);
        }
        let mut j: usize = 0;
        while j < self.env.len()
            invariant
                self.wf(),
                path_key@ == "PATH"@,
                0 <= j <= self.env@.len(),
                keys_unique(ret@),
                forall|t: int| 0 <= t < ret@.len() ==> (#[trigger] ret@[t]).0@ != "PATH"@,
                forall|k: Seq<char>| k != "PATH"@ ==> assoc_lookup(ret@, k) == match assoc_lookup(
                    self.inherited@,
                    k,
                ) {
                    Some(_) => self.spec_env_value(k),
                    None => match assoc_lookup(self.env@.subrange(0, j as int), k) {
                        Some(ov) => ov,
                        None => None,
                    },
                },
            decreases self.env@.len() - j,
        {
            let ghost pre = self.env@.subrange(0, j as int);
            let ghost cur = self.env@.subrange(0, j + 1 as int);
            let ghost ekey = self.env@[j as int].0@;
            proof {
                assert(cur.drop_last() =~= pre);
                assert(cur.last() == self.env@[j as int]);
                lemma_override_prefix_extend(self.env@, j as int);
                assert forall|tt: int| 0 <= tt < pre.len() implies (#[trigger] pre[tt]).0@
                    != ekey by {
                    assert(pre[tt] == self.env@[tt]);
                    assert(self.env@[tt].0@ != self.env@[j as int].0@);
                }
                lemma_assoc_absent(pre, ekey);
            }
            let entry_key = &self.env[j].0;
            if !(*entry_key == path_key) {
                match lookup_snapshot(&self.inherited, entry_key) {
                    Some(_) => {},
                    None => {
                        proof {
                            assert(assoc_lookup(ret@, ekey) is None);
                        }
                        match &self.env[j].1 {
                            Some(v) => {
                                let ghost olds = ret@;
                                let k0 = entry_key.clone();
                                let v0 = v.clone();
                                ret.push((k0, v0));
                                let ghost e = ret@[ret@.len() - 1];
                                proof {
                                    assert(ret@ =~= olds.push(e));
                                    assert(Some(e.1) == self.env@[j as int].1);
                                    assert forall|k: Seq<char>|
                                        #![trigger assoc_lookup(ret@, k)]
                                        true implies assoc_lookup(ret@, k) == match assoc_lookup(
                                        olds,
                                        k,
                                    ) {
                                        Some(w) => Some(w),
                                        None => if e.0@ == k {
                                            Some(e.1)
                                        } else {
                                            None
                                        },
                                    } by {
                                        lemma_assoc_push(olds, e, k);
                                    }
                                    lemma_assoc_absent(olds, e.0@);
                                    assert forall|a: int, b: int| 0 <= a < b < ret@.len() implies (
                                    #[trigger] ret@[a]).0@ != (#[trigger] ret@[b]).0@ by {
                                        if b < ret@.len() - 1 {
                                            assert(olds[a].0@ != olds[b].0@);
                                        }
                                    }
                                }
                            },
                            None => {},
                        }
                    },
                }
            }
            j += 1;
        }
        proof {
            assert(self.env@.subrange(0, self.env@.len() as int) =~= self.env@);
        }
        proof {
            lemma_assoc_absent(ret@, "PATH"@);
        }
        match self.build_path() {
            Some(p) => {
                let ghost olds = ret@;
                let k0: String = "PATH".to_owned();
                ret.push((k0, p));
                let ghost e = ret@[ret@.len() - 1];
                proof {
                    assert(ret@ =~= olds.push(e));
                    assert forall|k: Seq<char>|
                        #![trigger assoc_lookup(ret@, k)]
                        true implies assoc_lookup(ret@, k) == match assoc_lookup(olds, k) {
                        Some(w) => Some(w),
                        None => if e.0@ == k {
                            Some(e.1)
                        } else {
                            None
                        },
                    } by {
                        lemma_assoc_push(olds, e, k);
                    }
                    assert forall|a: int, b: int| 0 <= a < b < ret@.len() implies (
                    #[trigger] ret@[a]).0@ != (#[trigger] ret@[b]).0@ by {
                        if b < ret@.len() - 1 {
                            assert(olds[a].0@ != olds[b].0@);
                        }
                    }
                }
            },
            None => {},
        }
        ret
    }

    /// Decides the outcome of a plain (non-capturing) invocation.
    ///
    /// Success is exactly an exit with code zero.  A spawn failure or an
    /// unsuccessful exit is a typed process error carrying the rendered
    /// command.
    pub fn interpret_exec(&self, event: SpawnResult) -> (r: Result<(), CargoError>)
        ensures
            r is Ok <==> event == (SpawnResult::Exited { code: Some(0i32) }),
            event matches SpawnResult::Failed { detail } ==> (r matches Err(e) && e matches
                CargoError::Process { error } && error matches ProcessError::StartFailure {
                command,
                detail: d2,
            } && command@ == self.spec_debug_string() && d2 == detail),
            event matches SpawnResult::Exited { code } ==> (code == Some(0i32) || (r matches Err(
                e,
            ) && e matches CargoError::Process { error } && error
                matches ProcessError::ExitFailure { command, code: c2, output } && command@
                == self.spec_debug_string() && c2 == code && output is None)),
    {
        match event {
            SpawnResult::Failed { detail } => Err(
                CargoError::Process {
                    error: ProcessError::StartFailure { command: self.debug_string(), detail },
                },
            ),
            SpawnResult::Exited { code } => {
                let ok = match code {
                    Some(c) => c == 0,
                    None => false,
                };
                if ok {
                    Ok(())
                } else {
                    Err(
                        CargoError::Process {
                            error: ProcessError::ExitFailure {
                                command: self.debug_string(),
                                code,
                                output: None,
                            },
                        },
                    )
                }
            },
        }
    }

    /// Decides the outcome of a capturing invocation.
    ///
    /// Success is exactly an exit with code zero, and hands the captured
    /// output back.  An unsuccessful exit carries the captured output in
    /// the error for diagnostics; a spawn failure has none.
    pub fn interpret_exec_with_output(&self, event: SpawnOutputResult) -> (r: Result<
        ProcessOutput,
        CargoError,
    >)
        ensures
            event matches SpawnOutputResult::Failed { detail } ==> (r matches Err(e) && e matches
                CargoError::Process { error } && error matches ProcessError::StartFailure {
                command,
                detail: d2,
            } && command@ == self.spec_debug_string() && d2 == detail),
            event matches SpawnOutputResult::Captured { code, stdout, stderr } ==> ((code == Some(
                0i32,
            ) ==> (r matches Ok(out) && out.code == code && out.stdout == stdout && out.stderr
                == stderr)) && (code != Some(0i32) ==> (r matches Err(e) && e matches
                CargoError::Process { error } && error matches ProcessError::ExitFailure {
                command,
                code: c2,
                output,
            } && command@ == self.spec_debug_string() && c2 == code && (output matches Some(out)
                && out.code == code && out.stdout == stdout && out.stderr == stderr)))),
    {
        match event {
            SpawnOutputResult::Failed { detail } => Err(
                CargoError::Process {
                    error: ProcessError::StartFailure { command: self.debug_string(), detail },
                },
            ),
            SpawnOutputResult::Captured { code, stdout, stderr } => {
                let ok = match code {
                    Some(c) => c == 0,
                    None => false,
                };
                if ok {
                    Ok(ProcessOutput { code, stdout, stderr })
                } else {
                    Err(
                        CargoError::Process {
                            error: ProcessError::ExitFailure {
                                command: self.debug_string(),
                                code,
                                output: Some(ProcessOutput { code, stdout, stderr }),
                            },
                        },
                    )
                }
            },
        }
    }
}

/// Extending a snapshot prefix by one entry extends its lookups.
proof fn lemma_snapshot_prefix_extend(s: Seq<(String, String)>, i: int)
    requires
        0 <= i < s.len(),
    ensures
        forall|k: Seq<char>|
            #![trigger assoc_lookup(s.subrange(0, i + 1), k)]
            assoc_lookup(s.subrange(0, i + 1), k) == match assoc_lookup(s.subrange(0, i), k) {
                Some(v) => Some(v),
                None => if s[i].0@ == k {
                    Some(s[i].1)
                } else {
                    None
                },
            },
{
    assert forall|k: Seq<char>|
        #![trigger assoc_lookup(s.subrange(0, i + 1), k)]
        true implies assoc_lookup(s.subrange(0, i + 1), k)
        == match assoc_lookup(s.subrange(0, i), k) {
        Some(v) => Some(v),
        None => if s[i].0@ == k {
            Some(s[i].1)
        } else {
            None
        },
    } by {
        assert(s.subrange(0, i + 1) =~= s.subrange(0, i).push(s[i]));
        lemma_assoc_push(s.subrange(0, i), s[i], k);
    }
}

/// Extending an override prefix by one entry extends its lookups.
proof fn lemma_override_prefix_extend(s: Seq<(String, Option<String>)>, i: int)
    requires
        0 <= i < s.len(),
    ensures
        forall|k: Seq<char>|
            #![trigger assoc_lookup(s.subrange(0, i + 1), k)]
            assoc_lookup(s.subrange(0, i + 1), k) == match assoc_lookup(s.subrange(0, i), k) {
                Some(v) => Some(v),
                None => if s[i].0@ == k {
                    Some(s[i].1)
                } else {
                    None
                },
            },
{
    assert forall|k: Seq<char>|
        #![trigger assoc_lookup(s.subrange(0, i + 1), k)]
        true implies assoc_lookup(s.subrange(0, i + 1), k)
        == match assoc_lookup(s.subrange(0, i), k) {
        Some(v) => Some(v),
        None => if s[i].0@ == k {
            Some(s[i].1)
        } else {
            None
        },
    } by {
        assert(s.subrange(0, i + 1) =~= s.subrange(0, i).push(s[i]));
        lemma_assoc_push(s.subrange(0, i), s[i], k);
    }
}

/// First-match scan of the override list.
fn lookup_override(env: &Vec<(String, Option<String>)>, key: &String) -> (r: Option<
    Option<String>,
>)
    ensures
        r == assoc_lookup(env@, key@),
{
    let mut i: usize = 0;
    while i < env.len()
        invariant
            0 <= i <= env@.len(),
            forall|j: int| 0 <= j < i ==> (#[trigger] env@[j]).0@ != key@,
        decreases env@.len() - i,
    {
        if env[i].0 == *key {
            proof {
                lemma_assoc_first(env@, i as int, key@);
            }
            let found = match &env[i].1 {
                Some(v) => Some(v.clone()),
                None => None,
            };
            return Some(found);
        }
        i += 1;
    }
    proof {
        lemma_assoc_absent(env@, key@);
    }
    None
}

/// First-match scan of the snapshot list.
fn lookup_snapshot(inherited: &Vec<(String, String)>, key: &String) -> (r: Option<String>)
    ensures
        r == assoc_lookup(inherited@, key@),
{
    let mut i: usize = 0;
    while i < inherited.len()
        invariant
            0 <= i <= inherited@.len(),
            forall|j: int| 0 <= j < i ==> (#[trigger] inherited@[j]).0@ != key@,
        decreases inherited@.len() - i,
    {
        if inherited[i].0 == *key {
            proof {
                lemma_assoc_first(inherited@, i as int, key@);
            }
            return Some(inherited[i].1.clone());
        }
        i += 1;
    }
    proof {
        lemma_assoc_absent(inherited@, key@);
    }
    None
}

/// The last value each key takes in a raw snapshot listing.
pub open spec fn last_value(s: Seq<(String, String)>, k: Seq<char>) -> Option<String>
    decreases s.len(),
{
    if s.len() == 0 {
        None
    } else if s.last().0@ == k {
        Some(s.last().1)
    } else {
        last_value(s.drop_last(), k)
    }
}

/// Builds a fresh `ProcessBuilder` for `cmd` from an injected environment
/// snapshot and working directory.
///
/// The raw snapshot may repeat keys; the later entry wins, as it would
/// when loading pairs into a keyed store.  The builder starts with no
/// arguments, no extra search-path entries and no overrides.
pub fn process(cmd: &str, cwd: String, env: &Vec<(String, String)>) -> (r: ProcessBuilder)
    ensures
        r.wf(),
        r.program@ == cmd@,
        r.args@.len() == 0,
        r.path@.len() == 0,
        r.env@.len() == 0,
        r.cwd == cwd,
        forall|k: Seq<char>|
            #![trigger assoc_lookup(r.inherited@, k)]
            assoc_lookup(r.inherited@, k) == last_value(env@, k),
{
    let mut inherited: Vec<(String, String)> = Vec::new();
    let mut i: usize = 0;
    while i < env.len()
        invariant
            0 <= i <= env@.len(),
            keys_unique(inherited@),
            forall|k: Seq<char>|
                #![trigger assoc_lookup(inherited@, k)]
                assoc_lookup(inherited@, k) == last_value(env@.subrange(0, i as int), k),
        decreases env@.len() - i,
    {
        let ghost pre = env@.subrange(0, i as int);
        let ghost cur = env@.subrange(0, i + 1 as int);
        proof {
            assert(cur.drop_last() =~= pre);
            assert(cur.last() == env@[i as int]);
        }
        let key = &env[i].0;
        let val = env[i].1.clone();
        let ghost oldinh = inherited@;
        match find_snapshot_index(&inherited, key) {
            Some(t) => {
                let k1 = key.clone();
                inherited.set(t, (k1, val));
                let ghost e = inherited@[t as int];
                proof {
                    assert(inherited@ =~= oldinh.update(t as int, e));
                    assert(e.0@ == oldinh[t as int].0@);
                    assert(e.1 == env@[i as int].1);
                    assert forall|k: Seq<char>|
                        #![trigger assoc_lookup(inherited@, k)]
                        true implies assoc_lookup(inherited@, k) == (if k == env@[i as int].0@ {
                        Some(e.1)
                    } else {
                        assoc_lookup(oldinh, k)
                    }) by {
                        lemma_assoc_update(oldinh, t as int, e, k);
                    }
                    assert forall|a: int, b: int| 0 <= a < b < inherited@.len() implies (
                    #[trigger] inherited@[a]).0@ != (#[trigger] inherited@[b]).0@ by {
                        assert(oldinh[a].0@ != oldinh[b].0@);
                    }
                }
            },
            None => {
                let k1 = key.clone();
                inherited.push((k1, val));
                let ghost e = inherited@[inherited@.len() - 1];
                proof {
                    assert(inherited@ =~= oldinh.push(e));
                    assert(e.1 == env@[i as int].1);
                    lemma_assoc_absent(oldinh, env@[i as int].0@);
                    assert forall|k: Seq<char>|
                        #![trigger assoc_lookup(inherited@, k)]
                        true implies assoc_lookup(inherited@, k) == (if k == env@[i as int].0@ {
                        Some(e.1)
                    } else {
                        assoc_lookup(oldinh, k)
                    }) by {
                        lemma_assoc_push(oldinh, e, k);
                    }
                    assert forall|a: int, b: int| 0 <= a < b < inherited@.len() implies (
                    #[trigger] inherited@[a]).0@ != (#[trigger] inherited@[b]).0@ by {
                        if b < inherited@.len() - 1 {
                            assert(oldinh[a].0@ != oldinh[b].0@);
                        }
                    }
                }
            },
        }
        proof {
            assert forall|k: Seq<char>|
                #![trigger assoc_lookup(inherited@, k)]
                true implies assoc_lookup(inherited@, k) == last_value(cur, k) by {
                if k == env@[i as int].0@ {
                } else {
                }
            }
        }
        i += 1;
    }
    proof {
        assert(env@.subrange(0, env@.len() as int) =~= env@);
    }
    ProcessBuilder {
        program: cmd.to_owned(),
        args: Vec::new(),
        path: Vec::new(),
        env: Vec::new(),
        inherited,
        cwd,
    }
}

/// First-match scan for the position of `key` among the overrides.
fn find_override_index(env: &Vec<(String, Option<String>)>, key: &String) -> (r: Option<usize>)
    ensures
        r matches Some(t) ==> t < env@.len() && env@[t as int].0@ == key@ && forall|j: int|
            0 <= j < t ==> (#[trigger] env@[j]).0@ != key@,
        r is None ==> forall|j: int| 0 <= j < env@.len() ==> (#[trigger] env@[j]).0@ != key@,
{
    let mut t: usize = 0;
    while t < env.len()
        invariant
            0 <= t <= env@.len(),
            forall|j: int| 0 <= j < t ==> (#[trigger] env@[j]).0@ != key@,
        decreases env@.len() - t,
    {
        if env[t].0 == *key {
            return Some(t);
        }
        t += 1;
    }
    None
}

/// First-match scan for the position of `key` among the snapshot pairs.
fn find_snapshot_index(inherited: &Vec<(String, String)>, key: &String) -> (r: Option<usize>)
    ensures
        r matches Some(t) ==> t < inherited@.len() && inherited@[t as int].0@ == key@ && forall|
            j: int,
        |
            0 <= j < t ==> (#[trigger] inherited@[j]).0@ != key@,
        r is None ==> forall|j: int|
            0 <= j < inherited@.len() ==> (#[trigger] inherited@[j]).0@ != key@,
{
    let mut t: usize = 0;
    while t < inherited.len()
        invariant
            0 <= t <= inherited@.len(),
            forall|j: int| 0 <= j < t ==> (#[trigger] inherited@[j]).0@ != key@,
        decreases inherited@.len() - t,
    {
        if inherited[t].0 == *key {
            return Some(t);
        }
        t += 1;
    }
    None
}

} // verus!
