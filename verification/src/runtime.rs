//! Where the sidecar keeps its files, how many threads it asks for, and
//! how download progress is reported.
use crate::text::same_text;
use vstd::prelude::*;

verus! {

/// The name of the directory that holds the sidecar workspace.
pub open spec fn is_workspace_name(name: Option<String>) -> bool {
    name matches Some(n) && n@ == "sidecar-rs"@
}

/// A directory counts as the sidecar workspace exactly when its name is
/// `sidecar-rs`, letter for letter: no other name, such as `debug` or
/// `target`, does, and a path with no final component does not.
pub proof fn lemma_workspace_name_exact(name: Option<String>)
    ensures
        is_workspace_name(name) <==> (name matches Some(n) && n@ == seq![
            's',
            'i',
            'd',
            'e',
            'c',
            'a',
            'r',
            '-',
            'r',
            's',
        ]),
{
    reveal_strlit("sidecar-rs");
    assert("sidecar-rs"@ =~= seq!['s', 'i', 'd', 'e', 'c', 'a', 'r', '-', 'r', 's']);
}

/// Which ancestor of the executable is the sidecar root. `names` holds the
/// final component of each ancestor of the executable's path, the path
/// itself first, then its parent, and so on up (`None` where a path has
/// no final component). The root is the nearest proper ancestor named
/// `sidecar-rs`; failing that, the executable's own directory; failing
/// that (no parent at all), nothing.
pub fn sidecar_root_index(names: &Vec<Option<String>>) -> (r: Option<usize>)
    ensures
        (exists|j: int| 1 <= j < names@.len() && #[trigger] is_workspace_name(names@[j])) ==> (
        r matches Some(i) && 1 <= i < names@.len() && is_workspace_name(names@[i as int]) && (
        forall|j: int| 1 <= j < i ==> !#[trigger] is_workspace_name(names@[j]))),
        !(exists|j: int| 1 <= j < names@.len() && #[trigger] is_workspace_name(names@[j])) ==> (
        if names@.len() >= 2 {
            r == Some(1usize)
        } else {
            r is None
        }),
        forall|j: int|
            1 <= j < names@.len() ==> match #[trigger] names@[j] {
                Some(n) => n@ == "sidecar-rs"@ ==> (r matches Some(i) && 1 <= i <= j && (
                names@[i as int] matches Some(m) && m@ == "sidecar-rs"@)),
                None => true,
            },
{
    let mut i: usize = 1;
    while i < names.len()
        invariant
            1 <= i,
            forall|j: int| 1 <= j < i && j < names@.len() ==> !is_workspace_name(
                #[trigger] names@[j],
            ),
        decreases names@.len() - i,
    {
        match &names[i] {
            Some(n) => {
                if same_text(n.as_str(), "sidecar-rs") {
                    assert(is_workspace_name(names@[i as int]));
                    return Some(i);
                }
            },
            None => {},
        }
        i = i + 1;
    }
    if names.len() >= 2 {
        Some(1)
    } else {
        None
    }
}

/// The text of each component of a path.
pub open spec fn component_views(c: Seq<String>) -> Seq<Seq<char>> {
    c.map_values(|s: String| s@)
}

/// The model directory of an engine, `<root>/models/<name>`, as a list of
/// path components.
pub fn model_dir(root: &Vec<String>, name: &str) -> (dir: Vec<String>)
    ensures
        component_views(dir@) == component_views(root@) + seq!["models"@, name@],
{
    let models = with_file(root, "models");
    let dir = with_file(&models, name);
    assert(component_views(dir@) =~= component_views(root@) + seq!["models"@, name@]);
    dir
}

/// Where the env file is looked for, in order: `parakeet.env` in the
/// repository root (the parent of the sidecar root), where the root has a
/// parent, then in the sidecar root itself.
pub fn env_file_candidates(root: &Vec<String>, parent: &Option<Vec<String>>) -> (c: Vec<
    Vec<String>,
>)
    ensures
        match parent {
            Some(p) => c@.len() == 2 && component_views(c@[0]@) == component_views(p@).push(
                "parakeet.env"@,
            ) && component_views(c@[1]@) == component_views(root@).push("parakeet.env"@),
            None => c@.len() == 1 && component_views(c@[0]@) == component_views(root@).push(
                "parakeet.env"@,
            ),
        },
{
    let mut c: Vec<Vec<String>> = Vec::new();
    match parent {
        Some(p) => {
            c.push(with_file(p, "parakeet.env"));
        },
        None => {},
    }
    c.push(with_file(root, "parakeet.env"));
    c
}

/// `dir` with one more component, `name`.
fn with_file(dir: &Vec<String>, name: &str) -> (path: Vec<String>)
    ensures
        component_views(path@) == component_views(dir@).push(name@),
{
    let mut path: Vec<String> = Vec::new();
    let mut i: usize = 0;
    while i < dir.len()
        invariant
            i <= dir@.len(),
            component_views(path@) == component_views(dir@).take(i as int),
        decreases dir@.len() - i,
    {
        let c = dir[i].clone();
        let ghost before = path@;
        path.push(c);
        assert(component_views(path@) =~= component_views(before).push(c@));
        assert(component_views(dir@).take(i + 1) =~= component_views(dir@).take(i as int).push(
            c@,
        ));
        i = i + 1;
    }
    assert(component_views(dir@).take(dir@.len() as int) =~= component_views(dir@));
    let last = String::from_str(name);
    let ghost before = path@;
    path.push(last);
    assert(component_views(path@) =~= component_views(before).push(last@));
    path
}

/// The first candidate that exists.
pub fn first_existing(exists: &Vec<bool>) -> (i: Option<usize>)
    ensures
        match i {
            Some(k) => k < exists@.len() && exists@[k as int] && forall|j: int|
                0 <= j < k ==> !exists@[j],
            None => forall|j: int| 0 <= j < exists@.len() ==> !exists@[j],
        },
{
    let mut k: usize = 0;
    while k < exists.len()
        invariant
            k <= exists@.len(),
            forall|j: int| 0 <= j < k ==> !exists@[j],
        decreases exists@.len() - k,
    {
        if exists[k] {
            return Some(k);
        }
        k = k + 1;
    }
    None
}

/// The worker thread count for the decoder: the available parallelism
/// (two when unknown), converted to `i32`, clamped to `1..=4`.
pub open spec fn thread_count_spec(available: Option<usize>) -> i32 {
    let v: i32 = match available {
        Some(n) => n as i32,
        None => 2,
    };
    if v < 1 {
        1
    } else if v > 4 {
        4
    } else {
        v
    }
}

/// The thread count is the available parallelism clamped to `1..=4`
/// wherever it fits in an `i32`, and two when it is unknown.
pub proof fn lemma_thread_count_clamps(available: Option<usize>)
    ensures
        match available {
            Some(k) => 1 <= k <= i32::MAX ==> thread_count_spec(available) == if k <= 4 {
                k as int
            } else {
                4
            },
            None => thread_count_spec(available) == 2,
        },
{
}

/// See [`thread_count_spec`].
pub fn thread_count(available: Option<usize>) -> (n: i32)
    ensures
        n == thread_count_spec(available),
        1 <= n <= 4,
        match available {
            Some(k) => 1 <= k <= i32::MAX ==> n == if k <= 4 {
                k as int
            } else {
                4
            },
            None => n == 2,
        },
{
    proof {
        lemma_thread_count_clamps(available);
    }
    let v: i32 = match available {
        Some(n) => n as i32,
        None => 2,
    };
    if v < 1 {
        1
    } else if v > 4 {
        4
    } else {
        v
    }
}

/// The whole percentage of a download, as reported.
pub open spec fn percent_done(written: u64, total: u64) -> i64 {
    ((written as int * 100) / (total as int)) as i64
}

/// Whether a download's progress is reported after `written` of `total`
/// bytes, given the percentage reported last: only when the size is
/// known, at every tenth percent, and once per percentage. Returns the
/// percentage to report.
pub fn progress_report(written: u64, total: u64, last_pct: i64) -> (r: Option<i64>)
    requires
        total == 0 || written * 100 <= u64::MAX,
    ensures
        total == 0 ==> r is None,
        total > 0 ==> r == if percent_done(written, total) != last_pct && percent_done(
            written,
            total,
        ) % 10 == 0 {
            Some(percent_done(written, total))
        } else {
            None::<i64>
        },
{
    if total == 0 {
        return None;
    }
    let pct = (written * 100 / total) as i64;
    if pct != last_pct && pct % 10 == 0 {
        Some(pct)
    } else {
        None
    }
}

/// The download address of one file of a Hugging Face model repository.
pub fn hf_file_url(repo: &str, name: &str) -> (url: String)
    ensures
        url@ == "https://huggingface.co/"@ + repo@ + "/resolve/main/"@ + name@,
{
    String::from_str("https://huggingface.co/").concat(repo).concat("/resolve/main/").concat(name)
}

} // verus!
