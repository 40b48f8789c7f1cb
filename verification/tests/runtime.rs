use sidecar_core::runtime::{
    env_file_candidates, first_existing, hf_file_url, model_dir, progress_report,
    sidecar_root_index, thread_count,
};

fn names(v: &[Option<&str>]) -> Vec<Option<String>> {
    v.iter().map(|n| n.map(|s| s.to_string())).collect()
}

#[test]
fn root_is_nearest_workspace_ancestor() {
    // /home/u/sidecar-rs/target/release/qwen-sidecar
    let n = names(&[
        Some("qwen-sidecar"),
        Some("release"),
        Some("target"),
        Some("sidecar-rs"),
        Some("u"),
        Some("home"),
        None,
    ]);
    assert_eq!(sidecar_root_index(&n), Some(3));
    // the nearest one wins
    let n = names(&[Some("x"), Some("sidecar-rs"), Some("sidecar-rs"), None]);
    assert_eq!(sidecar_root_index(&n), Some(1));
}

#[test]
fn root_falls_back_to_executable_directory() {
    let n = names(&[Some("qwen-sidecar"), Some("bin"), Some("usr"), None]);
    assert_eq!(sidecar_root_index(&n), Some(1));
    // the executable itself is not a candidate
    let n = names(&[Some("sidecar-rs"), Some("bin"), None]);
    assert_eq!(sidecar_root_index(&n), Some(1));
    let n = names(&[Some("sidecar-rs")]);
    assert_eq!(sidecar_root_index(&n), None);
    assert_eq!(sidecar_root_index(&Vec::new()), None);
}

#[test]
fn model_directory_layout() {
    let root = vec!["/".to_string(), "home".to_string(), "sidecar-rs".to_string()];
    assert_eq!(
        model_dir(&root, "parakeet-tdt-v3"),
        vec!["/", "home", "sidecar-rs", "models", "parakeet-tdt-v3"]
    );
    assert_eq!(model_dir(&Vec::new(), "m"), vec!["models", "m"]);
}

#[test]
fn thread_count_is_clamped() {
    assert_eq!(thread_count(None), 2);
    assert_eq!(thread_count(Some(1)), 1);
    assert_eq!(thread_count(Some(3)), 3);
    assert_eq!(thread_count(Some(16)), 4);
    assert_eq!(thread_count(Some(0)), 1);
    assert_eq!(thread_count(Some(usize::MAX)), 1);
}

#[test]
fn progress_is_reported_every_ten_percent() {
    assert_eq!(progress_report(0, 1000, -1), Some(0));
    assert_eq!(progress_report(50, 1000, 0), None);
    assert_eq!(progress_report(100, 1000, 0), Some(10));
    assert_eq!(progress_report(105, 1000, 10), None);
    assert_eq!(progress_report(1000, 1000, 90), Some(100));
    assert_eq!(progress_report(1000, 0, -1), None);
}

#[test]
fn hugging_face_url() {
    assert_eq!(
        hf_file_url("istupakov/parakeet-tdt-0.6b-v3-onnx", "vocab.txt"),
        "https://huggingface.co/istupakov/parakeet-tdt-0.6b-v3-onnx/resolve/main/vocab.txt"
    );
}

fn strings(v: &[&str]) -> Vec<String> {
    v.iter().map(|s| s.to_string()).collect()
}

#[test]
fn env_file_is_looked_for_in_repo_root_first() {
    let root = strings(&["/", "home", "repo", "sidecar-rs"]);
    let parent = Some(strings(&["/", "home", "repo"]));
    assert_eq!(
        env_file_candidates(&root, &parent),
        vec![
            strings(&["/", "home", "repo", "parakeet.env"]),
            strings(&["/", "home", "repo", "sidecar-rs", "parakeet.env"]),
        ]
    );
    assert_eq!(
        env_file_candidates(&strings(&["/"]), &None),
        vec![strings(&["/", "parakeet.env"])]
    );
}

#[test]
fn first_existing_candidate_wins() {
    assert_eq!(first_existing(&vec![true, true]), Some(0));
    assert_eq!(first_existing(&vec![false, true]), Some(1));
    assert_eq!(first_existing(&vec![false, false]), None);
    assert_eq!(first_existing(&Vec::new()), None);
}
