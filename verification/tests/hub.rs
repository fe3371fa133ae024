use candle_rlcd::hub::{
    announced_length, answered, cache_dir, endpoint, file_url, hf_home, is_commit, may_be_missing,
    offline, offline_message, progress, refusal, start, token_in, token_source, Answer, HubEnv,
    HubRef, Place, Resolved, Start, TokenSource,
};
use candle_rlcd::json::parse;

const COMMIT: &str = "0123456789abcdef0123456789abcdef01234567";

fn unset() -> HubEnv {
    HubEnv {
        hf_home: None,
        home: None,
        userprofile: None,
        hf_hub_cache: None,
        huggingface_hub_cache: None,
        hf_endpoint: None,
        hf_token: None,
        hugging_face_hub_token: None,
        hf_token_path: None,
        hf_hub_offline: None,
    }
}

fn place(base: &str, rest: &[&str]) -> Place {
    Place {
        base: base.to_string(),
        rest: rest.iter().map(|s| s.to_string()).collect(),
    }
}

#[test]
fn parses_hub_ids() {
    let h = HubRef::parse("convaiinnovations/laya").unwrap();
    assert_eq!(
        (h.repo.as_str(), h.subdir.as_str(), h.revision.as_str()),
        ("convaiinnovations/laya", "", "main")
    );
    assert_eq!(h.short_name(), "laya");
    let h = HubRef::parse("convaiinnovations/laya/multilingual@v1").unwrap();
    assert_eq!(h.subdir, "multilingual");
    assert_eq!(h.revision, "v1");
    assert_eq!(h.short_name(), "laya-multilingual");
    assert_eq!(
        h.file("model.safetensors"),
        "multilingual/model.safetensors"
    );
    for bad in ["laya", "/abs/path", "./x/y", "a/../b", "a/b@", "a b/c"] {
        assert_eq!(HubRef::parse(bad), None, "{bad}");
    }
}

#[test]
fn references_read_back_as_written() {
    for s in ["org/repo", "org/repo/a/b", "o-r_g/re.po@v1", "org/repo/sub@refs/pr/1@x"] {
        let h = HubRef::parse(s).unwrap();
        let sub = if h.subdir.is_empty() {
            String::new()
        } else {
            format!("/{}", h.subdir)
        };
        let again = format!("{}{sub}@{}", h.repo, h.revision);
        assert_eq!(HubRef::parse(&again), Some(h), "{s}");
    }
}

#[test]
fn a_checkpoint_without_the_hub_comes_from_the_cache() {
    let env = HubEnv {
        hf_hub_cache: Some("/cache".to_string()),
        hf_hub_offline: Some("1".to_string()),
        ..unset()
    };
    let hub = HubRef::parse("org/m/sub").unwrap();
    assert_eq!(cache_dir(&env), place("/cache", &[]));
    assert_eq!(hub.cache_folder(), "models--org--m");
    assert!(offline(&env));
    let commit = hub.cached_commit(Some(format!("{COMMIT}\n"))).unwrap();
    assert_eq!(commit, COMMIT);
    let base = endpoint(&env);
    assert_eq!(
        start(&hub, &base, true, &Some(commit)),
        Start::Cached(COMMIT.to_string())
    );
    let files = hub.files();
    assert_eq!(files[0], ("sub/rl_agent_config.json".to_string(), true));
    assert_eq!(files.iter().filter(|(_, required)| *required).count(), 4);
    let other = HubRef::parse("org/other").unwrap();
    assert_eq!(start(&other, &base, true, &None), Start::Offline);
    assert_eq!(
        offline_message(&other, "/cache"),
        "HF_HUB_OFFLINE is set and org/other (main) is not in the cache at /cache"
    );
}

#[test]
fn variables_say_where_things_are() {
    assert_eq!(hf_home(&unset()), place(".", &[".cache/huggingface"]));
    let env = HubEnv {
        home: Some("/home/a".to_string()),
        hf_endpoint: Some("https://mirror//".to_string()),
        hf_hub_offline: Some("false".to_string()),
        ..unset()
    };
    assert_eq!(
        cache_dir(&env),
        place("/home/a", &[".cache/huggingface", "hub"])
    );
    assert_eq!(endpoint(&env), "https://mirror");
    assert_eq!(endpoint(&unset()), "https://huggingface.co");
    assert!(!offline(&env));
    assert_eq!(
        token_source(&env),
        TokenSource::File(place("/home/a", &[".cache/huggingface", "token"]))
    );
    let env = HubEnv {
        hf_token: Some("".to_string()),
        hugging_face_hub_token: Some("t".to_string()),
        ..unset()
    };
    assert_eq!(token_source(&env), TokenSource::Given("t".to_string()));
    assert_eq!(token_in(" abc \n"), Some("abc".to_string()));
    assert_eq!(token_in(" \n"), None);
}

#[test]
fn the_hub_is_asked_for_branches_only() {
    let hub = HubRef::parse("org/m@v2").unwrap();
    assert_eq!(
        start(&hub, "https://h", false, &Some("x".to_string())),
        Start::Ask("https://h/api/models/org/m/revision/v2".to_string())
    );
    let pinned = HubRef::parse(&format!("org/m@{COMMIT}")).unwrap();
    assert!(is_commit(COMMIT));
    assert!(!is_commit("main"));
    assert_eq!(
        start(&pinned, "https://h", false, &None),
        Start::Download(COMMIT.to_string())
    );
    assert_eq!(
        start(&pinned, "https://h", false, &Some(COMMIT.to_string())),
        Start::Cached(COMMIT.to_string())
    );
    let sha = parse(br#"{"sha": "abc"}"#).unwrap();
    let other = parse(br#"{"sha": 1}"#).unwrap();
    assert_eq!(answered(Some(&sha), &None), Answer::Download("abc".to_string()));
    assert_eq!(answered(Some(&other), &None), Answer::NoSha);
    assert_eq!(
        answered(None, &Some("c".to_string())),
        Answer::Cached("c".to_string())
    );
    assert_eq!(answered(None, &None), Answer::Failed);
}

#[test]
fn downloads_are_named_refused_and_shown() {
    let hub = HubRef::parse("org/m").unwrap();
    assert_eq!(
        file_url(&hub, "https://h", "c", "model.safetensors"),
        "https://h/org/m/resolve/c/model.safetensors"
    );
    assert_eq!(refusal("u", 404), Some("u: not found (HTTP 404)".to_string()));
    assert_eq!(
        refusal("u", 403),
        Some(
            "u: HTTP 403; for a private or gated repository set HF_TOKEN or run `huggingface-cli login`"
                .to_string()
        )
    );
    assert_eq!(refusal("u", 500), None);
    assert!(may_be_missing(false, "u: not found (HTTP 404)"));
    assert!(!may_be_missing(true, "u: not found (HTTP 404)"));
    assert!(!may_be_missing(false, "u: HTTP 500"));
    assert_eq!(announced_length(Some("12")), Some(12));
    assert_eq!(announced_length(Some("x")), None);
    assert_eq!(announced_length(None), None);
    assert_eq!(progress(Some(100_000_000), 57_000_000, 40), Some(50));
    assert_eq!(progress(Some(100_000_000), 49_000_000, 40), None);
    assert_eq!(progress(Some(10), 10, 0), None);
    assert_eq!(progress(None, 10, 0), None);
}

#[test]
fn checkpoints_are_named_after_where_they_are() {
    let r = Resolved::local("/m/tiny".to_string(), Some("tiny".to_string()));
    assert_eq!((r.name.as_str(), r.hub.is_none()), ("tiny", true));
    assert_eq!(Resolved::local("/".to_string(), None).name, "candle-rlcd");
    let hub = HubRef::parse("org/m/sub").unwrap();
    let r = Resolved::fetched(hub, "/c".to_string(), COMMIT.to_string());
    assert_eq!(r.name, "m-sub");
    assert_eq!(r.hub.unwrap().1, COMMIT);
}
