use s3_remote::addressing::{decode_bundle_path, parse_remote_url, GitRef, Key, UrlError};
use s3_remote::catalog::{list_remote_refs, sorted_remote_refs, CatalogError, RemoteRef, StoredObject};
use s3_remote::protocol::{
    after_command, capabilities_reply, error_reply, fetch_target, list_reply, parse_command, push_reply, split_words,
    start_push, Command,
};
use s3_remote::push::{cleanup_targets, decide_push, parse_push_ref};

fn root() -> Key {
    Key { bucket: "bucket".to_string(), key: "prefix".to_string() }
}

fn obj(key: &str, time: &str) -> StoredObject {
    StoredObject { key: Some(key.to_string()), last_modified: Some(time.to_string()) }
}

fn remote_ref(name: &str, sha: &str, time: &str) -> RemoteRef {
    RemoteRef {
        object: Key { bucket: "bucket".to_string(), key: format!("prefix/{}/{}.bundle", name, sha) },
        updated: time.to_string(),
        reference: GitRef { name: name.to_string(), sha: sha.to_string() },
    }
}

#[test]
fn bundle_path_layout() {
    let g = GitRef { name: "master".to_string(), sha: "A1".to_string() };
    assert_eq!(g.bundle_path("prefix".to_string()), "prefix/master/A1.bundle");
}

#[test]
fn decode_round_trip_with_slashes_in_name() {
    let g = GitRef { name: "refs/heads/feature/x".to_string(), sha: "0123abc".to_string() };
    let p = g.bundle_path("root/dir".to_string());
    assert_eq!(p, "root/dir/refs/heads/feature/x/0123abc.bundle");
    let d = decode_bundle_path("root/dir", &p).ok().unwrap();
    assert_eq!(d.name, "refs/heads/feature/x");
    assert_eq!(d.sha, "0123abc");
}

#[test]
fn decode_rejects_malformed_paths() {
    let e = decode_bundle_path("prefix", "prefix/master/A1.tar").err().unwrap();
    assert_eq!(e.path, "prefix/master/A1.tar");
    assert!(decode_bundle_path("prefix", "prefix/A1.bundle").is_err());
    assert!(decode_bundle_path("prefix", "other/master/A1.bundle").is_err());
    assert!(decode_bundle_path("prefix", "prefix").is_err());
}

#[test]
fn sorted_newest_first() {
    let h = sorted_remote_refs(vec![
        remote_ref("feature", "X", "2021-01-01T00:00:00.000Z"),
        remote_ref("feature", "Z", "2023-01-01T00:00:00.000Z"),
        remote_ref("feature", "Y", "2022-01-01T00:00:00.000Z"),
    ]);
    let shas: Vec<&str> = h.by_update_time.iter().map(|r| r.reference.sha.as_str()).collect();
    assert_eq!(shas, vec!["Z", "Y", "X"]);
    assert_eq!(h.latest_ref().reference.sha, "Z");
}

#[test]
fn list_shows_newest_then_superseded() {
    let x = "1111111111111111111111111111111111111111";
    let y = "2222222222222222222222222222222222222222";
    let objects = vec![
        obj(&format!("prefix/feature/{}.bundle", x), "2021-05-01T10:00:00.000Z"),
        obj(&format!("prefix/feature/{}.bundle", y), "2021-06-01T10:00:00.000Z"),
    ];
    let cat = list_remote_refs(&root(), &objects).ok().unwrap();
    let reply = list_reply(&cat);
    assert_eq!(
        reply,
        vec![format!("{} feature", y), format!("{} feature__1111111", x), String::new()]
    );
}

#[test]
fn list_advertises_head_for_master() {
    let objects = vec![obj("prefix/refs/heads/master/abcdef0123.bundle", "2021-05-01T10:00:00.000Z")];
    let cat = list_remote_refs(&root(), &objects).ok().unwrap();
    assert!(cat.contains_key("refs/heads/master"));
    assert_eq!(
        list_reply(&cat),
        vec![
            "abcdef0123 refs/heads/master".to_string(),
            "@refs/heads/master HEAD".to_string(),
            String::new()
        ]
    );
}

#[test]
fn list_of_empty_store() {
    let cat = list_remote_refs(&root(), &vec![]).ok().unwrap();
    assert_eq!(list_reply(&cat), vec![String::new()]);
}

#[test]
fn catalog_groups_by_name() {
    let objects = vec![
        obj("prefix/a/1.bundle", "2021-01-01"),
        obj("prefix/b/2.bundle", "2021-01-02"),
        obj("prefix/a/3.bundle", "2021-01-03"),
    ];
    let cat = list_remote_refs(&root(), &objects).ok().unwrap();
    assert_eq!(cat.entries.len(), 2);
    let a = cat.get("a").unwrap();
    assert_eq!(a.by_update_time.len(), 2);
    assert_eq!(a.latest_ref().reference.sha, "3");
    assert_eq!(a.latest_ref().object.key, "prefix/a/3.bundle");
    assert_eq!(a.latest_ref().object.bucket, "bucket");
    assert_eq!(cat.get("b").unwrap().latest_ref().reference.sha, "2");
    assert!(cat.get("c").is_none());
}

#[test]
fn catalog_errors() {
    let e = list_remote_refs(&root(), &vec![obj("prefix/master.bundle", "t")]).err().unwrap();
    assert!(matches!(e, CatalogError::MalformedPath { ref path } if path == "prefix/master.bundle"));
    assert_eq!(e.message(), "malformed artifact path: prefix/master.bundle");
    let no_time = StoredObject { key: Some("prefix/a/1.bundle".to_string()), last_modified: None };
    let e = list_remote_refs(&root(), &vec![no_time]).err().unwrap();
    assert_eq!(e.message(), "listed object without an update time: prefix/a/1.bundle");
    let no_key = StoredObject { key: None, last_modified: Some("t".to_string()) };
    let e = list_remote_refs(&root(), &vec![no_key]).err().unwrap();
    assert!(matches!(e, CatalogError::MissingKey));
    assert_eq!(e.message(), "listed object without a key");
}

#[test]
fn first_push_is_accepted() {
    let out = decide_push(None, false, &vec![]);
    assert!(out.accepted);
    assert!(out.dominated.is_empty());
    assert_eq!(push_reply("master", &out, &None), vec!["ok master".to_string(), String::new()]);
    let key = fetch_target(&root(), "A1", "master").unwrap();
    assert_eq!(key.key, "prefix/master/A1.bundle");
}

#[test]
fn fast_forward_push_removes_ancestor() {
    let cat = list_remote_refs(&root(), &vec![obj("prefix/master/A1.bundle", "2021")]).ok().unwrap();
    let out = decide_push(cat.get("master"), false, &vec![true]);
    assert!(out.accepted);
    assert_eq!(out.dominated.len(), 1);
    assert_eq!(out.dominated[0].key, "prefix/master/A1.bundle");
    assert_eq!(out.dominated[0].bucket, "bucket");
    assert_eq!(push_reply("master", &out, &None), vec!["ok master".to_string(), String::new()]);
    let gone = cleanup_targets(out, &None);
    assert_eq!(gone.len(), 1);
}

#[test]
fn diverged_push_is_rejected() {
    let cat = list_remote_refs(&root(), &vec![obj("prefix/master/A1.bundle", "2021")]).ok().unwrap();
    let out = decide_push(cat.get("master"), false, &vec![false]);
    assert!(!out.accepted);
    assert!(out.dominated.is_empty());
    let reply = push_reply("master", &out, &None);
    assert!(reply[0].starts_with("error remote changed"));
    assert_eq!(reply[1], "");
    assert!(cleanup_targets(out, &None).is_empty());
}

#[test]
fn forced_push_keeps_unrelated_artifacts() {
    let objects = vec![obj("prefix/dev/N1.bundle", "2022"), obj("prefix/dev/O1.bundle", "2021")];
    let cat = list_remote_refs(&root(), &objects).ok().unwrap();
    let h = cat.get("dev").unwrap();
    assert_eq!(h.latest_ref().reference.sha, "N1");
    let out = decide_push(Some(h), true, &vec![false, true]);
    assert!(out.accepted);
    assert_eq!(out.dominated.len(), 1);
    assert_eq!(out.dominated[0].key, "prefix/dev/O1.bundle");
}

#[test]
fn failed_upload_deletes_nothing() {
    let cat = list_remote_refs(&root(), &vec![obj("prefix/master/A1.bundle", "2021")]).ok().unwrap();
    let out = decide_push(cat.get("master"), false, &vec![true]);
    let err = Some("timeout".to_string());
    assert_eq!(
        push_reply("master", &out, &err),
        vec!["error failed to push: timeout".to_string(), String::new()]
    );
    assert!(cleanup_targets(out, &err).is_empty());
}

#[test]
fn mismatched_push_names() {
    let r = start_push("abc:def").err().unwrap();
    assert_eq!(r, vec!["error src_ref != dst_ref".to_string(), String::new()]);
}

#[test]
fn push_argument_forms() {
    let p = start_push("+refs/heads/x:refs/heads/x").ok().unwrap();
    assert!(p.force);
    assert_eq!(p.src, "refs/heads/x");
    assert_eq!(p.dst, "refs/heads/x");
    let p = parse_push_ref("a:b:c").unwrap();
    assert!(!p.force);
    assert_eq!(p.src, "a");
    assert_eq!(p.dst, "b");
    let r = start_push("nocolon").err().unwrap();
    assert_eq!(r, vec!["error Invalid push reference format".to_string(), String::new()]);
}

#[test]
fn fetch_of_head_needs_no_store() {
    assert!(fetch_target(&root(), "0123456", "HEAD").is_none());
    let k = fetch_target(&root(), "0123456", "refs/heads/master").unwrap();
    assert_eq!(k.bucket, "bucket");
    assert_eq!(k.key, "prefix/refs/heads/master/0123456.bundle");
}

#[test]
fn commands() {
    assert!(matches!(parse_command("capabilities"), Command::Capabilities));
    assert!(matches!(parse_command("list"), Command::List));
    assert!(matches!(parse_command("list for-push\n"), Command::List));
    assert!(matches!(parse_command("  "), Command::End));
    assert!(matches!(parse_command("frobnicate"), Command::Unknown));
    assert!(matches!(parse_command("capabilities now"), Command::Unknown));
    match parse_command("push +a:a") {
        Command::Push { arg } => assert_eq!(arg, "+a:a"),
        _ => panic!("not a push"),
    }
    match parse_command("fetch 0123 refs/heads/master") {
        Command::Fetch { sha, name } => {
            assert_eq!(sha, "0123");
            assert_eq!(name, "refs/heads/master");
        }
        _ => panic!("not a fetch"),
    }
}

#[test]
fn words_of_a_line() {
    assert_eq!(split_words("  a\tbc  d \n"), vec!["a", "bc", "d"]);
    assert!(split_words("").is_empty());
}

#[test]
fn fixed_replies() {
    assert_eq!(capabilities_reply(), vec!["*push", "*fetch", ""]);
    assert_eq!(error_reply("unknown command"), vec!["error unknown command", ""]);
}

#[test]
fn remote_urls() {
    let k = parse_remote_url("s3://bucket/some/prefix/").ok().unwrap();
    assert_eq!(k.bucket, "bucket");
    assert_eq!(k.key, "some/prefix");
    let k = parse_remote_url("s3://b/p").ok().unwrap();
    assert_eq!(k.key, "p");
    let e = parse_remote_url("http://bucket/prefix").err().unwrap();
    assert!(matches!(e, UrlError::NotS3));
    assert!(e.message().starts_with("remote url does not start with s3://"));
    assert!(matches!(parse_remote_url("s3://bucket").err().unwrap(), UrlError::NoPrefix));
}

#[test]
fn session_steps() {
    assert_eq!(after_command(&Command::End, false), (false, false));
    assert_eq!(after_command(&Command::End, true), (true, false));
    assert_eq!(after_command(&Command::Push { arg: "a:a".to_string() }, false), (true, true));
    assert_eq!(after_command(&Command::List, true), (true, false));
}

#[test]
fn push_law_on_values() {
    // three artifacts of one ref; the two older ones are ancestors of the pushed commit
    let objects = vec![
        obj("prefix/m/C.bundle", "2023"),
        obj("prefix/m/B.bundle", "2022"),
        obj("prefix/m/A.bundle", "2021"),
    ];
    let cat = list_remote_refs(&root(), &objects).ok().unwrap();
    let h = cat.get("m").unwrap();
    let out = decide_push(Some(h), false, &vec![true, false, true]);
    assert!(out.accepted);
    let keys: Vec<String> = out.dominated.iter().map(|k| k.key.clone()).collect();
    assert_eq!(keys, vec!["prefix/m/C.bundle".to_string(), "prefix/m/A.bundle".to_string()]);
}
