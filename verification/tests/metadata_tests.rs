use logmux::metadata::parse_pod_metadata;
use logmux::path::{has_log_extension, join_path};

#[test]
fn test_parse_pod_metadata_from_k8s_path() {
    let path = "/var/log/pods/default_nginx-abc_9f3c2b1/web/0.log".as_bytes();
    let meta = parse_pod_metadata(path);

    assert_eq!(meta.namespace, "default");
    assert_eq!(meta.pod_name, "nginx-abc");
    assert_eq!(meta.pod_uid, "9f3c2b1");
    assert_eq!(meta.container_name, "web");
}

#[test]
fn pod_name_may_hold_underscores() {
    let meta = parse_pod_metadata(b"/var/log/pods/kube-system_my_pod_42/app/1.log");
    assert_eq!(meta.namespace, "kube-system");
    assert_eq!(meta.pod_name, "my_pod");
    assert_eq!(meta.pod_uid, "42");
    assert_eq!(meta.container_name, "app");
}

#[test]
fn pod_dir_without_underscore_keeps_defaults() {
    let meta = parse_pod_metadata(b"/logs/plain/app/0.log");
    assert_eq!(meta.namespace, "default");
    assert_eq!(meta.pod_name, "0.log");
    assert_eq!(meta.pod_uid, "unknown");
    assert_eq!(meta.container_name, "app");
}

#[test]
fn pod_dir_with_one_underscore_sets_only_namespace() {
    let meta = parse_pod_metadata(b"/ns_pod/app/0.log");
    assert_eq!(meta.namespace, "ns");
    assert_eq!(meta.pod_name, "0.log");
    assert_eq!(meta.pod_uid, "unknown");
}

#[test]
fn short_paths_use_defaults() {
    let meta = parse_pod_metadata(b"0.log");
    assert_eq!(meta.namespace, "default");
    assert_eq!(meta.pod_name, "0.log");
    assert_eq!(meta.pod_uid, "unknown");
    assert_eq!(meta.container_name, "unknown");
    let meta = parse_pod_metadata(b"/");
    assert_eq!(meta.pod_name, "unknown");
    assert_eq!(meta.container_name, "unknown");
}

#[test]
fn dot_components_are_skipped_and_dot_dot_is_no_name() {
    let meta = parse_pod_metadata(b"/a_b_c/./web//0.log/");
    assert_eq!(meta.namespace, "a");
    assert_eq!(meta.pod_name, "b");
    assert_eq!(meta.pod_uid, "c");
    assert_eq!(meta.container_name, "web");
    let meta = parse_pod_metadata(b"/a_b_c/web/..");
    assert_eq!(meta.pod_name, "b");
    assert_eq!(meta.container_name, "web");
    let meta = parse_pod_metadata(b"/x/a_b_c/../0.log");
    assert_eq!(meta.namespace, "a");
    assert_eq!(meta.pod_name, "b");
    assert_eq!(meta.container_name, "unknown");
}

#[test]
fn non_utf8_names_fall_back_to_defaults() {
    let meta = parse_pod_metadata(b"/a_b_c/w\xffb/0.log");
    assert_eq!(meta.container_name, "unknown");
    assert_eq!(meta.namespace, "a");
    let meta = parse_pod_metadata(b"/a_b\xff_c/web/0.log");
    assert_eq!(meta.namespace, "default");
    assert_eq!(meta.pod_uid, "unknown");
}

#[test]
fn log_extension() {
    assert!(has_log_extension(b"/var/log/pods/a/web/0.log"));
    assert!(has_log_extension(b"x.tar.log"));
    assert!(!has_log_extension(b"/var/log/.log"));
    assert!(!has_log_extension(b"/var/log/0.log.gz"));
    assert!(!has_log_extension(b"/var/log/log"));
    assert!(!has_log_extension(b"/var/log/0.LOG"));
    assert!(has_log_extension(b"/var/log/0.log/"));
    assert!(!has_log_extension(b"/var/log/0.log/.."));
}

#[test]
fn join_adds_separator_only_when_needed() {
    assert_eq!(join_path(b"/var/log", b"a.log"), b"/var/log/a.log".to_vec());
    assert_eq!(join_path(b"/var/log/", b"a.log"), b"/var/log/a.log".to_vec());
    assert_eq!(join_path(b"", b"a.log"), b"a.log".to_vec());
    assert_eq!(join_path(b"/var/log", b"/etc/x"), b"/etc/x".to_vec());
}
