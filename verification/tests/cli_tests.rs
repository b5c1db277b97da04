use justext4::cli::{count_live, parse_build_args, parse_format_args, tree_step, HostKind, TreeAction, USAGE};
use justext4::{print_usage, DirEntry};

fn args(list: &[&str]) -> Vec<String> {
    list.iter().map(|s| s.to_string()).collect()
}

#[test]
fn usage_lists_every_command() {
    let text = print_usage();
    assert_eq!(text, USAGE);
    assert!(text.starts_with("mkext4-rs"));
    for cmd in ["format <path>", "inspect <path>", "touch <image>", "cat <image>", "build-from-tree"] {
        assert!(text.contains(cmd), "usage should mention {cmd}");
    }
}

#[test]
fn format_args_default_config() {
    let fa = parse_format_args(&args(&["image.ext4"])).unwrap();
    assert_eq!(fa.host_path, "image.ext4");
    assert_eq!(fa.config.block_size, 4096);
    assert_eq!(fa.config.size_blocks, 16);
    assert_eq!(fa.config.volume_label, b"justext4");
}

#[test]
fn format_args_all_flags() {
    let fa = parse_format_args(&args(&[
        "out.img",
        "--size-blocks",
        "64",
        "--block-size",
        "2048",
        "--label",
        "test-label",
    ]))
    .unwrap();
    assert_eq!(fa.config.size_blocks, 64);
    assert_eq!(fa.config.block_size, 2048);
    assert_eq!(fa.config.volume_label, b"test-label");
}

#[test]
fn format_args_accept_plus_sign() {
    let fa = parse_format_args(&args(&["x", "--size-blocks", "+32"])).unwrap();
    assert_eq!(fa.config.size_blocks, 32);
}

#[test]
fn format_args_no_path_returns_error() {
    let err = parse_format_args(&[]).unwrap_err();
    assert!(err.0.contains("requires a host path"));
}

#[test]
fn format_args_unknown_flag_returns_error() {
    let err = parse_format_args(&args(&["image.ext4", "--bogus"])).unwrap_err();
    assert_eq!(err.0, "unknown flag: --bogus");
}

#[test]
fn format_args_missing_value_returns_error() {
    let err = parse_format_args(&args(&["image.ext4", "--label"])).unwrap_err();
    assert_eq!(err.0, "--label requires a value");
    let err = parse_format_args(&args(&["image.ext4", "--block-size"])).unwrap_err();
    assert_eq!(err.0, "--block-size requires a value");
}

#[test]
fn format_args_bad_number_returns_parse_error() {
    let err = parse_format_args(&args(&["image.ext4", "--size-blocks", "12x"])).unwrap_err();
    assert!(err.0.starts_with("--size-blocks parse: "), "{}", err.0);
    let err = parse_format_args(&args(&["image.ext4", "--block-size", "99999999999"])).unwrap_err();
    assert!(err.0.starts_with("--block-size parse: "), "{}", err.0);
    let err = parse_format_args(&args(&["image.ext4", "--size-blocks", "-1"])).unwrap_err();
    assert!(err.0.starts_with("--size-blocks parse: "), "{}", err.0);
}

#[test]
fn build_args_parse_flags() {
    let ba = parse_build_args(&args(&[
        "rootfs",
        "image.ext4",
        "--inodes",
        "64",
        "--size-blocks",
        "256",
        "--label",
        "root",
    ]))
    .unwrap();
    assert_eq!(ba.host_dir, "rootfs");
    assert_eq!(ba.image_path, "image.ext4");
    assert_eq!(ba.inodes, 64);
    assert_eq!(ba.config.size_blocks, 256);
    assert_eq!(ba.config.block_size, 4096);
    assert_eq!(ba.config.volume_label, b"root");
}

#[test]
fn build_args_defaults_and_errors() {
    let ba = parse_build_args(&args(&["dir", "img"])).unwrap();
    assert_eq!(ba.inodes, 32);
    assert_eq!(ba.config.size_blocks, 16);
    let err = parse_build_args(&args(&["dir"])).unwrap_err();
    assert!(err.0.starts_with("build-from-tree requires <host-dir> <image>"));
    let err = parse_build_args(&args(&["dir", "img", "--block-size", "1024"])).unwrap_err();
    assert_eq!(err.0, "unknown flag: --block-size");
    let err = parse_build_args(&args(&["dir", "img", "--inodes"])).unwrap_err();
    assert_eq!(err.0, "--inodes requires a value");
}

#[test]
fn count_live_skips_tombstones() {
    let entry = |inode: u32, name: &[u8]| DirEntry {
        inode,
        rec_len: 12,
        file_type_raw: 1,
        name: name.to_vec(),
    };
    let entries = vec![entry(2, b"."), entry(0, b"gone"), entry(11, b"file")];
    assert_eq!(count_live(&entries), 2);
    assert_eq!(count_live(&[]), 0);
}

#[test]
fn tree_step_builds_image_paths() {
    match tree_step("", "etc", HostKind::Directory) {
        TreeAction::MakeDir(p) => assert_eq!(p, "/etc"),
        other => panic!("expected MakeDir, got {:?}", other),
    }
    match tree_step("/etc", "hosts", HostKind::RegularFile) {
        TreeAction::CreateFile(p) => assert_eq!(p, "/etc/hosts"),
        other => panic!("expected CreateFile, got {:?}", other),
    }
    match tree_step("/dev", "null", HostKind::Other) {
        TreeAction::Skip(p) => assert_eq!(p, "/dev/null"),
        other => panic!("expected Skip, got {:?}", other),
    }
}
