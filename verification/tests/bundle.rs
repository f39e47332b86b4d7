use notepad::bundle::{
    arch_dir_name, binary_path, build_args, contains, has_flag, host_triple, info_plist, is_macos,
    library_name, out_dir, parse_options, platform_dir, plugin_file_name, removal_script,
    starts_with, test_steps, Arch, Options, Os, TestStep,
};
use notepad::host::{ClassInfo2, HostError};
use notepad::module_info::{module_info, FactoryInfo};
use notepad::resolve::{first_file, loadable, resolve_binary, Binary, Folder};

fn strings(a: &[&str]) -> Vec<String> {
    a.iter().map(|s| s.to_string()).collect()
}

#[test]
fn names_follow_the_target() {
    assert_eq!(library_name("x86_64-pc-windows-msvc"), "notepad_plugin.dll");
    assert_eq!(library_name("aarch64-apple-darwin"), "libnotepad_plugin.dylib");
    assert_eq!(library_name("x86_64-unknown-linux-gnu"), "libnotepad_plugin.so");
    assert_eq!(platform_dir("x86_64-pc-windows-msvc"), "x86_64-win");
    assert_eq!(platform_dir("aarch64-unknown-linux-gnu"), "arm64-linux");
    assert_eq!(platform_dir("i686-pc-windows-msvc"), "x86-win");
    assert_eq!(platform_dir("i586-unknown-linux-gnu"), "x86-linux");
    assert_eq!(platform_dir("riscv64gc-unknown-linux-gnu"), "unknown-linux");
    assert!(is_macos("x86_64-apple-ios"));
    assert!(!is_macos("x86_64-unknown-linux-gnu"));
    assert_eq!(plugin_file_name(Os::Windows), "notepad_plugin.dll");
    assert_eq!(plugin_file_name(Os::MacOs), "libnotepad_plugin.dylib");
    assert_eq!(plugin_file_name(Os::Linux), "libnotepad_plugin.so");
}

#[test]
fn machines_have_triples_and_directories() {
    assert_eq!(host_triple(Arch::X86_64, Os::Windows), "x86_64-pc-windows-msvc");
    assert_eq!(host_triple(Arch::Aarch64, Os::MacOs), "aarch64-apple-darwin");
    assert_eq!(host_triple(Arch::Other, Os::Linux), "unknown-unknown-linux-gnu");
    assert_eq!(arch_dir_name(Arch::X86_64, Os::Windows), "x86_64-win");
    assert_eq!(arch_dir_name(Arch::Aarch64, Os::MacOs), "arm64-linux");
    assert_eq!(arch_dir_name(Arch::Other, Os::Linux), "x86-linux");
}

#[test]
fn options_are_read() {
    let o = parse_options(&strings(&["--release", "x", "--target", "t"]));
    assert!(o.release);
    assert_eq!(o.target.as_deref(), Some("t"));
    let o = parse_options(&strings(&["--target", "t", "--target"]));
    assert!(!o.release);
    assert_eq!(o.target, None);
    let o = parse_options(&strings(&["--target", "--release"]));
    assert!(!o.release);
    assert_eq!(o.target.as_deref(), Some("--release"));
    assert!(has_flag(&strings(&["a", "--snapshots"]), "--snapshots"));
    assert!(!has_flag(&strings(&["a"]), "--snapshots"));
}

#[test]
fn output_goes_where_cargo_puts_it() {
    let plain = Options { release: false, target: None };
    let full = Options { release: true, target: Some("t".into()) };
    assert_eq!(out_dir(&plain), "target/debug");
    assert_eq!(out_dir(&full), "target/t/release");
    assert_eq!(build_args(&plain), strings(&["build", "-p", "notepad-plugin"]));
    assert_eq!(
        build_args(&full),
        strings(&["build", "-p", "notepad-plugin", "--release", "--target", "t"])
    );
    assert_eq!(binary_path("aarch64-apple-darwin"), "Contents/MacOS/Notepad");
    assert_eq!(binary_path("x86_64-pc-windows-msvc"), "Contents/x86_64-win/Notepad.vst3");
    assert_eq!(removal_script("C:\\a\\é b"), "sleep 2; rm -rf 'C:/a/é b'");
}

#[test]
fn tests_run_in_order() {
    assert_eq!(test_steps(false), vec![TestStep::Build, TestStep::UnitTests, TestStep::Scenarios]);
    assert_eq!(test_steps(true).last(), Some(&TestStep::Rendering));
    assert_eq!(TestStep::UnitTests.args(true), vec!["test", "--workspace", "--release"]);
    assert_eq!(TestStep::Scenarios.args(false), vec!["run", "-q", "-p", "notepad-testrunner"]);
    assert_eq!(TestStep::Rendering.args(false).len(), 7);
    assert_eq!(TestStep::Build.name(), "building the plugin");
}

#[test]
fn text_is_searched() {
    assert!(contains("abc", "bc"));
    assert!(contains("abc", ""));
    assert!(!contains("abc", "cb"));
    assert!(!contains("", "a"));
    assert!(starts_with("abc", "ab"));
    assert!(!starts_with("abc", "abcd"));
}

#[test]
fn the_property_list_names_the_bundle() {
    let p = info_plist();
    assert!(p.starts_with("<?xml version=\"1.0\" encoding=\"UTF-8\"?>\n<!DOCTYPE plist"));
    assert!(p.contains("    <key>CFBundleIdentifier</key>\n    <string>com.vst-notepad.notepad</string>\n"));
    assert!(p.contains("    <key>LSMinimumSystemVersion</key>\n    <string>10.13</string>\n</dict>\n</plist>\n"));
    assert_eq!(p.matches("<key>").count(), 10);
}

fn class(name: &str, subs: &str) -> ClassInfo2 {
    ClassInfo2 {
        cid: [0, 1, 0x2a, 0xff, 4, 5, 6, 7, 8, 9, 10, 11, 12, 13, 14, 0xab],
        name: name.into(),
        category: "Audio Module Class".into(),
        sub_categories: subs.into(),
        vendor: "v".into(),
        version: "1".into(),
        sdk_version: "VST 3.7".into(),
        class_flags: 7,
        cardinality: 0x7fffffff,
    }
}

#[test]
fn module_info_is_json() {
    let f = FactoryInfo { vendor: "v".into(), url: "u".into(), email: "e".into(), flags: 16 };
    let text = module_info(&f, &vec![class("A", "Fx|Tools||"), class("B", "")]);
    let v: serde_json::Value = serde_json::from_str(&text).unwrap();
    assert_eq!(v["Name"], "Notepad");
    assert_eq!(v["Factory Info"]["Flags"]["Unicode"], true);
    assert_eq!(v["Factory Info"]["E-Mail"], "e");
    assert_eq!(v["Classes"].as_array().unwrap().len(), 2);
    assert_eq!(v["Classes"][0]["CID"], "00012AFF0405060708090A0B0C0D0EAB");
    assert_eq!(v["Classes"][0]["Sub Categories"].as_array().unwrap().len(), 2);
    assert_eq!(v["Classes"][0]["Sub Categories"][1], "Tools");
    assert_eq!(v["Classes"][1]["Sub Categories"].as_array().unwrap().len(), 0);
    assert_eq!(v["Classes"][1]["Cardinality"], 2147483647);
    assert_eq!(v["Classes"][1]["Class Flags"], 7);
    let none = module_info(&FactoryInfo { flags: 0, ..f }, &vec![]);
    assert!(none.contains("\"Unicode\": false"));
    assert!(none.ends_with("  \"Classes\": [\n\n  ],\n  \"Compatibility\": []\n}\n"));
}

fn folder(name: &str, files: &[&str]) -> Folder {
    Folder { name: name.into(), files: strings(files) }
}

fn inside(folder: usize, file: &str) -> Binary {
    Binary::Inside { folder, file: file.into() }
}

#[test]
fn loadable_files_are_told_by_their_extension() {
    for name in ["a.vst3", "A.VST3", "b.Dll", "c.so", "d.dylib", "Notepad", ".hidden", "e."] {
        assert!(loadable(name), "{name}");
    }
    for name in ["icon.png", "a.vst3.bak", "Info.plist"] {
        assert!(!loadable(name), "{name}");
    }
    assert_eq!(first_file(&strings(&["z.so", "icon.png", "b.so", "c"])), Some(2));
    assert_eq!(first_file(&strings(&["icon.png"])), None);
}

#[test]
fn the_binary_is_found() {
    let none: Vec<Folder> = vec![];
    assert_eq!(resolve_binary("p", true, false, "x", &none).unwrap(), Binary::Itself);
    assert!(matches!(resolve_binary("p", false, false, "x", &none), Err(HostError::NoBinary(p)) if p == "p"));
    assert!(matches!(resolve_binary("p", false, true, "x", &none), Err(HostError::NoBinary(_))));
    let all = vec![
        folder("Resources", &["moduleinfo.json"]),
        folder("x86_64-win", &["N.vst3"]),
        folder("arm64-linux", &["M.so"]),
        folder("MacOS", &["icon.icns"]),
    ];
    assert_eq!(resolve_binary("p", false, true, "arm64-linux", &all).unwrap(), inside(2, "M.so"));
    assert_eq!(resolve_binary("p", false, true, "x86-linux", &all).unwrap(), inside(1, "N.vst3"));
    let mac = vec![folder("x86_64-win", &["N.vst3"]), folder("MacOS", &["Notepad"])];
    assert_eq!(resolve_binary("p", false, true, "x86_64-win", &mac).unwrap(), inside(1, "Notepad"));
    let odd = vec![folder("a", &["x.png"]), folder("b", &["q.so", "p.so"])];
    assert_eq!(resolve_binary("p", false, true, "x86_64-win", &odd).unwrap(), inside(1, "p.so"));
}
