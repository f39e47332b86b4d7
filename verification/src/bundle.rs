//! The VST3 bundle: its names, its layout and the texts in it.
//!
//! A VST3 plugin is a bundle: a directory named `Something.vst3` with a prescribed layout that
//! differs per platform. Building the library and copying files about is the application's
//! part; what goes where, and what the description files say, is decided here.

use vstd::prelude::*;
use vstd::string::*;
use vstd::utf8::encode_utf8;

use crate::bytes::{push_byte, same_text};
use crate::session::lit;
use crate::typing::append;

verus! {

pub const PLUGIN_CRATE: &'static str = "notepad-plugin";

pub const BUNDLE_NAME: &'static str = "Notepad";

pub const BUNDLE_ID: &'static str = "com.vst-notepad.notepad";

pub const VERSION: &'static str = "0.1.0";

/// What the VST3 SDK writes for plugin bundles.
pub const PKG_INFO: &'static str = "BNDL????";

// ---- searching text ---------------------------------------------------------------

/// `x` stands in `b` at `i`.
pub open spec fn stands_at(b: Seq<u8>, x: Seq<u8>, i: int) -> bool {
    0 <= i && i + x.len() <= b.len() && b.subrange(i, i + x.len()) == x
}

/// `x` occurs in `b`.
pub open spec fn occurs(b: Seq<u8>, x: Seq<u8>) -> bool {
    exists|i: int| stands_at(b, x, i)
}

fn matches_at(b: &[u8], x: &[u8], at: usize) -> (r: bool)
    requires
        at <= b@.len(),
    ensures
        r == stands_at(b@, x@, at as int),
{
    let n: usize = b.len();
    if n - at < x.len() {
        return false;
    }
    let mut i: usize = 0;
    while i < x.len()
        invariant
            i <= x@.len(),
            n == b@.len(),
            at + x@.len() <= n,
            forall|k: int| 0 <= k < i ==> b@[at + k] == #[trigger] x@[k],
        decreases x@.len() - i,
    {
        if b[at + i] != x[i] {
            proof {
                assert(b@.subrange(at as int, at + x@.len())[i as int] == b@[at + i]);
            }
            return false;
        }
        i += 1;
    }
    proof {
        assert(b@.subrange(at as int, at + x@.len()) =~= x@);
    }
    true
}

/// Whether a text occurs in another.
pub fn contains(text: &str, part: &str) -> (r: bool)
    ensures
        r == occurs(text.spec_bytes(), part.spec_bytes()),
{
    let b = text.as_bytes();
    let x = part.as_bytes();
    let mut i: usize = 0;
    loop
        invariant
            i <= b@.len(),
            b@ == text.spec_bytes(),
            x@ == part.spec_bytes(),
            forall|k: int| k < i ==> !stands_at(b@, x@, k),
        decreases b@.len() - i,
    {
        if matches_at(b, x, i) {
            return true;
        }
        if i >= b.len() {
            return false;
        }
        i += 1;
    }
}

/// Whether a text starts with another.
pub fn starts_with(text: &str, part: &str) -> (r: bool)
    ensures
        r == stands_at(text.spec_bytes(), part.spec_bytes(), 0),
{
    matches_at(text.as_bytes(), part.as_bytes(), 0)
}

// ---- targets ----------------------------------------------------------------------

/// A processor architecture.
#[derive(Clone, Copy, PartialEq, Eq, Debug, Structural)]
pub enum Arch {
    X86_64,
    Aarch64,
    Other,
}

/// An operating system.
#[derive(Clone, Copy, PartialEq, Eq, Debug, Structural)]
pub enum Os {
    Windows,
    MacOs,
    Linux,
}

/// The triple names an Apple system.
pub open spec fn is_apple(triple: Seq<u8>) -> bool {
    occurs(triple, lit("apple")) || occurs(triple, lit("darwin"))
}

/// Whether a target needs a bundle, which is the only loadable form on macOS.
pub fn is_macos(triple: &str) -> (r: bool)
    ensures
        r == is_apple(triple.spec_bytes()),
{
    contains(triple, "apple") || contains(triple, "darwin")
}

/// File name cargo gives the shared library for a target.
pub fn library_name(triple: &str) -> (r: &'static str)
    ensures
        r@ == if occurs(triple.spec_bytes(), lit("windows")) {
            "notepad_plugin.dll"@
        } else if is_apple(triple.spec_bytes()) {
            "libnotepad_plugin.dylib"@
        } else {
            "libnotepad_plugin.so"@
        },
{
    if contains(triple, "windows") {
        "notepad_plugin.dll"
    } else if is_macos(triple) {
        "libnotepad_plugin.dylib"
    } else {
        "libnotepad_plugin.so"
    }
}

/// Filename of the plugin binary on a platform.
pub fn plugin_file_name(os: Os) -> (r: &'static str)
    ensures
        r@ == match os {
            Os::Windows => "notepad_plugin.dll"@,
            Os::MacOs => "libnotepad_plugin.dylib"@,
            Os::Linux => "libnotepad_plugin.so"@,
        },
{
    match os {
        Os::Windows => "notepad_plugin.dll",
        Os::MacOs => "libnotepad_plugin.dylib",
        Os::Linux => "libnotepad_plugin.so",
    }
}

/// The name of the architecture in a triple, as the VST3 layout spells it.
pub open spec fn triple_arch(triple: Seq<u8>) -> Seq<u8> {
    if stands_at(triple, lit("x86_64"), 0) {
        lit("x86_64")
    } else if stands_at(triple, lit("aarch64"), 0) {
        lit("arm64")
    } else if stands_at(triple, lit("i686"), 0) || stands_at(triple, lit("i586"), 0) {
        lit("x86")
    } else {
        lit("unknown")
    }
}

/// The directory of a platform inside `Contents`.
pub open spec fn platform_dir_of(triple: Seq<u8>) -> Seq<u8> {
    triple_arch(triple) + if occurs(triple, lit("windows")) {
        lit("-win")
    } else {
        lit("-linux")
    }
}

/// The architecture directory name the VST3 layout expects inside `Contents`.
pub fn platform_dir(triple: &str) -> (r: String)
    ensures
        encode_utf8(r@) == platform_dir_of(triple.spec_bytes()),
{
    let arch = if starts_with(triple, "x86_64") {
        "x86_64"
    } else if starts_with(triple, "aarch64") {
        "arm64"
    } else if starts_with(triple, "i686") || starts_with(triple, "i586") {
        "x86"
    } else {
        "unknown"
    };
    let mut r = arch.to_owned();
    if contains(triple, "windows") {
        append(&mut r, "-win");
    } else {
        append(&mut r, "-linux");
    }
    r
}

/// The triple of a machine. Good enough for a build on it; an explicit target covers everything
/// else.
pub fn host_triple(arch: Arch, os: Os) -> (r: String)
    ensures
        encode_utf8(r@) == (match arch {
            Arch::X86_64 => lit("x86_64"),
            Arch::Aarch64 => lit("aarch64"),
            Arch::Other => lit("unknown"),
        }) + (match os {
            Os::Windows => lit("-pc-windows-msvc"),
            Os::MacOs => lit("-apple-darwin"),
            Os::Linux => lit("-unknown-linux-gnu"),
        }),
{
    let mut r = (match arch {
        Arch::X86_64 => "x86_64",
        Arch::Aarch64 => "aarch64",
        Arch::Other => "unknown",
    }).to_owned();
    let system = match os {
        Os::Windows => "-pc-windows-msvc",
        Os::MacOs => "-apple-darwin",
        Os::Linux => "-unknown-linux-gnu",
    };
    append(&mut r, system);
    r
}

/// The directory of a machine inside `Contents`.
pub open spec fn arch_dir_of(arch: Arch, os: Os) -> Seq<u8> {
    (match arch {
        Arch::X86_64 => lit("x86_64"),
        Arch::Aarch64 => lit("arm64"),
        Arch::Other => lit("x86"),
    }) + (match os {
        Os::Windows => lit("-win"),
        _ => lit("-linux"),
    })
}

/// The directory of a machine inside `Contents`.
pub fn arch_dir_name(arch: Arch, os: Os) -> (r: String)
    ensures
        encode_utf8(r@) == arch_dir_of(arch, os),
{
    let mut r = (match arch {
        Arch::X86_64 => "x86_64",
        Arch::Aarch64 => "arm64",
        Arch::Other => "x86",
    }).to_owned();
    let system = match os {
        Os::Windows => "-win",
        _ => "-linux",
    };
    append(&mut r, system);
    r
}

// ---- options ----------------------------------------------------------------------

/// What a build task was asked for.
#[derive(Debug)]
pub struct Options {
    pub release: bool,
    pub target: Option<String>,
}

/// Options as mathematics.
#[verifier::ext_equal]
pub struct Wanted {
    pub release: bool,
    pub target: Option<Seq<char>>,
}

impl View for Options {
    type V = Wanted;

    open spec fn view(&self) -> Wanted {
        Wanted {
            release: self.release,
            target: match self.target {
                Some(t) => Some(t@),
                None => None,
            },
        }
    }
}

/// The texts of some strings.
pub open spec fn words(args: Seq<String>) -> Seq<Seq<char>> {
    Seq::new(args.len(), |i: int| args[i]@)
}

/// What the arguments from `i` on make of the options so far. `--target` takes the argument
/// after it; arguments that are not known are passed over.
pub open spec fn options_from(args: Seq<Seq<char>>, i: int, so_far: Wanted) -> Wanted
    decreases args.len() - i,
{
    if i < 0 || i >= args.len() {
        so_far
    } else if args[i] == "--release"@ {
        options_from(args, i + 1, Wanted { release: true, ..so_far })
    } else if args[i] == "--target"@ {
        if i + 1 < args.len() {
            options_from(args, i + 2, Wanted { target: Some(args[i + 1]), ..so_far })
        } else {
            Wanted { target: None, ..so_far }
        }
    } else {
        options_from(args, i + 1, so_far)
    }
}

/// Read the options of a build task.
pub fn parse_options(args: &Vec<String>) -> (r: Options)
    ensures
        r@ == options_from(words(args@), 0, Wanted { release: false, target: None }),
{
    let mut opts = Options { release: false, target: None };
    let mut i: usize = 0;
    let ghost all = words(args@);
    while i < args.len()
        invariant
            i <= args@.len(),
            all == words(args@),
            options_from(all, 0, Wanted { release: false, target: None }) == options_from(
                all,
                i as int,
                opts@,
            ),
        decreases args@.len() - i,
    {
        proof {
            assert(all[i as int] == args@[i as int]@);
        }
        if same_text(args[i].as_str(), "--release") {
            opts.release = true;
            i += 1;
        } else if same_text(args[i].as_str(), "--target") {
            if args.len() - i > 1 {
                proof {
                    assert(all[i + 1] == args@[i + 1]@);
                }
                opts.target = Some(args[i + 1].clone());
                i += 2;
            } else {
                opts.target = None;
                i += 1;
            }
        } else {
            i += 1;
        }
    }
    opts
}

/// Whether a flag is among the arguments.
pub fn has_flag(args: &Vec<String>, flag: &str) -> (r: bool)
    ensures
        r == words(args@).contains(flag@),
{
    let mut i: usize = 0;
    while i < args.len()
        invariant
            i <= args@.len(),
            forall|k: int| 0 <= k < i ==> (#[trigger] args@[k])@ != flag@,
        decreases args@.len() - i,
    {
        if same_text(args[i].as_str(), flag) {
            proof {
                assert(words(args@)[i as int] == flag@);
            }
            return true;
        }
        i += 1;
    }
    proof {
        assert forall|k: int| 0 <= k < words(args@).len() implies words(args@)[k] != flag@ by {
            assert(args@[k]@ != flag@);
        }
    }
    false
}

// ---- cargo ------------------------------------------------------------------------

/// A run of cargo that testing takes.
#[derive(Clone, Copy, PartialEq, Eq, Debug, Structural)]
pub enum TestStep {
    Build,
    UnitTests,
    Scenarios,
    /// The pixel tests need gigabytes of build output, so they are opt-in.
    Rendering,
}

/// The runs that testing takes, in order. The scenario runner loads the plugin binary at
/// runtime rather than linking it, so the plugin is built first.
pub fn test_steps(snapshots: bool) -> (r: Vec<TestStep>)
    ensures
        r@ == if snapshots {
            seq![TestStep::Build, TestStep::UnitTests, TestStep::Scenarios, TestStep::Rendering]
        } else {
            seq![TestStep::Build, TestStep::UnitTests, TestStep::Scenarios]
        },
{
    let mut r: Vec<TestStep> = Vec::new();
    r.push(TestStep::Build);
    r.push(TestStep::UnitTests);
    r.push(TestStep::Scenarios);
    if snapshots {
        r.push(TestStep::Rendering);
    }
    r
}

impl TestStep {
    /// The arguments of cargo for a step.
    pub open spec fn words(self) -> Seq<Seq<char>> {
        match self {
            TestStep::Build => seq!["build"@, "-p"@, "notepad-plugin"@],
            TestStep::UnitTests => seq!["test"@, "--workspace"@],
            TestStep::Scenarios => seq!["run"@, "-q"@, "-p"@, "notepad-testrunner"@],
            TestStep::Rendering => seq![
                "test"@,
                "-p"@,
                "notepad-plugin"@,
                "--features"@,
                "snapshots"@,
                "--test"@,
                "theme_rendering"@,
            ],
        }
    }

    /// What a step is called when it fails.
    pub fn name(self) -> (r: &'static str)
        ensures
            r@ == match self {
                TestStep::Build => "building the plugin"@,
                TestStep::UnitTests => "unit tests"@,
                TestStep::Scenarios => "scenarios"@,
                TestStep::Rendering => "rendering tests"@,
            },
    {
        match self {
            TestStep::Build => "building the plugin",
            TestStep::UnitTests => "unit tests",
            TestStep::Scenarios => "scenarios",
            TestStep::Rendering => "rendering tests",
        }
    }

    /// The arguments of cargo for a step.
    pub fn args(self, release: bool) -> (r: Vec<&'static str>)
        ensures
            str_words(r@) == if release {
                self.words().push("--release"@)
            } else {
                self.words()
            },
    {
        let mut r: Vec<&'static str> = Vec::new();
        match self {
            TestStep::Build => {
                r.push("build");
                r.push("-p");
                r.push("notepad-plugin");
            },
            TestStep::UnitTests => {
                r.push("test");
                r.push("--workspace");
            },
            TestStep::Scenarios => {
                r.push("run");
                r.push("-q");
                r.push("-p");
                r.push("notepad-testrunner");
            },
            TestStep::Rendering => {
                r.push("test");
                r.push("-p");
                r.push("notepad-plugin");
                r.push("--features");
                r.push("snapshots");
                r.push("--test");
                r.push("theme_rendering");
            },
        }
        proof {
            assert(str_words(r@) =~= self.words());
        }
        if release {
            let ghost before = r@;
            r.push("--release");
            proof {
                assert(str_words(r@) =~= str_words(before).push("--release"@));
            }
        }
        r
    }
}

/// The texts of some string slices.
pub open spec fn str_words(args: Seq<&'static str>) -> Seq<Seq<char>> {
    Seq::new(args.len(), |i: int| args[i]@)
}

/// The arguments of cargo that build the plugin.
pub open spec fn build_words(o: Wanted) -> Seq<Seq<char>> {
    let base = seq!["build"@, "-p"@, PLUGIN_CRATE@];
    let built = if o.release {
        base.push("--release"@)
    } else {
        base
    };
    match o.target {
        Some(t) => built.push("--target"@).push(t),
        None => built,
    }
}

/// The arguments of cargo that build the plugin.
pub fn build_args(opts: &Options) -> (r: Vec<String>)
    ensures
        words(r@) == build_words(opts@),
{
    let mut r: Vec<String> = Vec::new();
    r.push("build".to_owned());
    r.push("-p".to_owned());
    r.push(PLUGIN_CRATE.to_owned());
    if opts.release {
        r.push("--release".to_owned());
    }
    match &opts.target {
        Some(t) => {
            r.push("--target".to_owned());
            r.push(t.clone());
        },
        None => {},
    }
    proof {
        assert(words(r@) =~= build_words(opts@));
    }
    r
}

// ---- layout -----------------------------------------------------------------------

/// Where a build leaves its output, below the workspace.
pub open spec fn out_dir_of(o: Wanted) -> Seq<u8> {
    lit("target") + (match o.target {
        Some(t) => lit("/") + encode_utf8(t),
        None => Seq::empty(),
    }) + (if o.release {
        lit("/release")
    } else {
        lit("/debug")
    })
}

/// Where a build leaves its output, below the workspace.
pub fn out_dir(opts: &Options) -> (r: String)
    ensures
        encode_utf8(r@) == out_dir_of(opts@),
{
    let mut r = "target".to_owned();
    let ghost base = encode_utf8(r@);
    match &opts.target {
        Some(t) => {
            append(&mut r, "/");
            append(&mut r, t.as_str());
            proof {
                assert(encode_utf8(r@) =~= base + (lit("/") + encode_utf8(t@)));
            }
        },
        None => {
            proof {
                assert(base + Seq::<u8>::empty() =~= base);
            }
        },
    }
    if opts.release {
        append(&mut r, "/release");
    } else {
        append(&mut r, "/debug");
    }
    r
}

/// Where the plugin binary goes inside the bundle: on macOS without an extension, elsewhere
/// under its architecture and with the extension of a plugin.
pub open spec fn binary_place(triple: Seq<u8>) -> Seq<u8> {
    if is_apple(triple) {
        lit("Contents/MacOS/Notepad")
    } else {
        lit("Contents/") + platform_dir_of(triple) + lit("/Notepad.vst3")
    }
}

/// Where the plugin binary goes inside the bundle.
pub fn binary_path(triple: &str) -> (r: String)
    ensures
        encode_utf8(r@) == binary_place(triple.spec_bytes()),
{
    if is_macos(triple) {
        "Contents/MacOS/Notepad".to_owned()
    } else {
        let mut r = "Contents/".to_owned();
        let dir = platform_dir(triple);
        append(&mut r, dir.as_str());
        append(&mut r, "/Notepad.vst3");
        r
    }
}

/// The shell command that removes a directory once this process is gone. Forward slashes, so
/// the path works in a POSIX shell on every platform.
pub open spec fn removal_of(path: Seq<u8>) -> Seq<u8> {
    lit("sleep 2; rm -rf '") + forward_slashes(path) + lit("'")
}

/// A path with its backslashes turned around.
pub open spec fn forward_slashes(path: Seq<u8>) -> Seq<u8> {
    Seq::new(
        path.len(),
        |i: int|
            if path[i] == crate::ascii::BACKSLASH {
                crate::ascii::SLASH
            } else {
                path[i]
            },
    )
}

/// The shell command that removes a directory once this process is gone.
pub fn removal_script(path: &str) -> (r: String)
    ensures
        encode_utf8(r@) == removal_of(path.spec_bytes()),
{
    let mut r = "sleep 2; rm -rf '".to_owned();
    let ghost head = encode_utf8(r@);
    let b = path.as_bytes();
    let n: usize = b.len();
    let mut start: usize = 0;
    let mut i: usize = 0;
    let ghost turned = forward_slashes(b@);
    proof {
        crate::bytes::lemma_str_valid(path@);
        assert(turned.subrange(0, 0) =~= Seq::<u8>::empty());
        assert(head + turned.subrange(0, 0) =~= head);
    }
    while i < n
        invariant
            start <= i <= n,
            n == b@.len(),
            b@ == path.spec_bytes(),
            vstd::utf8::valid_utf8(b@),
            turned == forward_slashes(b@),
            crate::bytes::is_boundary(b@, start as int),
            crate::bytes::is_boundary(b@, n as int),
            encode_utf8(r@) == head + turned.subrange(0, start as int),
            forall|k: int| start <= k < i ==> b@[k] != crate::ascii::BACKSLASH,
        decreases n - i,
    {
        if b[i] == crate::ascii::BACKSLASH {
            proof {
                crate::text::lemma_after_ascii(b@, i as int);
            }
            append(&mut r, crate::bytes::slice(path, start, i));
            push_byte(&mut r, crate::ascii::SLASH);
            proof {
                assert(turned.subrange(0, i + 1) =~= turned.subrange(0, start as int)
                    + b@.subrange(start as int, i as int) + seq![crate::ascii::SLASH]);
                assert(encode_utf8(r@) =~= head + turned.subrange(0, i + 1));
            }
            start = i + 1;
        }
        i += 1;
    }
    append(&mut r, crate::bytes::slice(path, start, n));
    proof {
        assert(turned =~= turned.subrange(0, start as int) + b@.subrange(start as int, n as int));
        assert(encode_utf8(r@) =~= head + turned);
    }
    append(&mut r, "'");
    r
}

// ---- texts ------------------------------------------------------------------------

/// The property list of a macOS bundle.
pub fn info_plist() -> (r: String)
    ensures
        encode_utf8(r@) == lit("<?xml version=\"1.0\" encoding=\"UTF-8\"?>\n<!DOCTYPE plist PUBLIC \"-//Apple//DTD PLIST 1.0//EN\" \"http://www.apple.com/DTDs/PropertyList-1.0.dtd\">\n<plist version=\"1.0\">\n<dict>\n")
            + entry("CFBundleExecutable"@, BUNDLE_NAME@) + entry("CFBundleIdentifier"@, BUNDLE_ID@)
            + entry("CFBundleName"@, BUNDLE_NAME@) + entry("CFBundleDisplayName"@, BUNDLE_NAME@)
            + entry("CFBundlePackageType"@, "BNDL"@) + entry("CFBundleSignature"@, "????"@) + entry(
            "CFBundleVersion"@,
            VERSION@,
        ) + entry("CFBundleShortVersionString"@, VERSION@) + entry(
            "CFBundleInfoDictionaryVersion"@,
            "6.0"@,
        ) + entry("LSMinimumSystemVersion"@, "10.13"@) + lit("</dict>\n</plist>\n"),
{
    let mut r = "<?xml version=\"1.0\" encoding=\"UTF-8\"?>\n<!DOCTYPE plist PUBLIC \"-//Apple//DTD PLIST 1.0//EN\" \"http://www.apple.com/DTDs/PropertyList-1.0.dtd\">\n<plist version=\"1.0\">\n<dict>\n".to_owned();
    push_entry(&mut r, "CFBundleExecutable", BUNDLE_NAME);
    push_entry(&mut r, "CFBundleIdentifier", BUNDLE_ID);
    push_entry(&mut r, "CFBundleName", BUNDLE_NAME);
    push_entry(&mut r, "CFBundleDisplayName", BUNDLE_NAME);
    push_entry(&mut r, "CFBundlePackageType", "BNDL");
    push_entry(&mut r, "CFBundleSignature", "????");
    push_entry(&mut r, "CFBundleVersion", VERSION);
    push_entry(&mut r, "CFBundleShortVersionString", VERSION);
    push_entry(&mut r, "CFBundleInfoDictionaryVersion", "6.0");
    push_entry(&mut r, "LSMinimumSystemVersion", "10.13");
    append(&mut r, "</dict>\n</plist>\n");
    r
}

/// An entry of a property list.
pub open spec fn entry(key: Seq<char>, value: Seq<char>) -> Seq<u8> {
    lit("    <key>") + encode_utf8(key) + lit("</key>\n    <string>") + encode_utf8(value) + lit(
        "</string>\n",
    )
}

fn push_entry(s: &mut String, key: &str, value: &str)
    ensures
        encode_utf8(final(s)@) == encode_utf8(old(s)@) + entry(key@, value@),
{
    let ghost before = encode_utf8(s@);
    append(s, "    <key>");
    append(s, key);
    append(s, "</key>\n    <string>");
    append(s, value);
    append(s, "</string>\n");
    proof {
        assert(encode_utf8(s@) =~= before + entry(key@, value@));
    }
}

/// What each option of the build asks for; other arguments are passed over.
pub proof fn law_build_options(args: Seq<Seq<char>>, i: int, o: Wanted)
    requires
        0 <= i < args.len(),
    ensures
        args[i] == "--release"@ ==> options_from(args, i, o) == options_from(
            args,
            i + 1,
            Wanted { release: true, ..o },
        ),
        args[i] == "--target"@ && i + 1 < args.len() ==> options_from(args, i, o) == options_from(
            args,
            i + 2,
            Wanted { target: Some(args[i + 1]), ..o },
        ),
        args[i] != "--release"@ && args[i] != "--target"@ ==> options_from(args, i, o)
            == options_from(args, i + 1, o),
        options_from(args, args.len() as int, o) == o,
{
    reveal_strlit("--release");
    reveal_strlit("--target");
    assert("--release"@.len() != "--target"@.len());
}

/// Slashes are turned the one way round, and nothing else in a path changes.
pub proof fn law_slashes_are_turned(path: Seq<u8>, i: int)
    requires
        0 <= i < path.len(),
    ensures
        forward_slashes(path).len() == path.len(),
        path[i] == 0x5c ==> forward_slashes(path)[i] == 0x2f,
        path[i] != 0x5c ==> forward_slashes(path)[i] == path[i],
{
}

} // verus!
