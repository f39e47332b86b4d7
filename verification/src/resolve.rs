//! Finding the loadable binary of a plugin.
//!
//! A VST3 plugin may be shipped either as a bare shared library named `.vst3` or as a bundle
//! directory with the binary under `Contents/<arch>-<os>/`. Both are in the wild, so a host has
//! to cope with each. The application lists the directories; which file is loaded is decided
//! here.

use vstd::prelude::*;
use vstd::string::*;
use vstd::utf8::encode_utf8;

use crate::ascii::DOT;
use crate::block::tail;
use crate::bytes::same_text;
use crate::host::HostError;
use crate::session::lit;

verus! {

/// A directory inside `Contents`, and the names of the files in it.
#[derive(Debug)]
pub struct Folder {
    pub name: String,
    pub files: Vec<String>,
}

/// Where the binary of a plugin is.
#[derive(PartialEq, Eq, Debug)]
pub enum Binary {
    /// The path is the binary.
    Itself,
    /// It is a file in a directory inside `Contents`.
    Inside { folder: usize, file: String },
}

/// The last dot of a name, but for one at its start. Zero if there is none.
pub open spec fn last_dot(b: Seq<u8>) -> int
    decreases b.len(),
{
    if b.len() <= 1 {
        0
    } else if b.last() == DOT {
        b.len() - 1
    } else {
        last_dot(b.drop_last())
    }
}

/// The extension of a name, without its dot; nothing if it has none.
pub open spec fn extension_of(b: Seq<u8>) -> Seq<u8> {
    if last_dot(b) > 0 {
        tail(b, last_dot(b) + 1)
    } else {
        Seq::empty()
    }
}

/// An ASCII byte in lower case.
pub open spec fn lower(x: u8) -> u8 {
    if 0x41 <= x <= 0x5a {
        (x + 32) as u8
    } else {
        x
    }
}

/// Bytes in lower case.
pub open spec fn lowered(b: Seq<u8>) -> Seq<u8> {
    b.map_values(|x: u8| lower(x))
}

/// A file that can be loaded, and no resource like an icon: its extension, in either case, is
/// that of a plugin or a shared library, or it has none.
pub open spec fn is_loadable(name: Seq<u8>) -> bool {
    let e = lowered(extension_of(name));
    ||| e == lit("vst3")
    ||| e == lit("dll")
    ||| e == lit("so")
    ||| e == lit("dylib")
    ||| e.len() == 0
}

/// `a` comes before `b` in a list sorted by bytes, or is the same.
pub open spec fn sorts_before(a: Seq<u8>, b: Seq<u8>) -> bool
    decreases a.len(),
{
    if a.len() == 0 {
        true
    } else if b.len() == 0 {
        false
    } else if a[0] != b[0] {
        a[0] < b[0]
    } else {
        sorts_before(a.drop_first(), b.drop_first())
    }
}

/// A directory with something to load in it.
pub open spec fn usable(f: Folder) -> bool {
    exists|i: int| 0 <= i < f.files@.len() && is_loadable(encode_utf8((#[trigger] f.files@[i])@))
}

/// The first directory from `k` on that has a name and something to load in it.
pub open spec fn named_from(folders: Seq<Folder>, name: Seq<char>, k: int) -> Option<int>
    decreases folders.len() - k,
{
    if k < 0 || k >= folders.len() {
        None
    } else if folders[k].name@ == name && usable(folders[k]) {
        Some(k)
    } else {
        named_from(folders, name, k + 1)
    }
}

/// The first directory from `k` on that has something to load in it.
pub open spec fn usable_from(folders: Seq<Folder>, k: int) -> Option<int>
    decreases folders.len() - k,
{
    if k < 0 || k >= folders.len() {
        None
    } else if usable(folders[k]) {
        Some(k)
    } else {
        usable_from(folders, k + 1)
    }
}

/// The directory to load from. macOS keeps the binary in one of its own; Windows and Linux use
/// an architecture directory, of which this machine's is preferred. Any other is accepted as a
/// fallback, so a bundle built elsewhere still reports.
pub open spec fn chosen(folders: Seq<Folder>, own: Seq<char>) -> Option<int> {
    if named_from(folders, "MacOS"@, 0) is Some {
        named_from(folders, "MacOS"@, 0)
    } else if named_from(folders, own, 0) is Some {
        named_from(folders, own, 0)
    } else if named_from(folders, "x86_64-win"@, 0) is Some {
        named_from(folders, "x86_64-win"@, 0)
    } else if named_from(folders, "x86_64-linux"@, 0) is Some {
        named_from(folders, "x86_64-linux"@, 0)
    } else if named_from(folders, "arm64-win"@, 0) is Some {
        named_from(folders, "arm64-win"@, 0)
    } else {
        usable_from(folders, 0)
    }
}

fn find_last_dot(b: &[u8]) -> (r: usize)
    ensures
        r == last_dot(b@),
        r == 0 || r < b@.len(),
{
    let mut n: usize = b.len();
    proof {
        assert(b@.subrange(0, n as int) =~= b@);
    }
    while n > 1
        invariant
            n <= b@.len(),
            last_dot(b@) == last_dot(b@.subrange(0, n as int)),
        decreases n,
    {
        proof {
            assert(b@.subrange(0, n as int).drop_last() =~= b@.subrange(0, n - 1));
            assert(b@.subrange(0, n as int).last() == b@[n - 1]);
        }
        if b[n - 1] == DOT {
            return n - 1;
        }
        n -= 1;
    }
    0
}

/// Whether the bytes from `from` on are `x`, in either case.
fn ends_in(b: &[u8], from: usize, x: &str) -> (r: bool)
    requires
        from <= b@.len(),
    ensures
        r == (lowered(tail(b@, from as int)) == x.spec_bytes()),
{
    let ghost e = lowered(tail(b@, from as int));
    let y = x.as_bytes();
    let n: usize = b.len();
    if n - from != y.len() {
        return false;
    }
    let mut i: usize = 0;
    while i < y.len()
        invariant
            i <= y@.len(),
            n == b@.len(),
            from + y@.len() == n,
            e == lowered(tail(b@, from as int)),
            y@ == x.spec_bytes(),
            forall|k: int| 0 <= k < i ==> e[k] == #[trigger] y@[k],
        decreases y@.len() - i,
    {
        let z: u8 = b[from + i];
        let l: u8 = if 0x41 <= z && z <= 0x5a {
            z + 32
        } else {
            z
        };
        proof {
            assert(e[i as int] == l);
        }
        if l != y[i] {
            return false;
        }
        i += 1;
    }
    proof {
        assert(e =~= y@);
    }
    true
}

/// Whether a file can be loaded, going by its name.
pub fn loadable(name: &str) -> (r: bool)
    ensures
        r == is_loadable(name.spec_bytes()),
{
    let b = name.as_bytes();
    let dot: usize = find_last_dot(b);
    let ghost e = lowered(extension_of(b@));
    if dot == 0 {
        proof {
            assert(e.len() == 0);
        }
        return true;
    }
    let n: usize = b.len();
    let from: usize = dot + 1;
    if from == n {
        proof {
            assert(e.len() == 0);
        }
        return true;
    }
    ends_in(b, from, "vst3") || ends_in(b, from, "dll") || ends_in(b, from, "so") || ends_in(
        b,
        from,
        "dylib",
    )
}

/// Whether a name comes before another in a sorted list, or is the same.
fn goes_before(a: &str, b: &str) -> (r: bool)
    ensures
        r == sorts_before(a.spec_bytes(), b.spec_bytes()),
{
    let x = a.as_bytes();
    let y = b.as_bytes();
    let mut i: usize = 0;
    proof {
        assert(tail(x@, 0) =~= x@);
        assert(tail(y@, 0) =~= y@);
    }
    while i < x.len() && i < y.len()
        invariant
            i <= x@.len(),
            i <= y@.len(),
            x@ == a.spec_bytes(),
            y@ == b.spec_bytes(),
            sorts_before(x@, y@) == sorts_before(tail(x@, i as int), tail(y@, i as int)),
        decreases x@.len() - i,
    {
        proof {
            assert(tail(x@, i as int).drop_first() =~= tail(x@, i + 1));
            assert(tail(y@, i as int).drop_first() =~= tail(y@, i + 1));
        }
        if x[i] != y[i] {
            return x[i] < y[i];
        }
        i += 1;
    }
    i == x.len()
}

/// Sorting by bytes is a total order.
pub proof fn law_sorting_is_total(a: Seq<u8>, b: Seq<u8>, c: Seq<u8>)
    ensures
        sorts_before(a, a),
        sorts_before(a, b) || sorts_before(b, a),
        sorts_before(a, b) && sorts_before(b, a) ==> a == b,
        sorts_before(a, b) && sorts_before(b, c) ==> sorts_before(a, c),
    decreases a.len() + b.len() + c.len(),
{
    if a.len() > 0 && b.len() > 0 && c.len() > 0 {
        law_sorting_is_total(a.drop_first(), b.drop_first(), c.drop_first());
    }
    if a.len() > 0 {
        lemma_reflexive(a);
    }
    lemma_total(a, b);
}

proof fn lemma_reflexive(a: Seq<u8>)
    ensures
        sorts_before(a, a),
    decreases a.len(),
{
    if a.len() > 0 {
        lemma_reflexive(a.drop_first());
    }
}

proof fn lemma_total(a: Seq<u8>, b: Seq<u8>)
    ensures
        sorts_before(a, b) || sorts_before(b, a),
        sorts_before(a, b) && sorts_before(b, a) ==> a == b,
    decreases a.len(),
{
    if a.len() > 0 && b.len() > 0 {
        lemma_total(a.drop_first(), b.drop_first());
        if a[0] == b[0] && sorts_before(a, b) && sorts_before(b, a) {
            assert(a =~= seq![a[0]] + a.drop_first());
            assert(b =~= seq![b[0]] + b.drop_first());
        }
    } else if sorts_before(a, b) && sorts_before(b, a) {
        assert(a =~= b);
    }
}

/// First loadable file in a directory, ignoring resources like icons.
pub fn first_file(files: &Vec<String>) -> (r: Option<usize>)
    ensures
        match r {
            Some(k) => {
                &&& k < files@.len()
                &&& is_loadable(encode_utf8(files@[k as int]@))
                &&& forall|i: int|
                    0 <= i < files@.len() && is_loadable(encode_utf8((#[trigger] files@[i])@))
                        ==> sorts_before(encode_utf8(files@[k as int]@), encode_utf8(files@[i]@))
            },
            None => forall|i: int|
                0 <= i < files@.len() ==> !is_loadable(encode_utf8((#[trigger] files@[i])@)),
        },
{
    let mut best: Option<usize> = None;
    let mut i: usize = 0;
    while i < files.len()
        invariant
            i <= files@.len(),
            match best {
                Some(k) => {
                    &&& k < i
                    &&& is_loadable(encode_utf8(files@[k as int]@))
                    &&& forall|j: int|
                        0 <= j < i && is_loadable(encode_utf8((#[trigger] files@[j])@))
                            ==> sorts_before(
                            encode_utf8(files@[k as int]@),
                            encode_utf8(files@[j]@),
                        )
                },
                None => forall|j: int|
                    0 <= j < i ==> !is_loadable(encode_utf8((#[trigger] files@[j])@)),
            },
        decreases files@.len() - i,
    {
        if loadable(files[i].as_str()) {
            let ghost new = encode_utf8(files@[i as int]@);
            proof {
                lemma_reflexive(new);
            }
            match best {
                Some(k) => {
                    let ghost old_best = encode_utf8(files@[k as int]@);
                    if !goes_before(files[k].as_str(), files[i].as_str()) {
                        proof {
                            lemma_total(new, old_best);
                            assert forall|j: int|
                                0 <= j < i + 1 && is_loadable(
                                    encode_utf8((#[trigger] files@[j])@),
                                ) implies sorts_before(new, encode_utf8(files@[j]@)) by {
                                if j < i {
                                    law_sorting_is_total(
                                        new,
                                        old_best,
                                        encode_utf8(files@[j]@),
                                    );
                                }
                            }
                        }
                        best = Some(i);
                    }
                },
                None => {
                    best = Some(i);
                },
            }
        }
        i += 1;
    }
    best
}

fn find_named(folders: &Vec<Folder>, name: &str) -> (r: Option<(usize, usize)>)
    ensures
        match r {
            Some((k, i)) => named_from(folders@, name@, 0) == Some(k as int) && is_first_of(
                folders@,
                k as int,
                i as int,
            ),
            None => named_from(folders@, name@, 0) is None,
        },
{
    let mut k: usize = 0;
    while k < folders.len()
        invariant
            k <= folders@.len(),
            named_from(folders@, name@, 0) == named_from(folders@, name@, k as int),
        decreases folders@.len() - k,
    {
        if same_text(folders[k].name.as_str(), name) {
            match first_file(&folders[k].files) {
                Some(i) => {
                    return Some((k, i));
                },
                None => {},
            }
        }
        k += 1;
    }
    None
}

fn find_usable(folders: &Vec<Folder>) -> (r: Option<(usize, usize)>)
    ensures
        match r {
            Some((k, i)) => usable_from(folders@, 0) == Some(k as int) && is_first_of(
                folders@,
                k as int,
                i as int,
            ),
            None => usable_from(folders@, 0) is None,
        },
{
    let mut k: usize = 0;
    while k < folders.len()
        invariant
            k <= folders@.len(),
            usable_from(folders@, 0) == usable_from(folders@, k as int),
        decreases folders@.len() - k,
    {
        match first_file(&folders[k].files) {
            Some(i) => {
                return Some((k, i));
            },
            None => {},
        }
        k += 1;
    }
    None
}

/// File `i` of directory `k` is the one to load from it: the first of its loadable files in
/// sorted order.
pub open spec fn is_first_of(folders: Seq<Folder>, k: int, i: int) -> bool {
    &&& 0 <= k < folders.len()
    &&& 0 <= i < folders[k].files@.len()
    &&& is_loadable(encode_utf8(folders[k].files@[i]@))
    &&& forall|j: int|
        0 <= j < folders[k].files@.len() && is_loadable(
            encode_utf8((#[trigger] folders[k].files@[j])@),
        ) ==> sorts_before(
            encode_utf8(folders[k].files@[i]@),
            encode_utf8(folders[k].files@[j]@),
        )
}

fn find_binary(folders: &Vec<Folder>, own: &str) -> (r: Option<(usize, usize)>)
    ensures
        match r {
            Some((k, i)) => chosen(folders@, own@) == Some(k as int) && is_first_of(
                folders@,
                k as int,
                i as int,
            ),
            None => chosen(folders@, own@) is None,
        },
{
    let a = find_named(folders, "MacOS");
    if a.is_some() {
        return a;
    }
    let b = find_named(folders, own);
    if b.is_some() {
        return b;
    }
    let c = find_named(folders, "x86_64-win");
    if c.is_some() {
        return c;
    }
    let d = find_named(folders, "x86_64-linux");
    if d.is_some() {
        return d;
    }
    let e = find_named(folders, "arm64-win");
    if e.is_some() {
        return e;
    }
    find_usable(folders)
}

/// Find the loadable binary for a `.vst3` path: what it is, and, of a directory, what stands in
/// each directory inside its `Contents`, in the order they were listed. `own` is the directory
/// of this machine.
pub fn resolve_binary(
    path: &str,
    is_file: bool,
    is_dir: bool,
    own: &str,
    folders: &Vec<Folder>,
) -> (r: Result<Binary, HostError>)
    ensures
        match r {
            Ok(Binary::Itself) => is_file,
            Ok(Binary::Inside { folder, file }) => {
                &&& !is_file
                &&& is_dir
                &&& chosen(folders@, own@) == Some(folder as int)
                &&& exists|i: int| #[trigger]
                    is_first_of(folders@, folder as int, i) && file@
                        == folders@[folder as int].files@[i]@
            },
            Err(e) => {
                &&& !is_file
                &&& !is_dir || chosen(folders@, own@) is None
                &&& e is NoBinary
                &&& e->NoBinary_0@ == path@
            },
        },
{
    if is_file {
        return Ok(Binary::Itself);
    }
    if is_dir {
        match find_binary(folders, own) {
            Some((k, i)) => {
                let file = folders[k].files[i].clone();
                proof {
                    assert(is_first_of(folders@, k as int, i as int));
                    assert(file@ == folders@[k as int].files@[i as int]@);
                }
                return Ok(Binary::Inside { folder: k, file });
            },
            None => {},
        }
    }
    Err(HostError::NoBinary(path.to_owned()))
}

/// Names are sorted by their first bytes that differ, and a name comes before its extensions.
pub proof fn law_names_sort_by_their_bytes(p: Seq<u8>, a: Seq<u8>, b: Seq<u8>)
    ensures
        sorts_before(p, p + a),
        a.len() > 0 ==> !sorts_before(p + a, p),
        a.len() > 0 && b.len() > 0 && a[0] < b[0] ==> sorts_before(p + a, p + b) && !sorts_before(
            p + b,
            p + a,
        ),
    decreases p.len(),
{
    if p.len() > 0 {
        let rest = p.drop_first();
        law_names_sort_by_their_bytes(rest, a, b);
        assert((p + a).drop_first() =~= rest + a);
        assert((p + b).drop_first() =~= rest + b);
    } else {
        assert(p + a =~= a);
        assert(p + b =~= b);
    }
}

/// The extension of a name is what stands behind its last dot, unless that is at its start.
pub proof fn law_extension_is_behind_the_last_dot(stem: Seq<u8>, ext: Seq<u8>)
    requires
        stem.len() > 0,
        forall|i: int| 0 <= i < ext.len() ==> #[trigger] ext[i] != DOT,
    ensures
        extension_of(stem.push(DOT) + ext) == ext,
{
    let b = stem.push(DOT) + ext;
    lemma_last_dot_is(b, stem.len() as int);
    assert(tail(b, stem.len() as int + 1) =~= ext);
}

/// A name with no dot but perhaps at its start has no extension.
pub proof fn law_no_dot_no_extension(b: Seq<u8>)
    requires
        forall|i: int| 1 <= i < b.len() ==> #[trigger] b[i] != DOT,
    ensures
        extension_of(b) == Seq::<u8>::empty(),
{
    lemma_no_dot(b);
}

proof fn lemma_no_dot(b: Seq<u8>)
    requires
        forall|i: int| 1 <= i < b.len() ==> #[trigger] b[i] != DOT,
    ensures
        last_dot(b) == 0,
    decreases b.len(),
{
    if b.len() > 1 {
        assert(b.last() == b[b.len() - 1]);
        let c = b.drop_last();
        assert forall|i: int| 1 <= i < c.len() implies #[trigger] c[i] != DOT by {
            assert(c[i] == b[i]);
        }
        lemma_no_dot(c);
    }
}

proof fn lemma_last_dot_is(b: Seq<u8>, i: int)
    requires
        1 <= i < b.len(),
        b[i] == DOT,
        forall|k: int| i < k < b.len() ==> #[trigger] b[k] != DOT,
    ensures
        last_dot(b) == i,
    decreases b.len(),
{
    assert(b.last() == b[b.len() - 1]);
    if i < b.len() - 1 {
        let c = b.drop_last();
        assert(c[i] == b[i]);
        assert forall|k: int| i < k < c.len() implies #[trigger] c[k] != DOT by {
            assert(c[k] == b[k]);
        }
        lemma_last_dot_is(c, i);
    }
}

/// Of the folders with a name and something to load, the first counts.
pub proof fn law_first_folder_of_a_name(folders: Seq<Folder>, name: Seq<char>, k: int)
    requires
        0 <= k <= folders.len(),
    ensures
        match named_from(folders, name, k) {
            Some(i) => {
                &&& k <= i < folders.len()
                &&& folders[i].name@ == name && usable(folders[i])
                &&& forall|j: int|
                    k <= j < i ==> !((#[trigger] folders[j]).name@ == name && usable(folders[j]))
            },
            None => forall|j: int|
                k <= j < folders.len() ==> !((#[trigger] folders[j]).name@ == name && usable(
                    folders[j],
                )),
        },
    decreases folders.len() - k,
{
    if k < folders.len() {
        law_first_folder_of_a_name(folders, name, k + 1);
    }
}

/// Of the folders with something to load, the first counts.
pub proof fn law_first_folder_to_load_from(folders: Seq<Folder>, k: int)
    requires
        0 <= k <= folders.len(),
    ensures
        match usable_from(folders, k) {
            Some(i) => {
                &&& k <= i < folders.len()
                &&& usable(folders[i])
                &&& forall|j: int| k <= j < i ==> !usable(#[trigger] folders[j])
            },
            None => forall|j: int| k <= j < folders.len() ==> !usable(#[trigger] folders[j]),
        },
    decreases folders.len() - k,
{
    if k < folders.len() {
        law_first_folder_to_load_from(folders, k + 1);
    }
}

/// A folder of that name has something to load.
pub open spec fn has_usable(folders: Seq<Folder>, name: Seq<char>) -> bool {
    exists|i: int|
        0 <= i < folders.len() && (#[trigger] folders[i]).name@ == name && usable(folders[i])
}

/// A bundle is loaded from the folder for macOS if that has something to load, or else from the
/// folder of the machine it runs on, or else from one of the other three platforms, in their
/// order, or else from any folder that has something to load; and from none only if there is
/// none.
pub proof fn law_folders_are_tried_in_order(folders: Seq<Folder>, own: Seq<char>)
    ensures
        match chosen(folders, own) {
            Some(k) => {
                let name = folders[k].name@;
                &&& 0 <= k < folders.len()
                &&& usable(folders[k])
                &&& has_usable(folders, "MacOS"@) ==> name == "MacOS"@
                &&& !has_usable(folders, "MacOS"@) && has_usable(folders, own) ==> name == own
                &&& !has_usable(folders, "MacOS"@) && !has_usable(folders, own) ==> {
                    &&& has_usable(folders, "x86_64-win"@) ==> name == "x86_64-win"@
                    &&& !has_usable(folders, "x86_64-win"@) && has_usable(folders, "x86_64-linux"@)
                        ==> name == "x86_64-linux"@
                    &&& !has_usable(folders, "x86_64-win"@) && !has_usable(
                        folders,
                        "x86_64-linux"@,
                    ) && has_usable(folders, "arm64-win"@) ==> name == "arm64-win"@
                }
            },
            None => forall|j: int| 0 <= j < folders.len() ==> !usable(#[trigger] folders[j]),
        },
{
    law_first_folder_of_a_name(folders, "MacOS"@, 0);
    law_first_folder_of_a_name(folders, own, 0);
    law_first_folder_of_a_name(folders, "x86_64-win"@, 0);
    law_first_folder_of_a_name(folders, "x86_64-linux"@, 0);
    law_first_folder_of_a_name(folders, "arm64-win"@, 0);
    law_first_folder_to_load_from(folders, 0);
}

} // verus!
