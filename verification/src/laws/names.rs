//! Laws of file names.

use vstd::prelude::*;
use vstd::string::*;

use crate::laws::texts::{is_small_ascii, lemma_lowercase_of_ascii, lemma_small_ascii_stays};
use crate::laws::texts::lemma_trimmed_middle;
use crate::names::{allowed, component_extension, extension_of, has_double_divider, has_tail};
use crate::names::{is_disguised, is_divider, is_executable, is_portable, is_suspicious};
use crate::names::{is_verdict, label_text, last_component, last_position, lemma_last_position};
use crate::names::{lemma_suspicious_plain_name, lemma_tail_start_at, may_be_verdict};
use crate::names::{portable_label, sanitized, settled_extension, settled_verdict, stem_of};
use crate::names::tail_of;
use crate::text::{is_white_space, lowercase, occurs};

verus! {

// ------------------------------------------------------------
// Extensions
// ------------------------------------------------------------

/// A name that is something, a full stop and a part without full stops has that part as
/// its extension, and what stands before the full stop as its stem.
pub proof fn lemma_extension_behind_last_stop(stem: Seq<char>, extension: Seq<char>)
    requires
        stem.len() > 0,
        !extension.contains('.'),
    ensures
        extension_of(stem + seq!['.'] + extension) == Some(extension),
        stem_of(stem + seq!['.'] + extension) == stem,
{
    let name = stem + seq!['.'] + extension;
    lemma_last_position(name, '.');
    let dot = last_position(name, '.');
    assert(name[stem.len() as int] == '.');
    if dot > stem.len() {
        assert(extension[dot - stem.len() - 1] == '.');
    }
    assert(dot == stem.len());
    assert(name.skip(dot + 1) =~= extension);
    assert(name.take(dot) =~= stem);
}

/// A name without full stops behind its first character has no extension.
pub proof fn lemma_no_extension(name: Seq<char>)
    requires
        forall|i: int| 0 < i < name.len() ==> #[trigger] name[i] != '.',
    ensures
        extension_of(name) is None,
        stem_of(name) == name,
{
    lemma_last_position(name, '.');
}

/// The label of an extension that is not empty is a full stop followed by the whole
/// extension in lower case.
pub proof fn lemma_label_is_the_whole_extension(extension: Seq<char>)
    requires
        extension.len() > 0,
    ensures
        label_text(Some(extension)).len() == lowercase(extension).len() + 1,
        label_text(Some(extension))[0] == '.',
        forall|i: int|
            0 <= i < lowercase(extension).len() ==> label_text(Some(extension))[i + 1] == (
            #[trigger] lowercase(extension)[i]),
{
}

/// The label of an ASCII extension is one character longer, and has each of its
/// characters one place further back, with small letters for capital ones.
pub proof fn lemma_label_of_ascii(extension: Seq<char>)
    requires
        extension.len() > 0,
        forall|i: int| 0 <= i < extension.len() ==> #[trigger] extension[i] < '\u{80}',
    ensures
        label_text(Some(extension)).len() == extension.len() + 1,
        label_text(Some(extension))[0] == '.',
        forall|i: int|
            0 <= i < extension.len() ==> label_text(Some(extension))[i + 1] as int - (
            #[trigger] extension[i]) as int == if 'A' <= extension[i] <= 'Z' {
                'a' as int - 'A' as int
            } else {
                0
            },
        is_small_ascii(extension) ==> label_text(Some(extension)) == seq!['.'] + extension,
{
    lemma_lowercase_of_ascii(extension);
    lemma_label_is_the_whole_extension(extension);
    assert forall|i: int| 0 <= i < extension.len() implies label_text(Some(extension))[i + 1] as int
        - (#[trigger] extension[i]) as int == if 'A' <= extension[i] <= 'Z' {
        'a' as int - 'A' as int
    } else {
        0
    } by {
        assert(label_text(Some(extension))[i + 1] == lowercase(extension)[i]);
    }
    if is_small_ascii(extension) {
        lemma_small_ascii_stays(extension);
        assert(label_text(Some(extension)) =~= seq!['.'] + extension);
    }
}

/// Different extensions have different labels: extensions whose lower case differs, and so
/// different ASCII extensions without capital letters.
pub proof fn lemma_labels_tell_extensions_apart(a: Seq<char>, b: Seq<char>)
    requires
        a.len() > 0,
        b.len() > 0,
    ensures
        lowercase(a) != lowercase(b) ==> label_text(Some(a)) != label_text(Some(b)),
        is_small_ascii(a) && is_small_ascii(b) && a != b ==> label_text(Some(a)) != label_text(
            Some(b),
        ),
{
    if label_text(Some(a)) == label_text(Some(b)) {
        assert(label_text(Some(a)).drop_first() =~= lowercase(a));
        assert(label_text(Some(b)).drop_first() =~= lowercase(b));
    }
    if is_small_ascii(a) && is_small_ascii(b) {
        lemma_small_ascii_stays(a);
        lemma_small_ascii_stays(b);
    }
}

/// A missing extension and an empty one have one label, and no other extension has it.
pub proof fn lemma_label_of_no_extension(extension: Seq<char>)
    requires
        extension.len() > 0,
    ensures
        label_text(None) == "File / No Extension"@,
        label_text(Some(Seq::empty())) == "File / No Extension"@,
        label_text(Some(extension)) != "File / No Extension"@,
{
    reveal_strlit("File / No Extension");
    assert("File / No Extension"@[0] == 'F');
    lemma_label_is_the_whole_extension(extension);
}

/// The label of a path whose last component is something, a full stop and a small ASCII
/// part is a full stop and that part.
pub proof fn lemma_label_of_path(directory: Seq<char>, stem: Seq<char>, extension: Seq<char>)
    requires
        stem.len() > 0,
        extension.len() > 0,
        !stem.contains('/'),
        !extension.contains('/'),
        !extension.contains('.'),
        is_small_ascii(extension),
    ensures
        portable_label(stem + seq!['.'] + extension) == seq!['.'] + extension,
        portable_label(directory + seq!['/'] + (stem + seq!['.'] + extension)) == seq!['.']
            + extension,
{
    let name = stem + seq!['.'] + extension;
    assert(name[stem.len() as int] == '.');
    assert(name.last() == extension.last());
    assert(extension.contains(extension.last()));
    assert forall|i: int| 0 <= i < name.len() implies name[i] != '/' by {
        if i < stem.len() {
            assert(stem.contains(stem[i]));
        } else if i > stem.len() {
            assert(extension.contains(extension[i - stem.len() - 1]));
        }
    }
    lemma_last_component_is_the_last(directory, name);
    lemma_extension_behind_last_stop(stem, extension);
    lemma_label_of_ascii(extension);
}

/// The label of a path is that of the extension of its last component, and the label of no
/// extension where that has none or is missing.
pub proof fn lemma_label_follows_the_last_component(
    path: Seq<char>,
    stem: Seq<char>,
    extension: Seq<char>,
    name: Seq<char>,
)
    requires
        stem.len() > 0,
        !extension.contains('.'),
        forall|i: int| 0 < i < name.len() ==> #[trigger] name[i] != '.',
    ensures
        last_component(path) == Some(stem + seq!['.'] + extension) ==> portable_label(path)
            == label_text(Some(extension)),
        last_component(path) == Some(name) ==> portable_label(path) == "File / No Extension"@,
        last_component(path) is None ==> portable_label(path) == "File / No Extension"@,
        component_extension(Some(stem + seq!['.'] + extension)) == Some(extension),
        component_extension(Some(name)) is None,
        component_extension(None) is None,
{
    lemma_extension_behind_last_stop(stem, extension);
    lemma_no_extension(name);
    lemma_label_of_no_extension(seq!['x']);
}

// ------------------------------------------------------------
// The last component of a path
// ------------------------------------------------------------

/// The last component of a path is what follows its last slash.
pub proof fn lemma_last_component_is_the_last(directory: Seq<char>, name: Seq<char>)
    requires
        name.len() > 0,
        name != seq!['.'],
        name != seq!['.', '.'],
        !name.contains('/'),
    ensures
        last_component(name) == Some(name),
        last_component(directory + seq!['/'] + name) == Some(name),
{
    lemma_last_position(name, '/');
    assert(name.skip(0) =~= name);
    let path = directory + seq!['/'] + name;
    lemma_last_position(path, '/');
    let slash = last_position(path, '/');
    assert(path[directory.len() as int] == '/');
    if slash > directory.len() {
        assert(name[slash - directory.len() - 1] == '/');
    }
    assert(path.skip(slash + 1) =~= name);
}

/// A slash at the end of a path is passed over, and so is `/.`; a path that ends in `..`
/// has no last component, nor has one without a name.
pub proof fn lemma_special_ends(path: Seq<char>)
    ensures
        last_component(path + seq!['/']) == last_component(path),
        last_component(path + seq!['/', '.']) == last_component(path),
        last_component(path + seq!['/', '.', '.']) is None,
        last_component(Seq::empty()) is None,
        last_component(seq!['.']) is None,
        last_component(seq!['.', '.']) is None,
{
    lemma_ending(path, Seq::empty());
    lemma_ending(path, seq!['.']);
    lemma_ending(path, seq!['.', '.']);
    assert(path + seq!['/'] =~= path + seq!['/'] + Seq::<char>::empty());
    assert(path + seq!['/', '.'] =~= path + seq!['/'] + seq!['.']);
    assert(path + seq!['/', '.', '.'] =~= path + seq!['/'] + seq!['.', '.']);
    lemma_last_position(Seq::empty(), '/');
    lemma_last_position(seq!['.'], '/');
    lemma_last_position(seq!['.', '.'], '/');
    assert(seq!['.'].skip(0) =~= seq!['.']);
    assert(seq!['.', '.'].skip(0) =~= seq!['.', '.']);
    assert(!seq!['.'].contains('/'));
    assert(!seq!['.', '.'].contains('/'));
}

proof fn lemma_ending(path: Seq<char>, end: Seq<char>)
    requires
        !end.contains('/'),
    ensures
        last_position(path + seq!['/'] + end, '/') == path.len(),
        (path + seq!['/'] + end).skip(path.len() as int + 1) == end,
        (path + seq!['/'] + end).take(path.len() as int) == path,
{
    let whole = path + seq!['/'] + end;
    lemma_last_position(whole, '/');
    let slash = last_position(whole, '/');
    assert(whole[path.len() as int] == '/');
    if slash > path.len() {
        assert(end[slash - path.len() - 1] == '/');
    }
    assert(whole.skip(path.len() as int + 1) =~= end);
    assert(whole.take(path.len() as int) =~= path);
}

// ------------------------------------------------------------
// Executable extensions
// ------------------------------------------------------------

/// The extensions of files that a system runs.
pub open spec fn executable_extensions() -> Seq<Seq<char>> {
    seq![
        "exe"@,
        "scr"@,
        "com"@,
        "bat"@,
        "cmd"@,
        "ps1"@,
        "vbs"@,
        "vbe"@,
        "js"@,
        "jse"@,
        "ws"@,
        "wsf"@,
        "wsh"@,
        "msi"@,
        "msp"@,
        "cpl"@,
    ]
}

/// Sixteen extensions are executable, and nothing else is.
pub proof fn lemma_nothing_else_is_executable(extension: Seq<char>)
    ensures
        is_executable(extension) <==> {
            ||| extension == seq!['e', 'x', 'e']
            ||| extension == seq!['s', 'c', 'r']
            ||| extension == seq!['c', 'o', 'm']
            ||| extension == seq!['b', 'a', 't']
            ||| extension == seq!['c', 'm', 'd']
            ||| extension == seq!['p', 's', '1']
            ||| extension == seq!['v', 'b', 's']
            ||| extension == seq!['v', 'b', 'e']
            ||| extension == seq!['j', 's']
            ||| extension == seq!['j', 's', 'e']
            ||| extension == seq!['w', 's']
            ||| extension == seq!['w', 's', 'f']
            ||| extension == seq!['w', 's', 'h']
            ||| extension == seq!['m', 's', 'i']
            ||| extension == seq!['m', 's', 'p']
            ||| extension == seq!['c', 'p', 'l']
        },
        is_executable(extension) ==> 2 <= extension.len() <= 3,
{
    reveal_strlit("exe");
    reveal_strlit("scr");
    reveal_strlit("com");
    reveal_strlit("bat");
    reveal_strlit("cmd");
    reveal_strlit("ps1");
    reveal_strlit("vbs");
    reveal_strlit("vbe");
    reveal_strlit("js");
    reveal_strlit("jse");
    reveal_strlit("ws");
    reveal_strlit("wsf");
    reveal_strlit("wsh");
    reveal_strlit("msi");
    reveal_strlit("msp");
    reveal_strlit("cpl");
    assert("exe"@ =~= seq!['e', 'x', 'e']);
    assert("scr"@ =~= seq!['s', 'c', 'r']);
    assert("com"@ =~= seq!['c', 'o', 'm']);
    assert("bat"@ =~= seq!['b', 'a', 't']);
    assert("cmd"@ =~= seq!['c', 'm', 'd']);
    assert("ps1"@ =~= seq!['p', 's', '1']);
    assert("vbs"@ =~= seq!['v', 'b', 's']);
    assert("vbe"@ =~= seq!['v', 'b', 'e']);
    assert("js"@ =~= seq!['j', 's']);
    assert("jse"@ =~= seq!['j', 's', 'e']);
    assert("ws"@ =~= seq!['w', 's']);
    assert("wsf"@ =~= seq!['w', 's', 'f']);
    assert("wsh"@ =~= seq!['w', 's', 'h']);
    assert("msi"@ =~= seq!['m', 's', 'i']);
    assert("msp"@ =~= seq!['m', 's', 'p']);
    assert("cpl"@ =~= seq!['c', 'p', 'l']);
}

/// An extension is executable exactly if it is on the list, which has sixteen different
/// members.
pub proof fn lemma_executable_is_on_the_list(extension: Seq<char>)
    ensures
        is_executable(extension) <==> executable_extensions().contains(extension),
        executable_extensions().len() == 16,
        executable_extensions().no_duplicates(),
{
    let all = executable_extensions();
    lemma_nothing_else_is_executable(extension);
    reveal_strlit("exe");
    reveal_strlit("scr");
    reveal_strlit("com");
    reveal_strlit("bat");
    reveal_strlit("cmd");
    reveal_strlit("ps1");
    reveal_strlit("vbs");
    reveal_strlit("vbe");
    reveal_strlit("js");
    reveal_strlit("jse");
    reveal_strlit("ws");
    reveal_strlit("wsf");
    reveal_strlit("wsh");
    reveal_strlit("msi");
    reveal_strlit("msp");
    reveal_strlit("cpl");
    assert("exe"@ =~= seq!['e', 'x', 'e']);
    assert("scr"@ =~= seq!['s', 'c', 'r']);
    assert("com"@ =~= seq!['c', 'o', 'm']);
    assert("bat"@ =~= seq!['b', 'a', 't']);
    assert("cmd"@ =~= seq!['c', 'm', 'd']);
    assert("ps1"@ =~= seq!['p', 's', '1']);
    assert("vbs"@ =~= seq!['v', 'b', 's']);
    assert("vbe"@ =~= seq!['v', 'b', 'e']);
    assert("js"@ =~= seq!['j', 's']);
    assert("jse"@ =~= seq!['j', 's', 'e']);
    assert("ws"@ =~= seq!['w', 's']);
    assert("wsf"@ =~= seq!['w', 's', 'f']);
    assert("wsh"@ =~= seq!['w', 's', 'h']);
    assert("msi"@ =~= seq!['m', 's', 'i']);
    assert("msp"@ =~= seq!['m', 's', 'p']);
    assert("cpl"@ =~= seq!['c', 'p', 'l']);
    assert(all[0] == seq!['e', 'x', 'e']);
    assert(all[1] == seq!['s', 'c', 'r']);
    assert(all[2] == seq!['c', 'o', 'm']);
    assert(all[3] == seq!['b', 'a', 't']);
    assert(all[4] == seq!['c', 'm', 'd']);
    assert(all[5] == seq!['p', 's', '1']);
    assert(all[6] == seq!['v', 'b', 's']);
    assert(all[7] == seq!['v', 'b', 'e']);
    assert(all[8] == seq!['j', 's']);
    assert(all[9] == seq!['j', 's', 'e']);
    assert(all[10] == seq!['w', 's']);
    assert(all[11] == seq!['w', 's', 'f']);
    assert(all[12] == seq!['w', 's', 'h']);
    assert(all[13] == seq!['m', 's', 'i']);
    assert(all[14] == seq!['m', 's', 'p']);
    assert(all[15] == seq!['c', 'p', 'l']);
    if all.contains(extension) {
        let i = choose|i: int| 0 <= i < all.len() && all[i] == extension;
        assert(is_executable(all[i]));
    }
    assert forall|i: int, j: int| 0 <= i < all.len() && 0 <= j < all.len() && i != j implies all[i]
        != all[j] by {
        assert(all[i].len() == all[j].len() ==> all[i][0] != all[j][0] || all[i][1] != all[j][1]
            || all[i][2] != all[j][2]);
    }
}

/// A name that is something, a full stop and a part without full stops is suspicious
/// exactly if the lower case of that part is on the list and there is another full stop
/// behind the first character. Two full stops and no more before the last one do not count.
pub proof fn lemma_suspicious_means_disguised(stem: Seq<char>, extension: Seq<char>)
    requires
        stem.len() > 0,
        !extension.contains('.'),
        forall|i: int|
            0 <= i < stem.len() ==> (#[trigger] stem[i]) != '/' && stem[i] != '\\' && stem[i]
                != ':',
        forall|i: int|
            0 <= i < extension.len() ==> (#[trigger] extension[i]) != '/' && extension[i] != '\\'
                && extension[i] != ':',
    ensures
        is_portable(stem + seq!['.'] + extension),
        is_suspicious(stem + seq!['.'] + extension) <==> {
            &&& executable_extensions().contains(lowercase(extension))
            &&& exists|i: int| 0 < i < stem.len() && #[trigger] stem[i] == '.'
            &&& stem != seq!['.', '.']
        },
{
    let name = stem + seq!['.'] + extension;
    assert forall|i: int| 0 <= i < name.len() implies (#[trigger] name[i]) != '/' && name[i]
        != '\\' && name[i] != ':' by {
        if i < stem.len() {
            assert(name[i] == stem[i]);
        } else if i > stem.len() {
            assert(name[i] == extension[i - stem.len() - 1]);
        }
    }
    lemma_extension_behind_last_stop(stem, extension);
    lemma_executable_is_on_the_list(lowercase(extension));
    if name == seq!['.', '.'] {
        assert(extension.len() == 0);
        lemma_lowercase_of_ascii(extension);
        lemma_nothing_else_is_executable(lowercase(extension));
        lemma_special_ends(name);
    } else {
        lemma_suspicious_plain_name(name);
        lemma_last_position(stem, '.');
        let dot = last_position(stem, '.');
        if dot > 0 {
            assert(stem[dot] == '.');
        }
    }
}

/// A name without full stops behind its first character is not suspicious.
pub proof fn lemma_no_extension_is_not_suspicious(name: Seq<char>)
    requires
        forall|i: int| 0 < i < name.len() ==> #[trigger] name[i] != '.',
        !name.contains('/'),
    ensures
        !is_suspicious(name),
{
    lemma_no_extension(name);
    lemma_last_position(name, '/');
    assert(name.skip(0) =~= name);
}

/// The directories of a path do not make it suspicious, nor clear it.
pub proof fn lemma_directories_do_not_matter(directory: Seq<char>, name: Seq<char>)
    requires
        name.len() > 0,
        name != seq!['.'],
        name != seq!['.', '.'],
        !name.contains('/'),
    ensures
        is_suspicious(directory + seq!['/'] + name) == is_suspicious(name),
        portable_label(directory + seq!['/'] + name) == portable_label(name),
{
    lemma_last_component_is_the_last(directory, name);
}

/// A name is disguised exactly if its file name is something, a full stop and a part
/// without full stops whose lower case is on the list, and the file name of its stem has a
/// full stop behind its first character.
pub proof fn lemma_disguise(stem: Seq<char>, extension: Seq<char>, inner: Seq<char>)
    requires
        stem.len() > 0,
        !extension.contains('.'),
    ensures
        is_disguised(Some(stem + seq!['.'] + extension), Some(inner)) <==> {
            &&& executable_extensions().contains(lowercase(extension))
            &&& exists|i: int| 0 < i < inner.len() && #[trigger] inner[i] == '.'
        },
        !is_disguised(Some(stem + seq!['.'] + extension), None),
{
    lemma_extension_behind_last_stop(stem, extension);
    lemma_executable_is_on_the_list(lowercase(extension));
    lemma_last_position(inner, '.');
    let dot = last_position(inner, '.');
    if dot > 0 {
        assert(inner[dot] == '.');
    }
}

/// Whether a part of `whole` is some text, a full stop and an extension on the list.
pub open spec fn holds_executable_name(whole: Seq<char>) -> bool {
    exists|stem: Seq<char>, extension: Seq<char>|
        occurs(whole, #[trigger] (stem + seq!['.'] + extension))
            && executable_extensions().contains(lowercase(extension))
}

/// Whatever a system takes for the file name, a name is flagged only for a part of it that
/// is some text, a full stop and an extension on the list.
pub proof fn lemma_flagged_names_are_executable(filename: Seq<char>)
    requires
        may_be_verdict(filename, true),
    ensures
        holds_executable_name(filename),
{
    let (component, stem_component) = choose|
        component: Option<Seq<char>>,
        stem_component: Option<Seq<char>>,
    |
        is_verdict(filename, component, stem_component, true);
    let name = component->0;
    let stem = stem_of(name);
    let extension = extension_of(name)->0;
    lemma_last_position(name, '.');
    lemma_executable_is_on_the_list(lowercase(extension));
    assert(name =~= stem + seq!['.'] + extension);
    assert(occurs(filename, name));
}

/// The tail of a path is what follows its last slash, backslash or colon.
pub proof fn lemma_tail_is_behind_the_last_divider(
    front: Seq<char>,
    divider: char,
    tail: Seq<char>,
)
    requires
        divider == '/' || divider == '\\' || divider == ':',
        forall|i: int|
            0 <= i < tail.len() ==> (#[trigger] tail[i]) != '/' && tail[i] != '\\' && tail[i]
                != ':',
    ensures
        tail_of(tail) == tail,
        tail_of(front + seq![divider] + tail) == tail,
{
    let path = front + seq![divider] + tail;
    assert forall|i: int| front.len() + 1 <= i < path.len() implies !is_divider(
        #[trigger] path[i],
    ) by {
        assert(path[i] == tail[i - front.len() - 1]);
    }
    lemma_tail_start_at(tail, 0);
    lemma_tail_start_at(path, front.len() as int + 1);
    assert(tail.skip(0) =~= tail);
    assert(path.skip(front.len() as int + 1) =~= tail);
}

/// On every system a path that is something, a divider and a name with an extension has
/// that extension. It is not flagged where that is not on the list, nor where there is no
/// other full stop; and it is flagged where it is on the list and the name has another full
/// stop behind its first character, unless two dividers stand side by side.
pub proof fn lemma_settled_by_the_tail(
    front: Seq<char>,
    divider: char,
    stem: Seq<char>,
    extension: Seq<char>,
)
    requires
        divider == '/' || divider == '\\' || divider == ':',
        stem.len() > 0,
        extension.len() > 0,
        !extension.contains('.'),
        forall|i: int|
            0 <= i < stem.len() ==> (#[trigger] stem[i]) != '/' && stem[i] != '\\' && stem[i]
                != ':',
        forall|i: int|
            0 <= i < extension.len() ==> (#[trigger] extension[i]) != '/' && extension[i] != '\\'
                && extension[i] != ':',
        front.len() > 0 && front[0] != '/' && front[0] != '\\',
    ensures
        ({
            let path = front + seq![divider] + (stem + seq!['.'] + extension);
            &&& settled_extension(path) == Some(extension)
            &&& !executable_extensions().contains(lowercase(extension)) ==> settled_verdict(path)
                == Some(false)
            &&& !front.contains('.') && !stem.contains('.') ==> settled_verdict(path) == Some(false)
            &&& executable_extensions().contains(lowercase(extension)) && stem != seq!['.', '.']
                && (exists|i: int| 0 < i < stem.len() && #[trigger] stem[i] == '.') && (forall|
                i: int,
            |
                0 <= i < front.len() ==> (#[trigger] front[i]) != '/' && front[i] != '\\'
                    && front[i] != ':') ==> settled_verdict(path) == Some(true)
        }),
{
    let name = stem + seq!['.'] + extension;
    let path = front + seq![divider] + name;
    assert forall|i: int| 0 <= i < name.len() implies (#[trigger] name[i]) != '/' && name[i]
        != '\\' && name[i] != ':' by {
        if i < stem.len() {
            assert(name[i] == stem[i]);
        } else if i > stem.len() {
            assert(name[i] == extension[i - stem.len() - 1]);
        }
    }
    lemma_tail_is_behind_the_last_divider(front, divider, name);
    lemma_extension_behind_last_stop(stem, extension);
    lemma_executable_is_on_the_list(lowercase(extension));
    assert(path[0] == front[0]);
    assert(name.last() == extension.last());
    assert(extension.contains(extension.last()));
    assert(has_tail(path));
    lemma_last_position(stem, '.');
    let dot = last_position(stem, '.');
    if dot > 0 {
        assert(stem[dot] == '.');
        assert(stem.contains('.'));
    }
    if !front.contains('.') && !stem.contains('.') {
        lemma_last_position(path, '/');
        let slash = last_position(path, '/');
        let segment = path.skip(slash + 1);
        assert(slash <= front.len()) by {
            if slash > front.len() {
                assert(name[slash - front.len() - 1] == '/');
            }
        }
        let head = (front + seq![divider] + stem).skip(slash + 1);
        assert(segment =~= head + seq!['.'] + extension);
        lemma_extension_behind_last_stop(head, extension);
        assert forall|i: int| 0 <= i < head.len() implies head[i] != '.' by {
            let k = i + slash + 1;
            if k < front.len() {
                assert(front.contains(front[k]));
            } else if k > front.len() {
                assert(stem.contains(stem[k - front.len() - 1]));
            }
        }
        assert(!head.contains('.'));
    }
    if (forall|i: int|
        0 <= i < front.len() ==> (#[trigger] front[i]) != '/' && front[i] != '\\' && front[i]
            != ':') {
        assert(!has_double_divider(path)) by {
            assert forall|i: int| 0 <= i < path.len() - 1 && is_divider(
                #[trigger] path[i],
            ) implies !is_divider(path[i + 1]) by {
                if i < front.len() {
                    assert(path[i] == front[i]);
                } else if i == front.len() {
                    assert(path[i + 1] == name[0]);
                } else {
                    assert(path[i] == name[i - front.len() - 1]);
                }
            }
        }
    }
}

// ------------------------------------------------------------
// Names for new files
// ------------------------------------------------------------

/// A character in a name for a file: an underscore in place of one of the nine that must
/// not stand there, and any other character as it is.
pub proof fn lemma_allowed_characters(c: char)
    ensures
        seq!['<', '>', ':', '"', '/', '\\', '|', '?', '*'].contains(c) ==> allowed(c) == '_',
        !seq!['<', '>', ':', '"', '/', '\\', '|', '?', '*'].contains(c) ==> allowed(c) == c,
{
    let all = seq!['<', '>', ':', '"', '/', '\\', '|', '?', '*'];
    assert(all[0] == '<' && all[1] == '>' && all[2] == ':' && all[3] == '"' && all[4] == '/'
        && all[5] == '\\' && all[6] == '|' && all[7] == '?' && all[8] == '*');
}

/// White space around a text, and full stops within that, do not show in the name for a
/// file. The rest is made fit character by character.
pub proof fn lemma_sanitized_by_character(
    before: Seq<char>,
    stops: Seq<char>,
    value: Seq<char>,
    more: Seq<char>,
    behind: Seq<char>,
)
    requires
        forall|i: int| 0 <= i < before.len() ==> is_white_space(#[trigger] before[i]),
        forall|i: int| 0 <= i < stops.len() ==> #[trigger] stops[i] == '.',
        forall|i: int| 0 <= i < more.len() ==> #[trigger] more[i] == '.',
        forall|i: int| 0 <= i < behind.len() ==> is_white_space(#[trigger] behind[i]),
        value.len() > 0,
        value.first() != '.' && (stops.len() > 0 || !is_white_space(value.first())),
        value.last() != '.' && (more.len() > 0 || !is_white_space(value.last())),
    ensures
        sanitized(before + stops + value + more + behind).len() == value.len(),
        forall|i: int|
            0 <= i < value.len() ==> sanitized(before + stops + value + more + behind)[i]
                == if seq!['<', '>', ':', '"', '/', '\\', '|', '?', '*'].contains(
                #[trigger] value[i],
            ) {
                '_'
            } else {
                value[i]
            },
{
    let whole = before + stops + value + more + behind;
    let replaced = whole.map_values(|c: char| allowed(c));
    let core = value.map_values(|c: char| allowed(c));
    let inner = stops + core + more;
    assert(replaced =~= before + inner + behind);
    assert(core.first() == allowed(value.first()));
    assert(core.last() == allowed(value.last()));
    assert(inner.first() == if stops.len() > 0 {
        '.'
    } else {
        core.first()
    });
    assert(inner.last() == if more.len() > 0 {
        '.'
    } else {
        core.last()
    });
    lemma_trimmed_middle(before, inner, behind, |c: char| is_white_space(c));
    lemma_trimmed_middle(stops, core, more, |c: char| c == '.');
    assert forall|i: int| 0 <= i < value.len() implies sanitized(whole)[i] == if seq![
        '<',
        '>',
        ':',
        '"',
        '/',
        '\\',
        '|',
        '?',
        '*',
    ].contains(#[trigger] value[i]) {
        '_'
    } else {
        value[i]
    } by {
        lemma_allowed_characters(value[i]);
    }
}

/// Where nothing is left, the name is `scan`.
pub proof fn lemma_sanitized_of_nothing(before: Seq<char>, stops: Seq<char>, behind: Seq<char>)
    requires
        forall|i: int| 0 <= i < before.len() ==> is_white_space(#[trigger] before[i]),
        forall|i: int| 0 <= i < stops.len() ==> #[trigger] stops[i] == '.',
        forall|i: int| 0 <= i < behind.len() ==> is_white_space(#[trigger] behind[i]),
    ensures
        sanitized(before + stops + behind) == seq!['s', 'c', 'a', 'n'],
{
    reveal_strlit("scan");
    assert("scan"@ =~= seq!['s', 'c', 'a', 'n']);
    let value = before + stops + behind;
    let replaced = value.map_values(|c: char| allowed(c));
    assert(replaced =~= value);
    let none = Seq::<char>::empty();
    lemma_trimmed_middle(before, stops, behind, |c: char| is_white_space(c));
    lemma_trimmed_middle(stops, none, none, |c: char| c == '.');
    assert(stops + none + none =~= stops);
}

} // verus!
