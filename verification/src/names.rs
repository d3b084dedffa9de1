//! File names: their extensions, the names that look like a disguise, and the names
//! that may be given to a file.

use vstd::prelude::*;
use vstd::string::*;

use crate::text::{ascii_lower, chars_of, is_ascii_text, is_white_space, lemma_trimmed_ends};
use crate::text::{lemma_lowercase_ignores_case, lowercase, occurs, occurs_at, same_text, string_of};
use crate::text::{to_lowercase, trim, trim_dots, trimmed};

verus! {

// ------------------------------------------------------------
// The last component of a path
// ------------------------------------------------------------

/// The position of the last `c` in `s`, or -1.
pub open spec fn last_position(s: Seq<char>, c: char) -> int
    decreases s.len(),
{
    if s.len() == 0 {
        -1
    } else if s.last() == c {
        s.len() - 1
    } else {
        last_position(s.drop_last(), c)
    }
}

/// What `last_position` finds: the last of all positions where `c` stands.
pub proof fn lemma_last_position(s: Seq<char>, c: char)
    ensures
        -1 <= last_position(s, c) < s.len(),
        last_position(s, c) >= 0 ==> s[last_position(s, c)] == c,
        forall|i: int| last_position(s, c) < i < s.len() ==> s[i] != c,
        last_position(s, c) < 0 <==> !s.contains(c),
    decreases s.len(),
{
    if s.len() > 0 && s.last() != c {
        lemma_last_position(s.drop_last(), c);
        assert forall|i: int| last_position(s, c) < i < s.len() implies s[i] != c by {
            if i < s.len() - 1 {
                assert(s.drop_last()[i] != c);
            }
        }
        assert(s.contains(c) ==> last_position(s, c) >= 0);
        if last_position(s, c) >= 0 {
            assert(s.contains(s[last_position(s, c)]));
        }
    }
}

/// Whether a path has the same components on every system: it has neither a backslash
/// nor a colon, and does not begin with two slashes.
pub open spec fn is_portable(path: Seq<char>) -> bool {
    &&& !path.contains('\\')
    &&& !path.contains(':')
    &&& !(path.len() >= 2 && path[0] == '/' && path[1] == '/')
}

/// The last component of a portable path, if it names a file or a directory: empty
/// components and `.` are passed over, and `..` is no name.
pub open spec fn last_component(path: Seq<char>) -> Option<Seq<char>>
    decreases path.len(),
{
    let slash = last_position(path, '/');
    let segment = path.skip(slash + 1);
    if segment == seq!['.', '.'] {
        None
    } else if segment.len() > 0 && segment != seq!['.'] {
        Some(segment)
    } else if 0 <= slash < path.len() {
        last_component(path.take(slash))
    } else {
        None
    }
}

/// The characters that part a path on one system or another.
pub open spec fn is_divider(c: char) -> bool {
    c == '/' || c == '\\' || c == ':'
}

/// Where the tail of a path begins: behind its last divider.
pub open spec fn tail_start(path: Seq<char>) -> int
    decreases path.len(),
{
    if path.len() == 0 {
        0
    } else if is_divider(path.last()) {
        path.len() as int
    } else {
        tail_start(path.drop_last())
    }
}

/// The tail of a path: what follows its last divider.
pub open spec fn tail_of(path: Seq<char>) -> Seq<char> {
    path.skip(tail_start(path))
}

/// Whether `s` begins with two slashes or backslashes.
pub open spec fn begins_with_two(s: Seq<char>) -> bool {
    s.len() >= 2 && (s[0] == '/' || s[0] == '\\') && (s[1] == '/' || s[1] == '\\')
}

/// Whether the tail of a path belongs to its file name on every system: the path does not
/// begin with two slashes or backslashes, and its tail is neither empty nor one of the two
/// special names.
pub open spec fn has_tail(path: Seq<char>) -> bool {
    &&& !begins_with_two(path)
    &&& tail_of(path).len() > 0
    &&& tail_of(path) != seq!['.']
    &&& tail_of(path) != seq!['.', '.']
}

/// Whether `component` may be what a system takes for the file name of `path`. Of a
/// portable path it is the last component. Of a path whose tail belongs to its file name,
/// it ends the path, ends with the tail, and holds no slash. Of any other path it is some
/// part of the path, if there is one.
pub open spec fn is_file_name(path: Seq<char>, component: Option<Seq<char>>) -> bool {
    &&& is_portable(path) ==> component == last_component(path)
    &&& component matches Some(name) ==> occurs(path, name)
    &&& has_tail(path) ==> (component matches Some(name) && ends_path(path, name))
}

/// Whether `name` ends the path, holds its tail, and holds no slash.
pub open spec fn ends_path(path: Seq<char>, name: Seq<char>) -> bool {
    &&& name.is_suffix_of(path)
    &&& tail_of(path).is_suffix_of(name)
    &&& !name.contains('/')
}

/// The text of an optional string.
pub open spec fn text_of(s: Option<String>) -> Option<Seq<char>> {
    match s {
        Some(text) => Some(text@),
        None => None,
    }
}

/// `std::path::Path::file_name`: the final component of the path, if it is a normal
/// one. Separators and prefixes differ between systems, so the component is fixed for
/// portable paths only. The last component reaches to the end of a path that does not end
/// with a divider, and dividers are all that may part it from what stands before, so of
/// a path whose tail is a name it is claimed that the file name ends with that tail. Of
/// any other path nothing is claimed but that the name is a part of it.
#[verifier::external_body]
pub(crate) fn path_file_name(path: &str) -> (r: Option<String>)
    ensures
        is_file_name(path@, text_of(r)),
{
    std::path::Path::new(path).file_name().and_then(|x| x.to_str()).map(|x| x.to_string())
}

/// The last component of a portable path is made of its characters, holds no slash and
/// is neither empty nor one of the two special names.
pub proof fn lemma_last_component(path: Seq<char>)
    ensures
        last_component(path) matches Some(name) ==> {
            &&& name.len() > 0
            &&& name != seq!['.']
            &&& name != seq!['.', '.']
            &&& !name.contains('/')
            &&& occurs(path, name)
            &&& forall|c: char| name.contains(c) ==> path.contains(c)
        },
    decreases path.len(),
{
    lemma_last_position(path, '/');
    let slash = last_position(path, '/');
    let segment = path.skip(slash + 1);
    assert forall|i: int| 0 <= i < segment.len() implies segment[i] != '/' by {
        assert(path[i + slash + 1] != '/');
    }
    if segment == seq!['.', '.'] {
    } else if segment.len() > 0 && segment != seq!['.'] {
        assert(path.subrange(slash + 1, slash + 1 + segment.len()) =~= segment);
        assert(occurs_at(path, segment, slash + 1));
        assert forall|c: char| segment.contains(c) implies path.contains(c) by {
            let i = choose|i: int| 0 <= i < segment.len() && segment[i] == c;
            assert(path[i + slash + 1] == c);
        }
    } else if slash >= 0 {
        let head = path.take(slash);
        lemma_last_component(head);
        if let Some(name) = last_component(head) {
            let i = choose|i: int| occurs_at(head, name, i);
            assert(path.subrange(i, i + name.len()) =~= head.subrange(i, i + name.len()));
            assert(occurs_at(path, name, i));
            assert forall|c: char| name.contains(c) implies path.contains(c) by {
                assert(head.contains(c));
                let j = choose|j: int| 0 <= j < head.len() && head[j] == c;
                assert(path[j] == c);
            }
        }
    }
}

proof fn lemma_tail_start(path: Seq<char>)
    ensures
        0 <= tail_start(path) <= path.len(),
        tail_start(path) > 0 ==> is_divider(path[tail_start(path) - 1]),
        forall|i: int| tail_start(path) <= i < path.len() ==> !is_divider(#[trigger] path[i]),
    decreases path.len(),
{
    if path.len() > 0 && !is_divider(path.last()) {
        lemma_tail_start(path.drop_last());
        assert forall|i: int| tail_start(path) <= i < path.len() implies !is_divider(
            #[trigger] path[i],
        ) by {
            if i < path.len() - 1 {
                assert(!is_divider(path.drop_last()[i]));
            }
        }
    }
}

/// The tail of a path begins behind a divider, or at its beginning, where no divider follows.
pub proof fn lemma_tail_start_at(path: Seq<char>, at: int)
    requires
        0 <= at <= path.len(),
        at > 0 ==> is_divider(path[at - 1]),
        forall|i: int| at <= i < path.len() ==> !is_divider(#[trigger] path[i]),
    ensures
        tail_start(path) == at,
{
    lemma_tail_start(path);
    if tail_start(path) < at {
        assert(!is_divider(path[at - 1]));
    } else if tail_start(path) > at {
        assert(!is_divider(path[tail_start(path) - 1]));
    }
}

/// The last component of a portable path is a file name in all that is said of one.
pub proof fn lemma_portable_file_name(path: Seq<char>)
    requires
        is_portable(path),
    ensures
        is_file_name(path, last_component(path)),
{
    lemma_last_component(path);
    if has_tail(path) {
        let slash = last_position(path, '/');
        lemma_last_position(path, '/');
        assert forall|i: int| slash < i < path.len() implies !is_divider(#[trigger] path[i]) by {
            assert(path.contains(path[i]));
        }
        lemma_tail_start_at(path, slash + 1);
        assert(tail_of(path).is_suffix_of(tail_of(path)));
    }
}

/// Whether `name` is a single component on every system.
pub open spec fn is_plain_name(name: Seq<char>) -> bool {
    &&& name.len() > 0
    &&& name != seq!['.']
    &&& name != seq!['.', '.']
    &&& !name.contains('/')
    &&& !name.contains('\\')
    &&& !name.contains(':')
}

/// A plain name is its own file name.
pub proof fn lemma_plain_name(name: Seq<char>)
    requires
        is_plain_name(name),
    ensures
        is_portable(name),
        last_component(name) == Some(name),
{
    lemma_last_position(name, '/');
    assert(name.skip(0) =~= name);
    if name.len() >= 2 && name[0] == '/' {
        assert(name.contains('/'));
    }
}

// ------------------------------------------------------------
// Extensions
// ------------------------------------------------------------

/// What stands for the extension of a file that has none.
pub const NO_EXTENSION: &'static str = "File / No Extension";

/// The extension of a file name: what follows its last full stop, unless that is its
/// first character.
pub open spec fn extension_of(name: Seq<char>) -> Option<Seq<char>> {
    let dot = last_position(name, '.');
    if dot <= 0 {
        None
    } else {
        Some(name.skip(dot + 1))
    }
}

/// A file name without its extension and the full stop before it.
pub open spec fn stem_of(name: Seq<char>) -> Seq<char> {
    let dot = last_position(name, '.');
    if dot <= 0 {
        name
    } else {
        name.take(dot)
    }
}

/// The extension of the file name of a path.
pub open spec fn component_extension(component: Option<Seq<char>>) -> Option<Seq<char>> {
    match component {
        Some(name) => extension_of(name),
        None => None,
    }
}

/// How an extension is shown and counted: in lower case behind a full stop, or as no
/// extension where it is missing or empty.
pub open spec fn label_text(extension: Option<Seq<char>>) -> Seq<char> {
    match extension {
        Some(e) => if e.len() > 0 {
            seq!['.'] + lowercase(e)
        } else {
            NO_EXTENSION@
        },
        None => NO_EXTENSION@,
    }
}

/// The extension of a path that is the same on every system, as far as its tail has one.
pub open spec fn settled_extension(path: Seq<char>) -> Option<Seq<char>> {
    if has_tail(path) {
        extension_of(tail_of(path))
    } else {
        None
    }
}

proof fn lemma_extension_of_suffix(tail: Seq<char>, name: Seq<char>)
    requires
        tail.is_suffix_of(name),
        extension_of(tail) is Some,
    ensures
        extension_of(name) == extension_of(tail),
        stem_of(name) == name.take(name.len() - tail.len()) + stem_of(tail),
        last_position(name, '.') == name.len() - tail.len() + last_position(tail, '.'),
{
    let before = name.len() - tail.len();
    let dot = last_position(tail, '.');
    lemma_last_position(tail, '.');
    lemma_last_position(name, '.');
    assert forall|i: int| 0 <= i < tail.len() implies #[trigger] tail[i] == name[before + i] by {}
    assert(name[before + dot] == '.');
    let found = last_position(name, '.');
    if found > before + dot {
        assert(tail[found - before] == '.');
    }
    assert(name.skip(before + dot + 1) =~= tail.skip(dot + 1));
    assert(name.take(before + dot) =~= name.take(before) + tail.take(dot));
}

/// Where the tail of a path has an extension, every system finds that extension.
pub proof fn lemma_settled_extension(path: Seq<char>, component: Option<Seq<char>>)
    requires
        is_file_name(path, component),
        settled_extension(path) is Some,
    ensures
        component_extension(component) == settled_extension(path),
{
    lemma_extension_of_suffix(tail_of(path), component->0);
}

/// How the extension of a portable path is shown and counted.
pub open spec fn portable_label(path: Seq<char>) -> Seq<char> {
    label_text(component_extension(last_component(path)))
}

fn last_dot(name: &Vec<char>) -> (r: Option<usize>)
    ensures
        r matches Some(i) ==> i == last_position(name@, '.'),
        r is None ==> last_position(name@, '.') == -1,
{
    let mut end: usize = name.len();
    assert(name@.take(end as int) =~= name@);
    while end > 0
        invariant
            end <= name@.len(),
            last_position(name@, '.') == last_position(name@.take(end as int), '.'),
        decreases end,
    {
        if name[end - 1] == '.' {
            return Some(end - 1);
        }
        assert(name@.take(end as int).drop_last() =~= name@.take(end - 1));
        end -= 1;
    }
    None
}

/// A file name in two: its stem and its extension.
pub fn split_name(name: &str) -> (r: (String, Option<String>))
    ensures
        r.0@ == stem_of(name@),
        text_of(r.1) == extension_of(name@),
{
    let chars = chars_of(name);
    proof {
        lemma_last_position(name@, '.');
    }
    match last_dot(&chars) {
        Some(dot) => {
            if dot == 0 {
                (name.to_owned(), None)
            } else {
                let stem = string_of(&chars, 0, dot);
                let extension = string_of(&chars, dot + 1, chars.len());
                assert(stem@ =~= name@.take(dot as int));
                assert(extension@ =~= name@.skip(dot + 1));
                (stem, Some(extension))
            }
        },
        None => (name.to_owned(), None),
    }
}

/// How an extension is shown and counted.
pub fn extension_label(extension: &Option<String>) -> (r: String)
    ensures
        r@ == label_text(text_of(*extension)),
{
    match extension {
        Some(e) => {
            if e.as_str().is_empty() {
                NO_EXTENSION.to_owned()
            } else {
                let mut r = String::new();
                r.push('.');
                let lower = to_lowercase(e.as_str());
                r.append(lower.as_str());
                assert(r@ =~= seq!['.'] + lowercase(e@));
                r
            }
        },
        None => NO_EXTENSION.to_owned(),
    }
}

/// How the extension of the path `name` is shown and counted.
pub fn extension_for_name(name: &str) -> (r: String)
    ensures
        exists|component: Option<Seq<char>>| #[trigger]
            is_file_name(name@, component) && r@ == label_text(component_extension(component)),
        is_portable(name@) ==> r@ == portable_label(name@),
        settled_extension(name@) is Some ==> r@ == label_text(settled_extension(name@)),
{
    let component = path_file_name(name);
    proof {
        if settled_extension(name@) is Some {
            lemma_settled_extension(name@, text_of(component));
        }
    }
    component_label(&component)
}

/// How the extension of a path is shown and counted, given its file name.
pub fn component_label(component: &Option<String>) -> (r: String)
    ensures
        r@ == label_text(component_extension(text_of(*component))),
{
    match component {
        Some(file_name) => {
            let (_, extension) = split_name(file_name.as_str());
            extension_label(&extension)
        },
        None => extension_label(&None),
    }
}

/// The label of an extension begins with a full stop, and that of a missing one does not:
/// the files without extension are exactly those with the label for it.
pub proof fn lemma_label_tells_missing_extension(extension: Option<Seq<char>>)
    ensures
        label_text(extension) == NO_EXTENSION@ <==> (extension is None || extension->0.len() == 0),
        label_text(extension) != NO_EXTENSION@ ==> label_text(extension)[0] == '.',
{
    reveal_strlit("File / No Extension");
    assert(NO_EXTENSION@[0] == 'F');
}

/// A path made of a directory and a name in it.
pub open spec fn in_directory(directory: Seq<char>, name: Seq<char>) -> Seq<char> {
    directory.push('/') + name
}

/// A directory in front does not change the extension of a name, whatever full stops it
/// holds.
pub proof fn lemma_directory_keeps_label(directory: Seq<char>, name: Seq<char>)
    requires
        name.len() > 0,
        name != seq!['.'],
        !name.contains('/'),
        !name.contains('\\'),
        !name.contains(':'),
        !directory.contains('\\'),
        !directory.contains(':'),
    ensures
        portable_label(in_directory(directory, name)) == portable_label(name),
        last_component(in_directory(directory, name)) == last_component(name),
        is_portable(name),
        !begins_with_two(in_directory(directory, name)) ==> is_portable(
            in_directory(directory, name),
        ),
{
    let path = in_directory(directory, name);
    lemma_last_position(path, '/');
    lemma_last_position(name, '/');
    let slash = last_position(path, '/');
    assert(path[directory.len() as int] == '/');
    if slash > directory.len() {
        assert(name[slash - directory.len() - 1] == '/');
    }
    assert(path.skip(slash + 1) =~= name);
    assert(name.skip(0) =~= name);
    if name.len() >= 2 && name[0] == '/' {
        assert(name.contains('/'));
    }
    assert forall|c: char| path.contains(c) implies directory.contains(c) || c == '/'
        || name.contains(c) by {
        let i = choose|i: int| 0 <= i < path.len() && path[i] == c;
        if i < directory.len() {
            assert(directory[i] == c);
        } else if i > directory.len() {
            assert(name[i - directory.len() - 1] == c);
        }
    }
}

/// Whether two texts differ only in the case of ASCII letters.
pub open spec fn same_but_case(a: Seq<char>, b: Seq<char>) -> bool {
    &&& a.len() == b.len()
    &&& forall|i: int| 0 <= i < a.len() ==> ascii_lower(#[trigger] a[i]) == ascii_lower(b[i])
}

proof fn lemma_case_keeps_positions(a: Seq<char>, b: Seq<char>, c: char)
    requires
        same_but_case(a, b),
        c == '/' || c == '.',
    ensures
        last_position(a, c) == last_position(b, c),
    decreases a.len(),
{
    if a.len() > 0 {
        let last = a.len() - 1;
        assert(ascii_lower(a[last]) == ascii_lower(b[last]));
        assert(same_but_case(a.drop_last(), b.drop_last()));
        lemma_case_keeps_positions(a.drop_last(), b.drop_last(), c);
    }
}

proof fn lemma_case_keeps_components(a: Seq<char>, b: Seq<char>)
    requires
        same_but_case(a, b),
    ensures
        match (last_component(a), last_component(b)) {
            (Some(x), Some(y)) => same_but_case(x, y),
            (None, None) => true,
            _ => false,
        },
    decreases a.len(),
{
    lemma_case_keeps_positions(a, b, '/');
    lemma_last_position(a, '/');
    let slash = last_position(a, '/');
    let x = a.skip(slash + 1);
    let y = b.skip(slash + 1);
    assert forall|i: int| 0 <= i < x.len() implies ascii_lower(#[trigger] x[i]) == ascii_lower(
        y[i],
    ) by {
        assert(ascii_lower(a[i + slash + 1]) == ascii_lower(b[i + slash + 1]));
    }
    assert(same_but_case(x, y));
    assert((x == seq!['.', '.']) == (y == seq!['.', '.'])) by {
        if x == seq!['.', '.'] {
            assert(ascii_lower(x[0]) == ascii_lower(y[0]));
            assert(ascii_lower(x[1]) == ascii_lower(y[1]));
            assert(y =~= seq!['.', '.']);
        }
        if y == seq!['.', '.'] {
            assert(ascii_lower(x[0]) == ascii_lower(y[0]));
            assert(ascii_lower(x[1]) == ascii_lower(y[1]));
            assert(x =~= seq!['.', '.']);
        }
    }
    assert((x == seq!['.']) == (y == seq!['.'])) by {
        if x == seq!['.'] {
            assert(ascii_lower(x[0]) == ascii_lower(y[0]));
            assert(y =~= seq!['.']);
        }
        if y == seq!['.'] {
            assert(ascii_lower(x[0]) == ascii_lower(y[0]));
            assert(x =~= seq!['.']);
        }
    }
    if slash >= 0 {
        assert(same_but_case(a.take(slash), b.take(slash)));
        lemma_case_keeps_components(a.take(slash), b.take(slash));
    }
}

/// Names that differ only in the case of ASCII letters have the same extension, where that
/// is ASCII.
pub proof fn lemma_name_ignores_case(a: Seq<char>, b: Seq<char>)
    requires
        same_but_case(a, b),
        component_extension(last_component(a)) matches Some(extension) ==> is_ascii_text(
            extension,
        ),
    ensures
        portable_label(a) == portable_label(b),
        is_portable(a) == is_portable(b),
{
    lemma_case_keeps_components(a, b);
    assert forall|i: int| 0 <= i < a.len() && is_divider(a[i]) implies #[trigger] b[i] == a[i] by {
        assert(ascii_lower(a[i]) == ascii_lower(b[i]));
    }
    assert forall|i: int| 0 <= i < b.len() && is_divider(b[i]) implies #[trigger] a[i] == b[i] by {
        assert(ascii_lower(a[i]) == ascii_lower(b[i]));
    }
    assert forall|c: char| is_divider(c) implies #[trigger] a.contains(c) == b.contains(c) by {
        if a.contains(c) {
            let i = choose|i: int| 0 <= i < a.len() && a[i] == c;
            assert(b[i] == c);
        }
        if b.contains(c) {
            let i = choose|i: int| 0 <= i < b.len() && b[i] == c;
            assert(a[i] == c);
        }
    }
    if let Some(x) = last_component(a) {
        let y = last_component(b)->0;
        lemma_case_keeps_positions(x, y, '.');
        lemma_last_position(x, '.');
        let dot = last_position(x, '.');
        if dot > 0 {
            let e = x.skip(dot + 1);
            let f = y.skip(dot + 1);
            assert forall|i: int| 0 <= i < e.len() implies ascii_lower(#[trigger] e[i])
                == ascii_lower(f[i]) by {
                assert(ascii_lower(x[i + dot + 1]) == ascii_lower(y[i + dot + 1]));
            }
            lemma_label_ignores_case(e, f);
        }
    }
}

/// ASCII extensions that differ in case only are counted together.
pub proof fn lemma_label_ignores_case(a: Seq<char>, b: Seq<char>)
    requires
        same_but_case(a, b),
        is_ascii_text(a),
    ensures
        label_text(Some(a)) == label_text(Some(b)),
{
    assert forall|i: int| 0 <= i < b.len() implies #[trigger] b[i] < '\u{80}' by {
        assert(a[i] < '\u{80}' && ascii_lower(a[i]) == ascii_lower(b[i]));
    }
    lemma_lowercase_ignores_case(a, b);
}

// ------------------------------------------------------------
// Suspicious names
// ------------------------------------------------------------

/// The extensions of files that a system runs.
pub open spec fn is_executable(extension: Seq<char>) -> bool {
    ||| extension == "exe"@
    ||| extension == "scr"@
    ||| extension == "com"@
    ||| extension == "bat"@
    ||| extension == "cmd"@
    ||| extension == "ps1"@
    ||| extension == "vbs"@
    ||| extension == "vbe"@
    ||| extension == "js"@
    ||| extension == "jse"@
    ||| extension == "ws"@
    ||| extension == "wsf"@
    ||| extension == "wsh"@
    ||| extension == "msi"@
    ||| extension == "msp"@
    ||| extension == "cpl"@
}

/// Whether `extension` is that of a file that a system runs.
pub fn executable_extension(extension: &str) -> (r: bool)
    ensures
        r == is_executable(extension@),
{
    same_text(extension, "exe") || same_text(extension, "scr") || same_text(extension, "com")
        || same_text(extension, "bat") || same_text(extension, "cmd") || same_text(extension, "ps1")
        || same_text(extension, "vbs") || same_text(extension, "vbe") || same_text(extension, "js")
        || same_text(extension, "jse") || same_text(extension, "ws") || same_text(extension, "wsf")
        || same_text(extension, "wsh") || same_text(extension, "msi") || same_text(extension, "msp")
        || same_text(extension, "cpl")
}

/// Whether a file name ends in an executable extension, given its file name component,
/// and holds another extension before it, given the file name component of its stem.
pub open spec fn is_disguised(
    component: Option<Seq<char>>,
    stem_component: Option<Seq<char>>,
) -> bool {
    &&& component_extension(component) matches Some(extension)
    &&& is_executable(lowercase(extension))
    &&& component_extension(stem_component) is Some
}

/// Whether `flag` may be the verdict on `filename`, where a system takes `component` for
/// its file name and `stem_component` for that of its stem.
pub open spec fn is_verdict(
    filename: Seq<char>,
    component: Option<Seq<char>>,
    stem_component: Option<Seq<char>>,
    flag: bool,
) -> bool {
    &&& is_file_name(filename, component)
    &&& component matches Some(name) ==> is_file_name(stem_of(name), stem_component)
    &&& flag == is_disguised(component, stem_component)
}

/// Whether `flag` may be the verdict on `filename`.
pub open spec fn may_be_verdict(filename: Seq<char>, flag: bool) -> bool {
    exists|component: Option<Seq<char>>, stem_component: Option<Seq<char>>|
        is_verdict(filename, component, stem_component, flag)
}

/// Whether a portable file name is suspicious.
pub open spec fn is_suspicious(filename: Seq<char>) -> bool {
    match last_component(filename) {
        Some(name) => is_disguised(Some(name), last_component(stem_of(name))),
        None => false,
    }
}

/// The verdict on a portable file name is the same on every system.
pub proof fn lemma_portable_verdict(filename: Seq<char>, flag: bool)
    requires
        is_portable(filename),
        may_be_verdict(filename, flag),
    ensures
        flag == is_suspicious(filename),
{
    let (component, stem_component) = choose|
        component: Option<Seq<char>>,
        stem_component: Option<Seq<char>>,
    |
        is_verdict(filename, component, stem_component, flag);
    lemma_last_component(filename);
    if let Some(name) = component {
        lemma_portable_stem(name);
    }
}

/// The stem of a name without separators is portable.
proof fn lemma_portable_stem(name: Seq<char>)
    requires
        !name.contains('/'),
        !name.contains('\\'),
        !name.contains(':'),
    ensures
        is_portable(stem_of(name)),
        !stem_of(name).contains('/'),
        !stem_of(name).contains('\\'),
        !stem_of(name).contains(':'),
        name.len() > 0 ==> stem_of(name).len() > 0,
{
    let stem = stem_of(name);
    lemma_last_position(name, '.');
    assert forall|c: char| stem.contains(c) implies name.contains(c) by {
        let i = choose|i: int| 0 <= i < stem.len() && stem[i] == c;
        assert(name[i] == c);
    }
    if stem.len() >= 2 && stem[0] == '/' {
        assert(stem.contains('/'));
    }
}

/// Whether `s` has two dividers side by side.
pub open spec fn has_double_divider(s: Seq<char>) -> bool {
    exists|i: int| 0 <= i < s.len() - 1 && is_divider(#[trigger] s[i]) && is_divider(s[i + 1])
}

/// What follows the last slash of a path.
pub open spec fn last_segment(path: Seq<char>) -> Seq<char> {
    path.skip(last_position(path, '/') + 1)
}

/// The verdict that every system gives on a name, as far as its tail settles it: a tail
/// with an extension that is not executable is not suspicious, one with an executable
/// extension behind another is, and one with an executable extension is not where no other
/// full stop follows the last slash.
pub open spec fn settled_verdict(filename: Seq<char>) -> Option<bool> {
    let stem = stem_of(tail_of(filename));
    match settled_extension(filename) {
        Some(extension) => if !is_executable(lowercase(extension)) {
            Some(false)
        } else if extension_of(stem) is Some && stem != seq!['.', '.'] && !has_double_divider(
            filename,
        ) {
            Some(true)
        } else if !stem_of(last_segment(filename)).contains('.') {
            Some(false)
        } else {
            None
        },
        None => None,
    }
}

/// A settled verdict is that of every system.
pub proof fn lemma_settled_verdict(filename: Seq<char>, flag: bool)
    requires
        may_be_verdict(filename, flag),
        settled_verdict(filename) is Some,
    ensures
        settled_verdict(filename) == Some(flag),
{
    let (component, stem_component) = choose|
        component: Option<Seq<char>>,
        stem_component: Option<Seq<char>>,
    |
        is_verdict(filename, component, stem_component, flag);
    let tail = tail_of(filename);
    let name = component->0;
    lemma_settled_extension(filename, component);
    if is_executable(lowercase(settled_extension(filename)->0)) {
        if extension_of(stem_of(tail)) is Some && stem_of(tail) != seq!['.', '.']
            && !has_double_divider(filename) {
            lemma_stem_has_tail(filename, name);
            lemma_settled_extension(stem_of(name), stem_component);
        } else {
            lemma_stem_without_dot(filename, name);
            if let Some(inner) = stem_component {
                let at = choose|at: int| occurs_at(stem_of(name), inner, at);
                lemma_last_position(inner, '.');
                if inner.contains('.') {
                    let k = choose|k: int| 0 <= k < inner.len() && inner[k] == '.';
                    assert(stem_of(name)[at + k] == '.');
                }
            }
        }
    }
}

proof fn lemma_stem_has_tail(filename: Seq<char>, name: Seq<char>)
    requires
        has_tail(filename),
        ends_path(filename, name),
        extension_of(tail_of(filename)) is Some,
        extension_of(stem_of(tail_of(filename))) is Some,
        stem_of(tail_of(filename)) != seq!['.', '.'],
        !has_double_divider(filename),
    ensures
        has_tail(stem_of(name)),
        tail_of(stem_of(name)) == stem_of(tail_of(filename)),
{
    let start = tail_start(filename);
    let tail = tail_of(filename);
    let stem = stem_of(name);
    let from = filename.len() - name.len();
    lemma_tail_start(filename);
    lemma_extension_of_suffix(tail, name);
    lemma_last_position(tail, '.');
    let dot = last_position(tail, '.');
    assert(stem =~= filename.subrange(from, start + dot));
    assert forall|i: int| 0 <= i < stem.len() implies #[trigger] stem[i] == filename[from + i] by {}
    lemma_tail_start_at(stem, start - from);
    assert(tail_of(stem) =~= stem_of(tail));
    if begins_with_two(stem) {
        assert(is_divider(filename[from]) && is_divider(filename[from + 1]));
    }
    lemma_last_position(stem_of(tail), '.');
}

proof fn lemma_stem_without_dot(filename: Seq<char>, name: Seq<char>)
    requires
        has_tail(filename),
        ends_path(filename, name),
        extension_of(tail_of(filename)) is Some,
        !stem_of(last_segment(filename)).contains('.'),
    ensures
        !stem_of(name).contains('.'),
{
    let tail = tail_of(filename);
    let segment = last_segment(filename);
    let slash = last_position(filename, '/');
    let from = filename.len() - name.len();
    lemma_last_position(filename, '/');
    if slash >= from {
        assert(name[slash - from] == '/');
    }
    assert(name =~= segment.skip(segment.len() - name.len()));
    lemma_extension_of_suffix(tail, name);
    assert(tail.is_suffix_of(segment)) by {
        assert(tail =~= segment.skip(segment.len() - tail.len()));
    }
    lemma_extension_of_suffix(tail, segment);
    lemma_last_position(tail, '.');
    let offset = segment.len() - name.len();
    assert forall|i: int| 0 <= i < stem_of(name).len() implies stem_of(name)[i] != '.' by {
        assert(stem_of(name)[i] == name[i]);
        assert(stem_of(segment)[offset + i] == segment[offset + i]);
        assert(name[i] == segment[offset + i]);
        assert(stem_of(segment).contains(stem_of(segment)[offset + i]));
    }
}

/// Whether the name is that of an executable file with another extension before the
/// last, such as `malware.png.exe`.
pub fn suspicious_name(filename: &str) -> (r: bool)
    ensures
        may_be_verdict(filename@, r),
        is_portable(filename@) ==> r == is_suspicious(filename@),
        settled_verdict(filename@) matches Some(verdict) ==> r == verdict,
{
    let component = path_file_name(filename);
    let r = match &component {
        Some(name) => {
            let (stem, _) = split_name(name.as_str());
            let stem_component = path_file_name(stem.as_str());
            let r = disguised(&component, &stem_component);
            assert(is_verdict(filename@, text_of(component), text_of(stem_component), r));
            r
        },
        None => {
            assert(is_verdict(filename@, text_of(component), None, false));
            false
        },
    };
    proof {
        if is_portable(filename@) {
            lemma_portable_verdict(filename@, r);
        }
        if settled_verdict(filename@) is Some {
            lemma_settled_verdict(filename@, r);
        }
    }
    r
}

/// Whether a name is that of an executable file with another extension before the last,
/// given its file name and the file name of its stem.
pub fn disguised(component: &Option<String>, stem_component: &Option<String>) -> (r: bool)
    ensures
        r == is_disguised(text_of(*component), text_of(*stem_component)),
{
    let name = match component {
        Some(name) => name,
        None => {
            return false;
        },
    };
    let (_, extension) = split_name(name.as_str());
    let lower = match extension {
        Some(extension) => to_lowercase(extension.as_str()),
        None => {
            return false;
        },
    };
    if !executable_extension(lower.as_str()) {
        return false;
    }
    match stem_component {
        Some(stem) => {
            let (_, inner) = split_name(stem.as_str());
            inner.is_some()
        },
        None => false,
    }
}

/// The last full stop of a text that ends in a part without one.
proof fn lemma_last_dot_before(head: Seq<char>, tail: Seq<char>)
    requires
        !tail.contains('.'),
    ensures
        last_position(head.push('.') + tail, '.') == head.len(),
{
    let s = head.push('.') + tail;
    lemma_last_position(s, '.');
    assert(s[head.len() as int] == '.');
    let dot = last_position(s, '.');
    if dot > head.len() {
        assert(tail[dot - head.len() - 1] == '.');
        assert(tail.contains('.'));
    } else if dot < head.len() {
        assert(s[head.len() as int] != '.');
    }
}

/// The two special names are no file names.
proof fn lemma_dots_are_no_name(s: Seq<char>)
    requires
        s == seq!['.'] || s == seq!['.', '.'],
    ensures
        last_component(s) is None,
        s == seq!['.'] ==> extension_of(s) is None,
{
    lemma_last_position(s, '/');
    lemma_last_position(s, '.');
    assert(!s.contains('/'));
    assert(s.skip(0) =~= s);
}

/// A plain name is suspicious exactly if its extension is executable and its stem has an
/// extension of its own.
pub proof fn lemma_suspicious_plain_name(name: Seq<char>)
    requires
        is_plain_name(name),
    ensures
        is_suspicious(name) <==> {
            &&& extension_of(name) matches Some(extension)
            &&& is_executable(lowercase(extension))
            &&& stem_of(name) != seq!['.', '.']
            &&& extension_of(stem_of(name)) is Some
        },
{
    lemma_plain_name(name);
    lemma_portable_stem(name);
    let stem = stem_of(name);
    if stem == seq!['.'] || stem == seq!['.', '.'] {
        lemma_dots_are_no_name(stem);
    } else {
        lemma_plain_name(stem);
    }
}

/// The disguise that is looked for: an executable extension behind another component
/// that looks like an extension, as in `malware.png.exe`, is flagged, whatever the parts.
pub proof fn lemma_disguise_is_flagged(base: Seq<char>, inner: Seq<char>, extension: Seq<char>)
    requires
        is_plain_name(base.push('.') + inner.push('.') + extension),
        base.len() > 0,
        base.push('.') + inner != seq!['.', '.'],
        !extension.contains('.'),
        is_executable(lowercase(extension)),
    ensures
        is_suspicious(base.push('.') + inner.push('.') + extension),
{
    let name = base.push('.') + inner.push('.') + extension;
    let stem = base.push('.') + inner;
    assert(name =~= stem.push('.') + extension);
    lemma_last_dot_before(stem, extension);
    assert(name.take(stem.len() as int) =~= stem);
    assert(name.skip(stem.len() as int + 1) =~= extension);
    lemma_last_position(stem, '.');
    assert(stem[base.len() as int] == '.');
    lemma_suspicious_plain_name(name);
}

/// A name with a single extension is not flagged.
pub proof fn lemma_single_extension_is_not_flagged(name: Seq<char>)
    requires
        is_plain_name(name),
        !stem_of(name).contains('.'),
    ensures
        !is_suspicious(name),
{
    lemma_suspicious_plain_name(name);
    lemma_last_position(stem_of(name), '.');
}

// ------------------------------------------------------------
// Names for new files
// ------------------------------------------------------------

/// The characters that a file name must not hold.
pub open spec fn is_forbidden(c: char) -> bool {
    c == '<' || c == '>' || c == ':' || c == '"' || c == '/' || c == '\\' || c == '|' || c == '?'
        || c == '*'
}

/// A character of a file name: an underscore in place of a forbidden one.
pub open spec fn allowed(c: char) -> char {
    if is_forbidden(c) {
        '_'
    } else {
        c
    }
}

/// `value` made fit for a file name: forbidden characters replaced, white space and then
/// full stops removed from its ends, and `scan` where nothing is left.
pub open spec fn sanitized(value: Seq<char>) -> Seq<char> {
    let replaced = value.map_values(|c: char| allowed(c));
    let rest = trimmed(trimmed(replaced, |c: char| is_white_space(c)), |c: char| c == '.');
    if rest.len() == 0 {
        "scan"@
    } else {
        rest
    }
}

fn forbidden(c: char) -> (r: bool)
    ensures
        r == is_forbidden(c),
{
    c == '<' || c == '>' || c == ':' || c == '"' || c == '/' || c == '\\' || c == '|' || c == '?'
        || c == '*'
}

/// `value` made fit for a file name.
pub fn sanitize_filename(value: &str) -> (r: String)
    ensures
        r@ == sanitized(value@),
{
    let chars = chars_of(value);
    let mut output = String::new();
    for i in 0..chars.len()
        invariant
            chars@ == value@,
            output@ == value@.take(i as int).map_values(|c: char| allowed(c)),
    {
        if forbidden(chars[i]) {
            output.push('_');
        } else {
            output.push(chars[i]);
        }
        assert(output@ =~= value@.take(i + 1).map_values(|c: char| allowed(c)));
    }
    assert(value@.take(value@.len() as int) =~= value@);
    let rest = trim_dots(trim(output.as_str()).as_str());
    if rest.as_str().is_empty() {
        "scan".to_owned()
    } else {
        rest
    }
}

/// A sanitized name is never empty, holds no forbidden character, and neither begins nor
/// ends with a full stop.
pub proof fn lemma_sanitized_is_fit(value: Seq<char>)
    ensures
        sanitized(value).len() > 0,
        forall|i: int|
            0 <= i < sanitized(value).len() ==> !is_forbidden(#[trigger] sanitized(value)[i]),
        sanitized(value).first() != '.',
        sanitized(value).last() != '.',
{
    reveal_strlit("scan");
    let replaced = value.map_values(|c: char| allowed(c));
    let inner = trimmed(replaced, |c: char| is_white_space(c));
    let rest = trimmed(inner, |c: char| c == '.');
    lemma_trimmed_ends(replaced, |c: char| is_white_space(c));
    lemma_trimmed_ends(inner, |c: char| c == '.');
    assert forall|i: int| 0 <= i < rest.len() implies !is_forbidden(#[trigger] rest[i]) by {
        assert(rest.contains(rest[i]));
        assert(inner.contains(rest[i]));
        assert(replaced.contains(rest[i]));
        let j = choose|j: int| 0 <= j < replaced.len() && replaced[j] == rest[i];
        assert(replaced[j] == allowed(value[j]));
    }
}

} // verus!
