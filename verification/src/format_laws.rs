//! What tells the format of a file: the extension of its path, else what it starts with.

use vstd::prelude::*;

use crate::format::FileFormat;
use crate::markup;
use crate::markup::PartModel;
use crate::text::Text;

verus! {

/// Whether a character does not occur in a text.
pub open spec fn lacks(t: Text, c: char) -> bool {
    forall|i: int| 0 <= i < t.len() ==> #[trigger] t[i] != c
}

proof fn lemma_last(a: Text, c: char, b: Text)
    requires
        lacks(b, c),
    ensures
        crate::format::last_index(a + seq![c] + b, c) == a.len(),
    decreases b.len(),
{
    let t = a + seq![c] + b;
    if b.len() == 0 {
        assert(t.last() == c);
    } else {
        assert(t.last() == b[b.len() - 1]);
        assert(t.drop_last() =~= a + seq![c] + b.drop_last());
        assert forall|i: int| 0 <= i < b.drop_last().len() implies #[trigger] b.drop_last()[i]
            != c by {
            assert(b.drop_last()[i] == b[i]);
        }
        lemma_last(a, c, b.drop_last());
    }
}

proof fn lemma_none(b: Text, c: char)
    requires
        lacks(b, c),
    ensures
        crate::format::last_index(b, c) == -1,
    decreases b.len(),
{
    if b.len() > 0 {
        assert(b.last() == b[b.len() - 1]);
        assert forall|i: int| 0 <= i < b.drop_last().len() implies #[trigger] b.drop_last()[i]
            != c by {
            assert(b.drop_last()[i] == b[i]);
        }
        lemma_none(b.drop_last(), c);
    }
}

proof fn lemma_extension(path: Text, file: Text, name: Text, ext: Text)
    requires
        path.len() > 0,
        path.skip(crate::format::last_index(path, '/') + 1) == file,
        file == name + seq!['.'] + ext,
        name.len() > 0,
        ext.len() > 0,
        lacks(ext, '.'),
    ensures
        crate::format::extension(path) == Some(ext),
{
    assert(file.len() > 2);
    assert(file != seq!['.']);
    assert(file != seq!['.', '.']);
    assert(crate::format::file_name(path) == Some(file));
    lemma_last(name, '.', ext);
    assert(file.skip(name.len() as int + 1) =~= ext);
}

proof fn lemma_no_slash(name: Text, ext: Text)
    requires
        lacks(name, '/'),
        lacks(ext, '/'),
    ensures
        lacks(name + seq!['.'] + ext, '/'),
{
    let file = name + seq!['.'] + ext;
    assert forall|i: int| 0 <= i < file.len() implies #[trigger] file[i] != '/' by {
        if i < name.len() {
            assert(file[i] == name[i]);
        } else if i > name.len() {
            assert(file[i] == ext[i - name.len() - 1]);
        }
    }
}

/// The extension of a path is what follows the last dot of the file name, whatever the
/// directories are called.
pub proof fn law_extension_follows_the_last_dot(dirs: Text, name: Text, ext: Text)
    requires
        name.len() > 0,
        lacks(name, '/'),
        lacks(ext, '/'),
        lacks(ext, '.'),
        ext.len() > 0,
    ensures
        crate::format::extension(name + seq!['.'] + ext) == Some(ext),
        crate::format::extension(dirs + seq!['/'] + (name + seq!['.'] + ext)) == Some(ext),
{
    let file = name + seq!['.'] + ext;
    let path = dirs + seq!['/'] + file;
    lemma_no_slash(name, ext);
    assert(crate::format::extension(file) == Some(ext)) by {
        lemma_none(file, '/');
        assert(file.skip(0) =~= file);
        lemma_extension(file, file, name, ext);
    }
    assert(crate::format::extension(path) == Some(ext)) by {
        lemma_last(dirs, '/', file);
        assert(path.skip(dirs.len() as int + 1) =~= file);
        lemma_extension(path, file, name, ext);
    }
}

/// The word of a format behind the dot.
pub open spec fn extension_word(f: FileFormat) -> Text {
    match f {
        FileFormat::BinaryModel => "rbxm"@,
        FileFormat::BinaryPlace => "rbxl"@,
        FileFormat::XmlModel => "rbxmx"@,
        FileFormat::XmlPlace => "rbxlx"@,
    }
}

proof fn lemma_words()
    ensures
        "rbxm"@ == seq!['r', 'b', 'x', 'm'],
        "rbxl"@ == seq!['r', 'b', 'x', 'l'],
        "rbxmx"@ == seq!['r', 'b', 'x', 'm', 'x'],
        "rbxlx"@ == seq!['r', 'b', 'x', 'l', 'x'],
{
    reveal_strlit("rbxm");
    reveal_strlit("rbxl");
    reveal_strlit("rbxmx");
    reveal_strlit("rbxlx");
    assert("rbxm"@ =~= seq!['r', 'b', 'x', 'm']);
    assert("rbxl"@ =~= seq!['r', 'b', 'x', 'l']);
    assert("rbxmx"@ =~= seq!['r', 'b', 'x', 'm', 'x']);
    assert("rbxlx"@ =~= seq!['r', 'b', 'x', 'l', 'x']);
}

/// A file whose path has the extension of a format is in that format, whatever it holds.
#[verifier::rlimit(50)]
pub proof fn law_extension_says_the_format(
    bytes: Seq<u8>,
    dirs: Text,
    name: Text,
    f: FileFormat,
)
    requires
        name.len() > 0,
        lacks(name, '/'),
    ensures
        crate::format::detected_format(bytes, Some(name + seq!['.'] + extension_word(f)), None) == Some(
            f,
        ),
        crate::format::detected_format(
            bytes,
            Some(dirs + seq!['/'] + (name + seq!['.'] + extension_word(f))),
            None,
        ) == Some(f),
{
    lemma_words();
    law_extension_follows_the_last_dot(dirs, name, extension_word(f));
    let word = extension_word(f);
    assert("rbxm"@[3] != "rbxl"@[3]);
    assert("rbxmx"@[3] != "rbxlx"@[3]);
    assert("rbxm"@.len() == "rbxl"@.len() && "rbxmx"@.len() == "rbxlx"@.len());
    assert("rbxm"@.len() != "rbxmx"@.len());
}

/// Whether a byte is white space.
pub open spec fn is_white(b: u8) -> bool {
    b == 0x20 || b == 0x09 || b == 0x0a || b == 0x0c || b == 0x0d
}

/// Whether all bytes are white space.
pub open spec fn are_white(s: Seq<u8>) -> bool {
    forall|i: int| 0 <= i < s.len() ==> is_white(#[trigger] s[i])
}

proof fn lemma_trimmed(space: Seq<u8>, rest: Seq<u8>)
    requires
        are_white(space),
        rest.len() > 0 ==> !is_white(rest[0]),
    ensures
        crate::format::trimmed(space + rest) == rest,
    decreases space.len(),
{
    let t = space + rest;
    if space.len() == 0 {
        assert(t =~= rest);
    } else {
        assert(t[0] == space[0]);
        assert(is_white(space[0]));
        assert(t.drop_first() =~= space.drop_first() + rest);
        assert forall|i: int| 0 <= i < space.drop_first().len() implies is_white(
            #[trigger] space.drop_first()[i],
        ) by {
            assert(space.drop_first()[i] == space[i + 1]);
        }
        lemma_trimmed(space.drop_first(), rest);
    }
}

/// Where no path tells it, the content does: `<roblox!` at the very start is a binary model;
/// `<?xml` or `<roblox`, with white space before it or none, is an XML model. What starts
/// with anything else is of no format.
#[verifier::rlimit(50)]
pub proof fn law_content_says_the_format(space: Seq<u8>, rest: Seq<u8>)
    requires
        are_white(space),
    ensures
        crate::format::detected_format(
            seq![0x3cu8, 0x72, 0x6f, 0x62, 0x6c, 0x6f, 0x78, 0x21] + rest,
            None,
            None,
        ) == Some(FileFormat::BinaryModel),
        crate::format::detected_format(
            space + (seq![0x3cu8, 0x3f, 0x78, 0x6d, 0x6c] + rest),
            None,
            None,
        ) == Some(FileFormat::XmlModel),
        (space.len() > 0 || (rest.len() > 0 && rest[0] != 0x21)) ==> crate::format::detected_format(
            space + (seq![0x3cu8, 0x72, 0x6f, 0x62, 0x6c, 0x6f, 0x78] + rest),
            None,
            None,
        ) == Some(FileFormat::XmlModel),
        rest.len() == 0 || (!is_white(rest[0]) && rest[0] != 0x3c) ==> crate::format::detected_format(
            space + rest,
            None,
            None,
        ) is None,
{
    let magic = seq![0x3cu8, 0x72, 0x6f, 0x62, 0x6c, 0x6f, 0x78, 0x21];
    let head = seq![0x3cu8, 0x3f, 0x78, 0x6d, 0x6c];
    let root = seq![0x3cu8, 0x72, 0x6f, 0x62, 0x6c, 0x6f, 0x78];
    assert(crate::format::binary_magic() =~= magic);
    assert(crate::format::xml_declaration() =~= head);
    assert(crate::format::xml_root() =~= root);
    assert((magic + rest).subrange(0, 8) =~= magic);
    lemma_trimmed(space, head + rest);
    lemma_trimmed(space, root + rest);
    assert((head + rest).subrange(0, 5) =~= head);
    assert((root + rest).subrange(0, 7) =~= root);
    let a = space + (head + rest);
    let b = space + (root + rest);
    let c = space + rest;
    if magic.is_prefix_of(a) {
        assert(a.subrange(0, 8)[0] == a[0] && a.subrange(0, 8)[1] == a[1]);
        if space.len() > 0 {
            assert(a[0] == space[0] && is_white(space[0]));
        } else {
            assert(a[1] == head[1]);
        }
    }
    if magic.is_prefix_of(b) && (space.len() > 0 || (rest.len() > 0 && rest[0] != 0x21)) {
        assert(b.subrange(0, 8)[0] == b[0] && b.subrange(0, 8)[7] == b[7]);
        if space.len() > 0 {
            assert(b[0] == space[0] && is_white(space[0]));
        } else {
            assert(b[7] == rest[0]);
        }
    }
    if rest.len() == 0 || (!is_white(rest[0]) && rest[0] != 0x3c) {
        lemma_trimmed(space, rest);
        if magic.is_prefix_of(c) {
            assert(c.subrange(0, 8)[0] == c[0]);
            if space.len() > 0 {
                assert(c[0] == space[0] && is_white(space[0]));
            }
        }
        if head.is_prefix_of(rest) {
            assert(rest.subrange(0, 5)[0] == rest[0]);
        }
        if root.is_prefix_of(rest) {
            assert(rest.subrange(0, 7)[0] == rest[0]);
        }
    }
}

// ---------------------------------------------------------------------------
// Unique ids in XML
// ---------------------------------------------------------------------------

/// Whether all characters of an XML file are ASCII.
pub open spec fn is_all_ascii(parts: Seq<PartModel>) -> bool {
    forall|i: int|
        0 <= i < parts.len() ==> ((#[trigger] parts[i]) matches PartModel::Characters(t)
            ==> vstd::utf8::is_ascii_chars(t))
}

proof fn lemma_plain_run(parts: Seq<PartModel>, i: nat)
    requires
        is_all_ascii(parts),
    ensures
        markup::plain_run(parts, i),
    decreases parts.len() - i,
{
    if i < parts.len() {
        lemma_plain_run(parts, i + 1);
    }
}

/// An XML file is passed on where all its characters are ASCII, and where it has no unique
/// id; it is not where the text of a unique id that is the first property of an instance is
/// not ASCII.
pub proof fn law_unique_ids_have_to_be_ascii(parts: Seq<PartModel>, i: int, t: Text)
    ensures
        is_all_ascii(parts) ==> markup::plain_unique_ids(parts),
        (forall|k: int|
            0 <= k < parts.len() ==> #[trigger] parts[k] != PartModel::Start("UniqueId"@))
            ==> markup::plain_unique_ids(parts),
        0 < i && i + 1 < parts.len() && parts[i - 1] == PartModel::Start("Properties"@) && parts[i]
            == PartModel::Start("UniqueId"@) && parts[i + 1] == PartModel::Characters(t)
            && !vstd::utf8::is_ascii_chars(t) ==> !markup::plain_unique_ids(parts),
{
    if is_all_ascii(parts) {
        assert forall|k: nat|
            k < parts.len() && #[trigger] markup::starts_unique_id(
                parts,
                k,
            ) implies markup::plain_run(parts, k + 1) by {
            lemma_plain_run(parts, k + 1);
        }
    }
    if 0 < i && i + 1 < parts.len() && parts[i - 1] == PartModel::Start("Properties"@) && parts[i]
        == PartModel::Start("UniqueId"@) && parts[i + 1] == PartModel::Characters(t)
        && !vstd::utf8::is_ascii_chars(t) {
        let outer = markup::open_elements(parts, (i - 1) as nat);
        assert(markup::open_elements(parts, i as nat) == outer.push("Properties"@));
        assert(markup::starts_unique_id(parts, i as nat));
        assert(!markup::plain_run(parts, (i + 1) as nat));
    }
}

} // verus!
