//! Distribution detection, used only to phrase suggested next steps.
//!
//! Package databases are not queried; what is known is merely which command
//! the user would run to answer "which package ships this file?".

use vstd::prelude::*;
use crate::table;
use crate::text;

verus! {

/// Coarse distribution family, enough to pick a package search command.
#[derive(Debug, Clone, Copy, PartialEq, Eq, Structural)]
pub enum Family {
    Arch,
    Debian,
    Fedora,
    Suse,
    Alpine,
    Gentoo,
    Unknown,
}

/// What `/etc/os-release` said about the running system.
#[derive(Debug, Clone)]
pub struct Distro {
    pub id: String,
    pub name: String,
    pub family: Family,
}

/// What a [`Distro`] holds.
pub struct DistroView {
    pub id: Seq<char>,
    pub name: Seq<char>,
    pub family: Family,
}

impl DeepView for Distro {
    type V = DistroView;

    open spec fn deep_view(&self) -> DistroView {
        DistroView { id: self.id@, name: self.name@, family: self.family }
    }
}

/// What one line of `os-release` sets: a key and a value, without the quotes.
pub open spec fn field_of(line: Seq<char>) -> Option<(Seq<char>, Seq<char>)> {
    let l = text::trimmed(line);
    if text::starts_with(l, "#"@) {
        None
    } else {
        match text::split_once(l, "="@) {
            None => None,
            Some((key, value)) => Some(
                (
                    text::trimmed(key),
                    text::stripped(text::stripped(text::trimmed(value), '"'), '\''),
                ),
            ),
        }
    }
}

/// What the lines of `os-release` set.
pub open spec fn fields_of(lines: Seq<Seq<char>>) -> Seq<(Seq<char>, Seq<char>)>
    decreases lines.len(),
{
    if lines.len() == 0 {
        Seq::empty()
    } else {
        let rest = fields_of(lines.drop_last());
        match field_of(lines.last()) {
            Some(field) => rest.push(field),
            None => rest,
        }
    }
}

/// The first value of a key; empty where there is none.
pub open spec fn value_of(fields: Seq<(Seq<char>, Seq<char>)>, key: Seq<char>) -> Seq<char> {
    match table::known(fields, key) {
        Some(value) => value,
        None => Seq::empty(),
    }
}

/// The family that an id, and the ids it says it is like, belong to.
pub open spec fn kin(id: Seq<char>, id_like: Seq<char>) -> Family {
    let haystack = text::lowered(id + " "@ + id_like);
    if text::contains_text(haystack, "debian"@) || text::contains_text(haystack, "ubuntu"@) {
        Family::Debian
    } else if text::contains_text(haystack, "fedora"@) || text::contains_text(haystack, "rhel"@)
        || text::contains_text(haystack, "centos"@) {
        Family::Fedora
    } else if text::contains_text(haystack, "suse"@) {
        Family::Suse
    } else if text::contains_text(haystack, "alpine"@) {
        Family::Alpine
    } else if text::contains_text(haystack, "gentoo"@) {
        Family::Gentoo
    } else if text::contains_text(haystack, "arch"@) {
        Family::Arch
    } else {
        Family::Unknown
    }
}

/// What the fields of `os-release` say about a system.
pub open spec fn system_of(fields: Seq<(Seq<char>, Seq<char>)>) -> DistroView {
    let id = value_of(fields, "ID"@);
    let pretty = value_of(fields, "PRETTY_NAME"@);
    DistroView {
        id,
        name: if pretty.len() > 0 {
            pretty
        } else if id.len() > 0 {
            id
        } else {
            "this system"@
        },
        family: kin(id, value_of(fields, "ID_LIKE"@)),
    }
}

/// What `os-release` says about a system. Where it cannot be read, it says
/// nothing.
pub open spec fn detected(os_release: Option<Seq<char>>) -> DistroView {
    match os_release {
        Some(content) => system_of(fields_of(text::split_on(content, '\n'))),
        None => system_of(Seq::empty()),
    }
}

/// The command that finds which package provides a library.
pub open spec fn hint(family: Family, library: Seq<char>) -> Seq<char> {
    match family {
        Family::Arch => "pacman -F "@ + library + "   (or: pkgfile "@ + library + ")"@,
        Family::Debian => "apt-file search "@ + library + "   (or: dpkg -S)"@,
        Family::Fedora => "dnf provides '*/"@ + library + "'"@,
        Family::Suse => "zypper search --provides "@ + library,
        Family::Alpine => "apk search -v 'so:"@ + library + "'"@,
        Family::Gentoo => "pkgfile "@ + library,
        Family::Unknown => "use your distribution's \"which package provides "@ + library
            + "\" search"@,
    }
}

/// Reads one line of `os-release`.
fn read_field(line: &[char]) -> (r: Option<(String, String)>)
    ensures
        r.deep_view() == field_of(line@),
{
    let hash: Vec<char> = text::chars_of("#");
    let equals: Vec<char> = text::chars_of("=");
    proof {
        reveal_strlit("=");
    }
    let l: &[char] = text::trim(line);
    if text::begins_with(l, hash.as_slice()) {
        return None;
    }
    match text::cut_once(l, equals.as_slice()) {
        None => None,
        Some((key, value)) => {
            let value: &[char] = text::strip(
                text::strip(text::trim(value.as_slice()), '"'),
                '\'',
            );
            Some((text::string_of(text::trim(key.as_slice())), text::string_of(value)))
        },
    }
}

/// Reads the lines of `os-release`.
fn read_os_release(content: &str) -> (r: Vec<(String, String)>)
    ensures
        r.deep_view() == fields_of(text::split_on(content@, '\n')),
{
    let chars: Vec<char> = text::chars_of(content);
    let lines: Vec<Vec<char>> = text::split_chars(chars.as_slice(), '\n');
    let ghost all = lines.deep_view();
    let mut fields: Vec<(String, String)> = Vec::new();
    let mut i: usize = 0;
    assert(all.take(0) =~= Seq::<Seq<char>>::empty());
    assert(fields.deep_view() =~= Seq::<(Seq<char>, Seq<char>)>::empty());
    while i < lines.len()
        invariant
            i <= lines@.len(),
            all == lines.deep_view(),
            fields.deep_view() == fields_of(all.take(i as int)),
        decreases lines@.len() - i,
    {
        let ghost so_far = fields.deep_view();
        assert(all.take(i + 1).drop_last() =~= all.take(i as int));
        assert(all[i as int] =~= lines@[i as int]@);
        match read_field(lines[i].as_slice()) {
            Some(field) => {
                let ghost added = field.deep_view();
                fields.push(field);
                assert(fields.deep_view() =~= so_far.push(added));
            },
            None => {},
        }
        i += 1;
    }
    assert(all.take(i as int) =~= all);
    fields
}

/// The first value of a key.
fn get(fields: &Vec<(String, String)>, key: &str) -> (r: String)
    ensures
        r@ == value_of(fields.deep_view(), key@),
{
    match table::find(fields, key) {
        Some(i) => {
            assert(fields.deep_view()[i as int].1 == fields@[i as int].1@);
            fields[i].1.clone()
        },
        None => String::new(),
    }
}

/// Whether characters hold a word.
fn holds(haystack: &Vec<char>, word: &str) -> (r: bool)
    requires
        word@.len() > 0,
    ensures
        r == text::contains_text(haystack@, word@),
{
    let w: Vec<char> = text::chars_of(word);
    text::has_part(haystack.as_slice(), w.as_slice())
}

/// The family that an id, and the ids it says it is like, belong to.
pub fn family_of(id: &str, id_like: &str) -> (r: Family)
    ensures
        r == kin(id@, id_like@),
{
    let mut both: String = String::new();
    both.append(id);
    both.append(" ");
    both.append(id_like);
    assert(both@ =~= id@ + " "@ + id_like@);
    let chars: Vec<char> = text::chars_of(both.as_str());
    let haystack: Vec<char> = text::lowercase(chars.as_slice());
    proof {
        reveal_strlit("debian");
        reveal_strlit("ubuntu");
        reveal_strlit("fedora");
        reveal_strlit("rhel");
        reveal_strlit("centos");
        reveal_strlit("suse");
        reveal_strlit("alpine");
        reveal_strlit("gentoo");
        reveal_strlit("arch");
    }
    if holds(&haystack, "debian") || holds(&haystack, "ubuntu") {
        Family::Debian
    } else if holds(&haystack, "fedora") || holds(&haystack, "rhel") || holds(&haystack, "centos") {
        Family::Fedora
    } else if holds(&haystack, "suse") {
        Family::Suse
    } else if holds(&haystack, "alpine") {
        Family::Alpine
    } else if holds(&haystack, "gentoo") {
        Family::Gentoo
    } else if holds(&haystack, "arch") {
        Family::Arch
    } else {
        Family::Unknown
    }
}

impl Distro {
    /// Tells the system by the text of `/etc/os-release`; never fails.
    pub fn detect(os_release: Option<&str>) -> (r: Self)
        ensures
            r.deep_view() == detected(os_release.deep_view()),
    {
        let fields: Vec<(String, String)> = match os_release {
            Some(content) => read_os_release(content),
            None => {
                let none: Vec<(String, String)> = Vec::new();
                assert(none.deep_view() =~= Seq::<(Seq<char>, Seq<char>)>::empty());
                none
            },
        };
        let id: String = get(&fields, "ID");
        let pretty: String = get(&fields, "PRETTY_NAME");
        let id_like: String = get(&fields, "ID_LIKE");
        let family: Family = family_of(id.as_str(), id_like.as_str());
        let name: String = if !pretty.as_str().is_empty() {
            pretty
        } else if !id.as_str().is_empty() {
            id.clone()
        } else {
            "this system".to_owned()
        };
        Distro { id, name, family }
    }

    /// The command that finds which package provides `library`.
    pub fn search_hint(&self, library: &str) -> (r: String)
        ensures
            r@ == hint(self.family, library@),
    {
        let mut out: String = String::new();
        match self.family {
            Family::Arch => {
                out.append("pacman -F ");
                out.append(library);
                out.append("   (or: pkgfile ");
                out.append(library);
                out.append(")");
            },
            Family::Debian => {
                out.append("apt-file search ");
                out.append(library);
                out.append("   (or: dpkg -S)");
            },
            Family::Fedora => {
                out.append("dnf provides '*/");
                out.append(library);
                out.append("'");
            },
            Family::Suse => {
                out.append("zypper search --provides ");
                out.append(library);
            },
            Family::Alpine => {
                out.append("apk search -v 'so:");
                out.append(library);
                out.append("'");
            },
            Family::Gentoo => {
                out.append("pkgfile ");
                out.append(library);
            },
            Family::Unknown => {
                out.append("use your distribution's \"which package provides ");
                out.append(library);
                out.append("\" search");
            },
        }
        assert(out@ =~= hint(self.family, library@));
        out
    }
}

/// Every hint mentions the library.
pub proof fn hints_mention_the_library(family: Family, library: Seq<char>)
    ensures
        text::contains_text(hint(family, library), library),
{
    let h = hint(family, library);
    let i: int = match family {
        Family::Arch => "pacman -F "@.len() as int,
        Family::Debian => "apt-file search "@.len() as int,
        Family::Fedora => "dnf provides '*/"@.len() as int,
        Family::Suse => "zypper search --provides "@.len() as int,
        Family::Alpine => "apk search -v 'so:"@.len() as int,
        Family::Gentoo => "pkgfile "@.len() as int,
        Family::Unknown => "use your distribution's \"which package provides "@.len() as int,
    };
    assert(h.subrange(i, i + library.len()) =~= library);
    assert(text::occurs_at(h, library, i));
}

} // verus!
