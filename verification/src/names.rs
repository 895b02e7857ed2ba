//! File names and addresses of style sheets.
//!
//! A style unit is filed under its canonical name: its logical name, with the
//! style sheet suffix appended where the name lacks it.

use vstd::prelude::*;
use vstd::string::*;

verus! {

/// The suffix that every canonical name carries.
pub open spec fn css_suffix() -> Seq<char> {
    ".css"@
}

/// The canonical name of a logical name: the name itself where it already
/// ends in the suffix, the name followed by the suffix where it does not.
pub open spec fn canonical_name(name: Seq<char>) -> Seq<char> {
    if css_suffix().is_suffix_of(name) {
        name
    } else {
        name + css_suffix()
    }
}

/// `s` without any of the characters `c` that it ends in.
pub open spec fn trim_end(s: Seq<char>, c: char) -> Seq<char>
    decreases s.len(),
{
    if s.len() > 0 && s.last() == c {
        trim_end(s.drop_last(), c)
    } else {
        s
    }
}

/// The address of the file `file` below `base_url`: the base without its
/// trailing slashes, one slash, the file name.
pub open spec fn link_address(base_url: Seq<char>, file: Seq<char>) -> Seq<char> {
    trim_end(base_url, '/') + seq!['/'] + file
}

/// The name under which a declaration without a name of its own is filed.
pub open spec fn inline_name(module: Seq<char>) -> Seq<char> {
    "inline_"@ + module + css_suffix()
}

/// A name that lacks the suffix and the same name with the suffix appended
/// have one canonical name.
pub proof fn lemma_canonical_name_with_suffix(name: Seq<char>)
    requires
        !css_suffix().is_suffix_of(name),
    ensures
        canonical_name(name + css_suffix()) == canonical_name(name),
{
    let long = name + css_suffix();
    assert(long.subrange(long.len() - css_suffix().len(), long.len() as int) =~= css_suffix());
}

/// A canonical name ends in the suffix, and is its own canonical name.
pub proof fn lemma_canonical_name_is_canonical(name: Seq<char>)
    ensures
        css_suffix().is_suffix_of(canonical_name(name)),
        canonical_name(canonical_name(name)) == canonical_name(name),
{
    if !css_suffix().is_suffix_of(name) {
        lemma_canonical_name_with_suffix(name);
        let long = name + css_suffix();
        assert(long.subrange(long.len() - css_suffix().len(), long.len() as int) =~= css_suffix());
    }
}

/// What trimming leaves is the longest beginning of `s` that does not end
/// in `c`: `s` is what is left followed by nothing but `c`.
pub proof fn lemma_trim_end(s: Seq<char>, c: char)
    ensures
        trim_end(s, c).len() <= s.len(),
        trim_end(s, c) == s.take(trim_end(s, c).len() as int),
        trim_end(s, c).len() > 0 ==> trim_end(s, c).last() != c,
        forall|i: int| trim_end(s, c).len() <= i < s.len() ==> s[i] == c,
    decreases s.len(),
{
    if s.len() > 0 && s.last() == c {
        let rest = s.drop_last();
        lemma_trim_end(rest, c);
        assert(rest.take(trim_end(rest, c).len() as int) =~= s.take(
            trim_end(rest, c).len() as int,
        ));
        assert forall|i: int| trim_end(s, c).len() <= i < s.len() implies s[i] == c by {
            if i < rest.len() {
                assert(rest[i] == c);
            }
        }
    } else {
        assert(s.take(s.len() as int) =~= s);
    }
}

/// Under one base, different files have different addresses.
pub proof fn lemma_link_address_injective(base_url: Seq<char>, first: Seq<char>, second: Seq<char>)
    requires
        link_address(base_url, first) == link_address(base_url, second),
    ensures
        first == second,
{
    let stem = trim_end(base_url, '/') + seq!['/'];
    assert(link_address(base_url, first).subrange(
        stem.len() as int,
        link_address(base_url, first).len() as int,
    ) =~= first);
    assert(link_address(base_url, second).subrange(
        stem.len() as int,
        link_address(base_url, second).len() as int,
    ) =~= second);
}

/// `str::ends_with` with a string as its pattern: whether `suffix` is a
/// suffix of `s`. The standard library compares the two strings' last bytes,
/// which for well-formed text is the comparison of their last characters.
#[verifier::external_body]
fn str_ends_with(s: &str, suffix: &str) -> (found: bool)
    ensures
        found == suffix@.is_suffix_of(s@),
{
    s.ends_with(suffix)
}

/// `str::trim_end_matches` with a character as its pattern: the slice of `s`
/// that is left when every trailing occurrence of `c` is removed.
#[verifier::external_body]
fn str_trim_end_matches<'a>(s: &'a str, c: char) -> (rest: &'a str)
    ensures
        rest@ == trim_end(s@, c),
{
    s.trim_end_matches(c)
}

/// Resolves a logical name to its canonical file name.
pub fn canonical_file_name(name: &str) -> (file: String)
    ensures
        file@ == canonical_name(name@),
{
    let mut file = name.to_owned();
    if !str_ends_with(name, ".css") {
        file.append(".css");
    }
    file
}

/// Builds the address of a style sheet file below a base URL.
pub fn link_href(base_url: &str, file: &str) -> (href: String)
    ensures
        href@ == link_address(base_url@, file@),
{
    let mut href = str_trim_end_matches(base_url, '/').to_owned();
    proof {
        reveal_strlit("/");
        assert("/"@ =~= seq!['/']);
    }
    href.append("/");
    href.append(file);
    href
}

/// Derives the file name of a declaration that names none, from the path of
/// the module that declares it.
pub fn inline_file_name(module: &str) -> (file: String)
    ensures
        file@ == inline_name(module@),
{
    let mut file = "inline_".to_owned();
    file.append(module);
    file.append(".css");
    file
}

} // verus!
