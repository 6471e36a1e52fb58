use vstd::prelude::*;
use vstd::string::*;

verus! {

/// The text begins with the given character.
pub open spec fn starts_with_char(s: Seq<char>, c: char) -> bool {
    s.len() > 0 && s[0] == c
}

/// The text ends in the given suffix.
pub open spec fn has_suffix(s: Seq<char>, suffix: Seq<char>) -> bool {
    suffix.len() <= s.len() && s.subrange(s.len() - suffix.len(), s.len() as int) == suffix
}

/// Some text of the list is a suffix of `s`.
pub open spec fn has_any_suffix(s: Seq<char>, suffixes: Seq<Seq<char>>) -> bool {
    exists|k: int| 0 <= k < suffixes.len() && has_suffix(s, #[trigger] suffixes[k])
}

/// Where the last path component begins among the first `n` characters:
/// right behind the last `/` of them, or at 0 where they hold none.
pub open spec fn name_start(s: Seq<char>, n: nat) -> nat
    decreases n,
{
    if n == 0 {
        0
    } else if s[n - 1] == '/' {
        n
    } else {
        name_start(s, (n - 1) as nat)
    }
}

/// The last component of a path: what follows its last `/`.
pub open spec fn base_name(s: Seq<char>) -> Seq<char> {
    s.subrange(name_start(s, s.len()) as int, s.len() as int)
}

/// An absolute path begins with `/`.
pub open spec fn is_absolute(s: Seq<char>) -> bool {
    starts_with_char(s, '/')
}

/// `name_start` marks the one place that splits a path into a directory
/// part and a component free of `/`.
pub proof fn lemma_name_start(s: Seq<char>, n: nat)
    requires
        n <= s.len(),
    ensures
        name_start(s, n) <= n,
        name_start(s, n) > 0 ==> s[name_start(s, n) - 1] == '/',
        forall|i: int| name_start(s, n) <= i < n ==> s[i] != '/',
    decreases n,
{
    if n > 0 && s[n - 1] != '/' {
        lemma_name_start(s, (n - 1) as nat);
    }
}

/// The base name holds no `/`, and the path is its directory part followed by it.
pub proof fn lemma_base_name(s: Seq<char>)
    ensures
        base_name(s).len() <= s.len(),
        forall|i: int| 0 <= i < base_name(s).len() ==> base_name(s)[i] != '/',
        s == s.subrange(0, s.len() - base_name(s).len()) + base_name(s),
        s.len() > base_name(s).len() ==> s[s.len() - base_name(s).len() - 1] == '/',
{
    lemma_name_start(s, s.len());
}

/// Whether the two texts hold the same characters.
pub fn same_text(a: &str, b: &str) -> (r: bool)
    ensures
        r == (a@ == b@),
{
    let n: usize = a.unicode_len();
    if b.unicode_len() != n {
        return false;
    }
    let mut i: usize = 0;
    while i < n
        invariant
            i <= n,
            n == a@.len(),
            n == b@.len(),
            forall|k: int| 0 <= k < i ==> a@[k] == b@[k],
        decreases n - i,
    {
        if a.get_char(i) != b.get_char(i) {
            return false;
        }
        i += 1;
    }
    assert(a@ =~= b@);
    true
}

/// Whether the text begins with `c`.
pub fn begins_with(s: &str, c: char) -> (r: bool)
    ensures
        r == starts_with_char(s@, c),
{
    s.unicode_len() > 0 && s.get_char(0) == c
}

/// Whether the text ends in `suffix`.
pub fn ends_with(s: &str, suffix: &str) -> (r: bool)
    ensures
        r == has_suffix(s@, suffix@),
{
    let n: usize = s.unicode_len();
    let m: usize = suffix.unicode_len();
    if m > n {
        return false;
    }
    let off: usize = n - m;
    let mut i: usize = 0;
    while i < m
        invariant
            i <= m,
            m <= n,
            off == n - m,
            n == s@.len(),
            m == suffix@.len(),
            forall|k: int| 0 <= k < i ==> s@[off + k] == suffix@[k],
        decreases m - i,
    {
        if s.get_char(off + i) != suffix.get_char(i) {
            return false;
        }
        i += 1;
    }
    assert(s@.subrange(off as int, n as int) =~= suffix@);
    true
}

/// Whether the text ends in one of the suffixes.
pub fn ends_with_any(s: &str, suffixes: &Vec<String>) -> (r: bool)
    ensures
        r == has_any_suffix(s@, suffixes.deep_view()),
{
    let mut i: usize = 0;
    while i < suffixes.len()
        invariant
            i <= suffixes.len(),
            forall|k: int| 0 <= k < i ==> !has_suffix(s@, #[trigger] suffixes.deep_view()[k]),
        decreases suffixes.len() - i,
    {
        assert(suffixes.deep_view()[i as int] == suffixes[i as int]@);
        if ends_with(s, suffixes[i].as_str()) {
            return true;
        }
        i += 1;
    }
    false
}

/// The last component of a path, as a new string.
pub fn file_name(path: &str) -> (r: String)
    ensures
        r@ == base_name(path@),
{
    let n: usize = path.unicode_len();
    let mut i: usize = n;
    while i > 0 && path.get_char(i - 1) != '/'
        invariant
            i <= n,
            n == path@.len(),
            name_start(path@, n as nat) == name_start(path@, i as nat),
        decreases i,
    {
        i -= 1;
    }
    String::from_str(path.substring_char(i, n))
}

/// Whether the list holds the text.
pub fn contains_text(list: &Vec<String>, s: &str) -> (r: bool)
    ensures
        r == list.deep_view().contains(s@),
{
    let mut i: usize = 0;
    while i < list.len()
        invariant
            i <= list.len(),
            forall|k: int| 0 <= k < i ==> #[trigger] list.deep_view()[k] != s@,
        decreases list.len() - i,
    {
        assert(list.deep_view()[i as int] == list[i as int]@);
        if same_text(list[i].as_str(), s) {
            return true;
        }
        i += 1;
    }
    false
}

/// A copy of the list, text for text.
pub(crate) fn copy_texts(list: &Vec<String>) -> (r: Vec<String>)
    ensures
        r.deep_view() == list.deep_view(),
{
    let mut r: Vec<String> = Vec::new();
    let mut i: usize = 0;
    while i < list.len()
        invariant
            i <= list.len(),
            r.len() == i,
            forall|k: int| 0 <= k < i ==> r[k]@ == list[k]@,
        decreases list.len() - i,
    {
        r.push(list[i].clone());
        i += 1;
    }
    r
}

/// A copy of an optional text.
pub(crate) fn copy_optional_text(text: &Option<String>) -> (r: Option<String>)
    ensures
        r.deep_view() == text.deep_view(),
{
    match text {
        Some(s) => Some(s.clone()),
        None => None,
    }
}

/// Appends a text to the list.
pub(crate) fn push_text(list: &mut Vec<String>, s: String)
    ensures
        final(list).deep_view() == old(list).deep_view().push(s@),
{
    list.push(s);
}

} // verus!
