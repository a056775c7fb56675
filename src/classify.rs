use vstd::prelude::*;
use vstd::string::*;

verus! {

/// What `str::to_lowercase` makes of a string.
pub uninterp spec fn lower_of(s: Seq<char>) -> Seq<char>;

/// Relies on `str::to_lowercase`: the result depends on the characters
/// alone, and the empty string stays empty.
#[verifier::external_body]
fn lowercase(s: &str) -> (r: String)
    ensures
        r@ == lower_of(s@),
        s@.len() == 0 ==> r@.len() == 0,
{
    s.to_lowercase()
}

/// The position of the last `c` in `s`, or -1.
pub open spec fn last_index_of(s: Seq<char>, c: char) -> int
    decreases s.len(),
{
    if s.len() == 0 {
        -1
    } else if s.last() == c {
        s.len() - 1
    } else {
        last_index_of(s.drop_last(), c)
    }
}

/// A path without its trailing separators and trailing `.` components,
/// which do not change which component is last.
pub open spec fn trim_trailing(p: Seq<char>) -> Seq<char>
    decreases p.len(),
{
    if p.len() > 0 && p.last() == '/' {
        trim_trailing(p.drop_last())
    } else if p.len() >= 2 && p.last() == '.' && p[p.len() - 2] == '/' {
        trim_trailing(p.drop_last())
    } else {
        p
    }
}

/// The final component of a path: what follows the last `/` once trailing
/// separators and `.` components are removed.
pub open spec fn final_component(p: Seq<char>) -> Seq<char> {
    let t = trim_trailing(p);
    t.subrange(last_index_of(t, '/') + 1, t.len() as int)
}

/// The extension of a file name: what follows its last `.`. A name without a
/// `.`, a name whose only `.` is its first character, and `..` have none.
pub open spec fn extension_part(name: Seq<char>) -> Option<Seq<char>> {
    let i = last_index_of(name, '.');
    if i <= 0 || name == seq!['.', '.'] {
        None
    } else {
        Some(name.subrange(i + 1, name.len() as int))
    }
}

/// The normalized extension of a path: the lower-cased extension of its final
/// component, or the empty string when it has none.
pub open spec fn extension_spec(p: Seq<char>) -> Seq<char> {
    match extension_part(final_component(p)) {
        Some(e) => lower_of(e),
        None => Seq::empty(),
    }
}

proof fn lemma_last_index_range(s: Seq<char>, c: char)
    ensures
        -1 <= last_index_of(s, c) < s.len(),
        last_index_of(s, c) >= 0 ==> s[last_index_of(s, c)] == c,
    decreases s.len(),
{
    if s.len() > 0 && s.last() != c {
        lemma_last_index_range(s.drop_last(), c);
    }
}

/// The position of the last `c` in `s`, if any.
fn find_last(s: &str, c: char) -> (r: Option<usize>)
    ensures
        r matches Some(i) ==> i == last_index_of(s@, c),
        r is None ==> last_index_of(s@, c) == -1,
{
    let mut i: usize = s.unicode_len();
    assert(s@.take(i as int) =~= s@);
    while i > 0
        invariant
            i <= s@.len(),
            last_index_of(s@, c) == last_index_of(s@.take(i as int), c),
        decreases i,
    {
        assert(s@.take(i as int).drop_last() =~= s@.take(i - 1));
        if s.get_char(i - 1) == c {
            return Some(i - 1);
        }
        i -= 1;
    }
    None
}

/// The lower-cased extension of the final component of `path`, empty when it
/// has none.
pub fn get_extension_str(path: &str) -> (r: String)
    ensures
        r@ == extension_spec(path@),
        (extension_part(final_component(path@)) matches Some(e) ==> e.len() == 0) ==> r@.len() == 0,
{
    let len = path.unicode_len();
    let mut end: usize = len;
    assert(path@.take(end as int) =~= path@);
    while end > 0
        invariant
            end <= path@.len(),
            trim_trailing(path@) == trim_trailing(path@.take(end as int)),
        ensures
            end <= path@.len(),
            trim_trailing(path@) == path@.take(end as int),
        decreases end,
    {
        let c = path.get_char(end - 1);
        assert(path@.take(end as int).drop_last() =~= path@.take(end - 1));
        if c == '/' || (c == '.' && end >= 2 && path.get_char(end - 2) == '/') {
            end -= 1;
        } else {
            assert(trim_trailing(path@.take(end as int)) == path@.take(end as int));
            break;
        }
    }
    let trimmed = path.substring_char(0, end);
    assert(trimmed@ == trim_trailing(path@));
    proof {
        lemma_last_index_range(trimmed@, '/');
    }
    let start: usize = match find_last(trimmed, '/') {
        Some(i) => i + 1,
        None => 0,
    };
    let name = trimmed.substring_char(start, end);
    assert(name@ == final_component(path@));
    proof {
        lemma_last_index_range(name@, '.');
    }
    match find_last(name, '.') {
        Some(d) => {
            let n = name.unicode_len();
            let dotdot = n == 2 && d == 1 && name.get_char(0) == '.';
            assert(dotdot == (name@ == seq!['.', '.'])) by {
                if name@.len() == 2 && d == 1 && name@[0] == '.' {
                    assert(name@ =~= seq!['.', '.']);
                }
            }
            if d == 0 || dotdot {
                String::new()
            } else {
                lowercase(name.substring_char(d + 1, n))
            }
        },
        None => String::new(),
    }
}

/// The text of each name of a list.
pub open spec fn names(v: Seq<String>) -> Seq<Seq<char>> {
    v.map_values(|s: String| s@)
}

/// Whether `name` occurs in `list`.
pub fn contains_name(list: &Vec<String>, name: &String) -> (r: bool)
    ensures
        r == names(list@).contains(name@),
{
    let mut i: usize = 0;
    while i < list.len()
        invariant
            i <= list.len(),
            forall|j: int| 0 <= j < i ==> list@[j]@ != name@,
        decreases list.len() - i,
    {
        if list[i] == *name {
            assert(names(list@)[i as int] == name@);
            return true;
        }
        i += 1;
    }
    assert(!names(list@).contains(name@)) by {
        if names(list@).contains(name@) {
            let j = choose|j: int| 0 <= j < names(list@).len() && names(list@)[j] == name@;
            assert(list@[j]@ == name@);
        }
    }
    false
}

/// The filter policy: a non-empty whitelist admits exactly its members, and
/// the blacklist is then ignored; otherwise everything outside the blacklist
/// is admitted.
pub open spec fn admits_spec(ext: Seq<char>, blacklist: Seq<Seq<char>>, whitelist: Seq<Seq<char>>) -> bool {
    if whitelist.len() > 0 {
        whitelist.contains(ext)
    } else {
        !blacklist.contains(ext)
    }
}

/// Whether the filter policy lets an extension through.
pub fn admits(ext: &String, blacklist: &Vec<String>, whitelist: &Vec<String>) -> (r: bool)
    ensures
        r == admits_spec(ext@, names(blacklist@), names(whitelist@)),
{
    if whitelist.len() > 0 {
        contains_name(whitelist, ext)
    } else {
        !contains_name(blacklist, ext)
    }
}

} // verus!
