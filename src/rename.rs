use vstd::prelude::*;
use crate::classify::{admits, admits_spec, extension_spec, get_extension_str, names};
use crate::tree::PathInfo;

verus! {

/// Whether tinytemplate accepts a template's text.
pub uninterp spec fn template_compiles(t: Seq<char>) -> bool;

/// What tinytemplate renders from a template's text against a context whose
/// only field `number` holds `n`, or `None` when rendering fails.
pub uninterp spec fn rendered_name(t: Seq<char>, n: nat) -> Option<Seq<char>>;

/// `pat` occurs in `t` at position `i`.
pub open spec fn occurs_at(t: Seq<char>, pat: Seq<char>, i: int) -> bool {
    0 <= i && i + pat.len() <= t.len() && t.subrange(i, i + pat.len()) == pat
}

/// `pat` occurs somewhere in `t`.
pub open spec fn contains_text(t: Seq<char>, pat: Seq<char>) -> bool {
    exists|i: int| occurs_at(t, pat, i)
}

/// The characters that `str::trim` removes (`char::is_whitespace`).
pub open spec fn is_blank(c: char) -> bool {
    let u = c as u32;
    ||| 9 <= u <= 13
    ||| u == 32
    ||| u == 0x85
    ||| u == 0xa0
    ||| u == 0x1680
    ||| 0x2000 <= u <= 0x200a
    ||| u == 0x2028
    ||| u == 0x2029
    ||| u == 0x202f
    ||| u == 0x205f
    ||| u == 0x3000
}

/// From position `j` on, `t` holds blanks with at most one `-` among them
/// (none if `dash_seen`), then the block end `}}`.
pub open spec fn closing_run(t: Seq<char>, j: int, dash_seen: bool) -> bool
    decreases t.len() - j,
{
    if j < 0 || j >= t.len() {
        false
    } else if j + 1 < t.len() && t[j] == '}' && t[j + 1] == '}' {
        true
    } else if is_blank(t[j]) {
        closing_run(t, j + 1, dash_seen)
    } else if t[j] == '-' && !dash_seen {
        closing_run(t, j + 1, true)
    } else {
        false
    }
}

/// An `if not` condition that the compiler cannot slice after `not`: the `not`
/// at `i` is followed directly by a character of more than one byte, or by
/// nothing but the block's end.
pub open spec fn bad_negation_at(t: Seq<char>, i: int) -> bool {
    &&& occurs_at(t, seq!['n', 'o', 't'], i)
    &&& ((i + 3 < t.len() && (t[i + 3] as u32) >= 128) || closing_run(t, i + 3, false))
}

/// Template texts that tinytemplate's compiler handles without panicking:
/// no trailing backslash (an escape with nothing left to escape), no `{#}`
/// (a comment whose closing `#}` overlaps its opening `{#`), and no `not`
/// that an `if not` block would slice past (see `bad_negation_at`).
/// Texts outside this set are treated as invalid templates.
pub open spec fn template_safe(t: Seq<char>) -> bool {
    &&& !(t.len() > 0 && t.last() == '\\')
    &&& !contains_text(t, seq!['{', '#', '}'])
    &&& forall|i: int| !bad_negation_at(t, i)
}

/// Relies on `tinytemplate::TinyTemplate::add_template`, which parses the
/// text and reports whether it is well formed; the answer depends on the text
/// alone. Its compiler panics on some texts; `template_safe` leaves them out.
#[verifier::external_body]
fn template_parses(t: &str) -> (r: bool)
    requires
        template_safe(t@),
    ensures
        r == template_compiles(t@),
{
    tinytemplate::TinyTemplate::new().add_template("rename", t).is_ok()
}

/// Relies on `tinytemplate::TinyTemplate::render` of a parsed template against
/// the context `{ number: n }`; the result depends on the text and `n` alone.
/// It parses the text first with `add_template`, hence the same requirement.
#[verifier::external_body]
fn render_number(t: &str, n: usize) -> (r: Option<String>)
    requires
        template_safe(t@),
    ensures
        r matches Some(s) ==> rendered_name(t@, n as nat) == Some(s@),
        r is None ==> rendered_name(t@, n as nat) is None,
{
    let mut context = std::collections::BTreeMap::new();
    context.insert("number", n);
    let mut tt = tinytemplate::TinyTemplate::new();
    match tt.add_template("rename", t) {
        Ok(()) => tt.render("rename", &context).ok(),
        Err(_) => None,
    }
}

/// Whether `pat` occurs in `t` at position `i`.
fn text_at(t: &str, n: usize, pat: &Vec<char>, i: usize) -> (r: bool)
    requires
        n == t@.len(),
        i + pat@.len() <= n,
    ensures
        r == occurs_at(t@, pat@, i as int),
{
    let mut k: usize = 0;
    while k < pat.len()
        invariant
            k <= pat@.len(),
            n == t@.len(),
            i + pat@.len() <= n,
            forall|q: int| 0 <= q < k ==> t@[i + q] == pat@[q],
        decreases pat.len() - k,
    {
        if t.get_char(i + k) != pat[k] {
            assert(t@.subrange(i as int, i + pat@.len())[k as int] != pat@[k as int]);
            return false;
        }
        k += 1;
    }
    assert(t@.subrange(i as int, i + pat@.len()) =~= pat@);
    true
}

/// Whether `pat` occurs in `t`.
fn has_text(t: &str, pat: &Vec<char>) -> (r: bool)
    requires
        pat@.len() > 0,
    ensures
        r == contains_text(t@, pat@),
{
    let n = t.unicode_len();
    if pat.len() > n {
        return false;
    }
    let mut i: usize = 0;
    while i < n && pat.len() <= n - i
        invariant
            n == t@.len(),
            pat@.len() <= n,
            pat@.len() > 0,
            i <= n,
            forall|j: int| 0 <= j < i ==> !occurs_at(t@, pat@, j),
        decreases n - i,
    {
        if text_at(t, n, pat, i) {
            return true;
        }
        i += 1;
    }
    assert forall|j: int| !occurs_at(t@, pat@, j) by {
        if j >= i {
            assert(j + pat@.len() > n);
        }
    }
    false
}

/// Whether `c` is one of the characters that `str::trim` removes.
fn blank(c: char) -> (r: bool)
    ensures
        r == is_blank(c),
{
    let u = c as u32;
    (9 <= u && u <= 13) || u == 32 || u == 0x85 || u == 0xa0 || u == 0x1680 || (0x2000 <= u && u <= 0x200a)
        || u == 0x2028 || u == 0x2029 || u == 0x202f || u == 0x205f || u == 0x3000
}

/// Whether the block end follows position `j` of `t` after blanks and at most
/// one `-`.
fn closes_block(t: &str, n: usize, j: usize) -> (r: bool)
    requires
        n == t@.len(),
        j <= n,
    ensures
        r == closing_run(t@, j as int, false),
{
    let mut k: usize = j;
    let mut dash = false;
    while k < n
        invariant
            n == t@.len(),
            j <= k <= n,
            closing_run(t@, j as int, false) == closing_run(t@, k as int, dash),
        decreases n - k,
    {
        let c = t.get_char(k);
        if k + 1 < n && c == '}' && t.get_char(k + 1) == '}' {
            return true;
        } else if blank(c) {
            k += 1;
        } else if c == '-' && !dash {
            dash = true;
            k += 1;
        } else {
            return false;
        }
    }
    false
}

/// Whether some `not` in `t` would be sliced past by an `if not` block.
fn has_bad_negation(t: &str) -> (r: bool)
    ensures
        r == exists|i: int| bad_negation_at(t@, i),
{
    let n = t.unicode_len();
    let negation = vec!['n', 'o', 't'];
    assert(negation@ == seq!['n', 'o', 't']);
    let mut i: usize = 0;
    while i < n && 3 <= n - i
        invariant
            n == t@.len(),
            negation@ == seq!['n', 'o', 't'],
            i <= n,
            forall|j: int| 0 <= j < i ==> !bad_negation_at(t@, j),
        decreases n - i,
    {
        if text_at(t, n, &negation, i) {
            let wide = i + 3 < n && (t.get_char(i + 3) as u32) >= 128;
            if wide || closes_block(t, n, i + 3) {
                assert(bad_negation_at(t@, i as int));
                return true;
            }
        }
        i += 1;
    }
    assert forall|j: int| !bad_negation_at(t@, j) by {
        if j >= i {
            assert(j + 3 > n);
        }
    }
    false
}

/// Whether tinytemplate can be handed `t` safely.
pub fn is_template_safe(t: &str) -> (r: bool)
    ensures
        r == template_safe(t@),
{
    let n = t.unicode_len();
    if n > 0 && t.get_char(n - 1) == '\\' {
        return false;
    }
    let comment = vec!['{', '#', '}'];
    assert(comment@ == seq!['{', '#', '}']);
    !has_text(t, &comment) && !has_bad_negation(t)
}

/// Why a rename cannot be carried out.
#[derive(Debug, Clone, Copy, PartialEq, Eq, Structural)]
pub enum RenameError {
    /// The template text does not parse.
    InvalidTemplate,
    /// Rendering the template for a file failed.
    RenderFailed,
    /// A file to copy would need a number above `usize::MAX`.
    NumberOverflow,
}

/// One copy that Rename performs: the file `source` goes to the output
/// directory under the name `target`.
pub struct CopyStep {
    pub source: String,
    pub target: String,
}

impl CopyStep {
    pub open spec fn view(&self) -> (Seq<char>, Seq<char>) {
        (self.source@, self.target@)
    }
}

/// Whether Rename copies a file of the listing: it has a non-empty extension
/// that the filter policy admits.
pub open spec fn qualifies(p: PathInfo, blacklist: Seq<Seq<char>>, whitelist: Seq<Seq<char>>) -> bool {
    let ext = extension_spec(p.path@);
    !p.is_dir && ext.len() > 0 && admits_spec(ext, blacklist, whitelist)
}

/// The paths of the files that Rename copies, in listing order.
pub open spec fn rename_sources(infos: Seq<PathInfo>, blacklist: Seq<Seq<char>>, whitelist: Seq<Seq<char>>) -> Seq<Seq<char>>
    decreases infos.len(),
{
    if infos.len() == 0 {
        Seq::empty()
    } else {
        let p = infos.last();
        rename_sources(infos.drop_last(), blacklist, whitelist) + (if qualifies(p, blacklist, whitelist) {
            seq![p.path@]
        } else {
            Seq::empty()
        })
    }
}

/// Every number from `start` on, one per source, renders, as far as the
/// numbers stay within `usize`.
pub open spec fn all_render(t: Seq<char>, start: nat, count: nat) -> bool {
    forall|k: nat| k < count && start + k <= usize::MAX ==> (#[trigger] rendered_name(t, start + k)) is Some
}

proof fn lemma_sources_prefix(infos: Seq<PathInfo>, j: int, b: Seq<Seq<char>>, w: Seq<Seq<char>>)
    requires
        0 <= j <= infos.len(),
    ensures
        rename_sources(infos.take(j), b, w).len() <= rename_sources(infos, b, w).len(),
        forall|k: int| 0 <= k < rename_sources(infos.take(j), b, w).len()
            ==> rename_sources(infos.take(j), b, w)[k] == #[trigger] rename_sources(infos, b, w)[k],
    decreases infos.len(),
{
    if j == infos.len() {
        assert(infos.take(j) =~= infos);
    } else {
        lemma_sources_prefix(infos.drop_last(), j, b, w);
        assert(infos.drop_last().take(j) =~= infos.take(j));
    }
}

proof fn lemma_sources_concat(a: Seq<PathInfo>, c: Seq<PathInfo>, b: Seq<Seq<char>>, w: Seq<Seq<char>>)
    ensures
        rename_sources(a + c, b, w) == rename_sources(a, b, w) + rename_sources(c, b, w),
    decreases c.len(),
{
    if c.len() == 0 {
        assert(a + c =~= a);
    } else {
        lemma_sources_concat(a, c.drop_last(), b, w);
        assert((a + c).drop_last() =~= a + c.drop_last());
    }
}

/// A file that does not qualify (a directory, no extension, or refused by the
/// filter policy) consumes no number: without it, the same files are copied
/// in the same order.
pub proof fn lemma_unqualified_entry_is_ignored(infos: Seq<PathInfo>, i: int, b: Seq<Seq<char>>, w: Seq<Seq<char>>)
    requires
        0 <= i < infos.len(),
        !qualifies(infos[i], b, w),
    ensures
        rename_sources(infos.remove(i), b, w) == rename_sources(infos, b, w),
{
    let x = seq![infos[i]];
    assert(infos =~= infos.take(i) + x + infos.skip(i + 1));
    assert(infos.remove(i) =~= infos.take(i) + infos.skip(i + 1));
    assert(x.drop_last() =~= Seq::<PathInfo>::empty());
    assert(rename_sources(x.drop_last(), b, w) == Seq::<Seq<char>>::empty());
    assert(x.last() == infos[i]);
    lemma_sources_concat(infos.take(i), x, b, w);
    lemma_sources_concat(infos.take(i) + x, infos.skip(i + 1), b, w);
    lemma_sources_concat(infos.take(i), infos.skip(i + 1), b, w);
    assert(rename_sources(x, b, w) =~= Seq::<Seq<char>>::empty());
    assert(rename_sources(infos.take(i), b, w) + rename_sources(x, b, w) =~= rename_sources(infos.take(i), b, w));
}

/// Plans Rename over a flattened listing: the files with a non-empty extension
/// that the filter policy admits, in listing order, each paired with the name
/// that the template renders for its number. Numbers start at `start_number`
/// and only copied files consume one.
pub fn rename_plan(
    infos: &Vec<PathInfo>,
    blacklist: &Vec<String>,
    whitelist: &Vec<String>,
    start_number: usize,
    template: &str,
) -> (r: Result<Vec<CopyStep>, RenameError>)
    ensures
        ({
            let q = rename_sources(infos@, names(blacklist@), names(whitelist@));
            let valid = template_safe(template@) && template_compiles(template@);
            let renders = all_render(template@, start_number as nat, q.len());
            let fits = start_number + q.len() <= usize::MAX + 1;
            &&& (r == Err::<Vec<CopyStep>, RenameError>(RenameError::InvalidTemplate)) == !valid
            &&& (r == Err::<Vec<CopyStep>, RenameError>(RenameError::RenderFailed)) == (valid && !renders)
            &&& (r == Err::<Vec<CopyStep>, RenameError>(RenameError::NumberOverflow)) == (valid && renders && !fits)
            &&& r is Ok <==> (valid && renders && fits)
            &&& r matches Ok(v) ==> {
                &&& v@.len() == q.len()
                &&& forall|k: int| 0 <= k < v@.len() ==> #[trigger] v@[k].source@ == q[k]
                    && rendered_name(template@, (start_number + k) as nat) == Some(v@[k].target@)
            }
        }),
{
    if !is_template_safe(template) || !template_parses(template) {
        return Err(RenameError::InvalidTemplate);
    }
    let ghost b = names(blacklist@);
    let ghost w = names(whitelist@);
    let ghost q = rename_sources(infos@, b, w);
    let mut steps: Vec<CopyStep> = Vec::new();
    let mut i: usize = 0;
    while i < infos.len()
        invariant
            i <= infos.len(),
            b == names(blacklist@),
            w == names(whitelist@),
            q == rename_sources(infos@, b, w),
            template_safe(template@),
            template_compiles(template@),
            steps@.len() == rename_sources(infos@.take(i as int), b, w).len(),
            start_number + steps@.len() <= usize::MAX + 1,
            forall|k: int| 0 <= k < steps@.len() ==> #[trigger] steps@[k].source@ == rename_sources(infos@.take(i as int), b, w)[k]
                && rendered_name(template@, (start_number + k) as nat) == Some(steps@[k].target@),
        decreases infos.len() - i,
    {
        assert(infos@.take(i + 1).drop_last() =~= infos@.take(i as int));
        let ghost before = rename_sources(infos@.take(i as int), b, w);
        let p = &infos[i];
        let mut copy = false;
        if !p.is_dir {
            let ext = get_extension_str(p.path.as_str());
            copy = !ext.as_str().is_empty() && admits(&ext, blacklist, whitelist);
        }
        assert(copy == qualifies(infos@[i as int], b, w));
        if copy {
            let ghost now = rename_sources(infos@.take(i + 1), b, w);
            assert(now =~= before.push(p.path@));
            proof {
                lemma_sources_prefix(infos@, i + 1, b, w);
            }
            if start_number > usize::MAX - steps.len() {
                assert(all_render(template@, start_number as nat, q.len())) by {
                    assert forall|k: nat| k < q.len() && start_number + k <= usize::MAX
                        implies (#[trigger] rendered_name(template@, start_number as nat + k)) is Some by {
                        assert(steps@[k as int].source@ == before[k as int]);
                    }
                }
                return Err(RenameError::NumberOverflow);
            }
            let number = start_number + steps.len();
            match render_number(template, number) {
                Some(target) => {
                    steps.push(CopyStep { source: p.path.clone(), target });
                },
                None => {
                    proof {
                        let k = before.len();
                        assert(rendered_name(template@, start_number as nat + k) is None);
                        assert(k < q.len());
                    }
                    return Err(RenameError::RenderFailed);
                },
            }
        } else {
            assert(rename_sources(infos@.take(i + 1), b, w) =~= before);
        }
        i += 1;
    }
    assert(infos@.take(infos.len() as int) =~= infos@);
    assert(all_render(template@, start_number as nat, q.len())) by {
        assert forall|k: nat| k < q.len() && start_number + k <= usize::MAX
            implies (#[trigger] rendered_name(template@, start_number as nat + k)) is Some by {
            assert(steps@[k as int].source@ == q[k as int]);
        }
    }
    Ok(steps)
}

} // verus!
