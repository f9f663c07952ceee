//! Command-line arguments: which comparison to show.
//!
//! Recent commits are addressed by how far back they are: `1` is the last
//! commit, and `gd N` is exactly `gd 1..N`.
use vstd::prelude::*;
use crate::git::{Spec, SpecModel};
use crate::text::{
    chars_of, decimal_spec, digits_value, owned, parse_usize, parse_usize_spec, push_decimal,
    push_str, str_eq, string_of, unsigned_body,
};

verus! {

/// What the command line asks for.
#[derive(Debug)]
pub enum Parsed {
    Spec(Spec),
    Help,
    Version,
}

/// A `Parsed` as mathematical values.
pub enum ParsedModel {
    Spec(SpecModel),
    Help,
    Version,
}

impl View for Parsed {
    type V = ParsedModel;

    open spec fn view(&self) -> ParsedModel {
        match self {
            Parsed::Spec(s) => ParsedModel::Spec(s@),
            Parsed::Help => ParsedModel::Help,
            Parsed::Version => ParsedModel::Version,
        }
    }
}

pub open spec fn is_digit_char(c: char) -> bool {
    '0' <= c && c <= '9'
}

/// An all-digit argument is a commit count, not a revision name.
pub open spec fn is_count_spec(s: Seq<char>) -> bool {
    s.len() > 0 && forall|i: int| 0 <= i < s.len() ==> is_digit_char(#[trigger] s[i])
}

/// An all-digit argument is a commit count, not a revision name.
pub fn is_count(s: &str) -> (r: bool)
    ensures
        r == is_count_spec(s@),
{
    let v = chars_of(s);
    if v.len() == 0 {
        return false;
    }
    let mut i: usize = 0;
    while i < v.len()
        invariant
            v@ == s@,
            i <= v.len(),
            forall|k: int| 0 <= k < i ==> is_digit_char(#[trigger] s@[k]),
        decreases v.len() - i,
    {
        if !('0' <= v[i] && v[i] <= '9') {
            return false;
        }
        i = i + 1;
    }
    true
}

/// The revision `n` commits back from HEAD.
pub open spec fn back_spec(n: nat) -> Seq<char> {
    if n == 0 {
        "HEAD"@
    } else {
        "HEAD~"@ + decimal_spec(n)
    }
}

/// The revision `n` commits back from HEAD.
pub fn back(n: usize) -> (r: String)
    ensures
        r@ == back_spec(n as nat),
{
    if n == 0 {
        owned("HEAD")
    } else {
        let mut out: Vec<char> = Vec::new();
        push_str(&mut out, "HEAD~");
        push_decimal(&mut out, n);
        proof {
            assert(out@ =~= "HEAD~"@ + decimal_spec(n as nat));
        }
        string_of(&out)
    }
}

/// Index of the first `..` in `s` at or after `i`, or `s.len()`.
pub open spec fn first_dots(s: Seq<char>, i: int) -> int
    decreases s.len() - i,
{
    if i < 0 || i + 1 >= s.len() {
        s.len() as int
    } else if s[i] == '.' && s[i + 1] == '.' {
        i
    } else {
        first_dots(s, i + 1)
    }
}

proof fn lemma_first_dots(s: Seq<char>, i: int)
    requires
        0 <= i <= s.len(),
    ensures
        i <= first_dots(s, i) <= s.len(),
        first_dots(s, i) < s.len() ==> first_dots(s, i) + 1 < s.len() && s[first_dots(s, i)] == '.'
            && s[first_dots(s, i) + 1] == '.',
    decreases s.len() - i,
{
    if i + 1 < s.len() && !(s[i] == '.' && s[i + 1] == '.') {
        lemma_first_dots(s, i + 1);
    }
}

/// `a..b` or `a...b`: the two sides, or the error when one is missing; not
/// a range at all when there is no `..`.
pub open spec fn split_range_spec(arg: Seq<char>) -> Result<Option<(Seq<char>, Seq<char>)>, Seq<char>> {
    let i = first_dots(arg, 0);
    if i >= arg.len() {
        Ok(None)
    } else {
        let a = arg.take(i);
        let rest = arg.skip(i + 2);
        let b = if rest.len() > 0 && rest[0] == '.' {
            rest.drop_first()
        } else {
            rest
        };
        if a.len() == 0 || b.len() == 0 {
            Err("`"@ + arg + "` needs a revision on both sides"@)
        } else {
            Ok(Some((a, b)))
        }
    }
}

/// Split `a..b` or `a...b`. git's three-dot merge-base semantics are not worth
/// the surprise here, so both spellings mean "compare these two".
pub fn split_range(arg: &str) -> (r: Result<Option<(String, String)>, String>)
    ensures
        match r {
            Ok(Some((a, b))) => split_range_spec(arg@) == Ok::<Option<(Seq<char>, Seq<char>)>, Seq<char>>(Some((a@, b@))),
            Ok(None) => split_range_spec(arg@) == Ok::<Option<(Seq<char>, Seq<char>)>, Seq<char>>(None),
            Err(m) => split_range_spec(arg@) == Err::<Option<(Seq<char>, Seq<char>)>, Seq<char>>(m@),
        },
{
    let v = chars_of(arg);
    let mut i: usize = 0;
    while v.len() - i > 1 && !(v[i] == '.' && v[i + 1] == '.')
        invariant
            v@ == arg@,
            i <= v.len(),
            first_dots(arg@, i as int) == first_dots(arg@, 0),
        decreases v.len() - i,
    {
        i = i + 1;
    }
    proof {
        lemma_first_dots(arg@, i as int);
    }
    if v.len() - i <= 1 {
        return Ok(None);
    }
    let mut a: Vec<char> = Vec::new();
    let mut k: usize = 0;
    while k < i
        invariant
            v@ == arg@,
            k <= i < v.len(),
            a@ == arg@.take(k as int),
        decreases i - k,
    {
        a.push(v[k]);
        k = k + 1;
        proof {
            assert(a@ =~= arg@.take(k as int));
        }
    }
    let mut start: usize = i + 2;
    if start < v.len() && v[start] == '.' {
        start = start + 1;
    }
    let mut b: Vec<char> = Vec::new();
    let mut k: usize = start;
    while k < v.len()
        invariant
            v@ == arg@,
            start <= k <= v.len(),
            b@ == arg@.subrange(start as int, k as int),
        decreases v.len() - k,
    {
        b.push(v[k]);
        k = k + 1;
        proof {
            assert(b@ =~= arg@.subrange(start as int, k as int));
        }
    }
    proof {
        let rest = arg@.skip(i + 2);
        if rest.len() > 0 && rest[0] == '.' {
            assert(b@ =~= rest.drop_first());
        } else {
            assert(b@ =~= rest);
        }
    }
    if a.len() == 0 || b.len() == 0 {
        let mut m: Vec<char> = Vec::new();
        push_str(&mut m, "`");
        push_str(&mut m, arg);
        push_str(&mut m, "` needs a revision on both sides");
        proof {
            assert(m@ =~= "`"@ + arg@ + "` needs a revision on both sides"@);
        }
        return Err(string_of(&m));
    }
    Ok(Some((string_of(&a), string_of(&b))))
}

/// Build a range from two arguments, which are either both counts or both
/// revisions. Counting back from the newest commit, `1` is the last commit, so
/// `2..4` covers the second, third and fourth commits back.
pub open spec fn range_spec(a: Seq<char>, b: Seq<char>) -> Result<ParsedModel, Seq<char>> {
    if is_count_spec(a) && is_count_spec(b) {
        match (parse_usize_spec(a), parse_usize_spec(b)) {
            (Some(x), Some(y)) => {
                if x == 0 || y == 0 {
                    Err("commit counts start at 1 -- `gd 1` is the last commit"@)
                } else {
                    let first = if x <= y { x } else { y };
                    let last = if x <= y { y } else { x };
                    // Everything from the commit before the oldest one named, up to the
                    // newest one named.
                    Ok(ParsedModel::Spec(SpecModel::Range(back_spec(last as nat), back_spec((first - 1) as nat))))
                }
            },
            _ => Err("`"@ + a + ".."@ + b + "` is too large to be a commit count"@),
        }
    } else if !is_count_spec(a) && !is_count_spec(b) {
        Ok(ParsedModel::Spec(SpecModel::Range(a, b)))
    } else {
        Err("`"@ + a + ".."@ + b + "` mixes a commit count with a revision -- spell both out, as in `HEAD~4..main`"@)
    }
}

pub open spec fn parsed_result(r: Result<Parsed, String>) -> Result<ParsedModel, Seq<char>> {
    match r {
        Ok(p) => Ok(p@),
        Err(m) => Err(m@),
    }
}

/// Build a range from two arguments, which are either both counts or both
/// revisions.
pub fn range(a: &str, b: &str) -> (r: Result<Parsed, String>)
    ensures
        parsed_result(r) == range_spec(a@, b@),
{
    let ca = is_count(a);
    let cb = is_count(b);
    if ca && cb {
        match (parse_usize(a), parse_usize(b)) {
            (Some(x), Some(y)) => {
                if x == 0 || y == 0 {
                    return Err(owned("commit counts start at 1 -- `gd 1` is the last commit"));
                }
                // Either order describes the same window of commits.
                let first = if x <= y { x } else { y };
                let last = if x <= y { y } else { x };
                Ok(Parsed::Spec(Spec::Range(back(last), back(first - 1))))
            },
            _ => {
                let mut m: Vec<char> = Vec::new();
                push_str(&mut m, "`");
                push_str(&mut m, a);
                push_str(&mut m, "..");
                push_str(&mut m, b);
                push_str(&mut m, "` is too large to be a commit count");
                proof {
                    assert(m@ =~= "`"@ + a@ + ".."@ + b@ + "` is too large to be a commit count"@);
                }
                Err(string_of(&m))
            },
        }
    } else if !ca && !cb {
        Ok(Parsed::Spec(Spec::Range(owned(a), owned(b))))
    } else {
        let mut m: Vec<char> = Vec::new();
        push_str(&mut m, "`");
        push_str(&mut m, a);
        push_str(&mut m, "..");
        push_str(&mut m, b);
        push_str(&mut m, "` mixes a commit count with a revision -- spell both out, as in `HEAD~4..main`");
        proof {
            assert(m@ =~= "`"@ + a@ + ".."@ + b@ + "` mixes a commit count with a revision -- spell both out, as in `HEAD~4..main`"@);
        }
        Err(string_of(&m))
    }
}

/// How the scan of the arguments ends: a flag that answers at once, or the
/// staged flag and the revisions collected.
pub enum Scan {
    Help,
    Version,
    Done(bool, Seq<Seq<char>>),
}

/// Reads the arguments from index `i` on, with the staged flag and the
/// revisions seen so far.
pub open spec fn scan_spec(args: Seq<Seq<char>>, i: int, staged: bool, revs: Seq<Seq<char>>) -> Result<Scan, Seq<char>>
    decreases args.len() - i,
{
    if i < 0 || i >= args.len() {
        Ok(Scan::Done(staged, revs))
    } else {
        let a = args[i];
        if a == "-h"@ || a == "--help"@ {
            Ok(Scan::Help)
        } else if a == "-V"@ || a == "--version"@ {
            Ok(Scan::Version)
        } else if a == "-s"@ || a == "--staged"@ || a == "--cached"@ {
            scan_spec(args, i + 1, true, revs)
        } else if a == "--"@ {
            // Everything after `--` is a revision, never a flag.
            Ok(Scan::Done(staged, revs + args.skip(i + 1)))
        } else if a.len() > 0 && a[0] == '-' {
            Err("unknown option `"@ + a + "`"@)
        } else {
            scan_spec(args, i + 1, staged, revs.push(a))
        }
    }
}

/// What the scanned arguments ask for.
pub open spec fn finish_spec(staged: bool, revs: Seq<Seq<char>>) -> Result<ParsedModel, Seq<char>> {
    if staged && revs.len() > 0 {
        Err("--staged takes no revisions"@)
    } else if staged {
        Ok(ParsedModel::Spec(SpecModel::Staged))
    } else if revs.len() == 0 {
        Ok(ParsedModel::Spec(SpecModel::Worktree))
    } else if revs.len() == 1 {
        let arg = revs[0];
        match split_range_spec(arg) {
            Err(m) => Err(m),
            Ok(Some((a, b))) => range_spec(a, b),
            // A bare count is the range starting at the last commit, so
            // `gd 3` and `gd 1..3` mean the same thing.
            Ok(None) => if is_count_spec(arg) {
                range_spec("1"@, arg)
            } else {
                Ok(ParsedModel::Spec(SpecModel::Rev(arg)))
            },
        }
    } else if revs.len() == 2 {
        range_spec(revs[0], revs[1])
    } else {
        Err("expected at most 2 revisions, got "@ + decimal_spec(revs.len()))
    }
}

/// What `parse_args` returns for these arguments.
pub open spec fn parse_args_spec(args: Seq<Seq<char>>) -> Result<ParsedModel, Seq<char>> {
    match scan_spec(args, 0, false, Seq::empty()) {
        Err(m) => Err(m),
        Ok(Scan::Help) => Ok(ParsedModel::Help),
        Ok(Scan::Version) => Ok(ParsedModel::Version),
        Ok(Scan::Done(staged, revs)) => finish_spec(staged, revs),
    }
}

pub open spec fn args_model(args: Seq<String>) -> Seq<Seq<char>> {
    Seq::new(args.len(), |i: int| args[i]@)
}

/// What the scanned arguments ask for.
pub fn finish(staged: bool, revs: &Vec<String>) -> (r: Result<Parsed, String>)
    ensures
        parsed_result(r) == finish_spec(staged, args_model(revs@)),
{
    let ghost rs = args_model(revs@);
    if staged && revs.len() > 0 {
        return Err(owned("--staged takes no revisions"));
    }
    if staged {
        return Ok(Parsed::Spec(Spec::Staged));
    }
    if revs.len() == 0 {
        return Ok(Parsed::Spec(Spec::Worktree));
    }
    if revs.len() == 1 {
        let arg = revs[0].as_str();
        assert(rs[0] == arg@);
        return match split_range(arg) {
            Err(m) => Err(m),
            Ok(Some((a, b))) => range(a.as_str(), b.as_str()),
            Ok(None) => {
                if is_count(arg) {
                    proof {
                        reveal_strlit("1");
                    }
                    range("1", arg)
                } else {
                    Ok(Parsed::Spec(Spec::Rev(owned(arg))))
                }
            },
        };
    }
    if revs.len() == 2 {
        assert(rs[0] == revs@[0]@ && rs[1] == revs@[1]@);
        return range(revs[0].as_str(), revs[1].as_str());
    }
    let mut m: Vec<char> = Vec::new();
    push_str(&mut m, "expected at most 2 revisions, got ");
    push_decimal(&mut m, revs.len());
    proof {
        assert(m@ =~= "expected at most 2 revisions, got "@ + decimal_spec(rs.len()));
    }
    Err(string_of(&m))
}

/// The comparison the command line asks for, or the usage error.
pub fn parse_args(args: &[String]) -> (r: Result<Parsed, String>)
    ensures
        parsed_result(r) == parse_args_spec(args_model(args@)),
{
    let ghost am = args_model(args@);
    let mut staged = false;
    let mut revs: Vec<String> = Vec::new();
    let mut i: usize = 0;
    proof {
        assert(args_model(revs@) =~= Seq::<Seq<char>>::empty());
    }
    while i < args.len()
        invariant
            am == args_model(args@),
            i <= args@.len(),
            scan_spec(am, i as int, staged, args_model(revs@)) == scan_spec(am, 0, false, Seq::empty()),
        decreases args.len() - i,
    {
        let a = args[i].as_str();
        assert(am[i as int] == a@);
        if str_eq(a, "-h") || str_eq(a, "--help") {
            return Ok(Parsed::Help);
        }
        if str_eq(a, "-V") || str_eq(a, "--version") {
            return Ok(Parsed::Version);
        }
        if str_eq(a, "-s") || str_eq(a, "--staged") || str_eq(a, "--cached") {
            staged = true;
        } else if str_eq(a, "--") {
            let ghost before = args_model(revs@);
            let mut k: usize = i + 1;
            while k < args.len()
                invariant
                    am == args_model(args@),
                    i < k <= args@.len(),
                    args_model(revs@) == before + am.subrange(i + 1, k as int),
                decreases args.len() - k,
            {
                let ghost prev = args_model(revs@);
                assert(am[k as int] == args@[k as int]@);
                revs.push(args[k].clone());
                proof {
                    assert(args_model(revs@) =~= prev.push(am[k as int]));
                }
                k = k + 1;
                proof {
                    assert(args_model(revs@) =~= before + am.subrange(i + 1, k as int));
                }
            }
            proof {
                assert(am.subrange(i + 1, k as int) =~= am.skip(i + 1));
            }
            return finish(staged, &revs);
        } else {
            let v = chars_of(a);
            if v.len() > 0 && v[0] == '-' {
                let mut m: Vec<char> = Vec::new();
                push_str(&mut m, "unknown option `");
                push_str(&mut m, a);
                push_str(&mut m, "`");
                proof {
                    assert(m@ =~= "unknown option `"@ + a@ + "`"@);
                }
                return Err(string_of(&m));
            }
            let ghost before = args_model(revs@);
            revs.push(args[i].clone());
            proof {
                assert(args_model(revs@) =~= before.push(a@));
            }
        }
        i = i + 1;
    }
    finish(staged, &revs)
}


// ------------------------------------------------------------------ laws

/// An argument that does not start with `-` is never read as a flag.
proof fn lemma_not_a_flag(a: Seq<char>)
    requires
        a.len() > 0,
        a[0] != '-',
    ensures
        a != "-h"@ && a != "--help"@ && a != "-V"@ && a != "--version"@,
        a != "-s"@ && a != "--staged"@ && a != "--cached"@ && a != "--"@,
{
    reveal_strlit("-h");
    reveal_strlit("--help");
    reveal_strlit("-V");
    reveal_strlit("--version");
    reveal_strlit("-s");
    reveal_strlit("--staged");
    reveal_strlit("--cached");
    reveal_strlit("--");
}

/// Arguments none of which looks like a flag are all revisions.
proof fn lemma_scan_plain(args: Seq<Seq<char>>)
    requires
        forall|i: int| 0 <= i < args.len() ==> (#[trigger] args[i]).len() > 0 && args[i][0] != '-',
    ensures
        parse_args_spec(args) == finish_spec(false, args),
{
    assert forall|i: int, revs: Seq<Seq<char>>| 0 <= i <= args.len() && revs == args.take(i) implies #[trigger] scan_spec(args, i, false, revs) == Ok::<Scan, Seq<char>>(Scan::Done(false, args)) by {
        lemma_scan_from(args, i, revs);
    }
    assert(args.take(0) =~= Seq::<Seq<char>>::empty());
    assert(scan_spec(args, 0, false, args.take(0)) == Ok::<Scan, Seq<char>>(Scan::Done(false, args)));
}

proof fn lemma_scan_from(args: Seq<Seq<char>>, i: int, revs: Seq<Seq<char>>)
    requires
        forall|k: int| 0 <= k < args.len() ==> (#[trigger] args[k]).len() > 0 && args[k][0] != '-',
        0 <= i <= args.len(),
        revs == args.take(i),
    ensures
        scan_spec(args, i, false, revs) == Ok::<Scan, Seq<char>>(Scan::Done(false, args)),
    decreases args.len() - i,
{
    if i < args.len() {
        lemma_not_a_flag(args[i]);
        assert(args.take(i + 1) =~= revs.push(args[i]));
        lemma_scan_from(args, i + 1, revs.push(args[i]));
    } else {
        assert(revs =~= args);
    }
}

proof fn lemma_digits_have_no_dots(s: Seq<char>, i: int)
    requires
        is_count_spec(s),
        0 <= i <= s.len(),
    ensures
        first_dots(s, i) == s.len(),
    decreases s.len() - i,
{
    if i + 1 < s.len() {
        assert(is_digit_char(s[i]));
        lemma_digits_have_no_dots(s, i + 1);
    }
}

/// The property that makes the shorthand coherent: a bare count `N` means
/// exactly what `1..N` means.
pub proof fn bare_count_is_range_from_one(n: Seq<char>)
    requires
        is_count_spec(n),
    ensures
        parse_args_spec(seq![n]) == parse_args_spec(seq!["1"@ + ".."@ + n]),
{
    reveal_strlit("1");
    reveal_strlit("..");
    let t = "1"@ + ".."@ + n;
    assert(is_digit_char(n[0]));
    assert(t[0] == '1');
    lemma_scan_plain(seq![n]);
    lemma_scan_plain(seq![t]);
    lemma_digits_have_no_dots(n, 0);
    assert(split_range_spec(n) == Ok::<Option<(Seq<char>, Seq<char>)>, Seq<char>>(None));
    assert(t[1] == '.' && t[2] == '.' && t.len() >= 3);
    assert(first_dots(t, 1) == 1);
    assert(first_dots(t, 0) == 1);
    assert(t.take(1) =~= "1"@);
    assert(t.skip(3) =~= n);
    assert(split_range_spec(t) == Ok::<Option<(Seq<char>, Seq<char>)>, Seq<char>>(Some(("1"@, n))));
}

proof fn lemma_parse_one()
    ensures
        parse_usize_spec("1"@) == Some(1usize),
{
    reveal_strlit("1");
    let s = "1"@;
    assert(s.len() == 1 && s[0] == '1');
    assert(s.drop_last() =~= Seq::<char>::empty());
    assert(digits_value(s.drop_last()) == 0);
    assert(s.last() == '1');
    assert(crate::text::digit_value('1') == 1);
    assert(digits_value(s) == 1);
    assert(crate::text::is_digit(s[0]));
}

/// An argument made only of digits is always a count, never a revision:
/// `gd N` compares `HEAD~N` with `HEAD`, or is refused when `N` is zero or
/// too large, and never names a branch or commit called `N`.
pub proof fn digits_are_always_a_count(n: Seq<char>)
    requires
        is_count_spec(n),
    ensures
        parse_usize_spec(n) is Some && parse_usize_spec(n)->0 > 0 ==> parse_args_spec(seq![n]) == Ok::<ParsedModel, Seq<char>>(
            ParsedModel::Spec(SpecModel::Range(back_spec(parse_usize_spec(n)->0 as nat), "HEAD"@)),
        ),
        parse_args_spec(seq![n]) is Err || parse_args_spec(seq![n]) matches Ok(ParsedModel::Spec(SpecModel::Range(_, _))),
{
    reveal_strlit("1");
    assert(is_digit_char(n[0]));
    lemma_scan_plain(seq![n]);
    lemma_digits_have_no_dots(n, 0);
    assert(split_range_spec(n) == Ok::<Option<(Seq<char>, Seq<char>)>, Seq<char>>(None));
    assert(is_count_spec("1"@));
    lemma_parse_one();
}

/// Either order describes the same window of commits: a count range reads
/// the same both ways round.
pub proof fn count_ranges_are_symmetric(a: Seq<char>, b: Seq<char>)
    requires
        is_count_spec(a),
        is_count_spec(b),
        parse_usize_spec(a) is Some,
        parse_usize_spec(b) is Some,
    ensures
        range_spec(a, b) == range_spec(b, a),
{
}

proof fn lemma_no_dot_scan(s: Seq<char>, i: int)
    requires
        forall|k: int| 0 <= k < s.len() ==> #[trigger] s[k] != '.',
        0 <= i <= s.len(),
    ensures
        first_dots(s, i) == s.len(),
    decreases s.len() - i,
{
    if i + 1 < s.len() {
        lemma_no_dot_scan(s, i + 1);
    }
}

proof fn lemma_first_dots_past(a: Seq<char>, t: Seq<char>, i: int)
    requires
        forall|k: int| 0 <= k < a.len() ==> #[trigger] a[k] != '.',
        a.len() + 1 < t.len(),
        t.take(a.len() as int) == a,
        t[a.len() as int] == '.',
        t[a.len() + 1int] == '.',
        0 <= i <= a.len(),
    ensures
        first_dots(t, i) == a.len(),
    decreases a.len() - i,
{
    if i < a.len() {
        assert(t[i] == a[i]);
        lemma_first_dots_past(a, t, i + 1);
    }
}

/// Two revisions given apart, as `a..b`, or as `a...b` name the same
/// comparison.
pub proof fn range_spellings_agree(a: Seq<char>, b: Seq<char>)
    requires
        a.len() > 0,
        b.len() > 0,
        a[0] != '-',
        b[0] != '-',
        forall|k: int| 0 <= k < a.len() ==> #[trigger] a[k] != '.',
        forall|k: int| 0 <= k < b.len() ==> #[trigger] b[k] != '.',
    ensures
        parse_args_spec(seq![a, b]) == parse_args_spec(seq![a + ".."@ + b]),
        parse_args_spec(seq![a, b]) == parse_args_spec(seq![a + "..."@ + b]),
{
    reveal_strlit("..");
    reveal_strlit("...");
    let t2 = a + ".."@ + b;
    let t3 = a + "..."@ + b;
    lemma_scan_plain(seq![a, b]);
    assert(t2[0] == a[0]);
    assert(t3[0] == a[0]);
    lemma_scan_plain(seq![t2]);
    lemma_scan_plain(seq![t3]);
    assert(t2.take(a.len() as int) =~= a);
    assert(t3.take(a.len() as int) =~= a);
    lemma_first_dots_past(a, t2, 0);
    lemma_first_dots_past(a, t3, 0);
    assert(t2.skip(a.len() + 2int) =~= b);
    assert(t3.skip(a.len() + 2int) =~= seq!['.'] + b);
    assert((seq!['.'] + b).drop_first() =~= b);
    assert(split_range_spec(t2) == Ok::<Option<(Seq<char>, Seq<char>)>, Seq<char>>(Some((a, b))));
    assert(split_range_spec(t3) == Ok::<Option<(Seq<char>, Seq<char>)>, Seq<char>>(Some((a, b))));
}

} // verus!
