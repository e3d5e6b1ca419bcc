use vstd::prelude::*;
use vstd::string::*;

verus! {

/// The character views of a list of strings.
pub open spec fn views(v: Seq<String>) -> Seq<Seq<char>> {
    v.map_values(|s: String| s@)
}

pub open spec fn is_glob_meta(c: char) -> bool {
    c == '*' || c == '?' || c == '['
}

/// The pattern holds a glob metacharacter.
pub open spec fn has_glob_meta(p: Seq<char>) -> bool {
    exists|i: int| 0 <= i < p.len() && is_glob_meta(#[trigger] p[i])
}

/// Index of the last `/` among the first `n` characters, or -1.
pub open spec fn last_slash(p: Seq<char>, n: int) -> int
    decreases n,
{
    if n <= 0 {
        -1
    } else if p[n - 1] == '/' {
        n - 1
    } else {
        last_slash(p, n - 1)
    }
}

/// The length of the first `n` characters without trailing separators; a
/// leading separator is kept.
pub open spec fn trim_len(p: Seq<char>, n: int) -> int
    decreases n,
{
    if n > 1 && p[n - 1] == '/' {
        trim_len(p, n - 1)
    } else {
        n
    }
}

/// The path without its last component, ignoring trailing and repeated
/// separators; none for a bare name or the root.
pub open spec fn parent_of(p: Seq<char>) -> Option<Seq<char>> {
    let t = trim_len(p, p.len() as int);
    let i = last_slash(p, t);
    if t <= 1 || i < 0 {
        None
    } else if i == 0 {
        Some(seq!['/'])
    } else {
        Some(p.take(trim_len(p, i)))
    }
}

proof fn lemma_trim_len(p: Seq<char>, n: int)
    requires
        0 <= n <= p.len(),
    ensures
        n >= 1 ==> 1 <= trim_len(p, n) <= n,
        n == 0 ==> trim_len(p, n) == 0,
        trim_len(p, n) > 1 ==> p[trim_len(p, n) - 1] != '/',
    decreases n,
{
    if n > 1 && p[n - 1] == '/' {
        lemma_trim_len(p, n - 1);
    }
}

/// The path followed by its parent, its parent's parent, and so on.
pub open spec fn ancestor_chain(p: Seq<char>) -> Seq<Seq<char>>
    decreases p.len(),
{
    match parent_of(p) {
        Some(q) => if q.len() < p.len() {
            seq![p] + ancestor_chain(q)
        } else {
            seq![p]
        },
        None => seq![p],
    }
}

/// The first entry of `chain` from position `k` on whose flag says it exists.
pub open spec fn first_existing(chain: Seq<Seq<char>>, exists: Seq<bool>, k: int) -> Option<
    Seq<char>,
>
    decreases chain.len() - k,
{
    if k < 0 || k >= chain.len() {
        None
    } else if k < exists.len() && exists[k] {
        Some(chain[k])
    } else {
        first_existing(chain, exists, k + 1)
    }
}

/// The paths a pattern is watched through. A glob watches its matches, or the
/// working directory when nothing matches; a literal path watches itself or its
/// nearest existing ancestor, and the working directory, the last ancestor of a
/// relative path, when none of them exists.
pub open spec fn roots_of(
    pattern: Seq<char>,
    glob_matches: Seq<Seq<char>>,
    exists: Seq<bool>,
    working_dir: Seq<char>,
) -> Seq<Seq<char>> {
    if has_glob_meta(pattern) {
        if glob_matches.len() == 0 {
            seq![working_dir]
        } else {
            glob_matches
        }
    } else {
        match first_existing(ancestor_chain(pattern), exists, 0) {
            Some(r) => seq![r],
            None => seq![working_dir],
        }
    }
}

/// `path` is `root` or lies below it.
pub open spec fn is_under(path: Seq<char>, root: Seq<char>) -> bool {
    path == root || (root.len() < path.len() && path.take(root.len() as int) == root && (path[root.len() as int] == '/' || (
    root.len() > 0 && root.last() == '/')))
}

proof fn lemma_parent_shorter(p: Seq<char>, n: int)
    requires
        0 <= n <= p.len(),
    ensures
        -1 <= last_slash(p, n) < n,
        last_slash(p, n) >= 0 ==> p[last_slash(p, n)] == '/',
        forall|j: int| last_slash(p, n) < j < n ==> p[j] != '/',
    decreases n,
{
    if n > 0 {
        lemma_parent_shorter(p, n - 1);
    }
}

proof fn lemma_first_existing_at(chain: Seq<Seq<char>>, exists: Seq<bool>, j: int, k: int)
    requires
        0 <= j <= k < chain.len(),
        k < exists.len(),
        exists[k],
        forall|i: int| 0 <= i < k ==> !(i < exists.len() && exists[i]),
    ensures
        first_existing(chain, exists, j) == Some(chain[k]),
    decreases k - j,
{
    if j < k {
        lemma_first_existing_at(chain, exists, j + 1, k);
    }
}

/// A glob that matches nothing is watched through the working directory, and
/// a literal path is watched through the nearest of itself and its ancestors
/// that exists.
pub proof fn lemma_watch_fallbacks(
    pattern: Seq<char>,
    exists: Seq<bool>,
    working_dir: Seq<char>,
    k: int,
)
    ensures
        has_glob_meta(pattern) ==> roots_of(pattern, Seq::empty(), exists, working_dir) == seq![
            working_dir,
        ],
        !has_glob_meta(pattern) && 0 <= k < ancestor_chain(pattern).len() && k < exists.len()
            && exists[k] && (forall|i: int| 0 <= i < k ==> !(i < exists.len() && exists[i]))
            ==> roots_of(pattern, Seq::empty(), exists, working_dir) == seq![
            ancestor_chain(pattern)[k],
        ],
{
    if !has_glob_meta(pattern) && 0 <= k < ancestor_chain(pattern).len() && k < exists.len()
        && exists[k] && (forall|i: int| 0 <= i < k ==> !(i < exists.len() && exists[i])) {
        lemma_first_existing_at(ancestor_chain(pattern), exists, 0, k);
    }
}

proof fn lemma_parent_is_shorter(p: Seq<char>)
    ensures
        parent_of(p) is Some ==> parent_of(p)->Some_0.len() < p.len(),
{
    let t = trim_len(p, p.len() as int);
    lemma_trim_len(p, p.len() as int);
    lemma_parent_shorter(p, t);
    let i = last_slash(p, t);
    if i > 0 {
        lemma_trim_len(p, i);
    }
}

/// Whether a pattern holds one of the glob metacharacters `*`, `?` or `[`.
pub fn is_glob_pattern(p: &str) -> (r: bool)
    ensures
        r == has_glob_meta(p@),
{
    let n = p.unicode_len();
    let mut i: usize = 0;
    while i < n
        invariant
            n == p@.len(),
            i <= n,
            forall|j: int| 0 <= j < i ==> !is_glob_meta(#[trigger] p@[j]),
        decreases n - i,
    {
        let c = p.get_char(i);
        if c == '*' || c == '?' || c == '[' {
            return true;
        }
        i = i + 1;
    }
    false
}

/// The path without its last component.
pub fn parent_path(p: &str) -> (r: Option<String>)
    ensures
        match r {
            Some(q) => parent_of(p@) == Some(q@),
            None => parent_of(p@) is None,
        },
{
    let n = p.unicode_len();
    proof {
        lemma_trim_len(p@, n as int);
    }
    let mut t: usize = n;
    while t > 1 && p.get_char(t - 1) == '/'
        invariant
            n == p@.len(),
            t <= n,
            n >= 1 ==> t >= 1,
            trim_len(p@, n as int) == trim_len(p@, t as int),
        decreases t,
    {
        t = t - 1;
    }
    assert(trim_len(p@, t as int) == t);
    proof {
        lemma_parent_shorter(p@, t as int);
    }
    let mut i: usize = t;
    let mut found = false;
    while i > 0 && !found
        invariant
            n == p@.len(),
            t <= n,
            i <= t,
            found ==> i > 0 && p@[i - 1] == '/',
            last_slash(p@, t as int) == last_slash(p@, i as int),
        decreases i + (if found { 0int } else { 1int }),
    {
        if p.get_char(i - 1) == '/' {
            found = true;
        } else {
            i = i - 1;
        }
    }
    proof {
        if i > 0 {
            assert(last_slash(p@, i as int) == i - 1);
        }
    }
    if i == 0 || t <= 1 {
        return None;
    }
    let slash = i - 1;
    if slash == 0 {
        let root = String::from_str("/");
        proof {
            reveal_strlit("/");
            assert(root@ =~= seq!['/']);
        }
        Some(root)
    } else {
        proof {
            lemma_trim_len(p@, slash as int);
        }
        let mut u: usize = slash;
        while u > 1 && p.get_char(u - 1) == '/'
            invariant
                n == p@.len(),
                1 <= u <= slash,
                slash < n,
                trim_len(p@, slash as int) == trim_len(p@, u as int),
            decreases u,
        {
            u = u - 1;
        }
        assert(trim_len(p@, u as int) == u);
        let q = String::from_str(p.substring_char(0, u));
        assert(q@ =~= p@.take(u as int));
        Some(q)
    }
}

/// The path and each of its ancestors, nearest first.
pub fn ancestors(p: &str) -> (r: Vec<String>)
    ensures
        views(r@) == ancestor_chain(p@),
{
    let mut out: Vec<String> = Vec::new();
    let mut cur = String::from_str(p);
    loop
        invariant
            views(out@) + ancestor_chain(cur@) == ancestor_chain(p@),
        decreases cur@.len(),
    {
        let next = parent_path(cur.as_str());
        let ghost before = out@;
        match next {
            Some(q) => {
                proof {
                    lemma_parent_is_shorter(cur@);
                }
                out.push(cur);
                proof {
                    assert(views(out@) =~= views(before) + seq![views(out@).last()]);
                    assert(views(out@) + ancestor_chain(q@) =~= views(before) + ancestor_chain(
                        out@.last()@,
                    ));
                }
                cur = q;
            },
            None => {
                out.push(cur);
                proof {
                    assert(views(out@) =~= views(before) + seq![views(out@).last()]);
                    assert(views(out@) =~= views(before) + ancestor_chain(out@.last()@));
                }
                return out;
            },
        }
    }
}

fn first_existing_exec(chain: &Vec<String>, exists: &Vec<bool>) -> (r: Option<String>)
    ensures
        match r {
            Some(q) => first_existing(views(chain@), exists@, 0) == Some(q@),
            None => first_existing(views(chain@), exists@, 0) is None,
        },
{
    let mut k: usize = 0;
    while k < chain.len()
        invariant
            k <= chain@.len(),
            first_existing(views(chain@), exists@, 0) == first_existing(views(chain@), exists@, k as int),
        decreases chain@.len() - k,
    {
        if k < exists.len() && exists[k] {
            return Some(chain[k].clone());
        }
        k = k + 1;
    }
    None
}

/// The nearest of the path and its ancestors that exists, where `exists[k]`
/// tells whether the `k`-th entry of `ancestors(path)` exists; an entry without
/// a flag counts as missing.
pub fn nearest_existing(path: &str, exists: &Vec<bool>) -> (r: Option<String>)
    ensures
        match r {
            Some(q) => first_existing(ancestor_chain(path@), exists@, 0) == Some(q@),
            None => first_existing(ancestor_chain(path@), exists@, 0) is None,
        },
{
    let chain = ancestors(path);
    first_existing_exec(&chain, exists)
}

/// The paths to watch for one input pattern. `glob_matches` are the existing
/// paths a glob expanded to; `exists` flags the entries of `ancestors(pattern)`
/// for a literal path. Each argument serves only its kind of pattern.
pub fn pattern_roots(
    pattern: &str,
    glob_matches: Vec<String>,
    exists: &Vec<bool>,
    working_dir: &String,
) -> (r: Vec<String>)
    ensures
        views(r@) == roots_of(pattern@, views(glob_matches@), exists@, working_dir@),
{
    if is_glob_pattern(pattern) {
        if glob_matches.len() == 0 {
            let mut r: Vec<String> = Vec::new();
            r.push(working_dir.clone());
            assert(views(r@) =~= seq![working_dir@]);
            r
        } else {
            glob_matches
        }
    } else {
        let mut r: Vec<String> = Vec::new();
        match nearest_existing(pattern, exists) {
            Some(q) => {
                r.push(q);
                assert(views(r@) =~= seq![r@[0]@]);
            },
            None => {
                r.push(working_dir.clone());
                assert(views(r@) =~= seq![working_dir@]);
            },
        }
        r
    }
}

/// Whether `out` already holds a string equal to `s`.
pub(crate) fn holds(out: &Vec<String>, s: &String) -> (r: bool)
    ensures
        r == views(out@).contains(s@),
{
    let mut k: usize = 0;
    while k < out.len()
        invariant
            k <= out@.len(),
            forall|j: int| 0 <= j < k ==> out@[j]@ != s@,
        decreases out@.len() - k,
    {
        if out[k] == *s {
            assert(views(out@)[k as int] == s@);
            return true;
        }
        k = k + 1;
    }
    proof {
        if views(out@).contains(s@) {
            let j = choose|j: int| 0 <= j < views(out@).len() && views(out@)[j] == s@;
            assert(out@[j]@ == s@);
        }
    }
    false
}

/// Every path in any of the groups.
pub open spec fn union_of(groups: Seq<Seq<Seq<char>>>) -> Set<Seq<char>> {
    Set::new(|x: Seq<char>| exists|i: int, j: int| 0 <= i < groups.len() && 0 <= j < groups[i].len() && groups[i][j] == x)
}

/// Merges the roots of every pattern into one list without repeats. Only the
/// set of roots matters: the order in which the groups come changes nothing
/// but the order of the list.
pub fn merge_roots(groups: Vec<Vec<String>>) -> (r: Vec<String>)
    ensures
        views(r@).no_duplicates(),
        views(r@).to_set() == union_of(groups@.map_values(|g: Vec<String>| views(g@))),
{
    let ghost gv = groups@.map_values(|g: Vec<String>| views(g@));
    let mut out: Vec<String> = Vec::new();
    let mut i: usize = 0;
    while i < groups.len()
        invariant
            i <= groups@.len(),
            gv == groups@.map_values(|g: Vec<String>| views(g@)),
            views(out@).no_duplicates(),
            forall|x: Seq<char>| views(out@).contains(x) <==> exists|a: int, b: int|
                0 <= a < i && 0 <= b < gv[a].len() && gv[a][b] == x,
        decreases groups@.len() - i,
    {
        let group = &groups[i];
        let mut j: usize = 0;
        while j < group.len()
            invariant
                i < groups@.len(),
                group == &groups@[i as int],
                j <= group@.len(),
                gv == groups@.map_values(|g: Vec<String>| views(g@)),
                gv[i as int] == views(group@),
                views(out@).no_duplicates(),
                forall|x: Seq<char>| views(out@).contains(x) <==> (exists|a: int, b: int|
                    0 <= a < i && 0 <= b < gv[a].len() && gv[a][b] == x) || (exists|b: int|
                    0 <= b < j && gv[i as int][b] == x),
            decreases group@.len() - j,
        {
            let s = &group[j];
            let ghost before = views(out@);
            if !holds(&out, s) {
                out.push(s.clone());
                proof {
                    assert(views(out@) =~= before.push(s@));
                    assert forall|x: Seq<char>| views(out@).contains(x) <==> (exists|a: int, b: int|
                        0 <= a < i && 0 <= b < gv[a].len() && gv[a][b] == x) || (exists|b: int|
                        0 <= b < j + 1 && gv[i as int][b] == x) by {
                        if views(out@).contains(x) && x != s@ {
                            let k = choose|k: int| 0 <= k < views(out@).len() && views(out@)[k] == x;
                            assert(before[k] == x);
                        }
                        if x == s@ {
                            assert(views(out@)[before.len() as int] == x);
                            assert(gv[i as int][j as int] == x);
                        }
                        if before.contains(x) {
                            let k = choose|k: int| 0 <= k < before.len() && before[k] == x;
                            assert(views(out@)[k] == x);
                        }
                    }
                }
            } else {
                proof {
                    assert forall|x: Seq<char>| views(out@).contains(x) <==> (exists|a: int, b: int|
                        0 <= a < i && 0 <= b < gv[a].len() && gv[a][b] == x) || (exists|b: int|
                        0 <= b < j + 1 && gv[i as int][b] == x) by {
                        if x == s@ {
                            assert(gv[i as int][j as int] == x);
                        }
                    }
                }
            }
            j = j + 1;
        }
        i = i + 1;
    }
    proof {
        assert(views(out@).to_set() =~= union_of(gv));
    }
    out
}

/// Whether `path` is `root` or lies below it.
pub fn path_is_under(path: &str, root: &str) -> (r: bool)
    ensures
        r == is_under(path@, root@),
{
    let pn = path.unicode_len();
    let rn = root.unicode_len();
    if rn > pn {
        return false;
    }
    let mut k: usize = 0;
    while k < rn
        invariant
            pn == path@.len(),
            rn == root@.len(),
            rn <= pn,
            k <= rn,
            forall|j: int| 0 <= j < k ==> path@[j] == root@[j],
        decreases rn - k,
    {
        if path.get_char(k) != root.get_char(k) {
            proof {
                assert(path@ != root@ ==> path@.take(rn as int)[k as int] != root@[k as int]);
            }
            return false;
        }
        k = k + 1;
    }
    assert(path@.take(rn as int) =~= root@);
    if rn == pn {
        assert(path@ =~= root@);
        return true;
    }
    path.get_char(rn) == '/' || (rn > 0 && root.get_char(rn - 1) == '/')
}

} // verus!
