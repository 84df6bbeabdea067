use vstd::prelude::*;

verus! {

/// Whether a segment names a step down the tree: it is neither empty nor `.`.
pub open spec fn kept(seg: Seq<char>) -> bool {
    seg.len() > 0 && seg != seq!['.']
}

/// Whether a path is absolute: it begins with `/`.
pub open spec fn is_absolute(s: Seq<char>) -> bool {
    s.len() > 0 && s[0] == '/'
}

/// Splitting state after reading `s`: the finished kept segments, and the
/// segment still being read.
pub open spec fn split_state(s: Seq<char>) -> (Seq<Seq<char>>, Seq<char>)
    decreases s.len(),
{
    if s.len() == 0 {
        (Seq::empty(), Seq::empty())
    } else {
        let (done, cur) = split_state(s.drop_last());
        if s.last() == '/' {
            if kept(cur) {
                (done.push(cur), Seq::empty())
            } else {
                (done, Seq::empty())
            }
        } else {
            (done, cur.push(s.last()))
        }
    }
}

/// The components of a path: its `/`-separated segments other than empty ones
/// and `.`, in order.
pub open spec fn components(s: Seq<char>) -> Seq<Seq<char>> {
    let (done, cur) = split_state(s);
    if kept(cur) {
        done.push(cur)
    } else {
        done
    }
}

/// The canonical catalog path of a sequence of components: `/` for none,
/// otherwise `/c0/c1/.../cn`.
pub open spec fn join_path(cs: Seq<Seq<char>>) -> Seq<char>
    decreases cs.len(),
{
    if cs.len() == 0 {
        seq!['/']
    } else if cs.len() == 1 {
        seq!['/'] + cs[0]
    } else {
        join_path(cs.drop_last()) + seq!['/'] + cs.last()
    }
}

/// The canonical form of a path.
pub open spec fn canonical(s: Seq<char>) -> Seq<char> {
    join_path(components(s))
}

/// The contents of a sequence of strings.
pub open spec fn views_of(v: Seq<String>) -> Seq<Seq<char>> {
    v.map_values(|x: String| x@)
}

/// Whether the segment `s[start..end]` is kept as a component.
fn keep_segment(s: &str, start: usize, end: usize) -> (r: bool)
    requires
        start <= end <= s@.len(),
    ensures
        r == kept(s@.subrange(start as int, end as int)),
{
    if end == start {
        return false;
    }
    if end == start + 1 {
        let c = s.get_char(start);
        let ghost seg = s@.subrange(start as int, end as int);
        assert(seg[0] == c);
        if c == '.' {
            assert(seg =~= seq!['.']);
            return false;
        }
        assert(seg[0] != seq!['.'][0]);
    }
    true
}

/// Splits a path into its components.
pub fn split_components(s: &str) -> (r: Vec<String>)
    ensures
        views_of(r@) == components(s@),
{
    let n = s.unicode_len();
    let mut done: Vec<String> = Vec::new();
    let mut start: usize = 0;
    let mut i: usize = 0;
    while i < n
        invariant
            n == s@.len(),
            start <= i <= n,
            split_state(s@.take(i as int)) == (views_of(done@), s@.subrange(start as int, i as int)),
        decreases n - i,
    {
        let c = s.get_char(i);
        proof {
            assert(s@.take(i + 1).drop_last() =~= s@.take(i as int));
            assert(s@.take(i + 1).last() == c);
        }
        if c == '/' {
            if keep_segment(s, start, i) {
                let part = s.substring_char(start, i).to_owned();
                let ghost before = done@;
                done.push(part);
                assert(views_of(done@) =~= views_of(before).push(part@));
            }
            start = i + 1;
            assert(s@.subrange(start as int, i + 1) =~= Seq::<char>::empty());
        } else {
            assert(s@.subrange(start as int, i + 1) =~= s@.subrange(start as int, i as int).push(c));
        }
        i = i + 1;
    }
    assert(s@.take(n as int) =~= s@);
    if keep_segment(s, start, n) {
        let part = s.substring_char(start, n).to_owned();
        let ghost before = done@;
        done.push(part);
        assert(views_of(done@) =~= views_of(before).push(part@));
    }
    done
}

/// Joins components into a canonical catalog path.
pub fn join_components(cs: &[String]) -> (r: String)
    ensures
        r@ == join_path(views_of(cs@)),
{
    let mut r = String::from_str("/");
    proof {
        reveal_strlit("/");
    }
    if cs.len() == 0 {
        assert(views_of(cs@) =~= Seq::<Seq<char>>::empty());
        return r;
    }
    r.append(cs[0].as_str());
    assert(views_of(cs@).take(1).drop_last() =~= Seq::<Seq<char>>::empty());
    let mut i: usize = 1;
    while i < cs.len()
        invariant
            1 <= i <= cs@.len(),
            r@ == join_path(views_of(cs@).take(i as int)),
        decreases cs@.len() - i,
    {
        r.append("/");
        r.append(cs[i].as_str());
        proof {
            reveal_strlit("/");
            let t = views_of(cs@).take(i + 1);
            assert(t.drop_last() =~= views_of(cs@).take(i as int));
            assert(t.last() == cs@[i as int]@);
        }
        i = i + 1;
    }
    assert(views_of(cs@).take(cs@.len() as int) =~= views_of(cs@));
    r
}

/// Errors of turning a filesystem path into a catalog path.
#[derive(Debug, Clone, Copy, PartialEq, Eq, Structural)]
pub enum PathError {
    /// The path does not lie under the configured root.
    OutsideRoot,
}

/// Whether the components `pre` begin the components `cs`.
pub open spec fn starts_with(cs: Seq<Seq<char>>, pre: Seq<Seq<char>>) -> bool {
    pre.len() <= cs.len() && cs.take(pre.len() as int) == pre
}

/// Whether `file_path` lies under `root`: both are absolute or both relative,
/// and the components of `root` begin those of `file_path`.
pub open spec fn under_root(file_path: Seq<char>, root: Seq<char>) -> bool {
    is_absolute(file_path) == is_absolute(root) && starts_with(components(file_path), components(root))
}

/// Whether a path begins with `/`.
fn absolute(s: &str) -> (r: bool)
    ensures
        r == is_absolute(s@),
{
    s.unicode_len() > 0 && s.get_char(0) == '/'
}

/// The canonical catalog path of `file_path`, a path under `root`: the
/// components that follow those of `root`, rooted at `/`.
pub open spec fn relative_canonical(file_path: Seq<char>, root: Seq<char>) -> Seq<char> {
    join_path(components(file_path).skip(components(root).len() as int))
}

/// Whether two strings hold the same characters.
fn same_text(a: &String, b: &String) -> (r: bool)
    ensures
        r == (a@ == b@),
{
    a.eq(b)
}

/// Turns a filesystem path under `storage_dir` into a canonical catalog path.
/// The comparison is by whole components, skipping `.`, and an absolute path
/// never lies under a relative root nor the reverse.
pub fn strip_storage_dir(file_path: &str, storage_dir: &str) -> (r: Result<String, PathError>)
    ensures
        under_root(file_path@, storage_dir@) ==> r == Ok::<String, PathError>(r->Ok_0)
            && r->Ok_0@ == relative_canonical(file_path@, storage_dir@),
        !under_root(file_path@, storage_dir@) ==> r == Err::<String, PathError>(PathError::OutsideRoot),
{
    if absolute(file_path) != absolute(storage_dir) {
        return Err(PathError::OutsideRoot);
    }
    let mut fp = split_components(file_path);
    let root = split_components(storage_dir);
    let ghost f = views_of(fp@);
    let ghost rt = views_of(root@);
    if root.len() > fp.len() {
        return Err(PathError::OutsideRoot);
    }
    let mut i: usize = 0;
    while i < root.len()
        invariant
            root@.len() <= fp@.len(),
            i <= root@.len(),
            f == views_of(fp@),
            rt == views_of(root@),
            f == components(file_path@),
            rt == components(storage_dir@),
            forall|k: int| 0 <= k < i ==> f[k] == rt[k],
        decreases root@.len() - i,
    {
        if !same_text(&fp[i], &root[i]) {
            assert(f[i as int] != rt[i as int]);
            assert(f.take(rt.len() as int)[i as int] == f[i as int]);
            assert(f.take(rt.len() as int) != rt);
            return Err(PathError::OutsideRoot);
        }
        i = i + 1;
    }
    assert(f.take(rt.len() as int) =~= rt);
    let ghost all = fp@;
    let tail = fp.split_off(root.len());
    assert(views_of(tail@) =~= f.skip(rt.len() as int));
    let rest = join_components(tail.as_slice());
    Ok(rest)
}

/// The filesystem path of a catalog path: the storage directory followed by the
/// path's components.
pub fn normalize_path(file_path: &str, storage_dir: &str) -> (r: String)
    ensures
        r@ == storage_dir@ + canonical(file_path@),
{
    let cs = split_components(file_path);
    let rel = join_components(cs.as_slice());
    let r = String::from_str(storage_dir).concat(rel.as_str());
    r
}

} // verus!
