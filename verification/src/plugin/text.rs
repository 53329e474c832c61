use vstd::prelude::*;

verus! {

/// Whether two texts hold the same characters.
pub fn same_text(a: &str, b: &str) -> (r: bool)
    ensures
        r == (a@ == b@),
{
    let n = a.unicode_len();
    let m = b.unicode_len();
    if n != m {
        return false;
    }
    let mut i: usize = 0;
    while i < n
        invariant
            n == a@.len(),
            m == b@.len(),
            n == m,
            i <= n,
            forall|k: int| 0 <= k < i ==> a@[k] == b@[k],
        decreases n - i,
    {
        if a.get_char(i) != b.get_char(i) {
            return false;
        }
        i = i + 1;
    }
    assert(a@ =~= b@);
    true
}

/// `a` comes strictly before `b` in lexicographic order of their characters,
/// the order of `str` (UTF-8 byte order and code point order agree).
pub open spec fn text_less(a: Seq<char>, b: Seq<char>) -> bool {
    exists|i: int|
        0 <= i <= a.len() && i <= b.len() && a.take(i) == b.take(i) && ((i < a.len() && i
            < b.len() && (a[i] as u32) < (b[i] as u32)) || (i == a.len() && i < b.len()))
}

/// No text sorts before itself, and of two texts at most one sorts first.
pub proof fn lemma_text_less_asymmetric(a: Seq<char>, b: Seq<char>)
    ensures
        !(text_less(a, b) && text_less(b, a)),
{
    if text_less(a, b) && text_less(b, a) {
        let i = choose|i: int|
            0 <= i <= a.len() && i <= b.len() && a.take(i) == b.take(i) && ((i < a.len() && i
                < b.len() && (a[i] as u32) < (b[i] as u32)) || (i == a.len() && i < b.len()));
        let j = choose|j: int|
            0 <= j <= b.len() && j <= a.len() && b.take(j) == a.take(j) && ((j < b.len() && j
                < a.len() && (b[j] as u32) < (a[j] as u32)) || (j == b.len() && j < a.len()));
        if i < j {
            assert(a.take(j)[i] == b.take(j)[i]);
        } else if j < i {
            assert(a.take(i)[j] == b.take(i)[j]);
        }
    }
}

/// Sorting before is transitive.
pub proof fn lemma_text_less_transitive(a: Seq<char>, b: Seq<char>, c: Seq<char>)
    requires
        text_less(a, b),
        text_less(b, c),
    ensures
        text_less(a, c),
{
    let i = choose|i: int|
        0 <= i <= a.len() && i <= b.len() && a.take(i) == b.take(i) && ((i < a.len() && i
            < b.len() && (a[i] as u32) < (b[i] as u32)) || (i == a.len() && i < b.len()));
    let j = choose|j: int|
        0 <= j <= b.len() && j <= c.len() && b.take(j) == c.take(j) && ((j < b.len() && j
            < c.len() && (b[j] as u32) < (c[j] as u32)) || (j == b.len() && j < c.len()));
    if i <= j {
        assert(a.take(i) =~= c.take(i)) by {
            assert forall|k: int| 0 <= k < i implies a.take(i)[k] == c.take(i)[k] by {
                assert(a.take(i)[k] == b.take(i)[k]);
                assert(b.take(j)[k] == c.take(j)[k]);
            }
        }
        if i < j && i < b.len() {
            assert(b.take(j)[i] == c.take(j)[i]);
        }
        assert(0 <= i <= a.len() && i <= c.len() && a.take(i) == c.take(i) && ((i < a.len() && i
            < c.len() && (a[i] as u32) < (c[i] as u32)) || (i == a.len() && i < c.len())));
    } else {
        assert(a.take(j) =~= c.take(j)) by {
            assert forall|k: int| 0 <= k < j implies a.take(j)[k] == c.take(j)[k] by {
                assert(a.take(i)[k] == b.take(i)[k]);
                assert(b.take(j)[k] == c.take(j)[k]);
            }
        }
        assert(a.take(i)[j] == b.take(i)[j]);
        assert(0 <= j <= a.len() && j <= c.len() && a.take(j) == c.take(j) && ((j < a.len() && j
            < c.len() && (a[j] as u32) < (c[j] as u32)) || (j == a.len() && j < c.len())));
    }
}

/// Two texts that agree on their first `i` characters are equal or one sorts
/// before the other.
proof fn lemma_text_less_total_from(a: Seq<char>, b: Seq<char>, i: int)
    requires
        0 <= i <= a.len(),
        i <= b.len(),
        a.take(i) == b.take(i),
    ensures
        a == b || text_less(a, b) || text_less(b, a),
    decreases a.len() - i,
{
    if i == a.len() || i == b.len() {
        if i == a.len() && i == b.len() {
            assert(a =~= a.take(i));
            assert(b =~= b.take(i));
        } else if i == a.len() {
            assert(text_less(a, b));
        } else {
            assert(b.take(i) == a.take(i));
            assert(text_less(b, a));
        }
    } else if a[i] != b[i] {
        vstd::utf8::char_u32_cast(a[i], a[i] as u32);
        vstd::utf8::char_u32_cast(b[i], b[i] as u32);
        if (a[i] as u32) < (b[i] as u32) {
            assert(text_less(a, b));
        } else {
            assert(b.take(i) == a.take(i));
            assert((b[i] as u32) < (a[i] as u32));
            assert(text_less(b, a));
        }
    } else {
        assert(a.take(i + 1) =~= a.take(i).push(a[i]));
        assert(b.take(i + 1) =~= b.take(i).push(b[i]));
        lemma_text_less_total_from(a, b, i + 1);
    }
}

/// Of two different texts, one sorts before the other.
pub proof fn lemma_text_less_total(a: Seq<char>, b: Seq<char>)
    ensures
        a == b || text_less(a, b) || text_less(b, a),
{
    assert(a.take(0) =~= b.take(0));
    lemma_text_less_total_from(a, b, 0);
}

/// Whether `a` sorts strictly before `b`.
pub fn less_text(a: &str, b: &str) -> (r: bool)
    ensures
        r == text_less(a@, b@),
{
    let n = a.unicode_len();
    let m = b.unicode_len();
    let mut i: usize = 0;
    while i < n && i < m
        invariant
            n == a@.len(),
            m == b@.len(),
            i <= n,
            i <= m,
            a@.take(i as int) == b@.take(i as int),
        decreases n - i,
    {
        let x = a.get_char(i);
        let y = b.get_char(i);
        if x != y {
            proof {
                let w = i as int;
                if (x as u32) < (y as u32) {
                    assert(text_less(a@, b@));
                } else {
                    assert forall|j: int|
                        0 <= j <= a@.len() && j <= b@.len() && a@.take(j) == b@.take(j) implies !((j
                        < a@.len() && j < b@.len() && (a@[j] as u32) < (b@[j] as u32)) || (j
                        == a@.len() && j < b@.len())) by {
                        if j < w {
                            assert(a@.take(w)[j] == b@.take(w)[j]);
                        } else if j > w {
                            assert(a@.take(j)[w] == b@.take(j)[w]);
                        }
                    }
                }
            }
            return (x as u32) < (y as u32);
        }
        proof {
            assert(a@.take(i + 1) =~= a@.take(i as int).push(x));
            assert(b@.take(i + 1) =~= b@.take(i as int).push(y));
        }
        i = i + 1;
    }
    proof {
        let w = i as int;
        if n < m {
            assert(text_less(a@, b@));
        } else {
            assert forall|j: int|
                0 <= j <= a@.len() && j <= b@.len() && a@.take(j) == b@.take(j) implies !((j
                < a@.len() && j < b@.len() && (a@[j] as u32) < (b@[j] as u32)) || (j == a@.len()
                && j < b@.len())) by {
                if j < w {
                    assert(a@.take(w)[j] == b@.take(w)[j]);
                }
            }
        }
    }
    n < m
}

/// The characters of `a` followed by those of `b`.
pub fn concat_text(a: &str, b: &str) -> (r: String)
    ensures
        r@ == a@ + b@,
{
    let mut r = String::from_str(a);
    r.append(b);
    r
}

/// A segment between separators that names a path component: not empty and
/// not the current-directory mark `.`.
pub open spec fn kept_segment(seg: Seq<char>) -> bool {
    seg.len() > 0 && seg != seq!['.']
}

/// Reading a path left to right: the components completed so far, and the
/// segment after the last separator.
pub open spec fn scan_segments(p: Seq<char>) -> (Seq<Seq<char>>, Seq<char>)
    decreases p.len(),
{
    if p.len() == 0 {
        (Seq::empty(), Seq::empty())
    } else {
        let (done, cur) = scan_segments(p.drop_last());
        if p.last() == '/' {
            (if kept_segment(cur) {
                done.push(cur)
            } else {
                done
            }, Seq::empty())
        } else {
            (done, cur.push(p.last()))
        }
    }
}

/// The named components of a path: its segments between `/` separators, with
/// empty segments and `.` segments left out.
pub open spec fn named_components(p: Seq<char>) -> Seq<Seq<char>> {
    let (done, cur) = scan_segments(p);
    if kept_segment(cur) {
        done.push(cur)
    } else {
        done
    }
}

/// The components of a Unix path as `std::path::Path::components` yields
/// them: the root `/` for an absolute path, a leading `.` for a relative path
/// that starts with `./` or is `.`, then the named components.
pub open spec fn path_components(p: Seq<char>) -> Seq<Seq<char>> {
    let root: Seq<Seq<char>> = if p.len() > 0 && p[0] == '/' {
        seq![seq!['/']]
    } else {
        Seq::empty()
    };
    let cur_dir: Seq<Seq<char>> = if p.len() > 0 && p[0] == '.' && (p.len() == 1 || p[1] == '/') {
        seq![seq!['.']]
    } else {
        Seq::empty()
    };
    root + cur_dir + named_components(p)
}

/// `base` names a directory that holds `path` or is `path`: the components of
/// `base` are a prefix of those of `path`, as `Path::starts_with` decides.
pub open spec fn path_within(path: Seq<char>, base: Seq<char>) -> bool {
    path_components(base).is_prefix_of(path_components(path))
}

fn is_kept_segment(seg: &str) -> (r: bool)
    ensures
        r == kept_segment(seg@),
{
    let n = seg.unicode_len();
    if n == 0 {
        false
    } else if n == 1 && seg.get_char(0) == '.' {
        assert(seg@ =~= seq!['.']);
        false
    } else {
        if n == 1 {
            assert(seg@[0] != '.');
        }
        true
    }
}

/// The components of a Unix path, each as its own text.
pub fn components(p: &str) -> (r: Vec<String>)
    ensures
        r@.map_values(|c: String| c@) == path_components(p@),
{
    let n = p.unicode_len();
    let mut r: Vec<String> = Vec::new();
    proof {
        reveal_strlit("/");
        reveal_strlit(".");
    }
    let rooted = n > 0 && p.get_char(0) == '/';
    if rooted {
        r.push(String::from_str("/"));
    }
    let dotted = n > 0 && p.get_char(0) == '.' && (n == 1 || p.get_char(1) == '/');
    if dotted {
        r.push(String::from_str("."));
    }
    let ghost prefix = r@.map_values(|c: String| c@);
    proof {
        let root: Seq<Seq<char>> = if p@.len() > 0 && p@[0] == '/' {
            seq![seq!['/']]
        } else {
            Seq::empty()
        };
        let cur_dir: Seq<Seq<char>> = if p@.len() > 0 && p@[0] == '.' && (p@.len() == 1 || p@[1]
            == '/') {
            seq![seq!['.']]
        } else {
            Seq::empty()
        };
        assert(rooted == (p@.len() > 0 && p@[0] == '/'));
        assert(!(rooted && dotted));
        if rooted {
            assert(r@.len() == 1);
            assert(r@[0]@ == seq!['/']);
        } else if dotted {
            assert(r@.len() == 1);
            assert(r@[0]@ == seq!['.']);
        }
        assert(prefix =~= root + cur_dir);
        assert(p@.take(0) =~= Seq::<char>::empty());
    }
    let mut start: usize = 0;
    let mut i: usize = 0;
    while i < n
        invariant
            n == p@.len(),
            start <= i <= n,
            r@.map_values(|c: String| c@) == prefix + scan_segments(p@.take(i as int)).0,
            scan_segments(p@.take(i as int)).1 == p@.subrange(start as int, i as int),
        decreases n - i,
    {
        let c = p.get_char(i);
        proof {
            assert(p@.take(i + 1).drop_last() =~= p@.take(i as int));
            assert(p@.take(i + 1).last() == c);
        }
        if c == '/' {
            let seg = p.substring_char(start, i);
            if is_kept_segment(seg) {
                let ghost before = r@;
                r.push(String::from_str(seg));
                proof {
                    assert(r@.map_values(|c: String| c@) =~= before.map_values(|c: String| c@).push(
                        seg@,
                    ));
                }
            }
            start = i + 1;
            proof {
                assert(p@.subrange(start as int, i + 1) =~= Seq::<char>::empty());
            }
        } else {
            proof {
                assert(p@.subrange(start as int, i + 1) =~= p@.subrange(start as int, i as int).push(
                    c,
                ));
            }
        }
        i = i + 1;
    }
    proof {
        assert(p@.take(n as int) =~= p@);
    }
    let last = p.substring_char(start, n);
    if is_kept_segment(last) {
        let ghost before = r@;
        r.push(String::from_str(last));
        proof {
            assert(r@.map_values(|c: String| c@) =~= before.map_values(|c: String| c@).push(
                last@,
            ));
        }
    }
    proof {
        assert((prefix + scan_segments(p@).0).push(last@) =~= prefix + scan_segments(p@).0.push(
            last@,
        ));
    }
    r
}

/// Whether `path` lies within `base`, component by component.
pub fn starts_with_path(path: &str, base: &str) -> (r: bool)
    ensures
        r == path_within(path@, base@),
{
    let pc = components(path);
    let bc = components(base);
    components_prefix(&bc, &pc)
}

/// Whether the components `bc` begin the components `pc`.
fn components_prefix(bc: &Vec<String>, pc: &Vec<String>) -> (r: bool)
    ensures
        r == bc@.map_values(|c: String| c@).is_prefix_of(pc@.map_values(|c: String| c@)),
{
    let ghost pv = pc@.map_values(|c: String| c@);
    let ghost bv = bc@.map_values(|c: String| c@);
    if bc.len() > pc.len() {
        return false;
    }
    let mut i: usize = 0;
    while i < bc.len()
        invariant
            pv == pc@.map_values(|c: String| c@),
            bv == bc@.map_values(|c: String| c@),
            pv.len() == pc@.len(),
            bv.len() == bc@.len(),
            bc@.len() <= pc@.len(),
            i <= bc@.len(),
            forall|j: int| 0 <= j < i ==> bv[j] == pv[j],
        decreases bc.len() - i,
    {
        if !same_text(pc[i].as_str(), bc[i].as_str()) {
            proof {
                assert(pv[i as int] == pc@[i as int]@);
                assert(bv[i as int] == bc@[i as int]@);
            }
            return false;
        }
        proof {
            assert(pv[i as int] == pc@[i as int]@);
            assert(bv[i as int] == bc@[i as int]@);
        }
        i = i + 1;
    }
    proof {
        assert(bv =~= pv.subrange(0, bv.len() as int));
    }
    true
}

/// Whether a component names a directory entry (not the root, `.` or `..`).
fn is_name_text(c: &str) -> (r: bool)
    ensures
        r == is_name_component(c@),
{
    proof {
        reveal_strlit("/");
        reveal_strlit(".");
        reveal_strlit("..");
        assert("/"@ =~= seq!['/']);
        assert("."@ =~= seq!['.']);
        assert(".."@ =~= seq!['.', '.']);
    }
    !(same_text(c, "/") || same_text(c, ".") || same_text(c, ".."))
}

/// The components with `..` resolved lexically.
fn resolve_components(cs: &Vec<String>) -> (r: Vec<String>)
    ensures
        r@.map_values(|c: String| c@) == resolved_components(cs@.map_values(|c: String| c@)),
{
    let ghost cv = cs@.map_values(|c: String| c@);
    let mut out: Vec<String> = Vec::new();
    let n = cs.len();
    let mut i: usize = 0;
    proof {
        reveal_strlit("/");
        reveal_strlit("..");
        assert("/"@ =~= seq!['/']);
        assert(".."@ =~= seq!['.', '.']);
        assert(cv.take(0) =~= Seq::<Seq<char>>::empty());
        assert(out@.map_values(|c: String| c@) =~= Seq::<Seq<char>>::empty());
    }
    while i < n
        invariant
            n == cs@.len(),
            i <= n,
            cv == cs@.map_values(|c: String| c@),
            "/"@ == seq!['/'],
            ".."@ == seq!['.', '.'],
            out@.map_values(|c: String| c@) == resolved_components(cv.take(i as int)),
        decreases n - i,
    {
        let c = &cs[i];
        let ghost before = out@.map_values(|c: String| c@);
        proof {
            assert(cv.take(i + 1).drop_last() =~= cv.take(i as int));
            assert(cv.take(i + 1).last() == c@);
        }
        if same_text(c.as_str(), "..") {
            let m = out.len();
            if m > 0 && is_name_text(out[m - 1].as_str()) {
                proof {
                    assert(before.last() == out@[m - 1]@);
                }
                out.pop();
                proof {
                    assert(out@.map_values(|c: String| c@) =~= before.drop_last());
                }
            } else if m > 0 && same_text(out[m - 1].as_str(), "/") {
                proof {
                    assert(before.last() == out@[m - 1]@);
                }
            } else {
                proof {
                    if m > 0 {
                        assert(before.last() == out@[m - 1]@);
                    }
                }
                out.push(c.clone());
                proof {
                    assert(out@.map_values(|c: String| c@) =~= before.push(c@));
                }
            }
        } else {
            out.push(c.clone());
            proof {
                assert(out@.map_values(|c: String| c@) =~= before.push(c@));
            }
        }
        i = i + 1;
    }
    proof {
        assert(cv.take(n as int) =~= cv);
    }
    out
}

/// Whether `path` lies within `base` once `..` is resolved lexically in both.
pub fn starts_with_resolved_path(path: &str, base: &str) -> (r: bool)
    ensures
        r == path_within_resolved(path@, base@),
{
    let pc = resolve_components(&components(path));
    let bc = resolve_components(&components(base));
    components_prefix(&bc, &pc)
}

/// `base` joined with `rest` as `PathBuf::push` does on Unix: an absolute
/// `rest` replaces `base`; otherwise a `/` is put between them unless `base`
/// is empty or already ends with one.
pub open spec fn joined_path(base: Seq<char>, rest: Seq<char>) -> Seq<char> {
    if rest.len() > 0 && rest[0] == '/' {
        rest
    } else if base.len() > 0 && base.last() != '/' {
        base + seq!['/'] + rest
    } else {
        base + rest
    }
}

/// Reading `p`, which ends at a separator, and then `q`: the components of
/// `q` come after those of `p`.
proof fn lemma_scan_append(p: Seq<char>, q: Seq<char>)
    requires
        scan_segments(p).1.len() == 0,
    ensures
        scan_segments(p + q) == (scan_segments(p).0 + scan_segments(q).0, scan_segments(q).1),
    decreases q.len(),
{
    if q.len() == 0 {
        assert(p + q =~= p);
        assert(scan_segments(p).0 + scan_segments(q).0 =~= scan_segments(p).0);
        assert(scan_segments(p).1 =~= scan_segments(q).1);
    } else {
        lemma_scan_append(p, q.drop_last());
        assert((p + q).drop_last() =~= p + q.drop_last());
        assert((p + q).last() == q.last());
        let (dp, _) = scan_segments(p);
        let (dq, cq) = scan_segments(q.drop_last());
        assert((dp + dq).push(cq) =~= dp + dq.push(cq));
    }
}

/// The components of `base + rest`, when `base` is not empty and ends at a
/// separator (or is followed by one), start with those of `base`.
proof fn lemma_components_extend(base: Seq<char>, p: Seq<char>, rest: Seq<char>)
    requires
        base.len() > 0,
        p.len() > base.len(),
        p.take(base.len() as int) == base,
        p.len() > 1,
        base.len() == 1 ==> (p[1] == '/' || base[0] == '/'),
        scan_segments(p.take(p.len() - rest.len())).1.len() == 0,
        named_components(p.take(p.len() - rest.len())) == named_components(base),
        p.skip(p.len() - rest.len()) == rest,
        p.len() >= rest.len(),
    ensures
        path_components(p) == path_components(base) + named_components(rest),
{
    let head = p.take(p.len() - rest.len());
    assert(p =~= head + rest);
    lemma_scan_append(head, rest);
    assert(p[0] == base[0]);
    if base.len() > 1 {
        assert(p[1] == base[1]);
    }
    let root: Seq<Seq<char>> = if base[0] == '/' { seq![seq!['/']] } else { Seq::empty() };
    let cur: Seq<Seq<char>> = if base[0] == '.' && (base.len() == 1 || base[1] == '/') {
        seq![seq!['.']]
    } else {
        Seq::empty()
    };
    let nb = named_components(base);
    let (d, c) = scan_segments(p);
    assert(d == scan_segments(head).0 + scan_segments(rest).0);
    assert(scan_segments(head).0 == nb) by {
        assert(!kept_segment(scan_segments(head).1));
    }
    let np = named_components(p);
    assert(np =~= nb + named_components(rest)) by {
        if kept_segment(c) {
            assert(np =~= nb + scan_segments(rest).0.push(c));
        } else {
            assert(np =~= nb + scan_segments(rest).0);
        }
    }
    assert(path_components(base) =~= root + cur + nb);
    assert(path_components(p) =~= root + cur + np);
    assert(path_components(p) =~= path_components(base) + named_components(rest));
}

/// The components named by a path never include the empty text or `.`.
proof fn lemma_named_components_kept(p: Seq<char>)
    ensures
        forall|i: int|
            0 <= i < named_components(p).len() ==> kept_segment(#[trigger] named_components(p)[i]),
{
    lemma_scan_kept(p);
}

proof fn lemma_scan_kept(p: Seq<char>)
    ensures
        forall|i: int|
            0 <= i < scan_segments(p).0.len() ==> kept_segment(#[trigger] scan_segments(p).0[i]),
    decreases p.len(),
{
    if p.len() > 0 {
        lemma_scan_kept(p.drop_last());
        let (d, c) = scan_segments(p.drop_last());
        if p.last() == '/' && kept_segment(c) {
            assert forall|i: int| 0 <= i < d.push(c).len() implies kept_segment(
                #[trigger] d.push(c)[i],
            ) by {
                if i < d.len() {
                    assert(d.push(c)[i] == d[i]);
                }
            }
        }
    }
}

/// A path component that names a directory entry: not the root, `.` or `..`.
pub open spec fn is_name_component(c: Seq<char>) -> bool {
    c != seq!['/'] && c != seq!['.'] && c != seq!['.', '.']
}

/// Path components with `..` resolved lexically: a `..` takes away the name
/// before it, is dropped right after the root (the root is its own parent),
/// and is kept otherwise.
pub open spec fn resolved_components(cs: Seq<Seq<char>>) -> Seq<Seq<char>>
    decreases cs.len(),
{
    if cs.len() == 0 {
        cs
    } else {
        let r = resolved_components(cs.drop_last());
        let c = cs.last();
        if c == seq!['.', '.'] {
            if r.len() > 0 && is_name_component(r.last()) {
                r.drop_last()
            } else if r.len() > 0 && r.last() == seq!['/'] {
                r
            } else {
                r.push(c)
            }
        } else {
            r.push(c)
        }
    }
}

/// `base` names a directory that holds `path` or is `path`, once `..` is
/// resolved lexically in both (links are not followed).
pub open spec fn path_within_resolved(path: Seq<char>, base: Seq<char>) -> bool {
    resolved_components(path_components(base)).is_prefix_of(
        resolved_components(path_components(path)),
    )
}

/// Components without `..` added after others stay as they are.
proof fn lemma_resolved_append(a: Seq<Seq<char>>, b: Seq<Seq<char>>)
    requires
        forall|i: int| 0 <= i < b.len() ==> #[trigger] b[i] != seq!['.', '.'],
    ensures
        resolved_components(a + b) == resolved_components(a) + b,
    decreases b.len(),
{
    if b.len() == 0 {
        assert(a + b =~= a);
        assert(resolved_components(a) + b =~= resolved_components(a));
    } else {
        assert((a + b).drop_last() =~= a + b.drop_last());
        assert((a + b).last() == b.last());
        assert(b[b.len() - 1] != seq!['.', '.']);
        lemma_resolved_append(a, b.drop_last());
        assert((resolved_components(a) + b.drop_last()).push(b.last()) =~= resolved_components(a)
            + b);
    }
}

/// Components without `..` are their own resolution.
proof fn lemma_resolved_plain(cs: Seq<Seq<char>>)
    requires
        !cs.contains(seq!['.', '.']),
    ensures
        resolved_components(cs) == cs,
{
    assert forall|i: int| 0 <= i < cs.len() implies #[trigger] cs[i] != seq!['.', '.'] by {
        if cs[i] == seq!['.', '.'] {
            assert(cs.contains(cs[i]));
        }
    }
    lemma_resolved_append(Seq::empty(), cs);
    assert(Seq::<Seq<char>>::empty() + cs =~= cs);
    assert(resolved_components(Seq::<Seq<char>>::empty()) + cs =~= cs);
}

/// Where neither path has a `..` component, resolving changes nothing: a
/// path lies within a directory exactly when its components begin with the
/// directory's, whole component by whole component.
pub proof fn lemma_within_without_parent(path: Seq<char>, base: Seq<char>)
    requires
        !path_components(path).contains(seq!['.', '.']),
        !path_components(base).contains(seq!['.', '.']),
    ensures
        path_within_resolved(path, base) == path_within(path, base),
{
    lemma_resolved_plain(path_components(path));
    lemma_resolved_plain(path_components(base));
}

/// A relative path without `..` joined onto a directory lies within that
/// directory.
pub proof fn lemma_joined_path_within(base: Seq<char>, rest: Seq<char>)
    requires
        !(rest.len() > 0 && rest[0] == '/'),
        !named_components(rest).contains(seq!['.', '.']),
    ensures
        path_within_resolved(joined_path(base, rest), base),
{
    let j = joined_path(base, rest);
    let nr = named_components(rest);
    lemma_named_components_kept(rest);
    assert forall|i: int| 0 <= i < nr.len() implies #[trigger] nr[i] != seq!['.', '.'] by {
        if nr[i] == seq!['.', '.'] {
            assert(nr.contains(nr[i]));
        }
    }
    let rb = resolved_components(path_components(base));
    if base.len() == 0 {
        assert(scan_segments(base).0.len() == 0);
        assert(path_components(base).len() == 0);
        assert(rb.len() == 0);
    } else if base.last() != '/' {
        let head = base.push('/');
        assert(j =~= head + rest);
        assert(head.drop_last() =~= base);
        assert(j.take(base.len() as int) =~= base);
        assert(j.take(j.len() - rest.len()) =~= head);
        assert(j.skip(j.len() - rest.len()) =~= rest);
        assert(j[base.len() as int] == '/');
        lemma_components_extend(base, j, rest);
        lemma_resolved_append(path_components(base), nr);
        assert(rb =~= (rb + nr).subrange(0, rb.len() as int));
    } else {
        assert(j =~= base + rest);
        assert(base.len() == 1 ==> base[0] == '/');
        if rest.len() == 0 {
            assert(j =~= base);
            assert(rb =~= rb.subrange(0, rb.len() as int));
        } else {
            assert(j.take(base.len() as int) =~= base);
            assert(j.take(j.len() - rest.len()) =~= base);
            assert(j.skip(j.len() - rest.len()) =~= rest);
            assert(base.drop_last().push(base.last()) =~= base);
            lemma_components_extend(base, j, rest);
            lemma_resolved_append(path_components(base), nr);
            assert(rb =~= (rb + nr).subrange(0, rb.len() as int));
        }
    }
}

/// The path `base` joined with `rest`.
pub fn join_path(base: &str, rest: &str) -> (r: String)
    ensures
        r@ == joined_path(base@, rest@),
{
    let n = base.unicode_len();
    let m = rest.unicode_len();
    if m > 0 && rest.get_char(0) == '/' {
        return String::from_str(rest);
    }
    if n > 0 && base.get_char(n - 1) != '/' {
        let mut r = String::from_str(base);
        r.append("/");
        r.append(rest);
        proof {
            reveal_strlit("/");
        }
        r
    } else {
        concat_text(base, rest)
    }
}

/// The text after the last `/` of `s` (all of `s` when it has none): the first
/// item that `str::rsplit('/')` yields.
pub open spec fn after_last_slash(s: Seq<char>) -> Seq<char>
    decreases s.len(),
{
    if s.len() == 0 {
        s
    } else if s.last() == '/' {
        Seq::empty()
    } else {
        after_last_slash(s.drop_last()).push(s.last())
    }
}

/// `s` ends with `suffix`.
pub open spec fn ends_with(s: Seq<char>, suffix: Seq<char>) -> bool {
    suffix.len() <= s.len() && s.subrange(s.len() - suffix.len(), s.len() as int) == suffix
}

/// Whether `s` ends with `suffix`, as `str::ends_with` does for a text pattern.
pub fn ends_with_text(s: &str, suffix: &str) -> (r: bool)
    ensures
        r == ends_with(s@, suffix@),
{
    let n = s.unicode_len();
    let k = suffix.unicode_len();
    if k > n {
        return false;
    }
    let mut j: usize = 0;
    while j < k
        invariant
            n == s@.len(),
            k == suffix@.len(),
            k <= n,
            j <= k,
            forall|x: int| 0 <= x < j ==> s@[n - k + x] == suffix@[x],
        decreases k - j,
    {
        if s.get_char(n - k + j) != suffix.get_char(j) {
            proof {
                let t = s@.subrange(n - k, n as int);
                assert(t[j as int] != suffix@[j as int]);
            }
            return false;
        }
        j = j + 1;
    }
    proof {
        assert(s@.subrange(n - k, n as int) =~= suffix@);
    }
    true
}

/// `s` with every trailing occurrence of `suffix` removed, as
/// `str::trim_end_matches` does for a text pattern.
pub open spec fn trimmed_end(s: Seq<char>, suffix: Seq<char>) -> Seq<char>
    decreases s.len(),
{
    if suffix.len() > 0 && suffix.len() <= s.len() && s.subrange(
        s.len() - suffix.len(),
        s.len() as int,
    ) == suffix {
        trimmed_end(s.subrange(0, s.len() - suffix.len()), suffix)
    } else {
        s
    }
}

proof fn lemma_after_last_slash(s: Seq<char>)
    ensures
        after_last_slash(s).len() <= s.len(),
        after_last_slash(s) == s.subrange(s.len() - after_last_slash(s).len(), s.len() as int),
    decreases s.len(),
{
    if s.len() > 0 {
        lemma_after_last_slash(s.drop_last());
        if s.last() != '/' {
            let t = after_last_slash(s.drop_last());
            assert(t.push(s.last()) =~= s.subrange(s.len() - t.len() - 1, s.len() as int));
        } else {
            assert(Seq::<char>::empty() =~= s.subrange(s.len() as int, s.len() as int));
        }
    }
}

/// The text after the last `/` of `s`.
pub fn text_after_last_slash(s: &str) -> (r: &str)
    ensures
        r@ == after_last_slash(s@),
{
    let n = s.unicode_len();
    let mut start: usize = n;
    proof {
        assert(s@.subrange(n as int, n as int) =~= Seq::<char>::empty());
        assert(s@.take(n as int) =~= s@);
    }
    while start > 0 && s.get_char(start - 1) != '/'
        invariant
            n == s@.len(),
            start <= n,
            after_last_slash(s@) == after_last_slash(s@.take(start as int)) + s@.subrange(
                start as int,
                n as int,
            ),
        decreases start,
    {
        proof {
            let t = s@.take(start as int);
            assert(t.drop_last() =~= s@.take(start - 1));
            assert(s@.subrange(start - 1, n as int) =~= seq![t.last()] + s@.subrange(
                start as int,
                n as int,
            ));
            assert(after_last_slash(t) == after_last_slash(t.drop_last()).push(t.last()));
            assert(after_last_slash(t.drop_last()).push(t.last()) + s@.subrange(start as int, n as int)
                =~= after_last_slash(t.drop_last()) + s@.subrange(start - 1, n as int));
        }
        start = start - 1;
    }
    proof {
        let t = s@.take(start as int);
        if start > 0 {
            assert(t.last() == '/');
        }
        assert(after_last_slash(t) =~= Seq::<char>::empty());
        assert(after_last_slash(s@) =~= s@.subrange(start as int, n as int));
    }
    s.substring_char(start, n)
}

/// `s` with every trailing `suffix` removed.
pub fn trim_end_text<'a>(s: &'a str, suffix: &str) -> (r: &'a str)
    ensures
        r@ == trimmed_end(s@, suffix@),
{
    let n = s.unicode_len();
    let k = suffix.unicode_len();
    let mut end: usize = n;
    proof {
        assert(s@.take(n as int) =~= s@);
    }
    if k == 0 {
        return s;
    }
    loop
        invariant
            n == s@.len(),
            k == suffix@.len(),
            k > 0,
            end <= n,
            trimmed_end(s@, suffix@) == trimmed_end(s@.take(end as int), suffix@),
        ensures
            end <= n,
            trimmed_end(s@, suffix@) == s@.take(end as int),
        decreases end,
    {
        if k > end {
            proof {
                let t = s@.take(end as int);
                assert(trimmed_end(t, suffix@) == t);
            }
            break;
        }
        let mut j: usize = 0;
        let mut matches = true;
        while j < k
            invariant
                n == s@.len(),
                k == suffix@.len(),
                k <= end <= n,
                j <= k,
                matches == (forall|x: int| 0 <= x < j ==> s@[end - k + x] == suffix@[x]),
            decreases k - j,
        {
            if s.get_char(end - k + j) != suffix.get_char(j) {
                matches = false;
            }
            j = j + 1;
        }
        let ghost t = s@.take(end as int);
        if !matches {
            proof {
                if t.subrange(t.len() - k, t.len() as int) == suffix@ {
                    assert forall|x: int| 0 <= x < k implies s@[end - k + x] == suffix@[x] by {
                        assert(t.subrange(t.len() - k, t.len() as int)[x] == suffix@[x]);
                    }
                }
                assert(trimmed_end(t, suffix@) == t);
            }
            break;
        }
        proof {
            assert(t.subrange(t.len() - k, t.len() as int) =~= suffix@);
            assert(t.subrange(0, t.len() - k) =~= s@.take(end - k));
        }
        end = end - k;
    }
    proof {
        assert(s@.subrange(0, end as int) =~= s@.take(end as int));
    }
    s.substring_char(0, end)
}

/// The components of `path` after those of `base`.
pub open spec fn relative_components(path: Seq<char>, base: Seq<char>) -> Seq<Seq<char>> {
    path_components(path).skip(path_components(base).len() as int)
}

/// The part of `path` below `base`, its components joined by `/`
/// (`Path::strip_prefix` for a path without repeated separators or `.`
/// components); `None` when `path` does not lie within `base`.
pub fn relative_path(path: &str, base: &str) -> (r: Option<String>)
    ensures
        match r {
            Some(t) => path_within(path@, base@) && t@ == joined_texts(
                relative_components(path@, base@),
                "/"@,
            ),
            None => !path_within(path@, base@),
        },
{
    if !starts_with_path(path, base) {
        return None;
    }
    let pc = components(path);
    let bc = components(base);
    let ghost pv = pc@.map_values(|c: String| c@);
    let ghost bv = bc@.map_values(|c: String| c@);
    let mut rest: Vec<String> = Vec::new();
    let mut k: usize = bc.len();
    while k < pc.len()
        invariant
            pv == pc@.map_values(|c: String| c@),
            bv == bc@.map_values(|c: String| c@),
            bc@.len() <= k <= pc@.len(),
            rest@.map_values(|c: String| c@) == pv.subrange(bc@.len() as int, k as int),
        decreases pc@.len() - k,
    {
        let ghost before = rest@;
        rest.push(pc[k].clone());
        proof {
            assert(rest@.map_values(|c: String| c@) =~= before.map_values(|c: String| c@).push(
                pc@[k as int]@,
            ));
            assert(pv.subrange(bc@.len() as int, k + 1) =~= pv.subrange(bc@.len() as int, k as int).push(
                pv[k as int],
            ));
        }
        k = k + 1;
    }
    proof {
        assert(pv.subrange(bc@.len() as int, pc@.len() as int) =~= relative_components(path@, base@));
    }
    Some(join_texts(&rest, "/"))
}

/// The items one after another with `sep` between each two.
pub open spec fn joined_texts(items: Seq<Seq<char>>, sep: Seq<char>) -> Seq<char>
    decreases items.len(),
{
    if items.len() == 0 {
        Seq::empty()
    } else if items.len() == 1 {
        items[0]
    } else {
        joined_texts(items.drop_last(), sep) + sep + items.last()
    }
}

/// The items joined by `sep`, as `[String]::join` does.
pub fn join_texts(items: &Vec<String>, sep: &str) -> (r: String)
    ensures
        r@ == joined_texts(items@.map_values(|t: String| t@), sep@),
{
    let ghost views = items@.map_values(|t: String| t@);
    let mut r = String::new();
    let n = items.len();
    let mut i: usize = 0;
    while i < n
        invariant
            n == items@.len(),
            views == items@.map_values(|t: String| t@),
            i <= n,
            r@ == joined_texts(views.take(i as int), sep@),
        decreases n - i,
    {
        proof {
            assert(views.take(i + 1).drop_last() =~= views.take(i as int));
            assert(views.take(i + 1).last() == items@[i as int]@);
        }
        if i > 0 {
            r.append(sep);
        } else {
            assert(views.take(1) =~= seq![items@[0]@]);
        }
        r.append(items[i].as_str());
        i = i + 1;
    }
    assert(views.take(n as int) =~= views);
    r
}

/// The decimal digits of `n`, with a leading `-` for a negative value, as
/// `i32`'s `Display` writes it.
pub open spec fn decimal_text(n: int) -> Seq<char>
    decreases (if n < 0 {
        -n + 1
    } else {
        n
    }),
{
    if n < 0 {
        seq!['-'] + decimal_text(-n)
    } else if n < 10 {
        seq![digit_char(n)]
    } else {
        decimal_text(n / 10).push(digit_char(n % 10))
    }
}

/// The character of a decimal digit.
pub open spec fn digit_char(d: int) -> char {
    if d == 0 { '0' }
    else if d == 1 { '1' }
    else if d == 2 { '2' }
    else if d == 3 { '3' }
    else if d == 4 { '4' }
    else if d == 5 { '5' }
    else if d == 6 { '6' }
    else if d == 7 { '7' }
    else if d == 8 { '8' }
    else { '9' }
}

fn digit_text(d: u64) -> (r: &'static str)
    requires
        d < 10,
    ensures
        r@ == seq![digit_char(d as int)],
{
    let digits = "0123456789";
    proof {
        reveal_strlit("0123456789");
    }
    digits.substring_char(d as usize, d as usize + 1)
}

fn natural_text(n: u64) -> (r: String)
    ensures
        r@ == decimal_text(n as int),
    decreases n,
{
    if n < 10 {
        String::from_str(digit_text(n))
    } else {
        let mut r = natural_text(n / 10);
        r.append(digit_text(n % 10));
        r
    }
}

/// The decimal text of a signed integer.
pub fn integer_text(n: i32) -> (r: String)
    ensures
        r@ == decimal_text(n as int),
{
    if n < 0 {
        let magnitude: u64 = if n == i32::MIN {
            2147483648u64
        } else {
            (-n) as u64
        };
        let mut r = String::from_str("-");
        proof {
            reveal_strlit("-");
        }
        r.append(natural_text(magnitude).as_str());
        r
    } else {
        natural_text(n as u64)
    }
}

} // verus!
