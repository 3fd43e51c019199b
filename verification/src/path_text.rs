use crate::endpoint::sanitize::{
    is_parent_piece, keep_piece, lemma_pieces_shape, lemma_split_append_name, pieces, plain_name,
    split_state,
};
use vstd::prelude::*;

verus! {

/// `base` extended by `rel` as a path: an absolute `rel` replaces `base`;
/// otherwise a `/` is put between them unless `base` is empty or already
/// ends with one.
pub open spec fn joined(base: Seq<char>, rel: Seq<char>) -> Seq<char> {
    if rel.len() > 0 && rel[0] == '/' {
        rel
    } else if base.len() == 0 || base.last() == '/' {
        base + rel
    } else {
        base + seq!['/'] + rel
    }
}

/// Extends `base` by the path `rel`.
pub fn join_path(base: &str, rel: &str) -> (out: String)
    ensures
        out@ == joined(base@, rel@),
{
    proof {
        reveal_strlit("/");
    }
    let rel_len = rel.unicode_len();
    if rel_len > 0 && rel.get_char(0) == '/' {
        return String::from_str(rel);
    }
    let base_len = base.unicode_len();
    let mut out = String::from_str(base);
    if !(base_len == 0 || base.get_char(base_len - 1) == '/') {
        out.append("/");
    }
    out.append(rel);
    out
}

} // verus!

verus! {

/// One component of a Unix path, as `std::path::Component` has it.
pub enum Comp {
    Root,
    Cur,
    Parent,
    Normal(Seq<char>),
}

/// The component a meaningful piece stands for.
pub open spec fn piece_comp(p: Seq<char>) -> Comp {
    if is_parent_piece(p) {
        Comp::Parent
    } else {
        Comp::Normal(p)
    }
}

/// The leading component: `/` for an absolute path, `.` when a relative
/// path starts with a `.` piece, nothing otherwise.
pub open spec fn head_comps(s: Seq<char>) -> Seq<Comp> {
    if s.len() > 0 && s[0] == '/' {
        seq![Comp::Root]
    } else if s.len() > 0 && s[0] == '.' && (s.len() == 1 || s[1] == '/') {
        seq![Comp::Cur]
    } else {
        Seq::empty()
    }
}

/// The components of a Unix path: the leading component, then one per
/// meaningful piece (`..` as a parent component).
pub open spec fn components(s: Seq<char>) -> Seq<Comp> {
    head_comps(s) + pieces(s).map_values(|p: Seq<char>| piece_comp(p))
}

/// The path without its last component; `None` for the empty path and
/// for a bare root.
pub open spec fn parent_comps(c: Seq<Comp>) -> Option<Seq<Comp>> {
    if c.len() == 0 || c.last() is Root {
        None
    } else {
        Some(c.drop_last())
    }
}

/// Whether `c` starts with the components of `base`.
pub open spec fn comps_start_with(c: Seq<Comp>, base: Seq<Comp>) -> bool {
    base.len() <= c.len() && c.take(base.len() as int) == base
}

/// Components that some path has: a leading component only in front, and
/// names that need no normalising.
pub open spec fn comps_wf(c: Seq<Comp>) -> bool {
    &&& forall|i: int| 0 < i < c.len() ==> !(#[trigger] c[i] is Root) && !(c[i] is Cur)
    &&& forall|i: int| 0 <= i < c.len() ==> (#[trigger] c[i] matches Comp::Normal(n) ==> plain_name(n))
}

pub open spec fn comp_text(c: Comp) -> Seq<char> {
    match c {
        Comp::Parent => seq!['.', '.'],
        Comp::Normal(n) => n,
        _ => Seq::empty(),
    }
}

/// Components after the leading one, separated by `/`.
pub open spec fn join_comps(c: Seq<Comp>) -> Seq<char>
    decreases c.len(),
{
    if c.len() == 0 {
        Seq::empty()
    } else if c.len() == 1 {
        comp_text(c[0])
    } else {
        join_comps(c.drop_last()) + seq!['/'] + comp_text(c.last())
    }
}

/// A path text with the given components.
pub open spec fn render_comps(c: Seq<Comp>) -> Seq<char> {
    if c.len() == 0 {
        Seq::empty()
    } else if c[0] is Root {
        seq!['/'] + join_comps(c.skip(1))
    } else if c[0] is Cur {
        if c.len() == 1 {
            seq!['.']
        } else {
            seq!['.', '/'] + join_comps(c.skip(1))
        }
    } else {
        join_comps(c)
    }
}

pub proof fn lemma_components_wf(s: Seq<char>)
    ensures
        comps_wf(components(s)),
{
    lemma_pieces_shape(s);
    let c = components(s);
    let h = head_comps(s);
    let t = pieces(s).map_values(|p: Seq<char>| piece_comp(p));
    assert forall|i: int| 0 < i < c.len() implies !(#[trigger] c[i] is Root) && !(c[i] is Cur) by {
        if i >= h.len() {
            assert(c[i] == t[i - h.len()]);
        }
    }
    assert forall|i: int| 0 <= i < c.len() implies (#[trigger] c[i] matches Comp::Normal(n) ==> plain_name(n)) by {
        if i >= h.len() {
            assert(c[i] == t[i - h.len()]);
            let p = pieces(s)[i - h.len()];
            assert(p.len() > 0 && !p.contains('/') && p != seq!['.']);
        }
    }
}

/// Pieces of a middle name: not empty, no `/`, not `.`.
pub open spec fn comp_piece_ok(c: Comp) -> bool {
    (c is Parent || c is Normal) && (c matches Comp::Normal(n) ==> plain_name(n))
}

proof fn lemma_comp_text_piece(c: Comp)
    requires
        comp_piece_ok(c),
    ensures
        comp_text(c).len() > 0,
        !comp_text(c).contains('/'),
        comp_text(c) != seq!['.'],
        piece_comp(comp_text(c)) == c,
{
    if c is Parent {
        assert(!seq!['.', '.'].contains('/')) by {
            if seq!['.', '.'].contains('/') {
                let k = choose|k: int| 0 <= k < 2 && seq!['.', '.'][k] == '/';
            }
        }
        assert(seq!['.', '.'] != seq!['.']) by {
            assert(seq!['.', '.'].len() != seq!['.'].len());
        }
    }
}

/// Splitting a joined list of middle components finds them again, after
/// whatever pieces came before a separator.
proof fn lemma_split_join(t: Seq<char>, done: Seq<Seq<char>>, c: Seq<Comp>)
    requires
        split_state(t) == (done, Seq::<char>::empty()),
        c.len() > 0,
        forall|i: int| 0 <= i < c.len() ==> comp_piece_ok(#[trigger] c[i]),
    ensures
        split_state(t + join_comps(c)) == (
            done + c.drop_last().map_values(|x: Comp| comp_text(x)),
            comp_text(c.last()),
        ),
    decreases c.len(),
{
    assert(comp_piece_ok(c[c.len() - 1]));
    lemma_comp_text_piece(c.last());
    if c.len() == 1 {
        lemma_split_append_name(t, comp_text(c[0]));
        assert(Seq::<char>::empty() + comp_text(c[0]) =~= comp_text(c[0]));
        assert(c.drop_last().map_values(|x: Comp| comp_text(x)) =~= Seq::<Seq<char>>::empty());
        assert(done + Seq::<Seq<char>>::empty() =~= done);
    } else {
        let prev = c.drop_last();
        assert forall|i: int| 0 <= i < prev.len() implies comp_piece_ok(#[trigger] prev[i]) by {
            assert(prev[i] == c[i]);
        }
        lemma_split_join(t, done, prev);
        assert(comp_piece_ok(prev[prev.len() - 1]));
        lemma_comp_text_piece(prev.last());
        let with_sep = t + join_comps(prev) + seq!['/'];
        assert(with_sep.drop_last() =~= t + join_comps(prev));
        let d1 = done + prev.drop_last().map_values(|x: Comp| comp_text(x));
        assert(split_state(with_sep) == (keep_piece(d1, comp_text(prev.last())), Seq::<char>::empty()));
        assert(keep_piece(d1, comp_text(prev.last())) =~= done + prev.map_values(|x: Comp| comp_text(x)));
        lemma_split_append_name(with_sep, comp_text(c.last()));
        assert(Seq::<char>::empty() + comp_text(c.last()) =~= comp_text(c.last()));
        assert(t + join_comps(c) =~= with_sep + comp_text(c.last()));
    }
}

proof fn lemma_pieces_join(t: Seq<char>, done: Seq<Seq<char>>, c: Seq<Comp>)
    requires
        split_state(t) == (done, Seq::<char>::empty()),
        forall|i: int| 0 <= i < c.len() ==> comp_piece_ok(#[trigger] c[i]),
    ensures
        pieces(t + join_comps(c)) == done + c.map_values(|x: Comp| comp_text(x)),
{
    if c.len() == 0 {
        assert(t + join_comps(c) =~= t);
        assert(c.map_values(|x: Comp| comp_text(x)) =~= Seq::<Seq<char>>::empty());
        assert(done + Seq::<Seq<char>>::empty() =~= done);
    } else {
        lemma_split_join(t, done, c);
        assert(comp_piece_ok(c[c.len() - 1]));
        lemma_comp_text_piece(c.last());
        assert(c.drop_last().map_values(|x: Comp| comp_text(x)).push(comp_text(c.last()))
            =~= c.map_values(|x: Comp| comp_text(x)));
    }
}

proof fn lemma_texts_back(c: Seq<Comp>)
    requires
        forall|i: int| 0 <= i < c.len() ==> comp_piece_ok(#[trigger] c[i]),
    ensures
        c.map_values(|x: Comp| comp_text(x)).map_values(|p: Seq<char>| piece_comp(p)) == c,
{
    assert forall|i: int| 0 <= i < c.len() implies c.map_values(|x: Comp| comp_text(x)).map_values(
        |p: Seq<char>| piece_comp(p),
    )[i] == c[i] by {
        assert(comp_piece_ok(c[i]));
        lemma_comp_text_piece(c[i]);
    }
    assert(c.map_values(|x: Comp| comp_text(x)).map_values(|p: Seq<char>| piece_comp(p)) =~= c);
}

/// Writing components out and reading them back gives the same components.
pub proof fn lemma_components_render(c: Seq<Comp>)
    requires
        comps_wf(c),
    ensures
        components(render_comps(c)) == c,
{
    let empty_state = (Seq::<Seq<char>>::empty(), Seq::<char>::empty());
    assert(split_state(Seq::<char>::empty()) == empty_state);
    if c.len() == 0 {
        assert(render_comps(c) =~= Seq::<char>::empty());
        assert(pieces(Seq::<char>::empty()) =~= Seq::<Seq<char>>::empty());
        assert(components(Seq::<char>::empty()) =~= c);
        return;
    }
    let has_head = c[0] is Root || c[0] is Cur;
    let rest = if has_head { c.skip(1) } else { c };
    assert forall|i: int| 0 <= i < rest.len() implies comp_piece_ok(#[trigger] rest[i]) by {
        let j = if has_head { i + 1 } else { i };
        assert(rest[i] == c[j]);
        if j > 0 {
            assert(!(c[j] is Root) && !(c[j] is Cur));
        }
        assert(c[j] matches Comp::Normal(n) ==> plain_name(n));
    }
    lemma_texts_back(rest);
    let s = render_comps(c);
    if c[0] is Root {
        let t = seq!['/'];
        assert(t.drop_last() =~= Seq::<char>::empty());
        assert(split_state(t) == (keep_piece(Seq::<Seq<char>>::empty(), Seq::<char>::empty()), Seq::<char>::empty()));
        lemma_pieces_join(t, Seq::<Seq<char>>::empty(), rest);
        assert(Seq::<Seq<char>>::empty() + rest.map_values(|x: Comp| comp_text(x)) =~= rest.map_values(|x: Comp| comp_text(x)));
        assert(s[0] == '/');
        assert(head_comps(s) =~= seq![Comp::Root]);
        assert(seq![Comp::Root] + rest =~= c);
    } else if c[0] is Cur {
        if c.len() == 1 {
            assert(seq!['.'].drop_last() =~= Seq::<char>::empty());
            assert(split_state(seq!['.']) == (Seq::<Seq<char>>::empty(), Seq::<char>::empty().push('.')));
            assert(Seq::<char>::empty().push('.') =~= seq!['.']);
            assert(pieces(seq!['.']) =~= Seq::<Seq<char>>::empty());
            assert(head_comps(s) =~= seq![Comp::Cur]);
            assert(components(s) =~= c);
        } else {
            let t = seq!['.', '/'];
            assert(t.drop_last() =~= seq!['.']);
            assert(seq!['.'].drop_last() =~= Seq::<char>::empty());
            assert(split_state(seq!['.']) == (Seq::<Seq<char>>::empty(), Seq::<char>::empty().push('.')));
            assert(Seq::<char>::empty().push('.') =~= seq!['.']);
            assert(split_state(t) == (keep_piece(Seq::<Seq<char>>::empty(), seq!['.']), Seq::<char>::empty()));
            lemma_pieces_join(t, Seq::<Seq<char>>::empty(), rest);
            assert(Seq::<Seq<char>>::empty() + rest.map_values(|x: Comp| comp_text(x)) =~= rest.map_values(|x: Comp| comp_text(x)));
            assert(head_comps(s) =~= seq![Comp::Cur]);
            assert(seq![Comp::Cur] + rest =~= c);
        }
    } else {
        lemma_pieces_join(Seq::<char>::empty(), Seq::<Seq<char>>::empty(), rest);
        assert(Seq::<char>::empty() + join_comps(rest) =~= join_comps(rest));
        assert(Seq::<Seq<char>>::empty() + rest.map_values(|x: Comp| comp_text(x)) =~= rest.map_values(|x: Comp| comp_text(x)));
        // the text starts with the first component's text
        assert(comp_piece_ok(rest[0]));
        lemma_comp_text_piece(rest[0]);
        lemma_join_starts(rest);
        let w = comp_text(rest[0]);
        assert(s == join_comps(rest));
        assert(s[0] == w[0]);
        assert(w[0] != '/') by {
            if w[0] == '/' {
                assert(w.contains('/'));
            }
        }
        if w.len() >= 2 {
            assert(s[1] == w[1]);
            assert(w[1] != '/') by {
                if w[1] == '/' {
                    assert(w.contains('/'));
                }
            }
        } else {
            assert(w =~= seq![w[0]]);
            assert(w[0] != '.');
        }
        assert(head_comps(s) =~= Seq::<Comp>::empty());
        assert(Seq::<Comp>::empty() + rest =~= c);
    }
}

/// A joined list starts with its first component's text.
proof fn lemma_join_starts(c: Seq<Comp>)
    requires
        c.len() > 0,
    ensures
        join_comps(c).len() >= comp_text(c[0]).len(),
        forall|i: int| 0 <= i < comp_text(c[0]).len() ==> join_comps(c)[i] == #[trigger] comp_text(c[0])[i],
    decreases c.len(),
{
    if c.len() > 1 {
        lemma_join_starts(c.drop_last());
        assert(c.drop_last()[0] == c[0]);
    }
}

} // verus!

verus! {

/// A path component held by value.
#[derive(Debug, Clone)]
pub enum PathComponent {
    RootDir,
    CurDir,
    ParentDir,
    Normal(String),
}

pub open spec fn comp_of(c: PathComponent) -> Comp {
    match c {
        PathComponent::RootDir => Comp::Root,
        PathComponent::CurDir => Comp::Cur,
        PathComponent::ParentDir => Comp::Parent,
        PathComponent::Normal(n) => Comp::Normal(n@),
    }
}

pub open spec fn comps_of(v: Seq<PathComponent>) -> Seq<Comp> {
    v.map_values(|c: PathComponent| comp_of(c))
}

/// Appends the component for the piece `s[start..end]` unless the piece is
/// empty or `.`.
fn close_component(
    s_str: &str,
    out: &mut Vec<PathComponent>,
    start: usize,
    end: usize,
    all_dots: bool,
    Ghost(done): Ghost<Seq<Seq<char>>>,
    Ghost(head): Ghost<Seq<Comp>>,
)
    requires
        start <= end <= s_str@.len(),
        all_dots <==> (forall|k: int| start <= k < end ==> s_str@[k] == '.'),
        comps_of(old(out)@) == head + done.map_values(|p: Seq<char>| piece_comp(p)),
    ensures
        comps_of(final(out)@) == head + keep_piece(done, s_str@.subrange(start as int, end as int)).map_values(
            |p: Seq<char>| piece_comp(p),
        ),
{
    let ghost s = s_str@;
    let ghost cur = s.subrange(start as int, end as int);
    let len = end - start;
    proof {
        if len == 1 && all_dots {
            assert(cur =~= seq!['.']);
        }
        if len == 2 && all_dots {
            assert(cur =~= seq!['.', '.']);
        }
        if len == 1 && !all_dots {
            assert(cur[0] != '.');
            assert(cur != seq!['.']);
        }
        if len == 2 && !all_dots {
            assert(cur[0] != '.' || cur[1] != '.');
            assert(cur != seq!['.', '.']);
        }
        if len != 1 {
            assert(cur.len() != seq!['.'].len());
        }
        if len != 2 {
            assert(cur.len() != seq!['.', '.'].len());
        }
    }
    if len == 0 || (len == 1 && all_dots) {
        return;
    }
    let ghost before = out@;
    let c = if len == 2 && all_dots {
        PathComponent::ParentDir
    } else {
        PathComponent::Normal(String::from_str(s_str.substring_char(start, end)))
    };
    out.push(c);
    proof {
        assert(comp_of(c) == piece_comp(cur));
        assert(done.push(cur).map_values(|p: Seq<char>| piece_comp(p)) =~= done.map_values(
            |p: Seq<char>| piece_comp(p),
        ).push(piece_comp(cur)));
        assert(comps_of(out@) =~= comps_of(before).push(comp_of(c)));
    }
}

/// The components of a path, as `Path::components` gives them on Unix.
pub fn path_components(path: &str) -> (v: Vec<PathComponent>)
    ensures
        comps_of(v@) == components(path@),
{
    let ghost s = path@;
    let total = path.unicode_len();
    let mut out: Vec<PathComponent> = Vec::new();
    if total > 0 && path.get_char(0) == '/' {
        out.push(PathComponent::RootDir);
    } else if total > 0 && path.get_char(0) == '.' && (total == 1 || path.get_char(1) == '/') {
        out.push(PathComponent::CurDir);
    }
    let ghost head = head_comps(s);
    assert(comps_of(out@) =~= head);
    let mut start: usize = 0;
    let mut idx: usize = 0;
    let mut all_dots = true;
    let ghost mut done: Seq<Seq<char>> = Seq::empty();
    assert(s.take(0) =~= Seq::<char>::empty());
    assert(head + done.map_values(|p: Seq<char>| piece_comp(p)) =~= head);
    for c in it: path.chars()
        invariant
            it.seq() == s,
            s == path@,
            head == head_comps(s),
            total == s.len(),
            idx == it.index(),
            start <= idx <= total,
            split_state(s.take(idx as int)) == (done, s.subrange(start as int, idx as int)),
            all_dots <==> (forall|k: int| start <= k < idx ==> s[k] == '.'),
            comps_of(out@) == head + done.map_values(|p: Seq<char>| piece_comp(p)),
    {
        let ghost cur = s.subrange(start as int, idx as int);
        assert(s.take(idx + 1).drop_last() =~= s.take(idx as int));
        assert(s.take(idx + 1).last() == c);
        if c == '/' {
            close_component(path, &mut out, start, idx, all_dots, Ghost(done), Ghost(head));
            proof {
                done = keep_piece(done, cur);
                assert(s.subrange(idx + 1, idx + 1) =~= Seq::<char>::empty());
            }
            start = idx + 1;
            all_dots = true;
        } else {
            if c != '.' {
                all_dots = false;
            }
            assert(s.subrange(start as int, idx + 1) =~= cur.push(c));
        }
        idx = idx + 1;
    }
    assert(s.take(total as int) =~= s);
    close_component(path, &mut out, start, total, all_dots, Ghost(done), Ghost(head));
    out
}

fn component_eq(a: &PathComponent, b: &PathComponent) -> (r: bool)
    ensures
        r == (comp_of(*a) == comp_of(*b)),
{
    match (a, b) {
        (PathComponent::RootDir, PathComponent::RootDir) => true,
        (PathComponent::CurDir, PathComponent::CurDir) => true,
        (PathComponent::ParentDir, PathComponent::ParentDir) => true,
        (PathComponent::Normal(x), PathComponent::Normal(y)) => *x == *y,
        _ => false,
    }
}

/// Whether `v` begins with the components `base`.
pub fn starts_with_components(v: &Vec<PathComponent>, base: &Vec<PathComponent>) -> (r: bool)
    ensures
        r == comps_start_with(comps_of(v@), comps_of(base@)),
{
    if base.len() > v.len() {
        return false;
    }
    let mut k: usize = 0;
    while k < base.len()
        invariant
            k <= base@.len() <= v@.len(),
            forall|i: int| 0 <= i < k ==> comp_of(#[trigger] v@[i]) == comp_of(base@[i]),
        decreases base@.len() - k,
    {
        if !component_eq(&v[k], &base[k]) {
            proof {
                assert(comps_of(v@).take(base@.len() as int)[k as int] != comps_of(base@)[k as int]);
            }
            return false;
        }
        k = k + 1;
    }
    assert(comps_of(v@).take(base@.len() as int) =~= comps_of(base@));
    true
}

fn push_text(out: &mut String, c: &PathComponent)
    ensures
        final(out)@ == old(out)@ + comp_text(comp_of(*c)),
{
    proof {
        reveal_strlit("..");
    }
    match c {
        PathComponent::ParentDir => {
            out.append("..");
            assert(".."@ =~= seq!['.', '.']);
        },
        PathComponent::Normal(n) => out.append(n.as_str()),
        _ => {
            assert(old(out)@ + Seq::<char>::empty() =~= old(out)@);
        },
    }
}

/// Writes the components `v[from..]` separated by `/`.
pub(crate) fn push_joined(out: &mut String, v: &Vec<PathComponent>, from: usize)
    requires
        from <= v@.len(),
    ensures
        final(out)@ == old(out)@ + join_comps(comps_of(v@).skip(from as int)),
{
    proof {
        reveal_strlit("/");
    }
    let n = v.len();
    let ghost all = comps_of(v@).skip(from as int);
    let mut k = from;
    assert(all.take(0) =~= Seq::<Comp>::empty());
    while k < n
        invariant
            from <= k <= n,
            n == v@.len(),
            all == comps_of(v@).skip(from as int),
            out@ == old(out)@ + join_comps(all.take(k - from)),
        decreases n - k,
    {
        let ghost prev = out@;
        if k > from {
            out.append("/");
            proof {
                reveal_strlit("/");
            }
        }
        push_text(out, &v[k]);
        proof {
            let t = all.take(k + 1 - from);
            assert(t.drop_last() =~= all.take(k - from));
            assert(t.last() == comp_of(v@[k as int]));
            if k > from {
                assert("/"@ =~= seq!['/']);
                assert(out@ =~= old(out)@ + (join_comps(all.take(k - from)) + seq!['/'] + comp_text(t.last())));
            } else {
                assert(t =~= seq![t[0]]);
                assert(out@ =~= old(out)@ + join_comps(t));
            }
        }
        k = k + 1;
    }
    assert(all.take(n - from) =~= all);
}

/// A path text with the components `v`.
pub fn render_components(v: &Vec<PathComponent>) -> (s: String)
    ensures
        s@ == render_comps(comps_of(v@)),
{
    proof {
        reveal_strlit("/");
        reveal_strlit(".");
        reveal_strlit("./");
    }
    let mut out = String::new();
    if v.len() == 0 {
        return out;
    }
    match &v[0] {
        PathComponent::RootDir => {
            out.append("/");
            push_joined(&mut out, v, 1);
        },
        PathComponent::CurDir => {
            if v.len() == 1 {
                out.append(".");
            } else {
                out.append("./");
                push_joined(&mut out, v, 1);
            }
        },
        _ => {
            push_joined(&mut out, v, 0);
            assert(comps_of(v@).skip(0) =~= comps_of(v@));
        },
    }
    out
}

} // verus!
