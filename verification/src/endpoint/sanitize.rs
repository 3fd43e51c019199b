use vstd::prelude::*;

verus! {

/// Splits `s` on `/`, left to right: the pieces completed so far and the piece
/// being read.  Empty pieces and `.` pieces are dropped as they complete, so
/// repeated separators and current-directory markers leave no trace.
pub open spec fn split_state(s: Seq<char>) -> (Seq<Seq<char>>, Seq<char>)
    decreases s.len(),
{
    if s.len() == 0 {
        (Seq::empty(), Seq::empty())
    } else {
        let (done, cur) = split_state(s.drop_last());
        if s.last() == '/' {
            (keep_piece(done, cur), Seq::empty())
        } else {
            (done, cur.push(s.last()))
        }
    }
}

/// Appends a completed piece unless it is empty or `.`.
pub open spec fn keep_piece(done: Seq<Seq<char>>, piece: Seq<char>) -> Seq<Seq<char>> {
    if piece.len() == 0 || piece == seq!['.'] {
        done
    } else {
        done.push(piece)
    }
}

/// The meaningful pieces of a relative path, in order.
pub open spec fn pieces(s: Seq<char>) -> Seq<Seq<char>> {
    keep_piece(split_state(s).0, split_state(s).1)
}

pub open spec fn is_parent_piece(p: Seq<char>) -> bool {
    p == seq!['.', '.']
}

/// Walks the pieces left to right keeping a stack of directory names:
/// `..` pops, anything else pushes.  `None` when a `..` would climb above
/// the starting directory.
pub open spec fn resolve(ps: Seq<Seq<char>>) -> Option<Seq<Seq<char>>>
    decreases ps.len(),
{
    if ps.len() == 0 {
        Some(Seq::empty())
    } else {
        match resolve(ps.drop_last()) {
            None => None,
            Some(stack) => if is_parent_piece(ps.last()) {
                if stack.len() == 0 {
                    None
                } else {
                    Some(stack.drop_last())
                }
            } else {
                Some(stack.push(ps.last()))
            },
        }
    }
}

/// `.` followed by `/name` for each name of the stack.
pub open spec fn render(stack: Seq<Seq<char>>) -> Seq<char>
    decreases stack.len(),
{
    if stack.len() == 0 {
        seq!['.']
    } else {
        render(stack.drop_last()) + seq!['/'] + stack.last()
    }
}

pub open spec fn is_absolute(s: Seq<char>) -> bool {
    s.len() > 0 && s[0] == '/'
}

/// The directory names a requested path resolves to, or the first rule it
/// breaks.
pub open spec fn sanitized_names(s: Seq<char>) -> Result<Seq<Seq<char>>, SanitizeError> {
    if is_absolute(s) {
        Err(SanitizeError::Absolute)
    } else {
        match resolve(pieces(s)) {
            None => Err(SanitizeError::Traversal),
            Some(stack) => if stack.len() == 0 {
                Err(SanitizeError::Empty)
            } else {
                Ok(stack)
            },
        }
    }
}

/// What sanitising does to a requested path: `Ok` with the normalised
/// relative path, or the first rule the request breaks.
pub open spec fn sanitized(s: Seq<char>) -> Result<Seq<char>, SanitizeError> {
    match sanitized_names(s) {
        Ok(stack) => Ok(render(stack)),
        Err(e) => Err(e),
    }
}

/// The three ways a requested path is refused.
#[derive(Clone, Copy, Debug, PartialEq, Eq, Structural)]
pub enum SanitizeError {
    Traversal,
    Absolute,
    Empty,
}

pub open spec fn error_message(e: SanitizeError) -> Seq<char> {
    match e {
        SanitizeError::Traversal => "Path traversal attempt detected"@,
        SanitizeError::Absolute => "Absolute paths are not allowed"@,
        SanitizeError::Empty => "File path cannot be empty"@,
    }
}

} // verus!

verus! {

/// The piece of `s` between char positions `r.0` and `r.1`.
pub open spec fn range_text(s: Seq<char>, r: (usize, usize)) -> Seq<char> {
    s.subrange(r.0 as int, r.1 as int)
}

pub open spec fn stack_text(s: Seq<char>, stack: Seq<(usize, usize)>) -> Seq<Seq<char>> {
    stack.map_values(|r: (usize, usize)| range_text(s, r))
}

proof fn lemma_resolve_stays_none(ps: Seq<Seq<char>>, p: Seq<char>)
    requires
        resolve(ps) is None,
    ensures
        resolve(ps.push(p)) is None,
{
    assert(ps.push(p).drop_last() =~= ps);
}

proof fn lemma_keep_piece_none(done: Seq<Seq<char>>, piece: Seq<char>)
    requires
        resolve(done) is None,
    ensures
        resolve(keep_piece(done, piece)) is None,
{
    if !(piece.len() == 0 || piece == seq!['.']) {
        lemma_resolve_stays_none(done, piece);
    }
}

pub open spec fn ranges_within(stack: Seq<(usize, usize)>, bound: int) -> bool {
    forall|j: int|
        0 <= j < stack.len() ==> {
            let r = #[trigger] stack[j];
            r.0 < r.1 <= bound
        }
}

/// Takes the piece `s[start..end]` into account: `..` pops the stack (or
/// fails on an empty one), `.` and empty pieces are skipped, other names
/// are pushed.
fn close_piece(
    stack: &mut Vec<(usize, usize)>,
    failed: bool,
    start: usize,
    end: usize,
    all_dots: bool,
    Ghost(s): Ghost<Seq<char>>,
    Ghost(done): Ghost<Seq<Seq<char>>>,
) -> (now_failed: bool)
    requires
        start <= end <= s.len(),
        all_dots <==> (forall|k: int| start <= k < end ==> s[k] == '.'),
        failed ==> resolve(done) is None,
        !failed ==> resolve(done) == Some(stack_text(s, old(stack)@)),
        ranges_within(old(stack)@, end as int),
    ensures
        now_failed ==> resolve(keep_piece(done, s.subrange(start as int, end as int))) is None,
        !now_failed ==> resolve(keep_piece(done, s.subrange(start as int, end as int))) == Some(
            stack_text(s, final(stack)@),
        ),
        ranges_within(final(stack)@, end as int),
{
    let ghost cur = s.subrange(start as int, end as int);
    let len = end - start;
    proof {
        if len == 1 && all_dots {
            assert(cur =~= seq!['.']);
        }
        if len == 2 && all_dots {
            assert(cur =~= seq!['.', '.']);
        }
        if len == 1 && !all_dots {
            assert(cur[0] != '.');
            assert(cur != seq!['.']);
        }
        if len == 2 && !all_dots {
            assert(cur[0] != '.' || cur[1] != '.');
            assert(cur != seq!['.', '.']);
        }
        if len != 1 {
            assert(cur.len() != seq!['.'].len());
        }
        if len != 2 {
            assert(cur.len() != seq!['.', '.'].len());
        }
    }
    if failed {
        proof {
            if !(cur.len() == 0 || cur == seq!['.']) {
                lemma_resolve_stays_none(done, cur);
            }
        }
        return true;
    }
    if len == 0 || (len == 1 && all_dots) {
        return false;
    }
    proof {
        assert(done.push(cur).drop_last() =~= done);
    }
    if len == 2 && all_dots {
        if stack.len() == 0 {
            return true;
        }
        let ghost before = stack@;
        stack.pop();
        proof {
            assert(stack@ =~= before.drop_last());
            assert(stack_text(s, stack@) =~= stack_text(s, before).drop_last());
        }
        false
    } else {
        let ghost before = stack@;
        stack.push((start, end));
        proof {
            assert(stack_text(s, stack@) =~= stack_text(s, before).push(cur));
        }
        false
    }
}

/// Writes `.` followed by `/name` for each range of the stack.
pub(crate) fn render_stack(user_path: &str, stack: &Vec<(usize, usize)>) -> (out: String)
    requires
        ranges_within(stack@, user_path@.len() as int),
    ensures
        out@ == render(stack_text(user_path@, stack@)),
{
    proof {
        reveal_strlit(".");
        reveal_strlit("/");
    }
    let ghost s = user_path@;
    let mut out = String::from_str(".");
    let mut k: usize = 0;
    while k < stack.len()
        invariant
            k <= stack@.len(),
            s == user_path@,
            ranges_within(stack@, s.len() as int),
            out@ == render(stack_text(s, stack@).take(k as int)),
        decreases stack@.len() - k,
    {
        let r = stack[k];
        let piece = user_path.substring_char(r.0, r.1);
        out.append("/");
        out.append(piece);
        proof {
            let full = stack_text(s, stack@);
            assert(full.take(k + 1).drop_last() =~= full.take(k as int));
            assert(full.take(k + 1).last() == range_text(s, r));
            reveal_strlit("/");
            assert("/"@ =~= seq!['/']);
            assert(render(full.take(k + 1)) == render(full.take(k as int)) + seq!['/'] + range_text(s, r));
        }
        k = k + 1;
    }
    proof {
        assert(stack_text(s, stack@).take(stack@.len() as int) =~= stack_text(s, stack@));
    }
    out
}

/// Resolves a requested path to the character ranges of its directory
/// names, or the first rule it breaks.
pub fn sanitize_names(user_path: &str) -> (res: Result<Vec<(usize, usize)>, SanitizeError>)
    ensures
        match sanitized_names(user_path@) {
            Ok(names) => res matches Ok(v) && stack_text(user_path@, v@) == names && ranges_within(
                v@,
                user_path@.len() as int,
            ),
            Err(e) => res matches Err(e2) && e2 == e,
        },
{
    let ghost s = user_path@;
    let total = user_path.unicode_len();
    if total > 0 && user_path.get_char(0) == '/' {
        return Err(SanitizeError::Absolute);
    }
    let mut stack: Vec<(usize, usize)> = Vec::new();
    let mut failed = false;
    let mut start: usize = 0;
    let mut idx: usize = 0;
    let mut all_dots = true;
    let ghost mut done: Seq<Seq<char>> = Seq::empty();
    assert(s.take(0) =~= Seq::<char>::empty());
    assert(stack_text(s, stack@) =~= Seq::<Seq<char>>::empty());
    for c in it: user_path.chars()
        invariant
            it.seq() == s,
            total == s.len(),
            idx == it.index(),
            start <= idx <= total,
            split_state(s.take(idx as int)) == (done, s.subrange(start as int, idx as int)),
            all_dots <==> (forall|k: int| start <= k < idx ==> s[k] == '.'),
            failed ==> resolve(done) is None,
            !failed ==> resolve(done) == Some(stack_text(s, stack@)),
            ranges_within(stack@, idx as int),
    {
        let ghost cur = s.subrange(start as int, idx as int);
        assert(s.take(idx + 1).drop_last() =~= s.take(idx as int));
        assert(s.take(idx + 1).last() == c);
        if c == '/' {
            failed = close_piece(&mut stack, failed, start, idx, all_dots, Ghost(s), Ghost(done));
            proof {
                done = keep_piece(done, cur);
                assert(s.subrange(idx + 1, idx + 1) =~= Seq::<char>::empty());
            }
            start = idx + 1;
            all_dots = true;
        } else {
            if c != '.' {
                all_dots = false;
            }
            assert(s.subrange(start as int, idx + 1) =~= cur.push(c));
        }
        idx = idx + 1;
    }
    assert(s.take(total as int) =~= s);
    failed = close_piece(&mut stack, failed, start, total, all_dots, Ghost(s), Ghost(done));
    if failed {
        return Err(SanitizeError::Traversal);
    }
    if stack.len() == 0 {
        return Err(SanitizeError::Empty);
    }
    Ok(stack)
}

impl SanitizeError {
    /// The message the refusal is reported with.
    pub fn message(&self) -> (m: &'static str)
        ensures
            m@ == error_message(*self),
    {
        match self {
            SanitizeError::Traversal => "Path traversal attempt detected",
            SanitizeError::Absolute => "Absolute paths are not allowed",
            SanitizeError::Empty => "File path cannot be empty",
        }
    }
}

/// Normalises a path taken from a request into `./a/b` form, refusing
/// absolute paths, any `..` that would climb above the starting
/// directory, and paths that name no file at all.
pub fn sanitize_relative_path(user_path: &str) -> (res: Result<String, &'static str>)
    ensures
        match sanitized(user_path@) {
            Ok(p) => res matches Ok(r) && r@ == p,
            Err(e) => res matches Err(m) && m@ == error_message(e),
        },
{
    match sanitize_names(user_path) {
        Ok(stack) => Ok(render_stack(user_path, &stack)),
        Err(e) => Err(e.message()),
    }
}

} // verus!

verus! {

/// A directory or file name that needs no further normalising.
pub open spec fn plain_name(p: Seq<char>) -> bool {
    &&& p.len() > 0
    &&& !p.contains('/')
    &&& p != seq!['.']
    &&& !is_parent_piece(p)
}

pub open spec fn all_plain(st: Seq<Seq<char>>) -> bool {
    forall|i: int| 0 <= i < st.len() ==> plain_name(#[trigger] st[i])
}

pub(crate) proof fn lemma_split_state_pieces(s: Seq<char>)
    ensures
        forall|i: int|
            0 <= i < split_state(s).0.len() ==> {
                let p = #[trigger] split_state(s).0[i];
                p.len() > 0 && !p.contains('/') && p != seq!['.']
            },
        !split_state(s).1.contains('/'),
    decreases s.len(),
{
    if s.len() > 0 {
        lemma_split_state_pieces(s.drop_last());
        let (done, cur) = split_state(s.drop_last());
        if s.last() != '/' {
            assert forall|k: int| 0 <= k < cur.push(s.last()).len() implies cur.push(s.last())[k]
                != '/' by {
                if k < cur.len() {
                    assert(!cur.contains('/'));
                    if cur[k] == '/' {
                        assert(cur.contains('/'));
                    }
                }
            }
        }
    }
}

pub(crate) proof fn lemma_pieces_shape(s: Seq<char>)
    ensures
        forall|i: int|
            0 <= i < pieces(s).len() ==> {
                let p = #[trigger] pieces(s)[i];
                p.len() > 0 && !p.contains('/') && p != seq!['.']
            },
{
    lemma_split_state_pieces(s);
}

pub(crate) proof fn lemma_resolve_from_pieces(ps: Seq<Seq<char>>)
    requires
        forall|i: int|
            0 <= i < ps.len() ==> {
                let p = #[trigger] ps[i];
                p.len() > 0 && !p.contains('/') && p != seq!['.']
            },
        resolve(ps) is Some,
    ensures
        all_plain(resolve(ps).unwrap()),
    decreases ps.len(),
{
    if ps.len() > 0 {
        lemma_resolve_from_pieces(ps.drop_last());
    }
}

pub(crate) proof fn lemma_resolve_plain(st: Seq<Seq<char>>)
    requires
        all_plain(st),
    ensures
        resolve(st) == Some(st),
    decreases st.len(),
{
    if st.len() > 0 {
        lemma_resolve_plain(st.drop_last());
        assert(st.drop_last().push(st.last()) =~= st);
    }
}

pub(crate) proof fn lemma_split_append_name(t: Seq<char>, w: Seq<char>)
    requires
        !w.contains('/'),
    ensures
        split_state(t + w) == (split_state(t).0, split_state(t).1 + w),
    decreases w.len(),
{
    if w.len() == 0 {
        assert(t + w =~= t);
        assert(split_state(t).1 + w =~= split_state(t).1);
    } else {
        let w0 = w.drop_last();
        assert(!w0.contains('/')) by {
            if w0.contains('/') {
                let k = choose|k: int| 0 <= k < w0.len() && w0[k] == '/';
                assert(w[k] == '/');
            }
        }
        lemma_split_append_name(t, w0);
        assert((t + w).drop_last() =~= t + w0);
        assert(w.last() != '/') by {
            if w.last() == '/' {
                assert(w[w.len() - 1] == '/');
            }
        }
        assert((split_state(t).1 + w0).push(w.last()) =~= split_state(t).1 + w);
    }
}

proof fn lemma_split_render(st: Seq<Seq<char>>)
    requires
        all_plain(st),
        st.len() > 0,
    ensures
        split_state(render(st)) == (st.drop_last(), st.last()),
    decreases st.len(),
{
    let prev = st.drop_last();
    let x = st.last();
    let with_sep = render(prev) + seq!['/'];
    assert(with_sep.drop_last() =~= render(prev));
    if prev.len() == 0 {
        assert(render(prev) =~= seq!['.']);
        assert(seq!['.'].drop_last() =~= Seq::<char>::empty());
        assert(split_state(Seq::<char>::empty()) == (Seq::<Seq<char>>::empty(), Seq::<char>::empty()));
        assert(split_state(seq!['.']) == (Seq::<Seq<char>>::empty(), Seq::<char>::empty().push('.')));
        assert(Seq::<char>::empty().push('.') =~= seq!['.']);
        assert(split_state(with_sep) == (Seq::<Seq<char>>::empty(), Seq::<char>::empty()));
    } else {
        lemma_split_render(prev);
        assert(prev.drop_last().push(prev.last()) =~= prev);
        assert(plain_name(prev[prev.len() - 1]));
        assert(split_state(with_sep) == (prev, Seq::<char>::empty()));
    }
    assert(plain_name(st[st.len() - 1]));
    lemma_split_append_name(with_sep, x);
    assert(Seq::<char>::empty() + x =~= x);
    assert(render(st) == with_sep + x);
}

pub(crate) proof fn lemma_pieces_render(st: Seq<Seq<char>>)
    requires
        all_plain(st),
        st.len() > 0,
    ensures
        pieces(render(st)) == st,
{
    lemma_split_render(st);
    assert(plain_name(st[st.len() - 1]));
    assert(st.drop_last().push(st.last()) =~= st);
}

proof fn lemma_render_relative(st: Seq<Seq<char>>)
    ensures
        render(st).len() > 0,
        render(st)[0] == '.',
    decreases st.len(),
{
    if st.len() > 0 {
        lemma_render_relative(st.drop_last());
    }
}

/// A sanitised path stays below the starting directory: it is relative,
/// names at least one entry, and none of its pieces is `..` or `.`.
pub proof fn lemma_sanitized_stays_inside(s: Seq<char>)
    requires
        sanitized(s) is Ok,
    ensures
        !is_absolute(sanitized(s)->Ok_0),
        pieces(sanitized(s)->Ok_0).len() > 0,
        all_plain(pieces(sanitized(s)->Ok_0)),
{
    lemma_pieces_shape(s);
    lemma_resolve_from_pieces(pieces(s));
    let st = resolve(pieces(s)).unwrap();
    lemma_pieces_render(st);
    lemma_render_relative(st);
}

/// Sanitising is idempotent: a path that was accepted is accepted again,
/// unchanged.
pub proof fn lemma_sanitize_idempotent(s: Seq<char>)
    requires
        sanitized(s) is Ok,
    ensures
        sanitized(sanitized(s)->Ok_0) == sanitized(s),
{
    lemma_pieces_shape(s);
    lemma_resolve_from_pieces(pieces(s));
    let st = resolve(pieces(s)).unwrap();
    lemma_pieces_render(st);
    lemma_render_relative(st);
    lemma_resolve_plain(st);
}

} // verus!
