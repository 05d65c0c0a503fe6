//! Lexical path handling for the sandbox: Unix path components, `.`/`..`
//! normalization, and the check that a resolved path stays inside the base
//! directory.

use vstd::prelude::*;

use crate::text::{
    chars_of, join, lemma_split_concat, lemma_split_no_sep, lemma_split_on_nonempty,
    lemma_split_pieces_free, push_str, same_chars, split_chars, split_on,
    string_from, string_of, views,
};

verus! {

/// A path component, as `std::path::Path::components` yields it on Unix.
pub enum Comp {
    Root,
    Cur,
    Parent,
    Normal(Seq<char>),
}

/// The executable form of a path component.
pub enum Part {
    Root,
    Cur,
    Parent,
    Normal(Vec<char>),
}

impl View for Part {
    type V = Comp;

    open spec fn view(&self) -> Comp {
        match self {
            Part::Root => Comp::Root,
            Part::Cur => Comp::Cur,
            Part::Parent => Comp::Parent,
            Part::Normal(v) => Comp::Normal(v@),
        }
    }
}

pub open spec fn part_views(v: Seq<Part>) -> Seq<Comp> {
    v.map_values(|p: Part| p@)
}

pub open spec fn dot() -> Seq<char> {
    seq!['.']
}

pub open spec fn dot_dot() -> Seq<char> {
    seq!['.', '.']
}

/// The component that a `/`-separated piece contributes: empty pieces and `.`
/// contribute none.
pub open spec fn piece_comp(p: Seq<char>) -> Seq<Comp> {
    if p.len() == 0 || p == dot() {
        Seq::<Comp>::empty()
    } else if p == dot_dot() {
        seq![Comp::Parent]
    } else {
        seq![Comp::Normal(p)]
    }
}

pub open spec fn comps_of_pieces(ps: Seq<Seq<char>>) -> Seq<Comp>
    decreases ps.len(),
{
    if ps.len() == 0 {
        Seq::<Comp>::empty()
    } else {
        comps_of_pieces(ps.drop_last()) + piece_comp(ps.last())
    }
}

/// The components of a path: a root for a leading `/`, a current-directory
/// component for a leading `.` of a relative path, then one component per
/// non-empty piece other than `.`.
pub open spec fn components(s: Seq<char>) -> Seq<Comp> {
    let ps = split_on(s, '/');
    if s.len() > 0 && s[0] == '/' {
        seq![Comp::Root] + comps_of_pieces(ps)
    } else if ps[0] == dot() {
        seq![Comp::Cur] + comps_of_pieces(ps)
    } else {
        comps_of_pieces(ps)
    }
}

/// A path built up by `PathBuf::push` and `PathBuf::pop`: whether it is
/// absolute, and its segments.
pub struct Norm {
    pub absolute: bool,
    pub segments: Seq<Seq<char>>,
}

/// One step of the normalization: a root restarts at `/`, `.` is dropped,
/// `..` removes the last segment (none at the top), other names are appended.
pub open spec fn norm_step(n: Norm, c: Comp) -> Norm {
    match c {
        Comp::Root => Norm { absolute: true, segments: Seq::<Seq<char>>::empty() },
        Comp::Cur => n,
        Comp::Parent => Norm {
            absolute: n.absolute,
            segments: if n.segments.len() > 0 {
                n.segments.drop_last()
            } else {
                n.segments
            },
        },
        Comp::Normal(x) => Norm { absolute: n.absolute, segments: n.segments.push(x) },
    }
}

pub open spec fn normalize(cs: Seq<Comp>) -> Norm
    decreases cs.len(),
{
    if cs.len() == 0 {
        Norm { absolute: false, segments: Seq::<Seq<char>>::empty() }
    } else {
        norm_step(normalize(cs.drop_last()), cs.last())
    }
}

/// Segments joined with `/`.
pub open spec fn join_segments(segs: Seq<Seq<char>>) -> Seq<char> {
    join(segs, seq!['/'])
}

/// The text of a normalized path.
pub open spec fn render(n: Norm) -> Seq<char> {
    if n.absolute {
        seq!['/'] + join_segments(n.segments)
    } else {
        join_segments(n.segments)
    }
}

/// Components of `path` joined onto `base` (`Path::join`): an absolute
/// `path` stands alone.
pub open spec fn joined_components(base: Seq<char>, path: Seq<char>) -> Seq<Comp> {
    if path.len() > 0 && path[0] == '/' {
        components(path)
    } else {
        components(base) + components(path)
    }
}

/// The lexically normalized text of `path` resolved against `base`.
pub open spec fn resolved(base: Seq<char>, path: Seq<char>) -> Seq<char> {
    render(normalize(joined_components(base, path)))
}

/// `a` is a prefix of `b`.
pub open spec fn comps_prefix(a: Seq<Comp>, b: Seq<Comp>) -> bool {
    a.len() <= b.len() && b.take(a.len() as int) == a
}

/// `Path::starts_with`: the components of `base` begin those of `p`.
pub open spec fn within(base: Seq<char>, p: Seq<char>) -> bool {
    comps_prefix(components(base), components(p))
}

/// The message given when a path leaves the sandbox.
pub open spec fn sandbox_error(base: Seq<char>, path: Seq<char>) -> Seq<char> {
    "path `"@ + path + "` resolves outside the working directory; access is sandboxed to "@ + base
}

fn is_dot(p: &Vec<char>) -> (r: bool)
    ensures
        r == (p@ == dot()),
{
    let r = p.len() == 1 && p[0] == '.';
    proof {
        if p.len() == 1 && p[0] == '.' {
            assert(p@ =~= dot());
        }
    }
    r
}

fn is_dot_dot(p: &Vec<char>) -> (r: bool)
    ensures
        r == (p@ == dot_dot()),
{
    let r = p.len() == 2 && p[0] == '.' && p[1] == '.';
    proof {
        if r {
            assert(p@ =~= dot_dot());
        }
    }
    r
}

/// `Path::components` on the text of a path.
pub fn components_of(s: &Vec<char>) -> (r: Vec<Part>)
    ensures
        part_views(r@) == components(s@),
{
    let pieces = split_chars(s, '/');
    proof {
        lemma_split_on_nonempty(s@, '/');
    }
    let ghost ps = split_on(s@, '/');
    let mut r: Vec<Part> = Vec::new();
    if s.len() > 0 && s[0] == '/' {
        r.push(Part::Root);
    } else if is_dot(&pieces[0]) {
        r.push(Part::Cur);
    }
    let ghost head = part_views(r@);
    let mut i: usize = 0;
    assert(ps.take(0) =~= Seq::<Seq<char>>::empty());
    assert(part_views(r@) =~= head + comps_of_pieces(ps.take(0)));
    while i < pieces.len()
        invariant
            views(pieces@) == ps,
            i <= pieces.len(),
            part_views(r@) == head + comps_of_pieces(ps.take(i as int)),
        decreases pieces.len() - i,
    {
        let p = &pieces[i];
        assert(p@ == ps[i as int]);
        assert(ps.take(i + 1).drop_last() =~= ps.take(i as int));
        assert(ps.take(i + 1).last() == ps[i as int]);
        let ghost before = part_views(r@);
        if p.len() == 0 || is_dot(p) {
            assert(part_views(r@) =~= head + comps_of_pieces(ps.take(i + 1)));
        } else if is_dot_dot(p) {
            r.push(Part::Parent);
            assert(part_views(r@) =~= before + seq![Comp::Parent]);
            assert(part_views(r@) =~= head + comps_of_pieces(ps.take(i + 1)));
        } else {
            r.push(Part::Normal(p.clone()));
            assert(part_views(r@) =~= before + seq![Comp::Normal(p@)]);
            assert(part_views(r@) =~= head + comps_of_pieces(ps.take(i + 1)));
        }
        i += 1;
    }
    assert(ps.take(pieces.len() as int) =~= ps);
    r
}

/// Applies `normalize` to executable components.
fn normalize_parts(cs: &Vec<Part>) -> (r: (bool, Vec<Vec<char>>))
    ensures
        normalize(part_views(cs@)) == (Norm { absolute: r.0, segments: views(r.1@) }),
{
    let mut absolute = false;
    let mut segs: Vec<Vec<char>> = Vec::new();
    let mut i: usize = 0;
    assert(part_views(cs@).take(0) =~= Seq::<Comp>::empty());
    assert(views(segs@) =~= Seq::<Seq<char>>::empty());
    while i < cs.len()
        invariant
            i <= cs.len(),
            normalize(part_views(cs@).take(i as int)) == (Norm {
                absolute,
                segments: views(segs@),
            }),
        decreases cs.len() - i,
    {
        let ghost prefix = part_views(cs@).take(i + 1);
        assert(prefix.drop_last() =~= part_views(cs@).take(i as int));
        assert(prefix.last() == cs@[i as int]@);
        match &cs[i] {
            Part::Root => {
                absolute = true;
                segs = Vec::new();
                assert(views(segs@) =~= Seq::<Seq<char>>::empty());
            },
            Part::Cur => {},
            Part::Parent => {
                if segs.len() > 0 {
                    let ghost before = views(segs@);
                    segs.pop();
                    assert(views(segs@) =~= before.drop_last());
                }
            },
            Part::Normal(x) => {
                let ghost before = views(segs@);
                segs.push(x.clone());
                assert(views(segs@) =~= before.push(x@));
            },
        }
        i += 1;
    }
    assert(part_views(cs@).take(cs.len() as int) =~= part_views(cs@));
    (absolute, segs)
}

/// Appends the segments joined with `/`.
fn push_joined(out: &mut Vec<char>, segs: &Vec<Vec<char>>)
    ensures
        final(out)@ == old(out)@ + join_segments(views(segs@)),
{
    let mut i: usize = 0;
    assert(views(segs@).take(0) =~= Seq::<Seq<char>>::empty());
    assert(old(out)@ + join_segments(Seq::<Seq<char>>::empty()) =~= old(out)@);
    while i < segs.len()
        invariant
            i <= segs.len(),
            out@ == old(out)@ + join_segments(views(segs@).take(i as int)),
        decreases segs.len() - i,
    {
        let ghost items = views(segs@).take(i + 1);
        assert(items.drop_last() =~= views(segs@).take(i as int));
        assert(items.last() == segs@[i as int]@);
        if i > 0 {
            out.push('/');
        }
        let seg = &segs[i];
        let mut j: usize = 0;
        let ghost mid = out@;
        while j < seg.len()
            invariant
                j <= seg.len(),
                out@ == mid + seg@.take(j as int),
            decreases seg.len() - j,
        {
            out.push(seg[j]);
            assert(seg@.take(j as int).push(seg@[j as int]) =~= seg@.take(j + 1));
            j += 1;
        }
        assert(seg@.take(seg.len() as int) =~= seg@);
        if i == 0 {
            assert(items.len() == 1);
            assert(out@ =~= old(out)@ + join_segments(items));
        } else {
            assert(out@ =~= old(out)@ + join_segments(items));
        }
        i += 1;
    }
    assert(views(segs@).take(segs.len() as int) =~= views(segs@));
}

/// Whether `a` is a prefix of `b`, component by component.
fn parts_prefix(a: &Vec<Part>, b: &Vec<Part>) -> (r: bool)
    ensures
        r == comps_prefix(part_views(a@), part_views(b@)),
{
    if a.len() > b.len() {
        return false;
    }
    let mut i: usize = 0;
    while i < a.len()
        invariant
            a.len() <= b.len(),
            i <= a.len(),
            forall|k: int| 0 <= k < i ==> a@[k]@ == b@[k]@,
        decreases a.len() - i,
    {
        let same = match (&a[i], &b[i]) {
            (Part::Root, Part::Root) => true,
            (Part::Cur, Part::Cur) => true,
            (Part::Parent, Part::Parent) => true,
            (Part::Normal(x), Part::Normal(y)) => same_chars(x, y),
            _ => false,
        };
        if !same {
            assert(part_views(b@).take(a.len() as int)[i as int] != part_views(a@)[i as int]);
            return false;
        }
        i += 1;
    }
    assert(part_views(b@).take(a.len() as int) =~= part_views(a@));
    true
}

/// Joins `path` onto `base`, normalizes `.` and `..` lexically (so paths to
/// files that do not exist yet work), and rejects any result that does not
/// lie inside `base`.
pub fn resolve_within(base: &str, path: &str) -> (r: Result<String, String>)
    ensures
        r is Ok <==> within(base@, resolved(base@, path@)),
        r matches Ok(p) ==> p@ == resolved(base@, path@),
        r matches Err(e) ==> e@ == sandbox_error(base@, path@),
{
    let b = chars_of(base);
    let p = chars_of(path);
    let base_parts = components_of(&b);
    let path_parts = components_of(&p);
    let joined: Vec<Part> = if p.len() > 0 && p[0] == '/' {
        path_parts
    } else {
        let mut j: Vec<Part> = Vec::new();
        let mut i: usize = 0;
        while i < base_parts.len()
            invariant
                i <= base_parts.len(),
                part_views(j@) == part_views(base_parts@).take(i as int),
            decreases base_parts.len() - i,
        {
            let c = match &base_parts[i] {
                Part::Root => Part::Root,
                Part::Cur => Part::Cur,
                Part::Parent => Part::Parent,
                Part::Normal(x) => Part::Normal(x.clone()),
            };
            let ghost before = part_views(j@);
            j.push(c);
            assert(part_views(j@) =~= before.push(base_parts@[i as int]@));
            assert(part_views(base_parts@).take(i + 1) =~= part_views(base_parts@).take(
                i as int,
            ).push(base_parts@[i as int]@));
            i += 1;
        }
        assert(part_views(base_parts@).take(base_parts.len() as int) =~= part_views(
            base_parts@,
        ));
        let ghost mid = part_views(j@);
        let mut path_parts = path_parts;
        j.append(&mut path_parts);
        assert(part_views(j@) =~= mid + components(p@));
        j
    };
    let (absolute, segs) = normalize_parts(&joined);
    let mut out: Vec<char> = Vec::new();
    if absolute {
        out.push('/');
    }
    push_joined(&mut out, &segs);
    assert(out@ =~= resolved(base@, path@));
    let out_parts = components_of(&out);
    if parts_prefix(&base_parts, &out_parts) {
        Ok(string_of(&out))
    } else {
        let mut e = string_from("path `");
        push_str(&mut e, path);
        push_str(&mut e, "` resolves outside the working directory; access is sandboxed to ");
        push_str(&mut e, base);
        Err(e)
    }
}

} // verus!

verus! {

// ---------------------------------------------------------------------------
// Laws of resolution
// ---------------------------------------------------------------------------

/// A segment that a normalized path can hold: not empty, not `.` or `..`, and
/// free of `/`.
pub open spec fn clean_segment(x: Seq<char>) -> bool {
    &&& x.len() > 0
    &&& x != dot()
    &&& x != dot_dot()
    &&& forall|j: int| 0 <= j < x.len() ==> x[j] != '/'
}

pub open spec fn clean_segments(segs: Seq<Seq<char>>) -> bool {
    forall|i: int| 0 <= i < segs.len() ==> clean_segment(#[trigger] segs[i])
}

/// Components of a normalized path: a root only in front, and otherwise
/// plain names.
pub open spec fn normalized_components(c: Seq<Comp>) -> bool {
    forall|i: int|
        0 <= i < c.len() ==> (#[trigger] c[i] is Normal || (i == 0 && c[i] is Root))
}

pub open spec fn names(segs: Seq<Seq<char>>) -> Seq<Comp> {
    segs.map_values(|x: Seq<char>| Comp::Normal(x))
}

pub open spec fn norm_components(n: Norm) -> Seq<Comp> {
    if n.absolute {
        seq![Comp::Root] + names(n.segments)
    } else {
        names(n.segments)
    }
}

proof fn lemma_split_join(segs: Seq<Seq<char>>)
    requires
        segs.len() > 0,
        clean_segments(segs),
    ensures
        split_on(join_segments(segs), '/') == segs,
    decreases segs.len(),
{
    if segs.len() == 1 {
        assert(clean_segment(segs[0]));
        lemma_split_no_sep(segs[0], '/');
        assert(seq![segs[0]] =~= segs);
    } else {
        let init = segs.drop_last();
        assert(clean_segments(init)) by {
            assert forall|i: int| 0 <= i < init.len() implies clean_segment(#[trigger] init[i]) by {
                assert(init[i] == segs[i]);
            }
        }
        lemma_split_join(init);
        assert(clean_segment(segs[segs.len() - 1]));
        lemma_split_no_sep(segs.last(), '/');
        lemma_split_concat(join_segments(init), segs.last(), '/');
        assert(init + seq![segs.last()] =~= segs);
    }
}

proof fn lemma_comps_of_pieces_concat(a: Seq<Seq<char>>, b: Seq<Seq<char>>)
    ensures
        comps_of_pieces(a + b) == comps_of_pieces(a) + comps_of_pieces(b),
    decreases b.len(),
{
    if b.len() == 0 {
        assert(a + b =~= a);
        assert(comps_of_pieces(a) + comps_of_pieces(b) =~= comps_of_pieces(a));
    } else {
        assert((a + b).drop_last() =~= a + b.drop_last());
        lemma_comps_of_pieces_concat(a, b.drop_last());
        assert(comps_of_pieces(a) + comps_of_pieces(b.drop_last()) + piece_comp(b.last())
            =~= comps_of_pieces(a) + (comps_of_pieces(b.drop_last()) + piece_comp(b.last())));
    }
}

proof fn lemma_comps_of_clean(segs: Seq<Seq<char>>)
    requires
        clean_segments(segs),
    ensures
        comps_of_pieces(segs) == names(segs),
    decreases segs.len(),
{
    if segs.len() > 0 {
        let init = segs.drop_last();
        assert(clean_segments(init)) by {
            assert forall|i: int| 0 <= i < init.len() implies clean_segment(#[trigger] init[i]) by {
                assert(init[i] == segs[i]);
            }
        }
        lemma_comps_of_clean(init);
        assert(clean_segment(segs[segs.len() - 1]));
        assert(names(init) + seq![Comp::Normal(segs.last())] =~= names(segs));
    } else {
        assert(names(segs) =~= Seq::<Comp>::empty());
    }
}

/// The components of a rendered path with clean segments are its root (if
/// any) followed by its segments.
pub proof fn lemma_components_of_render(n: Norm)
    requires
        clean_segments(n.segments),
    ensures
        components(render(n)) == norm_components(n),
{
    let j = join_segments(n.segments);
    let e = Seq::<char>::empty();
    if n.segments.len() == 0 {
        assert(j =~= e);
        assert(names(n.segments) =~= Seq::<Comp>::empty());
        if n.absolute {
            assert(render(n) =~= e + seq!['/'] + e);
            lemma_split_concat(e, e, '/');
            assert(split_on(render(n), '/') =~= seq![e, e]);
            lemma_comps_of_pieces_concat(seq![e], seq![e]);
            assert(comps_of_pieces(seq![e]) =~= Seq::<Comp>::empty()) by {
                assert(seq![e].drop_last() =~= Seq::<Seq<char>>::empty());
                assert(seq![e].last() == e);
                assert(piece_comp(e) =~= Seq::<Comp>::empty());
                assert(comps_of_pieces(Seq::<Seq<char>>::empty()) =~= Seq::<Comp>::empty());
            }
            assert(seq![e] + seq![e] =~= seq![e, e]);
            assert(components(render(n)) =~= norm_components(n));
        } else {
            assert(render(n) =~= e);
            assert(split_on(e, '/') =~= seq![e]);
            assert(e != dot());
            assert(seq![e].drop_last() =~= Seq::<Seq<char>>::empty());
            assert(seq![e].last() == e);
            assert(piece_comp(e) =~= Seq::<Comp>::empty());
            assert(comps_of_pieces(Seq::<Seq<char>>::empty()) =~= Seq::<Comp>::empty());
            assert(comps_of_pieces(seq![e]) =~= Seq::<Comp>::empty());
            assert(components(render(n)) =~= norm_components(n));
        }
    } else {
        lemma_split_join(n.segments);
        lemma_comps_of_clean(n.segments);
        assert(clean_segment(n.segments[0]));
        if n.absolute {
            assert(render(n) =~= e + seq!['/'] + j);
            lemma_split_concat(e, j, '/');
            assert(split_on(e, '/') =~= seq![e]);
            lemma_comps_of_pieces_concat(seq![e], n.segments);
            assert(comps_of_pieces(seq![e]) =~= Seq::<Comp>::empty()) by {
                assert(seq![e].drop_last() =~= Seq::<Seq<char>>::empty());
                assert(seq![e].last() == e);
                assert(piece_comp(e) =~= Seq::<Comp>::empty());
                assert(comps_of_pieces(Seq::<Seq<char>>::empty()) =~= Seq::<Comp>::empty());
            }
            assert(Seq::<Comp>::empty() + names(n.segments) =~= names(n.segments));
            assert(components(render(n)) =~= norm_components(n));
        } else {
            assert(render(n) == j);
            if j.len() > 0 && j[0] == '/' {
                assert(j =~= e + seq!['/'] + j.drop_first());
                lemma_split_concat(e, j.drop_first(), '/');
                assert(split_on(e, '/') =~= seq![e]);
                assert(n.segments[0] == split_on(j, '/')[0]);
                assert(false);
            }
            assert(split_on(j, '/')[0] == n.segments[0]);
            assert(n.segments[0] != dot());
            assert(components(render(n)) =~= norm_components(n));
        }
    }
}

proof fn lemma_comps_clean(s: Seq<char>)
    ensures
        forall|i: int|
            0 <= i < components(s).len() ==> (#[trigger] components(s)[i] matches Comp::Normal(
                x,
            ) ==> clean_segment(x)),
{
    let ps = split_on(s, '/');
    lemma_pieces_clean(ps, s);
    let c = components(s);
    assert forall|i: int|
        0 <= i < c.len() implies (#[trigger] c[i] matches Comp::Normal(x) ==> clean_segment(x)) by {
        if s.len() > 0 && s[0] == '/' {
            assert(c == seq![Comp::Root] + comps_of_pieces(ps));
            if i > 0 {
                assert(c[i] == comps_of_pieces(ps)[i - 1]);
            }
        } else if ps[0] == dot() {
            assert(c == seq![Comp::Cur] + comps_of_pieces(ps));
            if i > 0 {
                assert(c[i] == comps_of_pieces(ps)[i - 1]);
            }
        }
    }
}

/// Every name that the pieces of `s` contribute is a clean segment.
proof fn lemma_pieces_clean(ps: Seq<Seq<char>>, s: Seq<char>)
    requires
        ps == split_on(s, '/'),
    ensures
        forall|i: int|
            0 <= i < comps_of_pieces(ps).len() ==> (#[trigger] comps_of_pieces(ps)[i] matches Comp::Normal(
                x,
            ) ==> clean_segment(x)),
{
    lemma_split_pieces_free(s, '/');
    lemma_pieces_clean_gen(ps);
}

proof fn lemma_pieces_clean_gen(ps: Seq<Seq<char>>)
    requires
        forall|i: int, j: int| 0 <= i < ps.len() && 0 <= j < ps[i].len() ==> #[trigger] ps[i][j] != '/',
    ensures
        forall|i: int|
            0 <= i < comps_of_pieces(ps).len() ==> (#[trigger] comps_of_pieces(ps)[i] matches Comp::Normal(
                x,
            ) ==> clean_segment(x)),
    decreases ps.len(),
{
    if ps.len() > 0 {
        let init = ps.drop_last();
        assert forall|i: int, j: int| 0 <= i < init.len() && 0 <= j < init[i].len() implies #[trigger] init[i][j]
            != '/' by {
            assert(init[i] == ps[i]);
        }
        lemma_pieces_clean_gen(init);
        let a = comps_of_pieces(init);
        let b = piece_comp(ps.last());
        let c = comps_of_pieces(ps);
        assert(c == a + b);
        assert forall|i: int| 0 <= i < c.len() implies (#[trigger] c[i] matches Comp::Normal(x)
            ==> clean_segment(x)) by {
            if i >= a.len() {
                assert(c[i] == b[i - a.len()]);
                if let Comp::Normal(x) = b[i - a.len()] {
                    assert(x == ps.last());
                    assert forall|j: int| 0 <= j < x.len() implies x[j] != '/' by {
                        assert(ps[ps.len() - 1][j] != '/');
                    }
                }
            } else {
                assert(c[i] == a[i]);
            }
        }
    }
}

/// Normalization only ever holds clean segments.
proof fn lemma_normalize_clean(cs: Seq<Comp>)
    requires
        forall|i: int| 0 <= i < cs.len() ==> (#[trigger] cs[i] matches Comp::Normal(x) ==> clean_segment(x)),
    ensures
        clean_segments(normalize(cs).segments),
    decreases cs.len(),
{
    if cs.len() > 0 {
        let init = cs.drop_last();
        assert forall|i: int| 0 <= i < init.len() implies (#[trigger] init[i] matches Comp::Normal(x)
            ==> clean_segment(x)) by {
            assert(init[i] == cs[i]);
        }
        lemma_normalize_clean(init);
        let n = normalize(init);
        let m = normalize(cs);
        assert(cs.last() == cs[cs.len() - 1]);
        assert forall|i: int| 0 <= i < m.segments.len() implies clean_segment(#[trigger] m.segments[i]) by {
            match cs.last() {
                Comp::Normal(x) => {
                    if i < n.segments.len() {
                        assert(m.segments[i] == n.segments[i]);
                    }
                },
                Comp::Parent => {
                    if n.segments.len() > 0 {
                        assert(m.segments[i] == n.segments[i]);
                    }
                },
                _ => {},
            }
        }
    }
}

proof fn lemma_joined_clean(base: Seq<char>, path: Seq<char>)
    ensures
        clean_segments(normalize(joined_components(base, path)).segments),
{
    lemma_comps_clean(base);
    lemma_comps_clean(path);
    let cs = joined_components(base, path);
    assert forall|i: int| 0 <= i < cs.len() implies (#[trigger] cs[i] matches Comp::Normal(x)
        ==> clean_segment(x)) by {
        if !(path.len() > 0 && path[0] == '/') {
            let cb = components(base);
            if i < cb.len() {
                assert(cs[i] == cb[i]);
            } else {
                assert(cs[i] == components(path)[i - cb.len()]);
            }
        }
    }
    lemma_normalize_clean(cs);
}

/// A path that `resolve_within` accepts is normalized: it holds no `.` or
/// `..` components, and a root only at its start.
pub proof fn law_resolved_is_normalized(base: Seq<char>, path: Seq<char>)
    ensures
        normalized_components(components(resolved(base, path))),
{
    let n = normalize(joined_components(base, path));
    lemma_joined_clean(base, path);
    lemma_components_of_render(n);
    let c = norm_components(n);
    assert forall|i: int| 0 <= i < c.len() implies (#[trigger] c[i] is Normal || (i == 0
        && c[i] is Root)) by {
        if n.absolute && i > 0 {
            assert(c[i] == names(n.segments)[i - 1]);
        }
    }
}

proof fn lemma_normalize_names(n: Norm)
    requires
        n.absolute,
    ensures
        normalize(norm_components(n)) == n,
    decreases n.segments.len(),
{
    let c = norm_components(n);
    if n.segments.len() == 0 {
        assert(c =~= seq![Comp::Root]);
        assert(c.drop_last() =~= Seq::<Comp>::empty());
        assert(n.segments =~= Seq::<Seq<char>>::empty());
    } else {
        let m = Norm { absolute: true, segments: n.segments.drop_last() };
        lemma_normalize_names(m);
        assert(c.drop_last() =~= norm_components(m));
        assert(c.last() == Comp::Normal(n.segments.last()));
        assert(m.segments.push(n.segments.last()) =~= n.segments);
    }
}

/// Resolving an accepted path again against an absolute base gives it back
/// unchanged.
pub proof fn law_resolve_idempotent(base: Seq<char>, path: Seq<char>)
    requires
        base.len() > 0,
        base[0] == '/',
        within(base, resolved(base, path)),
    ensures
        resolved(base, resolved(base, path)) == resolved(base, path),
        within(base, resolved(base, resolved(base, path))),
{
    let n = normalize(joined_components(base, path));
    let p = resolved(base, path);
    lemma_joined_clean(base, path);
    lemma_components_of_render(n);
    lemma_absolute_stays(joined_components(base, path), base, path);
    assert(n.absolute);
    assert(p.len() > 0 && p[0] == '/');
    assert(joined_components(base, p) == norm_components(n));
    lemma_normalize_names(n);
}

proof fn lemma_normalize_absolute(cs: Seq<Comp>)
    requires
        cs.len() > 0,
        cs[0] == Comp::Root,
    ensures
        normalize(cs).absolute,
    decreases cs.len(),
{
    if cs.len() > 1 {
        lemma_normalize_absolute(cs.drop_last());
    } else {
        assert(cs.drop_last() =~= Seq::<Comp>::empty());
    }
}

proof fn lemma_absolute_stays(cs: Seq<Comp>, base: Seq<char>, path: Seq<char>)
    requires
        cs == joined_components(base, path),
        base.len() > 0,
        base[0] == '/',
    ensures
        normalize(cs).absolute,
{
    if path.len() > 0 && path[0] == '/' {
        assert(components(path)[0] == Comp::Root);
    } else {
        assert(components(base)[0] == Comp::Root);
        assert(cs[0] == components(base)[0]);
    }
    lemma_normalize_absolute(cs);
}

} // verus!

verus! {

/// The names of the plain components.
pub open spec fn plain_names(cs: Seq<Comp>) -> Seq<Seq<char>>
    decreases cs.len(),
{
    if cs.len() == 0 {
        Seq::<Seq<char>>::empty()
    } else {
        match cs.last() {
            Comp::Normal(x) => plain_names(cs.drop_last()).push(x),
            _ => plain_names(cs.drop_last()),
        }
    }
}

/// Components with neither a root nor `..`.
pub open spec fn no_root_or_parent(cs: Seq<Comp>) -> bool {
    forall|i: int| 0 <= i < cs.len() ==> !(#[trigger] cs[i] is Root) && !(cs[i] is Parent)
}

proof fn lemma_normalize_extend(cs: Seq<Comp>, ds: Seq<Comp>)
    requires
        no_root_or_parent(ds),
    ensures
        normalize(cs + ds) == (Norm {
            absolute: normalize(cs).absolute,
            segments: normalize(cs).segments + plain_names(ds),
        }),
    decreases ds.len(),
{
    if ds.len() == 0 {
        assert(cs + ds =~= cs);
        assert(normalize(cs).segments + plain_names(ds) =~= normalize(cs).segments);
    } else {
        let init = ds.drop_last();
        assert(no_root_or_parent(init)) by {
            assert forall|i: int| 0 <= i < init.len() implies !(#[trigger] init[i] is Root) && !(
            init[i] is Parent) by {
                assert(init[i] == ds[i]);
            }
        }
        lemma_normalize_extend(cs, init);
        assert((cs + ds).drop_last() =~= cs + init);
        assert((cs + ds).last() == ds.last());
        assert(ds.last() == ds[ds.len() - 1]);
        match ds.last() {
            Comp::Normal(x) => {
                assert(normalize(cs).segments + plain_names(init).push(x) =~= (normalize(cs).segments
                    + plain_names(init)).push(x));
            },
            _ => {},
        }
    }
}

proof fn lemma_plain_names_of_names(segs: Seq<Seq<char>>)
    ensures
        plain_names(names(segs)) == segs,
        no_root_or_parent(names(segs)),
    decreases segs.len(),
{
    if segs.len() > 0 {
        lemma_plain_names_of_names(segs.drop_last());
        assert(names(segs).drop_last() =~= names(segs.drop_last()));
        assert(segs.drop_last().push(segs.last()) =~= segs);
    } else {
        assert(names(segs) =~= Seq::<Comp>::empty());
        assert(segs =~= Seq::<Seq<char>>::empty());
    }
}

/// A relative path without `..` resolves inside any absolute, normalized
/// base: it can only descend.
pub proof fn law_descending_paths_stay_inside(base: Seq<char>, path: Seq<char>)
    requires
        base.len() > 0,
        base[0] == '/',
        normalized_components(components(base)),
        !(path.len() > 0 && path[0] == '/'),
        forall|i: int| 0 <= i < components(path).len() ==> !(#[trigger] components(path)[i] is Parent),
    ensures
        within(base, resolved(base, path)),
{
    let cb = components(base);
    let cp = components(path);
    // The base's components are its root and then plain names.
    assert(cb[0] == Comp::Root) by {
        assert(cb == seq![Comp::Root] + comps_of_pieces(split_on(base, '/')));
    }
    let tail = cb.drop_first();
    assert(no_root_or_parent(tail)) by {
        assert forall|i: int| 0 <= i < tail.len() implies !(#[trigger] tail[i] is Root) && !(
        tail[i] is Parent) by {
            assert(tail[i] == cb[i + 1]);
        }
    }
    assert(cb =~= seq![Comp::Root] + tail);
    lemma_normalize_extend(seq![Comp::Root], tail);
    assert(seq![Comp::Root].drop_last() =~= Seq::<Comp>::empty());
    let s = plain_names(tail);
    // The path's components are current-directory marks and plain names.
    assert(cp.len() == 0 || !(cp[0] is Root)) by {
        if cp.len() > 0 && cp[0] is Root {
            let ps = split_on(path, '/');
            if ps[0] == dot() {
                assert(cp == seq![Comp::Cur] + comps_of_pieces(ps));
            } else {
                assert(cp == comps_of_pieces(ps));
                lemma_pieces_no_root(ps);
            }
        }
    }
    assert(no_root_or_parent(cp)) by {
        let ps = split_on(path, '/');
        lemma_pieces_no_root(ps);
        assert forall|i: int| 0 <= i < cp.len() implies !(#[trigger] cp[i] is Root) && !(
        cp[i] is Parent) by {
            if ps[0] == dot() {
                assert(cp == seq![Comp::Cur] + comps_of_pieces(ps));
                if i > 0 {
                    assert(cp[i] == comps_of_pieces(ps)[i - 1]);
                }
            } else {
                assert(cp == comps_of_pieces(ps));
            }
        }
    }
    lemma_normalize_extend(cb, cp);
    let t = plain_names(cp);
    let n = normalize(joined_components(base, path));
    assert(n == Norm { absolute: true, segments: s + t });
    lemma_joined_clean(base, path);
    lemma_components_of_render(n);
    // The base's components are exactly the root and its names.
    lemma_names_of_plain(tail);
    assert(names(s + t) =~= names(s) + names(t));
    let r = norm_components(n);
    assert(r.take(cb.len() as int) =~= cb);
}

proof fn lemma_pieces_no_root(ps: Seq<Seq<char>>)
    ensures
        forall|i: int| 0 <= i < comps_of_pieces(ps).len() ==> !(#[trigger] comps_of_pieces(ps)[i] is Root),
    decreases ps.len(),
{
    if ps.len() > 0 {
        lemma_pieces_no_root(ps.drop_last());
        let a = comps_of_pieces(ps.drop_last());
        let b = piece_comp(ps.last());
        assert forall|i: int| 0 <= i < comps_of_pieces(ps).len() implies !(
        #[trigger] comps_of_pieces(ps)[i] is Root) by {
            if i < a.len() {
                assert(comps_of_pieces(ps)[i] == a[i]);
            } else {
                assert(comps_of_pieces(ps)[i] == b[i - a.len()]);
            }
        }
    }
}

/// Components that are all plain names are the names of their strings.
proof fn lemma_names_of_plain(cs: Seq<Comp>)
    requires
        forall|i: int| 0 <= i < cs.len() ==> #[trigger] cs[i] is Normal,
    ensures
        names(plain_names(cs)) == cs,
    decreases cs.len(),
{
    if cs.len() > 0 {
        let init = cs.drop_last();
        assert forall|i: int| 0 <= i < init.len() implies #[trigger] init[i] is Normal by {
            assert(init[i] == cs[i]);
        }
        lemma_names_of_plain(init);
        assert(cs.last() == cs[cs.len() - 1]);
        if let Comp::Normal(x) = cs.last() {
            assert(plain_names(cs) == plain_names(init).push(x));
            assert(names(plain_names(init).push(x)) =~= names(plain_names(init)).push(
                Comp::Normal(x),
            ));
            assert(init.push(cs.last()) =~= cs);
        }
    } else {
        assert(names(plain_names(cs)) =~= cs);
    }
}

} // verus!
