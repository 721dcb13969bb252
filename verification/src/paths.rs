//! Paths as they are written with `/`.

use vstd::prelude::*;

use crate::text;

verus! {

/// What a path names: whether it begins at the root, and its parts. Repeated and trailing
/// separators make no parts, and neither does `.`, except as the beginning of a relative path.
pub struct PathView {
    pub absolute: bool,
    pub parts: Seq<Seq<char>>,
}

/// The pieces that are parts of a path.
pub open spec fn components(pieces: Seq<Seq<char>>) -> Seq<Seq<char>>
    decreases pieces.len(),
{
    if pieces.len() == 0 {
        pieces
    } else {
        let before = components(pieces.drop_last());
        let piece = pieces.last();
        if piece.len() == 0 || (piece == seq!['.'] && pieces.len() > 1) {
            before
        } else {
            before.push(piece)
        }
    }
}

/// What a path names.
pub open spec fn path_of(s: Seq<char>) -> PathView {
    PathView {
        absolute: s.len() > 0 && s[0] == '/',
        parts: components(text::pieces(s, '/')),
    }
}

/// The last part of a path, unless that is `.` or `..` or there is none.
pub open spec fn file_name_of(s: Seq<char>) -> Option<Seq<char>> {
    let parts = path_of(s).parts;
    if parts.len() > 0 && parts.last() != seq!['.'] && parts.last() != seq!['.', '.'] {
        Some(parts.last())
    } else {
        None
    }
}

/// What follows the last dot of a file name, unless there is no dot but one in front.
pub open spec fn extension_of(name: Seq<char>) -> Option<Seq<char>> {
    let pieces = text::pieces(name, '.');
    if pieces.len() < 2 || (pieces.len() == 2 && pieces[0].len() == 0) {
        None
    } else {
        Some(pieces.last())
    }
}

/// The parts, with one separator between each two.
pub open spec fn join(parts: Seq<Seq<char>>) -> Seq<char>
    decreases parts.len(),
{
    if parts.len() == 0 {
        Seq::<char>::empty()
    } else if parts.len() == 1 {
        parts[0]
    } else {
        join(parts.drop_last()) + seq!['/'] + parts.last()
    }
}

/// The shortest way to write a path.
pub open spec fn key_of(path: PathView) -> Seq<char> {
    (if path.absolute {
        seq!['/']
    } else {
        Seq::<char>::empty()
    }) + join(path.parts)
}

/// The path without its last part; nothing if it has no parts.
pub open spec fn parent_of(path: PathView) -> Option<PathView> {
    if path.parts.len() == 0 {
        None
    } else {
        Some(PathView { absolute: path.absolute, parts: path.parts.drop_last() })
    }
}

fn is_one_dot(s: &String) -> (r: bool)
    ensures
        r == (s@ == seq!['.']),
{
    proof {
        reveal_strlit(".");
    }
    assert("."@ =~= seq!['.']);
    text::same_text(s.as_str(), ".")
}

fn is_two_dots(s: &String) -> (r: bool)
    ensures
        r == (s@ == seq!['.', '.']),
{
    proof {
        reveal_strlit("..");
    }
    assert(".."@ =~= seq!['.', '.']);
    text::same_text(s.as_str(), "..")
}

/// The parts of a path.
fn split_path(path: &str) -> (r: Vec<String>)
    ensures
        text::views(r@) == path_of(path@).parts,
{
    let pieces = text::split_on(path, '/');
    let ghost all = text::views(pieces@);
    let mut r: Vec<String> = Vec::new();
    let mut i: usize = 0;
    assert(text::views(r@) =~= components(all.take(0)));
    while i < pieces.len()
        invariant
            i <= pieces@.len(),
            all == text::views(pieces@),
            text::views(r@) == components(all.take(i as int)),
        decreases pieces@.len() - i,
    {
        let ghost before = text::views(r@);
        let piece = &pieces[i];
        assert(all.take(i + 1).drop_last() =~= all.take(i as int));
        assert(all.take(i + 1).last() == piece@);
        if !(piece.as_str().is_empty() || (i > 0 && is_one_dot(piece))) {
            r.push(piece.clone());
            assert(text::views(r@) =~= before.push(piece@));
        }
        i = i + 1;
    }
    assert(all.take(i as int) =~= all);
    r
}

/// The file name of a path.
pub(crate) fn file_name(path: &str) -> (r: Option<String>)
    ensures
        r is Some <==> file_name_of(path@) is Some,
        r matches Some(name) ==> file_name_of(path@) == Some(name@),
{
    let parts = split_path(path);
    let ghost all = text::views(parts@);
    let n: usize = parts.len();
    if n == 0 {
        return None;
    }
    assert(all.last() == parts@[n - 1]@);
    if is_one_dot(&parts[n - 1]) || is_two_dots(&parts[n - 1]) {
        return None;
    }
    Some(parts[n - 1].clone())
}

/// The extension of a file name.
pub(crate) fn extension(name: &str) -> (r: Option<String>)
    ensures
        r is Some <==> extension_of(name@) is Some,
        r matches Some(ext) ==> extension_of(name@) == Some(ext@),
{
    let pieces = text::split_on(name, '.');
    let ghost all = text::views(pieces@);
    let n: usize = pieces.len();
    if n < 2 {
        return None;
    }
    assert(all[0] == pieces@[0]@);
    assert(all.last() == pieces@[n - 1]@);
    if n == 2 && pieces[0].as_str().is_empty() {
        return None;
    }
    Some(pieces[n - 1].clone())
}

/// The first `n` parts, written as a path.
fn write_path(absolute: bool, parts: &Vec<String>, n: usize) -> (r: String)
    requires
        n <= parts@.len(),
    ensures
        r@ == key_of(PathView { absolute, parts: text::views(parts@).take(n as int) }),
{
    let ghost all = text::views(parts@);
    let ghost front = if absolute {
        seq!['/']
    } else {
        Seq::<char>::empty()
    };
    let mut r: String = String::new();
    if absolute {
        r.push('/');
    }
    assert(r@ =~= front);
    let mut i: usize = 0;
    assert(r@ =~= front + join(all.take(0)));
    while i < n
        invariant
            i <= n <= parts@.len(),
            all == text::views(parts@),
            r@ == front + join(all.take(i as int)),
        decreases n - i,
    {
        if i > 0 {
            r.push('/');
        }
        r.append(parts[i].as_str());
        proof {
            let now = all.take(i + 1);
            assert(now.drop_last() =~= all.take(i as int));
            assert(now.last() == parts@[i as int]@);
            assert(r@ =~= front + join(now));
        }
        i = i + 1;
    }
    r
}

fn begins_at_root(path: &str) -> (r: bool)
    ensures
        r == path_of(path@).absolute,
{
    proof {
        reveal_strlit("/");
    }
    assert("/"@ =~= seq!['/']);
    assert(path@.len() > 0 ==> path@.take(1) =~= seq![path@[0]]);
    assert(seq!['/'][0] == '/');
    assert(path@.len() > 0 ==> seq![path@[0]][0] == path@[0]);
    text::after_prefix(path, "/").is_some()
}

/// The shortest way to write a path.
pub(crate) fn path_key(path: &str) -> (r: String)
    ensures
        r@ == key_of(path_of(path@)),
{
    let parts = split_path(path);
    assert(text::views(parts@).take(parts@.len() as int) =~= text::views(parts@));
    write_path(begins_at_root(path), &parts, parts.len())
}

/// The shortest way to write the path without its last part.
pub(crate) fn parent_key(path: &str) -> (r: Option<String>)
    ensures
        r is Some <==> parent_of(path_of(path@)) is Some,
        r matches Some(key) ==> key@ == key_of(parent_of(path_of(path@))->0),
{
    let parts = split_path(path);
    let n: usize = parts.len();
    assert(text::views(parts@).len() == n);
    if n == 0 {
        return None;
    }
    assert(text::views(parts@).take(n - 1) =~= text::views(parts@).drop_last());
    Some(write_path(begins_at_root(path), &parts, n - 1))
}

/// Parts that a path can have: none is empty, none has a separator in it, and `.` is only the
/// first of a relative path.
pub open spec fn well_formed(path: PathView) -> bool {
    forall|i: int| 0 <= i < path.parts.len() ==> {
        let part = #[trigger] path.parts[i];
        &&& part.len() > 0
        &&& !part.contains('/')
        &&& part == seq!['.'] ==> i == 0 && !path.absolute
    }
}

proof fn lemma_pieces_of(s: Seq<char>, sep: char)
    ensures
        text::pieces(s, sep).len() > 0,
        forall|i: int|
            0 <= i < text::pieces(s, sep).len() ==> !(#[trigger] text::pieces(s, sep)[i]).contains(
                sep,
            ),
        s.len() > 0 && s[0] == sep ==> text::pieces(s, sep)[0].len() == 0,
        !s.contains(sep) ==> text::pieces(s, sep) == seq![s],
    decreases s.len(),
{
    let all = text::pieces(s, sep);
    if s.len() == 0 {
        assert(all[0].len() == 0);
        assert(s =~= Seq::<char>::empty());
    } else {
        let init = s.drop_last();
        let before = text::pieces(init, sep);
        lemma_pieces_of(init, sep);
        assert forall|i: int| 0 <= i < all.len() implies !(#[trigger] all[i]).contains(sep) by {
            if i < before.len() - 1 || s.last() == sep && i < before.len() {
                assert(all[i] == before[i]);
            } else if s.last() != sep {
                assert(all[i] == before.last().push(s.last()));
                assert(!before[before.len() - 1].contains(sep));
                if all[i].contains(sep) {
                    let k = choose|k: int| 0 <= k < all[i].len() && all[i][k] == sep;
                    assert(before.last()[k] == sep);
                }
            }
        }
        if s[0] == sep {
            if s.len() == 1 {
                assert(init.len() == 0);
            } else {
                assert(init[0] == sep);
            }
            if s.last() != sep && before.len() == 1 {
                // `init` has a separator, so it has more than one piece.
                lemma_pieces_count(init, sep);
            }
        }
        if !s.contains(sep) {
            assert(!init.contains(sep)) by {
                if init.contains(sep) {
                    let k = choose|k: int| 0 <= k < init.len() && init[k] == sep;
                    assert(s[k] == sep);
                }
            }
            assert(s[s.len() - 1] != sep);
            assert(init.push(s.last()) =~= s);
            assert(all =~= seq![s]);
        }
    }
}

proof fn lemma_pieces_count(s: Seq<char>, sep: char)
    requires
        s.contains(sep),
    ensures
        text::pieces(s, sep).len() > 1,
    decreases s.len(),
{
    let init = s.drop_last();
    lemma_pieces_nonempty(init, sep);
    if s.last() != sep {
        let k = choose|k: int| 0 <= k < s.len() && s[k] == sep;
        assert(init[k] == sep);
        lemma_pieces_count(init, sep);
    }
}

proof fn lemma_pieces_nonempty(s: Seq<char>, sep: char)
    ensures
        text::pieces(s, sep).len() > 0,
    decreases s.len(),
{
    if s.len() > 0 {
        lemma_pieces_nonempty(s.drop_last(), sep);
    }
}

/// The pieces on both sides of a separator.
proof fn lemma_pieces_concat(a: Seq<char>, sep: char, b: Seq<char>)
    ensures
        text::pieces(a + seq![sep] + b, sep) == text::pieces(a, sep) + text::pieces(b, sep),
{
    text::pieces_part_at_a_separator(a, sep, b);
}

proof fn lemma_components_well_formed(pieces: Seq<Seq<char>>, absolute: bool)
    requires
        forall|i: int| 0 <= i < pieces.len() ==> !(#[trigger] pieces[i]).contains('/'),
        absolute && pieces.len() > 0 ==> pieces[0].len() == 0,
    ensures
        well_formed(PathView { absolute, parts: components(pieces) }),
        pieces.len() <= 1 && absolute ==> components(pieces).len() == 0,
    decreases pieces.len(),
{
    if pieces.len() > 0 {
        let init = pieces.drop_last();
        assert forall|i: int| 0 <= i < init.len() implies !(#[trigger] init[i]).contains('/') by {
            assert(init[i] == pieces[i]);
        }
        lemma_components_well_formed(init, absolute);
        let before = PathView { absolute, parts: components(init) };
        let now = PathView { absolute, parts: components(pieces) };
        assert(!pieces[pieces.len() - 1].contains('/'));
        if pieces.len() == 1 {
            assert(init.len() == 0);
        }
        assert forall|i: int| 0 <= i < now.parts.len() implies ({
            let part = #[trigger] now.parts[i];
            &&& part.len() > 0
            &&& !part.contains('/')
            &&& part == seq!['.'] ==> i == 0 && !absolute
        }) by {
            if i < before.parts.len() {
                assert(now.parts[i] == before.parts[i]);
            }
        }
    }
}

/// Pieces that are all parts are left as they are.
proof fn lemma_components_keep(pieces: Seq<Seq<char>>)
    requires
        forall|i: int|
            0 <= i < pieces.len() ==> (#[trigger] pieces[i]).len() > 0 && (pieces[i] == seq!['.']
                ==> i == 0),
    ensures
        components(pieces) == pieces,
    decreases pieces.len(),
{
    if pieces.len() > 0 {
        let init = pieces.drop_last();
        assert forall|i: int| 0 <= i < init.len() implies (#[trigger] init[i]).len() > 0 && (
        init[i] == seq!['.'] ==> i == 0) by {
            assert(init[i] == pieces[i]);
        }
        lemma_components_keep(init);
        assert(pieces[pieces.len() - 1].len() > 0);
        assert(init.push(pieces.last()) =~= pieces);
    }
}

/// The same behind an empty piece, where no `.` is a part.
proof fn lemma_components_keep_behind(pieces: Seq<Seq<char>>)
    requires
        forall|i: int|
            0 <= i < pieces.len() ==> (#[trigger] pieces[i]).len() > 0 && pieces[i] != seq!['.'],
    ensures
        components(seq![Seq::<char>::empty()] + pieces) == pieces,
    decreases pieces.len(),
{
    let all = seq![Seq::<char>::empty()] + pieces;
    if pieces.len() == 0 {
        assert(all.drop_last() =~= Seq::<Seq<char>>::empty());
        assert(all.last().len() == 0);
        assert(components(all.drop_last()).len() == 0);
        assert(components(all) =~= pieces);
    } else {
        let init = pieces.drop_last();
        assert forall|i: int| 0 <= i < init.len() implies (#[trigger] init[i]).len() > 0 && init[i]
            != seq!['.'] by {
            assert(init[i] == pieces[i]);
        }
        lemma_components_keep_behind(init);
        assert(all.drop_last() =~= seq![Seq::<char>::empty()] + init);
        assert(pieces[pieces.len() - 1].len() > 0);
        assert(init.push(pieces.last()) =~= pieces);
    }
}

/// The pieces of joined parts are the parts.
proof fn lemma_pieces_of_join(parts: Seq<Seq<char>>)
    requires
        parts.len() > 0,
        forall|i: int| 0 <= i < parts.len() ==> !(#[trigger] parts[i]).contains('/'),
    ensures
        text::pieces(join(parts), '/') == parts,
    decreases parts.len(),
{
    let last = parts.last();
    assert(!parts[parts.len() - 1].contains('/'));
    lemma_pieces_of(last, '/');
    if parts.len() == 1 {
        assert(parts =~= seq![last]);
    } else {
        let init = parts.drop_last();
        assert forall|i: int| 0 <= i < init.len() implies !(#[trigger] init[i]).contains('/') by {
            assert(init[i] == parts[i]);
        }
        lemma_pieces_of_join(init);
        lemma_pieces_concat(join(init), '/', last);
        assert(init + seq![last] =~= parts);
    }
}

/// Every path is made of parts that a path can have, and its shortest form names the same path. So
/// two paths have one shortest form exactly if they name the same.
pub proof fn key_names_the_path(s: Seq<char>)
    ensures
        well_formed(path_of(s)),
        path_of(key_of(path_of(s))) == path_of(s),
{
    let path = path_of(s);
    let key = key_of(path);
    lemma_pieces_of(s, '/');
    lemma_components_well_formed(text::pieces(s, '/'), path.absolute);
    assert forall|i: int| 0 <= i < path.parts.len() implies !(
    #[trigger] path.parts[i]).contains('/') by {}
    if path.parts.len() == 0 {
        if path.absolute {
            assert(key =~= seq!['/']);
            lemma_pieces_concat(Seq::empty(), '/', Seq::empty());
            assert(Seq::<char>::empty() + seq!['/'] + Seq::<char>::empty() =~= key);
            let p = text::pieces(key, '/');
            assert(p =~= seq![Seq::<char>::empty()] + seq![Seq::<char>::empty()]);
            assert(p.drop_last() =~= seq![Seq::<char>::empty()] + Seq::<Seq<char>>::empty());
            lemma_components_keep_behind(Seq::empty());
            assert(components(p) =~= path.parts);
        } else {
            assert(key =~= Seq::<char>::empty());
            let p = text::pieces(key, '/');
            assert(p.drop_last() =~= Seq::<Seq<char>>::empty());
            assert(p.last().len() == 0);
            assert(components(p.drop_last()).len() == 0);
            assert(components(p) =~= path.parts);
        }
    } else {
        lemma_pieces_of_join(path.parts);
        let j = join(path.parts);
        if path.absolute {
            lemma_pieces_concat(Seq::empty(), '/', j);
            assert(Seq::<char>::empty() + seq!['/'] + j =~= key);
            assert forall|i: int| 0 <= i < path.parts.len() implies (
            #[trigger] path.parts[i]).len() > 0 && path.parts[i] != seq!['.'] by {}
            lemma_components_keep_behind(path.parts);
        } else {
            assert(key =~= j);
            assert forall|i: int| 0 <= i < path.parts.len() implies (
            #[trigger] path.parts[i]).len() > 0 && (path.parts[i] == seq!['.'] ==> i == 0) by {}
            lemma_components_keep(path.parts);
            lemma_join_front(path.parts);
        }
    }
}

/// The file name of a path is its last part, whatever stands in front of it.
pub proof fn file_name_is_last_part(dir: Seq<char>, name: Seq<char>)
    requires
        name.len() > 0,
        !name.contains('/'),
        name != seq!['.'],
        name != seq!['.', '.'],
    ensures
        file_name_of(dir + seq!['/'] + name) == Some(name),
        file_name_of(name) == Some(name),
{
    lemma_pieces_of(name, '/');
    lemma_pieces_concat(dir, '/', name);
    let pieces = text::pieces(dir + seq!['/'] + name, '/');
    assert(pieces.last() == name);
    assert(components(pieces).last() == name);
    let alone = text::pieces(name, '/');
    assert(alone.last() == name);
    assert(components(alone).last() == name);
}

/// A piece that is no part, behind another piece, makes no difference.
proof fn lemma_components_without(x: Seq<Seq<char>>, e: Seq<char>, y: Seq<Seq<char>>)
    requires
        x.len() > 0,
        e.len() == 0 || e == seq!['.'],
    ensures
        components(x + seq![e] + y) == components(x + y),
    decreases y.len(),
{
    let all = x + seq![e] + y;
    if y.len() == 0 {
        assert(all.drop_last() =~= x);
        assert(x + y =~= x);
    } else {
        let z = y.drop_last();
        lemma_components_without(x, e, z);
        assert(all.drop_last() =~= x + seq![e] + z);
        assert((x + y).drop_last() =~= x + z);
        assert(all.last() == y.last());
        assert((x + y).last() == y.last());
    }
}

/// What separates parts is one `/` or more, and `.` among them makes no difference. So a path names
/// the same with a separator, or a separator and a dot, behind it.
pub proof fn separators_do_not_count(a: Seq<char>, b: Seq<char>)
    ensures
        path_of(a + seq!['/'] + (seq!['/'] + b)) == path_of(a + seq!['/'] + b),
        path_of(a + seq!['/'] + (seq!['.'] + seq!['/'] + b)) == path_of(a + seq!['/'] + b),
        a.len() > 0 ==> path_of(a + seq!['/']) == path_of(a),
        a.len() > 0 ==> path_of(a + seq!['/'] + seq!['.']) == path_of(a),
{
    let none = Seq::<char>::empty();
    let pa = text::pieces(a, '/');
    let pb = text::pieces(b, '/');
    lemma_pieces_nonempty(a, '/');
    text::pieces_part_at_a_separator(a, '/', b);
    text::pieces_part_at_a_separator(none, '/', b);
    text::pieces_part_at_a_separator(a, '/', seq!['/'] + b);
    assert(none + seq!['/'] + b =~= seq!['/'] + b);
    assert(text::pieces(none, '/') =~= seq![none]);
    assert(pa + (seq![none] + pb) =~= pa + seq![none] + pb);
    lemma_components_without(pa, none, pb);
    let dot = seq!['.'];
    assert(!dot.contains('/')) by {
        assert(forall|i: int| 0 <= i < dot.len() ==> dot[i] != '/');
    }
    text::one_piece(dot, '/');
    text::pieces_part_at_a_separator(dot, '/', b);
    text::pieces_part_at_a_separator(a, '/', dot + seq!['/'] + b);
    assert(pa + (seq![dot] + pb) =~= pa + seq![dot] + pb);
    lemma_components_without(pa, dot, pb);
    let nothing = Seq::<Seq<char>>::empty();
    text::pieces_part_at_a_separator(a, '/', none);
    assert(a + seq!['/'] + none =~= a + seq!['/']);
    assert(pa + seq![none] =~= pa + seq![none] + nothing);
    lemma_components_without(pa, none, nothing);
    text::pieces_part_at_a_separator(a, '/', dot);
    assert(pa + seq![dot] =~= pa + seq![dot] + nothing);
    lemma_components_without(pa, dot, nothing);
    assert(pa + nothing =~= pa);
    let first = a + seq!['/'] + b;
    assert(first[0] == (if a.len() > 0 {
        a[0]
    } else {
        '/'
    }));
    assert((a + seq!['/'] + (seq!['/'] + b))[0] == first[0]);
    assert((a + seq!['/'] + (dot + seq!['/'] + b))[0] == first[0]);
    assert(a.len() > 0 ==> (a + seq!['/'])[0] == a[0]);
    assert(a.len() > 0 ==> (a + seq!['/'] + dot)[0] == a[0]);
}

/// The directory that holds what is called `name` in `dir` is `dir`, whether or not `dir` is written
/// with a separator behind it. What is called `name` alone is held by the empty path. Neither the root
/// nor the empty path is held by anything.
pub proof fn parent_is_the_directory(dir: Seq<char>, name: Seq<char>)
    requires
        name.len() > 0,
        !name.contains('/'),
        name != seq!['.'],
    ensures
        dir.len() > 0 ==> parent_of(path_of(dir + seq!['/'] + name)) == Some(path_of(dir)),
        dir.len() > 0 && dir.last() == '/' ==> parent_of(path_of(dir + name)) == Some(
            path_of(dir),
        ),
        parent_of(path_of(name)) == Some(path_of(Seq::empty())),
        parent_of(path_of(seq!['/'])) is None,
        parent_of(path_of(Seq::empty())) is None,
{
    let none = Seq::<char>::empty();
    text::one_piece(name, '/');
    text::pieces_part_at_a_separator(dir, '/', name);
    let pieces = text::pieces(dir, '/') + seq![name];
    assert(pieces.drop_last() =~= text::pieces(dir, '/'));
    assert(components(pieces) == components(text::pieces(dir, '/')).push(name));
    assert(components(pieces).drop_last() =~= components(text::pieces(dir, '/')));
    if dir.len() > 0 {
        assert((dir + seq!['/'] + name)[0] == dir[0]);
        if dir.last() == '/' {
            let e = dir.drop_last();
            assert(e + seq!['/'] =~= dir);
            assert(e + seq!['/'] + name =~= dir + name);
            text::pieces_part_at_a_separator(e, '/', name);
            text::pieces_part_at_a_separator(e, '/', none);
            assert(e + seq!['/'] + none =~= dir);
            let pe = text::pieces(e, '/');
            assert((pe + seq![name]).drop_last() =~= pe);
            assert((pe + seq![none]).drop_last() =~= pe);
            lemma_pieces_nonempty(e, '/');
            assert(components(pe + seq![none]) == components(pe));
            assert(components(pe + seq![name]) == components(pe).push(name));
            assert(components(pe).push(name).drop_last() =~= components(pe));
            assert((dir + name)[0] == dir[0]);
        }
    }
    assert(name[0] != '/') by {
        if name[0] == '/' {
            assert(name.contains('/'));
        }
    }
    let alone = seq![name];
    assert(alone.drop_last() =~= Seq::<Seq<char>>::empty());
    assert(components(alone.drop_last()).len() == 0);
    assert(alone.last() == name);
    assert(components(alone) =~= seq![name]);
    let empty = text::pieces(none, '/');
    assert(empty.drop_last() =~= Seq::<Seq<char>>::empty());
    assert(empty.last().len() == 0);
    assert(components(empty) =~= Seq::<Seq<char>>::empty());
    assert(components(alone).drop_last() =~= Seq::<Seq<char>>::empty());
    text::pieces_part_at_a_separator(none, '/', none);
    assert(none + seq!['/'] + none =~= seq!['/']);
    let slash = text::pieces(seq!['/'], '/');
    assert(slash =~= seq![none] + seq![none]);
    assert(slash.drop_last() =~= seq![none]);
    assert(seq![none].drop_last() =~= Seq::<Seq<char>>::empty());
    assert(components(seq![none]) =~= Seq::<Seq<char>>::empty());
    assert(components(slash) =~= Seq::<Seq<char>>::empty());
}

/// Two paths that have one parent and one last part name the same.
pub proof fn parent_and_name_make_a_path(a: Seq<char>, b: Seq<char>)
    requires
        parent_of(path_of(a)) is Some,
        parent_of(path_of(a)) == parent_of(path_of(b)),
        path_of(a).parts.last() == path_of(b).parts.last(),
    ensures
        path_of(a) == path_of(b),
{
    let x = path_of(a).parts;
    let y = path_of(b).parts;
    assert(x =~= x.drop_last().push(x.last()));
    assert(y =~= y.drop_last().push(y.last()));
}

/// A file name is one part of its path, and the last: it is not empty, has no separator in it and is
/// neither `.` nor `..`. Separators behind it make no difference, `..` behind it leaves none, and
/// neither the root, the empty path, `.` nor `..` has one.
pub proof fn file_names_are_parts(s: Seq<char>)
    ensures
        file_name_of(s) matches Some(name) ==> {
            &&& name.len() > 0
            &&& !name.contains('/')
            &&& name != seq!['.']
            &&& name != seq!['.', '.']
        },
        s.len() > 0 ==> file_name_of(s + seq!['/']) == file_name_of(s),
        s.len() > 0 ==> file_name_of(s + seq!['/'] + seq!['.']) == file_name_of(s),
        file_name_of(s + seq!['/'] + seq!['.', '.']) is None,
        file_name_of(Seq::empty()) is None,
        file_name_of(seq!['/']) is None,
        file_name_of(seq!['.']) is None,
        file_name_of(seq!['.', '.']) is None,
{
    key_names_the_path(s);
    separators_do_not_count(s, s);
    let dots = seq!['.', '.'];
    assert(!dots.contains('/')) by {
        assert(forall|i: int| 0 <= i < dots.len() ==> dots[i] != '/');
    }
    assert(dots != seq!['.']) by {
        assert(dots.len() == 2);
    }
    parent_is_the_directory(s, dots);
    text::one_piece(dots, '/');
    text::pieces_part_at_a_separator(s, '/', dots);
    let pieces = text::pieces(s, '/') + seq![dots];
    assert(components(pieces).last() == dots);
    assert(components(seq![dots]).last() == dots);
    let dot = seq!['.'];
    assert(!dot.contains('/')) by {
        assert(forall|i: int| 0 <= i < dot.len() ==> dot[i] != '/');
    }
    text::one_piece(dot, '/');
    assert(seq![dot].drop_last() =~= Seq::<Seq<char>>::empty());
    assert(components(seq![dot].drop_last()).len() == 0);
    assert(seq![dot].last() == dot);
    assert(components(seq![dot]) =~= seq![dot]);
    if path_of(s).parts.len() > 0 {
        let n = path_of(s).parts.len() - 1;
        assert(path_of(s).parts[n].len() > 0);
    }
}

/// The extension of a name is what follows its last dot. A name without a dot, or with none but one in
/// front, has no extension.
pub proof fn extensions_follow_the_last_dot(stem: Seq<char>, ext: Seq<char>)
    requires
        !ext.contains('.'),
    ensures
        stem.len() > 0 ==> extension_of(stem + seq!['.'] + ext) == Some(ext),
        extension_of(seq!['.'] + ext) is None,
        extension_of(ext) is None,
{
    let none = Seq::<char>::empty();
    text::one_piece(ext, '.');
    text::pieces_part_at_a_separator(stem, '.', ext);
    text::pieces_part_at_a_separator(none, '.', ext);
    assert(none + seq!['.'] + ext =~= seq!['.'] + ext);
    assert(text::pieces(none, '.') =~= seq![none]);
    lemma_pieces_nonempty(stem, '.');
    let p = text::pieces(stem, '.');
    let all = p + seq![ext];
    assert(all.last() == ext);
    assert((seq![none] + seq![ext])[0].len() == 0);
    if stem.len() > 0 && p.len() == 1 {
        assert(all[0] == p[0]);
        if stem.contains('.') {
            lemma_pieces_count(stem, '.');
        } else {
            text::one_piece(stem, '.');
            assert(p[0] == stem);
        }
    }
}

proof fn lemma_alike_components(a: Seq<Seq<char>>, b: Seq<Seq<char>>)
    requires
        a.len() == b.len(),
        forall|i: int| 0 <= i < a.len() ==> text::alike(#[trigger] a[i], b[i]),
    ensures
        components(a).len() == components(b).len(),
        forall|i: int|
            0 <= i < components(a).len() ==> text::alike(
                #[trigger] components(a)[i],
                components(b)[i],
            ),
    decreases a.len(),
{
    if a.len() > 0 {
        let x = a.drop_last();
        let y = b.drop_last();
        assert forall|i: int| 0 <= i < x.len() implies text::alike(#[trigger] x[i], y[i]) by {
            assert(text::alike(a[i], b[i]));
        }
        lemma_alike_components(x, y);
        assert(text::alike(a[a.len() - 1], b[b.len() - 1]));
        lemma_alike_dots(a.last(), b.last());
    }
}

/// Dots have no letter case.
proof fn lemma_alike_dots(a: Seq<char>, b: Seq<char>)
    requires
        text::alike(a, b),
    ensures
        a == seq!['.'] <==> b == seq!['.'],
        a == seq!['.', '.'] <==> b == seq!['.', '.'],
{
    assert(forall|i: int| 0 <= i < a.len() ==> (#[trigger] a[i] == '.' <==> b[i] == '.'));
    assert(a == seq!['.'] ==> b =~= seq!['.']) by {
        assert(a == seq!['.'] ==> a.len() == 1 && a[0] == '.');
    }
    assert(b == seq!['.'] ==> a =~= seq!['.']) by {
        assert(b == seq!['.'] ==> b.len() == 1 && b[0] == '.');
    }
    assert(a == seq!['.', '.'] ==> b =~= seq!['.', '.']) by {
        assert(a == seq!['.', '.'] ==> a.len() == 2 && a[0] == '.' && a[1] == '.');
    }
    assert(b == seq!['.', '.'] ==> a =~= seq!['.', '.']) by {
        assert(b == seq!['.', '.'] ==> b.len() == 2 && b[0] == '.' && b[1] == '.');
    }
}

/// Paths that differ in letter case at most have file names and extensions that do so, too.
pub proof fn alike_in_names(a: Seq<char>, b: Seq<char>)
    requires
        text::alike(a, b),
    ensures
        file_name_of(a) is Some <==> file_name_of(b) is Some,
        file_name_of(a) is Some ==> text::alike(file_name_of(a)->0, file_name_of(b)->0),
        extension_of(a) is Some <==> extension_of(b) is Some,
        extension_of(a) is Some ==> text::alike(extension_of(a)->0, extension_of(b)->0),
{
    text::alike_in_pieces(a, b, '/');
    lemma_alike_components(text::pieces(a, '/'), text::pieces(b, '/'));
    let x = path_of(a).parts;
    let y = path_of(b).parts;
    if x.len() > 0 {
        assert(text::alike(x[x.len() - 1], y[y.len() - 1]));
        lemma_alike_dots(x.last(), y.last());
    }
    text::alike_in_pieces(a, b, '.');
    let p = text::pieces(a, '.');
    let q = text::pieces(b, '.');
    assert(text::alike(p[0], q[0]));
    assert(text::alike(p[p.len() - 1], q[q.len() - 1]));
}

/// Joined parts begin with the first part.
proof fn lemma_join_front(parts: Seq<Seq<char>>)
    requires
        parts.len() > 0,
        parts[0].len() > 0,
    ensures
        join(parts).len() > 0,
        join(parts)[0] == parts[0][0],
        parts[0].contains(join(parts)[0]),
    decreases parts.len(),
{
    if parts.len() > 1 {
        lemma_join_front(parts.drop_last());
    }
}

} // verus!
