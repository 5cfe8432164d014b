//! The order in which the library sorts file paths, and the sorting and
//! de-duplication of path lists.
//!
//! A path is held as a `String` and compared as `std::path::Path` compares
//! paths on Unix: by its components. A leading `/` is the root; the rest is
//! split at `/`; empty parts and `.` parts are dropped, except a `.` that
//! begins a relative path; `..` is kept. The root comes before `.`, which
//! comes before `..`, which comes before every named component; named
//! components compare by their characters, a prefix first. So `a//b`,
//! `a/./b` and `a/b/` name the same path as `a/b`, and `a/b.jpg` comes
//! before `a-b.jpg`. Texts that name the same path are ordered by their bytes,
//! the separator first, so that the order is total on texts.
use vstd::prelude::*;
use vstd::relations::*;
use vstd::utf8::*;

verus! {

broadcast use vstd::seq_lib::group_seq_properties, vstd::seq_lib::group_to_multiset_ensures;

/// The separator byte `/`.
pub const SEPARATOR: u8 = 47u8;

/// The byte `.`.
pub const DOT: u8 = 46u8;

/// Rank of a byte in the path order: the separator first, then every other
/// byte by its value.
pub open spec fn byte_rank(b: u8) -> int {
    if b == SEPARATOR {
        0
    } else {
        b as int + 1
    }
}

/// Lexicographic order on byte strings by `byte_rank`; a proper prefix comes first.
pub open spec fn bytes_before(a: Seq<u8>, b: Seq<u8>) -> bool
    decreases a.len(),
{
    if a.len() == 0 {
        b.len() > 0
    } else if b.len() == 0 {
        false
    } else if a[0] == b[0] {
        bytes_before(a.drop_first(), b.drop_first())
    } else {
        byte_rank(a[0]) < byte_rank(b[0])
    }
}

/// The pieces of a path's bytes between separators, in order, empty pieces
/// included. A separator byte never occurs inside the encoding of another
/// character, so these are the encodings of the `/`-separated pieces.
pub open spec fn pieces(s: Seq<u8>) -> Seq<Seq<u8>>
    decreases s.len(),
{
    if s.len() == 0 {
        seq![Seq::<u8>::empty()]
    } else {
        let ps = pieces(s.drop_last());
        if s.last() == SEPARATOR {
            ps.push(Seq::<u8>::empty())
        } else {
            ps.update(ps.len() - 1, ps.last().push(s.last()))
        }
    }
}

/// The code of the `k`-th piece of a path: nothing for an empty piece or a
/// `.` that is not the first piece; `1` for a leading `.`; `2` for `..`;
/// otherwise `3`, each byte plus one, and `0`. (UTF-8 bytes compare as the
/// characters they encode.)
pub open spec fn piece_code(q: Seq<u8>, k: int) -> Seq<int> {
    if q.len() == 0 {
        Seq::empty()
    } else if q == seq![DOT] {
        if k == 0 {
            seq![1int]
        } else {
            Seq::empty()
        }
    } else if q == seq![DOT, DOT] {
        seq![2int]
    } else {
        seq![3int] + q.map_values(|c: u8| c as int + 1) + seq![0int]
    }
}

/// The codes of a list of pieces, in order.
pub open spec fn pieces_code(ps: Seq<Seq<u8>>) -> Seq<int>
    decreases ps.len(),
{
    if ps.len() == 0 {
        Seq::empty()
    } else {
        pieces_code(ps.drop_last()) + piece_code(ps.last(), ps.len() - 1)
    }
}

/// The components of a path, encoded so that comparing codes compares the
/// components: `0` for the root, then the code of each piece.
pub open spec fn component_key(p: Seq<char>) -> Seq<int> {
    let b = encode_utf8(p);
    (if b.len() > 0 && b[0] == SEPARATOR {
        seq![0int]
    } else {
        Seq::empty()
    }) + pieces_code(pieces(b))
}

/// The two texts name the same path: they have the same components.
pub open spec fn same_path(a: Seq<char>, b: Seq<char>) -> bool {
    component_key(a) == component_key(b)
}

/// Lexicographic order on codes; a proper prefix comes first.
pub open spec fn key_before(a: Seq<int>, b: Seq<int>) -> bool
    decreases a.len(),
{
    if a.len() == 0 {
        b.len() > 0
    } else if b.len() == 0 {
        false
    } else if a[0] == b[0] {
        key_before(a.drop_first(), b.drop_first())
    } else {
        a[0] < b[0]
    }
}

/// `a` sorts strictly before `b`: its components come first, or they name
/// the same path and its bytes come first.
pub open spec fn path_before(a: Seq<char>, b: Seq<char>) -> bool {
    ||| key_before(component_key(a), component_key(b))
    ||| (component_key(a) == component_key(b) && bytes_before(encode_utf8(a), encode_utf8(b)))
}

/// `a` sorts before or at the same place as `b`.
pub open spec fn path_le(a: Seq<char>, b: Seq<char>) -> bool {
    !path_before(b, a)
}

/// `path_le` as a relation, the order that path lists are sorted by.
pub open spec fn path_order() -> spec_fn(Seq<char>, Seq<char>) -> bool {
    |a: Seq<char>, b: Seq<char>| path_le(a, b)
}

/// Every element of `s` sorts strictly before every later one: `s` is sorted
/// and holds no path twice.
pub open spec fn strictly_sorted(s: Seq<Seq<char>>) -> bool {
    forall|i: int, j: int| 0 <= i < j < s.len() ==> path_before(#[trigger] s[i], #[trigger] s[j])
}

/// The views of a list of paths.
pub open spec fn views(v: Seq<String>) -> Seq<Seq<char>> {
    v.map_values(|s: String| s@)
}

proof fn lemma_bytes_trichotomy(a: Seq<u8>, b: Seq<u8>)
    ensures
        !bytes_before(a, a),
        !(bytes_before(a, b) && bytes_before(b, a)),
        a != b ==> bytes_before(a, b) || bytes_before(b, a),
    decreases a.len(),
{
    if a.len() > 0 {
        lemma_bytes_trichotomy(a.drop_first(), a.drop_first());
    }
    if a.len() > 0 && b.len() > 0 && a[0] == b[0] {
        lemma_bytes_trichotomy(a.drop_first(), b.drop_first());
        if a.drop_first() == b.drop_first() {
            assert(a =~= b) by {
                assert forall|i: int| 0 <= i < a.len() implies a[i] == b[i] by {
                    if i > 0 {
                        assert(a[i] == a.drop_first()[i - 1]);
                        assert(b[i] == b.drop_first()[i - 1]);
                    }
                }
            }
        }
    }
    if a.len() == 0 && b.len() == 0 {
        assert(a =~= b);
    }
}

proof fn lemma_bytes_transitive(a: Seq<u8>, b: Seq<u8>, c: Seq<u8>)
    requires
        bytes_before(a, b),
        bytes_before(b, c),
    ensures
        bytes_before(a, c),
    decreases a.len(),
{
    if a.len() > 0 && a[0] == b[0] && b[0] == c[0] {
        lemma_bytes_transitive(a.drop_first(), b.drop_first(), c.drop_first());
    }
}

proof fn lemma_key_trichotomy(a: Seq<int>, b: Seq<int>)
    ensures
        !key_before(a, a),
        !(key_before(a, b) && key_before(b, a)),
        a != b ==> key_before(a, b) || key_before(b, a),
    decreases a.len(),
{
    if a.len() > 0 {
        lemma_key_trichotomy(a.drop_first(), a.drop_first());
    }
    if a.len() > 0 && b.len() > 0 && a[0] == b[0] {
        lemma_key_trichotomy(a.drop_first(), b.drop_first());
        if a.drop_first() == b.drop_first() {
            assert(a =~= b) by {
                assert forall|i: int| 0 <= i < a.len() implies a[i] == b[i] by {
                    if i > 0 {
                        assert(a[i] == a.drop_first()[i - 1]);
                        assert(b[i] == b.drop_first()[i - 1]);
                    }
                }
            }
        }
    }
    if a.len() == 0 && b.len() == 0 {
        assert(a =~= b);
    }
}

proof fn lemma_key_transitive(a: Seq<int>, b: Seq<int>, c: Seq<int>)
    requires
        key_before(a, b),
        key_before(b, c),
    ensures
        key_before(a, c),
    decreases a.len(),
{
    if a.len() > 0 && a[0] == b[0] && b[0] == c[0] {
        lemma_key_transitive(a.drop_first(), b.drop_first(), c.drop_first());
    }
}

/// Two texts with the same UTF-8 encoding are the same text.
pub proof fn lemma_encoding_injective(a: Seq<char>, b: Seq<char>)
    requires
        encode_utf8(a) == encode_utf8(b),
    ensures
        a == b,
{
    encode_utf8_decode_utf8(a);
    encode_utf8_decode_utf8(b);
}

/// `path_before` is a strict total order on texts.
pub proof fn lemma_path_before_properties(a: Seq<char>, b: Seq<char>, c: Seq<char>)
    ensures
        !path_before(a, a),
        !(path_before(a, b) && path_before(b, a)),
        a != b ==> path_before(a, b) || path_before(b, a),
        path_before(a, b) && path_before(b, c) ==> path_before(a, c),
{
    let (ka, kb, kc) = (component_key(a), component_key(b), component_key(c));
    lemma_key_trichotomy(ka, kb);
    lemma_key_trichotomy(ka, ka);
    lemma_key_trichotomy(kb, kc);
    lemma_key_trichotomy(ka, kc);
    lemma_bytes_trichotomy(encode_utf8(a), encode_utf8(b));
    lemma_bytes_trichotomy(encode_utf8(a), encode_utf8(a));
    if encode_utf8(a) == encode_utf8(b) {
        lemma_encoding_injective(a, b);
    }
    if path_before(a, b) && path_before(b, c) {
        if key_before(ka, kb) && key_before(kb, kc) {
            lemma_key_transitive(ka, kb, kc);
        }
        if ka == kb && kb == kc {
            lemma_bytes_transitive(encode_utf8(a), encode_utf8(b), encode_utf8(c));
        }
    }
}

/// `same_path` is an equivalence.
pub proof fn lemma_same_path_equivalence(a: Seq<char>, b: Seq<char>, c: Seq<char>)
    ensures
        same_path(a, a),
        same_path(a, b) ==> same_path(b, a),
        same_path(a, b) && same_path(b, c) ==> same_path(a, c),
{
}

/// The path order is a total order.
pub proof fn lemma_path_order_total()
    ensures
        total_ordering(path_order()),
{
    assert forall|x: Seq<char>| #[trigger] path_order()(x, x) by {
        lemma_path_before_properties(x, x, x);
    }
    assert forall|x: Seq<char>, y: Seq<char>|
        #[trigger] path_order()(x, y) && #[trigger] path_order()(y, x) implies x == y by {
        lemma_path_before_properties(x, y, x);
    }
    assert forall|x: Seq<char>, y: Seq<char>, z: Seq<char>|
        #[trigger] path_order()(x, y) && #[trigger] path_order()(y, z) implies path_order()(
        x,
        z,
    ) by {
        lemma_path_before_properties(x, y, z);
        lemma_path_before_properties(y, z, x);
        lemma_path_before_properties(z, x, y);
        lemma_path_before_properties(x, z, y);
    }
    assert forall|x: Seq<char>, y: Seq<char>|
        #[trigger] path_order()(x, y) || #[trigger] path_order()(y, x) by {
        lemma_path_before_properties(x, y, x);
    }
}

fn bytes_before_exec(a: &str, b: &str) -> (r: bool)
    ensures
        r == bytes_before(encode_utf8(a@), encode_utf8(b@)),
{
    let x = a.as_bytes();
    let y = b.as_bytes();
    let ghost xs = x@;
    let ghost ys = y@;
    let mut i: usize = 0;
    assert(xs.skip(0) =~= xs);
    assert(ys.skip(0) =~= ys);
    while i < x.len() && i < y.len() && x[i] == y[i]
        invariant
            xs == x@,
            ys == y@,
            xs == encode_utf8(a@),
            ys == encode_utf8(b@),
            i <= xs.len(),
            i <= ys.len(),
            bytes_before(xs, ys) == bytes_before(xs.skip(i as int), ys.skip(i as int)),
        decreases xs.len() - i,
    {
        assert(xs.skip(i as int).drop_first() =~= xs.skip(i + 1));
        assert(ys.skip(i as int).drop_first() =~= ys.skip(i + 1));
        i = i + 1;
    }
    if i == x.len() {
        i < y.len()
    } else if i == y.len() {
        false
    } else {
        let bx = x[i];
        let by = y[i];
        let rx: u16 = if bx == SEPARATOR { 0 } else { bx as u16 + 1 };
        let ry: u16 = if by == SEPARATOR { 0 } else { by as u16 + 1 };
        rx < ry
    }
}

/// The view of an executable code list.
pub open spec fn key_view(k: Seq<u64>) -> Seq<int> {
    k.map_values(|x: u64| x as int)
}

proof fn lemma_pieces_nonempty(s: Seq<u8>)
    ensures
        pieces(s).len() >= 1,
    decreases s.len(),
{
    if s.len() > 0 {
        lemma_pieces_nonempty(s.drop_last());
    }
}

fn push_piece_code(out: &mut Vec<u64>, cur: &Vec<u8>, k: usize)
    ensures
        key_view(final(out)@) == key_view(old(out)@) + piece_code(cur@, k as int),
{
    let ghost start = key_view(out@);
    let n = cur.len();
    if n == 0 {
        assert(key_view(out@) =~= start + piece_code(cur@, k as int));
        return;
    }
    if n == 1 && cur[0] == DOT {
        assert(cur@ =~= seq![DOT]);
        if k == 0 {
            out.push(1);
        }
        assert(key_view(out@) =~= start + piece_code(cur@, k as int));
        return;
    }
    if n == 2 && cur[0] == DOT && cur[1] == DOT {
        assert(cur@ =~= seq![DOT, DOT]);
        out.push(2);
        assert(key_view(out@) =~= start + piece_code(cur@, k as int));
        return;
    }
    assert(cur@ != seq![DOT]) by {
        if n == 1 {
            assert(cur@[0] != seq![DOT][0]);
        }
    }
    assert(cur@ != seq![DOT, DOT]) by {
        if n == 2 {
            assert(cur@[0] != DOT || cur@[1] != DOT);
        }
    }
    let ghost body = cur@.map_values(|c: u8| c as int + 1);
    out.push(3);
    let mut j: usize = 0;
    while j < n
        invariant
            n == cur.len(),
            j <= n,
            body == cur@.map_values(|c: u8| c as int + 1),
            key_view(out@) == start + seq![3int] + body.take(j as int),
        decreases n - j,
    {
        let c = cur[j];
        let ghost before = key_view(out@);
        out.push(c as u64 + 1);
        assert(key_view(out@) =~= before.push(body[j as int]));
        assert(body.take(j + 1) =~= body.take(j as int).push(body[j as int]));
        j = j + 1;
    }
    let ghost before = key_view(out@);
    out.push(0);
    assert(key_view(out@) =~= before.push(0));
    assert(body.take(n as int) =~= body);
    assert(key_view(out@) =~= start + piece_code(cur@, k as int));
}

proof fn lemma_code_step(ps: Seq<Seq<u8>>)
    requires
        ps.len() >= 1,
    ensures
        pieces_code(ps) == pieces_code(ps.drop_last()) + piece_code(ps.last(), ps.len() - 1),
{
}

proof fn lemma_pieces_step(p: Seq<u8>, i: int)
    requires
        0 <= i < p.len(),
    ensures
        p[i] == SEPARATOR ==> pieces(p.take(i + 1)).drop_last() == pieces(p.take(i)),
        p[i] == SEPARATOR ==> pieces(p.take(i + 1)).last() == Seq::<u8>::empty(),
        p[i] == SEPARATOR ==> pieces(p.take(i + 1)).len() == pieces(p.take(i)).len() + 1,
        p[i] != SEPARATOR ==> pieces(p.take(i + 1)).drop_last() == pieces(p.take(i)).drop_last(),
        p[i] != SEPARATOR ==> pieces(p.take(i + 1)).last() == pieces(p.take(i)).last().push(p[i]),
        p[i] != SEPARATOR ==> pieces(p.take(i + 1)).len() == pieces(p.take(i)).len(),
{
    lemma_pieces_nonempty(p.take(i));
    assert(p.take(i + 1).drop_last() =~= p.take(i));
    assert(p.take(i + 1).last() == p[i]);
    let ps = pieces(p.take(i));
    if p[i] == SEPARATOR {
        assert(pieces(p.take(i + 1)) == ps.push(Seq::<u8>::empty()));
        assert(ps.push(Seq::<u8>::empty()).drop_last() =~= ps);
    } else {
        assert(pieces(p.take(i + 1)) == ps.update(ps.len() - 1, ps.last().push(p[i])));
        assert(ps.update(ps.len() - 1, ps.last().push(p[i])).drop_last() =~= ps.drop_last());
    }
}

/// The component code of a path.
#[verifier::rlimit(40)]
pub fn component_key_exec(p: &str) -> (key: Vec<u64>)
    ensures
        key_view(key@) == component_key(p@),
{
    let b = p.as_bytes();
    let ghost bs = b@;
    assert(bs == encode_utf8(p@));
    let n = b.len();
    let mut out: Vec<u64> = Vec::new();
    let rooted = n > 0 && b[0] == SEPARATOR;
    if rooted {
        out.push(0);
    }
    let ghost root = if rooted { seq![0int] } else { Seq::<int>::empty() };
    assert(key_view(out@) =~= root);
    let mut cur: Vec<u8> = Vec::new();
    let mut k: usize = 0;
    assert(bs.take(0) =~= Seq::<u8>::empty());
    assert(pieces(bs.take(0)).drop_last() =~= Seq::<Seq<u8>>::empty());
    assert(cur@ =~= pieces(bs.take(0)).last());
    let mut i: usize = 0;
    while i < n
        invariant
            bs == b@,
            n == bs.len(),
            i <= n,
            root == (if bs.len() > 0 && bs[0] == SEPARATOR { seq![0int] } else { Seq::<int>::empty() }),
            pieces(bs.take(i as int)).len() == k + 1,
            key_view(out@) == root + pieces_code(pieces(bs.take(i as int)).drop_last()),
            cur@ == pieces(bs.take(i as int)).last(),
            k <= i,
        decreases n - i,
    {
        let c = b[i];
        let ghost ps = pieces(bs.take(i as int));
        proof {
            lemma_pieces_step(bs, i as int);
        }
        if c == SEPARATOR {
            push_piece_code(&mut out, &cur, k);
            proof {
                lemma_pieces_nonempty(bs.take(i as int));
                lemma_code_step(ps);
            }
            cur = Vec::new();
            assert(cur@ =~= pieces(bs.take(i + 1)).last());
            k = k + 1;
        } else {
            cur.push(c);
        }
        i = i + 1;
    }
    assert(bs.take(n as int) =~= bs);
    let ghost ps = pieces(bs);
    push_piece_code(&mut out, &cur, k);
    proof {
        lemma_pieces_nonempty(bs);
        lemma_code_step(ps);
    }
    assert(key_view(out@) =~= component_key(p@));
    out
}

fn key_before_exec(a: &Vec<u64>, b: &Vec<u64>) -> (r: bool)
    ensures
        r == key_before(key_view(a@), key_view(b@)),
{
    let ghost xs = key_view(a@);
    let ghost ys = key_view(b@);
    let mut i: usize = 0;
    assert(xs.skip(0) =~= xs);
    assert(ys.skip(0) =~= ys);
    while i < a.len() && i < b.len() && a[i] == b[i]
        invariant
            xs == key_view(a@),
            ys == key_view(b@),
            i <= a.len(),
            i <= b.len(),
            key_before(xs, ys) == key_before(xs.skip(i as int), ys.skip(i as int)),
        decreases a.len() - i,
    {
        assert(xs.skip(i as int).drop_first() =~= xs.skip(i + 1));
        assert(ys.skip(i as int).drop_first() =~= ys.skip(i + 1));
        i = i + 1;
    }
    if i == a.len() {
        i < b.len()
    } else if i == b.len() {
        false
    } else {
        a[i] < b[i]
    }
}

/// Whether `a` sorts strictly before `b`.
pub fn path_before_exec(a: &str, b: &str) -> (r: bool)
    ensures
        r == path_before(a@, b@),
{
    let ka = component_key_exec(a);
    let kb = component_key_exec(b);
    if key_before_exec(&ka, &kb) {
        return true;
    }
    if key_before_exec(&kb, &ka) {
        return false;
    }
    proof {
        lemma_key_trichotomy(component_key(a@), component_key(b@));
    }
    bytes_before_exec(a, b)
}

/// Whether `a` and `b` name the same path.
pub fn same_path_exec(a: &str, b: &str) -> (r: bool)
    ensures
        r == same_path(a@, b@),
{
    let ka = component_key_exec(a);
    let kb = component_key_exec(b);
    proof {
        lemma_key_trichotomy(component_key(a@), component_key(b@));
    }
    !key_before_exec(&ka, &kb) && !key_before_exec(&kb, &ka)
}

proof fn lemma_views_insert(v: Seq<String>, i: int, s: String)
    requires
        0 <= i <= v.len(),
    ensures
        views(v.insert(i, s)) == views(v).insert(i, s@),
{
    assert(views(v.insert(i, s)) =~= views(v).insert(i, s@));
}

/// Sorts a list of paths by the path order; equal paths keep their relative order.
pub fn sort_paths(v: Vec<String>) -> (r: Vec<String>)
    ensures
        views(r@) == views(v@).sort_by(path_order()),
{
    proof {
        lemma_path_order_total();
    }
    let ghost input = views(v@);
    let mut r: Vec<String> = Vec::new();
    let n = v.len();
    let mut i: usize = 0;
    while i < n
        invariant
            n == v.len(),
            input == views(v@),
            i <= n,
            total_ordering(path_order()),
            sorted_by(views(r@), path_order()),
            views(r@).to_multiset() == input.take(i as int).to_multiset(),
        decreases n - i,
    {
        let x = v[i].clone();
        let mut pos: usize = 0;
        while pos < r.len() && !path_before_exec(x.as_str(), r[pos].as_str())
            invariant
                pos <= r.len(),
                forall|k: int| 0 <= k < pos ==> path_le(#[trigger] views(r@)[k], x@),
            decreases r.len() - pos,
        {
            pos = pos + 1;
        }
        let ghost before = views(r@);
        proof {
            lemma_views_insert(r@, pos as int, x);
        }
        r.insert(pos, x);
        proof {
            let after = views(r@);
            assert(after == before.insert(pos as int, v@[i as int]@));
            assert forall|p: int, q: int| 0 <= p < q < after.len() implies #[trigger] path_order()(
                after[p],
                after[q],
            ) by {
                if p < pos && q == pos {
                } else if p == pos && q > pos {
                    lemma_path_before_properties(after[p], after[q], after[p]);
                    assert(path_order()(before[pos as int], before[q - 1]));
                    lemma_path_before_properties(after[p], before[pos as int], before[q - 1]);
                    lemma_path_before_properties(before[q - 1], before[pos as int], after[p]);
                    lemma_path_before_properties(before[q - 1], after[p], before[pos as int]);
                } else if p < pos && q > pos {
                    assert(path_order()(before[p], before[q - 1]));
                } else if q < pos {
                    assert(path_order()(before[p], before[q]));
                } else {
                    assert(path_order()(before[p - 1], before[q - 1]));
                }
            }
            assert(input.take(i + 1) =~= input.take(i as int).push(input[i as int]));
        }
        i = i + 1;
    }
    proof {
        assert(input.take(n as int) =~= input);
        input.lemma_sort_by_ensures(path_order());
        vstd::seq_lib::lemma_sorted_unique(views(r@), input.sort_by(path_order()), path_order());
    }
    r
}


/// The paths of `c` in the path order, each once. For a finite set this is the
/// one strictly sorted sequence that holds exactly the paths of `c`.
pub open spec fn sorted_set(c: Set<Seq<char>>) -> Seq<Seq<char>> {
    choose|s: Seq<Seq<char>>| strictly_sorted(s) && s.to_set() == c
}

proof fn lemma_strictly_sorted_facts(s: Seq<Seq<char>>)
    requires
        strictly_sorted(s),
    ensures
        s.no_duplicates(),
        sorted_by(s, path_order()),
{
    assert forall|i: int, j: int| 0 <= i < j < s.len() implies #[trigger] path_order()(s[i], s[j]) by {
        lemma_path_before_properties(s[i], s[j], s[i]);
    }
    assert forall|i: int, j: int| 0 <= i < s.len() && 0 <= j < s.len() && i != j implies s[i] != s[j] by {
        if i < j {
            lemma_path_before_properties(s[i], s[j], s[i]);
        } else {
            lemma_path_before_properties(s[j], s[i], s[j]);
        }
    }
}

/// Two strictly sorted sequences with the same paths are equal.
pub proof fn lemma_strictly_sorted_unique(a: Seq<Seq<char>>, b: Seq<Seq<char>>)
    requires
        strictly_sorted(a),
        strictly_sorted(b),
        a.to_set() == b.to_set(),
    ensures
        a == b,
{
    broadcast use vstd::multiset::group_multiset_axioms;

    lemma_strictly_sorted_facts(a);
    lemma_strictly_sorted_facts(b);
    a.lemma_multiset_has_no_duplicates();
    b.lemma_multiset_has_no_duplicates();
    assert forall|x: Seq<char>| a.to_multiset().count(x) == b.to_multiset().count(x) by {
        assert(a.to_set().contains(x) == a.contains(x));
        assert(b.to_set().contains(x) == b.contains(x));
    }
    assert(a.to_multiset() =~= b.to_multiset());
    lemma_path_order_total();
    vstd::seq_lib::lemma_sorted_unique(a, b, path_order());
}

/// A strictly sorted sequence is the sorted form of its own set.
pub proof fn lemma_sorted_set_of(s: Seq<Seq<char>>)
    requires
        strictly_sorted(s),
    ensures
        sorted_set(s.to_set()) == s,
{
    let t = sorted_set(s.to_set());
    assert(strictly_sorted(t) && t.to_set() == s.to_set());
    lemma_strictly_sorted_unique(t, s);
}

/// Sorting a list without repeated paths gives a strictly sorted list.
pub proof fn lemma_sort_distinct(s: Seq<Seq<char>>)
    requires
        s.no_duplicates(),
    ensures
        strictly_sorted(s.sort_by(path_order())),
        s.sort_by(path_order()).to_set() == s.to_set(),
{
    broadcast use vstd::multiset::group_multiset_axioms;

    lemma_path_order_total();
    s.lemma_sort_by_ensures(path_order());
    let t = s.sort_by(path_order());
    s.lemma_multiset_has_no_duplicates();
    assert forall|x: Seq<char>| t.to_set().contains(x) == s.to_set().contains(x) by {
        assert(t.to_multiset().count(x) == s.to_multiset().count(x));
    }
    assert(t.to_set() =~= s.to_set());
    assert forall|i: int, j: int| 0 <= i < j < t.len() implies path_before(#[trigger] t[i], #[trigger] t[j]) by {
        assert(path_order()(t[i], t[j]));
        if t[i] == t[j] {
            assert(t.to_multiset().count(t[i]) >= 2) by {
                lemma_two_positions_count(t, i, j);
            }
            assert(s.to_multiset().count(t[i]) == 1);
        }
        lemma_path_before_properties(t[i], t[j], t[i]);
    }
}

proof fn lemma_two_positions_count(t: Seq<Seq<char>>, i: int, j: int)
    requires
        0 <= i < j < t.len(),
        t[i] == t[j],
    ensures
        t.to_multiset().count(t[i]) >= 2,
{
    broadcast use vstd::multiset::group_multiset_axioms;

    let x = t[i];
    let u = t.remove(j);
    vstd::seq_lib::to_multiset_remove(t, j);
    assert(u[i] == x);
    assert(u.contains(x));
    assert(u.to_multiset().count(x) > 0);
    assert(t.to_multiset().count(x) > 0);
    assert(u.to_multiset() == t.to_multiset().remove(t[j]));
    assert(t.to_multiset().remove(x).count(x) == t.to_multiset().count(x) - 1);
}

/// Whether the list `v` holds the path `x`.
pub fn contains_path(v: &Vec<String>, x: &String) -> (r: bool)
    ensures
        r == views(v@).contains(x@),
{
    let mut i: usize = 0;
    while i < v.len()
        invariant
            i <= v.len(),
            forall|k: int| 0 <= k < i ==> views(v@)[k] != x@,
        decreases v.len() - i,
    {
        if v[i] == *x {
            assert(views(v@)[i as int] == x@);
            return true;
        }
        i = i + 1;
    }
    false
}

/// Drops every repeat from a sorted list: the result holds each path of `v` once, in order.
pub fn dedup_sorted(v: Vec<String>) -> (r: Vec<String>)
    requires
        sorted_by(views(v@), path_order()),
    ensures
        strictly_sorted(views(r@)),
        views(r@).to_set() == views(v@).to_set(),
{
    proof {
        lemma_path_order_total();
    }
    let ghost input = views(v@);
    let mut r: Vec<String> = Vec::new();
    let n = v.len();
    let mut i: usize = 0;
    while i < n
        invariant
            n == v.len(),
            input == views(v@),
            i <= n,
            total_ordering(path_order()),
            sorted_by(input, path_order()),
            strictly_sorted(views(r@)),
            views(r@).to_set() == input.take(i as int).to_set(),
            i > 0 ==> r.len() > 0 && views(r@).last() == input[i - 1],
            i == 0 ==> r.len() == 0,
        decreases n - i,
    {
        let x = v[i].clone();
        assert(input.take(i + 1) =~= input.take(i as int).push(input[i as int]));
        if r.len() == 0 || !(r[r.len() - 1] == x) {
            let ghost before = views(r@);
            r.push(x);
            proof {
                assert(views(r@) =~= before.push(input[i as int]));
                if i > 0 {
                    assert(path_order()(input[i - 1], input[i as int]));
                    lemma_path_before_properties(input[i - 1], input[i as int], input[i - 1]);
                    assert forall|p: int, q: int| 0 <= p < q < views(r@).len() implies path_before(
                        #[trigger] views(r@)[p],
                        #[trigger] views(r@)[q],
                    ) by {
                        if q == views(r@).len() - 1 && p < q - 1 {
                            lemma_path_before_properties(before[p], before.last(), input[i as int]);
                        }
                    }
                }
                assert(views(r@).to_set() =~= before.to_set().insert(input[i as int]));
                assert(input.take(i + 1).to_set() =~= input.take(i as int).to_set().insert(input[i as int]));
            }
        } else {
            proof {
                assert(input.take(i + 1).to_set() =~= input.take(i as int).to_set().insert(input[i as int]));
                assert(views(r@).to_set().contains(views(r@).last()));
                assert(views(r@).to_set() =~= views(r@).to_set().insert(input[i as int]));
            }
        }
        i = i + 1;
    }
    proof {
        assert(input.take(n as int) =~= input);
    }
    r
}

/// Sorts a list of paths and drops repeats.
pub fn sorted_distinct_paths(v: Vec<String>) -> (r: Vec<String>)
    ensures
        strictly_sorted(views(r@)),
        views(r@).to_set() == views(v@).to_set(),
        views(r@) == sorted_set(views(v@).to_set()),
{
    let ghost input = views(v@);
    let s = sort_paths(v);
    proof {
        lemma_path_order_total();
        input.lemma_sort_by_ensures(path_order());
        let t = input.sort_by(path_order());
        assert forall|x: Seq<char>| t.to_set().contains(x) == input.to_set().contains(x) by {
            assert(t.to_multiset().count(x) == input.to_multiset().count(x));
        }
        assert(t.to_set() =~= input.to_set());
    }
    let r = dedup_sorted(s);
    proof {
        lemma_sorted_set_of(views(r@));
    }
    r
}


/// The paths of `s` that do not name a path named earlier in `s`, in order:
/// of the texts that name one path, the first.
pub open spec fn first_occurrences(s: Seq<Seq<char>>) -> Seq<Seq<char>>
    decreases s.len(),
{
    if s.len() == 0 {
        Seq::empty()
    } else {
        let prev = first_occurrences(s.drop_last());
        if exists|j: int| 0 <= j < s.len() - 1 && same_path(#[trigger] s[j], s.last()) {
            prev
        } else {
            prev.push(s.last())
        }
    }
}

/// No two entries of `s` name the same path.
pub open spec fn names_distinct(s: Seq<Seq<char>>) -> bool {
    forall|i: int, j: int| 0 <= i < s.len() && 0 <= j < s.len() && i != j ==> !same_path(#[trigger] s[i], #[trigger] s[j])
}

proof fn lemma_first_occurrences_from(s: Seq<Seq<char>>)
    ensures
        forall|k: int| 0 <= k < first_occurrences(s).len() ==> s.contains(#[trigger] first_occurrences(s)[k]),
    decreases s.len(),
{
    if s.len() > 0 {
        let t = s.drop_last();
        lemma_first_occurrences_from(t);
        let prev = first_occurrences(t);
        let f = first_occurrences(s);
        assert forall|k: int| 0 <= k < f.len() implies s.contains(#[trigger] f[k]) by {
            if k < prev.len() {
                assert(f[k] == prev[k]);
                assert(t.contains(prev[k]));
                let j = choose|j: int| 0 <= j < t.len() && t[j] == prev[k];
                assert(s[j] == t[j]);
            } else {
                assert(f[k] == s.last());
                assert(s[s.len() - 1] == s.last());
            }
        }
    }
}

proof fn lemma_first_occurrences_cover(s: Seq<Seq<char>>)
    ensures
        forall|j: int| 0 <= j < s.len() ==> exists|k: int| 0 <= k < first_occurrences(s).len() && same_path(
            #[trigger] first_occurrences(s)[k],
            #[trigger] s[j],
        ),
    decreases s.len(),
{
    if s.len() > 0 {
        let t = s.drop_last();
        lemma_first_occurrences_cover(t);
        let prev = first_occurrences(t);
        let f = first_occurrences(s);
        assert forall|j: int| 0 <= j < s.len() implies exists|k: int| 0 <= k < f.len() && same_path(
            #[trigger] f[k],
            #[trigger] s[j],
        ) by {
            if j < s.len() - 1 {
                assert(s[j] == t[j]);
                let k = choose|k: int| 0 <= k < prev.len() && same_path(#[trigger] prev[k], #[trigger] t[j]);
                assert(f[k] == prev[k]);
            } else if exists|i: int| 0 <= i < s.len() - 1 && same_path(#[trigger] s[i], s.last()) {
                let i = choose|i: int| 0 <= i < s.len() - 1 && same_path(#[trigger] s[i], s.last());
                assert(s[i] == t[i]);
                let k = choose|k: int| 0 <= k < prev.len() && same_path(#[trigger] prev[k], #[trigger] t[i]);
                assert(f[k] == prev[k]);
            } else {
                assert(f[f.len() - 1] == s.last());
            }
        }
    }
}

proof fn lemma_first_occurrences_distinct(s: Seq<Seq<char>>)
    ensures
        names_distinct(first_occurrences(s)),
    decreases s.len(),
{
    if s.len() > 0 {
        let t = s.drop_last();
        lemma_first_occurrences_distinct(t);
        lemma_first_occurrences_from(t);
        let prev = first_occurrences(t);
        let f = first_occurrences(s);
        if !exists|i: int| 0 <= i < s.len() - 1 && same_path(#[trigger] s[i], s.last()) {
            assert forall|a: int, b: int| 0 <= a < f.len() && 0 <= b < f.len() && a != b implies !same_path(
                #[trigger] f[a],
                #[trigger] f[b],
            ) by {
                if a < prev.len() && b < prev.len() {
                    assert(f[a] == prev[a] && f[b] == prev[b]);
                } else {
                    let m = if a < prev.len() { a } else { b };
                    assert(f[m] == prev[m]);
                    assert(t.contains(prev[m]));
                    let j = choose|j: int| 0 <= j < t.len() && t[j] == prev[m];
                    assert(s[j] == prev[m]);
                    assert(!same_path(s[j], s.last()));
                }
            }
        }
    }
}

proof fn lemma_first_occurrences(s: Seq<Seq<char>>)
    ensures
        names_distinct(first_occurrences(s)),
        forall|k: int| 0 <= k < first_occurrences(s).len() ==> s.contains(#[trigger] first_occurrences(s)[k]),
        forall|j: int| 0 <= j < s.len() ==> exists|k: int| 0 <= k < first_occurrences(s).len() && same_path(
            #[trigger] first_occurrences(s)[k],
            #[trigger] s[j],
        ),
{
    lemma_first_occurrences_from(s);
    lemma_first_occurrences_cover(s);
    lemma_first_occurrences_distinct(s);
}

proof fn lemma_first_step(prev: Seq<Seq<char>>, x: Seq<char>)
    ensures
        first_occurrences(prev.push(x)) == (if exists|q: int|
            0 <= q < first_occurrences(prev).len() && same_path(#[trigger] first_occurrences(prev)[q], x) {
            first_occurrences(prev)
        } else {
            first_occurrences(prev).push(x)
        }),
{
    let s = prev.push(x);
    let r = first_occurrences(prev);
    lemma_first_occurrences(prev);
    assert(s.drop_last() =~= prev);
    assert(s.last() == x);
    if exists|q: int| 0 <= q < r.len() && same_path(#[trigger] r[q], x) {
        let q = choose|q: int| 0 <= q < r.len() && same_path(#[trigger] r[q], x);
        assert(prev.contains(r[q]));
        let j = choose|j: int| 0 <= j < prev.len() && prev[j] == r[q];
        assert(s[j] == prev[j]);
        assert(same_path(s[j], s.last()));
    } else {
        assert forall|j: int| 0 <= j < s.len() - 1 implies !same_path(#[trigger] s[j], s.last()) by {
            assert(s[j] == prev[j]);
            let q = choose|q: int| 0 <= q < r.len() && same_path(#[trigger] r[q], #[trigger] prev[j]);
            lemma_same_path_equivalence(r[q], prev[j], x);
        }
    }
}

/// Keeps, of the paths of `v` that name one path, the first, in order.
pub fn first_of_each(v: Vec<String>) -> (r: Vec<String>)
    ensures
        views(r@) == first_occurrences(views(v@)),
{
    let ghost input = views(v@);
    let mut r: Vec<String> = Vec::new();
    let mut i: usize = 0;
    while i < v.len()
        invariant
            input == views(v@),
            i <= v.len(),
            views(r@) == first_occurrences(input.take(i as int)),
        decreases v.len() - i,
    {
        let mut found = false;
        let mut k: usize = 0;
        while k < r.len()
            invariant
                i < v.len(),
                k <= r.len(),
                found ==> exists|q: int| 0 <= q < r.len() && same_path(#[trigger] views(r@)[q], v@[i as int]@),
                !found ==> forall|q: int| 0 <= q < k ==> !same_path(#[trigger] views(r@)[q], v@[i as int]@),
            decreases r.len() - k,
        {
            if same_path_exec(r[k].as_str(), v[i].as_str()) {
                assert(views(r@)[k as int] == r@[k as int]@);
                found = true;
            }
            k = k + 1;
        }
        proof {
            assert(input.take(i + 1) =~= input.take(i as int).push(input[i as int]));
            lemma_first_step(input.take(i as int), input[i as int]);
        }
        if !found {
            let c = v[i].clone();
            let ghost before = views(r@);
            r.push(c);
            assert(views(r@) =~= before.push(input[i as int]));
        }
        i = i + 1;
    }
    assert(input.take(v.len() as int) =~= input);
    r
}

/// The paths of `v`, each path named once by the first text that names it,
/// sorted by the path order.
pub fn sorted_first_paths(v: Vec<String>) -> (r: Vec<String>)
    ensures
        strictly_sorted(views(r@)),
        names_distinct(views(r@)),
        views(r@) == sorted_set(first_occurrences(views(v@)).to_set()),
        forall|k: int| 0 <= k < r.len() ==> views(v@).contains(#[trigger] views(r@)[k]),
        forall|j: int| 0 <= j < v.len() ==> exists|k: int| 0 <= k < r.len() && same_path(
            #[trigger] views(r@)[k],
            #[trigger] views(v@)[j],
        ),
{
    let ghost input = views(v@);
    let f = first_of_each(v);
    let ghost fv = views(f@);
    proof {
        lemma_first_occurrences(input);
        assert(fv.no_duplicates()) by {
            assert forall|a: int, b: int| 0 <= a < fv.len() && 0 <= b < fv.len() && a != b implies fv[a] != fv[b] by {
                assert(!same_path(fv[a], fv[b]));
            }
        }
        lemma_sort_distinct(fv);
    }
    let r = sort_paths(f);
    proof {
        let rv = views(r@);
        lemma_sorted_set_of(rv);
        assert forall|a: int, b: int| 0 <= a < rv.len() && 0 <= b < rv.len() && a != b implies !same_path(
            #[trigger] rv[a],
            #[trigger] rv[b],
        ) by {
            assert(rv.to_set().contains(rv[a]));
            assert(rv.to_set().contains(rv[b]));
            assert(fv.to_set().contains(rv[a]));
            assert(fv.to_set().contains(rv[b]));
            let x = choose|x: int| 0 <= x < fv.len() && fv[x] == rv[a];
            let y = choose|y: int| 0 <= y < fv.len() && fv[y] == rv[b];
            lemma_path_before_properties(rv[a], rv[b], rv[a]);
            if a < b {
                assert(path_before(rv[a], rv[b]));
            } else {
                assert(path_before(rv[b], rv[a]));
            }
            assert(x != y);
        }
        assert forall|k: int| 0 <= k < rv.len() implies input.contains(#[trigger] rv[k]) by {
            assert(rv.to_set().contains(rv[k]));
            assert(fv.to_set().contains(rv[k]));
            let x = choose|x: int| 0 <= x < fv.len() && fv[x] == rv[k];
        }
        assert forall|j: int| 0 <= j < input.len() implies exists|k: int| 0 <= k < rv.len() && same_path(
            #[trigger] rv[k],
            #[trigger] input[j],
        ) by {
            let x = choose|x: int| 0 <= x < fv.len() && same_path(#[trigger] fv[x], #[trigger] input[j]);
            assert(fv.to_set().contains(fv[x]));
            assert(rv.to_set().contains(fv[x]));
            let k = choose|k: int| 0 <= k < rv.len() && rv[k] == fv[x];
        }
    }
    r
}

/// The `/`-separated pieces of a text, in order, empty pieces included.
pub open spec fn text_pieces(s: Seq<char>) -> Seq<Seq<char>>
    decreases s.len(),
{
    if s.len() == 0 {
        seq![Seq::<char>::empty()]
    } else {
        let ps = text_pieces(s.drop_last());
        if s.last() == '/' {
            ps.push(Seq::<char>::empty())
        } else {
            ps.update(ps.len() - 1, ps.last().push(s.last()))
        }
    }
}

/// The last of the pieces that names something: not empty and not `.`.
pub open spec fn last_name(ps: Seq<Seq<char>>) -> Option<Seq<char>>
    decreases ps.len(),
{
    if ps.len() == 0 {
        None
    } else if ps.last().len() > 0 && ps.last() != seq!['.'] {
        Some(ps.last())
    } else {
        last_name(ps.drop_last())
    }
}

/// The file name of a path, as `std::path::Path::file_name` gives it: its
/// last component when that is a name (not the root, `.` or `..`).
pub open spec fn file_name(p: Seq<char>) -> Option<Seq<char>> {
    match last_name(text_pieces(p)) {
        Some(q) => if q == seq!['.', '.'] {
            None
        } else {
            Some(q)
        },
        None => None,
    }
}

/// The position of the last `.` among the first `n` characters, or -1.
pub open spec fn last_dot(q: Seq<char>, n: int) -> int
    decreases n,
{
    if n <= 0 {
        -1
    } else if q[n - 1] == '.' {
        n - 1
    } else {
        last_dot(q, n - 1)
    }
}

/// The extension of a path, as `std::path::Path::extension` gives it: what
/// follows the last `.` of the file name, unless that `.` begins the name.
pub open spec fn path_extension(p: Seq<char>) -> Option<Seq<char>> {
    match file_name(p) {
        Some(q) => if last_dot(q, q.len() as int) <= 0 {
            None
        } else {
            Some(q.subrange(last_dot(q, q.len() as int) + 1, q.len() as int))
        },
        None => None,
    }
}

proof fn lemma_text_pieces_step(p: Seq<char>, i: int)
    requires
        0 <= i < p.len(),
    ensures
        text_pieces(p.take(i)).len() >= 1,
        p[i] == '/' ==> text_pieces(p.take(i + 1)) == text_pieces(p.take(i)).push(Seq::<char>::empty()),
        p[i] != '/' ==> text_pieces(p.take(i + 1)).drop_last() == text_pieces(p.take(i)).drop_last(),
        p[i] != '/' ==> text_pieces(p.take(i + 1)).last() == text_pieces(p.take(i)).last().push(p[i]),
        p[i] != '/' ==> text_pieces(p.take(i + 1)).len() == text_pieces(p.take(i)).len(),
    decreases i,
{
    if i > 0 {
        lemma_text_pieces_step(p, i - 1);
    }
    assert(p.take(i + 1).drop_last() =~= p.take(i));
    assert(p.take(i + 1).last() == p[i]);
    let ps = text_pieces(p.take(i));
    if i == 0 {
        assert(p.take(0) =~= Seq::<char>::empty());
    }
    if p[i] != '/' {
        assert(ps.update(ps.len() - 1, ps.last().push(p[i])).drop_last() =~= ps.drop_last());
    }
}

/// Where the last piece of `p` that names something lies.
fn last_name_span(p: &str) -> (r: Option<(usize, usize)>)
    ensures
        match r {
            None => last_name(text_pieces(p@)) is None,
            Some((a, b)) => a <= b <= p@.len() && last_name(text_pieces(p@)) == Some(p@.subrange(a as int, b as int)),
        },
{
    let n = p.unicode_len();
    let mut start: usize = 0;
    let mut best: Option<(usize, usize)> = None;
    let mut i: usize = 0;
    assert(p@.take(0) =~= Seq::<char>::empty());
    assert(text_pieces(p@.take(0)).drop_last() =~= Seq::<Seq<char>>::empty());
    assert(p@.subrange(0, 0) =~= text_pieces(p@.take(0)).last());
    while i < n
        invariant
            n == p@.len(),
            start <= i <= n,
            text_pieces(p@.take(i as int)).len() >= 1,
            text_pieces(p@.take(i as int)).last() == p@.subrange(start as int, i as int),
            match best {
                None => last_name(text_pieces(p@.take(i as int)).drop_last()) is None,
                Some((a, b)) => a <= b <= n && last_name(text_pieces(p@.take(i as int)).drop_last()) == Some(
                    p@.subrange(a as int, b as int),
                ),
            },
        decreases n - i,
    {
        let c = p.get_char(i);
        let ghost ps = text_pieces(p@.take(i as int));
        proof {
            lemma_text_pieces_step(p@, i as int);
        }
        if c == '/' {
            let len = i - start;
            let is_dot = len == 1 && p.get_char(start) == '.';
            proof {
                let q = p@.subrange(start as int, i as int);
                assert(ps.push(Seq::<char>::empty()).drop_last() =~= ps);
                assert(ps =~= ps.drop_last().push(q));
                lemma_dot_piece(q, p@, start as int, is_dot);
            }
            if len > 0 && !is_dot {
                best = Some((start, i));
            }
            start = i + 1;
            assert(p@.subrange(start as int, (i + 1) as int) =~= Seq::<char>::empty());
        } else {
            proof {
                assert(p@.subrange(start as int, (i + 1) as int) =~= p@.subrange(start as int, i as int).push(c));
            }
        }
        i = i + 1;
    }
    assert(p@.take(n as int) =~= p@);
    let ghost ps = text_pieces(p@);
    let ghost q = p@.subrange(start as int, n as int);
    assert(ps =~= ps.drop_last().push(q));
    let len = n - start;
    let is_dot = len == 1 && p.get_char(start) == '.';
    proof {
        lemma_dot_piece(q, p@, start as int, is_dot);
    }
    if len > 0 && !is_dot {
        Some((start, n))
    } else {
        best
    }
}

proof fn lemma_dot_piece(q: Seq<char>, p: Seq<char>, start: int, is_dot: bool)
    requires
        0 <= start,
        start + q.len() <= p.len(),
        q == p.subrange(start, start + q.len()),
        is_dot == (q.len() == 1 && p[start] == '.'),
    ensures
        is_dot == (q == seq!['.']),
{
    if q.len() == 1 {
        assert(q[0] == p[start]);
        if is_dot {
            assert(q =~= seq!['.']);
        } else {
            assert(q[0] != seq!['.'][0]);
        }
    }
}

/// The extension of the path, as `std::path::Path::extension` gives it.
pub fn path_extension_exec(p: &str) -> (r: Option<String>)
    ensures
        r is Some <==> path_extension(p@) is Some,
        r matches Some(e) ==> path_extension(p@) == Some(e@),
{
    let n = p.unicode_len();
    let (a, b) = match last_name_span(p) {
        Some(x) => x,
        None => {
            return None;
        },
    };
    let ghost name = p@.subrange(a as int, b as int);
    let nlen = b - a;
    if nlen == 2 && p.get_char(a) == '.' && p.get_char(a + 1) == '.' {
        assert(name =~= seq!['.', '.']);
        return None;
    }
    assert(name != seq!['.', '.']) by {
        if name == seq!['.', '.'] {
            assert(name.len() == 2);
            assert(name[0] == seq!['.', '.'][0]);
            assert(name[1] == seq!['.', '.'][1]);
            assert(name[0] == p@[a as int] && name[1] == p@[a + 1]);
        }
    }
    let mut k: usize = nlen;
    while k > 0 && p.get_char(a + k - 1) != '.'
        invariant
            n == p@.len(),
            a <= b <= n,
            nlen == b - a,
            k <= nlen,
            name == p@.subrange(a as int, b as int),
            last_dot(name, nlen as int) == last_dot(name, k as int),
        decreases k,
    {
        assert(name[k - 1] == p@[a + k - 1]);
        k = k - 1;
    }
    if k > 0 {
        assert(name[k - 1] == p@[a + k - 1]);
    }
    if k <= 1 {
        return None;
    }
    let ext = p.substring_char(a + k, b);
    assert(ext@ =~= name.subrange(k as int, nlen as int));
    Some(String::from_str(ext))
}

/// Whether every path of `v` sorts strictly before the next one.
pub fn is_strictly_sorted(v: &Vec<String>) -> (r: bool)
    ensures
        r == strictly_sorted(views(v@)),
{
    if v.len() < 2 {
        return true;
    }
    let mut i: usize = 1;
    while i < v.len()
        invariant
            1 <= i <= v.len(),
            strictly_sorted(views(v@).take(i as int)),
        decreases v.len() - i,
    {
        if !path_before_exec(v[i - 1].as_str(), v[i].as_str()) {
            assert(!strictly_sorted(views(v@))) by {
                assert(!path_before(views(v@)[i - 1], views(v@)[i as int]));
            }
            return false;
        }
        proof {
            let s = views(v@).take(i + 1);
            assert forall|p: int, q: int| 0 <= p < q < s.len() implies path_before(#[trigger] s[p], #[trigger] s[q]) by {
                if q == i && p < i - 1 {
                    assert(path_before(views(v@).take(i as int)[p], views(v@).take(i as int)[i - 1]));
                    lemma_path_before_properties(s[p], s[i - 1], s[q]);
                } else if q < i {
                    assert(path_before(views(v@).take(i as int)[p], views(v@).take(i as int)[q]));
                }
            }
        }
        i = i + 1;
    }
    assert(views(v@).take(v.len() as int) =~= views(v@));
    true
}

/// Whether no two paths of `v` name the same path.
pub fn has_distinct_names(v: &Vec<String>) -> (r: bool)
    ensures
        r == names_distinct(views(v@)),
{
    let ghost u = views(v@);
    let mut i: usize = 0;
    while i < v.len()
        invariant
            u == views(v@),
            i <= v.len(),
            forall|a: int, b: int| 0 <= a < i && 0 <= b < u.len() && a != b ==> !same_path(#[trigger] u[a], #[trigger] u[b]),
        decreases v.len() - i,
    {
        let mut j: usize = 0;
        while j < v.len()
            invariant
                u == views(v@),
                i < v.len(),
                j <= v.len(),
                forall|a: int, b: int| 0 <= a < i && 0 <= b < u.len() && a != b ==> !same_path(#[trigger] u[a], #[trigger] u[b]),
                forall|b: int| 0 <= b < j && b != i ==> !same_path(u[i as int], #[trigger] u[b]),
            decreases v.len() - j,
        {
            if j != i && same_path_exec(v[i].as_str(), v[j].as_str()) {
                assert(!names_distinct(u)) by {
                    assert(same_path(u[i as int], u[j as int]));
                }
                return false;
            }
            j = j + 1;
        }
        i = i + 1;
    }
    true
}

} // verus!
